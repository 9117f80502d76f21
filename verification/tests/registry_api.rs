use metajuke::{Error, MetaJuke};

const ADMIN: u64 = 1;
const TOKEN: u64 = 900;
const ALICE: u64 = 10;
const BOB: u64 = 11;

fn base() -> MetaJuke {
    let mut s = MetaJuke::initialize(ADMIN, TOKEN, 250);
    s.register_user(ALICE, 100, String::from("a"), true).unwrap();
    s.register_user(BOB, 101, String::from("b"), true).unwrap();
    s
}

#[test]
fn initialize_sets_configuration() {
    let s = MetaJuke::initialize(ADMIN, TOKEN, 250);
    assert_eq!(s.admin, ADMIN);
    assert_eq!(s.token_stellar, TOKEN);
    assert_eq!(s.platform_fee, 250);
    assert_eq!(s.get_platform_stats(), (0, 0, 0));
}

#[test]
fn platform_fee_rules() {
    let mut s = base();
    assert_eq!(s.update_platform_fee(BOB, 100), Err(Error::Unauthorized));
    // the cap is 2000 basis points
    assert_eq!(s.update_platform_fee(ADMIN, 2001), Err(Error::ValidationError));
    s.update_platform_fee(ADMIN, 2000).unwrap();
    assert_eq!(s.platform_fee, 2000);
}

#[test]
fn register_user_rules() {
    let mut s = base();
    // an unowned NFT is refused
    assert_eq!(
        s.register_user(50, 500, String::from("x"), false),
        Err(Error::Unauthorized)
    );
    // a duplicate principal is refused
    assert_eq!(
        s.register_user(ALICE, 700, String::from("x"), true),
        Err(Error::AlreadyExists)
    );
    // an NFT already bound to another user is refused
    assert_eq!(
        s.register_user(50, 100, String::from("x"), true),
        Err(Error::AlreadyExists)
    );
    let u = s.get_user(ALICE).unwrap();
    assert_eq!(u.profile_nft, 100);
    assert_eq!(u.reputation, 100);
    assert!(u.is_active);
}

#[test]
fn register_artist_rules() {
    let mut s = base();
    assert_eq!(s.register_artist(77, String::from("x")), Err(Error::NotFound));
    s.register_artist(ALICE, String::from("alice")).unwrap();
    assert_eq!(
        s.register_artist(ALICE, String::from("again")),
        Err(Error::AlreadyExists)
    );
    let a = s.get_artist(ALICE).unwrap();
    assert_eq!(a.user_id, ALICE);
    assert_eq!(a.revenue_balance, 0);
    assert!(!a.verified);
}

#[test]
fn update_user_profile_replaces_avatar() {
    let mut s = base();
    assert_eq!(
        s.update_user_profile(77, String::from("x")),
        Err(Error::NotFound)
    );
    s.update_user_profile(ALICE, String::from("new")).unwrap();
    assert_eq!(s.get_user(ALICE).unwrap().avatar_uri, String::from("new"));
}

#[test]
fn artist_verification_is_admin_only() {
    let mut s = base();
    s.register_artist(ALICE, String::from("alice")).unwrap();
    assert_eq!(
        s.update_artist_verification(BOB, ALICE, true),
        Err(Error::Unauthorized)
    );
    assert_eq!(
        s.update_artist_verification(ADMIN, BOB, true),
        Err(Error::NotFound)
    );
    s.update_artist_verification(ADMIN, ALICE, true).unwrap();
    assert!(s.get_artist(ALICE).unwrap().verified);
}

#[test]
fn mint_track_rules() {
    let mut s = base();
    // only artists mint
    assert_eq!(
        s.mint_track(
            ALICE,
            String::from("t"),
            1,
            1,
            String::from("u"),
            vec![],
            vec![(ALICE, 100)]
        ),
        Err(Error::Unauthorized)
    );
    s.register_artist(ALICE, String::from("alice")).unwrap();
    // the split must total exactly 100
    assert_eq!(
        s.mint_track(
            ALICE,
            String::from("t"),
            1,
            1,
            String::from("u"),
            vec![],
            vec![(ALICE, 60), (BOB, 39)]
        ),
        Err(Error::ValidationError)
    );
    assert_eq!(
        s.mint_track(
            ALICE,
            String::from("t"),
            1,
            1,
            String::from("u"),
            vec![],
            vec![(ALICE, 60), (BOB, 41)]
        ),
        Err(Error::ValidationError)
    );
    // a negative price is refused
    assert_eq!(
        s.mint_track(
            ALICE,
            String::from("t"),
            -1,
            1,
            String::from("u"),
            vec![],
            vec![(ALICE, 100)]
        ),
        Err(Error::ValidationError)
    );
    let id = s
        .mint_track(
            ALICE,
            String::from("t"),
            5,
            3,
            String::from("u"),
            vec![BOB],
            vec![(ALICE, 100)],
        )
        .unwrap();
    assert_eq!(id, 1);
    assert_eq!(s.get_total_tracks(), 1);
    let t = s.get_track(id).unwrap();
    assert_eq!(t.artist_id, ALICE);
    assert_eq!(t.base_price, 5);
    assert_eq!(t.licenses_remaining, 3);
    assert_eq!(s.get_artist_tracks(ALICE), Ok(vec![1]));
    assert_eq!(s.get_artist_tracks(BOB), Err(Error::NotFound));
}

#[test]
fn update_track_is_owner_only() {
    let mut s = base();
    s.register_artist(ALICE, String::from("alice")).unwrap();
    s.register_artist(BOB, String::from("bob")).unwrap();
    let id = s
        .mint_track(
            ALICE,
            String::from("t"),
            5,
            3,
            String::from("u"),
            vec![],
            vec![(ALICE, 100)],
        )
        .unwrap();
    assert_eq!(s.update_track(BOB, id, 9, 9, String::from("v")), Err(Error::Unauthorized));
    assert_eq!(s.update_track(ALICE, 999, 9, 9, String::from("v")), Err(Error::NotFound));
    s.update_track(ALICE, id, 9, 9, String::from("v")).unwrap();
    let t = s.get_track(id).unwrap();
    assert_eq!(t.base_price, 9);
    assert_eq!(t.licenses_remaining, 9);
    assert_eq!(t.metadata_uri, String::from("v"));
}

#[test]
fn create_table_requires_registration() {
    let mut s = base();
    assert_eq!(
        s.create_table(77, String::from("t"), 2, 100),
        Err(Error::NotFound)
    );
    let id = s.create_table(ALICE, String::from("t"), 2, 100).unwrap();
    assert_eq!(id, 1);
    assert_eq!(s.get_total_tables(), 1);
    let t = s.get_table(id).unwrap();
    assert_eq!(t.owner, ALICE);
    assert_eq!(t.skip_threshold, 2);
    assert_eq!(t.member_count, 0);
    assert!(t.is_active);
    assert_eq!(t.version, 0);
}

#[test]
fn update_table_is_owner_only() {
    let mut s = base();
    let id = s.create_table(ALICE, String::from("t"), 2, 100).unwrap();
    assert_eq!(
        s.update_table(BOB, id, String::from("x"), 3, 50),
        Err(Error::Unauthorized)
    );
    s.update_table(ALICE, id, String::from("x"), 3, 50).unwrap();
    let t = s.get_table(id).unwrap();
    assert_eq!(t.name, String::from("x"));
    assert_eq!(t.skip_threshold, 3);
    assert_eq!(t.price_multiplier, 50);
}

#[test]
fn membership_idempotence() {
    let mut s = base();
    let id = s.create_table(ALICE, String::from("t"), 2, 100).unwrap();
    s.join_table(BOB, id, 11).unwrap();
    // joining twice fails
    assert_eq!(s.join_table(BOB, id, 12), Err(Error::AlreadyExists));
    // leaving then rejoining succeeds and resets the join time
    s.leave_table(BOB, id).unwrap();
    assert!(!s.is_table_member(BOB, id));
    assert_eq!(s.leave_table(BOB, id), Err(Error::NotFound));
    s.join_table(BOB, id, 99).unwrap();
    assert!(s.is_table_member(BOB, id));
    assert_eq!(s.get_table(id).unwrap().members[0].joined_at, 99);
    assert_eq!(s.get_table_member_count(id), 1);
}

#[test]
fn join_table_rules() {
    let mut s = base();
    let id = s.create_table(ALICE, String::from("t"), 2, 100).unwrap();
    assert_eq!(s.join_table(77, id, 1), Err(Error::NotFound));
    assert_eq!(s.join_table(BOB, 999, 1), Err(Error::NotFound));
    s.set_table_status(ALICE, id, false).unwrap();
    assert_eq!(s.join_table(BOB, id, 1), Err(Error::InvalidState));
}

#[test]
fn leave_strips_pending_vote() {
    let mut s = base();
    s.register_artist(ALICE, String::from("alice")).unwrap();
    let track = s
        .mint_track(
            ALICE,
            String::from("t"),
            0,
            1,
            String::from("u"),
            vec![],
            vec![(ALICE, 100)],
        )
        .unwrap();
    let id = s.create_table(ALICE, String::from("t"), 5, 100).unwrap();
    s.join_table(ALICE, id, 1).unwrap();
    s.join_table(BOB, id, 2).unwrap();
    let nonce: Vec<u8> = vec![1; 16];
    s.request_track(ALICE, track, id, 0, true, &nonce, 3).unwrap();
    s.advance_queue(id).unwrap();
    s.vote_to_skip(BOB, id).unwrap();
    assert_eq!(s.has_voted_to_skip(BOB, id), Ok(true));
    s.leave_table(BOB, id).unwrap();
    assert_eq!(s.has_voted_to_skip(BOB, id), Ok(false));
    assert!(s.get_table(id).unwrap().skip_votes.is_empty());
}

#[test]
fn admin_flag_rules() {
    let mut s = base();
    let id = s.create_table(ALICE, String::from("t"), 2, 100).unwrap();
    s.join_table(BOB, id, 1).unwrap();
    assert_eq!(s.add_table_admin(BOB, id, BOB), Err(Error::Unauthorized));
    assert_eq!(s.add_table_admin(ALICE, id, 77), Err(Error::NotFound));
    s.add_table_admin(ALICE, id, BOB).unwrap();
    assert!(s.is_table_admin(BOB, id));
    // the grant does not touch base membership
    assert!(s.is_table_member(BOB, id));
    s.remove_table_admin(ALICE, id, BOB).unwrap();
    assert!(!s.is_table_admin(BOB, id));
    assert!(s.is_table_member(BOB, id));
}

#[test]
fn roster_and_table_listings() {
    let mut s = base();
    let t1 = s.create_table(ALICE, String::from("one"), 2, 100).unwrap();
    let t2 = s.create_table(ALICE, String::from("two"), 2, 100).unwrap();
    s.join_table(ALICE, t1, 1).unwrap();
    s.join_table(BOB, t1, 2).unwrap();
    s.join_table(BOB, t2, 3).unwrap();
    assert_eq!(s.get_table_members(t1), Ok(vec![ALICE, BOB]));
    assert_eq!(s.get_table_members(999), Err(Error::NotFound));
    assert_eq!(s.get_user_tables(BOB), vec![t1, t2]);
    assert_eq!(s.get_user_tables(ALICE), vec![t1]);
    assert_eq!(s.get_queue(999), Vec::<Vec<u8>>::new());
    assert!(s.get_table_requests(t1).unwrap().is_empty());
}

#[test]
fn getters_miss_cleanly() {
    let s = base();
    assert!(s.get_user(77).is_none());
    assert!(s.get_artist(77).is_none());
    assert!(s.get_track(77).is_none());
    assert!(s.get_table(77).is_none());
    assert_eq!(s.get_table_member_count(77), 0);
    assert!(!s.is_table_member(ALICE, 77));
    assert!(!s.is_table_admin(ALICE, 77));
    assert_eq!(s.has_voted_to_skip(ALICE, 77), Err(Error::NotFound));
}

#[test]
fn counters_track_mints_and_tables() {
    let mut s = base();
    s.register_artist(ALICE, String::from("alice")).unwrap();
    s.mint_track(
        ALICE,
        String::from("t"),
        1,
        1,
        String::from("u"),
        vec![],
        vec![(ALICE, 100)],
    )
    .unwrap();
    s.create_table(ALICE, String::from("t"), 2, 100).unwrap();
    s.create_table(ALICE, String::from("u"), 2, 100).unwrap();
    assert_eq!(s.get_total_tracks(), 1);
    assert_eq!(s.get_total_tables(), 2);
    assert_eq!(s.get_total_requests(), 0);
    assert_eq!(s.get_platform_stats(), (1, 2, 0));
}
