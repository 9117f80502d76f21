use metajuke::{Error, MetaJuke};
use sha2::Digest;

const ADMIN: u64 = 1;
const TOKEN: u64 = 900;
const ALICE: u64 = 10;
const BOB: u64 = 11;
const CARA: u64 = 12;

/// A state with three registered users, Alice as artist, one minted track
/// and one table owned by Alice with the given skip threshold.
fn setup(threshold: u32) -> (MetaJuke, u32, u32) {
    let mut s = MetaJuke::initialize(ADMIN, TOKEN, 250);
    s.register_user(ALICE, 100, String::from("a"), true).unwrap();
    s.register_user(BOB, 101, String::from("b"), true).unwrap();
    s.register_user(CARA, 102, String::from("c"), true).unwrap();
    s.register_artist(ALICE, String::from("alice")).unwrap();
    let track = s
        .mint_track(
            ALICE,
            String::from("song"),
            100,
            5,
            String::from("uri"),
            vec![ALICE],
            vec![(ALICE, 100)],
        )
        .unwrap();
    let table = s.create_table(ALICE, String::from("table"), threshold, 100).unwrap();
    s.join_table(ALICE, table, 1).unwrap();
    s.join_table(BOB, table, 2).unwrap();
    s.join_table(CARA, table, 3).unwrap();
    (s, track, table)
}

fn enqueue_one(s: &mut MetaJuke, track: u32, table: u32, nonce_byte: u8) -> Vec<u8> {
    let charge = s.quote_request(ALICE, track, table).unwrap();
    let nonce: Vec<u8> = vec![nonce_byte; 16];
    s.request_track(ALICE, track, table, charge, true, &nonce, 7).unwrap()
}

#[test]
fn queue_fifo_order() {
    let (mut s, track, table) = setup(2);
    let r1 = enqueue_one(&mut s, track, table, 1);
    let r2 = enqueue_one(&mut s, track, table, 2);
    let r3 = enqueue_one(&mut s, track, table, 3);
    assert_ne!(r1, r2);
    assert_eq!(s.get_queue(table), vec![r1.clone(), r2.clone(), r3.clone()]);
    assert_eq!(s.advance_queue(table).unwrap(), Some(r1));
    assert_eq!(s.advance_queue(table).unwrap(), Some(r2));
    assert_eq!(s.advance_queue(table).unwrap(), Some(r3.clone()));
    assert_eq!(s.get_table(table).unwrap().current_track, Some(r3));
    assert_eq!(s.advance_queue(table).unwrap(), None);
    assert_eq!(s.get_table(table).unwrap().current_track, None);
}

#[test]
fn advance_clears_votes() {
    let (mut s, track, table) = setup(5);
    enqueue_one(&mut s, track, table, 1);
    enqueue_one(&mut s, track, table, 2);
    s.advance_queue(table).unwrap();
    assert_eq!(s.vote_to_skip(BOB, table).unwrap(), false);
    assert_eq!(s.has_voted_to_skip(BOB, table).unwrap(), true);
    s.advance_queue_public(ALICE, table).unwrap();
    assert_eq!(s.has_voted_to_skip(BOB, table).unwrap(), false);
    assert!(s.get_table(table).unwrap().skip_votes.is_empty());
}

#[test]
fn threshold_exactness() {
    let (mut s, track, table) = setup(2);
    enqueue_one(&mut s, track, table, 1);
    enqueue_one(&mut s, track, table, 2);
    s.advance_queue(table).unwrap();
    // one distinct voter never triggers the advance
    assert_eq!(s.vote_to_skip(BOB, table).unwrap(), false);
    // the same voter casting twice does not trigger it either
    assert_eq!(s.vote_to_skip(BOB, table).unwrap(), false);
    // a second distinct voter does
    assert_eq!(s.vote_to_skip(CARA, table).unwrap(), true);
}

#[test]
fn zero_threshold_first_vote_advances() {
    let (mut s, track, table) = setup(0);
    enqueue_one(&mut s, track, table, 1);
    s.advance_queue(table).unwrap();
    assert_eq!(s.vote_to_skip(BOB, table).unwrap(), true);
}

#[test]
fn vote_errors() {
    let (mut s, _track, table) = setup(2);
    assert_eq!(s.vote_to_skip(BOB, 999), Err(Error::NotFound));
    // nothing playing yet
    assert_eq!(s.vote_to_skip(BOB, table), Err(Error::InvalidState));
    // not a member
    let mut t = MetaJuke::initialize(ADMIN, TOKEN, 0);
    t.register_user(ALICE, 100, String::from("a"), true).unwrap();
    t.register_user(BOB, 101, String::from("b"), true).unwrap();
    let tb = t.create_table(ALICE, String::from("t"), 2, 100).unwrap();
    assert_eq!(t.vote_to_skip(BOB, tb), Err(Error::Unauthorized));
}

#[test]
fn concurrent_vote_race_single_advance() {
    let (mut s, track, table) = setup(2);
    enqueue_one(&mut s, track, table, 1);
    enqueue_one(&mut s, track, table, 2);
    s.advance_queue(table).unwrap();
    let seen = s.get_table(table).unwrap().version;
    let playing = s.get_table(table).unwrap().current_track.clone();
    // both voters read the same version; the first write wins
    assert_eq!(s.vote_to_skip_checked(BOB, table, seen), Ok(false));
    // the second write sees a stale version and changes nothing
    assert_eq!(s.vote_to_skip_checked(CARA, table, seen), Err(Error::Conflict));
    assert_eq!(s.get_table(table).unwrap().current_track, playing);
    // the retry with a fresh version is the one advance
    let seen2 = s.get_table(table).unwrap().version;
    assert_eq!(s.vote_to_skip_checked(CARA, table, seen2), Ok(true));
    assert_ne!(s.get_table(table).unwrap().current_track, playing);
}

#[test]
fn royalty_conservation_exact() {
    let mut s = MetaJuke::initialize(ADMIN, TOKEN, 250);
    s.register_user(ALICE, 100, String::from("a"), true).unwrap();
    s.register_user(BOB, 101, String::from("b"), true).unwrap();
    s.register_artist(ALICE, String::from("alice")).unwrap();
    s.register_artist(BOB, String::from("bob")).unwrap();
    let track = s
        .mint_track(
            ALICE,
            String::from("song"),
            100,
            5,
            String::from("uri"),
            vec![ALICE, BOB],
            vec![(ALICE, 60), (BOB, 40)],
        )
        .unwrap();
    let transfers = s.distribute_royalties(track, 1000).unwrap();
    // fee 25 to the admin, then 585 and 390: 1000 exactly, no remainder
    assert_eq!(transfers, vec![(ADMIN, 25), (ALICE, 585), (BOB, 390)]);
    let total: i128 = transfers.iter().map(|t| t.1).sum();
    assert_eq!(total, 1000);
    assert_eq!(s.get_artist(ALICE).unwrap().revenue_balance, 585);
    assert_eq!(s.get_artist(BOB).unwrap().revenue_balance, 390);
}

#[test]
fn royalty_rounding_dust() {
    let mut s = MetaJuke::initialize(ADMIN, TOKEN, 250);
    s.register_user(ALICE, 100, String::from("a"), true).unwrap();
    s.register_user(BOB, 101, String::from("b"), true).unwrap();
    s.register_artist(ALICE, String::from("alice")).unwrap();
    s.register_artist(BOB, String::from("bob")).unwrap();
    let track = s
        .mint_track(
            ALICE,
            String::from("song"),
            100,
            5,
            String::from("uri"),
            vec![ALICE, BOB],
            vec![(ALICE, 50), (BOB, 50)],
        )
        .unwrap();
    let transfers = s.distribute_royalties(track, 333).unwrap();
    // fee = floor(333*250/10000) = 8, pool = 325, shares 162 each;
    // 332 distributed, 1 unit stays unallocated
    assert_eq!(transfers, vec![(ADMIN, 8), (ALICE, 162), (BOB, 162)]);
    let total: i128 = transfers.iter().map(|t| t.1).sum();
    assert_eq!(total, 332);
    // the run is deterministic and reproducible
    let again = s.distribute_royalties(track, 333).unwrap();
    assert_eq!(again, vec![(ADMIN, 8), (ALICE, 162), (BOB, 162)]);
}

#[test]
fn royalty_credits_only_registered_artists() {
    let mut s = MetaJuke::initialize(ADMIN, TOKEN, 0);
    s.register_user(ALICE, 100, String::from("a"), true).unwrap();
    s.register_artist(ALICE, String::from("alice")).unwrap();
    let track = s
        .mint_track(
            ALICE,
            String::from("song"),
            100,
            5,
            String::from("uri"),
            vec![],
            vec![(ALICE, 60), (BOB, 40)],
        )
        .unwrap();
    let transfers = s.distribute_royalties(track, 100).unwrap();
    // Bob is paid through the rail but has no account to credit
    assert_eq!(transfers, vec![(ADMIN, 0), (ALICE, 60), (BOB, 40)]);
    assert_eq!(s.get_artist(ALICE).unwrap().revenue_balance, 60);
    assert!(s.get_artist(BOB).is_none());
}

#[test]
fn withdraw_and_restore() {
    let mut s = MetaJuke::initialize(ADMIN, TOKEN, 0);
    s.register_user(ALICE, 100, String::from("a"), true).unwrap();
    s.register_artist(ALICE, String::from("alice")).unwrap();
    let track = s
        .mint_track(
            ALICE,
            String::from("song"),
            100,
            5,
            String::from("uri"),
            vec![],
            vec![(ALICE, 100)],
        )
        .unwrap();
    s.distribute_royalties(track, 500).unwrap();
    assert_eq!(s.withdraw_revenue(ALICE), Ok(500));
    assert_eq!(s.get_artist(ALICE).unwrap().revenue_balance, 0);
    // the external transfer failed: the compensating action restores it
    s.restore_withdrawal(ALICE, 500).unwrap();
    assert_eq!(s.get_artist(ALICE).unwrap().revenue_balance, 500);
    assert_eq!(s.withdraw_revenue(BOB), Err(Error::NotFound));
}

#[test]
fn request_track_payment_failed() {
    let (mut s, track, table) = setup(2);
    let charge = s.quote_request(ALICE, track, table).unwrap();
    assert_eq!(charge, 100);
    let nonce: Vec<u8> = vec![9; 16];
    assert_eq!(
        s.request_track(ALICE, track, table, charge, false, &nonce, 7),
        Err(Error::PaymentFailed)
    );
    // a stale amount is refused as a conflicting write
    assert_eq!(
        s.request_track(ALICE, track, table, charge + 1, true, &nonce, 7),
        Err(Error::Conflict)
    );
    assert_eq!(s.get_total_requests(), 0);
}

#[test]
fn request_track_records_and_enqueues() {
    let (mut s, track, table) = setup(2);
    let nonce: Vec<u8> = vec![9; 16];
    let rid = s.request_track(ALICE, track, table, 100, true, &nonce, 42).unwrap();
    assert_eq!(rid.len(), 32);
    let rec = s.get_request(&rid).unwrap();
    assert_eq!(rec.requester, ALICE);
    assert_eq!(rec.track_id, track);
    assert_eq!(rec.table_id, table);
    assert_eq!(rec.timestamp, 42);
    assert_eq!(rec.amount_paid, 100);
    assert!(!rec.fulfilled);
    assert_eq!(s.get_queue(table), vec![rid.clone()]);
    assert_eq!(s.get_total_requests(), 1);
    let listed = s.get_table_requests(table).unwrap();
    assert_eq!(listed.len(), 1);
    assert_eq!(listed[0].request_id, rid);
}

#[test]
fn request_id_is_the_payload_digest() {
    let (mut s, track, table) = setup(2);
    let nonce: Vec<u8> = vec![7; 16];
    let rid = s.request_track(ALICE, track, table, 100, true, &nonce, 7).unwrap();
    let mut payload: Vec<u8> = Vec::new();
    payload.extend_from_slice(&table.to_be_bytes());
    payload.extend_from_slice(&track.to_be_bytes());
    payload.extend_from_slice(&nonce);
    let expected: Vec<u8> = sha2::Sha256::digest(&payload).to_vec();
    assert_eq!(rid, expected);
}

#[test]
fn advance_marks_request_fulfilled_and_counts_play() {
    let (mut s, track, table) = setup(2);
    let rid = enqueue_one(&mut s, track, table, 5);
    assert_eq!(s.get_track(track).unwrap().play_count, 0);
    assert_eq!(s.get_track(track).unwrap().licenses_remaining, 5);
    s.advance_queue(table).unwrap();
    assert!(s.get_request(&rid).unwrap().fulfilled);
    assert_eq!(s.get_track(track).unwrap().play_count, 1);
    assert_eq!(s.get_track(track).unwrap().licenses_remaining, 4);
}

#[test]
fn advance_authority_checks() {
    let (mut s, track, table) = setup(2);
    enqueue_one(&mut s, track, table, 1);
    // a plain member may not advance by authority
    assert_eq!(s.advance_queue_public(BOB, table), Err(Error::Unauthorized));
    // the owner may
    assert!(s.advance_queue_public(ALICE, table).unwrap().is_some());
    // an admin member may
    s.add_table_admin(ALICE, table, BOB).unwrap();
    assert!(s.advance_queue_public(BOB, table).unwrap().is_none());
    assert_eq!(s.advance_queue_public(ALICE, 999), Err(Error::NotFound));
}

#[test]
fn quote_request_errors() {
    let (mut s, track, table) = setup(2);
    assert_eq!(s.quote_request(ALICE, track, 999), Err(Error::NotFound));
    assert_eq!(s.quote_request(ALICE, 999, table), Err(Error::NotFound));
    let mut outsider = MetaJuke::initialize(ADMIN, TOKEN, 0);
    outsider.register_user(ALICE, 100, String::from("a"), true).unwrap();
    outsider.register_user(BOB, 101, String::from("b"), true).unwrap();
    outsider.register_artist(ALICE, String::from("alice")).unwrap();
    let tr = outsider
        .mint_track(
            ALICE,
            String::from("song"),
            100,
            5,
            String::from("uri"),
            vec![],
            vec![(ALICE, 100)],
        )
        .unwrap();
    let tb = outsider.create_table(ALICE, String::from("t"), 2, 100).unwrap();
    assert_eq!(outsider.quote_request(BOB, tr, tb), Err(Error::Unauthorized));
    // a closed table rejects requests
    s.set_table_status(ALICE, table, false).unwrap();
    assert_eq!(s.quote_request(ALICE, track, table), Err(Error::InvalidState));
}

#[test]
fn deactivation_forces_empty_slot() {
    let (mut s, track, table) = setup(2);
    enqueue_one(&mut s, track, table, 1);
    enqueue_one(&mut s, track, table, 2);
    s.advance_queue(table).unwrap();
    s.vote_to_skip(BOB, table).unwrap();
    s.set_table_status(ALICE, table, false).unwrap();
    let t = s.get_table(table).unwrap();
    assert_eq!(t.current_track, None);
    assert!(t.queue.is_empty());
    assert!(t.skip_votes.is_empty());
    assert!(!t.is_active);
}
