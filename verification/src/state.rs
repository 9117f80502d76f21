use vstd::prelude::*;

use crate::lookup::{bytes_eq, find_by, keys_distinct, lemma_find_by_skip_step};
use crate::records::{
    artist_key, member_key, pair_key, request_key, table_key, track_key, user_key, Artist,
    ContractEvent, JukeboxTable, TableMembership, Track, TrackRequest, User,
};
use crate::Error;

verus! {

/// The whole engine state: platform configuration, id counters and one
/// store per entity kind. Every operation is an atomic transition on a value
/// of this type; the durable store, payment rail and notification sink stay
/// outside.
pub struct MetaJuke {
    pub admin: u64,
    pub token_stellar: u64,
    pub platform_fee: u32,
    pub user_counter: u32,
    pub track_counter: u32,
    pub table_counter: u32,
    pub request_counter: u32,
    pub users: Vec<(u64, User)>,
    pub artists: Vec<Artist>,
    pub tracks: Vec<Track>,
    pub tables: Vec<JukeboxTable>,
    pub requests: Vec<TrackRequest>,
    pub user_to_nft: Vec<(u64, u64)>,
    pub nft_to_user: Vec<(u64, u64)>,
    pub events: Vec<ContractEvent>,
}

impl MetaJuke {
    /// The user registered under principal `p`.
    pub open spec fn usr(self, p: u64) -> Option<User> {
        match find_by(self.users@, user_key(), p) {
            Some(e) => Some(e.1),
            None => None,
        }
    }

    /// The artist account of principal `p`.
    pub open spec fn art(self, p: u64) -> Option<Artist> {
        find_by(self.artists@, artist_key(), p)
    }

    /// The track stored under `id`.
    pub open spec fn trk(self, id: u32) -> Option<Track> {
        find_by(self.tracks@, track_key(), id)
    }

    /// The table stored under `id`.
    pub open spec fn tbl(self, id: u32) -> Option<JukeboxTable> {
        find_by(self.tables@, table_key(), id)
    }

    /// The request stored under the 32-byte identifier `id`.
    pub open spec fn req(self, id: Seq<u8>) -> Option<TrackRequest> {
        find_by(self.requests@, request_key(), id)
    }

    /// The profile NFT bound to principal `p`.
    pub open spec fn nft_of(self, p: u64) -> Option<u64> {
        match find_by(self.user_to_nft@, pair_key(), p) {
            Some(e) => Some(e.1),
            None => None,
        }
    }

    /// The principal a profile NFT is bound to.
    pub open spec fn user_of_nft(self, nft: u64) -> Option<u64> {
        match find_by(self.nft_to_user@, pair_key(), nft) {
            Some(e) => Some(e.1),
            None => None,
        }
    }

    /// Platform configuration unchanged between two states.
    pub open spec fn cfg_eq(self, o: MetaJuke) -> bool {
        &&& self.admin == o.admin
        &&& self.token_stellar == o.token_stellar
        &&& self.platform_fee == o.platform_fee
    }

    /// Id counters unchanged between two states.
    pub open spec fn counters_eq(self, o: MetaJuke) -> bool {
        &&& self.user_counter == o.user_counter
        &&& self.track_counter == o.track_counter
        &&& self.table_counter == o.table_counter
        &&& self.request_counter == o.request_counter
    }

    /// Every store except the table store unchanged between two states.
    pub open spec fn stores_eq_but_tables(self, o: MetaJuke) -> bool {
        &&& self.users@ == o.users@
        &&& self.artists@ == o.artists@
        &&& self.tracks@ == o.tracks@
        &&& self.requests@ == o.requests@
        &&& self.user_to_nft@ == o.user_to_nft@
        &&& self.nft_to_user@ == o.nft_to_user@
    }

    /// Well-formedness: distinct keys in every store, per-record invariants,
    /// and every allocated id at or below its counter.
    pub open spec fn wf(self) -> bool {
        &&& self.platform_fee <= 2000
        &&& keys_distinct(self.users@, user_key())
        &&& keys_distinct(self.artists@, artist_key())
        &&& keys_distinct(self.tracks@, track_key())
        &&& keys_distinct(self.tables@, table_key())
        &&& keys_distinct(self.requests@, request_key())
        &&& keys_distinct(self.user_to_nft@, pair_key())
        &&& keys_distinct(self.nft_to_user@, pair_key())
        &&& forall|i: int|
            0 <= i < self.tables@.len() ==> (#[trigger] self.tables@[i]).wf() && 1
                <= self.tables@[i].table_id <= self.table_counter
        &&& forall|i: int|
            0 <= i < self.tracks@.len() ==> (#[trigger] self.tracks@[i]).wf() && 1
                <= self.tracks@[i].track_id <= self.track_counter
        &&& forall|i: int|
            0 <= i < self.artists@.len() ==> (#[trigger] self.artists@[i]).revenue_balance >= 0
        &&& forall|i: int|
            0 <= i < self.user_to_nft@.len() ==> self.usr(
                (#[trigger] self.user_to_nft@[i]).0,
            ) is Some
    }

    /// One-time set-up: records the platform admin, the payment token and the
    /// platform fee, with every store empty and every counter at zero.
    pub fn initialize(admin: u64, token_stellar: u64, platform_fee: u32) -> (s: MetaJuke)
        requires
            platform_fee <= 2000,
        ensures
            s.wf(),
            s.admin == admin,
            s.token_stellar == token_stellar,
            s.platform_fee == platform_fee,
            s.user_counter == 0,
            s.track_counter == 0,
            s.table_counter == 0,
            s.request_counter == 0,
            s.users@.len() == 0,
            s.artists@.len() == 0,
            s.tracks@.len() == 0,
            s.tables@.len() == 0,
            s.requests@.len() == 0,
            s.user_to_nft@.len() == 0,
            s.nft_to_user@.len() == 0,
            s.events@.len() == 0,
    {
        MetaJuke {
            admin,
            token_stellar,
            platform_fee,
            user_counter: 0,
            track_counter: 0,
            table_counter: 0,
            request_counter: 0,
            users: Vec::new(),
            artists: Vec::new(),
            tracks: Vec::new(),
            tables: Vec::new(),
            requests: Vec::new(),
            user_to_nft: Vec::new(),
            nft_to_user: Vec::new(),
            events: Vec::new(),
        }
    }

    /// Sets the platform fee, admin-only and capped at 2000 basis points.
    pub fn update_platform_fee(&mut self, caller: u64, new_fee: u32) -> (r: Result<(), Error>)
        requires
            old(self).wf(),
        ensures
            final(self).wf(),
            r is Ok <==> (caller == old(self).admin && new_fee <= 2000),
            r is Ok ==> *final(self) == (MetaJuke { platform_fee: new_fee, ..*old(self) }),
            r is Err ==> *final(self) == *old(self),
            r == Err::<(), Error>(Error::Unauthorized) <==> caller != old(self).admin,
            r == Err::<(), Error>(Error::ValidationError) <==> (caller == old(self).admin
                && new_fee > 2000),
    {
        if caller != self.admin {
            return Err(Error::Unauthorized);
        }
        if new_fee > 2000 {
            return Err(Error::ValidationError);
        }
        self.platform_fee = new_fee;
        Ok(())
    }

    /// Number of tracks ever minted.
    pub fn get_total_tracks(&self) -> (r: u32)
        ensures
            r == self.track_counter,
    {
        self.track_counter
    }

    /// Number of tables ever created.
    pub fn get_total_tables(&self) -> (r: u32)
        ensures
            r == self.table_counter,
    {
        self.table_counter
    }

    /// Number of play requests ever accepted.
    pub fn get_total_requests(&self) -> (r: u32)
        ensures
            r == self.request_counter,
    {
        self.request_counter
    }

    /// The three counters above, in one call.
    pub fn get_platform_stats(&self) -> (r: (u32, u32, u32))
        ensures
            r == (self.track_counter, self.table_counter, self.request_counter),
    {
        let total_tracks = self.get_total_tracks();
        let total_tables = self.get_total_tables();
        let total_requests = self.get_total_requests();
        (total_tracks, total_tables, total_requests)
    }

    /// Index of the table `id` in the table store.
    pub(crate) fn find_table_index(&self, id: u32) -> (r: Option<usize>)
        ensures
            match r {
                Some(i) => i < self.tables@.len() && self.tables@[i as int].table_id == id
                    && self.tbl(id) == Some(self.tables@[i as int]),
                None => self.tbl(id) is None,
            },
    {
        let s = Ghost(self.tables@);
        proof {
            assert(s@.skip(0) =~= s@);
        }
        let mut i: usize = 0;
        while i < self.tables.len()
            invariant
                i <= s@.len(),
                s@ == self.tables@,
                find_by(s@, table_key(), id) == find_by(s@.skip(i as int), table_key(), id),
            decreases s@.len() - i,
        {
            if self.tables[i].table_id == id {
                proof {
                    assert(s@.skip(i as int)[0] == s@[i as int]);
                }
                return Some(i);
            }
            proof {
                lemma_find_by_skip_step(s@, table_key(), id, i as int);
            }
            i += 1;
        }
        proof {
            assert(s@.skip(s@.len() as int).len() == 0);
        }
        None
    }

    /// Index of the track `id` in the track store.
    pub(crate) fn find_track_index(&self, id: u32) -> (r: Option<usize>)
        ensures
            match r {
                Some(i) => i < self.tracks@.len() && self.tracks@[i as int].track_id == id
                    && self.trk(id) == Some(self.tracks@[i as int]),
                None => self.trk(id) is None,
            },
    {
        let s = Ghost(self.tracks@);
        proof {
            assert(s@.skip(0) =~= s@);
        }
        let mut i: usize = 0;
        while i < self.tracks.len()
            invariant
                i <= s@.len(),
                s@ == self.tracks@,
                find_by(s@, track_key(), id) == find_by(s@.skip(i as int), track_key(), id),
            decreases s@.len() - i,
        {
            if self.tracks[i].track_id == id {
                proof {
                    assert(s@.skip(i as int)[0] == s@[i as int]);
                }
                return Some(i);
            }
            proof {
                lemma_find_by_skip_step(s@, track_key(), id, i as int);
            }
            i += 1;
        }
        proof {
            assert(s@.skip(s@.len() as int).len() == 0);
        }
        None
    }

    /// Index of the artist account of principal `p`.
    pub(crate) fn find_artist_index(&self, p: u64) -> (r: Option<usize>)
        ensures
            match r {
                Some(i) => i < self.artists@.len() && self.artists@[i as int].user_id == p
                    && self.art(p) == Some(self.artists@[i as int]),
                None => self.art(p) is None,
            },
    {
        let s = Ghost(self.artists@);
        proof {
            assert(s@.skip(0) =~= s@);
        }
        let mut i: usize = 0;
        while i < self.artists.len()
            invariant
                i <= s@.len(),
                s@ == self.artists@,
                find_by(s@, artist_key(), p) == find_by(s@.skip(i as int), artist_key(), p),
            decreases s@.len() - i,
        {
            if self.artists[i].user_id == p {
                proof {
                    assert(s@.skip(i as int)[0] == s@[i as int]);
                }
                return Some(i);
            }
            proof {
                lemma_find_by_skip_step(s@, artist_key(), p, i as int);
            }
            i += 1;
        }
        proof {
            assert(s@.skip(s@.len() as int).len() == 0);
        }
        None
    }

    /// Index of the user entry of principal `p`.
    pub(crate) fn find_user_index(&self, p: u64) -> (r: Option<usize>)
        ensures
            match r {
                Some(i) => i < self.users@.len() && self.users@[i as int].0 == p && find_by(
                    self.users@,
                    user_key(),
                    p,
                ) == Some(self.users@[i as int]),
                None => self.usr(p) is None,
            },
    {
        let s = Ghost(self.users@);
        proof {
            assert(s@.skip(0) =~= s@);
        }
        let mut i: usize = 0;
        while i < self.users.len()
            invariant
                i <= s@.len(),
                s@ == self.users@,
                find_by(s@, user_key(), p) == find_by(s@.skip(i as int), user_key(), p),
            decreases s@.len() - i,
        {
            if self.users[i].0 == p {
                proof {
                    assert(s@.skip(i as int)[0] == s@[i as int]);
                }
                return Some(i);
            }
            proof {
                lemma_find_by_skip_step(s@, user_key(), p, i as int);
            }
            i += 1;
        }
        proof {
            assert(s@.skip(s@.len() as int).len() == 0);
        }
        None
    }

    /// Index of the request stored under the byte identifier `id`.
    pub(crate) fn find_request_index(&self, id: &Vec<u8>) -> (r: Option<usize>)
        ensures
            match r {
                Some(i) => i < self.requests@.len() && self.requests@[i as int].request_id@ == id@
                    && self.req(id@) == Some(self.requests@[i as int]),
                None => self.req(id@) is None,
            },
    {
        let s = Ghost(self.requests@);
        proof {
            assert(s@.skip(0) =~= s@);
        }
        let mut i: usize = 0;
        while i < self.requests.len()
            invariant
                i <= s@.len(),
                s@ == self.requests@,
                find_by(s@, request_key(), id@) == find_by(s@.skip(i as int), request_key(), id@),
            decreases s@.len() - i,
        {
            if bytes_eq(&self.requests[i].request_id, id) {
                proof {
                    assert(s@.skip(i as int)[0] == s@[i as int]);
                }
                return Some(i);
            }
            proof {
                lemma_find_by_skip_step(s@, request_key(), id@, i as int);
            }
            i += 1;
        }
        proof {
            assert(s@.skip(s@.len() as int).len() == 0);
        }
        None
    }

    /// Whether a user is registered under principal `p`.
    pub fn get_user(&self, p: u64) -> (r: Option<&User>)
        ensures
            match r {
                Some(u) => self.usr(p) == Some(*u),
                None => self.usr(p) is None,
            },
    {
        match self.find_user_index(p) {
            Some(i) => Some(&self.users[i].1),
            None => None,
        }
    }

    /// The artist account of principal `p`, if registered.
    pub fn get_artist(&self, p: u64) -> (r: Option<&Artist>)
        ensures
            match r {
                Some(a) => self.art(p) == Some(*a),
                None => self.art(p) is None,
            },
    {
        match self.find_artist_index(p) {
            Some(i) => Some(&self.artists[i]),
            None => None,
        }
    }

    /// The track stored under `id`, if any.
    pub fn get_track(&self, id: u32) -> (r: Option<&Track>)
        ensures
            match r {
                Some(t) => self.trk(id) == Some(*t),
                None => self.trk(id) is None,
            },
    {
        match self.find_track_index(id) {
            Some(i) => Some(&self.tracks[i]),
            None => None,
        }
    }

    /// The table stored under `id`, if any.
    pub fn get_table(&self, id: u32) -> (r: Option<&JukeboxTable>)
        ensures
            match r {
                Some(t) => self.tbl(id) == Some(*t),
                None => self.tbl(id) is None,
            },
    {
        match self.find_table_index(id) {
            Some(i) => Some(&self.tables[i]),
            None => None,
        }
    }

    /// The request stored under the byte identifier `id`, if any.
    pub fn get_request(&self, id: &Vec<u8>) -> (r: Option<&TrackRequest>)
        ensures
            match r {
                Some(q) => self.req(id@) == Some(*q),
                None => self.req(id@) is None,
            },
    {
        match self.find_request_index(id) {
            Some(i) => Some(&self.requests[i]),
            None => None,
        }
    }
}

/// Index of the entry keyed `k` in a pair store.
pub(crate) fn find_pair_index(pairs: &Vec<(u64, u64)>, k: u64) -> (r: Option<usize>)
    ensures
        match r {
            Some(i) => i < pairs@.len() && pairs@[i as int].0 == k && find_by(
                pairs@,
                pair_key(),
                k,
            ) == Some(pairs@[i as int]),
            None => find_by(pairs@, pair_key(), k) is None,
        },
{
    let s = Ghost(pairs@);
    proof {
        assert(s@.skip(0) =~= s@);
    }
    let mut i: usize = 0;
    while i < pairs.len()
        invariant
            i <= s@.len(),
            s@ == pairs@,
            find_by(s@, pair_key(), k) == find_by(s@.skip(i as int), pair_key(), k),
        decreases s@.len() - i,
    {
        if pairs[i].0 == k {
            proof {
                assert(s@.skip(i as int)[0] == s@[i as int]);
            }
            return Some(i);
        }
        proof {
            lemma_find_by_skip_step(s@, pair_key(), k, i as int);
        }
        i += 1;
    }
    proof {
        assert(s@.skip(s@.len() as int).len() == 0);
    }
    None
}

/// Index of the first membership record of principal `p` in a roster.
pub(crate) fn find_member_index(members: &Vec<TableMembership>, p: u64) -> (r: Option<usize>)
    ensures
        match r {
            Some(i) => i < members@.len() && members@[i as int].member == p && find_by(
                members@,
                member_key(),
                p,
            ) == Some(members@[i as int]),
            None => find_by(members@, member_key(), p) is None,
        },
{
    let s = Ghost(members@);
    proof {
        assert(s@.skip(0) =~= s@);
    }
    let mut i: usize = 0;
    while i < members.len()
        invariant
            i <= s@.len(),
            s@ == members@,
            find_by(s@, member_key(), p) == find_by(s@.skip(i as int), member_key(), p),
        decreases s@.len() - i,
    {
        if members[i].member == p {
            proof {
                assert(s@.skip(i as int)[0] == s@[i as int]);
            }
            return Some(i);
        }
        proof {
            lemma_find_by_skip_step(s@, member_key(), p, i as int);
        }
        i += 1;
    }
    proof {
        assert(s@.skip(s@.len() as int).len() == 0);
    }
    None
}

/// Index of principal `p` in a vote list.
pub(crate) fn find_vote_index(votes: &Vec<u64>, p: u64) -> (r: Option<usize>)
    ensures
        match r {
            Some(i) => i < votes@.len() && votes@[i as int] == p && votes@.contains(p),
            None => !votes@.contains(p),
        },
{
    let mut i: usize = 0;
    while i < votes.len()
        invariant
            i <= votes@.len(),
            forall|j: int| 0 <= j < i ==> votes@[j] != p,
        decreases votes@.len() - i,
    {
        if votes[i] == p {
            return Some(i);
        }
        i += 1;
    }
    None
}

} // verus!
