use vstd::prelude::*;

use crate::lookup::{clone_bytes, lemma_find_by_update};
use crate::records::{
    advance_play, bumped, bytes_view, cast_vote, request_key, track_key, vote_play,
    vote_triggers, ContractEvent, Track, TrackRequest,
};
use crate::state::{find_member_index, find_vote_index, MetaJuke};
use crate::tables::bump_version;
use crate::Error;

verus! {

/// The queue head an advance pops, when there is one.
pub open spec fn advance_pops(queue: Seq<Seq<u8>>) -> Option<Seq<u8>> {
    if queue.len() > 0 {
        Some(queue[0])
    } else {
        None
    }
}

/// A byte-vector option, viewed.
pub open spec fn opt_bytes(o: Option<Vec<u8>>) -> Option<Seq<u8>> {
    match o {
        Some(v) => Some(v@),
        None => None,
    }
}

/// A track after one fulfilled play: play count up by one, one licence
/// consumed, never below zero.
pub open spec fn played(tr: Track) -> Track {
    Track {
        play_count: if tr.play_count < u32::MAX {
            (tr.play_count + 1) as u32
        } else {
            tr.play_count
        },
        licenses_remaining: if tr.licenses_remaining > 0 {
            (tr.licenses_remaining - 1) as u32
        } else {
            0
        },
        ..tr
    }
}

/// What popping `popped` into the playing slot does to the request and track
/// stores: the request is marked fulfilled and its track's play is counted;
/// an unknown identifier changes neither store.
pub open spec fn fulfil_effects(pre: MetaJuke, post: MetaJuke, popped: Option<Seq<u8>>) -> bool {
    match popped {
        None => post.requests@ == pre.requests@ && post.tracks@ == pre.tracks@,
        Some(rid) => match pre.req(rid) {
            None => post.requests@ == pre.requests@ && post.tracks@ == pre.tracks@,
            Some(q) => {
                &&& post.req(rid) == Some(TrackRequest { fulfilled: true, ..q })
                &&& forall|id2: Seq<u8>| id2 != rid ==> #[trigger] post.req(id2) == pre.req(id2)
                &&& post.requests@.len() == pre.requests@.len()
                &&& match pre.trk(q.track_id) {
                    None => post.tracks@ == pre.tracks@,
                    Some(tr) => post.trk(q.track_id) == Some(played(tr)) && (forall|j: u32|
                        j != q.track_id ==> #[trigger] post.trk(j) == pre.trk(j))
                        && post.tracks@.len() == pre.tracks@.len(),
                }
            },
        },
    }
}

/// A successful advance of table `id`: the head of the queue (if any) moves
/// into the playing slot, every skip vote is cleared, the popped request is
/// fulfilled, and nothing else changes.
pub open spec fn advance_ok(pre: MetaJuke, post: MetaJuke, id: u32, ret: Option<Seq<u8>>) -> bool {
    let t1 = pre.tbl(id)->0;
    let t2 = post.tbl(id)->0;
    &&& post.tbl(id) is Some
    &&& t2.play() == advance_play(t1.play())
    &&& ret == advance_pops(t1.play().queue)
    &&& t2.version == bumped(t1.version)
    &&& t2.members@ == t1.members@ && t2.member_count == t1.member_count
    &&& t2.table_id == t1.table_id && t2.name == t1.name && t2.owner == t1.owner
        && t2.skip_threshold == t1.skip_threshold && t2.price_multiplier == t1.price_multiplier
        && t2.is_active == t1.is_active
    &&& forall|j: u32| j != id ==> #[trigger] post.tbl(j) == pre.tbl(j)
    &&& post.tables@.len() == pre.tables@.len()
    &&& fulfil_effects(pre, post, advance_pops(t1.play().queue))
    &&& post.users@ == pre.users@ && post.artists@ == pre.artists@ && post.user_to_nft@
        == pre.user_to_nft@ && post.nft_to_user@ == pre.nft_to_user@
    &&& post.cfg_eq(pre)
    &&& post.counters_eq(pre)
}

/// A successful skip vote by `user` at table `id`: the vote is recorded once,
/// and when the distinct tally reaches the threshold the table advances in
/// the same step.
pub open spec fn vote_ok(pre: MetaJuke, post: MetaJuke, id: u32, user: u64, adv: bool) -> bool {
    let t1 = pre.tbl(id)->0;
    let t2 = post.tbl(id)->0;
    &&& post.tbl(id) is Some
    &&& adv == vote_triggers(t1.play(), user, t1.skip_threshold)
    &&& t2.play() == vote_play(t1.play(), user, t1.skip_threshold)
    &&& t2.version == bumped(t1.version)
    &&& t2.members@ == t1.members@ && t2.member_count == t1.member_count
    &&& t2.table_id == t1.table_id && t2.name == t1.name && t2.owner == t1.owner
        && t2.skip_threshold == t1.skip_threshold && t2.price_multiplier == t1.price_multiplier
        && t2.is_active == t1.is_active
    &&& forall|j: u32| j != id ==> #[trigger] post.tbl(j) == pre.tbl(j)
    &&& post.tables@.len() == pre.tables@.len()
    &&& fulfil_effects(
        pre,
        post,
        if adv {
            advance_pops(t1.play().queue)
        } else {
            None
        },
    )
    &&& post.users@ == pre.users@ && post.artists@ == pre.artists@ && post.user_to_nft@
        == pre.user_to_nft@ && post.nft_to_user@ == pre.nft_to_user@
    &&& post.events@ == pre.events@.push(ContractEvent::SkipVoted(id, user))
    &&& post.cfg_eq(pre)
    &&& post.counters_eq(pre)
}

impl MetaJuke {
    /// Marks the request stored under `head` fulfilled and counts the play on
    /// its track; does nothing when no such request exists.
    fn fulfil_request(&mut self, head: &Vec<u8>)
        requires
            old(self).wf(),
        ensures
            final(self).wf(),
            fulfil_effects(*old(self), *final(self), Some(head@)),
            final(self).tables@ == old(self).tables@,
            final(self).users@ == old(self).users@,
            final(self).artists@ == old(self).artists@,
            final(self).user_to_nft@ == old(self).user_to_nft@,
            final(self).nft_to_user@ == old(self).nft_to_user@,
            final(self).events@ == old(self).events@,
            final(self).cfg_eq(*old(self)),
            final(self).counters_eq(*old(self)),
    {
        let qi = match self.find_request_index(head) {
            Some(qi) => qi,
            None => {
                return ;
            },
        };
        let mut q = self.requests.remove(qi);
        let track_id = q.track_id;
        q.fulfilled = true;
        proof {
            lemma_find_by_update(old(self).requests@, request_key(), qi as int, q);
            assert(old(self).requests@.remove(qi as int).insert(qi as int, q) =~= old(
                self,
            ).requests@.update(qi as int, q));
        }
        self.requests.insert(qi, q);
        let ghost mid = *self;
        let ti = match self.find_track_index(track_id) {
            Some(ti) => ti,
            None => {
                return ;
            },
        };
        let mut tr = self.tracks.remove(ti);
        if tr.play_count < u32::MAX {
            tr.play_count = tr.play_count + 1;
        }
        if tr.licenses_remaining > 0 {
            tr.licenses_remaining = tr.licenses_remaining - 1;
        }
        proof {
            lemma_find_by_update(mid.tracks@, track_key(), ti as int, tr);
            assert(mid.tracks@.remove(ti as int).insert(ti as int, tr) =~= mid.tracks@.update(
                ti as int,
                tr,
            ));
        }
        self.tracks.insert(ti, tr);
        proof {
            assert forall|k: int|
                0 <= k < self.tracks@.len() implies (#[trigger] self.tracks@[k]).wf() && 1
                <= self.tracks@[k].track_id <= self.track_counter by {
                if k != ti as int {
                    assert(self.tracks@[k] == old(self).tracks@[k]);
                }
            }
        }
    }

    /// Pops the queue head of table `table_id` into the playing slot — or
    /// empties the slot when the queue is empty — clearing every skip vote and
    /// fulfilling the popped request. Returns the new playing request id.
    pub fn advance_queue(&mut self, table_id: u32) -> (r: Result<Option<Vec<u8>>, Error>)
        requires
            old(self).wf(),
        ensures
            final(self).wf(),
            r is Ok <==> old(self).tbl(table_id) is Some,
            r is Err ==> r == Err::<Option<Vec<u8>>, Error>(Error::NotFound) && *final(self) == *old(self),
            r is Ok ==> advance_ok(*old(self), *final(self), table_id, opt_bytes(r->Ok_0))
                && final(self).events@ == old(self).events@,
    {
        let i = match self.find_table_index(table_id) {
            Some(i) => i,
            None => {
                return Err(Error::NotFound);
            },
        };
        let ghost pre = *self;
        let ghost t1 = self.tables@[i as int];
        let mut ret: Option<Vec<u8>> = None;
        if self.tables[i].queue.len() > 0 {
            let head = clone_bytes(&self.tables[i].queue[0]);
            proof {
                assert(head@ == t1.play().queue[0]);
            }
            self.fulfil_request(&head);
            ret = Some(head);
        }
        let ghost mid = *self;
        let mut t = self.tables.remove(i);
        if t.queue.len() > 0 {
            let head = t.queue.remove(0);
            t.current_track = Some(head);
        } else {
            t.current_track = None;
        }
        t.skip_votes = Vec::new();
        t.version = bump_version(t.version);
        proof {
            assert(t.wf());
            assert(t.play() =~~= advance_play(t1.play())) by {
                if t1.queue@.len() > 0 {
                    assert(t.queue@ =~= t1.queue@.remove(0));
                    assert(t.play().queue =~= t1.play().queue.drop_first());
                    assert(t.play().current == Some(t1.queue@[0]@));
                }
            }
        }
        self.tables.insert(i, t);
        proof {
            let t2 = self.tables@[i as int];
            assert(pre.tables@.remove(i as int).insert(i as int, t2) =~= pre.tables@.update(
                i as int,
                t2,
            ));
            lemma_find_by_update(pre.tables@, crate::records::table_key(), i as int, t2);
            assert forall|k: int|
                0 <= k < self.tables@.len() implies (#[trigger] self.tables@[k]).wf() && 1
                <= self.tables@[k].table_id <= self.table_counter by {
                if k != i as int {
                    assert(self.tables@[k] == pre.tables@[k]);
                }
            }
            assert forall|id2: Seq<u8>| #[trigger] self.req(id2) == mid.req(id2) by {}
            assert forall|j: u32| #[trigger] self.trk(j) == mid.trk(j) by {}
            assert(advance_ok(*old(self), *self, table_id, opt_bytes(ret)));
        }
        Ok(ret)
    }

    /// Advance on the authority of `caller`: allowed for the table owner or a
    /// member holding the admin flag.
    pub fn advance_queue_public(&mut self, caller: u64, table_id: u32) -> (r: Result<
        Option<Vec<u8>>,
        Error,
    >)
        requires
            old(self).wf(),
        ensures
            final(self).wf(),
            r is Ok <==> (old(self).tbl(table_id) is Some && old(self).tbl(
                table_id,
            )->0.is_authority(caller)),
            r == Err::<Option<Vec<u8>>, Error>(Error::NotFound) <==> old(self).tbl(
                table_id,
            ) is None,
            r == Err::<Option<Vec<u8>>, Error>(Error::Unauthorized) <==> (old(self).tbl(
                table_id,
            ) is Some && !old(self).tbl(table_id)->0.is_authority(caller)),
            r is Err ==> *final(self) == *old(self),
            r is Ok ==> advance_ok(*old(self), *final(self), table_id, opt_bytes(r->Ok_0))
                && final(self).events@ == old(self).events@,
    {
        let i = match self.find_table_index(table_id) {
            Some(i) => i,
            None => {
                return Err(Error::NotFound);
            },
        };
        if self.tables[i].owner != caller {
            let is_admin = match find_member_index(&self.tables[i].members, caller) {
                Some(mi) => self.tables[i].members[mi].is_admin,
                None => false,
            };
            if !is_admin {
                return Err(Error::Unauthorized);
            }
        }
        self.advance_queue(table_id)
    }

    /// Casts `user`'s skip vote at table `table_id`. The vote counts once per
    /// member; when the distinct tally reaches the table's threshold the
    /// queue advances in the same atomic step. Returns whether it advanced.
    pub fn vote_to_skip(&mut self, user: u64, table_id: u32) -> (r: Result<bool, Error>)
        requires
            old(self).wf(),
        ensures
            final(self).wf(),
            r is Ok <==> (old(self).tbl(table_id) is Some && old(self).tbl(table_id)->0.is_member(
                user,
            ) && old(self).tbl(table_id)->0.current_track is Some),
            r == Err::<bool, Error>(Error::NotFound) <==> old(self).tbl(table_id) is None,
            r == Err::<bool, Error>(Error::Unauthorized) <==> (old(self).tbl(table_id) is Some
                && !old(self).tbl(table_id)->0.is_member(user)),
            r == Err::<bool, Error>(Error::InvalidState) <==> (old(self).tbl(table_id) is Some
                && old(self).tbl(table_id)->0.is_member(user) && old(self).tbl(
                table_id,
            )->0.current_track is None),
            r is Err ==> *final(self) == *old(self),
            r is Ok ==> vote_ok(*old(self), *final(self), table_id, user, r->Ok_0),
    {
        let i = match self.find_table_index(table_id) {
            Some(i) => i,
            None => {
                return Err(Error::NotFound);
            },
        };
        if find_member_index(&self.tables[i].members, user).is_none() {
            return Err(Error::Unauthorized);
        }
        if self.tables[i].current_track.is_none() {
            return Err(Error::InvalidState);
        }
        let ghost pre = *self;
        let ghost t1 = self.tables@[i as int];
        // the tally this vote produces, before any state is touched
        let already = find_vote_index(&self.tables[i].skip_votes, user).is_some();
        let prior = self.tables[i].skip_votes.len();
        let tally: u128 = if already {
            prior as u128
        } else {
            prior as u128 + 1
        };
        let advanced = tally >= self.tables[i].skip_threshold as u128;
        proof {
            assert(cast_vote(t1.play().votes, user).len() == tally);
            assert(advanced == vote_triggers(t1.play(), user, t1.skip_threshold));
        }
        if advanced && self.tables[i].queue.len() > 0 {
            let head = clone_bytes(&self.tables[i].queue[0]);
            proof {
                assert(head@ == t1.play().queue[0]);
            }
            self.fulfil_request(&head);
        }
        let ghost mid = *self;
        let mut t = self.tables.remove(i);
        if !already {
            t.skip_votes.push(user);
        }
        if advanced {
            if t.queue.len() > 0 {
                let head = t.queue.remove(0);
                t.current_track = Some(head);
            } else {
                t.current_track = None;
            }
            t.skip_votes = Vec::new();
        }
        t.version = bump_version(t.version);
        proof {
            if !advanced {
                assert(t.skip_votes@ == cast_vote(t1.skip_votes@, user));
                assert forall|k: int|
                    0 <= k < t.skip_votes@.len() implies t.is_member(
                    #[trigger] t.skip_votes@[k],
                ) by {
                    if k < t1.skip_votes@.len() {
                        assert(t1.is_member(t1.skip_votes@[k]));
                    }
                }
                if !t1.skip_votes@.contains(user) {
                    assert(t.skip_votes@.no_duplicates()) by {
                        assert forall|m: int, n: int|
                            0 <= m < n < t.skip_votes@.len() implies t.skip_votes@[m]
                            != t.skip_votes@[n] by {
                            if n < t1.skip_votes@.len() {
                            } else {
                                assert(t.skip_votes@[n] == user);
                                assert(!t1.skip_votes@.contains(user));
                                assert(t1.skip_votes@[m] == t.skip_votes@[m]);
                            }
                        }
                    }
                }
            }
            assert(t.wf());
            assert(t.play() =~~= vote_play(t1.play(), user, t1.skip_threshold)) by {
                if advanced {
                    if t1.queue@.len() > 0 {
                        assert(t.queue@ =~= t1.queue@.remove(0));
                        assert(t.play().queue =~= t1.play().queue.drop_first());
                    }
                }
            }
        }
        self.tables.insert(i, t);
        self.events.push(ContractEvent::SkipVoted(table_id, user));
        proof {
            let t2 = self.tables@[i as int];
            assert(pre.tables@.remove(i as int).insert(i as int, t2) =~= pre.tables@.update(
                i as int,
                t2,
            ));
            lemma_find_by_update(pre.tables@, crate::records::table_key(), i as int, t2);
            assert forall|k: int|
                0 <= k < self.tables@.len() implies (#[trigger] self.tables@[k]).wf() && 1
                <= self.tables@[k].table_id <= self.table_counter by {
                if k != i as int {
                    assert(self.tables@[k] == pre.tables@[k]);
                }
            }
            assert forall|id2: Seq<u8>| #[trigger] self.req(id2) == mid.req(id2) by {}
            assert forall|j: u32| #[trigger] self.trk(j) == mid.trk(j) by {}
            assert(vote_ok(*old(self), *self, table_id, user, advanced));
        }
        Ok(advanced)
    }

    /// `vote_to_skip` under optimistic concurrency: the caller passes the
    /// table version it read, and a stale version is refused with `Conflict`
    /// and no state change.
    pub fn vote_to_skip_checked(&mut self, user: u64, table_id: u32, expected_version: u64) -> (r:
        Result<bool, Error>)
        requires
            old(self).wf(),
        ensures
            final(self).wf(),
            r is Ok <==> (old(self).tbl(table_id) is Some && old(self).tbl(table_id)->0.version
                == expected_version && old(self).tbl(table_id)->0.is_member(user) && old(self).tbl(
                table_id,
            )->0.current_track is Some),
            r == Err::<bool, Error>(Error::NotFound) <==> old(self).tbl(table_id) is None,
            r == Err::<bool, Error>(Error::Conflict) <==> (old(self).tbl(table_id) is Some && old(
                self,
            ).tbl(table_id)->0.version != expected_version),
            r == Err::<bool, Error>(Error::Unauthorized) <==> (old(self).tbl(table_id) is Some
                && old(self).tbl(table_id)->0.version == expected_version && !old(self).tbl(
                table_id,
            )->0.is_member(user)),
            r == Err::<bool, Error>(Error::InvalidState) <==> (old(self).tbl(table_id) is Some
                && old(self).tbl(table_id)->0.version == expected_version && old(self).tbl(
                table_id,
            )->0.is_member(user) && old(self).tbl(table_id)->0.current_track is None),
            r is Err ==> *final(self) == *old(self),
            r is Ok ==> vote_ok(*old(self), *final(self), table_id, user, r->Ok_0),
    {
        let i = match self.find_table_index(table_id) {
            Some(i) => i,
            None => {
                return Err(Error::NotFound);
            },
        };
        if self.tables[i].version != expected_version {
            return Err(Error::Conflict);
        }
        self.vote_to_skip(user, table_id)
    }

    /// Whether `user` has a pending skip vote at table `table_id`.
    pub fn has_voted_to_skip(&self, user: u64, table_id: u32) -> (r: Result<bool, Error>)
        ensures
            r is Ok <==> self.tbl(table_id) is Some,
            r is Err ==> r == Err::<bool, Error>(Error::NotFound),
            r is Ok ==> r->Ok_0 == self.tbl(table_id)->0.skip_votes@.contains(user),
    {
        match self.find_table_index(table_id) {
            Some(i) => Ok(find_vote_index(&self.tables[i].skip_votes, user).is_some()),
            None => Err(Error::NotFound),
        }
    }

    /// A copy of the pending queue of table `table_id`, empty when the table
    /// is absent.
    pub fn get_queue(&self, table_id: u32) -> (r: Vec<Vec<u8>>)
        ensures
            match self.tbl(table_id) {
                Some(t) => r@.map_values(bytes_view()) == t.play().queue,
                None => r@.len() == 0,
            },
    {
        let i = match self.find_table_index(table_id) {
            Some(i) => i,
            None => {
                return Vec::new();
            },
        };
        let q = &self.tables[i].queue;
        let mut out: Vec<Vec<u8>> = Vec::new();
        let mut k: usize = 0;
        while k < q.len()
            invariant
                k <= q@.len(),
                self.tbl(table_id) is Some,
                q@ == self.tbl(table_id)->0.queue@,
                out@.len() == k,
                forall|j: int| 0 <= j < k ==> (#[trigger] out@[j])@ == q@[j]@,
            decreases q@.len() - k,
        {
            out.push(clone_bytes(&q[k]));
            k += 1;
        }
        proof {
            assert(out@.map_values(bytes_view()) =~= q@.map_values(bytes_view()));
        }
        out
    }
}

} // verus!
