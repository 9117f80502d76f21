use vstd::prelude::*;

use crate::lookup::{
    lemma_find_by_none, lemma_find_by_push, lemma_find_by_update, lemma_remove_by,
    lemma_remove_by_index, lemma_remove_by_membership, remove_by,
};
use crate::records::{
    bumped, close_play, member_key, table_key, vote_key, ContractEvent, JukeboxTable,
    TableMembership,
};
use crate::state::{find_member_index, find_vote_index, MetaJuke};
use crate::Error;

verus! {

/// Everything outside the table `id` is unchanged between two states, and
/// the table store keeps its length.
pub open spec fn table_frame(pre: MetaJuke, post: MetaJuke, id: u32) -> bool {
    &&& forall|j: u32| j != id ==> #[trigger] post.tbl(j) == pre.tbl(j)
    &&& post.stores_eq_but_tables(pre)
    &&& post.cfg_eq(pre)
    &&& post.counters_eq(pre)
    &&& post.tables@.len() == pre.tables@.len()
}

/// Replacing one well-formed table record in a well-formed state keeps the
/// state well-formed and changes exactly that table's binding.
pub(crate) proof fn lemma_table_store_update(
    pre: MetaJuke,
    post: MetaJuke,
    i: int,
    t: JukeboxTable,
)
    requires
        pre.wf(),
        0 <= i < pre.tables@.len(),
        t.wf(),
        t.table_id == pre.tables@[i].table_id,
        post.tables@ == pre.tables@.update(i, t),
        post.stores_eq_but_tables(pre),
        post.cfg_eq(pre),
        post.counters_eq(pre),
    ensures
        post.wf(),
        post.tbl(t.table_id) == Some(t),
        table_frame(pre, post, t.table_id),
{
    lemma_find_by_update(pre.tables@, table_key(), i, t);
    assert forall|k: int|
        0 <= k < post.tables@.len() implies (#[trigger] post.tables@[k]).wf() && 1
        <= post.tables@[k].table_id <= post.table_counter by {
        if k != i {
            assert(post.tables@[k] == pre.tables@[k]);
        }
    }
    assert forall|p: u64| true implies #[trigger] post.usr(p) == pre.usr(p) by {}
}

impl MetaJuke {
    /// Creates a table owned by `owner` with the given skip threshold and
    /// price multiplier; its id is the next value of the table counter.
    pub fn create_table(
        &mut self,
        owner: u64,
        name: String,
        skip_threshold: u32,
        price_multiplier: u32,
    ) -> (r: Result<u32, Error>)
        requires
            old(self).wf(),
        ensures
            final(self).wf(),
            r is Ok <==> (old(self).usr(owner) is Some && old(self).table_counter < u32::MAX),
            r == Err::<u32, Error>(Error::NotFound) <==> old(self).usr(owner) is None,
            r == Err::<u32, Error>(Error::InvalidState) <==> (old(self).usr(owner) is Some && old(
                self,
            ).table_counter == u32::MAX),
            r is Err ==> *final(self) == *old(self),
            r is Ok ==> {
                let id = r->Ok_0;
                let t = final(self).tbl(id)->0;
                &&& id == old(self).table_counter + 1
                &&& final(self).table_counter == id
                &&& final(self).tbl(id) is Some
                &&& t.table_id == id
                &&& t.name == name
                &&& t.owner == owner
                &&& t.current_track is None
                &&& t.queue@.len() == 0
                &&& t.skip_votes@.len() == 0
                &&& t.skip_threshold == skip_threshold
                &&& t.price_multiplier == price_multiplier
                &&& t.member_count == 0
                &&& t.is_active
                &&& t.version == 0
                &&& t.members@.len() == 0
                &&& forall|j: u32| j != id ==> #[trigger] final(self).tbl(j) == old(self).tbl(j)
                &&& final(self).tables@ == old(self).tables@.push(t)
                &&& final(self).stores_eq_but_tables(*old(self))
                &&& final(self).cfg_eq(*old(self))
                &&& final(self).user_counter == old(self).user_counter
                &&& final(self).track_counter == old(self).track_counter
                &&& final(self).request_counter == old(self).request_counter
                &&& final(self).events@ == old(self).events@.push(ContractEvent::TableCreated(id))
            },
    {
        if self.find_user_index(owner).is_none() {
            return Err(Error::NotFound);
        }
        if self.table_counter == u32::MAX {
            return Err(Error::InvalidState);
        }
        let id = self.table_counter + 1;
        let t = JukeboxTable {
            table_id: id,
            name,
            owner,
            current_track: None,
            queue: Vec::new(),
            skip_votes: Vec::new(),
            skip_threshold,
            price_multiplier,
            member_count: 0,
            is_active: true,
            version: 0,
            members: Vec::new(),
        };
        proof {
            lemma_find_by_none(self.tables@, table_key(), id);
            lemma_find_by_push(self.tables@, table_key(), t);
        }
        self.tables.push(t);
        self.table_counter = id;
        self.events.push(ContractEvent::TableCreated(id));
        proof {
            assert forall|k: int|
                0 <= k < self.tables@.len() implies (#[trigger] self.tables@[k]).wf() && 1
                <= self.tables@[k].table_id <= self.table_counter by {
                if k < old(self).tables@.len() {
                    assert(self.tables@[k] == old(self).tables@[k]);
                }
            }
        }
        Ok(id)
    }

    /// Updates a table's display name, skip threshold and price multiplier,
    /// owner-only.
    pub fn update_table(
        &mut self,
        owner: u64,
        table_id: u32,
        name: String,
        skip_threshold: u32,
        price_multiplier: u32,
    ) -> (r: Result<(), Error>)
        requires
            old(self).wf(),
        ensures
            final(self).wf(),
            r is Ok <==> (old(self).tbl(table_id) is Some && old(self).tbl(table_id)->0.owner
                == owner),
            r == Err::<(), Error>(Error::NotFound) <==> old(self).tbl(table_id) is None,
            r == Err::<(), Error>(Error::Unauthorized) <==> (old(self).tbl(table_id) is Some && old(
                self,
            ).tbl(table_id)->0.owner != owner),
            r is Err ==> *final(self) == *old(self),
            r is Ok ==> {
                let t1 = old(self).tbl(table_id)->0;
                let t2 = final(self).tbl(table_id)->0;
                &&& final(self).tbl(table_id) is Some
                &&& t2 == (JukeboxTable {
                    name,
                    skip_threshold,
                    price_multiplier,
                    version: bumped(t1.version),
                    ..t1
                })
                &&& table_frame(*old(self), *final(self), table_id)
                &&& final(self).events@ == old(self).events@
            },
    {
        let i = match self.find_table_index(table_id) {
            Some(i) => i,
            None => {
                return Err(Error::NotFound);
            },
        };
        if self.tables[i].owner != owner {
            return Err(Error::Unauthorized);
        }
        let mut t = self.tables.remove(i);
        t.name = name;
        t.skip_threshold = skip_threshold;
        t.price_multiplier = price_multiplier;
        t.version = bump_version(t.version);
        self.tables.insert(i, t);
        proof {
            let t2 = self.tables@[i as int];
            assert(old(self).tables@.remove(i as int).insert(i as int, t2) =~= old(
                self,
            ).tables@.update(i as int, t2));
            lemma_table_store_update(*old(self), *self, i as int, t2);
        }
        Ok(())
    }

    /// Activates or closes a table, owner-only. Closing forces the playing
    /// slot empty and discards the queue and every skip vote.
    pub fn set_table_status(&mut self, owner: u64, table_id: u32, active: bool) -> (r: Result<
        (),
        Error,
    >)
        requires
            old(self).wf(),
        ensures
            final(self).wf(),
            r is Ok <==> (old(self).tbl(table_id) is Some && old(self).tbl(table_id)->0.owner
                == owner),
            r == Err::<(), Error>(Error::NotFound) <==> old(self).tbl(table_id) is None,
            r == Err::<(), Error>(Error::Unauthorized) <==> (old(self).tbl(table_id) is Some && old(
                self,
            ).tbl(table_id)->0.owner != owner),
            r is Err ==> *final(self) == *old(self),
            r is Ok ==> {
                let t1 = old(self).tbl(table_id)->0;
                let t2 = final(self).tbl(table_id)->0;
                &&& final(self).tbl(table_id) is Some
                &&& t2.is_active == active
                &&& t2.version == bumped(t1.version)
                &&& t2.members@ == t1.members@
                &&& t2.member_count == t1.member_count
                &&& t2.table_id == t1.table_id && t2.name == t1.name && t2.owner == t1.owner
                    && t2.skip_threshold == t1.skip_threshold && t2.price_multiplier
                    == t1.price_multiplier
                &&& (active ==> t2.play() == t1.play())
                &&& (!active ==> t2.play() == close_play(t1.play()))
                &&& (!active ==> t2.current_track is None && t2.queue@.len() == 0
                    && t2.skip_votes@.len() == 0)
                &&& table_frame(*old(self), *final(self), table_id)
                &&& final(self).events@ == old(self).events@.push(
                    ContractEvent::TableStatusChanged(table_id, active),
                )
            },
    {
        let i = match self.find_table_index(table_id) {
            Some(i) => i,
            None => {
                return Err(Error::NotFound);
            },
        };
        if self.tables[i].owner != owner {
            return Err(Error::Unauthorized);
        }
        let mut t = self.tables.remove(i);
        let ghost t1 = t;
        t.is_active = active;
        if !active {
            t.queue = Vec::new();
            t.current_track = None;
            t.skip_votes = Vec::new();
        }
        t.version = bump_version(t.version);
        proof {
            if active {
                assert(t.play() =~~= t1.play());
            } else {
                assert(t.play() =~~= close_play(t1.play()));
            }
        }
        self.tables.insert(i, t);
        self.events.push(ContractEvent::TableStatusChanged(table_id, active));
        proof {
            let t2 = self.tables@[i as int];
            assert(old(self).tables@.remove(i as int).insert(i as int, t2) =~= old(
                self,
            ).tables@.update(i as int, t2));
            lemma_table_store_update(*old(self), *self, i as int, t2);
        }
        Ok(())
    }

    /// Adds a registered user to an active table's roster as a non-admin
    /// member; `now` is the ledger clock reading recorded as the join time.
    pub fn join_table(&mut self, user: u64, table_id: u32, now: u64) -> (r: Result<(), Error>)
        requires
            old(self).wf(),
        ensures
            final(self).wf(),
            r is Ok <==> (old(self).usr(user) is Some && old(self).tbl(table_id) is Some && old(
                self,
            ).tbl(table_id)->0.is_active && !old(self).tbl(table_id)->0.is_member(user) && old(
                self,
            ).tbl(table_id)->0.member_count < u32::MAX),
            r == Err::<(), Error>(Error::NotFound) <==> (old(self).usr(user) is None || (old(
                self,
            ).usr(user) is Some && old(self).tbl(table_id) is None)),
            r == Err::<(), Error>(Error::InvalidState) <==> (old(self).usr(user) is Some && old(
                self,
            ).tbl(table_id) is Some && (!old(self).tbl(table_id)->0.is_active || (old(self).tbl(
                table_id,
            )->0.is_member(user) == false && old(self).tbl(table_id)->0.member_count == u32::MAX))),
            r == Err::<(), Error>(Error::AlreadyExists) <==> (old(self).usr(user) is Some && old(
                self,
            ).tbl(table_id) is Some && old(self).tbl(table_id)->0.is_active && old(self).tbl(
                table_id,
            )->0.is_member(user)),
            r is Err ==> *final(self) == *old(self),
            r is Ok ==> {
                let t1 = old(self).tbl(table_id)->0;
                let t2 = final(self).tbl(table_id)->0;
                &&& final(self).tbl(table_id) is Some
                &&& t2.members@ == t1.members@.push(
                    TableMembership { member: user, joined_at: now, is_admin: false },
                )
                &&& t2.mem_of(user) == Some(
                    TableMembership { member: user, joined_at: now, is_admin: false },
                )
                &&& forall|p: u64| p != user ==> #[trigger] t2.mem_of(p) == t1.mem_of(p)
                &&& t2.member_count == t1.member_count + 1
                &&& t2.version == bumped(t1.version)
                &&& t2.current_track == t1.current_track && t2.queue@ == t1.queue@
                    && t2.skip_votes@ == t1.skip_votes@
                &&& t2.table_id == t1.table_id && t2.name == t1.name && t2.owner == t1.owner
                    && t2.skip_threshold == t1.skip_threshold && t2.price_multiplier
                    == t1.price_multiplier && t2.is_active == t1.is_active
                &&& table_frame(*old(self), *final(self), table_id)
                &&& final(self).events@ == old(self).events@.push(
                    ContractEvent::MembershipChanged(table_id, user, true, false),
                )
            },
    {
        if self.find_user_index(user).is_none() {
            return Err(Error::NotFound);
        }
        let i = match self.find_table_index(table_id) {
            Some(i) => i,
            None => {
                return Err(Error::NotFound);
            },
        };
        if !self.tables[i].is_active {
            return Err(Error::InvalidState);
        }
        if find_member_index(&self.tables[i].members, user).is_some() {
            return Err(Error::AlreadyExists);
        }
        if self.tables[i].member_count == u32::MAX {
            return Err(Error::InvalidState);
        }
        let mut t = self.tables.remove(i);
        let rec = TableMembership { member: user, joined_at: now, is_admin: false };
        proof {
            lemma_find_by_push(t.members@, member_key(), rec);
        }
        t.members.push(rec);
        t.member_count = t.member_count + 1;
        t.version = bump_version(t.version);
        proof {
            let t1 = old(self).tables@[i as int];
            assert forall|k: int|
                0 <= k < t.skip_votes@.len() implies t.is_member(
                #[trigger] t.skip_votes@[k],
            ) by {
                assert(t1.is_member(t1.skip_votes@[k]));
            }
            assert(t.wf());
        }
        self.tables.insert(i, t);
        self.events.push(ContractEvent::MembershipChanged(table_id, user, true, false));
        proof {
            let t2 = self.tables@[i as int];
            assert(old(self).tables@.remove(i as int).insert(i as int, t2) =~= old(
                self,
            ).tables@.update(i as int, t2));
            lemma_table_store_update(*old(self), *self, i as int, t2);
        }
        Ok(())
    }

    /// Removes a member from a table's roster and strips any pending skip
    /// vote they had cast.
    pub fn leave_table(&mut self, user: u64, table_id: u32) -> (r: Result<(), Error>)
        requires
            old(self).wf(),
        ensures
            final(self).wf(),
            r is Ok <==> (old(self).tbl(table_id) is Some && old(self).tbl(table_id)->0.is_member(
                user,
            )),
            r is Err ==> r == Err::<(), Error>(Error::NotFound) && *final(self) == *old(self),
            r is Ok ==> {
                let t1 = old(self).tbl(table_id)->0;
                let t2 = final(self).tbl(table_id)->0;
                &&& final(self).tbl(table_id) is Some
                &&& t2.mem_of(user) is None
                &&& forall|p: u64| p != user ==> #[trigger] t2.mem_of(p) == t1.mem_of(p)
                &&& t2.members@.len() == t1.members@.len() - 1
                &&& t2.member_count == t1.member_count - 1
                &&& t2.skip_votes@ == remove_by(t1.skip_votes@, vote_key(), user)
                &&& t2.version == bumped(t1.version)
                &&& t2.current_track == t1.current_track && t2.queue@ == t1.queue@
                &&& t2.table_id == t1.table_id && t2.name == t1.name && t2.owner == t1.owner
                    && t2.skip_threshold == t1.skip_threshold && t2.price_multiplier
                    == t1.price_multiplier && t2.is_active == t1.is_active
                &&& table_frame(*old(self), *final(self), table_id)
                &&& final(self).events@ == old(self).events@.push(
                    ContractEvent::MembershipChanged(table_id, user, false, false),
                )
            },
    {
        let i = match self.find_table_index(table_id) {
            Some(i) => i,
            None => {
                return Err(Error::NotFound);
            },
        };
        let mi = match find_member_index(&self.tables[i].members, user) {
            Some(mi) => mi,
            None => {
                return Err(Error::NotFound);
            },
        };
        let mut t = self.tables.remove(i);
        let ghost t1 = t;
        proof {
            assert forall|j: int| 0 <= j < mi as int implies member_key()(
                t.members@[j],
            ) != member_key()(t.members@[mi as int]) by {}
            lemma_remove_by_index(t.members@, member_key(), mi as int);
            lemma_remove_by(t.members@, member_key(), user);
        }
        t.members.remove(mi);
        t.member_count = t.member_count - 1;
        // strip any pending skip vote by the departing member
        match find_vote_index(&t.skip_votes, user) {
            Some(vi) => {
                proof {
                    assert(t.skip_votes@.no_duplicates());
                    assert forall|j: int| 0 <= j < vi as int implies vote_key()(
                        t.skip_votes@[j],
                    ) != vote_key()(t.skip_votes@[vi as int]) by {}
                    lemma_remove_by_index(t.skip_votes@, vote_key(), vi as int);
                    lemma_remove_by(t.skip_votes@, vote_key(), user);
                }
                t.skip_votes.remove(vi);
            },
            None => {
                proof {
                    crate::lookup::lemma_find_by_none(t.skip_votes@, vote_key(), user);
                    lemma_remove_by(t.skip_votes@, vote_key(), user);
                }
            },
        }
        t.version = bump_version(t.version);
        proof {
            lemma_votes_wf_after_leave(t1, t, user);
            assert(t.wf());
        }
        self.tables.insert(i, t);
        self.events.push(ContractEvent::MembershipChanged(table_id, user, false, false));
        proof {
            let t2 = self.tables@[i as int];
            assert(old(self).tables@.remove(i as int).insert(i as int, t2) =~= old(
                self,
            ).tables@.update(i as int, t2));
            lemma_table_store_update(*old(self), *self, i as int, t2);
        }
        Ok(())
    }

    /// Sets a member's admin flag, owner-only; base membership is unchanged.
    pub fn add_table_admin(&mut self, owner: u64, table_id: u32, new_admin: u64) -> (r: Result<
        (),
        Error,
    >)
        requires
            old(self).wf(),
        ensures
            final(self).wf(),
            r is Ok <==> (old(self).tbl(table_id) is Some && old(self).tbl(table_id)->0.owner
                == owner && old(self).tbl(table_id)->0.is_member(new_admin)),
            r is Err ==> *final(self) == *old(self),
            r == Err::<(), Error>(Error::Unauthorized) <==> (old(self).tbl(table_id) is Some && old(
                self,
            ).tbl(table_id)->0.owner != owner),
            r is Ok ==> admin_flag_set(old(self).tbl(table_id)->0, final(self).tbl(table_id)->0, new_admin, true)
                && final(self).tbl(table_id) is Some && table_frame(*old(self), *final(self), table_id)
                && final(self).events@ == old(self).events@.push(
                ContractEvent::AdminChanged(table_id, new_admin, true),
            ),
    {
        self.set_admin_flag(owner, table_id, new_admin, true)
    }

    /// Clears a member's admin flag, owner-only; base membership is unchanged.
    pub fn remove_table_admin(&mut self, owner: u64, table_id: u32, admin: u64) -> (r: Result<
        (),
        Error,
    >)
        requires
            old(self).wf(),
        ensures
            final(self).wf(),
            r is Ok <==> (old(self).tbl(table_id) is Some && old(self).tbl(table_id)->0.owner
                == owner && old(self).tbl(table_id)->0.is_member(admin)),
            r is Err ==> *final(self) == *old(self),
            r == Err::<(), Error>(Error::Unauthorized) <==> (old(self).tbl(table_id) is Some && old(
                self,
            ).tbl(table_id)->0.owner != owner),
            r is Ok ==> admin_flag_set(old(self).tbl(table_id)->0, final(self).tbl(table_id)->0, admin, false)
                && final(self).tbl(table_id) is Some && table_frame(*old(self), *final(self), table_id)
                && final(self).events@ == old(self).events@.push(
                ContractEvent::AdminChanged(table_id, admin, false),
            ),
    {
        self.set_admin_flag(owner, table_id, admin, false)
    }

    /// Shared body of the two admin-flag operations.
    fn set_admin_flag(&mut self, owner: u64, table_id: u32, member: u64, flag: bool) -> (r: Result<
        (),
        Error,
    >)
        requires
            old(self).wf(),
        ensures
            final(self).wf(),
            r is Ok <==> (old(self).tbl(table_id) is Some && old(self).tbl(table_id)->0.owner
                == owner && old(self).tbl(table_id)->0.is_member(member)),
            r == Err::<(), Error>(Error::NotFound) <==> (old(self).tbl(table_id) is None || (old(
                self,
            ).tbl(table_id) is Some && old(self).tbl(table_id)->0.owner == owner && !old(self).tbl(
                table_id,
            )->0.is_member(member))),
            r == Err::<(), Error>(Error::Unauthorized) <==> (old(self).tbl(table_id) is Some && old(
                self,
            ).tbl(table_id)->0.owner != owner),
            r is Err ==> *final(self) == *old(self),
            r is Ok ==> admin_flag_set(old(self).tbl(table_id)->0, final(self).tbl(table_id)->0, member, flag)
                && final(self).tbl(table_id) is Some && table_frame(*old(self), *final(self), table_id)
                && final(self).events@ == old(self).events@.push(
                ContractEvent::AdminChanged(table_id, member, flag),
            ),
    {
        let i = match self.find_table_index(table_id) {
            Some(i) => i,
            None => {
                return Err(Error::NotFound);
            },
        };
        if self.tables[i].owner != owner {
            return Err(Error::Unauthorized);
        }
        let mi = match find_member_index(&self.tables[i].members, member) {
            Some(mi) => mi,
            None => {
                return Err(Error::NotFound);
            },
        };
        let mut t = self.tables.remove(i);
        let ghost t1 = t;
        let mut rec = t.members.remove(mi);
        rec.is_admin = flag;
        proof {
            lemma_find_by_update(t1.members@, member_key(), mi as int, rec);
            assert(t1.members@.remove(mi as int).insert(mi as int, rec) =~= t1.members@.update(
                mi as int,
                rec,
            ));
        }
        t.members.insert(mi, rec);
        t.version = bump_version(t.version);
        proof {
            assert forall|k: int|
                0 <= k < t.skip_votes@.len() implies t.is_member(
                #[trigger] t.skip_votes@[k],
            ) by {
                assert(t1.is_member(t1.skip_votes@[k]));
            }
            assert(t.wf());
        }
        self.tables.insert(i, t);
        self.events.push(ContractEvent::AdminChanged(table_id, member, flag));
        proof {
            let t2 = self.tables@[i as int];
            assert(old(self).tables@.remove(i as int).insert(i as int, t2) =~= old(
                self,
            ).tables@.update(i as int, t2));
            lemma_table_store_update(*old(self), *self, i as int, t2);
        }
        Ok(())
    }

    /// Whether `user` is on the roster of table `table_id`.
    pub fn is_table_member(&self, user: u64, table_id: u32) -> (r: bool)
        requires
            self.wf(),
        ensures
            r <==> (self.tbl(table_id) is Some && self.tbl(table_id)->0.is_member(user)),
    {
        match self.find_table_index(table_id) {
            Some(i) => find_member_index(&self.tables[i].members, user).is_some(),
            None => false,
        }
    }

    /// Whether `user` holds the admin flag at table `table_id`.
    pub fn is_table_admin(&self, user: u64, table_id: u32) -> (r: bool)
        requires
            self.wf(),
        ensures
            r <==> (self.tbl(table_id) is Some && self.tbl(table_id)->0.mem_of(user) is Some
                && self.tbl(table_id)->0.mem_of(user)->0.is_admin),
    {
        match self.find_table_index(table_id) {
            Some(i) => match find_member_index(&self.tables[i].members, user) {
                Some(mi) => self.tables[i].members[mi].is_admin,
                None => false,
            },
            None => false,
        }
    }

    /// The cached member count of a table, zero when the table is absent.
    pub fn get_table_member_count(&self, table_id: u32) -> (r: u32)
        ensures
            r == if self.tbl(table_id) is Some {
                self.tbl(table_id)->0.member_count
            } else {
                0u32
            },
    {
        match self.find_table_index(table_id) {
            Some(i) => self.tables[i].member_count,
            None => 0,
        }
    }

    /// The roster of a table as a list of principals, in join order.
    pub fn get_table_members(&self, table_id: u32) -> (r: Result<Vec<u64>, Error>)
        ensures
            r is Ok <==> self.tbl(table_id) is Some,
            r is Err ==> r == Err::<Vec<u64>, Error>(Error::NotFound),
            r is Ok ==> r->Ok_0@ == self.tbl(table_id)->0.members@.map_values(
                |m: TableMembership| m.member,
            ),
    {
        let i = match self.find_table_index(table_id) {
            Some(i) => i,
            None => {
                return Err(Error::NotFound);
            },
        };
        let members = &self.tables[i].members;
        let ghost ms = members@.map_values(|m: TableMembership| m.member);
        let mut out: Vec<u64> = Vec::new();
        let mut k: usize = 0;
        while k < members.len()
            invariant
                k <= members@.len(),
                ms == members@.map_values(|m: TableMembership| m.member),
                self.tbl(table_id) is Some,
                members@ == self.tbl(table_id)->0.members@,
                out@ =~= ms.take(k as int),
            decreases members@.len() - k,
        {
            out.push(members[k].member);
            k += 1;
        }
        proof {
            assert(ms.take(ms.len() as int) =~= ms);
        }
        Ok(out)
    }
}

/// The ids of the tables where `user` is on the roster, in creation order.
pub open spec fn member_table_ids(s: Seq<JukeboxTable>, user: u64) -> Seq<u32>
    decreases s.len(),
{
    if s.len() == 0 {
        Seq::empty()
    } else {
        member_table_ids(s.drop_last(), user) + if s.last().is_member(user) {
            seq![s.last().table_id]
        } else {
            Seq::empty()
        }
    }
}

impl MetaJuke {
    /// The ids of every table `user` is a member of.
    pub fn get_user_tables(&self, user: u64) -> (r: Vec<u32>)
        ensures
            r@ == member_table_ids(self.tables@, user),
    {
        let ghost s = self.tables@;
        let mut out: Vec<u32> = Vec::new();
        let mut k: usize = 0;
        while k < self.tables.len()
            invariant
                k <= s.len(),
                s == self.tables@,
                out@ == member_table_ids(s.take(k as int), user),
            decreases s.len() - k,
        {
            proof {
                assert(s.take(k as int + 1).drop_last() =~= s.take(k as int));
                assert(s.take(k as int + 1).last() == s[k as int]);
            }
            if find_member_index(&self.tables[k].members, user).is_some() {
                out.push(self.tables[k].table_id);
                proof {
                    assert(out@ =~= member_table_ids(s.take(k as int + 1), user));
                }
            } else {
                proof {
                    assert(out@ =~= member_table_ids(s.take(k as int + 1), user));
                }
            }
            k += 1;
        }
        proof {
            assert(s.take(s.len() as int) =~= s);
        }
        out
    }
}

/// The version counter after one more mutation, as executable code.
pub(crate) fn bump_version(v: u64) -> (r: u64)
    ensures
        r == bumped(v),
{
    if v == u64::MAX {
        0
    } else {
        v + 1
    }
}

/// The admin flag of `member` set to `flag`, everything else unchanged.
pub open spec fn admin_flag_set(
    t1: JukeboxTable,
    t2: JukeboxTable,
    member: u64,
    flag: bool,
) -> bool {
    &&& t2.mem_of(member) == Some(
        TableMembership { is_admin: flag, ..t1.mem_of(member)->0 },
    )
    &&& forall|p: u64| p != member ==> #[trigger] t2.mem_of(p) == t1.mem_of(p)
    &&& t2.members@.len() == t1.members@.len()
    &&& t2.member_count == t1.member_count
    &&& t2.version == bumped(t1.version)
    &&& t2.current_track == t1.current_track && t2.queue@ == t1.queue@ && t2.skip_votes@
        == t1.skip_votes@
    &&& t2.table_id == t1.table_id && t2.name == t1.name && t2.owner == t1.owner
        && t2.skip_threshold == t1.skip_threshold && t2.price_multiplier == t1.price_multiplier
        && t2.is_active == t1.is_active
}

/// After a member leaves — roster entry removed, their vote stripped — the
/// remaining votes still belong to roster members.
proof fn lemma_votes_wf_after_leave(t1: JukeboxTable, t2: JukeboxTable, user: u64)
    requires
        t1.wf(),
        t2.members@ == remove_by(t1.members@, member_key(), user),
        t1.is_member(user),
        t2.skip_votes@ == remove_by(t1.skip_votes@, vote_key(), user),
        t2.current_track == t1.current_track,
        t2.member_count == t1.member_count - 1,
    ensures
        t2.member_count == t2.members@.len(),
        crate::lookup::keys_distinct(t2.members@, member_key()),
        t2.skip_votes@.no_duplicates(),
        forall|i: int|
            0 <= i < t2.skip_votes@.len() ==> t2.is_member(#[trigger] t2.skip_votes@[i]),
        t2.current_track is None ==> t2.skip_votes@.len() == 0,
{
    lemma_remove_by(t1.members@, member_key(), user);
    assert(t1.skip_votes@.no_duplicates());
    assert forall|i: int, j: int|
        0 <= i < j < t1.skip_votes@.len() implies vote_key()(t1.skip_votes@[i]) != vote_key()(
        t1.skip_votes@[j],
    ) by {}
    lemma_remove_by(t1.skip_votes@, vote_key(), user);
    assert forall|i: int, j: int|
        0 <= i < j < t2.skip_votes@.len() implies t2.skip_votes@[i] != t2.skip_votes@[j] by {
        assert(vote_key()(t2.skip_votes@[i]) != vote_key()(t2.skip_votes@[j]));
    }
    crate::lookup::lemma_find_by_none(t2.skip_votes@, vote_key(), user);
    assert forall|i: int|
        0 <= i < t2.skip_votes@.len() implies t2.is_member(#[trigger] t2.skip_votes@[i]) by {
        let v = t2.skip_votes@[i];
        lemma_remove_by_membership(t1.skip_votes@, vote_key(), user, i);
        let j = choose|j: int| 0 <= j < t1.skip_votes@.len() && t1.skip_votes@[j] == v;
        assert(t1.is_member(v));
        assert(vote_key()(v) != user);
    }
    if t2.current_track is None {
        assert(t1.skip_votes@.len() == 0);
        assert(t2.skip_votes@.len() == 0);
    }
}

} // verus!
