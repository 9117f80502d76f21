use vstd::prelude::*;

use crate::lookup::{find_by, lemma_find_by_push, lemma_find_by_update};
use crate::records::{artist_key, pair_key, user_key, Artist, User};
use crate::state::MetaJuke;
use crate::Error;

verus! {

impl MetaJuke {
    /// Registers a listener under `user`, bound to a profile NFT. The caller
    /// supplies `owns_nft`, the identity service's verdict on whether `user`
    /// controls `profile_nft`.
    pub fn register_user(
        &mut self,
        user: u64,
        profile_nft: u64,
        avatar_uri: String,
        owns_nft: bool,
    ) -> (r: Result<(), Error>)
        requires
            old(self).wf(),
        ensures
            final(self).wf(),
            r is Ok <==> (owns_nft && old(self).usr(user) is None && old(self).user_of_nft(
                profile_nft,
            ) is None),
            r == Err::<(), Error>(Error::Unauthorized) <==> !owns_nft,
            r == Err::<(), Error>(Error::AlreadyExists) <==> (owns_nft && (old(self).usr(
                user,
            ) is Some || old(self).user_of_nft(profile_nft) is Some)),
            r is Err ==> *final(self) == *old(self),
            r is Ok ==> {
                &&& final(self).users@ == old(self).users@.push(
                    (user, User { profile_nft, avatar_uri, reputation: 100, is_active: true }),
                )
                &&& final(self).usr(user) == Some(
                    User { profile_nft, avatar_uri, reputation: 100, is_active: true },
                )
                &&& forall|p: u64| p != user ==> #[trigger] final(self).usr(p) == old(self).usr(p)
                &&& final(self).nft_of(user) == Some(profile_nft)
                &&& forall|p: u64| p != user ==> #[trigger] final(self).nft_of(p) == old(self).nft_of(p)
                &&& final(self).user_of_nft(profile_nft) == Some(user)
                &&& forall|n: u64|
                    n != profile_nft ==> #[trigger] final(self).user_of_nft(n) == old(self).user_of_nft(n)
                &&& final(self).artists@ == old(self).artists@
                &&& final(self).tracks@ == old(self).tracks@
                &&& final(self).tables@ == old(self).tables@
                &&& final(self).requests@ == old(self).requests@
                &&& final(self).events@ == old(self).events@
                &&& final(self).cfg_eq(*old(self))
                &&& final(self).counters_eq(*old(self))
            },
    {
        if !owns_nft {
            return Err(Error::Unauthorized);
        }
        if self.find_user_index(user).is_some() {
            return Err(Error::AlreadyExists);
        }
        if crate::state::find_pair_index(&self.nft_to_user, profile_nft).is_some() {
            return Err(Error::AlreadyExists);
        }
        let new_user = User { profile_nft, avatar_uri, reputation: 100, is_active: true };
        proof {
            lemma_user_to_nft_fresh(*old(self), user);
            lemma_find_by_push(self.users@, user_key(), (user, new_user));
        }
        self.users.push((user, new_user));
        proof {
            lemma_find_by_push(self.user_to_nft@, pair_key(), (user, profile_nft));
        }
        self.user_to_nft.push((user, profile_nft));
        proof {
            lemma_find_by_push(self.nft_to_user@, pair_key(), (profile_nft, user));
        }
        self.nft_to_user.push((profile_nft, user));
        Ok(())
    }

    /// Opens an artist account for a registered user, with a zero balance.
    pub fn register_artist(&mut self, user: u64, artist_name: String) -> (r: Result<(), Error>)
        requires
            old(self).wf(),
        ensures
            final(self).wf(),
            r is Ok <==> (old(self).usr(user) is Some && old(self).art(user) is None),
            r == Err::<(), Error>(Error::NotFound) <==> old(self).usr(user) is None,
            r == Err::<(), Error>(Error::AlreadyExists) <==> (old(self).usr(user) is Some && old(
                self,
            ).art(user) is Some),
            r is Err ==> *final(self) == *old(self),
            r is Ok ==> {
                &&& final(self).artists@ == old(self).artists@.push(
                    Artist { user_id: user, artist_name, revenue_balance: 0, verified: false },
                )
                &&& final(self).art(user) == Some(
                    Artist { user_id: user, artist_name, revenue_balance: 0, verified: false },
                )
                &&& forall|p: u64| p != user ==> #[trigger] final(self).art(p) == old(self).art(p)
                &&& final(self).users@ == old(self).users@
                &&& final(self).tracks@ == old(self).tracks@
                &&& final(self).tables@ == old(self).tables@
                &&& final(self).requests@ == old(self).requests@
                &&& final(self).user_to_nft@ == old(self).user_to_nft@
                &&& final(self).nft_to_user@ == old(self).nft_to_user@
                &&& final(self).events@ == old(self).events@
                &&& final(self).cfg_eq(*old(self))
                &&& final(self).counters_eq(*old(self))
            },
    {
        if self.find_user_index(user).is_none() {
            return Err(Error::NotFound);
        }
        if self.find_artist_index(user).is_some() {
            return Err(Error::AlreadyExists);
        }
        let new_artist = Artist { user_id: user, artist_name, revenue_balance: 0, verified: false };
        proof {
            lemma_find_by_push(self.artists@, artist_key(), new_artist);
        }
        self.artists.push(new_artist);
        Ok(())
    }

    /// Replaces the avatar of a registered user.
    pub fn update_user_profile(&mut self, user: u64, avatar_uri: String) -> (r: Result<(), Error>)
        requires
            old(self).wf(),
        ensures
            final(self).wf(),
            r is Ok <==> old(self).usr(user) is Some,
            r == Err::<(), Error>(Error::NotFound) <==> old(self).usr(user) is None,
            r is Err ==> *final(self) == *old(self),
            r is Ok ==> {
                &&& final(self).usr(user) == Some(
                    User { avatar_uri, ..old(self).usr(user)->0 },
                )
                &&& forall|p: u64| p != user ==> #[trigger] final(self).usr(p) == old(self).usr(p)
                &&& final(self).artists@ == old(self).artists@
                &&& final(self).tracks@ == old(self).tracks@
                &&& final(self).tables@ == old(self).tables@
                &&& final(self).requests@ == old(self).requests@
                &&& final(self).user_to_nft@ == old(self).user_to_nft@
                &&& final(self).nft_to_user@ == old(self).nft_to_user@
                &&& final(self).events@ == old(self).events@
                &&& final(self).cfg_eq(*old(self))
                &&& final(self).counters_eq(*old(self))
            },
    {
        let i = match self.find_user_index(user) {
            Some(i) => i,
            None => {
                return Err(Error::NotFound);
            },
        };
        let mut entry = self.users.remove(i);
        entry.1.avatar_uri = avatar_uri;
        proof {
            lemma_find_by_update(old(self).users@, user_key(), i as int, entry);
            assert(old(self).users@.remove(i as int).insert(i as int, entry) =~= old(
                self,
            ).users@.update(i as int, entry));
        }
        self.users.insert(i, entry);
        Ok(())
    }

    /// Sets an artist's verified flag, platform-admin only.
    pub fn update_artist_verification(&mut self, admin: u64, artist: u64, verified: bool) -> (r:
        Result<(), Error>)
        requires
            old(self).wf(),
        ensures
            final(self).wf(),
            r is Ok <==> (admin == old(self).admin && old(self).art(artist) is Some),
            r == Err::<(), Error>(Error::Unauthorized) <==> admin != old(self).admin,
            r == Err::<(), Error>(Error::NotFound) <==> (admin == old(self).admin && old(self).art(
                artist,
            ) is None),
            r is Err ==> *final(self) == *old(self),
            r is Ok ==> {
                &&& final(self).art(artist) == Some(
                    Artist { verified, ..old(self).art(artist)->0 },
                )
                &&& forall|p: u64| p != artist ==> #[trigger] final(self).art(p) == old(self).art(p)
                &&& final(self).users@ == old(self).users@
                &&& final(self).tracks@ == old(self).tracks@
                &&& final(self).tables@ == old(self).tables@
                &&& final(self).requests@ == old(self).requests@
                &&& final(self).user_to_nft@ == old(self).user_to_nft@
                &&& final(self).nft_to_user@ == old(self).nft_to_user@
                &&& final(self).events@ == old(self).events@
                &&& final(self).cfg_eq(*old(self))
                &&& final(self).counters_eq(*old(self))
            },
    {
        if admin != self.admin {
            return Err(Error::Unauthorized);
        }
        let i = match self.find_artist_index(artist) {
            Some(i) => i,
            None => {
                return Err(Error::NotFound);
            },
        };
        let mut entry = self.artists.remove(i);
        entry.verified = verified;
        proof {
            lemma_find_by_update(old(self).artists@, artist_key(), i as int, entry);
            assert(old(self).artists@.remove(i as int).insert(i as int, entry) =~= old(
                self,
            ).artists@.update(i as int, entry));
        }
        self.artists.insert(i, entry);
        Ok(())
    }
}

/// A user with no record holds no entry in the NFT binding either.
proof fn lemma_user_to_nft_fresh(s: MetaJuke, user: u64)
    requires
        forall|i: int|
            0 <= i < s.user_to_nft@.len() ==> s.usr((#[trigger] s.user_to_nft@[i]).0) is Some,
        s.usr(user) is None,
    ensures
        find_by(s.user_to_nft@, pair_key(), user) is None,
{
    crate::lookup::lemma_find_by_none(s.user_to_nft@, pair_key(), user);
}

} // verus!
