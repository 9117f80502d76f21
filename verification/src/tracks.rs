use vstd::prelude::*;

use crate::lookup::{lemma_find_by_none, lemma_find_by_push, lemma_find_by_update};
use crate::records::{sum_split, track_key, ContractEvent, Track};
use crate::state::MetaJuke;
use crate::Error;

verus! {

/// The ids of the tracks minted by `artist`, in mint order.
pub open spec fn artist_track_ids(s: Seq<Track>, artist: u64) -> Seq<u32>
    decreases s.len(),
{
    if s.len() == 0 {
        Seq::empty()
    } else {
        artist_track_ids(s.drop_last(), artist) + if s.last().artist_id == artist {
            seq![s.last().track_id]
        } else {
            Seq::empty()
        }
    }
}

/// A prefix of a split never sums to more than the whole split.
pub proof fn lemma_sum_split_prefix(s: Seq<(u64, u32)>, k: int)
    requires
        0 <= k <= s.len(),
    ensures
        sum_split(s.take(k)) <= sum_split(s),
    decreases s.len() - k,
{
    if k < s.len() {
        lemma_sum_split_prefix(s, k + 1);
        assert(s.take(k + 1).drop_last() =~= s.take(k));
        assert(s.take(k + 1).last() == s[k]);
    } else {
        assert(s.take(k) =~= s);
    }
}

impl MetaJuke {
    /// Mints a track for a registered artist. The royalty split must total
    /// exactly 100 percent and the base price must be non-negative; the id is
    /// the next value of the track counter.
    pub fn mint_track(
        &mut self,
        artist: u64,
        title: String,
        base_price: i128,
        licenses: u32,
        metadata_uri: String,
        collaborators: Vec<u64>,
        royalty_split: Vec<(u64, u32)>,
    ) -> (r: Result<u32, Error>)
        requires
            old(self).wf(),
        ensures
            final(self).wf(),
            r is Ok <==> (old(self).art(artist) is Some && sum_split(royalty_split@) == 100
                && base_price >= 0 && old(self).track_counter < u32::MAX),
            r == Err::<u32, Error>(Error::Unauthorized) <==> old(self).art(artist) is None,
            r == Err::<u32, Error>(Error::ValidationError) <==> (old(self).art(artist) is Some && (
            sum_split(royalty_split@) != 100 || base_price < 0)),
            r == Err::<u32, Error>(Error::InvalidState) <==> (old(self).art(artist) is Some
                && sum_split(royalty_split@) == 100 && base_price >= 0 && old(self).track_counter
                == u32::MAX),
            r is Err ==> *final(self) == *old(self),
            r is Ok ==> {
                let id = r->Ok_0;
                &&& id == old(self).track_counter + 1
                &&& final(self).track_counter == id
                &&& final(self).trk(id) == Some(
                    Track {
                        track_id: id,
                        track_nft: id as u64,
                        title,
                        artist_id: artist,
                        collaborators,
                        play_count: 0,
                        base_price,
                        licenses_remaining: licenses,
                        metadata_uri,
                        royalty_split,
                    },
                )
                &&& forall|j: u32| j != id ==> #[trigger] final(self).trk(j) == old(self).trk(j)
                &&& final(self).tracks@ == old(self).tracks@.push(final(self).trk(id)->0)
                &&& final(self).tracks@.len() == old(self).tracks@.len() + 1
                &&& final(self).users@ == old(self).users@ && final(self).artists@ == old(self).artists@
                    && final(self).tables@ == old(self).tables@ && final(self).requests@ == old(self).requests@
                    && final(self).user_to_nft@ == old(self).user_to_nft@ && final(self).nft_to_user@ == old(
                    self,
                ).nft_to_user@
                &&& final(self).cfg_eq(*old(self))
                &&& final(self).user_counter == old(self).user_counter && final(self).table_counter == old(
                    self,
                ).table_counter && final(self).request_counter == old(self).request_counter
                &&& final(self).events@ == old(self).events@.push(ContractEvent::TrackMinted(id))
            },
    {
        if self.find_artist_index(artist).is_none() {
            return Err(Error::Unauthorized);
        }
        // total the split percentages, staying within the 0..=100 window
        let ghost sp = royalty_split@;
        let mut acc: u32 = 0;
        let mut k: usize = 0;
        while k < royalty_split.len()
            invariant
                k <= sp.len(),
                sp == royalty_split@,
                acc == sum_split(sp.take(k as int)),
                acc <= 100,
                *self == *old(self),
                old(self).wf(),
                old(self).art(artist) is Some,
            decreases sp.len() - k,
        {
            let pct = royalty_split[k].1;
            proof {
                assert(sp.take(k as int + 1).drop_last() =~= sp.take(k as int));
                assert(sp.take(k as int + 1).last() == sp[k as int]);
            }
            if pct > 100 - acc {
                proof {
                    lemma_sum_split_prefix(sp, k as int + 1);
                }
                return Err(Error::ValidationError);
            }
            acc = acc + pct;
            k += 1;
        }
        proof {
            assert(sp.take(sp.len() as int) =~= sp);
        }
        if acc != 100 {
            return Err(Error::ValidationError);
        }
        if base_price < 0 {
            return Err(Error::ValidationError);
        }
        if self.track_counter == u32::MAX {
            return Err(Error::InvalidState);
        }
        let id = self.track_counter + 1;
        let t = Track {
            track_id: id,
            track_nft: id as u64,
            title,
            artist_id: artist,
            collaborators,
            play_count: 0,
            base_price,
            licenses_remaining: licenses,
            metadata_uri,
            royalty_split,
        };
        proof {
            lemma_find_by_none(self.tracks@, track_key(), id);
            lemma_find_by_push(self.tracks@, track_key(), t);
        }
        self.tracks.push(t);
        self.track_counter = id;
        self.events.push(ContractEvent::TrackMinted(id));
        proof {
            assert forall|j: int|
                0 <= j < self.tracks@.len() implies (#[trigger] self.tracks@[j]).wf() && 1
                <= self.tracks@[j].track_id <= self.track_counter by {
                if j < old(self).tracks@.len() {
                    assert(self.tracks@[j] == old(self).tracks@[j]);
                }
            }
        }
        Ok(id)
    }

    /// Updates the price, remaining licences and metadata of a track, allowed
    /// only for the minting artist.
    pub fn update_track(
        &mut self,
        artist: u64,
        track_id: u32,
        new_base_price: i128,
        new_licenses: u32,
        new_metadata_uri: String,
    ) -> (r: Result<(), Error>)
        requires
            old(self).wf(),
        ensures
            final(self).wf(),
            r is Ok <==> (old(self).trk(track_id) is Some && old(self).trk(track_id)->0.artist_id
                == artist && new_base_price >= 0),
            r == Err::<(), Error>(Error::NotFound) <==> old(self).trk(track_id) is None,
            r == Err::<(), Error>(Error::Unauthorized) <==> (old(self).trk(track_id) is Some && old(
                self,
            ).trk(track_id)->0.artist_id != artist),
            r == Err::<(), Error>(Error::ValidationError) <==> (old(self).trk(track_id) is Some
                && old(self).trk(track_id)->0.artist_id == artist && new_base_price < 0),
            r is Err ==> *final(self) == *old(self),
            r is Ok ==> {
                &&& final(self).trk(track_id) == Some(
                    Track {
                        base_price: new_base_price,
                        licenses_remaining: new_licenses,
                        metadata_uri: new_metadata_uri,
                        ..old(self).trk(track_id)->0
                    },
                )
                &&& forall|j: u32| j != track_id ==> #[trigger] final(self).trk(j) == old(self).trk(j)
                &&& final(self).tracks@.len() == old(self).tracks@.len()
                &&& final(self).users@ == old(self).users@ && final(self).artists@ == old(self).artists@
                    && final(self).tables@ == old(self).tables@ && final(self).requests@ == old(self).requests@
                    && final(self).user_to_nft@ == old(self).user_to_nft@ && final(self).nft_to_user@ == old(
                    self,
                ).nft_to_user@
                &&& final(self).cfg_eq(*old(self))
                &&& final(self).counters_eq(*old(self))
                &&& final(self).events@ == old(self).events@
            },
    {
        let i = match self.find_track_index(track_id) {
            Some(i) => i,
            None => {
                return Err(Error::NotFound);
            },
        };
        if self.tracks[i].artist_id != artist {
            return Err(Error::Unauthorized);
        }
        if new_base_price < 0 {
            return Err(Error::ValidationError);
        }
        let mut t = self.tracks.remove(i);
        t.base_price = new_base_price;
        t.licenses_remaining = new_licenses;
        t.metadata_uri = new_metadata_uri;
        proof {
            lemma_find_by_update(old(self).tracks@, track_key(), i as int, t);
            assert(old(self).tracks@.remove(i as int).insert(i as int, t) =~= old(
                self,
            ).tracks@.update(i as int, t));
        }
        self.tracks.insert(i, t);
        proof {
            assert forall|j: int|
                0 <= j < self.tracks@.len() implies (#[trigger] self.tracks@[j]).wf() && 1
                <= self.tracks@[j].track_id <= self.track_counter by {
                if j != i as int {
                    assert(self.tracks@[j] == old(self).tracks@[j]);
                }
            }
        }
        Ok(())
    }

    /// The ids of every track minted by `artist`, in mint order.
    pub fn get_artist_tracks(&self, artist: u64) -> (r: Result<Vec<u32>, Error>)
        ensures
            r is Ok <==> self.art(artist) is Some,
            r is Err ==> r == Err::<Vec<u32>, Error>(Error::NotFound),
            r is Ok ==> r->Ok_0@ == artist_track_ids(self.tracks@, artist),
    {
        if self.find_artist_index(artist).is_none() {
            return Err(Error::NotFound);
        }
        let ghost s = self.tracks@;
        let mut out: Vec<u32> = Vec::new();
        let mut k: usize = 0;
        while k < self.tracks.len()
            invariant
                k <= s.len(),
                s == self.tracks@,
                out@ == artist_track_ids(s.take(k as int), artist),
            decreases s.len() - k,
        {
            proof {
                assert(s.take(k as int + 1).drop_last() =~= s.take(k as int));
                assert(s.take(k as int + 1).last() == s[k as int]);
            }
            if self.tracks[k].artist_id == artist {
                out.push(self.tracks[k].track_id);
                proof {
                    assert(out@ =~= artist_track_ids(s.take(k as int + 1), artist));
                }
            } else {
                proof {
                    assert(out@ =~= artist_track_ids(s.take(k as int + 1), artist));
                }
            }
            k += 1;
        }
        proof {
            assert(s.take(s.len() as int) =~= s);
        }
        Ok(out)
    }
}

} // verus!
