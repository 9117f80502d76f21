use vstd::prelude::*;

use crate::lookup::{find_by, keys_distinct};

verus! {

/// A registered listener, keyed elsewhere by the owning principal.
#[verifier::ext_equal]
pub struct User {
    pub profile_nft: u64,
    pub avatar_uri: String,
    pub reputation: u32,
    pub is_active: bool,
}

/// A revenue-earning account, keyed by `user_id`.
#[verifier::ext_equal]
pub struct Artist {
    pub user_id: u64,
    pub artist_name: String,
    pub revenue_balance: i128,
    pub verified: bool,
}

/// A playable track with its mint-time royalty split.
#[verifier::ext_equal]
pub struct Track {
    pub track_id: u32,
    pub track_nft: u64,
    pub title: String,
    pub artist_id: u64,
    pub collaborators: Vec<u64>,
    pub play_count: u32,
    pub base_price: i128,
    pub licenses_remaining: u32,
    pub metadata_uri: String,
    pub royalty_split: Vec<(u64, u32)>,
}

/// One member's record at one table.
#[verifier::ext_equal]
pub struct TableMembership {
    pub member: u64,
    pub joined_at: u64,
    pub is_admin: bool,
}

/// A shared listening table: roster, FIFO queue of request ids, skip votes.
#[verifier::ext_equal]
pub struct JukeboxTable {
    pub table_id: u32,
    pub name: String,
    pub owner: u64,
    pub current_track: Option<Vec<u8>>,
    pub queue: Vec<Vec<u8>>,
    pub skip_votes: Vec<u64>,
    pub skip_threshold: u32,
    pub price_multiplier: u32,
    pub member_count: u32,
    pub is_active: bool,
    pub version: u64,
    pub members: Vec<TableMembership>,
}

/// An immutable record of a paid play request.
#[verifier::ext_equal]
pub struct TrackRequest {
    pub request_id: Vec<u8>,
    pub requester: u64,
    pub track_id: u32,
    pub table_id: u32,
    pub timestamp: u64,
    pub amount_paid: i128,
    pub fulfilled: bool,
}

/// State-change notices handed to the notification sink.
pub enum ContractEvent {
    TrackMinted(u32),
    TrackRequested(Vec<u8>),
    TableCreated(u32),
    MembershipChanged(u32, u64, bool, bool),
    AdminChanged(u32, u64, bool),
    TableStatusChanged(u32, bool),
    SkipVoted(u32, u64),
}

pub open spec fn member_key() -> spec_fn(TableMembership) -> u64 {
    |m: TableMembership| m.member
}

pub open spec fn track_key() -> spec_fn(Track) -> u32 {
    |t: Track| t.track_id
}

pub open spec fn table_key() -> spec_fn(JukeboxTable) -> u32 {
    |t: JukeboxTable| t.table_id
}

pub open spec fn artist_key() -> spec_fn(Artist) -> u64 {
    |a: Artist| a.user_id
}

pub open spec fn user_key() -> spec_fn((u64, User)) -> u64 {
    |e: (u64, User)| e.0
}

pub open spec fn pair_key() -> spec_fn((u64, u64)) -> u64 {
    |e: (u64, u64)| e.0
}

pub open spec fn request_key() -> spec_fn(TrackRequest) -> Seq<u8> {
    |r: TrackRequest| r.request_id@
}

pub open spec fn vote_key() -> spec_fn(u64) -> u64 {
    |v: u64| v
}

pub open spec fn bytes_view() -> spec_fn(Vec<u8>) -> Seq<u8> {
    |v: Vec<u8>| v@
}

pub open spec fn req_model() -> spec_fn(TrackRequest) -> RequestModel {
    |q: TrackRequest| q.model()
}

/// Sum of the percentages of a royalty split.
pub open spec fn sum_split(s: Seq<(u64, u32)>) -> int
    decreases s.len(),
{
    if s.len() == 0 {
        0
    } else {
        sum_split(s.drop_last()) + s.last().1
    }
}

impl Track {
    /// Mint-time invariant: percentages total exactly 100, price non-negative.
    pub open spec fn wf(self) -> bool {
        &&& sum_split(self.royalty_split@) == 100
        &&& self.base_price >= 0
    }
}

impl JukeboxTable {
    /// The membership record of `p`, if `p` is on the roster.
    pub open spec fn mem_of(self, p: u64) -> Option<TableMembership> {
        find_by(self.members@, member_key(), p)
    }

    pub open spec fn is_member(self, p: u64) -> bool {
        self.mem_of(p) is Some
    }

    /// Table authority: the owner, or a member whose admin flag is set.
    pub open spec fn is_authority(self, p: u64) -> bool {
        self.owner == p || (self.mem_of(p) is Some && self.mem_of(p)->0.is_admin)
    }

    pub open spec fn wf(self) -> bool {
        &&& self.member_count == self.members@.len()
        &&& keys_distinct(self.members@, member_key())
        &&& self.skip_votes@.no_duplicates()
        &&& forall|i: int|
            0 <= i < self.skip_votes@.len() ==> self.is_member(#[trigger] self.skip_votes@[i])
        &&& self.current_track is None ==> self.skip_votes@.len() == 0
    }

    /// The queue-and-votes part of the table, as plain mathematical values.
    pub open spec fn play(self) -> PlayState {
        PlayState {
            current: match self.current_track {
                Some(v) => Some(v@),
                None => None,
            },
            queue: self.queue@.map_values(bytes_view()),
            votes: self.skip_votes@,
        }
    }
}

/// A request record as plain mathematical values.
#[verifier::ext_equal]
pub ghost struct RequestModel {
    pub id: Seq<u8>,
    pub requester: u64,
    pub track_id: u32,
    pub table_id: u32,
    pub timestamp: u64,
    pub amount_paid: i128,
    pub fulfilled: bool,
}

impl TrackRequest {
    /// The record with its identifier viewed as a byte sequence.
    pub open spec fn model(self) -> RequestModel {
        RequestModel {
            id: self.request_id@,
            requester: self.requester,
            track_id: self.track_id,
            table_id: self.table_id,
            timestamp: self.timestamp,
            amount_paid: self.amount_paid,
            fulfilled: self.fulfilled,
        }
    }
}

/// The "now playing" slot, pending queue and distinct skip votes of a table.
#[verifier::ext_equal]
pub ghost struct PlayState {
    pub current: Option<Seq<u8>>,
    pub queue: Seq<Seq<u8>>,
    pub votes: Seq<u64>,
}

/// Advance: pop the queue head into the playing slot (or empty it) and clear
/// every skip vote.
pub open spec fn advance_play(p: PlayState) -> PlayState {
    if p.queue.len() == 0 {
        PlayState { current: None, queue: p.queue, votes: Seq::empty() }
    } else {
        PlayState { current: Some(p.queue[0]), queue: p.queue.drop_first(), votes: Seq::empty() }
    }
}

/// Record one distinct vote; casting again changes nothing.
pub open spec fn cast_vote(votes: Seq<u64>, voter: u64) -> Seq<u64> {
    if votes.contains(voter) {
        votes
    } else {
        votes.push(voter)
    }
}

/// Whether `voter`'s vote brings the distinct tally to the threshold.
pub open spec fn vote_triggers(p: PlayState, voter: u64, threshold: u32) -> bool {
    cast_vote(p.votes, voter).len() >= threshold
}

/// Vote to skip: record the vote, then advance when the tally meets the threshold.
pub open spec fn vote_play(p: PlayState, voter: u64, threshold: u32) -> PlayState {
    let voted = PlayState { votes: cast_vote(p.votes, voter), ..p };
    if vote_triggers(p, voter, threshold) {
        advance_play(voted)
    } else {
        voted
    }
}

/// Append a request to the tail of the queue.
pub open spec fn enqueue_play(p: PlayState, r: Seq<u8>) -> PlayState {
    PlayState { queue: p.queue.push(r), ..p }
}

/// Deactivation forces the playing slot empty and discards queue and votes.
pub open spec fn close_play(p: PlayState) -> PlayState {
    PlayState { current: None, queue: Seq::empty(), votes: Seq::empty() }
}

/// The version counter after one more mutation.
pub open spec fn bumped(v: u64) -> u64 {
    if v == u64::MAX {
        0
    } else {
        (v + 1) as u64
    }
}

} // verus!
