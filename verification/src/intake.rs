use vstd::arithmetic::div_mod::{
    lemma_div_is_ordered, lemma_div_multiples_vanish, lemma_div_pos_is_pos,
    lemma_fundamental_div_mod, lemma_mod_pos_bound,
};
use vstd::arithmetic::mul::{lemma_mul_inequality, lemma_mul_nonnegative};
use vstd::prelude::*;

use crate::lookup::{clone_bytes, lemma_find_by_push, lemma_find_by_update};
use crate::records::{
    bumped, enqueue_play, req_model, request_key, table_key, ContractEvent, RequestModel,
    TrackRequest,
};
use crate::state::{find_member_index, MetaJuke};
use crate::tables::bump_version;
use crate::Error;

verus! {

/// The 32-byte digest the hashing service computes for `data`; a function of
/// the bytes alone.
pub uninterp spec fn sha256_of(data: Seq<u8>) -> Seq<u8>;

/// Relies on sha2::Sha256 (via the Digest trait): SHA-256, a deterministic
/// one-way digest of the input bytes alone, always 32 bytes long.
#[verifier::external_body]
fn sha256(data: &Vec<u8>) -> (r: Vec<u8>)
    ensures
        r@ == sha256_of(data@),
        r@.len() == 32,
{
    let mut hasher = <sha2::Sha256 as sha2::Digest>::new();
    <sha2::Sha256 as sha2::Digest>::update(&mut hasher, data.as_slice());
    <sha2::Sha256 as sha2::Digest>::finalize(hasher).to_vec()
}

/// A `u32` in big-endian byte order.
pub open spec fn u32_be_bytes(x: u32) -> Seq<u8> {
    seq![
        (x >> 24) as u8,
        ((x >> 16) & 0xff) as u8,
        ((x >> 8) & 0xff) as u8,
        (x & 0xff) as u8,
    ]
}

/// The bytes hashed to name a request: table id, track id, then the nonce
/// drawn from the randomness service.
pub open spec fn request_payload(table_id: u32, track_id: u32, nonce: Seq<u8>) -> Seq<u8> {
    u32_be_bytes(table_id) + u32_be_bytes(track_id) + nonce
}

fn push_u32_be(out: &mut Vec<u8>, x: u32)
    ensures
        final(out)@ == old(out)@ + u32_be_bytes(x),
{
    out.push((x >> 24) as u8);
    out.push(((x >> 16) & 0xff) as u8);
    out.push(((x >> 8) & 0xff) as u8);
    out.push((x & 0xff) as u8);
    proof {
        assert(out@ =~= old(out)@ + u32_be_bytes(x));
    }
}

/// The request identifier: the digest of table id, track id and nonce.
fn make_request_id(table_id: u32, track_id: u32, nonce: &Vec<u8>) -> (r: Vec<u8>)
    ensures
        r@ == sha256_of(request_payload(table_id, track_id, nonce@)),
        r@.len() == 32,
{
    let mut data: Vec<u8> = Vec::new();
    push_u32_be(&mut data, table_id);
    push_u32_be(&mut data, track_id);
    let mut i: usize = 0;
    while i < nonce.len()
        invariant
            i <= nonce@.len(),
            data@ == u32_be_bytes(table_id) + u32_be_bytes(track_id) + nonce@.take(i as int),
        decreases nonce@.len() - i,
    {
        data.push(nonce[i]);
        proof {
            assert(data@ =~= u32_be_bytes(table_id) + u32_be_bytes(track_id) + nonce@.take(
                i as int + 1,
            ));
        }
        i += 1;
    }
    proof {
        assert(nonce@.take(nonce@.len() as int) =~= nonce@);
    }
    sha256(&data)
}

/// The charge for one play: base price times the table's fixed-point
/// multiplier, in hundredths.
pub open spec fn charge_of(base_price: int, multiplier: int) -> int {
    base_price * multiplier / 100
}

/// Whether a play request is admissible: the table and track exist, the
/// table is active, the requester is a member, and the charge fits the
/// payment rail's 128-bit amounts.
pub open spec fn request_admissible(
    s: MetaJuke,
    requester: u64,
    track_id: u32,
    table_id: u32,
) -> bool {
    &&& s.tbl(table_id) is Some
    &&& s.trk(track_id) is Some
    &&& s.tbl(table_id)->0.is_active
    &&& s.tbl(table_id)->0.is_member(requester)
    &&& s.trk(track_id)->0.base_price * s.tbl(table_id)->0.price_multiplier <= i128::MAX
}

/// For `m > 0`, `a <= max / m` and `a * m <= max` say the same thing.
proof fn lemma_mul_le_iff_div(a: int, m: int, max: int)
    requires
        a >= 0,
        m > 0,
        max >= 0,
    ensures
        (a <= max / m) <==> (a * m <= max),
{
    if a <= max / m {
        lemma_mul_inequality(a, max / m, m);
        lemma_fundamental_div_mod(max, m);
        lemma_mod_pos_bound(max, m);
        assert((max / m) * m == m * (max / m)) by (nonlinear_arith);
    }
    if a * m <= max {
        lemma_div_is_ordered(a * m, max, m);
        lemma_div_multiples_vanish(a, m);
        assert(a * m == m * a) by (nonlinear_arith);
    }
}

impl MetaJuke {
    /// The charge a play of `track_id` at `table_id` would cost `requester`
    /// right now; validates the request without touching any state. The
    /// caller debits this amount through the payment rail before calling
    /// `request_track`.
    pub fn quote_request(&self, requester: u64, track_id: u32, table_id: u32) -> (r: Result<
        i128,
        Error,
    >)
        requires
            self.wf(),
        ensures
            r is Ok <==> request_admissible(*self, requester, track_id, table_id),
            r == Err::<i128, Error>(Error::NotFound) <==> (self.tbl(table_id) is None || (self.tbl(
                table_id,
            ) is Some && self.trk(track_id) is None)),
            r == Err::<i128, Error>(Error::InvalidState) <==> (self.tbl(table_id) is Some
                && self.trk(track_id) is Some && !self.tbl(table_id)->0.is_active),
            r == Err::<i128, Error>(Error::Unauthorized) <==> (self.tbl(table_id) is Some
                && self.trk(track_id) is Some && self.tbl(table_id)->0.is_active && !self.tbl(
                table_id,
            )->0.is_member(requester)),
            r == Err::<i128, Error>(Error::ValidationError) <==> (self.tbl(table_id) is Some
                && self.trk(track_id) is Some && self.tbl(table_id)->0.is_active && self.tbl(
                table_id,
            )->0.is_member(requester) && self.trk(track_id)->0.base_price * self.tbl(
                table_id,
            )->0.price_multiplier > i128::MAX),
            r is Ok ==> r->Ok_0 == charge_of(
                self.trk(track_id)->0.base_price as int,
                self.tbl(table_id)->0.price_multiplier as int,
            ) && r->Ok_0 >= 0,
    {
        let ti = match self.find_table_index(table_id) {
            Some(i) => i,
            None => {
                return Err(Error::NotFound);
            },
        };
        let ki = match self.find_track_index(track_id) {
            Some(i) => i,
            None => {
                return Err(Error::NotFound);
            },
        };
        if !self.tables[ti].is_active {
            return Err(Error::InvalidState);
        }
        if find_member_index(&self.tables[ti].members, requester).is_none() {
            return Err(Error::Unauthorized);
        }
        let bp = self.tracks[ki].base_price;
        let mult = self.tables[ti].price_multiplier;
        proof {
            assert(self.tracks@[ki as int].wf());
        }
        if mult == 0 {
            proof {
                assert(bp * 0 == 0) by (nonlinear_arith);
                assert(charge_of(bp as int, 0) == 0int / 100);
            }
            return Ok(0);
        }
        let bp_u: u128 = bp as u128;
        let mult_u: u128 = mult as u128;
        let cap: u128 = i128::MAX as u128;
        proof {
            lemma_mul_le_iff_div(bp as int, mult as int, i128::MAX as int);
        }
        if bp_u > cap / mult_u {
            return Err(Error::ValidationError);
        }
        let prod: u128 = bp_u * mult_u;
        let charge_u: u128 = prod / 100;
        proof {
            lemma_mul_nonnegative(bp as int, mult as int);
            lemma_div_pos_is_pos(bp as int * mult as int, 100);
            lemma_div_is_ordered(bp as int * mult as int, i128::MAX as int, 100);
            lemma_div_is_ordered_le_self(i128::MAX as int);
        }
        Ok(charge_u as i128)
    }

    /// Records a paid play request and enqueues it. The caller has already
    /// debited `amount_paid` (the quoted charge) through the payment rail and
    /// reports the rail's verdict in `paid`; `nonce` is a fresh draw from the
    /// randomness service and `now` the ledger clock. Returns the 32-byte
    /// request identifier, the digest of table id, track id and nonce.
    pub fn request_track(
        &mut self,
        requester: u64,
        track_id: u32,
        table_id: u32,
        amount_paid: i128,
        paid: bool,
        nonce: &Vec<u8>,
        now: u64,
    ) -> (r: Result<Vec<u8>, Error>)
        requires
            old(self).wf(),
        ensures
            final(self).wf(),
            r is Ok <==> (request_admissible(*old(self), requester, track_id, table_id) && paid
                && amount_paid == charge_of(
                old(self).trk(track_id)->0.base_price as int,
                old(self).tbl(table_id)->0.price_multiplier as int,
            ) && old(self).req(
                sha256_of(request_payload(table_id, track_id, nonce@)),
            ) is None && old(self).request_counter < u32::MAX),
            r == Err::<Vec<u8>, Error>(Error::PaymentFailed) <==> (request_admissible(
                *old(self),
                requester,
                track_id,
                table_id,
            ) && !paid),
            r == Err::<Vec<u8>, Error>(Error::NotFound) <==> (old(self).tbl(table_id) is None || (
            old(self).tbl(table_id) is Some && old(self).trk(track_id) is None)),
            r == Err::<Vec<u8>, Error>(Error::Unauthorized) <==> (old(self).tbl(
                table_id,
            ) is Some && old(self).trk(track_id) is Some && old(self).tbl(table_id)->0.is_active
                && !old(self).tbl(table_id)->0.is_member(requester)),
            r == Err::<Vec<u8>, Error>(Error::ValidationError) <==> (old(self).tbl(
                table_id,
            ) is Some && old(self).trk(track_id) is Some && old(self).tbl(table_id)->0.is_active
                && old(self).tbl(table_id)->0.is_member(requester) && old(self).trk(
                track_id,
            )->0.base_price * old(self).tbl(table_id)->0.price_multiplier > i128::MAX),
            r == Err::<Vec<u8>, Error>(Error::Conflict) <==> (request_admissible(
                *old(self),
                requester,
                track_id,
                table_id,
            ) && paid && (amount_paid != charge_of(
                old(self).trk(track_id)->0.base_price as int,
                old(self).tbl(table_id)->0.price_multiplier as int,
            ) || old(self).req(sha256_of(request_payload(table_id, track_id, nonce@))) is Some)),
            r == Err::<Vec<u8>, Error>(Error::InvalidState) <==> (old(self).tbl(
                table_id,
            ) is Some && old(self).trk(track_id) is Some && !old(self).tbl(table_id)->0.is_active)
                || (request_admissible(*old(self), requester, track_id, table_id) && paid
                && amount_paid == charge_of(
                old(self).trk(track_id)->0.base_price as int,
                old(self).tbl(table_id)->0.price_multiplier as int,
            ) && old(self).req(
                sha256_of(request_payload(table_id, track_id, nonce@)),
            ) is None && old(self).request_counter == u32::MAX),
            r is Err ==> *final(self) == *old(self),
            r is Ok ==> {
                let rid = sha256_of(request_payload(table_id, track_id, nonce@));
                let t1 = old(self).tbl(table_id)->0;
                let t2 = final(self).tbl(table_id)->0;
                &&& r->Ok_0@ == rid
                &&& r->Ok_0@.len() == 32
                &&& final(self).req(rid) is Some
                &&& final(self).req(rid)->0.model() == (RequestModel {
                    id: rid,
                    requester,
                    track_id,
                    table_id,
                    timestamp: now,
                    amount_paid,
                    fulfilled: false,
                })
                &&& forall|id2: Seq<u8>| id2 != rid ==> #[trigger] final(self).req(id2) == old(self).req(
                    id2,
                )
                &&& final(self).requests@ == old(self).requests@.push(final(self).req(rid)->0)
                &&& final(self).requests@.len() == old(self).requests@.len() + 1
                &&& final(self).tbl(table_id) is Some
                &&& t2.play() == enqueue_play(t1.play(), rid)
                &&& t2.version == bumped(t1.version)
                &&& t2.members@ == t1.members@ && t2.member_count == t1.member_count
                &&& t2.table_id == t1.table_id && t2.name == t1.name && t2.owner == t1.owner
                    && t2.skip_threshold == t1.skip_threshold && t2.price_multiplier
                    == t1.price_multiplier && t2.is_active == t1.is_active
                &&& forall|j: u32| j != table_id ==> #[trigger] final(self).tbl(j) == old(self).tbl(j)
                &&& final(self).request_counter == old(self).request_counter + 1
                &&& final(self).user_counter == old(self).user_counter && final(self).track_counter == old(
                    self,
                ).track_counter && final(self).table_counter == old(self).table_counter
                &&& final(self).users@ == old(self).users@ && final(self).artists@ == old(self).artists@
                    && final(self).tracks@ == old(self).tracks@ && final(self).user_to_nft@ == old(
                    self,
                ).user_to_nft@ && final(self).nft_to_user@ == old(self).nft_to_user@
                &&& final(self).cfg_eq(*old(self))
                &&& final(self).events@.len() == old(self).events@.len() + 1
                &&& final(self).events@.take(old(self).events@.len() as int) == old(self).events@
                &&& (final(self).events@.last() matches ContractEvent::TrackRequested(v) && v@
                    == rid)
            },
    {
        let charge = match self.quote_request(requester, track_id, table_id) {
            Ok(c) => c,
            Err(e) => {
                return Err(e);
            },
        };
        if !paid {
            return Err(Error::PaymentFailed);
        }
        if amount_paid != charge {
            return Err(Error::Conflict);
        }
        let id = make_request_id(table_id, track_id, nonce);
        if self.find_request_index(&id).is_some() {
            return Err(Error::Conflict);
        }
        if self.request_counter == u32::MAX {
            return Err(Error::InvalidState);
        }
        let ghost pre = *self;
        let i = match self.find_table_index(table_id) {
            Some(i) => i,
            None => {
                return Err(Error::NotFound);
            },
        };
        let ret = clone_bytes(&id);
        let qid = clone_bytes(&id);
        let eid = clone_bytes(&id);
        let rec = TrackRequest {
            request_id: id,
            requester,
            track_id,
            table_id,
            timestamp: now,
            amount_paid,
            fulfilled: false,
        };
        proof {
            lemma_find_by_push(self.requests@, request_key(), rec);
        }
        self.requests.push(rec);
        self.request_counter = self.request_counter + 1;
        let mut t = self.tables.remove(i);
        let ghost t1 = t;
        t.queue.push(qid);
        t.version = bump_version(t.version);
        proof {
            assert(t.wf());
            assert(t.play() =~~= enqueue_play(t1.play(), ret@)) by {
                assert(t.queue@ == t1.queue@.push(qid));
                assert(t.play().queue =~= t1.play().queue.push(qid@));
            }
        }
        self.tables.insert(i, t);
        self.events.push(ContractEvent::TrackRequested(eid));
        proof {
            let t2 = self.tables@[i as int];
            assert(pre.tables@.remove(i as int).insert(i as int, t2) =~= pre.tables@.update(
                i as int,
                t2,
            ));
            lemma_find_by_update(pre.tables@, table_key(), i as int, t2);
            assert forall|k: int|
                0 <= k < self.tables@.len() implies (#[trigger] self.tables@[k]).wf() && 1
                <= self.tables@[k].table_id <= self.table_counter by {
                if k != i as int {
                    assert(self.tables@[k] == pre.tables@[k]);
                }
            }
            assert(self.events@.take(old(self).events@.len() as int) =~= old(self).events@);
        }
        Ok(ret)
    }

    /// The stored requests that reference table `table_id`, in arrival order.
    pub fn get_table_requests(&self, table_id: u32) -> (r: Result<Vec<TrackRequest>, Error>)
        ensures
            r is Ok <==> self.tbl(table_id) is Some,
            r is Err ==> r == Err::<Vec<TrackRequest>, Error>(Error::NotFound),
            r is Ok ==> r->Ok_0@.map_values(req_model()) == table_request_models(
                self.requests@,
                table_id,
            ),
    {
        if self.find_table_index(table_id).is_none() {
            return Err(Error::NotFound);
        }
        let ghost s = self.requests@;
        let mut out: Vec<TrackRequest> = Vec::new();
        let mut k: usize = 0;
        while k < self.requests.len()
            invariant
                k <= s.len(),
                s == self.requests@,
                out@.map_values(req_model()) == table_request_models(s.take(k as int), table_id),
            decreases s.len() - k,
        {
            proof {
                assert(s.take(k as int + 1).drop_last() =~= s.take(k as int));
                assert(s.take(k as int + 1).last() == s[k as int]);
            }
            if self.requests[k].table_id == table_id {
                let c = clone_request(&self.requests[k]);
                out.push(c);
                proof {
                    assert(out@.map_values(req_model()) =~= table_request_models(
                        s.take(k as int + 1),
                        table_id,
                    ));
                }
            } else {
                proof {
                    assert(out@.map_values(req_model()) =~= table_request_models(
                        s.take(k as int + 1),
                        table_id,
                    ));
                }
            }
            k += 1;
        }
        proof {
            assert(s.take(s.len() as int) =~= s);
        }
        Ok(out)
    }
}

/// The requests of one table, in store order, as plain values.
pub open spec fn table_request_models(s: Seq<TrackRequest>, table_id: u32) -> Seq<RequestModel>
    decreases s.len(),
{
    if s.len() == 0 {
        Seq::empty()
    } else {
        table_request_models(s.drop_last(), table_id) + if s.last().table_id == table_id {
            seq![s.last().model()]
        } else {
            Seq::empty()
        }
    }
}

/// A fresh copy of a request record.
pub(crate) fn clone_request(q: &TrackRequest) -> (r: TrackRequest)
    ensures
        r.model() == q.model(),
{
    let r = TrackRequest {
        request_id: clone_bytes(&q.request_id),
        requester: q.requester,
        track_id: q.track_id,
        table_id: q.table_id,
        timestamp: q.timestamp,
        amount_paid: q.amount_paid,
        fulfilled: q.fulfilled,
    };
    proof {
        assert(r.model() =~~= q.model());
    }
    r
}

/// Division by 100 never grows a value that already fits the bound.
proof fn lemma_div_is_ordered_le_self(x: int)
    requires
        x >= 0,
    ensures
        x / 100 <= x,
{
    lemma_div_pos_is_pos(x, 100);
    lemma_fundamental_div_mod(x, 100);
    lemma_mod_pos_bound(x, 100);
    assert(x == 100 * (x / 100) + x % 100);
    assert(100 * (x / 100) >= x / 100) by (nonlinear_arith)
        requires
            x / 100 >= 0,
    ;
}

} // verus!
