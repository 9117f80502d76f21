use vstd::arithmetic::div_mod::{
    lemma_div_is_ordered, lemma_div_multiples_vanish, lemma_div_pos_is_pos,
};
use vstd::arithmetic::mul::{lemma_mul_inequality, lemma_mul_nonnegative};
use vstd::prelude::*;

use crate::lookup::{find_by, keys_distinct, lemma_find_by_push, lemma_remove_by, remove_by};
use crate::records::{
    advance_play, cast_vote, member_key, sum_split, vote_play, vote_triggers, PlayState,
    TableMembership,
};
use crate::royalty::{fee_of, lemma_split_pct_bounded, lemma_sum_shares_le, sum_shares};

verus! {

/// FIFO order: with tracks `a`, `b`, `c` queued, three advances play them in
/// exactly that order, and a fourth leaves the slot empty.
pub proof fn lemma_queue_fifo_order(p: PlayState, a: Seq<u8>, b: Seq<u8>, c: Seq<u8>)
    requires
        p.queue == seq![a, b, c],
    ensures
        advance_play(p).current == Some(a),
        advance_play(advance_play(p)).current == Some(b),
        advance_play(advance_play(advance_play(p))).current == Some(c),
        advance_play(advance_play(advance_play(p))).queue.len() == 0,
        advance_play(advance_play(advance_play(advance_play(p)))).current is None,
{
    let q: Seq<Seq<u8>> = seq![a, b, c];
    assert(q[0] == a);
    assert(q.drop_first() =~= seq![b, c]);
    assert(seq![b, c].drop_first() =~= seq![c]);
    assert(seq![c].drop_first() =~= Seq::<Seq<u8>>::empty());
}

/// Vote reset: no skip vote survives an advance, whatever the state was.
pub proof fn lemma_advance_clears_votes(p: PlayState)
    ensures
        advance_play(p).votes == Seq::<u64>::empty(),
{
}

/// Threshold exactness at threshold 2: one distinct voter never triggers an
/// advance, the same voter casting again still does not, and a second
/// distinct voter does.
pub proof fn lemma_threshold_two_exact(p: PlayState, va: u64, vb: u64)
    requires
        p.votes.len() == 0,
        va != vb,
    ensures
        !vote_triggers(p, va, 2),
        !vote_triggers(vote_play(p, va, 2), va, 2),
        vote_triggers(vote_play(p, va, 2), vb, 2),
{
    assert(p.votes =~= Seq::<u64>::empty());
    assert(!p.votes.contains(va)) by {
        if p.votes.contains(va) {
            let i = choose|i: int| 0 <= i < p.votes.len() && p.votes[i] == va;
        }
    }
    let q1 = vote_play(p, va, 2);
    assert(cast_vote(p.votes, va) =~= seq![va]);
    assert(q1.votes == seq![va]);
    assert(seq![va].contains(va)) by {
        assert(seq![va][0] == va);
    }
    assert(cast_vote(q1.votes, va) == seq![va]);
    assert(!seq![va].contains(vb)) by {
        if seq![va].contains(vb) {
            let i = choose|i: int| 0 <= i < seq![va].len() && seq![va][i] == vb;
            assert(seq![va][i] == va);
        }
    }
    assert(cast_vote(q1.votes, vb) =~= seq![va, vb]);
}

/// Membership round trip: a fresh principal joins, a second join is refused
/// as a duplicate, leaving removes the record, and rejoining succeeds with
/// the new join time.
pub proof fn lemma_membership_roundtrip(
    members: Seq<TableMembership>,
    p: u64,
    now1: u64,
    now2: u64,
)
    requires
        keys_distinct(members, member_key()),
        find_by(members, member_key(), p) is None,
    ensures
        ({
            let joined = members.push(TableMembership { member: p, joined_at: now1, is_admin: false });
            let left = remove_by(joined, member_key(), p);
            let rejoined = left.push(
                TableMembership { member: p, joined_at: now2, is_admin: false },
            );
            &&& find_by(joined, member_key(), p) == Some(
                TableMembership { member: p, joined_at: now1, is_admin: false },
            )
            &&& find_by(left, member_key(), p) is None
            &&& find_by(rejoined, member_key(), p) == Some(
                TableMembership { member: p, joined_at: now2, is_admin: false },
            )
            &&& forall|q: u64|
                q != p ==> #[trigger] find_by(rejoined, member_key(), q) == find_by(
                    members,
                    member_key(),
                    q,
                )
        }),
{
    let rec1 = TableMembership { member: p, joined_at: now1, is_admin: false };
    let rec2 = TableMembership { member: p, joined_at: now2, is_admin: false };
    lemma_find_by_push(members, member_key(), rec1);
    let joined = members.push(rec1);
    lemma_remove_by(joined, member_key(), p);
    let left = remove_by(joined, member_key(), p);
    lemma_find_by_push(left, member_key(), rec2);
}

/// Concurrent vote race at threshold 2: of two distinct voters whose reads
/// raced, the first recorded vote does not advance, the retried second one
/// does, and the final state is exactly one advance of the fully voted
/// state. A racer that lost the version check is a no-op: see
/// `vote_to_skip_checked`, whose `Conflict` branch leaves the state
/// unchanged.
pub proof fn lemma_concurrent_vote_single_advance(p: PlayState, va: u64, vb: u64)
    requires
        p.votes.len() == 0,
        va != vb,
    ensures
        !vote_triggers(p, va, 2),
        vote_triggers(vote_play(p, va, 2), vb, 2),
        vote_play(vote_play(p, va, 2), vb, 2) == advance_play(
            PlayState { votes: seq![va, vb], ..p },
        ),
{
    lemma_threshold_two_exact(p, va, vb);
    let q1 = vote_play(p, va, 2);
    assert(!p.votes.contains(va)) by {
        if p.votes.contains(va) {
            let i = choose|i: int| 0 <= i < p.votes.len() && p.votes[i] == va;
        }
    }
    assert(q1.votes == seq![va]);
    assert(!seq![va].contains(vb)) by {
        if seq![va].contains(vb) {
            let i = choose|i: int| 0 <= i < seq![va].len() && seq![va][i] == vb;
            assert(seq![va][i] == va);
        }
    }
    assert(cast_vote(q1.votes, vb) =~= seq![va, vb]);
    assert(q1.queue == p.queue);
    assert(vote_play(q1, vb, 2) =~~= advance_play(PlayState { votes: seq![va, vb], ..p }));
}

/// Royalty conservation: the platform fee and every share are non-negative,
/// and together they never exceed the payment; what integer rounding leaves
/// over stays unallocated.
pub proof fn lemma_royalty_conservation(amount: int, bps: int, split: Seq<(u64, u32)>)
    requires
        0 <= amount,
        0 <= bps <= 10000,
        sum_split(split) == 100,
    ensures
        0 <= fee_of(amount, bps) <= amount,
        0 <= sum_shares(split, amount - fee_of(amount, bps)),
        fee_of(amount, bps) + sum_shares(split, amount - fee_of(amount, bps)) <= amount,
{
    lemma_mul_nonnegative(amount, bps);
    lemma_div_pos_is_pos(amount * bps, 10000);
    assert(amount * bps <= amount * 10000) by {
        lemma_mul_inequality(bps, 10000, amount);
        assert(bps * amount == amount * bps) by (nonlinear_arith);
        assert(10000 * amount == amount * 10000) by (nonlinear_arith);
    }
    lemma_div_is_ordered(amount * bps, amount * 10000, 10000);
    lemma_div_multiples_vanish(amount, 10000);
    assert(amount * 10000 == 10000 * amount) by (nonlinear_arith);
    let pool = amount - fee_of(amount, bps);
    assert forall|i: int| 0 <= i < split.len() implies (#[trigger] split[i]).1 <= 100 by {
        lemma_split_pct_bounded(split, i);
    }
    lemma_sum_shares_le(split, pool);
}

} // verus!
