use vstd::arithmetic::div_mod::{
    lemma_div_is_ordered, lemma_div_multiples_vanish, lemma_div_pos_is_pos,
    lemma_fundamental_div_mod, lemma_hoist_over_denominator, lemma_mod_pos_bound,
};
use vstd::arithmetic::mul::{lemma_mul_inequality, lemma_mul_nonnegative};
use vstd::prelude::*;

use crate::lookup::{find_by, lemma_find_by_some, lemma_find_by_update};
use crate::records::{artist_key, sum_split, Artist};
use crate::state::MetaJuke;
use crate::Error;

verus! {

/// The platform's cut of a payment, in integer basis points, rounded down.
pub open spec fn fee_of(amount: int, bps: int) -> int {
    amount * bps / 10000
}

/// One collaborator's cut of the royalty pool, rounded down.
pub open spec fn share_of(pool: int, pct: int) -> int {
    pool * pct / 100
}

/// The sum of every share a split pays out of `pool`.
pub open spec fn sum_shares(split: Seq<(u64, u32)>, pool: int) -> int
    decreases split.len(),
{
    if split.len() == 0 {
        0
    } else {
        sum_shares(split.drop_last(), pool) + share_of(pool, split.last().1 as int)
    }
}

/// The total a single principal receives from a split, duplicates included.
pub open spec fn total_share_of(p: u64, split: Seq<(u64, u32)>, pool: int) -> int
    decreases split.len(),
{
    if split.len() == 0 {
        0
    } else {
        total_share_of(p, split.drop_last(), pool) + if split.last().0 == p {
            share_of(pool, split.last().1 as int)
        } else {
            0
        }
    }
}

/// A share is non-negative and never exceeds the pool.
pub proof fn lemma_share_bounds(pool: int, pct: int)
    requires
        pool >= 0,
        0 <= pct <= 100,
    ensures
        0 <= share_of(pool, pct) <= pool,
{
    lemma_mul_nonnegative(pool, pct);
    lemma_div_pos_is_pos(pool * pct, 100);
    lemma_mul_inequality(pct, 100, pool);
    assert(pool * pct == pct * pool) by (nonlinear_arith);
    assert(pool * 100 == 100 * pool) by (nonlinear_arith);
    lemma_div_is_ordered(pool * pct, pool * 100, 100);
    lemma_div_multiples_vanish(pool, 100);
}

/// Rounding down loses ground: dividing two summands separately never beats
/// dividing their sum.
pub proof fn lemma_floor_add(a: int, b: int, d: int)
    requires
        a >= 0,
        b >= 0,
        d > 0,
    ensures
        a / d + b / d <= (a + b) / d,
{
    lemma_fundamental_div_mod(a, d);
    lemma_mod_pos_bound(a, d);
    lemma_hoist_over_denominator(a % d + b, a / d, d as nat);
    assert((a % d + b) + (a / d) * d == a + b);
    lemma_div_is_ordered(b, a % d + b, d);
    lemma_div_pos_is_pos(b, d);
}

/// The shares of a split sum to at most `pool * sum_split / 100`; with a
/// split totalling at most 100 percent they never exceed the pool.
pub proof fn lemma_sum_shares_le(split: Seq<(u64, u32)>, pool: int)
    requires
        pool >= 0,
        forall|i: int| 0 <= i < split.len() ==> (#[trigger] split[i]).1 <= 100,
    ensures
        0 <= sum_shares(split, pool),
        sum_shares(split, pool) <= share_of(pool, sum_split(split)) || sum_split(split) > 100,
        sum_split(split) <= 100 ==> sum_shares(split, pool) <= pool,
    decreases split.len(),
{
    if split.len() == 0 {
        lemma_div_pos_is_pos(0, 100);
        assert(share_of(pool, 0) == pool * 0 / 100);
        assert(pool * 0 == 0) by (nonlinear_arith);
        lemma_div_pos_is_pos(pool * 0, 100);
    } else {
        let s2 = split.drop_last();
        let q = split.last().1 as int;
        assert(forall|i: int| 0 <= i < s2.len() ==> (#[trigger] s2[i]).1 <= 100) by {
            assert(forall|i: int| 0 <= i < s2.len() ==> s2[i] == split[i]);
        }
        lemma_sum_shares_le(s2, pool);
        lemma_mul_nonnegative(pool, q);
        lemma_div_pos_is_pos(pool * q, 100);
        if sum_split(split) <= 100 {
            // prefix also totals at most 100, since the last term is non-negative
            assert(sum_split(s2) <= 100);
            assert(sum_shares(s2, pool) <= share_of(pool, sum_split(s2)));
            lemma_floor_add(pool * sum_split(s2), pool * q, 100);
            assert(pool * sum_split(s2) + pool * q == pool * (sum_split(s2) + q))
                by (nonlinear_arith);
            assert(sum_split(split) >= 0) by {
                lemma_sum_split_nonneg(split);
            }
            assert(sum_shares(split, pool) <= share_of(pool, sum_split(split)));
            lemma_share_bounds(pool, sum_split(split));
        }
    }
}

/// Split percentages are non-negative, so the sum is too.
pub proof fn lemma_sum_split_nonneg(split: Seq<(u64, u32)>)
    ensures
        sum_split(split) >= 0,
    decreases split.len(),
{
    if split.len() > 0 {
        lemma_sum_split_nonneg(split.drop_last());
    }
}

/// What one principal collects never exceeds what the whole split pays out.
pub proof fn lemma_total_share_le(p: u64, split: Seq<(u64, u32)>, pool: int)
    requires
        pool >= 0,
        forall|i: int| 0 <= i < split.len() ==> (#[trigger] split[i]).1 <= 100,
    ensures
        0 <= total_share_of(p, split, pool) <= sum_shares(split, pool),
    decreases split.len(),
{
    if split.len() > 0 {
        let s2 = split.drop_last();
        assert(forall|i: int| 0 <= i < s2.len() ==> (#[trigger] s2[i]).1 <= 100) by {
            assert(forall|i: int| 0 <= i < s2.len() ==> s2[i] == split[i]);
        }
        lemma_total_share_le(p, s2, pool);
        lemma_mul_nonnegative(pool, split.last().1 as int);
        lemma_div_pos_is_pos(pool * (split.last().1 as int), 100);
    }
}

/// Every percentage in a split totalling 100 is itself at most 100.
pub proof fn lemma_split_pct_bounded(split: Seq<(u64, u32)>, k: int)
    requires
        sum_split(split) == 100,
        0 <= k < split.len(),
    ensures
        split[k].1 <= 100,
{
    lemma_pct_le_sum(split, k);
}

proof fn lemma_pct_le_sum(split: Seq<(u64, u32)>, k: int)
    requires
        0 <= k < split.len(),
    ensures
        split[k].1 <= sum_split(split),
    decreases split.len(),
{
    lemma_sum_split_nonneg(split.drop_last());
    if k == split.len() - 1 {
    } else {
        lemma_pct_le_sum(split.drop_last(), k);
        assert(split.drop_last()[k] == split[k]);
    }
}

impl MetaJuke {
    /// Splits `payment_amount` for a play of track `track_id`: the platform
    /// fee goes to the admin, each collaborator's share is computed from the
    /// mint-time split, registered artists are credited, and the full
    /// transfer list — fee first, then each share in split order — is
    /// returned for the payment rail to execute. Rounding residue stays
    /// unallocated.
    pub fn distribute_royalties(&mut self, track_id: u32, payment_amount: i128) -> (r: Result<
        Vec<(u64, i128)>,
        Error,
    >)
        requires
            old(self).wf(),
            0 <= payment_amount,
            payment_amount <= i128::MAX / 10000,
            forall|i: int|
                0 <= i < old(self).artists@.len() ==> (#[trigger] old(
                    self,
                ).artists@[i]).revenue_balance + payment_amount <= i128::MAX,
        ensures
            final(self).wf(),
            r is Ok <==> old(self).trk(track_id) is Some,
            r is Err ==> r == Err::<Vec<(u64, i128)>, Error>(Error::NotFound) && *final(self) == *old(
                self,
            ),
            r is Ok ==> {
                let split = old(self).trk(track_id)->0.royalty_split@;
                let fee = fee_of(payment_amount as int, old(self).platform_fee as int);
                let pool = payment_amount - fee;
                let out = r->Ok_0@;
                &&& out.len() == split.len() + 1
                &&& out[0].0 == old(self).admin
                &&& out[0].1 == fee
                &&& forall|k: int|
                    0 <= k < split.len() ==> (#[trigger] out[k + 1]).0 == split[k].0 && out[k
                        + 1].1 == share_of(pool as int, split[k].1 as int)
                &&& forall|p: u64| #[trigger] final(self).art(p) is Some <==> old(self).art(p) is Some
                &&& forall|p: u64|
                    old(self).art(p) is Some ==> #[trigger] final(self).art(p) == Some(
                        Artist {
                            revenue_balance: (old(self).art(p)->0.revenue_balance + total_share_of(
                                p,
                                split,
                                pool as int,
                            )) as i128,
                            ..old(self).art(p)->0
                        },
                    )
                &&& final(self).artists@.len() == old(self).artists@.len()
                &&& final(self).users@ == old(self).users@ && final(self).tracks@ == old(self).tracks@
                    && final(self).tables@ == old(self).tables@ && final(self).requests@ == old(self).requests@
                    && final(self).user_to_nft@ == old(self).user_to_nft@ && final(self).nft_to_user@ == old(
                    self,
                ).nft_to_user@
                &&& final(self).events@ == old(self).events@
                &&& final(self).cfg_eq(*old(self))
                &&& final(self).counters_eq(*old(self))
            },
    {
        let ti = match self.find_track_index(track_id) {
            Some(ti) => ti,
            None => {
                return Err(Error::NotFound);
            },
        };
        let ghost pre = *self;
        let ghost sp = self.tracks@[ti as int].royalty_split@;
        let bps = self.platform_fee;
        let pa_u: u128 = payment_amount as u128;
        proof {
            lemma_fee_fits(payment_amount as int, bps as int);
        }
        let fee_u: u128 = pa_u * (bps as u128) / 10000;
        let fee: i128 = fee_u as i128;
        let pool_u: u128 = pa_u - fee_u;
        let ghost pool = payment_amount - fee;
        proof {
            assert(pool_u == pool);
            assert(pool >= 0);
            lemma_split_sum_is_100(pre, ti as int);
        }
        let mut out: Vec<(u64, i128)> = Vec::new();
        out.push((self.admin, fee));
        let n = self.tracks[ti].royalty_split.len();
        let mut k: usize = 0;
        while k < n
            invariant
                k <= n,
                self.wf(),
                n == sp.len(),
                pre.wf(),
                sp == pre.tracks@[ti as int].royalty_split@,
                ti < pre.tracks@.len(),
                self.tracks@ == pre.tracks@,
                sum_split(sp) == 100,
                0 <= payment_amount <= i128::MAX / 10000,
                forall|i: int|
                    0 <= i < pre.artists@.len() ==> (#[trigger] pre.artists@[i]).revenue_balance
                        + payment_amount <= i128::MAX,
                pool == pool_u,
                0 <= pool <= payment_amount,
                out@.len() == k + 1,
                out@[0].0 == pre.admin,
                out@[0].1 == fee,
                fee == fee_of(payment_amount as int, bps as int),
                forall|j: int|
                    0 <= j < k ==> (#[trigger] out@[j + 1]).0 == sp[j].0 && out@[j + 1].1
                        == share_of(pool as int, sp[j].1 as int),
                forall|p: u64| #[trigger] self.art(p) is Some <==> pre.art(p) is Some,
                forall|p: u64|
                    pre.art(p) is Some ==> #[trigger] self.art(p) == Some(
                        Artist {
                            revenue_balance: (pre.art(p)->0.revenue_balance + total_share_of(
                                p,
                                sp.take(k as int),
                                pool as int,
                            )) as i128,
                            ..pre.art(p)->0
                        },
                    ),
                self.artists@.len() == pre.artists@.len(),
                self.users@ == pre.users@,
                self.tables@ == pre.tables@,
                self.requests@ == pre.requests@,
                self.user_to_nft@ == pre.user_to_nft@,
                self.nft_to_user@ == pre.nft_to_user@,
                self.events@ == pre.events@,
                self.cfg_eq(pre),
                self.counters_eq(pre),
                bps == pre.platform_fee,
            decreases n - k,
        {
            let entry = self.tracks[ti].royalty_split[k];
            let p = entry.0;
            let pct = entry.1;
            proof {
                lemma_split_pct_bounded(sp, k as int);
                lemma_mul_nonnegative(pool as int, pct as int);
                assert(pool * pct <= pool * 100) by {
                    lemma_mul_inequality(pct as int, 100, pool as int);
                    assert(pool * pct == pct * pool) by (nonlinear_arith);
                    assert(pool * 100 == 100 * pool) by (nonlinear_arith);
                }
                assert(pool * 100 <= payment_amount * 10000) by {
                    lemma_mul_inequality(pool as int, payment_amount as int, 100);
                    assert(pool * 100 == 100 * pool) by (nonlinear_arith);
                    assert(payment_amount * 100 <= payment_amount * 10000) by (nonlinear_arith)
                        requires
                            payment_amount >= 0,
                    ;
                    assert(100 * pool == pool * 100) by (nonlinear_arith);
                }
                lemma_pa_10000_fits(payment_amount as int);
            }
            let share_u: u128 = pool_u * (pct as u128) / 100;
            proof {
                lemma_share_bounds(pool as int, pct as int);
            }
            let share: i128 = share_u as i128;
            out.push((p, share));
            let ghost mid = *self;
            proof {
                lemma_total_take_step(sp, k as int, pool as int, *old(self));
                assert(sp.take(k as int + 1).drop_last() =~= sp.take(k as int));
                assert(sp.take(k as int + 1).last() == sp[k as int]);
            }
            match self.find_artist_index(p) {
                Some(ai) => {
                    let mut a = self.artists.remove(ai);
                    proof {
                        // the credited balance stays within i128
                        lemma_credit_fits(pre, mid, p, sp, k as int, pool as int, payment_amount as int);
                    }
                    a.revenue_balance = a.revenue_balance + share;
                    proof {
                        lemma_find_by_update(mid.artists@, artist_key(), ai as int, a);
                        assert(mid.artists@.remove(ai as int).insert(ai as int, a)
                            =~= mid.artists@.update(ai as int, a));
                    }
                    self.artists.insert(ai, a);
                    proof {
                        assert(self.artists@ == mid.artists@.update(ai as int, a));
                        assert forall|i: int|
                            0 <= i < self.artists@.len() implies (#[trigger] self.artists@[i]).revenue_balance
                            >= 0 by {
                            if i != ai as int {
                                assert(self.artists@[i] == mid.artists@[i]);
                            }
                        }
                        assert(a.user_id == p);
                        assert(self.art(p) == Some(a));
                        assert forall|q: u64| #[trigger] self.art(q) is Some <==> pre.art(
                            q,
                        ) is Some by {
                            assert(find_by(self.artists@, artist_key(), q) == find_by(
                                mid.artists@.update(ai as int, a),
                                artist_key(),
                                q,
                            ));
                            if q != p {
                                assert(self.art(q) == mid.art(q));
                            }
                        }
                        assert forall|q: u64|
                            pre.art(q) is Some implies #[trigger] self.art(q) == Some(
                            Artist {
                                revenue_balance: (pre.art(q)->0.revenue_balance + total_share_of(
                                    q,
                                    sp.take(k as int + 1),
                                    pool as int,
                                )) as i128,
                                ..pre.art(q)->0
                            },
                        ) by {
                            assert(find_by(self.artists@, artist_key(), q) == find_by(
                                mid.artists@.update(ai as int, a),
                                artist_key(),
                                q,
                            ));
                            if q != p {
                                assert(total_share_of(q, sp.take(k as int + 1), pool as int)
                                    == total_share_of(q, sp.take(k as int), pool as int));
                                assert(self.art(q) == mid.art(q));
                            } else {
                                assert(mid.art(p) == Some(mid.artists@[ai as int]));
                            }
                        }
                    }
                },
                None => {
                    proof {
                        assert(pre.art(p) is None);
                        assert forall|q: u64| #[trigger] self.art(q) is Some <==> pre.art(
                            q,
                        ) is Some by {}
                        assert forall|q: u64|
                            pre.art(q) is Some implies #[trigger] self.art(q) == Some(
                            Artist {
                                revenue_balance: (pre.art(q)->0.revenue_balance + total_share_of(
                                    q,
                                    sp.take(k as int + 1),
                                    pool as int,
                                )) as i128,
                                ..pre.art(q)->0
                            },
                        ) by {
                            assert(q != p);
                            assert(total_share_of(q, sp.take(k as int + 1), pool as int)
                                == total_share_of(q, sp.take(k as int), pool as int));
                        }
                    }
                },
            }
            k += 1;
        }
        proof {
            assert(sp.take(sp.len() as int) =~= sp);
        }
        Ok(out)
    }

    /// Withdraws an artist's whole accumulated balance: the balance is reset
    /// to zero and the amount to transfer is returned. When the external
    /// transfer fails, `restore_withdrawal` must put the amount back.
    pub fn withdraw_revenue(&mut self, artist: u64) -> (r: Result<i128, Error>)
        requires
            old(self).wf(),
        ensures
            final(self).wf(),
            r is Ok <==> old(self).art(artist) is Some,
            r is Err ==> r == Err::<i128, Error>(Error::NotFound) && *final(self) == *old(self),
            r is Ok ==> {
                &&& r->Ok_0 == old(self).art(artist)->0.revenue_balance
                &&& r->Ok_0 >= 0
                &&& final(self).art(artist) == Some(
                    Artist { revenue_balance: 0, ..old(self).art(artist)->0 },
                )
                &&& forall|p: u64| p != artist ==> #[trigger] final(self).art(p) == old(self).art(p)
                &&& final(self).artists@.len() == old(self).artists@.len()
                &&& final(self).users@ == old(self).users@ && final(self).tracks@ == old(self).tracks@
                    && final(self).tables@ == old(self).tables@ && final(self).requests@ == old(self).requests@
                    && final(self).user_to_nft@ == old(self).user_to_nft@ && final(self).nft_to_user@ == old(
                    self,
                ).nft_to_user@
                &&& final(self).events@ == old(self).events@
                &&& final(self).cfg_eq(*old(self))
                &&& final(self).counters_eq(*old(self))
            },
    {
        let ai = match self.find_artist_index(artist) {
            Some(ai) => ai,
            None => {
                return Err(Error::NotFound);
            },
        };
        let mut a = self.artists.remove(ai);
        let amount = a.revenue_balance;
        a.revenue_balance = 0;
        proof {
            lemma_find_by_update(old(self).artists@, artist_key(), ai as int, a);
            assert(old(self).artists@.remove(ai as int).insert(ai as int, a) =~= old(
                self,
            ).artists@.update(ai as int, a));
        }
        self.artists.insert(ai, a);
        proof {
            assert forall|i: int|
                0 <= i < self.artists@.len() implies (#[trigger] self.artists@[i]).revenue_balance
                >= 0 by {
                if i != ai as int {
                    assert(self.artists@[i] == old(self).artists@[i]);
                }
            }
        }
        Ok(amount)
    }

    /// Compensating action for a failed withdrawal transfer: puts the
    /// withdrawn amount back on the artist's balance.
    pub fn restore_withdrawal(&mut self, artist: u64, amount: i128) -> (r: Result<(), Error>)
        requires
            old(self).wf(),
            amount >= 0,
            old(self).art(artist) is Some ==> old(self).art(artist)->0.revenue_balance + amount
                <= i128::MAX,
        ensures
            final(self).wf(),
            r is Ok <==> old(self).art(artist) is Some,
            r is Err ==> r == Err::<(), Error>(Error::NotFound) && *final(self) == *old(self),
            r is Ok ==> {
                &&& final(self).art(artist) == Some(
                    Artist {
                        revenue_balance: (old(self).art(artist)->0.revenue_balance + amount) as i128,
                        ..old(self).art(artist)->0
                    },
                )
                &&& forall|p: u64| p != artist ==> #[trigger] final(self).art(p) == old(self).art(p)
                &&& final(self).artists@.len() == old(self).artists@.len()
                &&& final(self).users@ == old(self).users@ && final(self).tracks@ == old(self).tracks@
                    && final(self).tables@ == old(self).tables@ && final(self).requests@ == old(self).requests@
                    && final(self).user_to_nft@ == old(self).user_to_nft@ && final(self).nft_to_user@ == old(
                    self,
                ).nft_to_user@
                &&& final(self).events@ == old(self).events@
                &&& final(self).cfg_eq(*old(self))
                &&& final(self).counters_eq(*old(self))
            },
    {
        let ai = match self.find_artist_index(artist) {
            Some(ai) => ai,
            None => {
                return Err(Error::NotFound);
            },
        };
        let mut a = self.artists.remove(ai);
        a.revenue_balance = a.revenue_balance + amount;
        proof {
            lemma_find_by_update(old(self).artists@, artist_key(), ai as int, a);
            assert(old(self).artists@.remove(ai as int).insert(ai as int, a) =~= old(
                self,
            ).artists@.update(ai as int, a));
        }
        self.artists.insert(ai, a);
        proof {
            assert forall|i: int|
                0 <= i < self.artists@.len() implies (#[trigger] self.artists@[i]).revenue_balance
                >= 0 by {
                if i != ai as int {
                    assert(self.artists@[i] == old(self).artists@[i]);
                }
            }
        }
        Ok(())
    }
}

/// `payment_amount * bps` stays within the integer range used for the fee.
proof fn lemma_fee_fits(pa: int, bps: int)
    requires
        0 <= pa <= i128::MAX / 10000,
        0 <= bps <= 10000,
    ensures
        pa * bps <= i128::MAX,
        0 <= pa * bps,
        pa * bps / 10000 <= pa,
{
    lemma_pa_10000_fits(pa);
    lemma_mul_nonnegative(pa, bps);
    assert(pa * bps <= pa * 10000) by {
        lemma_mul_inequality(bps, 10000, pa);
        assert(bps * pa == pa * bps) by (nonlinear_arith);
        assert(10000 * pa == pa * 10000) by (nonlinear_arith);
    }
    lemma_div_is_ordered(pa * bps, pa * 10000, 10000);
    lemma_div_multiples_vanish(pa, 10000);
    assert(pa * 10000 == 10000 * pa) by (nonlinear_arith);
}

/// `payment_amount * 10000` stays within i128 when the amount is below the
/// required ceiling.
proof fn lemma_pa_10000_fits(pa: int)
    requires
        0 <= pa <= i128::MAX / 10000,
    ensures
        pa * 10000 <= i128::MAX,
        0 <= pa * 10000,
{
    lemma_mul_nonnegative(pa, 10000);
    lemma_mul_inequality(pa, i128::MAX / 10000, 10000);
    lemma_fundamental_div_mod(i128::MAX as int, 10000);
    lemma_mod_pos_bound(i128::MAX as int, 10000);
}

/// A stored track's split sums to 100, from state well-formedness.
proof fn lemma_split_sum_is_100(s: MetaJuke, ti: int)
    requires
        s.wf(),
        0 <= ti < s.tracks@.len(),
    ensures
        sum_split(s.tracks@[ti].royalty_split@) == 100,
{
    assert(s.tracks@[ti].wf());
}

/// The next credit fits in i128: what an artist has received so far plus the
/// next share never exceeds the old balance plus the payment.
proof fn lemma_credit_fits(
    pre: MetaJuke,
    mid: MetaJuke,
    p: u64,
    sp: Seq<(u64, u32)>,
    k: int,
    pool: int,
    pa: int,
)
    requires
        0 <= k < sp.len(),
        sp[k].0 == p,
        sum_split(sp) == 100,
        0 <= pool <= pa,
        pre.art(p) is Some,
        mid.art(p) == Some(
            Artist {
                revenue_balance: (pre.art(p)->0.revenue_balance + total_share_of(
                    p,
                    sp.take(k),
                    pool,
                )) as i128,
                ..pre.art(p)->0
            },
        ),
        pre.wf(),
        forall|i: int|
            0 <= i < pre.artists@.len() ==> (#[trigger] pre.artists@[i]).revenue_balance + pa
                <= i128::MAX,
    ensures
        pre.art(p)->0.revenue_balance + total_share_of(p, sp.take(k), pool) + share_of(
            pool,
            sp[k].1 as int,
        ) <= i128::MAX,
        total_share_of(p, sp.take(k), pool) >= 0,
        share_of(pool, sp[k].1 as int) >= 0,
{
    assert forall|i: int| 0 <= i < sp.take(k + 1).len() implies (#[trigger] sp.take(k + 1)[i]).1
        <= 100 by {
        lemma_split_pct_bounded(sp, i);
    }
    assert forall|i: int| 0 <= i < sp.take(k).len() implies (#[trigger] sp.take(k)[i]).1
        <= 100 by {
        lemma_split_pct_bounded(sp, i);
    }
    lemma_total_share_le(p, sp.take(k + 1), pool);
    lemma_sum_shares_le(sp.take(k + 1), pool);
    lemma_sum_split_prefix_le(sp, k + 1);
    assert(sum_split(sp.take(k + 1)) <= 100);
    assert(sum_shares(sp.take(k + 1), pool) <= pool);
    assert(sp.take(k + 1).drop_last() =~= sp.take(k));
    assert(sp.take(k + 1).last() == sp[k]);
    lemma_split_pct_bounded(sp, k);
    lemma_share_bounds(pool, sp[k].1 as int);
    lemma_total_share_le(p, sp.take(k), pool);
    assert(total_share_of(p, sp.take(k), pool) + share_of(pool, sp[k].1 as int)
        == total_share_of(p, sp.take(k + 1), pool));
    // locate p's entry to use the balance headroom bound
    lemma_find_by_some(pre.artists@, artist_key(), p);
    let w = choose|w: int|
        0 <= w < pre.artists@.len() && pre.artists@[w] == find_by(
            pre.artists@,
            artist_key(),
            p,
        )->0 && artist_key()(#[trigger] pre.artists@[w]) == p;
    assert(pre.artists@[w].revenue_balance + pa <= i128::MAX);
    assert(pre.art(p)->0.revenue_balance + pa <= i128::MAX);
}

/// A prefix of a split sums to at most the whole split's total.
proof fn lemma_sum_split_prefix_le(sp: Seq<(u64, u32)>, k: int)
    requires
        0 <= k <= sp.len(),
    ensures
        sum_split(sp.take(k)) <= sum_split(sp),
{
    crate::tracks::lemma_sum_split_prefix(sp, k);
}

/// Unfolding `total_share_of` one step along a prefix.
proof fn lemma_total_take_step(sp: Seq<(u64, u32)>, k: int, pool: int, s: MetaJuke)
    requires
        0 <= k < sp.len(),
    ensures
        forall|q: u64|
            #[trigger] total_share_of(q, sp.take(k + 1), pool) == total_share_of(
                q,
                sp.take(k),
                pool,
            ) + if sp[k].0 == q {
                share_of(pool, sp[k].1 as int)
            } else {
                0
            },
{
    assert(sp.take(k + 1).drop_last() =~= sp.take(k));
    assert(sp.take(k + 1).last() == sp[k]);
}

} // verus!
