//! Laws of the parting shaper, proved against the model in `parting`.
//!
//! Each public proof function here states a behavioral guarantee of the
//! whole pipeline (`shaper_output`, the model behind `ks_to_pts`) over all
//! inputs of a given shape, and its proof is checked from the transition
//! system alone.

use vstd::prelude::*;

use crate::parting::{
    active_slot, ck_contains_k, consume_all, emit_spec, flush_spec, init_model, inclusive_spec,
    k_to_ck_spec, lemma_consume_all_append, shaper_output, step_spec, ShaperModel,
};
use crate::shape::{CK, K, Parting};

verus! {

/// One strictly monotonic move from candle `a` to candle `b`: both bounds
/// rise when `up` is set, both fall otherwise.
pub open spec fn dir_step(a: K, b: K, up: bool) -> bool {
    if up {
        b.high > a.high && b.low > a.low
    } else {
        b.high < a.high && b.low < a.low
    }
}

/// The whole of `ks` continues strictly in direction `up` from `prev`.
pub open spec fn dir_chain(prev: K, ks: Seq<K>, up: bool) -> bool
    decreases ks.len(),
{
    ks.len() == 0 || (dir_step(prev, ks[0], up) && dir_chain(ks[0], ks.skip(1), up))
}

/// The last candle of the chain `prev` followed by `ks`.
pub open spec fn chain_last(prev: K, ks: Seq<K>) -> K {
    if ks.len() == 0 {
        prev
    } else {
        ks.last()
    }
}

/// Timestamps increase strictly along the series.
pub open spec fn ts_increasing(ks: Seq<K>) -> bool {
    forall|i: int, j: int|
        0 <= i < j < ks.len() ==> #[trigger] ks[i].ts < #[trigger] ks[j].ts
}

/// A strictly monotonic run never merges, never fills the third slot, and
/// never emits: the window just slides along, keeping the last two candles.
proof fn lemma_mono_run(s: ShaperModel, prev: K, ks: Seq<K>, up: bool)
    requires
        s.first_k is Some,
        s.second_k == Some(k_to_ck_spec(prev)),
        s.third_k is None,
        s.upward == up,
        dir_chain(prev, ks, up),
    ensures
        consume_all(s, ks).body == s.body,
        consume_all(s, ks).third_k is None,
        consume_all(s, ks).upward == up,
        consume_all(s, ks).second_k == Some(k_to_ck_spec(chain_last(prev, ks))),
        consume_all(s, ks).first_k == (if ks.len() == 0 {
            s.first_k
        } else {
            Some(k_to_ck_spec(chain_last(prev, ks.drop_last())))
        }),
    decreases ks.len(),
{
    if ks.len() > 0 {
        let k = ks[0];
        let s1 = step_spec(s, k);
        assert(s1 == (ShaperModel {
            first_k: s.second_k,
            second_k: Some(k_to_ck_spec(k)),
            ..s
        }));
        lemma_mono_run(s1, k, ks.skip(1), up);
        if ks.len() == 1 {
            assert(chain_last(prev, ks) == ks[0]);
            assert(chain_last(prev, ks.drop_last()) == prev);
        } else {
            assert(ks.skip(1).last() == ks.last());
            assert(chain_last(k, ks.skip(1)) == chain_last(prev, ks));
            assert(ks.skip(1).drop_last() =~= ks.drop_last().skip(1));
            assert(ks.drop_last()[0] == k);
            assert(chain_last(k, ks.skip(1).drop_last()) == chain_last(prev, ks.drop_last()));
        }
    }
}

/// From a fresh shaper, a strictly monotonic series of at least two candles
/// leads to the two-slot window of its last two candles, with the direction
/// fixed by the first breakout and nothing emitted.
proof fn lemma_two_slot_run(ks: Seq<K>, up: bool)
    requires
        ks.len() >= 2,
        dir_chain(ks[0], ks.skip(1), up),
    ensures
        consume_all(init_model(), ks).body == Seq::<Parting>::empty(),
        consume_all(init_model(), ks).third_k is None,
        consume_all(init_model(), ks).upward == up,
        consume_all(init_model(), ks).first_k == Some(k_to_ck_spec(ks[ks.len() - 2])),
        consume_all(init_model(), ks).second_k == Some(k_to_ck_spec(ks.last())),
{
    let s0 = init_model();
    let s1 = step_spec(s0, ks[0]);
    assert(s1 == (ShaperModel { first_k: Some(k_to_ck_spec(ks[0])), ..s0 }));
    assert(ks.skip(1)[0] == ks[1]);
    assert(dir_step(ks[0], ks[1], up));
    let s2 = step_spec(s1, ks[1]);
    assert(inclusive_spec(k_to_ck_spec(ks[0]), ks[1], s1.upward) is None);
    assert(s2 == (ShaperModel {
        first_k: Some(k_to_ck_spec(ks[0])),
        second_k: Some(k_to_ck_spec(ks[1])),
        third_k: Option::None,
        upward: up,
        body: Seq::<Parting>::empty(),
    }));
    assert(consume_all(s0, ks) == consume_all(s1, ks.skip(1)));
    assert(consume_all(s1, ks.skip(1)) == consume_all(s2, ks.skip(1).skip(1)));
    assert(ks.skip(1).skip(1) =~= ks.skip(2));
    assert(dir_chain(ks[1], ks.skip(2), up));
    lemma_mono_run(s2, ks[1], ks.skip(2), up);
    let t = consume_all(s0, ks);
    if ks.len() == 2 {
        assert(t.second_k == Some(k_to_ck_spec(ks[1])));
        assert(t.first_k == Some(k_to_ck_spec(ks[0])));
    } else {
        assert(ks.skip(2).last() == ks.last());
        assert(chain_last(ks[1], ks.skip(2)) == ks.last());
        if ks.len() == 3 {
            assert(chain_last(ks[1], ks.skip(2).drop_last()) == ks[1]);
        } else {
            assert(ks.skip(2).drop_last().len() == ks.len() - 3);
            assert(ks.skip(2).drop_last().last() == ks[ks.len() - 2]);
            assert(chain_last(ks[1], ks.skip(2).drop_last()) == ks[ks.len() - 2]);
        }
    }
}

/// From a window whose third slot holds the single candle `c`, a strictly
/// monotonic continuation in the current working direction first completes
/// the fractal (one parting is emitted on the next candle) and then slides
/// the two-slot window along, emitting nothing further.
proof fn lemma_armed_chain(s: ShaperModel, c: K, rs: Seq<K>)
    requires
        s.first_k is Some,
        s.second_k is Some,
        s.third_k == Some(k_to_ck_spec(c)),
        dir_chain(c, rs, s.upward),
        rs.len() >= 1,
    ensures
        consume_all(s, rs).body == s.body.push(
            emit_spec(s.first_k.unwrap(), s.second_k.unwrap(), k_to_ck_spec(c), s.upward),
        ),
        consume_all(s, rs).third_k is None,
        consume_all(s, rs).upward == s.upward,
        consume_all(s, rs).second_k == Some(k_to_ck_spec(rs.last())),
        consume_all(s, rs).first_k == Some(k_to_ck_spec(if rs.len() == 1 {
            c
        } else {
            rs[rs.len() - 2]
        })),
{
    let up = s.upward;
    let k = rs[0];
    assert(dir_step(c, k, up));
    let p = emit_spec(s.first_k.unwrap(), s.second_k.unwrap(), k_to_ck_spec(c), up);
    let s1 = step_spec(s, k);
    assert(inclusive_spec(k_to_ck_spec(c), k, up) is None);
    assert(!((up && k.low < k_to_ck_spec(c).low) || (!up && k.high > k_to_ck_spec(c).high)));
    assert((k.high > c.high) == up);
    assert(s1 == (ShaperModel {
        first_k: s.third_k,
        second_k: Some(k_to_ck_spec(k)),
        third_k: Option::None,
        upward: up,
        body: s.body.push(p),
    }));
    assert(consume_all(s, rs) == consume_all(s1, rs.skip(1)));
    lemma_mono_run(s1, k, rs.skip(1), up);
    let t = consume_all(s, rs);
    if rs.len() == 1 {
        assert(t.second_k == Some(k_to_ck_spec(k)));
        assert(t.first_k == Some(k_to_ck_spec(c)));
    } else {
        assert(rs.skip(1).last() == rs.last());
        assert(chain_last(k, rs.skip(1)) == rs.last());
        if rs.len() == 2 {
            assert(chain_last(k, rs.skip(1).drop_last()) == rs[0]);
        } else {
            assert(rs.skip(1).drop_last().len() == rs.len() - 2);
            assert(rs.skip(1).drop_last().last() == rs[rs.len() - 2]);
            assert(chain_last(k, rs.skip(1).drop_last()) == rs[rs.len() - 2]);
        }
    }
}

/// No false positives on monotonic runs: a strictly increasing (or strictly
/// decreasing) candle series contains no reversal, and the shaper emits no
/// parting for it.
pub proof fn lemma_monotonic_no_partings(ks: Seq<K>, up: bool)
    requires
        ks.len() == 0 || dir_chain(ks[0], ks.skip(1), up),
    ensures
        shaper_output(ks).len() == 0,
{
    let s0 = init_model();
    if ks.len() == 0 {
        assert(consume_all(s0, ks) == s0);
    } else if ks.len() == 1 {
        let s1 = step_spec(s0, ks[0]);
        assert(consume_all(s0, ks) == consume_all(s1, ks.skip(1)));
        assert(ks.skip(1).len() == 0);
        assert(consume_all(s1, ks.skip(1)) == s1);
        assert(s1 == (ShaperModel { first_k: Some(k_to_ck_spec(ks[0])), ..s0 }));
    } else {
        lemma_two_slot_run(ks, up);
    }
}

/// A single reversal yields exactly one parting: a series that moves
/// strictly in direction `up` through its candle at position `m` (with at
/// least two candles in that leg) and strictly the other way afterwards
/// (with at least one more candle) produces one parting; its polarity
/// matches the reversal, its extremum is the turning candle's far bound, and
/// its span covers the three candles around the turn.
pub proof fn lemma_single_reversal(ks: Seq<K>, m: int, up: bool)
    requires
        1 <= m,
        m + 2 <= ks.len(),
        dir_chain(ks[0], ks.subrange(1, m + 1), up),
        dir_chain(ks[m], ks.subrange(m + 1, ks.len() as int), !up),
    ensures
        shaper_output(ks).len() == 1,
        shaper_output(ks)[0] == (Parting {
            start_ts: ks[m - 1].ts,
            end_ts: ks[m + 1].ts,
            extremum_ts: ks[m].ts,
            extremum_price: if up { ks[m].high } else { ks[m].low },
            n: 3,
            top: up,
        }),
{
    let s0 = init_model();
    let pre = ks.take(m + 1);
    assert(pre.skip(1) =~= ks.subrange(1, m + 1));
    assert(pre[0] == ks[0]);
    lemma_two_slot_run(pre, up);
    let a = consume_all(s0, pre);
    assert(pre[pre.len() - 2] == ks[m - 1] && pre.last() == ks[m]);
    assert(a.first_k == Some(k_to_ck_spec(ks[m - 1])));
    assert(a.second_k == Some(k_to_ck_spec(ks[m])));

    assert(ks =~= pre + ks.skip(m + 1));
    lemma_consume_all_append(s0, pre, ks.skip(m + 1));
    assert(consume_all(s0, ks) == consume_all(a, ks.skip(m + 1)));

    // The first candle against the trend opens the third slot and flips the
    // working direction.
    let down = ks.subrange(m + 1, ks.len() as int);
    assert(down =~= ks.skip(m + 1));
    let k = ks[m + 1];
    assert(down[0] == k);
    assert(dir_step(ks[m], k, !up));
    let b = step_spec(a, k);
    assert(inclusive_spec(k_to_ck_spec(ks[m]), k, up) is None);
    assert((up && k.low < k_to_ck_spec(ks[m]).low) || (!up && k.high > k_to_ck_spec(ks[m]).high));
    assert(b == (ShaperModel {
        first_k: a.first_k,
        second_k: a.second_k,
        third_k: Some(k_to_ck_spec(k)),
        upward: !up,
        body: Seq::<Parting>::empty(),
    }));
    assert(consume_all(a, ks.skip(m + 1)) == consume_all(b, ks.skip(m + 1).skip(1)));
    assert(ks.skip(m + 1).skip(1) =~= ks.skip(m + 2));

    let p = emit_spec(k_to_ck_spec(ks[m - 1]), k_to_ck_spec(ks[m]), k_to_ck_spec(k), !up);
    assert(p == (Parting {
        start_ts: ks[m - 1].ts,
        end_ts: ks[m + 1].ts,
        extremum_ts: ks[m].ts,
        extremum_price: if up { ks[m].high } else { ks[m].low },
        n: 3,
        top: up,
    }));

    let rest = ks.skip(m + 2);
    assert(dir_chain(k, rest, !up)) by {
        assert(down.skip(1) =~= rest);
    }
    if rest.len() == 0 {
        assert(consume_all(b, rest) == b);
        assert(flush_spec(b).body == Seq::<Parting>::empty().push(p));
    } else {
        lemma_armed_chain(b, k, rest);
        assert(consume_all(b, rest).body == Seq::<Parting>::empty().push(p));
        assert(consume_all(b, rest).third_k is None);
    }
}

/// Two independent reversals yield two partings of opposite polarity with
/// correctly ordered, non-overlapping spans: a series that moves strictly in
/// direction `up` through position `m`, strictly the other way through
/// position `m2` (at least two candles later), and strictly in direction
/// `up` again afterwards, produces exactly the two partings of those two
/// turns, in order.
#[verifier::rlimit(60)]
pub proof fn lemma_two_reversals(ks: Seq<K>, m: int, m2: int, up: bool)
    requires
        1 <= m,
        m + 2 <= m2,
        m2 + 2 <= ks.len(),
        dir_chain(ks[0], ks.subrange(1, m + 1), up),
        dir_chain(ks[m], ks.subrange(m + 1, m2 + 1), !up),
        dir_chain(ks[m2], ks.subrange(m2 + 1, ks.len() as int), up),
        ts_increasing(ks),
    ensures
        shaper_output(ks).len() == 2,
        shaper_output(ks)[0] == (Parting {
            start_ts: ks[m - 1].ts,
            end_ts: ks[m + 1].ts,
            extremum_ts: ks[m].ts,
            extremum_price: if up { ks[m].high } else { ks[m].low },
            n: 3,
            top: up,
        }),
        shaper_output(ks)[1] == (Parting {
            start_ts: ks[m2 - 1].ts,
            end_ts: ks[m2 + 1].ts,
            extremum_ts: ks[m2].ts,
            extremum_price: if up { ks[m2].low } else { ks[m2].high },
            n: 3,
            top: !up,
        }),
        shaper_output(ks)[0].end_ts <= shaper_output(ks)[1].start_ts,
        shaper_output(ks)[0].start_ts < shaper_output(ks)[0].end_ts,
        shaper_output(ks)[1].start_ts < shaper_output(ks)[1].end_ts,
{
    let s0 = init_model();
    let pre = ks.take(m + 1);
    assert(pre.skip(1) =~= ks.subrange(1, m + 1));
    assert(pre[0] == ks[0]);
    lemma_two_slot_run(pre, up);
    let a = consume_all(s0, pre);
    assert(pre[pre.len() - 2] == ks[m - 1] && pre.last() == ks[m]);

    assert(ks =~= pre + ks.skip(m + 1));
    lemma_consume_all_append(s0, pre, ks.skip(m + 1));
    assert(consume_all(s0, ks) == consume_all(a, ks.skip(m + 1)));

    // First reversal: the third slot opens and the direction flips.
    let down = ks.subrange(m + 1, m2 + 1);
    let k = ks[m + 1];
    assert(down[0] == k);
    assert(dir_step(ks[m], k, !up));
    let b = step_spec(a, k);
    assert(inclusive_spec(k_to_ck_spec(ks[m]), k, up) is None);
    assert(b == (ShaperModel {
        first_k: a.first_k,
        second_k: a.second_k,
        third_k: Some(k_to_ck_spec(k)),
        upward: !up,
        body: Seq::<Parting>::empty(),
    }));
    assert(consume_all(a, ks.skip(m + 1)) == consume_all(b, ks.skip(m + 1).skip(1)));
    assert(ks.skip(m + 1).skip(1) =~= ks.skip(m + 2));

    let first_p = emit_spec(k_to_ck_spec(ks[m - 1]), k_to_ck_spec(ks[m]), k_to_ck_spec(k), !up);

    // The leg away from the first turn, up to and including the candle at m2.
    let mid = ks.subrange(m + 2, m2 + 1);
    assert(dir_chain(k, mid, !up)) by {
        assert(down.skip(1) =~= mid);
    }
    assert(mid.len() == m2 - m - 1 >= 1);
    assert(ks.skip(m + 2) =~= mid + ks.skip(m2 + 1));
    lemma_consume_all_append(b, mid, ks.skip(m2 + 1));
    lemma_armed_chain(b, k, mid);
    let c = consume_all(b, mid);
    assert(c.body == Seq::<Parting>::empty().push(first_p));
    assert(mid.last() == ks[m2]);
    assert(c.second_k == Some(k_to_ck_spec(ks[m2])));
    assert(c.first_k == Some(k_to_ck_spec(if mid.len() == 1 {
        k
    } else {
        mid[mid.len() - 2]
    })));
    assert((if mid.len() == 1 { k } else { mid[mid.len() - 2] }) == ks[m2 - 1]);
    assert(c.third_k is None && c.upward == !up);
    assert(consume_all(b, ks.skip(m + 2)) == consume_all(c, ks.skip(m2 + 1)));

    // Second reversal: the third slot opens again and the direction flips
    // back.
    let tail = ks.subrange(m2 + 1, ks.len() as int);
    let k2 = ks[m2 + 1];
    assert(tail[0] == k2);
    assert(dir_step(ks[m2], k2, up));
    let d = step_spec(c, k2);
    assert(inclusive_spec(k_to_ck_spec(ks[m2]), k2, !up) is None);
    assert(d == (ShaperModel {
        first_k: c.first_k,
        second_k: c.second_k,
        third_k: Some(k_to_ck_spec(k2)),
        upward: up,
        body: c.body,
    }));
    assert(consume_all(c, ks.skip(m2 + 1)) == consume_all(d, ks.skip(m2 + 1).skip(1)));
    assert(ks.skip(m2 + 1).skip(1) =~= ks.skip(m2 + 2));

    let second_p = emit_spec(k_to_ck_spec(ks[m2 - 1]), k_to_ck_spec(ks[m2]), k_to_ck_spec(k2), up);

    let rest = ks.skip(m2 + 2);
    assert(dir_chain(k2, rest, up)) by {
        assert(tail.skip(1) =~= rest);
    }
    if rest.len() == 0 {
        assert(consume_all(d, rest) == d);
        assert(flush_spec(d).body == c.body.push(second_p));
    } else {
        lemma_armed_chain(d, k2, rest);
        assert(consume_all(d, rest).body == c.body.push(second_p));
        assert(consume_all(d, rest).third_k is None);
    }
    assert(shaper_output(ks) == Seq::<Parting>::empty().push(first_p).push(second_p));
    assert(shaper_output(ks)[0] == first_p && shaper_output(ks)[1] == second_p);
    assert(ks[m + 1].ts <= ks[m2 - 1].ts);
    assert(ks[m - 1].ts < ks[m + 1].ts);
    assert(ks[m2 - 1].ts < ks[m2 + 1].ts);
}

/// Inclusion absorbs dominated candles: when the incoming candle's range is
/// fully contained in the window candle it is compared against, the step
/// emits nothing, keeps the direction and the other slots, and only extends
/// the affected merged candle — its span end moves to the new candle, its
/// count grows by one, its start and extremum stand, and its range never
/// leaves the old envelope (under an upward trend the low tightens to the
/// larger of the two lows; downward, the high to the smaller of the highs).
pub proof fn lemma_inclusion_absorbs(s: ShaperModel, k: K)
    requires
        s.wf(),
        active_slot(s) is Some,
        ck_contains_k(active_slot(s).unwrap(), k),
        active_slot(s).unwrap().n + 1 <= usize::MAX,
    ensures
        ({
            let c = active_slot(s).unwrap();
            let t = step_spec(s, k);
            let c2 = active_slot(t).unwrap();
            &&& t.body == s.body
            &&& t.upward == s.upward
            &&& active_slot(t) is Some
            &&& c2.start_ts == c.start_ts
            &&& c2.extremum_ts == c.extremum_ts
            &&& c2.end_ts == k.ts
            &&& c2.n == c.n + 1
            &&& c.low <= c2.low
            &&& c2.high <= c.high
            &&& (s.upward ==> c2.high == c.high && c2.low == (if k.low > c.low {
                k.low
            } else {
                c.low
            }))
            &&& (!s.upward ==> c2.low == c.low && c2.high == (if k.high < c.high {
                k.high
            } else {
                c.high
            }))
            &&& (s.second_k is None ==> t.second_k == s.second_k && t.third_k == s.third_k)
            &&& (s.second_k is Some && s.third_k is None ==> t.first_k == s.first_k
                && t.third_k == s.third_k)
            &&& (s.third_k is Some ==> t.first_k == s.first_k && t.second_k == s.second_k)
        }),
{
    let c = active_slot(s).unwrap();
    let t = step_spec(s, k);
    assert(inclusive_spec(c, k, s.upward) is Some);
    let mc = inclusive_spec(c, k, s.upward).unwrap();
    assert(mc.n == c.n + 1);
    if s.second_k is None {
        assert(t == (ShaperModel { first_k: Some(mc), ..s }));
    } else if s.third_k is None {
        assert(t == (ShaperModel { second_k: Some(mc), ..s }));
    } else {
        assert(t == (ShaperModel { third_k: Some(mc), ..s }));
    }
    assert(active_slot(t) == Some(mc));
}

/// A merged candle is internally ordered: it starts no later than its
/// extremum and ends no earlier.
pub open spec fn slot_ordered(c: CK) -> bool {
    c.start_ts <= c.extremum_ts <= c.end_ts
}

/// Every pair of emitted partings is strictly ordered by start.
pub open spec fn starts_increasing(ps: Seq<Parting>) -> bool {
    forall|i: int, j: int|
        0 <= i < j < ps.len() ==> #[trigger] ps[i].start_ts < #[trigger] ps[j].start_ts
}

/// The ordering invariant of a reachable shaper state: window slots are
/// internally ordered and pairwise disjoint in time, emitted partings are
/// strictly ordered by start, and every emitted parting starts before the
/// window's oldest slot.
pub open spec fn ordered_inv(s: ShaperModel) -> bool {
    &&& s.wf()
    &&& (s.first_k is None ==> s.body.len() == 0)
    &&& (s.first_k is Some ==> slot_ordered(s.first_k.unwrap()))
    &&& (s.second_k is Some ==> slot_ordered(s.second_k.unwrap())
        && s.first_k.unwrap().end_ts < s.second_k.unwrap().start_ts)
    &&& (s.third_k is Some ==> slot_ordered(s.third_k.unwrap())
        && s.second_k.unwrap().end_ts < s.third_k.unwrap().start_ts)
    &&& starts_increasing(s.body)
    &&& (s.first_k is Some ==> forall|i: int|
        0 <= i < s.body.len() ==> #[trigger] s.body[i].start_ts < s.first_k.unwrap().start_ts)
}

/// The timestamp up to which the window reaches: the end of its newest
/// filled slot (a value below every timestamp while the window is empty).
pub open spec fn window_end(s: ShaperModel) -> int {
    if s.third_k is Some {
        s.third_k.unwrap().end_ts as int
    } else if s.second_k is Some {
        s.second_k.unwrap().end_ts as int
    } else if s.first_k is Some {
        s.first_k.unwrap().end_ts as int
    } else {
        i64::MIN - 1
    }
}

/// One transition on a candle arriving after the whole window preserves the
/// ordering invariant, and the window then reaches exactly to that candle.
proof fn lemma_step_ordered(s: ShaperModel, k: K)
    requires
        ordered_inv(s),
        window_end(s) < k.ts,
    ensures
        ordered_inv(step_spec(s, k)),
        window_end(step_spec(s, k)) == k.ts,
{
    let t = step_spec(s, k);
    if s.first_k is Some && s.second_k is Some && s.third_k is Some {
        let k1 = s.first_k.unwrap();
        if inclusive_spec(s.third_k.unwrap(), k, s.upward) is None {
            let p = emit_spec(k1, s.second_k.unwrap(), s.third_k.unwrap(), s.upward);
            assert(p.start_ts == k1.start_ts);
            assert(t.body == s.body.push(p));
            assert(forall|i: int| 0 <= i < s.body.len() ==> #[trigger] s.body[i].start_ts
                < p.start_ts);
            assert(starts_increasing(t.body));
        }
    }
}

/// Feeding candles with strictly increasing timestamps, all later than the
/// window, preserves the ordering invariant.
proof fn lemma_run_ordered(s: ShaperModel, ks: Seq<K>)
    requires
        ordered_inv(s),
        ts_increasing(ks),
        ks.len() > 0 ==> window_end(s) < ks[0].ts,
    ensures
        ordered_inv(consume_all(s, ks)),
        window_end(consume_all(s, ks)) == (if ks.len() == 0 {
            window_end(s)
        } else {
            ks.last().ts as int
        }),
    decreases ks.len(),
{
    if ks.len() > 0 {
        lemma_step_ordered(s, ks[0]);
        let s1 = step_spec(s, ks[0]);
        let rest = ks.skip(1);
        assert(ts_increasing(rest)) by {
            assert(forall|i: int, j: int| 0 <= i < j < rest.len() ==> #[trigger] rest[i].ts
                < #[trigger] rest[j].ts) by {
                assert(forall|i: int| 0 <= i < rest.len() ==> rest[i] == ks[i + 1]);
            }
        }
        if rest.len() > 0 {
            assert(rest[0] == ks[1]);
            assert(ks[0].ts < ks[1].ts);
        }
        lemma_run_ordered(s1, rest);
        if rest.len() > 0 {
            assert(rest.last() == ks.last());
        }
    }
}

/// Emitted partings come in strictly increasing start order: for a series
/// with strictly increasing timestamps, the output is strictly ordered by
/// `start_ts`, with no two partings sharing a start.
pub proof fn lemma_output_starts_increasing(ks: Seq<K>)
    requires
        ts_increasing(ks),
    ensures
        starts_increasing(shaper_output(ks)),
{
    let s0 = init_model();
    assert(ordered_inv(s0));
    lemma_run_ordered(s0, ks);
    let t = consume_all(s0, ks);
    if t.third_k is Some {
        let p = emit_spec(t.first_k.unwrap(), t.second_k.unwrap(), t.third_k.unwrap(), t.upward);
        assert(flush_spec(t).body == t.body.push(p));
        assert(p.start_ts == t.first_k.unwrap().start_ts);
        assert(forall|i: int| 0 <= i < t.body.len() ==> #[trigger] t.body[i].start_ts
            < p.start_ts);
        assert(starts_increasing(flush_spec(t).body));
    }
}

// ---------------------------------------------------------------------------
// Absorption across a whole run
// ---------------------------------------------------------------------------

/// Slot `d` is slot `c` after absorbing one more dominated candle whose
/// bounds did not move the envelope: same span start, extremum and range,
/// one more constituent, and a span end that either still agrees or sits at
/// the absorbed candle's timestamp `ats`.
pub open spec fn slot_rel(c: CK, d: CK, ats: i64) -> bool {
    &&& d.start_ts == c.start_ts
    &&& d.extremum_ts == c.extremum_ts
    &&& d.high == c.high
    &&& d.low == c.low
    &&& d.n == c.n + 1
    &&& (d.end_ts == c.end_ts || d.end_ts == ats)
}

/// Parting `q` is parting `p` up to the absorbed candle: same start,
/// extremum, price and polarity; the count may be one higher and the span
/// end may sit at the absorbed candle's timestamp instead.
pub open spec fn parting_rel(p: Parting, q: Parting, ats: i64) -> bool {
    &&& q.start_ts == p.start_ts
    &&& q.extremum_ts == p.extremum_ts
    &&& q.extremum_price == p.extremum_price
    &&& q.top == p.top
    &&& (q.n == p.n || q.n == p.n + 1)
    &&& (q.end_ts == p.end_ts || q.end_ts == ats)
}

/// The two outputs agree parting for parting, up to the absorbed candle.
pub open spec fn bodies_rel(ps: Seq<Parting>, qs: Seq<Parting>, ats: i64) -> bool {
    &&& qs.len() == ps.len()
    &&& forall|i: int| 0 <= i < ps.len() ==> #[trigger] parting_rel(ps[i], qs[i], ats)
}

/// State `v` is state `u` after one extra dominated candle was absorbed at
/// time `ats`: same direction, outputs related parting for parting, and
/// windows identical except that at most one slot carries the absorption.
pub open spec fn states_rel(u: ShaperModel, v: ShaperModel, ats: i64) -> bool {
    &&& u.wf()
    &&& v.wf()
    &&& v.upward == u.upward
    &&& bodies_rel(u.body, v.body, ats)
    &&& {
        ||| (v.first_k == u.first_k && v.second_k == u.second_k && v.third_k == u.third_k)
        ||| (u.first_k is Some && v.first_k is Some && slot_rel(
            u.first_k.unwrap(),
            v.first_k.unwrap(),
            ats,
        ) && v.second_k == u.second_k && v.third_k == u.third_k)
        ||| (u.second_k is Some && v.second_k is Some && slot_rel(
            u.second_k.unwrap(),
            v.second_k.unwrap(),
            ats,
        ) && v.first_k == u.first_k && v.third_k == u.third_k)
        ||| (u.third_k is Some && v.third_k is Some && slot_rel(
            u.third_k.unwrap(),
            v.third_k.unwrap(),
            ats,
        ) && v.first_k == u.first_k && v.second_k == u.second_k)
    }
}

/// Pushing related partings keeps the outputs related.
proof fn lemma_bodies_rel_push(ps: Seq<Parting>, qs: Seq<Parting>, p: Parting, q: Parting, ats: i64)
    requires
        bodies_rel(ps, qs, ats),
        parting_rel(p, q, ats),
    ensures
        bodies_rel(ps.push(p), qs.push(q), ats),
{
    assert forall|i: int| 0 <= i < ps.push(p).len() implies #[trigger] parting_rel(
        ps.push(p)[i],
        qs.push(q)[i],
        ats,
    ) by {
        if i < ps.len() {
            assert(parting_rel(ps[i], qs[i], ats));
        }
    }
}

/// One transition preserves the absorption relation: the machine's
/// decisions read only the ranges and the direction, which the relation
/// keeps equal.
proof fn lemma_bisim_step(u: ShaperModel, v: ShaperModel, x: K, ats: i64)
    requires
        states_rel(u, v, ats),
        u.window_n() + 2 <= usize::MAX,
    ensures
        states_rel(step_spec(u, x), step_spec(v, x), ats),
{
    let tu = step_spec(u, x);
    let tv = step_spec(v, x);
    if u.first_k is None {
    } else if u.second_k is None {
        let u1 = u.first_k.unwrap();
        let v1 = v.first_k.unwrap();
        assert(inclusive_spec(u1, x, u.upward) is Some <==> inclusive_spec(
            v1,
            x,
            v.upward,
        ) is Some);
    } else if u.third_k is None {
        let u2 = u.second_k.unwrap();
        let v2 = v.second_k.unwrap();
        assert(inclusive_spec(u2, x, u.upward) is Some <==> inclusive_spec(
            v2,
            x,
            v.upward,
        ) is Some);
        if inclusive_spec(u2, x, u.upward) is None {
            assert(tu.body == u.body && tv.body == v.body);
        }
    } else {
        let u1 = u.first_k.unwrap();
        let u2 = u.second_k.unwrap();
        let u3 = u.third_k.unwrap();
        let v1 = v.first_k.unwrap();
        let v2 = v.second_k.unwrap();
        let v3 = v.third_k.unwrap();
        assert(inclusive_spec(u3, x, u.upward) is Some <==> inclusive_spec(
            v3,
            x,
            v.upward,
        ) is Some);
        if inclusive_spec(u3, x, u.upward) is None {
            let p = emit_spec(u1, u2, u3, u.upward);
            let q = emit_spec(v1, v2, v3, v.upward);
            assert(parting_rel(p, q, ats));
            lemma_bodies_rel_push(u.body, v.body, p, q, ats);
        }
    }
}

/// Feeding the same continuation on both sides preserves the absorption
/// relation.
proof fn lemma_bisim_run(u: ShaperModel, v: ShaperModel, ks: Seq<K>, ats: i64)
    requires
        states_rel(u, v, ats),
        u.window_n() + ks.len() + 1 <= usize::MAX,
    ensures
        states_rel(consume_all(u, ks), consume_all(v, ks), ats),
        consume_all(u, ks).window_n() <= u.window_n() + ks.len(),
    decreases ks.len(),
{
    if ks.len() > 0 {
        lemma_bisim_step(u, v, ks[0], ats);
        crate::parting::lemma_step_window_n(u, ks[0]);
        lemma_bisim_run(step_spec(u, ks[0]), step_spec(v, ks[0]), ks.skip(1), ats);
    }
}

/// The window stays well formed and holds no more candles than were fed.
proof fn lemma_reachable(s: ShaperModel, ks: Seq<K>)
    requires
        s.wf(),
        s.window_n() + ks.len() <= usize::MAX,
    ensures
        consume_all(s, ks).wf(),
        consume_all(s, ks).window_n() <= s.window_n() + ks.len(),
    decreases ks.len(),
{
    if ks.len() > 0 {
        crate::parting::lemma_step_wf(s, ks[0]);
        crate::parting::lemma_step_window_n(s, ks[0]);
        lemma_reachable(step_spec(s, ks[0]), ks.skip(1));
    }
}

/// Inclusion absorbs dominated candles across a whole run: take any series
/// split as `a` then `b`, and a candle `k` whose range is contained in the
/// window candle that the shaper holds after `a`, without moving the
/// trend's envelope bound (under an upward trend it shares that candle's
/// low, under a downward trend its high). Inserting `k` between `a` and `b`
/// changes no parting count and no boundary timestamp: the two outputs
/// agree parting for parting in start, extremum, price and polarity, and a
/// parting's count or span end moves only by absorbing `k` itself (the
/// count by one, the end to `k`'s own timestamp).
pub proof fn lemma_inclusion_absorbs_run(a: Seq<K>, k: K, b: Seq<K>)
    requires
        ({
            let s = consume_all(init_model(), a);
            let c = active_slot(s).unwrap();
            &&& active_slot(s) is Some
            &&& ck_contains_k(c, k)
            &&& (s.upward ==> k.low == c.low)
            &&& (!s.upward ==> k.high == c.high)
        }),
        a.len() + b.len() + 2 <= usize::MAX,
    ensures
        bodies_rel(shaper_output(a + b), shaper_output(a.push(k) + b), k.ts),
{
    let s0 = init_model();
    let u0 = consume_all(s0, a);
    lemma_reachable(s0, a);
    let c = active_slot(u0).unwrap();
    assert(c.n <= u0.window_n());
    lemma_inclusion_absorbs(u0, k);
    let v0 = step_spec(u0, k);
    assert(bodies_rel(u0.body, v0.body, k.ts)) by {
        assert(v0.body == u0.body);
        assert(forall|i: int| 0 <= i < u0.body.len() ==> #[trigger] parting_rel(
            u0.body[i],
            u0.body[i],
            k.ts,
        ));
    }
    crate::parting::lemma_step_wf(u0, k);
    assert(states_rel(u0, v0, k.ts));

    // Both runs continue from these two related states.
    lemma_consume_all_append(s0, a, b);
    assert(consume_all(s0, a + b) == consume_all(u0, b));
    let ak = a.push(k);
    lemma_consume_all_append(s0, ak, b);
    assert(consume_all(s0, ak) == v0) by {
        lemma_consume_all_append(s0, a, seq![k]);
        assert(ak =~= a + seq![k]);
        assert(seq![k].len() == 1 && seq![k][0] == k);
        assert(seq![k].skip(1).len() == 0);
        assert(consume_all(u0, seq![k]) == consume_all(v0, seq![k].skip(1)));
    }
    assert(consume_all(s0, ak + b) == consume_all(v0, b));

    lemma_bisim_run(u0, v0, b, k.ts);
    let tu = consume_all(u0, b);
    let tv = consume_all(v0, b);

    // The flush emits on both sides or on neither, and emitted partings are
    // related like in-stream ones.
    assert(tu.third_k is Some <==> tv.third_k is Some);
    if tu.third_k is Some {
        let p = emit_spec(tu.first_k.unwrap(), tu.second_k.unwrap(), tu.third_k.unwrap(), tu.upward);
        let q = emit_spec(tv.first_k.unwrap(), tv.second_k.unwrap(), tv.third_k.unwrap(), tv.upward);
        assert(parting_rel(p, q, k.ts));
        lemma_bodies_rel_push(tu.body, tv.body, p, q, k.ts);
    }
}

/// End-of-stream flush correctness: when the series ends exactly at the
/// third candle of a forming fractal, that fractal is still emitted — the
/// output is everything emitted in-stream plus the parting built from the
/// final window by the same formula as an in-stream detection.
pub proof fn lemma_flush_emits(ks: Seq<K>)
    requires
        consume_all(init_model(), ks).third_k is Some,
    ensures
        ({
            let s = consume_all(init_model(), ks);
            shaper_output(ks) == s.body.push(
                emit_spec(s.first_k.unwrap(), s.second_k.unwrap(), s.third_k.unwrap(), s.upward),
            )
        }),
{
}

} // verus!


