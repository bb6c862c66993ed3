//! The parting shaper: a single-pass state machine that merges inclusive
//! neighboring candles under the running trend direction and emits a
//! `Parting` whenever a merged triple forms a local extremum.
//!
//! The executable shaper is specified against a mathematical model: the
//! spec functions below restate the whole transition system over plain
//! values, and every method's contract ties the executable state to that
//! model exactly.

use vstd::prelude::*;

use crate::error::Error;
use crate::shape::{K, CK, Parting};

verus! {

// ---------------------------------------------------------------------------
// The mathematical model of the shaper
// ---------------------------------------------------------------------------

/// The abstract state of the shaper: the sliding window of up to three
/// merged candles (oldest to newest, a later slot is only filled when the
/// earlier ones are), the running trend direction, and the partings emitted
/// so far.
#[verifier::ext_equal]
pub struct ShaperModel {
    pub first_k: Option<CK>,
    pub second_k: Option<CK>,
    pub third_k: Option<CK>,
    pub upward: bool,
    pub body: Seq<Parting>,
}

impl ShaperModel {
    /// The window is filled from the front: a later slot implies the
    /// earlier ones. Every state reachable from `init_model` satisfies this.
    pub open spec fn wf(self) -> bool {
        &&& self.second_k is Some ==> self.first_k is Some
        &&& self.third_k is Some ==> self.second_k is Some
    }

    /// Total number of raw candles currently held by the window.
    pub open spec fn window_n(self) -> int {
        opt_n(self.first_k) + opt_n(self.second_k) + opt_n(self.third_k)
    }
}

/// The window slot an incoming candle is compared against for a merge:
/// the newest filled slot, or nothing while the window is empty.
pub open spec fn active_slot(s: ShaperModel) -> Option<CK> {
    if s.first_k is None {
        Option::None
    } else if s.second_k is None {
        s.first_k
    } else if s.third_k is None {
        s.second_k
    } else {
        s.third_k
    }
}

/// Candle count of an optional window slot.
pub open spec fn opt_n(c: Option<CK>) -> int {
    match c {
        Option::Some(ck) => ck.n as int,
        Option::None => 0,
    }
}

/// The state a fresh shaper starts from: an empty window, an empty output,
/// and an upward working direction.
pub open spec fn init_model() -> ShaperModel {
    ShaperModel {
        first_k: Option::None,
        second_k: Option::None,
        third_k: Option::None,
        upward: true,
        body: Seq::empty(),
    }
}

/// A raw candle seen as the trivial merged candle: a one-candle group whose
/// span and extremum all sit at the candle's own timestamp.
pub open spec fn k_to_ck_spec(k: K) -> CK {
    CK { start_ts: k.ts, end_ts: k.ts, extremum_ts: k.ts, high: k.high, low: k.low, n: 1 }
}

/// The merged candle `k1` fully contains the raw candle `k2` (bounds count,
/// so equal ranges contain each other).
pub open spec fn ck_contains_k(k1: CK, k2: K) -> bool {
    k1.high >= k2.high && k1.low <= k2.low
}

/// The raw candle `k2` fully contains the merged candle `k1`.
pub open spec fn k_contains_ck(k1: CK, k2: K) -> bool {
    k2.high >= k1.high && k2.low <= k1.low
}

/// The high bound of the merge: under an upward trend the larger of the two
/// highs, under a downward trend the smaller.
pub open spec fn merged_high(k1: CK, k2: K, upward: bool) -> i64 {
    if upward {
        if k1.high > k2.high { k1.high } else { k2.high }
    } else {
        if k1.high < k2.high { k1.high } else { k2.high }
    }
}

/// The low bound of the merge, symmetric to `merged_high`.
pub open spec fn merged_low(k1: CK, k2: K, upward: bool) -> i64 {
    if upward {
        if k1.low > k2.low { k1.low } else { k2.low }
    } else {
        if k1.low < k2.low { k1.low } else { k2.low }
    }
}

/// What merging an inclusive neighbor produces: `None` when neither range
/// contains the other, otherwise the merged candle. When `k1` contains `k2`
/// the established extremum stands; when only `k2` contains `k1` the
/// incoming candle's bounds dominate and its timestamp becomes the extremum.
pub open spec fn inclusive_spec(k1: CK, k2: K, upward: bool) -> Option<CK> {
    if ck_contains_k(k1, k2) || k_contains_ck(k1, k2) {
        Option::Some(
            CK {
                start_ts: k1.start_ts,
                end_ts: k2.ts,
                extremum_ts: if ck_contains_k(k1, k2) { k1.extremum_ts } else { k2.ts },
                high: merged_high(k1, k2, upward),
                low: merged_low(k1, k2, upward),
                n: (k1.n + 1) as usize,
            },
        )
    } else {
        Option::None
    }
}

/// The parting built from a completed window, under the direction that was
/// active while the window formed: its extremum price is the middle candle's
/// low on an upward window (a bottom-turned-top run just reversed downward,
/// so the detection is a bottom exactly when the flag still points up).
pub open spec fn emit_spec(k1: CK, k2: CK, k3: CK, upward: bool) -> Parting {
    Parting {
        start_ts: k1.start_ts,
        end_ts: k3.end_ts,
        extremum_ts: k2.extremum_ts,
        extremum_price: if upward { k2.low } else { k2.high },
        n: (k1.n + k2.n + k3.n) as usize,
        top: !upward,
    }
}

/// One transition of the state machine on an incoming raw candle.
pub open spec fn step_spec(s: ShaperModel, k: K) -> ShaperModel {
    if s.first_k is None {
        ShaperModel { first_k: Option::Some(k_to_ck_spec(k)), ..s }
    } else {
        let k1 = s.first_k.unwrap();
        if s.second_k is None {
            match inclusive_spec(k1, k, s.upward) {
                Option::None => ShaperModel {
                    upward: k.high > k1.high,
                    second_k: Option::Some(k_to_ck_spec(k)),
                    ..s
                },
                Option::Some(ck) => ShaperModel { first_k: Option::Some(ck), ..s },
            }
        } else {
            let k2 = s.second_k.unwrap();
            if s.third_k is None {
                if inclusive_spec(k2, k, s.upward) is Some {
                    ShaperModel { second_k: inclusive_spec(k2, k, s.upward), ..s }
                } else if (s.upward && k.low < k2.low) || (!s.upward && k.high > k2.high) {
                    ShaperModel {
                        third_k: Option::Some(k_to_ck_spec(k)),
                        upward: !s.upward,
                        ..s
                    }
                } else {
                    ShaperModel {
                        first_k: s.second_k,
                        second_k: Option::Some(k_to_ck_spec(k)),
                        ..s
                    }
                }
            } else {
                let k3 = s.third_k.unwrap();
                if inclusive_spec(k3, k, s.upward) is Some {
                    ShaperModel { third_k: inclusive_spec(k3, k, s.upward), ..s }
                } else {
                    let body = s.body.push(emit_spec(k1, k2, k3, s.upward));
                    if (s.upward && k.low < k3.low) || (!s.upward && k.high > k3.high) {
                        ShaperModel {
                            first_k: s.second_k,
                            second_k: s.third_k,
                            third_k: Option::Some(k_to_ck_spec(k)),
                            upward: !s.upward,
                            body,
                        }
                    } else {
                        ShaperModel {
                            first_k: s.third_k,
                            second_k: Option::Some(k_to_ck_spec(k)),
                            third_k: Option::None,
                            upward: k.high > k3.high,
                            body,
                        }
                    }
                }
            }
        }
    }
}

/// The state after feeding a whole sequence of candles, front to back.
pub open spec fn consume_all(s: ShaperModel, ks: Seq<K>) -> ShaperModel
    decreases ks.len(),
{
    if ks.len() == 0 {
        s
    } else {
        consume_all(step_spec(s, ks[0]), ks.skip(1))
    }
}

/// The end-of-stream flush: a still-filled third slot is itself a completed
/// fractal, emitted with the same formula as an in-stream detection; the two
/// newest window candles are retained for an incremental continuation.
pub open spec fn flush_spec(s: ShaperModel) -> ShaperModel {
    if s.third_k is Some {
        let k1 = s.first_k.unwrap();
        let k2 = s.second_k.unwrap();
        let k3 = s.third_k.unwrap();
        ShaperModel {
            first_k: s.second_k,
            second_k: s.third_k,
            third_k: Option::None,
            upward: s.upward,
            body: s.body.push(emit_spec(k1, k2, k3, s.upward)),
        }
    } else {
        s
    }
}

/// The parting sequence produced for a candle sequence: feed every candle
/// through the transition, then flush.
pub open spec fn shaper_output(ks: Seq<K>) -> Seq<Parting> {
    flush_spec(consume_all(init_model(), ks)).body
}

// ---------------------------------------------------------------------------
// Basic facts about the transition
// ---------------------------------------------------------------------------

/// One transition keeps the window filled from the front.
pub proof fn lemma_step_wf(s: ShaperModel, k: K)
    requires
        s.wf(),
    ensures
        step_spec(s, k).wf(),
{
}

/// One transition grows the window by at most one raw candle.
pub proof fn lemma_step_window_n(s: ShaperModel, k: K)
    requires
        s.window_n() + 1 <= usize::MAX,
    ensures
        step_spec(s, k).window_n() <= s.window_n() + 1,
        0 <= step_spec(s, k).window_n(),
{
}

// ---------------------------------------------------------------------------
// The executable shaper
// ---------------------------------------------------------------------------

/// Tuning knobs of the shaper. The single flag is reserved; the algorithm
/// does not read it yet.
#[derive(Debug, Clone)]
pub struct PartingConfig {
    pub inclusive_k: bool,
}

impl Default for PartingConfig {
    /// The default configuration leaves the reserved flag off.
    fn default() -> (c: Self)
        ensures
            c == (PartingConfig { inclusive_k: false }),
    {
        PartingConfig { inclusive_k: false }
    }
}

/// The parting shaper: holds the candle series to analyze and the sliding
/// window of up to three merged candles plus the running trend direction.
pub struct PartingShaper<'k> {
    ks: &'k [K],
    body: Vec<Parting>,
    first_k: Option<CK>,
    second_k: Option<CK>,
    third_k: Option<CK>,
    upward: bool,
    #[allow(dead_code)]
    cfg: PartingConfig,
}

impl<'k> View for PartingShaper<'k> {
    type V = ShaperModel;

    closed spec fn view(&self) -> ShaperModel {
        ShaperModel {
            first_k: self.first_k,
            second_k: self.second_k,
            third_k: self.third_k,
            upward: self.upward,
            body: self.body@,
        }
    }
}

impl<'k> PartingShaper<'k> {
    /// The candle series this shaper was created over.
    pub closed spec fn ks_spec(&self) -> Seq<K> {
        self.ks@
    }

    /// A fresh shaper over the given candle series: empty window, empty
    /// output, upward working direction.
    pub fn new(ks: &'k [K], cfg: PartingConfig) -> (s: Self)
        ensures
            s@ == init_model(),
            s.ks_spec() == ks@,
    {
        let s = PartingShaper {
            ks,
            body: Vec::new(),
            first_k: Option::None,
            second_k: Option::None,
            third_k: Option::None,
            upward: true,
            cfg,
        };
        proof {
            assert(s@ =~= init_model());
        }
        s
    }

    /// Helper: turn a single raw candle into the trivial merged candle.
    #[inline]
    pub fn k_to_ck(k: K) -> (ck: CK)
        ensures
            ck == k_to_ck_spec(k),
    {
        CK { start_ts: k.ts, end_ts: k.ts, extremum_ts: k.ts, high: k.high, low: k.low, n: 1 }
    }

    /// Helper: decide whether the incoming raw candle `k2` stands in an
    /// inclusive relationship with the merged candle `k1` under the given
    /// direction, and return the merge when it does.
    pub fn inclusive_neighbor_k(k1: &CK, k2: &K, upward: bool) -> (r: Option<CK>)
        requires
            k1.n < usize::MAX,
        ensures
            r == inclusive_spec(*k1, *k2, upward),
    {
        let extremum_ts: i64 = if k1.high >= k2.high && k1.low <= k2.low {
            k1.extremum_ts
        } else if k2.high >= k1.high && k2.low <= k1.low {
            k2.ts
        } else {
            return Option::None;
        };

        let start_ts = k1.start_ts;
        let end_ts = k2.ts;
        let n: usize = k1.n + 1;

        let (high, low) = if upward {
            (
                if k1.high > k2.high { k1.high } else { k2.high },
                if k1.low > k2.low { k1.low } else { k2.low },
            )
        } else {
            (
                if k1.high < k2.high { k1.high } else { k2.high },
                if k1.low < k2.low { k1.low } else { k2.low },
            )
        };
        Option::Some(CK { start_ts, end_ts, extremum_ts, high, low, n })
    }

    /// Feed one candle through the state machine; the new state is exactly
    /// one model transition from the old one.
    pub fn consume(&mut self, k: K)
        requires
            old(self)@.window_n() + 1 <= usize::MAX,
        ensures
            final(self)@ == step_spec(old(self)@, k),
            final(self).ks_spec() == old(self).ks_spec(),
    {
        // First slot still empty.
        if self.first_k.is_none() {
            self.first_k = Option::Some(Self::k_to_ck(k));
            return;
        }
        let k1 = self.first_k.unwrap();

        // Second slot still empty: try to merge into the first.
        if self.second_k.is_none() {
            let ck = Self::inclusive_neighbor_k(&k1, &k, self.upward);
            if ck.is_none() {
                // The first genuine breakout fixes the direction.
                self.upward = k.high > k1.high;
                self.second_k = Option::Some(Self::k_to_ck(k));
            } else {
                self.first_k = ck;
            }
            return;
        }
        let k2 = self.second_k.unwrap();

        // Third slot still empty: try to merge into the second.
        if self.third_k.is_none() {
            let ck = Self::inclusive_neighbor_k(&k2, &k, self.upward);
            if ck.is_some() {
                self.second_k = ck;
                return;
            }
            // An extremum candidate forms when the candle breaks the middle
            // candle against the trend; the direction flips.
            if (self.upward && k.low < k2.low) || (!self.upward && k.high > k2.high) {
                self.third_k = Option::Some(Self::k_to_ck(k));
                self.upward = !self.upward;
                return;
            }
            // No fractal yet: shift the window left by one.
            self.first_k = self.second_k;
            self.second_k = Option::Some(Self::k_to_ck(k));
            return;
        }
        let k3 = self.third_k.unwrap();

        // Full window: try to merge into the third.
        let ck = Self::inclusive_neighbor_k(&k3, &k, self.upward);
        if ck.is_some() {
            self.third_k = ck;
            return;
        }

        // No merge: the triple is a completed fractal.
        let parting = Parting {
            start_ts: k1.start_ts,
            end_ts: k3.end_ts,
            extremum_ts: k2.extremum_ts,
            extremum_price: if self.upward { k2.low } else { k2.high },
            n: k1.n + k2.n + k3.n,
            top: !self.upward,
        };
        self.body.push(parting);

        // The arriving candle already continues the next fractal: shift by
        // one and flip the direction again.
        if (self.upward && k.low < k3.low) || (!self.upward && k.high > k3.high) {
            self.first_k = self.second_k;
            self.second_k = self.third_k;
            self.third_k = Option::Some(Self::k_to_ck(k));
            self.upward = !self.upward;
            return;
        }

        // Otherwise start fresh from the last two candles: shift by two and
        // re-derive the direction.
        self.upward = k.high > k3.high;
        self.first_k = self.third_k;
        self.second_k = Option::Some(Self::k_to_ck(k));
        self.third_k = Option::None;
    }

    /// Feed the whole series through the machine, then flush: the result is
    /// exactly the model's output for this series from this state.
    pub fn run(self) -> (r: Result<Vec<Parting>, Error>)
        requires
            self@.wf(),
            self@.window_n() >= 0,
            self@.window_n() + self.ks_spec().len() <= usize::MAX,
        ensures
            r matches Ok(pts) && pts@ == flush_spec(consume_all(self@, self.ks_spec())).body,
    {
        let ghost s0 = self@;
        let ghost ks0 = self.ks_spec();
        let mut this = self;
        let ks = this.ks;
        let n: usize = ks.len();
        let mut i: usize = 0;
        while i < n
            invariant
                0 <= i <= n,
                n == ks@.len(),
                ks@ == ks0,
                this.ks_spec() == ks0,
                this@ == consume_all(s0, ks0.take(i as int)),
                this@.wf(),
                s0.window_n() >= 0,
                this@.window_n() <= s0.window_n() + i,
                s0.window_n() + ks0.len() <= usize::MAX,
            decreases n - i,
        {
            let ghost pre = this@;
            this.consume(ks[i]);
            proof {
                lemma_step_wf(pre, ks0[i as int]);
                lemma_step_window_n(pre, ks0[i as int]);
                lemma_consume_all_snoc(s0, ks0, i as int);
                assert(this@ == consume_all(s0, ks0.take(i as int + 1)));
            }
            i = i + 1;
        }
        proof {
            assert(ks0.take(n as int) =~= ks0);
        }

        // End-of-stream flush: a still-filled third slot is a completed
        // fractal of its own.
        if this.third_k.is_some() {
            let k1 = this.first_k.unwrap();
            let k2 = this.second_k.unwrap();
            let k3 = this.third_k.unwrap();

            let parting = Parting {
                start_ts: k1.start_ts,
                end_ts: k3.end_ts,
                extremum_ts: k2.extremum_ts,
                extremum_price: if this.upward { k2.low } else { k2.high },
                n: k1.n + k2.n + k3.n,
                top: !this.upward,
            };
            this.body.push(parting);
            // Retain the two newest window candles for a continuation.
            this.first_k = Option::Some(k2);
            this.second_k = Option::Some(k3);
            this.third_k = Option::None;
        }
        Ok(this.body)
    }
}

/// `consume_all` takes prefixes one transition at a time.
pub proof fn lemma_consume_all_snoc(s: ShaperModel, ks: Seq<K>, i: int)
    requires
        0 <= i < ks.len(),
    ensures
        consume_all(s, ks.take(i + 1)) == step_spec(consume_all(s, ks.take(i)), ks[i]),
    decreases i,
{
    if i == 0 {
        assert(ks.take(0) =~= Seq::<K>::empty());
        assert(consume_all(s, ks.take(0)) == s);
        let t = ks.take(1);
        assert(t.len() == 1 && t[0] == ks[0]);
        assert(t.skip(1) =~= Seq::<K>::empty());
        assert(consume_all(s, t) == consume_all(step_spec(s, ks[0]), t.skip(1)));
        assert(consume_all(step_spec(s, ks[0]), t.skip(1)) == step_spec(s, ks[0]));
    } else {
        let s1 = step_spec(s, ks[0]);
        let rest = ks.skip(1);
        lemma_consume_all_snoc(s1, rest, i - 1);
        let a = ks.take(i + 1);
        assert(a.len() == i + 1 && a[0] == ks[0]);
        assert(a.skip(1) =~= rest.take(i));
        assert(consume_all(s, a) == consume_all(s1, a.skip(1)));
        assert(consume_all(s1, a.skip(1)) == consume_all(s1, rest.take(i)));
        let b = ks.take(i);
        assert(b.len() == i && b[0] == ks[0]);
        assert(b.skip(1) =~= rest.take(i - 1));
        assert(consume_all(s, b) == consume_all(s1, b.skip(1)));
        assert(consume_all(s1, b.skip(1)) == consume_all(s1, rest.take(i - 1)));
        assert(rest[i - 1] == ks[i]);
        let j: int = i - 1;
        assert(consume_all(s1, rest.take(i)) == step_spec(consume_all(s1, rest.take(j)), rest[j]));
    }
}

/// Feeding a concatenation is feeding the parts one after the other.
pub proof fn lemma_consume_all_append(s: ShaperModel, a: Seq<K>, b: Seq<K>)
    ensures
        consume_all(s, a + b) == consume_all(consume_all(s, a), b),
    decreases a.len(),
{
    if a.len() == 0 {
        assert(a + b =~= b);
    } else {
        assert((a + b).len() > 0);
        assert((a + b)[0] == a[0]);
        assert((a + b).skip(1) =~= a.skip(1) + b);
        lemma_consume_all_append(step_spec(s, a[0]), a.skip(1), b);
    }
}

/// Parse a candle series into its parting sequence: the single public entry
/// point, a total function whose result is exactly the model's output.
pub fn ks_to_pts(ks: &[K]) -> (r: Result<Vec<Parting>, Error>)
    ensures
        r matches Ok(pts) && pts@ == shaper_output(ks@),
{
    let n: usize = ks.len();
    let shaper = PartingShaper::new(ks, PartingConfig::default());
    proof {
        assert(shaper@.window_n() == 0);
        assert(ks@.len() == n);
    }
    shaper.run()
}

} // verus!
