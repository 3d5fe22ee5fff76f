//! Decision logic of the polling and notification loops: market hours,
//! incremental backfill control, and the three notification detectors.

use vstd::prelude::*;

use crate::codemap::spec_retained;
use crate::codemap::CodeMap;
use crate::model::MarketState;

verus! {

/// The poller only works on weekdays between eight in the morning and
/// five in the afternoon, local market time.
pub open spec fn spec_market_hours(weekday_from_monday: int, hour: int) -> bool {
    1 <= weekday_from_monday <= 5 && 8 <= hour < 17
}

pub fn is_market_hours(weekday_from_monday: u32, hour: u32) -> (r: bool)
    ensures
        r == spec_market_hours(weekday_from_monday as int, hour as int),
{
    1 <= weekday_from_monday && weekday_from_monday <= 5 && 8 <= hour && hour < 17
}

/// Backfill stops once the history holds this many ticks.
pub const BACKFILL_TARGET_LEN: u64 = 120;

/// Backfill rolls back at most this many dates.
pub const BACKFILL_MAX_JUMPS: u64 = 10;

/// A failed page fetch counts as this much progress, so the loop always
/// ends even when the source keeps failing.
pub const BACKFILL_ERROR_PENALTY: u64 = 10;

/// What one page fetch came back with: the pager's last-page flag and
/// the history length after feeding the page, or a fetch error.
#[derive(Debug, Clone, Copy, PartialEq, Eq, Structural)]
pub enum BackfillEvent {
    Page { is_last: bool, graph_len: u64 },
    Error,
}

/// Control state of the incremental backfill for one instrument: which
/// page of which rolled-back date to ask for next, and how much history
/// is believed present.
#[derive(Debug, Clone, Copy, PartialEq, Eq, Structural)]
pub struct BackfillState {
    /// History length last seen, plus any error penalties since.
    pub graph_len: u64,
    /// Page to request next, starting over at one on each date roll.
    pub page_num: u64,
    /// How many dates the backfill has rolled back so far; the date to
    /// fetch lies this many days before the starting date.
    pub date_jumps: u64,
}

impl BackfillState {
    /// Backfill is finished once enough history is present or the date
    /// rollbacks are exhausted.
    pub open spec fn spec_done(self) -> bool {
        self.graph_len >= BACKFILL_TARGET_LEN || self.date_jumps > BACKFILL_MAX_JUMPS
    }

    pub fn new() -> (r: Self)
        ensures
            r.graph_len == 0,
            r.page_num == 1,
            r.date_jumps == 0,
            !r.spec_done(),
    {
        BackfillState { graph_len: 0, page_num: 1, date_jumps: 0 }
    }

    pub fn done(&self) -> (r: bool)
        ensures
            r == self.spec_done(),
    {
        self.graph_len >= BACKFILL_TARGET_LEN || self.date_jumps > BACKFILL_MAX_JUMPS
    }

    /// A request made after the first of a cycle is preceded by a short
    /// fixed delay, to bound the request rate.
    pub fn needs_interpage_delay(&self) -> (r: bool)
        ensures
            r == (self.page_num > 1 || self.date_jumps > 0),
    {
        self.page_num > 1 || self.date_jumps > 0
    }

    /// Advance on one fetch outcome: a last page rolls the date back and
    /// restarts at page one; any other page moves to the next page; an
    /// error adds a fixed penalty to the believed length, so retrying
    /// cannot loop forever.
    pub fn step(&mut self, ev: BackfillEvent)
        requires
            !old(self).spec_done(),
            old(self).page_num < u64::MAX,
        ensures
            *final(self) == match ev {
                BackfillEvent::Page { is_last: true, graph_len } => (BackfillState {
                    graph_len,
                    page_num: 1,
                    date_jumps: (old(self).date_jumps + 1) as u64,
                }),
                BackfillEvent::Page { is_last: false, graph_len } => (BackfillState {
                    graph_len,
                    page_num: (old(self).page_num + 1) as u64,
                    date_jumps: old(self).date_jumps,
                }),
                BackfillEvent::Error => (BackfillState {
                    graph_len: (old(self).graph_len + BACKFILL_ERROR_PENALTY) as u64,
                    page_num: old(self).page_num,
                    date_jumps: old(self).date_jumps,
                }),
            },
    {
        match ev {
            BackfillEvent::Page { is_last, graph_len } => {
                self.graph_len = graph_len;
                if is_last {
                    self.page_num = 1;
                    self.date_jumps = self.date_jumps + 1;
                } else {
                    self.page_num = self.page_num + 1;
                }
            },
            BackfillEvent::Error => {
                self.graph_len = self.graph_len + BACKFILL_ERROR_PENALTY;
            },
        }
    }
}

/// Errors alone finish a backfill within a bounded number of steps: each
/// one adds its penalty to the believed length until the target is met.
pub proof fn lemma_backfill_error_progress(s: BackfillState)
    requires
        !s.spec_done(),
    ensures
        s.graph_len + BACKFILL_ERROR_PENALTY > s.graph_len,
        BACKFILL_TARGET_LEN - (s.graph_len + BACKFILL_ERROR_PENALTY) < BACKFILL_TARGET_LEN
            - s.graph_len,
{
}

/// Remembers the last session state seen per instrument and reports
/// transitions. The first observation of an instrument is recorded
/// silently.
pub struct StateChangeDetector {
    mem: CodeMap<MarketState>,
}

impl View for StateChangeDetector {
    type V = Map<Seq<char>, MarketState>;

    closed spec fn view(&self) -> Map<Seq<char>, MarketState> {
        self.mem@
    }
}

impl StateChangeDetector {
    pub closed spec fn wf(&self) -> bool {
        self.mem.wf()
    }

    pub fn new() -> (r: Self)
        ensures
            r.wf(),
            r@ == Map::<Seq<char>, MarketState>::empty(),
    {
        StateChangeDetector { mem: CodeMap::new() }
    }

    /// Record the state now seen; report whether it differs from the
    /// state remembered before.
    pub fn observe(&mut self, code: &str, state: MarketState) -> (changed: bool)
        requires
            old(self).wf(),
        ensures
            final(self).wf(),
            changed == (old(self)@.contains_key(code@) && old(self)@[code@] != state),
            final(self)@ == old(self)@.insert(code@, state),
    {
        let changed = match self.mem.get(code) {
            Some(prev) => *prev != state,
            None => false,
        };
        self.mem.insert(code, state);
        changed
    }

    /// Forget instruments that are no longer tracked.
    pub fn prune(&mut self, codes: &Vec<String>)
        requires
            old(self).wf(),
        ensures
            final(self).wf(),
            spec_retained(final(self)@, old(self)@, codes@),
    {
        self.mem.retain_codes(codes);
    }
}

/// Width of the hysteresis band, in hundredths of a percent: one
/// percentage point.
pub const RATE_RANGE_CENTI: i64 = 100;

/// Largest change rate the breakout detector accepts, in hundredths of a
/// percent.
pub const RATE_MAX_CENTI: i64 = 1_000_000;

/// Euclidean quotient of `a` by a positive divisor (rounds toward
/// negative infinity).
fn floor_div(a: i64, b: i64) -> (r: i64)
    requires
        b > 0,
        a > i64::MIN + b,
    ensures
        r == a as int / b as int,
{
    if a >= 0 {
        a / b
    } else {
        let m = -a;
        let t = (m + b - 1) / b;
        proof {
            let mi = m as int;
            let bi = b as int;
            let ti = t as int;
            vstd::arithmetic::div_mod::lemma_fundamental_div_mod(mi + bi - 1, bi);
            vstd::arithmetic::div_mod::lemma_mod_pos_bound(mi + bi - 1, bi);
            let rem = (mi + bi - 1) % bi;
            assert(a as int == (-ti) * bi + (bi - 1 - rem)) by (nonlinear_arith)
                requires
                    mi + bi - 1 == bi * ti + rem,
                    a as int == -mi,
            ;
            vstd::arithmetic::div_mod::lemma_fundamental_div_mod_converse(
                a as int,
                bi,
                -ti,
                bi - 1 - rem,
            );
        }
        -t
    }
}

/// The multiple of the band width nearest to `rate`. A rate exactly
/// halfway between two multiples rounds toward the lower one, so
/// recentring on a rate of two and a half band widths yields an upper
/// bound of three, not four — the tie-breaking the stated recentring
/// behaviour pins down.
pub open spec fn spec_nearest_step(rate: int) -> int {
    ((2 * rate + RATE_RANGE_CENTI - 1) / (2 * RATE_RANGE_CENTI)) * RATE_RANGE_CENTI
}

/// Upper bound of a hysteresis band centred near `rate`: the nearest
/// band-width multiple plus one band width.
pub open spec fn spec_band_upper(rate: int) -> int {
    spec_nearest_step(rate) + RATE_RANGE_CENTI
}

/// The nearest band-width multiple sits within half a band width of the
/// rate itself (the downward tie showing in the asymmetric bounds).
pub proof fn lemma_nearest_step_close(rate: int)
    ensures
        rate - 50 <= spec_nearest_step(rate) <= rate + 49,
{
    let n = 2 * rate + RATE_RANGE_CENTI - 1;
    let d = 2 * (RATE_RANGE_CENTI as int);
    vstd::arithmetic::div_mod::lemma_fundamental_div_mod(n, d);
    let q = n / d;
    let rem = n % d;
    assert(0 <= rem < d) by (nonlinear_arith)
        requires
            d > 0,
            rem == n % d,
    ;
    assert(n == d * q + rem);
    assert(2 * (q * 100) == d * q) by (nonlinear_arith)
        requires
            d == 200,
    ;
    assert(2 * (q * 100 - rate) == 99 - rem);
    assert(spec_nearest_step(rate) == q * 100);
}

/// Recentring the band on the rate that fired places that rate strictly
/// inside the new band, so observing the same rate again cannot fire.
pub proof fn lemma_recenter_no_refire(rate: int)
    ensures
        rate < spec_band_upper(rate),
        rate > spec_band_upper(rate) - 2 * RATE_RANGE_CENTI,
{
    lemma_nearest_step_close(rate);
}

/// Tracks, per equity, the session state last seen and the hysteresis
/// band in force, and decides when an abnormal change-rate move is
/// reported.
pub struct RateBreakoutDetector {
    states: CodeMap<MarketState>,
    limits: CodeMap<i64>,
}

impl RateBreakoutDetector {
    pub closed spec fn wf(&self) -> bool {
        &&& self.states.wf()
        &&& self.limits.wf()
        &&& forall|k: Seq<char>|
            self.limits@.contains_key(k) ==> -2 * RATE_MAX_CENTI <= #[trigger] self.limits@[k]
                <= 2 * RATE_MAX_CENTI
    }

    pub closed spec fn states_view(&self) -> Map<Seq<char>, MarketState> {
        self.states@
    }

    pub closed spec fn limits_view(&self) -> Map<Seq<char>, i64> {
        self.limits@
    }

    pub fn new() -> (r: Self)
        ensures
            r.wf(),
            r.states_view() == Map::<Seq<char>, MarketState>::empty(),
            r.limits_view() == Map::<Seq<char>, i64>::empty(),
    {
        RateBreakoutDetector { states: CodeMap::new(), limits: CodeMap::new() }
    }

    /// Feed one observation of an equity's session state and change rate
    /// (in hundredths of a percent). Returns the move from the band's
    /// midpoint when a breakout is to be reported, and nothing otherwise.
    ///
    /// A transition into the open session rebuilds the band around the
    /// current rate, as does the first open-session sighting of an
    /// instrument added mid-session; neither reports. Outside the open
    /// session nothing is checked. A rate on or beyond either edge of the
    /// band reports and recentres the band on that rate.
    pub fn observe(&mut self, code: &str, state: MarketState, rate_centi: i64) -> (fired: Option<
        i64,
    >)
        requires
            old(self).wf(),
            -RATE_MAX_CENTI <= rate_centi <= RATE_MAX_CENTI,
        ensures
            final(self).wf(),
            final(self).states_view() == old(self).states_view().insert(code@, state),
            ({
                let was = old(self).states_view();
                let to_open = was.contains_key(code@) && was[code@] != state && state
                    == MarketState::Open;
                let lim = old(self).limits_view();
                if state != MarketState::Open {
                    fired is None && final(self).limits_view() == lim
                } else if to_open || !lim.contains_key(code@) {
                    fired is None && final(self).limits_view() == lim.insert(
                        code@,
                        spec_band_upper(rate_centi as int) as i64,
                    )
                } else {
                    let upper = lim[code@];
                    if rate_centi >= upper || rate_centi <= upper - 2 * RATE_RANGE_CENTI {
                        fired matches Some(m) && m == rate_centi - (upper - RATE_RANGE_CENTI)
                            && final(self).limits_view() == lim.insert(
                            code@,
                            spec_band_upper(rate_centi as int) as i64,
                        )
                    } else {
                        fired is None && final(self).limits_view() == lim
                    }
                }
            }),
    {
        let to_open = match self.states.get(code) {
            Some(prev) => *prev != state && state == MarketState::Open,
            None => false,
        };
        self.states.insert(code, state);
        if state != MarketState::Open {
            proof {
                assert forall|k: Seq<char>| self.limits@.contains_key(k) implies -2
                    * RATE_MAX_CENTI <= #[trigger] self.limits@[k] <= 2 * RATE_MAX_CENTI by {
                    assert(self.limits@[k] == old(self).limits_view()[k]);
                }
            }
            return None;
        }
        proof {
            lemma_nearest_step_close(rate_centi as int);
        }
        let q = floor_div(2 * rate_centi + RATE_RANGE_CENTI - 1, 2 * RATE_RANGE_CENTI);
        proof {
            assert(q * RATE_RANGE_CENTI == spec_nearest_step(rate_centi as int));
        }
        let new_upper = q * RATE_RANGE_CENTI + RATE_RANGE_CENTI;
        if to_open {
            self.limits.insert(code, new_upper);
            proof {
                assert(-2 * RATE_MAX_CENTI <= new_upper <= 2 * RATE_MAX_CENTI);
                assert forall|k: Seq<char>| self.limits@.contains_key(k) implies -2
                    * RATE_MAX_CENTI <= #[trigger] self.limits@[k] <= 2 * RATE_MAX_CENTI by {
                    if k != code@ {
                        assert(self.limits@[k] == old(self).limits_view()[k]);
                    }
                }
            }
            return None;
        }
        let upper = match self.limits.get(code) {
            Some(u) => *u,
            None => {
                self.limits.insert(code, new_upper);
            proof {
                assert(-2 * RATE_MAX_CENTI <= new_upper <= 2 * RATE_MAX_CENTI);
                assert forall|k: Seq<char>| self.limits@.contains_key(k) implies -2
                    * RATE_MAX_CENTI <= #[trigger] self.limits@[k] <= 2 * RATE_MAX_CENTI by {
                    if k != code@ {
                        assert(self.limits@[k] == old(self).limits_view()[k]);
                    }
                }
            }
                return None;
            },
        };
        proof {
            assert(upper == old(self).limits_view()[code@]);
        }
        if rate_centi >= upper || rate_centi <= upper - 2 * RATE_RANGE_CENTI {
            self.limits.insert(code, new_upper);
            proof {
                assert(-2 * RATE_MAX_CENTI <= new_upper <= 2 * RATE_MAX_CENTI);
                assert forall|k: Seq<char>| self.limits@.contains_key(k) implies -2
                    * RATE_MAX_CENTI <= #[trigger] self.limits@[k] <= 2 * RATE_MAX_CENTI by {
                    if k != code@ {
                        assert(self.limits@[k] == old(self).limits_view()[k]);
                    }
                }
            }
            Some(rate_centi - (upper - RATE_RANGE_CENTI))
        } else {
            None
        }
    }

    /// Forget instruments that are no longer tracked.
    pub fn prune(&mut self, codes: &Vec<String>)
        requires
            old(self).wf(),
        ensures
            final(self).wf(),
            spec_retained(final(self).states_view(), old(self).states_view(), codes@),
            spec_retained(final(self).limits_view(), old(self).limits_view(), codes@),
    {
        self.states.retain_codes(codes);
        let ghost lim0 = self.limits@;
        self.limits.retain_codes(codes);
        proof {
            assert forall|k: Seq<char>| self.limits@.contains_key(k) implies -2
                * RATE_MAX_CENTI <= #[trigger] self.limits@[k] <= 2 * RATE_MAX_CENTI by {
                assert(self.limits@[k] == lim0[k]);
            }
        }
    }
}

/// A volume spike must top this absolute floor of delta volume.
pub const VOL_SPIKE_FLOOR: i64 = 3000;

/// Cooldown before an unimproved spike may be reported again, in
/// minutes.
pub const VOL_RENOTIFY_MINUTES: i64 = 10;

/// A spike: the latest delta volume tops the absolute floor and is more
/// than five times the trailing baseline (the mean of `base_sum` over
/// its twenty ticks), compared exactly as `4 * curr > base_sum`.
pub open spec fn spec_vol_spike(curr: int, base_sum: int) -> bool {
    curr > VOL_SPIKE_FLOOR && 4 * curr > base_sum
}

/// Magnitude of a spike, in thousandths of the baseline ratio. Against a
/// zero or negative baseline a spike counts as maximal.
pub open spec fn spec_vol_magnitude(curr: int, base_sum: int) -> int {
    if base_sum <= 0 {
        i128::MAX as int
    } else {
        20000 * curr / base_sum
    }
}

/// What the volume detector remembers of its last report for one
/// instrument: the tick stamp and the spike magnitude.
#[derive(Debug, Clone, Copy, PartialEq, Eq, Structural)]
pub struct VolNote {
    pub time: i64,
    pub mag: i128,
}

/// Largest tick stamp the volume detector accepts.
pub const VOL_MAX_TIME: i64 = 0x4000_0000_0000_0000;

/// Decides when an abnormal delta-volume move is reported, remembering
/// the stamp and magnitude last reported per instrument so an unchanged
/// tick is never reported twice.
pub struct VolumeSpikeDetector {
    mem: CodeMap<VolNote>,
}

impl View for VolumeSpikeDetector {
    type V = Map<Seq<char>, VolNote>;

    closed spec fn view(&self) -> Map<Seq<char>, VolNote> {
        self.mem@
    }
}

impl VolumeSpikeDetector {
    pub closed spec fn wf(&self) -> bool {
        &&& self.mem.wf()
        &&& forall|k: Seq<char>|
            self.mem@.contains_key(k) ==> -VOL_MAX_TIME < (#[trigger] self.mem@[k]).time
                < VOL_MAX_TIME
    }

    pub fn new() -> (r: Self)
        ensures
            r.wf(),
            r@ == Map::<Seq<char>, VolNote>::empty(),
    {
        VolumeSpikeDetector { mem: CodeMap::new() }
    }

    /// Feed the newest tick stamp, its delta volume, and the sum of the
    /// twenty preceding delta volumes. Returns whether to report: a spike
    /// at a fresh stamp, and only when it beats the magnitude last
    /// reported or at least the cooldown has elapsed since that report.
    pub fn observe(&mut self, code: &str, time: i64, curr: i64, base_sum: i128) -> (fire: bool)
        requires
            old(self).wf(),
            -VOL_MAX_TIME < time < VOL_MAX_TIME,
            -0x1_0000_0000_0000_0000_0000i128 < base_sum < 0x1_0000_0000_0000_0000_0000i128,
        ensures
            final(self).wf(),
            ({
                let spike = spec_vol_spike(curr as int, base_sum as int);
                let mag = spec_vol_magnitude(curr as int, base_sum as int);
                let prev = old(self)@;
                &&& fire == (spike && (!prev.contains_key(code@) || {
                    let n = prev[code@];
                    n.time != time && (mag > n.mag || time - n.time >= VOL_RENOTIFY_MINUTES)
                }))
                &&& fire ==> final(self)@ == prev.insert(
                    code@,
                    (VolNote { time, mag: mag as i128 }),
                )
                &&& !fire ==> final(self)@ == prev
            }),
    {
        if !(curr > VOL_SPIKE_FLOOR) {
            return false;
        }
        let curr_w = curr as i128;
        if !(4 * curr_w > base_sum) {
            return false;
        }
        let mag: i128 = if base_sum <= 0 {
            i128::MAX
        } else {
            proof {
                vstd::arithmetic::div_mod::lemma_fundamental_div_mod(
                    20000 * curr as int,
                    base_sum as int,
                );
            }
            (20000 * curr_w) / base_sum
        };
        let fire = match self.mem.get(code) {
            Some(n) => n.time != time && (mag > n.mag || time - n.time >= VOL_RENOTIFY_MINUTES),
            None => true,
        };
        if fire {
            self.mem.insert(code, VolNote { time, mag });
        }
        fire
    }

    /// Forget instruments that are no longer tracked.
    pub fn prune(&mut self, codes: &Vec<String>)
        requires
            old(self).wf(),
        ensures
            final(self).wf(),
            spec_retained(final(self)@, old(self)@, codes@),
    {
        self.mem.retain_codes(codes);
    }
}

} // verus!
