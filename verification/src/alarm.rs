//! One-shot price-threshold alarms and the crossing rule that fires them.

use vstd::prelude::*;

use crate::codemap::map_unchanged_except;
use crate::codemap::CodeMap;
use crate::seqtools::lemma_filter_membership;
use crate::seqtools::lemma_filter_sorted;
use crate::seqtools::lemma_filter_take_step;
use crate::seqtools::sorted_strict;

verus! {

/// Whether a threshold lies in the closed interval spanned by two
/// consecutive observed prices (touching either end counts).
pub open spec fn spec_crossed(prev: int, new: int, target: int) -> bool {
    (prev <= target && target <= new) || (new <= target && target <= prev)
}

/// Crossing rule for one-shot price alarms: `target` fires when it lies
/// within `[min(prev, new), max(prev, new)]`, covering upward moves,
/// downward moves, and the price landing exactly on the threshold.
pub fn crossed(prev: i64, new_value: i64, target: i64) -> (r: bool)
    ensures
        r == spec_crossed(prev as int, new_value as int, target as int),
{
    (prev <= target && target <= new_value) || (new_value <= target && target <= prev)
}

/// Per-instrument registry of one-shot price thresholds. Each instrument
/// maps to a strictly ascending, non-empty list of distinct thresholds;
/// an instrument's entry disappears when its last threshold goes.
pub struct StockAlarm {
    alarms: CodeMap<Vec<i64>>,
}

impl View for StockAlarm {
    type V = Map<Seq<char>, Seq<i64>>;

    closed spec fn view(&self) -> Map<Seq<char>, Seq<i64>> {
        Map::new(
            |k: Seq<char>| self.alarms@.contains_key(k),
            |k: Seq<char>| self.alarms@[k]@,
        )
    }
}

/// First position whose entry is at least `t` in an ascending list.
fn lower_bound(v: &Vec<i64>, t: i64) -> (r: usize)
    requires
        sorted_strict(v@),
    ensures
        r <= v@.len(),
        forall|j: int| 0 <= j < r ==> v@[j] < t,
        r < v@.len() ==> v@[r as int] >= t,
{
    let n = v.len();
    let mut i: usize = 0;
    while i < n
        invariant
            n == v@.len(),
            i <= n,
            forall|j: int| 0 <= j < i ==> v@[j] < t,
        decreases n - i,
    {
        if v[i] >= t {
            return i;
        }
        i += 1;
    }
    i
}

impl StockAlarm {
    /// Every threshold list is strictly ascending and non-empty.
    pub closed spec fn wf(&self) -> bool {
        &&& self.alarms.wf()
        &&& forall|k: Seq<char>|
            self.alarms@.contains_key(k) ==> sorted_strict(#[trigger] self.alarms@[k]@)
                && self.alarms@[k]@.len() > 0
    }

    pub fn new() -> (r: Self)
        ensures
            r.wf(),
            r@ == Map::<Seq<char>, Seq<i64>>::empty(),
    {
        let r = StockAlarm { alarms: CodeMap::new() };
        proof {
            assert(r@ =~= Map::<Seq<char>, Seq<i64>>::empty());
        }
        r
    }

    /// Add `target_value` to the instrument's thresholds; duplicates are
    /// dropped and the list stays strictly ascending. A first threshold
    /// creates the instrument's entry.
    pub fn set_alarm(&mut self, code: &str, target_value: i64)
        requires
            old(self).wf(),
        ensures
            final(self).wf(),
            final(self)@.contains_key(code@),
            sorted_strict(final(self)@[code@]),
            forall|t: i64|
                final(self)@[code@].contains(t) <==> (old(self)@.contains_key(code@) && old(
                    self,
                )@[code@].contains(t)) || t == target_value,
            final(self)@[code@].len() == if !old(self)@.contains_key(code@) {
                1int
            } else if old(self)@[code@].contains(target_value) {
                old(self)@[code@].len() as int
            } else {
                old(self)@[code@].len() + 1int
            },
            map_unchanged_except(final(self)@, old(self)@, code@),
    {
        let mut fresh = false;
        match self.alarms.get_mut(code) {
            Some(v) => {
                let p = lower_bound(v, target_value);
                if p < v.len() && v[p] == target_value {
                    // already present: leave the list as it is
                } else {
                    proof {
                        if v@.contains(target_value) {
                            let w = choose|w: int|
                                0 <= w < v@.len() && v@[w] == target_value;
                            assert(false);
                        }
                    }
                    v.insert(p, target_value);
                    proof {
                        let s0 = old(self)@[code@];
                        let s1 = v@;
                        assert(s1 =~= s0.take(p as int).push(target_value) + s0.skip(p as int));
                        assert forall|i: int, j: int| 0 <= i < j < s1.len() implies s1[i]
                            < s1[j] by {
                            if i < p && j > p {
                                assert(s0[i] < target_value);
                                assert(s0[j - 1] >= target_value);
                            } else if i == p && j > p {
                                assert(s0[j - 1] >= target_value);
                            } else if i < p && j == p {
                                assert(s0[i] < target_value);
                            } else if j < p {
                                assert(s0[i] < s0[j]);
                            } else {
                                assert(s0[i - 1] < s0[j - 1]);
                            }
                        }
                        assert forall|t: i64| s1.contains(t) implies s0.contains(t) || t
                            == target_value by {
                            let w = choose|w: int| 0 <= w < s1.len() && s1[w] == t;
                            if w < p {
                                assert(s0[w] == t);
                            } else if w > p {
                                assert(s0[w - 1] == t);
                            }
                        }
                        assert forall|t: i64| s0.contains(t) implies s1.contains(t) by {
                            let w = choose|w: int| 0 <= w < s0.len() && s0[w] == t;
                            if w < p {
                                assert(s1[w] == t);
                            } else {
                                assert(s1[w + 1] == t);
                            }
                        }
                        assert(s1.contains(target_value)) by {
                            assert(s1[p as int] == target_value);
                        }
                    }
                }
            },
            None => {
                fresh = true;
            },
        }
        if fresh {
            let mut v: Vec<i64> = Vec::new();
            v.push(target_value);
            proof {
                assert(v@ =~= seq![target_value]);
            }
            self.alarms.insert(code, v);
            proof {
                assert forall|t: i64| final(self)@[code@].contains(t) implies t
                    == target_value by {
                    let w = choose|w: int|
                        0 <= w < final(self)@[code@].len() && final(self)@[code@][w] == t;
                }
                assert(final(self)@[code@].contains(target_value)) by {
                    assert(final(self)@[code@][0] == target_value);
                }
            }
        }
    }

    /// Remove `target_value` from the instrument's thresholds. Returns
    /// whether it was present; removing the last threshold deletes the
    /// instrument's entry, and removing an absent one changes nothing.
    pub fn remove_alarm(&mut self, code: &str, target_value: i64) -> (removed: bool)
        requires
            old(self).wf(),
        ensures
            final(self).wf(),
            removed == (old(self)@.contains_key(code@) && old(self)@[code@].contains(
                target_value,
            )),
            !removed ==> final(self)@ == old(self)@,
            removed ==> map_unchanged_except(final(self)@, old(self)@, code@),
            removed && old(self)@[code@].len() == 1 ==> !final(self)@.contains_key(code@),
            removed && old(self)@[code@].len() > 1 ==> final(self)@.contains_key(code@)
                && sorted_strict(final(self)@[code@]) && final(self)@[code@].len() == old(
                self,
            )@[code@].len() - 1 && (forall|t: i64|
                final(self)@[code@].contains(t) <==> old(self)@[code@].contains(t) && t
                    != target_value),
    {
        let mut hit = false;
        let mut now_empty = false;
        match self.alarms.get_mut(code) {
            Some(v) => {
                let p = lower_bound(v, target_value);
                if p < v.len() && v[p] == target_value {
                    proof {
                        assert(old(self)@[code@].contains(target_value)) by {
                            assert(old(self)@[code@][p as int] == target_value);
                        }
                    }
                    v.remove(p);
                    hit = true;
                    now_empty = v.len() == 0;
                    proof {
                        let s0 = old(self)@[code@];
                        let s1 = v@;
                        assert(s1 =~= s0.take(p as int) + s0.skip(p as int + 1));
                        assert forall|i: int, j: int| 0 <= i < j < s1.len() implies s1[i]
                            < s1[j] by {
                            let i0 = if i < p { i } else { i + 1 };
                            let j0 = if j < p { j } else { j + 1 };
                            assert(s0[i0] < s0[j0]);
                        }
                        assert forall|t: i64| s1.contains(t) implies s0.contains(t) && t
                            != target_value by {
                            let w = choose|w: int| 0 <= w < s1.len() && s1[w] == t;
                            let w0 = if w < p { w } else { w + 1 };
                            assert(s0[w0] == t);
                            if w0 < p {
                                assert(s0[w0] < s0[p as int]);
                            } else if w0 > p {
                                assert(s0[p as int] < s0[w0]);
                            }
                        }
                        assert forall|t: i64| s0.contains(t) && t != target_value implies
                            s1.contains(t) by {
                            let w = choose|w: int| 0 <= w < s0.len() && s0[w] == t;
                            if w < p {
                                assert(s1[w] == t);
                            } else {
                                assert(w != p);
                                assert(s1[w - 1] == t);
                            }
                        }
                    }
                } else {
                    proof {
                        let s0 = old(self)@[code@];
                        if s0.contains(target_value) {
                            let w = choose|w: int|
                                0 <= w < s0.len() && s0[w] == target_value;
                            assert(false);
                        }
                    }
                }
            },
            None => {},
        }
        if hit && now_empty {
            self.alarms.remove(code);
        }
        proof {
            if !hit {
                assert(final(self)@ =~= old(self)@);
            }
        }
        hit
    }

    /// Remove and return, in ascending order, every threshold that the
    /// move from `prev` to `new_value` crosses. The check and the removal
    /// form one step, so a threshold can fire at most once.
    pub fn take_crossed(&mut self, code: &str, prev: i64, new_value: i64) -> (fired: Vec<i64>)
        requires
            old(self).wf(),
        ensures
            final(self).wf(),
            !old(self)@.contains_key(code@) ==> fired@ == Seq::<i64>::empty() && final(self)@
                == old(self)@,
            old(self)@.contains_key(code@) ==> fired@ == old(self)@[code@].filter(
                |t: i64| spec_crossed(prev as int, new_value as int, t as int),
            ),
            old(self)@.contains_key(code@) ==> map_unchanged_except(
                final(self)@,
                old(self)@,
                code@,
            ),
            old(self)@.contains_key(code@) ==> {
                let kept = old(self)@[code@].filter(
                    |t: i64| !spec_crossed(prev as int, new_value as int, t as int),
                );
                if kept.len() == 0 {
                    !final(self)@.contains_key(code@)
                } else {
                    final(self)@.contains_key(code@) && final(self)@[code@] == kept
                }
            },
    {
        let ghost cross = |t: i64| spec_crossed(prev as int, new_value as int, t as int);
        let ghost keep = |t: i64| !spec_crossed(prev as int, new_value as int, t as int);
        let mut fired: Vec<i64> = Vec::new();
        let mut kept: Vec<i64> = Vec::new();
        let mut present = false;
        match self.alarms.get(code) {
            Some(v) => {
                present = true;
                let n = v.len();
                let mut i: usize = 0;
                proof {
                    assert(v@.take(0).filter(cross) =~= Seq::<i64>::empty()) by {
                        reveal(Seq::filter);
                        assert(v@.take(0) =~= Seq::<i64>::empty());
                    }
                    assert(v@.take(0).filter(keep) =~= Seq::<i64>::empty()) by {
                        reveal(Seq::filter);
                        assert(v@.take(0) =~= Seq::<i64>::empty());
                    }
                }
                while i < n
                    invariant
                        n == v@.len(),
                        i <= n,
                        fired@ == v@.take(i as int).filter(cross),
                        kept@ == v@.take(i as int).filter(keep),
                        cross == (|t: i64| spec_crossed(
                            prev as int,
                            new_value as int,
                            t as int,
                        )),
                        keep == (|t: i64| !spec_crossed(
                            prev as int,
                            new_value as int,
                            t as int,
                        )),
                    decreases n - i,
                {
                    proof {
                        lemma_filter_take_step(v@, cross, i as int);
                        lemma_filter_take_step(v@, keep, i as int);
                    }
                    let t = v[i];
                    if crossed(prev, new_value, t) {
                        fired.push(t);
                    } else {
                        kept.push(t);
                    }
                    i += 1;
                }
                proof {
                    assert(v@.take(n as int) =~= v@);
                }
            },
            None => {},
        }
        if !present {
            return fired;
        }
        proof {
            lemma_filter_sorted(old(self)@[code@], keep);
        }
        if kept.len() == 0 {
            self.alarms.remove(code);
        } else {
            self.alarms.insert(code, kept);
        }
        fired
    }

    /// All instrument codes that currently have thresholds.
    pub fn codes(&self) -> (r: Vec<String>)
        requires
            self.wf(),
        ensures
            r@.len() == self@.dom().len(),
            forall|i: int| 0 <= i < r@.len() ==> self@.contains_key(#[trigger] r@[i]@),
            forall|i: int, j: int| 0 <= i < j < r@.len() ==> r@[i]@ != r@[j]@,
            forall|k: Seq<char>| self@.contains_key(k) ==> exists|i: int|
                0 <= i < r@.len() && #[trigger] r@[i]@ == k,
    {
        proof {
            assert(self@.dom() =~= self.alarms@.dom());
        }
        self.alarms.codes()
    }

    /// The ascending thresholds of one instrument, if any are set.
    pub fn get_alarms(&self, code: &str) -> (r: Option<&Vec<i64>>)
        requires
            self.wf(),
        ensures
            match r {
                Some(v) => self@.contains_key(code@) && v@ == self@[code@],
                None => !self@.contains_key(code@),
            },
    {
        self.alarms.get(code)
    }
}

/// One-shot law: once the thresholds crossed by a move are removed, an
/// identical move crosses nothing that remains.
pub proof fn lemma_alarm_fires_once(s: Seq<i64>, prev: i64, new_value: i64)
    ensures
        s.filter(|t: i64| !spec_crossed(prev as int, new_value as int, t as int)).filter(
            |t: i64| spec_crossed(prev as int, new_value as int, t as int),
        ) == Seq::<i64>::empty(),
{
    let keep = |t: i64| !spec_crossed(prev as int, new_value as int, t as int);
    let cross = |t: i64| spec_crossed(prev as int, new_value as int, t as int);
    let kept = s.filter(keep);
    broadcast use vstd::seq_lib::group_filter_ensures;

    assert forall|i: int| 0 <= i < kept.len() implies !cross(#[trigger] kept[i]) by {
        assert(keep(kept[i]));
    }
    if kept.filter(cross).len() > 0 {
        assert(cross(kept.filter(cross)[0]));
        crate::seqtools::lemma_filter_membership(kept, cross, kept.filter(cross)[0]);
        let w = choose|w: int| 0 <= w < kept.len() && kept[w] == kept.filter(cross)[0];
        assert(!cross(kept[w]));
    }
    assert(kept.filter(cross) =~= Seq::<i64>::empty());
}

} // verus!
