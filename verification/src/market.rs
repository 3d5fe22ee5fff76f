//! The tracked-instrument registry and the bounded tick history kept for
//! each instrument.

use vstd::prelude::*;

use crate::codemap::map_unchanged_except;
use crate::codemap::CodeMap;
use crate::model::Index;
use crate::model::IndexQuote;
use crate::model::IndexQuotePage;
use crate::model::MarketState;
use crate::model::Stock;
use crate::model::StockQuote;
use crate::model::StockQuotePage;
use crate::parse::parse_hhmm;
use crate::parse::spec_parse_hhmm;

verus! {

/// Kind of a tracked instrument.
#[derive(Debug, Clone, Copy, PartialEq, Eq, Structural)]
pub enum ShareKind {
    Index,
    Stock,
}

/// One timestamped sample of a tick history. Times live on a single
/// minute-resolution timeline (day number times 1440 plus the minute of
/// the day).
#[derive(Debug, Clone, Copy, PartialEq, Eq, Structural)]
pub struct Quote {
    pub time: i64,
    pub value: i64,
    pub trading_volume: i64,
    pub trading_vol_move: i64,
}

/// Most ticks one instrument's history keeps.
pub const MAX_QUOTES: usize = 1024;

pub open spec fn times_ascending(s: Seq<Quote>) -> bool {
    forall|i: int, j: int| 0 <= i < j < s.len() ==> s[i].time < s[j].time
}

pub open spec fn has_time(s: Seq<Quote>, t: i64) -> bool {
    exists|i: int| 0 <= i < s.len() && s[i].time == t
}

/// Insert `q` at its place in time order; a tick with the same stamp is
/// replaced in place.
pub open spec fn seq_upsert(s: Seq<Quote>, q: Quote) -> Seq<Quote>
    decreases s.len(),
{
    if s.len() == 0 {
        seq![q]
    } else if s.last().time < q.time {
        s.push(q)
    } else if s.last().time == q.time {
        s.drop_last().push(q)
    } else {
        seq_upsert(s.drop_last(), q).push(s.last())
    }
}

/// A history update: upsert, then evict the oldest tick if the capacity
/// is exceeded.
pub open spec fn spec_graph_update(s: Seq<Quote>, q: Quote) -> Seq<Quote> {
    let u = seq_upsert(s, q);
    if u.len() > MAX_QUOTES {
        u.skip(1)
    } else {
        u
    }
}

/// What one upsert does to a time-ordered history: order and distinctness
/// of stamps are kept, the stamps afterwards are the old stamps plus the
/// new one, the new stamp holds exactly the given tick, every other tick
/// was already there, and the length grows only when the stamp is new.
pub proof fn lemma_seq_upsert_props(s: Seq<Quote>, q: Quote)
    requires
        times_ascending(s),
    ensures
        times_ascending(seq_upsert(s, q)),
        forall|t: i64| has_time(seq_upsert(s, q), t) <==> has_time(s, t) || t == q.time,
        seq_upsert(s, q).len() == if has_time(s, q.time) {
            s.len() as int
        } else {
            s.len() + 1int
        },
        forall|i: int|
            0 <= i < seq_upsert(s, q).len() ==> if (#[trigger] seq_upsert(s, q)[i]).time
                == q.time {
                seq_upsert(s, q)[i] == q
            } else {
                s.contains(seq_upsert(s, q)[i])
            },
    decreases s.len(),
{
    let u = seq_upsert(s, q);
    if s.len() == 0 {
        assert(u =~= seq![q]);
        assert forall|t: i64| has_time(u, t) implies t == q.time by {
            let i = choose|i: int| 0 <= i < u.len() && u[i].time == t;
        }
        assert(has_time(u, q.time)) by {
            assert(u[0].time == q.time);
        }
    } else if s.last().time < q.time {
        assert(u =~= s.push(q));
        assert forall|i: int| 0 <= i < s.len() implies (#[trigger] s[i]).time < q.time by {
            if i < s.len() - 1 {
                assert(s[i].time < s[s.len() - 1].time);
            }
        }
        assert forall|t: i64| has_time(u, t) implies has_time(s, t) || t == q.time by {
            let i = choose|i: int| 0 <= i < u.len() && u[i].time == t;
            if i < s.len() {
                assert(s[i].time == t);
            }
        }
        assert forall|t: i64| has_time(s, t) implies has_time(u, t) by {
            let i = choose|i: int| 0 <= i < s.len() && s[i].time == t;
            assert(u[i].time == t);
        }
        assert(has_time(u, q.time)) by {
            assert(u[s.len() as int].time == q.time);
        }
        if has_time(s, q.time) {
            let i = choose|i: int| 0 <= i < s.len() && s[i].time == q.time;
            assert(false);
        }
        assert forall|i: int| 0 <= i < u.len() && u[i].time != q.time implies s.contains(
            u[i],
        ) by {
            if i < s.len() {
                assert(u[i] == s[i]);
            }
        }
    } else if s.last().time == q.time {
        assert(u =~= s.drop_last().push(q));
        assert forall|i: int| 0 <= i < s.len() - 1 implies (#[trigger] s[i]).time
            < q.time by {
            assert(s[i].time < s[s.len() - 1].time);
        }
        assert(has_time(s, q.time)) by {
            assert(s[s.len() - 1].time == q.time);
        }
        assert forall|t: i64| has_time(u, t) implies has_time(s, t) || t == q.time by {
            let i = choose|i: int| 0 <= i < u.len() && u[i].time == t;
            if i < s.len() - 1 {
                assert(s[i].time == t);
            }
        }
        assert forall|t: i64| has_time(s, t) implies has_time(u, t) by {
            let i = choose|i: int| 0 <= i < s.len() && s[i].time == t;
            if i < s.len() - 1 {
                assert(u[i].time == t);
            } else {
                assert(u[u.len() - 1].time == q.time);
            }
        }
        assert forall|i: int| 0 <= i < u.len() && u[i].time != q.time implies s.contains(
            u[i],
        ) by {
            if i < s.len() - 1 {
                assert(u[i] == s[i]);
            }
        }
    } else {
        assert(times_ascending(s.drop_last()));
        lemma_seq_upsert_props(s.drop_last(), q);
        let w = seq_upsert(s.drop_last(), q);
        assert(u =~= w.push(s.last()));
        assert forall|i: int| 0 <= i < w.len() implies (#[trigger] w[i]).time < s.last().time by {
            if w[i].time == q.time {
            } else {
                assert(s.drop_last().contains(w[i]));
                let j = choose|j: int|
                    0 <= j < s.drop_last().len() && s.drop_last()[j] == w[i];
                assert(s[j].time < s[s.len() - 1].time);
            }
        }
        assert(times_ascending(u)) by {
            assert forall|i: int, j: int| 0 <= i < j < u.len() implies u[i].time
                < u[j].time by {
                if j < w.len() {
                    assert(w[i].time < w[j].time);
                }
            }
        }
        assert forall|t: i64| has_time(u, t) implies has_time(s, t) || t == q.time by {
            let i = choose|i: int| 0 <= i < u.len() && u[i].time == t;
            if i < w.len() {
                assert(has_time(w, t));
                if has_time(s.drop_last(), t) {
                    let j = choose|j: int|
                        0 <= j < s.drop_last().len() && s.drop_last()[j].time == t;
                    assert(s[j].time == t);
                }
            } else {
                assert(s[s.len() - 1].time == t);
            }
        }
        assert forall|t: i64| has_time(s, t) implies has_time(u, t) by {
            let i = choose|i: int| 0 <= i < s.len() && s[i].time == t;
            if i < s.len() - 1 {
                assert(s.drop_last()[i].time == t);
                assert(has_time(s.drop_last(), t));
                assert(has_time(w, t));
                let j = choose|j: int| 0 <= j < w.len() && w[j].time == t;
                assert(u[j].time == t);
            } else {
                assert(u[u.len() - 1].time == t);
            }
        }
        assert(has_time(u, q.time)) by {
            assert(has_time(w, q.time));
            let j = choose|j: int| 0 <= j < w.len() && w[j].time == q.time;
            assert(u[j].time == q.time);
        }
        assert(u.len() == w.len() + 1);
        if has_time(s, q.time) {
            let i = choose|i: int| 0 <= i < s.len() && s[i].time == q.time;
            assert(i < s.len() - 1);
            assert(s.drop_last()[i].time == q.time);
            assert(has_time(s.drop_last(), q.time));
        } else {
            if has_time(s.drop_last(), q.time) {
                let i = choose|i: int|
                    0 <= i < s.drop_last().len() && s.drop_last()[i].time == q.time;
                assert(s[i].time == q.time);
            }
        }
        assert forall|i: int| 0 <= i < u.len() && u[i].time != q.time implies s.contains(
            u[i],
        ) by {
            if i < w.len() {
                assert(s.drop_last().contains(w[i]));
                let j = choose|j: int|
                    0 <= j < s.drop_last().len() && s.drop_last()[j] == w[i];
                assert(s[j] == u[i]);
            } else {
                assert(u[i] == s[s.len() - 1]);
            }
        }
    }
}

/// Replacing an existing stamp: the history is the old one with that
/// tick overwritten.
proof fn lemma_upsert_replace(s: Seq<Quote>, q: Quote, i: int)
    requires
        times_ascending(s),
        0 <= i < s.len(),
        s[i].time == q.time,
    ensures
        seq_upsert(s, q) == s.update(i, q),
    decreases s.len(),
{
    if i == s.len() - 1 {
        assert(seq_upsert(s, q) =~= s.update(i, q));
    } else {
        assert(s[i].time < s[s.len() - 1].time);
        assert(times_ascending(s.drop_last()));
        assert(s.drop_last()[i].time == q.time);
        lemma_upsert_replace(s.drop_last(), q, i);
        assert(seq_upsert(s, q) =~= s.update(i, q));
    }
}

/// Inserting a new stamp at the boundary position `p`.
proof fn lemma_upsert_insert(s: Seq<Quote>, q: Quote, p: int)
    requires
        times_ascending(s),
        0 <= p <= s.len(),
        forall|j: int| 0 <= j < p ==> s[j].time < q.time,
        forall|j: int| p <= j < s.len() ==> s[j].time > q.time,
    ensures
        seq_upsert(s, q) == s.take(p).push(q) + s.skip(p),
    decreases s.len(),
{
    if s.len() == 0 {
        assert(seq_upsert(s, q) =~= s.take(p).push(q) + s.skip(p));
    } else if s.last().time < q.time {
        assert(p == s.len()) by {
            if p < s.len() {
                assert(s[s.len() - 1].time > q.time);
            }
        }
        assert(seq_upsert(s, q) =~= s.take(p).push(q) + s.skip(p));
    } else {
        assert(s.last().time != q.time) by {
            if p <= s.len() - 1 {
                assert(s[s.len() - 1].time > q.time);
            } else {
                assert(s[s.len() - 1].time < q.time);
            }
        }
        assert(p <= s.len() - 1) by {
            if p == s.len() {
                assert(s[s.len() - 1].time < q.time);
            }
        }
        assert(times_ascending(s.drop_last()));
        lemma_upsert_insert(s.drop_last(), q, p);
        assert(s.drop_last().take(p) =~= s.take(p));
        assert(seq_upsert(s, q) =~= s.take(p).push(q) + s.skip(p));
    }
}

/// Updating the history never disturbs the order or the distinctness of
/// its stamps, whatever order ticks arrive in.
pub proof fn lemma_graph_update_ascending(s: Seq<Quote>, q: Quote)
    requires
        times_ascending(s),
    ensures
        times_ascending(spec_graph_update(s, q)),
{
    lemma_seq_upsert_props(s, q);
    let u = seq_upsert(s, q);
    if u.len() > MAX_QUOTES {
        assert forall|i: int, j: int| 0 <= i < j < u.skip(1).len() implies u.skip(1)[i].time
            < u.skip(1)[j].time by {
            assert(u[i + 1].time < u[j + 1].time);
        }
    }
}

/// Re-sending a tick for a stamp already stored replaces that tick in
/// place and leaves the length unchanged.
pub proof fn lemma_graph_update_replaces(s: Seq<Quote>, q: Quote)
    requires
        times_ascending(s),
        s.len() <= MAX_QUOTES,
        has_time(s, q.time),
    ensures
        spec_graph_update(s, q).len() == s.len(),
        forall|i: int|
            0 <= i < s.len() ==> #[trigger] spec_graph_update(s, q)[i] == if s[i].time
                == q.time {
                q
            } else {
                s[i]
            },
{
    lemma_seq_upsert_props(s, q);
    let i = choose|i: int| 0 <= i < s.len() && s[i].time == q.time;
    lemma_upsert_replace(s, q, i);
    assert forall|j: int| 0 <= j < s.len() && s[j].time == q.time implies j == i by {
        if j < i {
            assert(s[j].time < s[i].time);
        } else if j > i {
            assert(s[i].time < s[j].time);
        }
    }
}

/// In a time-ordered history, a stamp picks out at most one tick.
proof fn lemma_ascending_time_unique(g: Seq<Quote>, i: int, j: int)
    requires
        times_ascending(g),
        0 <= i < g.len(),
        0 <= j < g.len(),
        g[i].time == g[j].time,
    ensures
        i == j,
{
    if i < j {
        assert(g[i].time < g[j].time);
    }
    if j < i {
        assert(g[j].time < g[i].time);
    }
}

/// A tick already stored, re-sent unchanged, changes nothing: re-feeding
/// data the history already holds is idempotent tick by tick.
pub proof fn lemma_graph_update_same_tick(s: Seq<Quote>, q: Quote)
    requires
        times_ascending(s),
        s.len() <= MAX_QUOTES,
        s.contains(q),
    ensures
        spec_graph_update(s, q) == s,
{
    let i = choose|i: int| 0 <= i < s.len() && s[i] == q;
    lemma_upsert_replace(s, q, i);
    assert(seq_upsert(s, q) =~= s);
}

/// Whether all stamps in a run of ticks are pairwise distinct.
pub open spec fn distinct_times(ticks: Seq<Quote>) -> bool {
    forall|i: int, j: int| 0 <= i < j < ticks.len() ==> ticks[i].time != ticks[j].time
}

/// A history built from nothing by upserting a run of ticks in order.
pub open spec fn spec_graph_of(ticks: Seq<Quote>) -> Seq<Quote>
    decreases ticks.len(),
{
    if ticks.len() == 0 {
        Seq::empty()
    } else {
        spec_graph_update(spec_graph_of(ticks.drop_last()), ticks.last())
    }
}

/// Ticks with pairwise distinct stamps, fed in any order, build a
/// strictly time-ordered history of the most recent ones: within
/// capacity every tick is present; beyond it exactly the newest
/// `MAX_QUOTES` remain, everything missing being older than everything
/// kept.
pub proof fn lemma_graph_of_keeps_most_recent(ticks: Seq<Quote>)
    requires
        distinct_times(ticks),
    ensures
        times_ascending(spec_graph_of(ticks)),
        spec_graph_of(ticks).len() == if ticks.len() <= MAX_QUOTES {
            ticks.len() as int
        } else {
            MAX_QUOTES as int
        },
        forall|i: int|
            0 <= i < spec_graph_of(ticks).len() ==> ticks.contains(
                #[trigger] spec_graph_of(ticks)[i],
            ),
        ticks.len() <= MAX_QUOTES ==> forall|j: int|
            0 <= j < ticks.len() ==> spec_graph_of(ticks).contains(#[trigger] ticks[j]),
        forall|j: int|
            0 <= j < ticks.len() ==> spec_graph_of(ticks).contains(#[trigger] ticks[j]) || (
            spec_graph_of(ticks).len() > 0 && ticks[j].time < spec_graph_of(ticks)[0].time),
    decreases ticks.len(),
{
    let n = ticks.len() as int;
    if n == 0 {
        return ;
    }
    let pre = ticks.drop_last();
    let q = ticks.last();
    assert(distinct_times(pre)) by {
        assert forall|i: int, j: int| 0 <= i < j < pre.len() implies pre[i].time
            != pre[j].time by {
            assert(ticks[i].time != ticks[j].time);
        }
    }
    lemma_graph_of_keeps_most_recent(pre);
    let g = spec_graph_of(pre);
    let gn = spec_graph_of(ticks);
    assert(gn == spec_graph_update(g, q));

    // the new stamp does not occur in the history built so far
    assert(!has_time(g, q.time)) by {
        if has_time(g, q.time) {
            let i = choose|i: int| 0 <= i < g.len() && g[i].time == q.time;
            assert(pre.contains(g[i]));
            let w = choose|w: int| 0 <= w < pre.len() && pre[w] == g[i];
            assert(ticks[w].time == ticks[n - 1].time);
        }
    }
    lemma_seq_upsert_props(g, q);
    let u = seq_upsert(g, q);
    assert(u.len() == g.len() + 1);

    // everything stored keeps its place in the upsert result
    assert forall|x: Quote| g.contains(x) implies u.contains(x) by {
        let i = choose|i: int| 0 <= i < g.len() && g[i] == x;
        assert(has_time(g, x.time)) by {
            assert(g[i].time == x.time);
        }
        assert(has_time(u, x.time));
        let k = choose|k: int| 0 <= k < u.len() && u[k].time == x.time;
        assert(u[k].time != q.time);
        assert(g.contains(u[k]));
        let j = choose|j: int| 0 <= j < g.len() && g[j] == u[k];
        lemma_ascending_time_unique(g, i, j);
        assert(u[k] == x);
    }
    assert(u.contains(q)) by {
        assert(has_time(u, q.time));
        let k = choose|k: int| 0 <= k < u.len() && u[k].time == q.time;
        assert(u[k] == q);
    }
    // every tick of the upsert result comes from the feed
    assert forall|k: int| 0 <= k < u.len() implies ticks.contains(#[trigger] u[k]) by {
        if u[k].time == q.time {
            assert(u[k] == q);
            assert(ticks[n - 1] == q);
        } else {
            assert(g.contains(u[k]));
            let w = choose|w: int| 0 <= w < pre.len() && pre[w] == u[k];
            assert(ticks[w] == u[k]);
        }
    }
    // a stored tick's stamp is never below the front
    assert forall|y: Quote| g.contains(y) implies y.time >= g[0].time by {
        let w = choose|w: int| 0 <= w < g.len() && g[w] == y;
        if w > 0 {
            assert(g[0].time < g[w].time);
        }
    }

    if g.len() < MAX_QUOTES {
        assert(gn == u);
        // the history so far held every earlier tick
        assert(pre.len() == g.len()) by {
            if pre.len() > MAX_QUOTES {
                assert(g.len() == MAX_QUOTES as int);
            }
        }
        assert forall|j: int| 0 <= j < n implies gn.contains(#[trigger] ticks[j]) by {
            if j == n - 1 {
                assert(u.contains(q));
            } else {
                assert(pre.len() <= MAX_QUOTES);
                assert(gn.contains(ticks[j])) by {
                    assert(g.contains(pre[j]));
                    assert(u.contains(pre[j]));
                    assert(pre[j] == ticks[j]);
                }
            }
        }
    } else {
        assert(g.len() == MAX_QUOTES as int);
        assert(u.len() > MAX_QUOTES);
        assert(gn == u.skip(1));
        assert(pre.len() >= MAX_QUOTES) by {
            if pre.len() < MAX_QUOTES {
                assert(g.len() == pre.len());
            }
        }
        assert(times_ascending(gn)) by {
            assert forall|i: int, j: int| 0 <= i < j < gn.len() implies gn[i].time
                < gn[j].time by {
                assert(u[i + 1].time < u[j + 1].time);
            }
        }
        assert forall|i: int| 0 <= i < gn.len() implies ticks.contains(
            #[trigger] gn[i],
        ) by {
            assert(gn[i] == u[i + 1]);
        }
        // the second-smallest stamp of the upsert result is at least the
        // old front: at most one tick (the new one) can sit below it
        assert(u[1].time >= g[0].time) by {
            if u[1].time < g[0].time {
                assert(u[0].time < u[1].time);
                assert(u[0].time != q.time || u[1].time != q.time);
                if u[0].time != q.time {
                    assert(g.contains(u[0]));
                    assert(u[0].time >= g[0].time);
                } else {
                    assert(u[1].time != q.time);
                    assert(g.contains(u[1]));
                    assert(u[1].time >= g[0].time);
                }
            }
        }
        assert forall|j: int| 0 <= j < n implies gn.contains(#[trigger] ticks[j]) || (
        gn.len() > 0 && ticks[j].time < gn[0].time) by {
            let x = ticks[j];
            let in_u = j == n - 1 || g.contains(x);
            if j < n - 1 && !g.contains(x) {
                // an earlier tick already pushed out is older than the old
                // front, and so older than the new one
                assert(pre[j] == x);
                assert(x.time < g[0].time);
                assert(gn[0] == u[1]);
                assert(x.time < gn[0].time);
            } else {
                assert(u.contains(x)) by {
                    if j == n - 1 {
                        assert(x == q);
                    }
                }
                let k = choose|k: int| 0 <= k < u.len() && u[k] == x;
                if k == 0 {
                    assert(x.time < u[1].time);
                    assert(gn[0] == u[1]);
                } else {
                    assert(gn[k - 1] == u[k]);
                    assert(gn.contains(x));
                }
            }
        }
    }
}

/// One more tick than the capacity, all stamps distinct, keeps exactly
/// the most recent `MAX_QUOTES`: whatever is missing is older than
/// everything kept.
pub proof fn lemma_graph_of_capacity(ticks: Seq<Quote>)
    requires
        distinct_times(ticks),
        ticks.len() == MAX_QUOTES + 1,
    ensures
        spec_graph_of(ticks).len() == MAX_QUOTES,
        forall|j: int, k: int|
            0 <= j < ticks.len() && 0 <= k < ticks.len() && !spec_graph_of(ticks).contains(
                #[trigger] ticks[j],
            ) && spec_graph_of(ticks).contains(#[trigger] ticks[k]) ==> ticks[j].time
                < ticks[k].time,
{
    lemma_graph_of_keeps_most_recent(ticks);
    let g = spec_graph_of(ticks);
    assert forall|j: int, k: int|
        0 <= j < ticks.len() && 0 <= k < ticks.len() && !g.contains(#[trigger] ticks[j])
            && g.contains(#[trigger] ticks[k]) implies ticks[j].time < ticks[k].time by {
        assert(ticks[j].time < g[0].time);
        let w = choose|w: int| 0 <= w < g.len() && g[w] == ticks[k];
        if w > 0 {
            assert(g[0].time < g[w].time);
        }
    }
}

/// A tick newer than everything stored, sent to a full history, evicts
/// exactly the oldest tick: the most recent `MAX_QUOTES` ticks remain.
pub proof fn lemma_graph_update_evicts_oldest(s: Seq<Quote>, q: Quote)
    requires
        times_ascending(s),
        s.len() == MAX_QUOTES,
        forall|i: int| 0 <= i < s.len() ==> (#[trigger] s[i]).time < q.time,
    ensures
        spec_graph_update(s, q) == s.skip(1).push(q),
{
    lemma_upsert_insert(s, q, s.len() as int);
    assert(seq_upsert(s, q) =~= s.push(q));
    assert(spec_graph_update(s, q) =~= s.skip(1).push(q));
}

/// Sum of the volume deltas of a run of ticks.
pub open spec fn sum_vol_moves(s: Seq<Quote>) -> int
    decreases s.len(),
{
    if s.len() == 0 {
        0
    } else {
        sum_vol_moves(s.drop_last()) + s.last().trading_vol_move
    }
}

proof fn lemma_sum_vol_moves_bound(s: Seq<Quote>)
    ensures
        -(s.len() * 0x8000_0000_0000_0000) <= sum_vol_moves(s) <= s.len()
            * 0x8000_0000_0000_0000,
    decreases s.len(),
{
    if s.len() > 0 {
        lemma_sum_vol_moves_bound(s.drop_last());
    }
}

/// First position whose stamp is at least `t` in a time-ordered history.
fn quote_lower_bound(v: &Vec<Quote>, t: i64) -> (r: usize)
    requires
        times_ascending(v@),
    ensures
        r <= v@.len(),
        forall|j: int| 0 <= j < r ==> v@[j].time < t,
        r < v@.len() ==> v@[r as int].time >= t,
{
    let n = v.len();
    let mut i: usize = 0;
    while i < n
        invariant
            n == v@.len(),
            i <= n,
            forall|j: int| 0 <= j < i ==> v@[j].time < t,
        decreases n - i,
    {
        if v[i].time >= t {
            return i;
        }
        i += 1;
    }
    i
}

/// Bounded, time-ordered tick history of one instrument.
#[derive(Debug, Clone)]
pub struct Graph {
    quotes: Vec<Quote>,
}

impl View for Graph {
    type V = Seq<Quote>;

    closed spec fn view(&self) -> Seq<Quote> {
        self.quotes@
    }
}

impl Graph {
    /// Stamps strictly ascending, length within capacity.
    pub open spec fn wf(&self) -> bool {
        times_ascending(self@) && self@.len() <= MAX_QUOTES
    }

    pub fn new() -> (r: Self)
        ensures
            r.wf(),
            r@ == Seq::<Quote>::empty(),
    {
        Graph { quotes: Vec::new() }
    }

    pub fn len(&self) -> (r: usize)
        ensures
            r == self@.len(),
    {
        self.quotes.len()
    }

    /// The stored tick at one position, oldest first.
    pub fn quote_at(&self, i: usize) -> (r: Quote)
        requires
            i < self@.len(),
        ensures
            r == self@[i as int],
    {
        self.quotes[i]
    }

    /// The newest stamp, if any tick is stored.
    pub fn latest_time(&self) -> (r: Option<i64>)
        ensures
            self@.len() == 0 ==> r is None,
            self@.len() > 0 ==> (r matches Some(t) && t == self@.last().time),
    {
        if self.quotes.len() == 0 {
            None
        } else {
            Some(self.quotes[self.quotes.len() - 1].time)
        }
    }

    /// Upsert one tick, evicting the oldest if the capacity overflows.
    pub fn update(&mut self, q: Quote)
        requires
            old(self).wf(),
        ensures
            final(self).wf(),
            final(self)@ == spec_graph_update(old(self)@, q),
    {
        let n = self.quotes.len();
        let p = quote_lower_bound(&self.quotes, q.time);
        proof {
            lemma_seq_upsert_props(old(self)@, q);
        }
        if p < n && self.quotes[p].time == q.time {
            proof {
                lemma_upsert_replace(old(self)@, q, p as int);
            }
            self.quotes[p] = q;
            proof {
                assert(self.quotes@ =~= old(self)@.update(p as int, q));
            }
        } else {
            proof {
                assert forall|j: int| p <= j < n implies old(self)@[j].time > q.time by {
                    assert(old(self)@[p as int].time >= q.time);
                    assert(old(self)@[p as int].time != q.time);
                    if j > p {
                        assert(old(self)@[p as int].time < old(self)@[j].time);
                    }
                }
                lemma_upsert_insert(old(self)@, q, p as int);
            }
            self.quotes.insert(p, q);
            proof {
                assert(self.quotes@ =~= old(self)@.take(p as int).push(q) + old(self)@.skip(
                    p as int,
                ));
            }
            if self.quotes.len() > MAX_QUOTES {
                self.quotes.remove(0);
                proof {
                    assert(self.quotes@ =~= seq_upsert(old(self)@, q).skip(1));
                }
            }
        }
    }

    /// Sum of the volume deltas of the `cnt` ticks that start `offset`
    /// positions back from the most recent. The window's mean is this sum
    /// over `cnt`. Empty windows and windows reaching past the stored
    /// history give nothing.
    pub fn sum_trading_vol_move(&self, offset: usize, cnt: usize) -> (r: Option<i128>)
        requires
            self.wf(),
        ensures
            (cnt == 0 || self@.len() < offset + cnt) ==> r is None,
            (cnt > 0 && self@.len() >= offset + cnt) ==> (r matches Some(v) && v
                == sum_vol_moves(
                self@.subrange(
                    self@.len() - offset - cnt,
                    self@.len() - offset,
                ),
            )),
    {
        let n = self.quotes.len();
        if cnt == 0 || n < offset || n - offset < cnt {
            return None;
        }
        let lo = n - offset - cnt;
        let hi = n - offset;
        let ghost win = self@.subrange(lo as int, hi as int);
        let mut acc: i128 = 0;
        let mut k: usize = lo;
        proof {
            assert(win.subrange(0, 0) =~= Seq::<Quote>::empty());
        }
        while k < hi
            invariant
                lo <= k <= hi,
                hi <= n == self.quotes@.len(),
                win == self@.subrange(lo as int, hi as int),
                win.len() == hi - lo,
                acc == sum_vol_moves(win.subrange(0, k - lo)),
                -((k - lo) * 0x8000_0000_0000_0000) <= acc <= (k - lo)
                    * 0x8000_0000_0000_0000,
            decreases hi - k,
        {
            proof {
                assert(win.subrange(0, k - lo + 1).drop_last() =~= win.subrange(0, k - lo));
                assert(win.subrange(0, k - lo + 1).last() == win[k - lo]);
                assert(win[k - lo] == self.quotes@[k as int]);
            }
            acc = acc + self.quotes[k].trading_vol_move as i128;
            k += 1;
        }
        proof {
            assert(win.subrange(0, hi - lo) =~= win);
        }
        Some(acc)
    }
}

/// One equity table row fed into a history: a row whose clock reading
/// does not parse is skipped; the rest land on `day`'s minute timeline.
pub open spec fn spec_feed_stock_one(g: Seq<Quote>, sq: StockQuote, day: int) -> Seq<Quote> {
    match spec_parse_hhmm(sq.time@) {
        Some(m) => spec_graph_update(
            g,
            (Quote {
                time: (day * 1440 + m) as i64,
                value: sq.value,
                trading_volume: sq.trading_volume,
                trading_vol_move: sq.trading_vol_move,
            }),
        ),
        None => g,
    }
}

/// A whole equity page fed into a history, rows in table order.
pub open spec fn spec_feed_stock(g: Seq<Quote>, quotes: Seq<StockQuote>, day: int) -> Seq<Quote>
    decreases quotes.len(),
{
    if quotes.len() == 0 {
        g
    } else {
        spec_feed_stock_one(spec_feed_stock(g, quotes.drop_last(), day), quotes.last(), day)
    }
}

/// One index table row fed into a history, as for equities.
pub open spec fn spec_feed_index_one(g: Seq<Quote>, iq: IndexQuote, day: int) -> Seq<Quote> {
    match spec_parse_hhmm(iq.time@) {
        Some(m) => spec_graph_update(
            g,
            (Quote {
                time: (day * 1440 + m) as i64,
                value: iq.value,
                trading_volume: iq.trading_volume,
                trading_vol_move: iq.trading_vol_move,
            }),
        ),
        None => g,
    }
}

/// A whole index page fed into a history, rows in table order.
pub open spec fn spec_feed_index(g: Seq<Quote>, quotes: Seq<IndexQuote>, day: int) -> Seq<Quote>
    decreases quotes.len(),
{
    if quotes.len() == 0 {
        g
    } else {
        spec_feed_index_one(spec_feed_index(g, quotes.drop_last(), day), quotes.last(), day)
    }
}

/// Everything the registry knows of one tracked instrument: the latest
/// snapshot fields plus its tick history. The change rate is in
/// hundredths of a percent.
#[derive(Debug, Clone)]
pub struct Share {
    pub kind: ShareKind,
    pub name: String,
    pub state: MarketState,
    pub value: i64,
    pub change_value: i64,
    pub change_rate: i64,
    pub trading_volume: i64,
    pub graph: Graph,
}

/// Shared registry of tracked instruments, keyed by code.
pub struct Market {
    shares: CodeMap<Share>,
}

impl View for Market {
    type V = Map<Seq<char>, Share>;

    closed spec fn view(&self) -> Map<Seq<char>, Share> {
        self.shares@
    }
}

/// The snapshot fields of `s` hold an index snapshot `x`, while the kind
/// and the tick history keep the given values.
pub open spec fn index_applied(
    s: Share,
    code: Seq<char>,
    x: Index,
    kind: ShareKind,
    graph: Seq<Quote>,
) -> bool {
    &&& s.kind == kind
    &&& s.name@ == code
    &&& s.state == x.state
    &&& s.value == x.now_value
    &&& s.change_value == x.change_value
    &&& s.change_rate == x.change_rate
    &&& s.trading_volume == x.trading_volume
    &&& s.graph@ == graph
}

/// The snapshot fields of `s` hold a signed equity snapshot, while the
/// kind and the tick history keep the given values.
pub open spec fn stock_applied(
    s: Share,
    x: Stock,
    change_value: int,
    change_rate: int,
    kind: ShareKind,
    graph: Seq<Quote>,
) -> bool {
    &&& s.kind == kind
    &&& s.name@ == x.name@
    &&& s.state == x.state
    &&& s.value == x.now_value
    &&& s.change_value as int == change_value
    &&& s.change_rate as int == change_rate
    &&& s.trading_volume == x.trading_volume
    &&& s.graph@ == graph
}

impl Market {
    /// Every stored tick history is well-formed.
    pub closed spec fn wf(&self) -> bool {
        &&& self.shares.wf()
        &&& forall|k: Seq<char>|
            self.shares@.contains_key(k) ==> (#[trigger] self.shares@[k]).graph.wf()
    }

    pub fn new() -> (r: Self)
        ensures
            r.wf(),
            r@ == Map::<Seq<char>, Share>::empty(),
    {
        Market { shares: CodeMap::new() }
    }

    /// All tracked codes.
    pub fn share_codes(&self) -> (r: Vec<String>)
        requires
            self.wf(),
        ensures
            r@.len() == self@.dom().len(),
            forall|i: int| 0 <= i < r@.len() ==> self@.contains_key(#[trigger] r@[i]@),
            forall|i: int, j: int| 0 <= i < j < r@.len() ==> r@[i]@ != r@[j]@,
            forall|k: Seq<char>| self@.contains_key(k) ==> exists|i: int|
                0 <= i < r@.len() && #[trigger] r@[i]@ == k,
    {
        self.shares.codes()
    }

    /// All tracked codes with the kind of each.
    pub fn share_codes_with_kind(&self) -> (r: Vec<(String, ShareKind)>)
        requires
            self.wf(),
        ensures
            r@.len() == self@.dom().len(),
            forall|i: int|
                0 <= i < r@.len() ==> self@.contains_key(#[trigger] r@[i].0@) && r@[i].1
                    == self@[r@[i].0@].kind,
            forall|i: int, j: int| 0 <= i < j < r@.len() ==> r@[i].0@ != r@[j].0@,
            forall|k: Seq<char>| self@.contains_key(k) ==> exists|i: int|
                0 <= i < r@.len() && #[trigger] r@[i].0@ == k,
    {
        let codes = self.shares.codes();
        let mut r: Vec<(String, ShareKind)> = Vec::new();
        let n = codes.len();
        let mut i: usize = 0;
        while i < n
            invariant
                i <= n,
                n == codes@.len(),
                self.wf(),
                forall|j: int| 0 <= j < n ==> self@.contains_key(#[trigger] codes@[j]@),
                forall|a: int, b: int| 0 <= a < b < n ==> codes@[a]@ != codes@[b]@,
                r@.len() == i,
                forall|j: int| 0 <= j < i ==> (#[trigger] r@[j]).0@ == codes@[j]@ && r@[j].1
                    == self@[codes@[j]@].kind,
            decreases n - i,
        {
            let code = &codes[i];
            match self.shares.get(code.as_str()) {
                Some(share) => {
                    r.push((code.clone(), share.kind));
                },
                None => {
                    proof {
                        assert(false);
                    }
                },
            }
            i += 1;
        }
        proof {
            assert forall|k: Seq<char>| self@.contains_key(k) implies exists|i: int|
                0 <= i < r@.len() && #[trigger] r@[i].0@ == k by {
                let i = choose|i: int| 0 <= i < codes@.len() && #[trigger] codes@[i]@ == k;
                assert(r@[i].0@ == k);
            }
        }
        r
    }

    pub fn contains(&self, code: &str) -> (r: bool)
        requires
            self.wf(),
        ensures
            r == self@.contains_key(code@),
    {
        self.shares.contains(code)
    }

    pub fn get_share(&self, code: &str) -> (r: Option<&Share>)
        requires
            self.wf(),
        ensures
            match r {
                Some(s) => self@.contains_key(code@) && *s == self@[code@],
                None => !self@.contains_key(code@),
            },
    {
        self.shares.get(code)
    }

    /// Stop tracking `code`, handing back its entry if it was tracked.
    pub fn remove_share(&mut self, code: &str) -> (r: Option<Share>)
        requires
            old(self).wf(),
        ensures
            final(self).wf(),
            final(self)@ == old(self)@.remove(code@),
            match r {
                Some(s) => old(self)@.contains_key(code@) && s == old(self)@[code@],
                None => !old(self)@.contains_key(code@),
            },
    {
        self.shares.remove(code)
    }

    /// Write an index snapshot wholesale. A new code starts with an empty
    /// history; an existing entry keeps its kind and history.
    pub fn add_or_update_index(&mut self, code: &str, index: &Index)
        requires
            old(self).wf(),
        ensures
            final(self).wf(),
            final(self)@.contains_key(code@),
            old(self)@.contains_key(code@) ==> index_applied(
                final(self)@[code@],
                code@,
                *index,
                old(self)@[code@].kind,
                old(self)@[code@].graph@,
            ),
            !old(self)@.contains_key(code@) ==> index_applied(
                final(self)@[code@],
                code@,
                *index,
                ShareKind::Index,
                Seq::<Quote>::empty(),
            ),
            map_unchanged_except(final(self)@, old(self)@, code@),
    {
        let mut missing = false;
        match self.shares.get_mut(code) {
            Some(share) => {
                share.name = code.to_owned();
                share.state = index.state;
                share.value = index.now_value;
                share.change_value = index.change_value;
                share.change_rate = index.change_rate;
                share.trading_volume = index.trading_volume;
            },
            None => {
                missing = true;
            },
        }
        if missing {
            let share = Share {
                kind: ShareKind::Index,
                name: code.to_owned(),
                state: index.state,
                value: index.now_value,
                change_value: index.change_value,
                change_rate: index.change_rate,
                trading_volume: index.trading_volume,
                graph: Graph::new(),
            };
            self.shares.insert(code, share);
        }
    }

    /// Write an equity snapshot wholesale, with the change columns signed
    /// by the snapshot's change type. A new code starts with an empty
    /// history; an existing entry keeps its kind and history.
    pub fn add_or_update_stock(&mut self, code: &str, stock: &Stock)
        requires
            old(self).wf(),
            stock.change_value > i64::MIN,
            stock.change_rate > i64::MIN,
        ensures
            final(self).wf(),
            final(self)@.contains_key(code@),
            old(self)@.contains_key(code@) ==> stock_applied(
                final(self)@[code@],
                *stock,
                crate::model::spec_signed_by_type(stock.change_type@, stock.change_value as int),
                crate::model::spec_signed_by_type(stock.change_type@, stock.change_rate as int),
                old(self)@[code@].kind,
                old(self)@[code@].graph@,
            ),
            !old(self)@.contains_key(code@) ==> stock_applied(
                final(self)@[code@],
                *stock,
                crate::model::spec_signed_by_type(stock.change_type@, stock.change_value as int),
                crate::model::spec_signed_by_type(stock.change_type@, stock.change_rate as int),
                ShareKind::Stock,
                Seq::<Quote>::empty(),
            ),
            map_unchanged_except(final(self)@, old(self)@, code@),
    {
        let change_value = stock.change_value();
        let change_rate = stock.change_rate();
        let mut missing = false;
        match self.shares.get_mut(code) {
            Some(share) => {
                share.name = stock.name.clone();
                share.state = stock.state;
                share.value = stock.now_value;
                share.change_value = change_value;
                share.change_rate = change_rate;
                share.trading_volume = stock.trading_volume;
            },
            None => {
                missing = true;
            },
        }
        if missing {
            let share = Share {
                kind: ShareKind::Stock,
                name: stock.name.clone(),
                state: stock.state,
                value: stock.now_value,
                change_value: change_value,
                change_rate: change_rate,
                trading_volume: stock.trading_volume,
                graph: Graph::new(),
            };
            self.shares.insert(code, share);
        }
    }

    /// Feed an equity quote page into the instrument's history, every row
    /// upserted in table order onto `date_day`'s minute timeline. Nothing
    /// happens for an untracked code.
    pub fn update_stock_graph(&mut self, code: &str, page: &StockQuotePage, date_day: i64)
        requires
            old(self).wf(),
            -100_000_000 <= date_day <= 100_000_000,
        ensures
            final(self).wf(),
            !old(self)@.contains_key(code@) ==> final(self)@ == old(self)@,
            old(self)@.contains_key(code@) ==> ({
                let s0 = old(self)@[code@];
                let s1 = final(self)@[code@];
                &&& final(self)@.contains_key(code@)
                &&& s1.kind == s0.kind
                &&& s1.name == s0.name
                &&& s1.state == s0.state
                &&& s1.value == s0.value
                &&& s1.change_value == s0.change_value
                &&& s1.change_rate == s0.change_rate
                &&& s1.trading_volume == s0.trading_volume
                &&& s1.graph@ == spec_feed_stock(s0.graph@, page.quotes@, date_day as int)
            }),
            map_unchanged_except(final(self)@, old(self)@, code@),
    {
        match self.shares.get_mut(code) {
            Some(share) => {
                let ghost g0 = share.graph@;
                let ghost s0 = *share;
                let n = page.quotes.len();
                let mut i: usize = 0;
                proof {
                    assert(page.quotes@.take(0) =~= Seq::<StockQuote>::empty());
                }
                while i < n
                    invariant
                        i <= n,
                        n == page.quotes@.len(),
                        -100_000_000 <= date_day <= 100_000_000,
                        share.graph.wf(),
                        share.kind == s0.kind,
                        share.name == s0.name,
                        share.state == s0.state,
                        share.value == s0.value,
                        share.change_value == s0.change_value,
                        share.change_rate == s0.change_rate,
                        share.trading_volume == s0.trading_volume,
                        s0.graph.wf(),
                        g0 == s0.graph@,
                        share.graph@ == spec_feed_stock(
                            g0,
                            page.quotes@.take(i as int),
                            date_day as int,
                        ),
                    decreases n - i,
                {
                    proof {
                        assert(page.quotes@.take(i + 1).drop_last() =~= page.quotes@.take(
                            i as int,
                        ));
                        assert(page.quotes@.take(i + 1).last() == page.quotes@[i as int]);
                    }
                    let q = &page.quotes[i];
                    match parse_hhmm(q.time.as_str()) {
                        Some(m) => {
                            let t = date_day * 1440 + m;
                            share.graph.update(
                                Quote {
                                    time: t,
                                    value: q.value,
                                    trading_volume: q.trading_volume,
                                    trading_vol_move: q.trading_vol_move,
                                },
                            );
                        },
                        None => {},
                    }
                    i += 1;
                }
                proof {
                    assert(page.quotes@.take(n as int) =~= page.quotes@);
                }
            },
            None => {},
        }
    }

    /// Feed an index quote page into the instrument's history, every row
    /// upserted in table order onto `date_day`'s minute timeline. Nothing
    /// happens for an untracked code.
    pub fn update_index_graph(&mut self, code: &str, page: &IndexQuotePage, date_day: i64)
        requires
            old(self).wf(),
            -100_000_000 <= date_day <= 100_000_000,
        ensures
            final(self).wf(),
            !old(self)@.contains_key(code@) ==> final(self)@ == old(self)@,
            old(self)@.contains_key(code@) ==> ({
                let s0 = old(self)@[code@];
                let s1 = final(self)@[code@];
                &&& final(self)@.contains_key(code@)
                &&& s1.kind == s0.kind
                &&& s1.name == s0.name
                &&& s1.state == s0.state
                &&& s1.value == s0.value
                &&& s1.change_value == s0.change_value
                &&& s1.change_rate == s0.change_rate
                &&& s1.trading_volume == s0.trading_volume
                &&& s1.graph@ == spec_feed_index(s0.graph@, page.quotes@, date_day as int)
            }),
            map_unchanged_except(final(self)@, old(self)@, code@),
    {
        match self.shares.get_mut(code) {
            Some(share) => {
                let ghost g0 = share.graph@;
                let ghost s0 = *share;
                let n = page.quotes.len();
                let mut i: usize = 0;
                proof {
                    assert(page.quotes@.take(0) =~= Seq::<IndexQuote>::empty());
                }
                while i < n
                    invariant
                        i <= n,
                        n == page.quotes@.len(),
                        -100_000_000 <= date_day <= 100_000_000,
                        share.graph.wf(),
                        share.kind == s0.kind,
                        share.name == s0.name,
                        share.state == s0.state,
                        share.value == s0.value,
                        share.change_value == s0.change_value,
                        share.change_rate == s0.change_rate,
                        share.trading_volume == s0.trading_volume,
                        s0.graph.wf(),
                        g0 == s0.graph@,
                        share.graph@ == spec_feed_index(
                            g0,
                            page.quotes@.take(i as int),
                            date_day as int,
                        ),
                    decreases n - i,
                {
                    proof {
                        assert(page.quotes@.take(i + 1).drop_last() =~= page.quotes@.take(
                            i as int,
                        ));
                        assert(page.quotes@.take(i + 1).last() == page.quotes@[i as int]);
                    }
                    let q = &page.quotes[i];
                    match parse_hhmm(q.time.as_str()) {
                        Some(m) => {
                            let t = date_day * 1440 + m;
                            share.graph.update(
                                Quote {
                                    time: t,
                                    value: q.value,
                                    trading_volume: q.trading_volume,
                                    trading_vol_move: q.trading_vol_move,
                                },
                            );
                        },
                        None => {},
                    }
                    i += 1;
                }
                proof {
                    assert(page.quotes@.take(n as int) =~= page.quotes@);
                }
            },
            None => {},
        }
    }
}

} // verus!
