use stock_watch::detect::{
    is_market_hours, BackfillEvent, BackfillState, RateBreakoutDetector, StateChangeDetector,
    VolumeSpikeDetector,
};
use stock_watch::model::MarketState;

#[test]
fn market_hours_window() {
    assert!(is_market_hours(1, 8));
    assert!(is_market_hours(5, 16));
    assert!(!is_market_hours(6, 10));
    assert!(!is_market_hours(7, 10));
    assert!(!is_market_hours(3, 7));
    assert!(!is_market_hours(3, 17));
}

#[test]
fn state_change_reports_transitions() {
    let mut d = StateChangeDetector::new();
    // the first sighting is recorded silently
    assert!(!d.observe("A", MarketState::PreOpen));
    assert!(!d.observe("A", MarketState::PreOpen));
    assert!(d.observe("A", MarketState::Open));
    assert!(d.observe("A", MarketState::Close));
    assert!(!d.observe("B", MarketState::Close));

    // pruning forgets codes no longer tracked; a fresh sighting is silent
    d.prune(&vec!["B".to_string()]);
    assert!(!d.observe("A", MarketState::Open));
    assert!(d.observe("B", MarketState::Open));
}

#[test]
fn rate_breakout_recenters() {
    let mut d = RateBreakoutDetector::new();
    // transition into the open session builds a band from the rate: with
    // a rate of one percent the band's upper bound lands on two percent
    assert_eq!(d.observe("X", MarketState::Close, 100), None);
    assert_eq!(d.observe("X", MarketState::Open, 100), None);

    // two and a half percent tops the band: report, recentre on it
    assert_eq!(d.observe("X", MarketState::Open, 250), Some(150));

    // the new band reaches up to three percent, so 2.6 stays quiet
    assert_eq!(d.observe("X", MarketState::Open, 260), None);
    // and three percent fires again
    assert_eq!(d.observe("X", MarketState::Open, 300), Some(100));
}

#[test]
fn rate_breakout_downward_and_lazy_init() {
    let mut d = RateBreakoutDetector::new();
    // an instrument first seen while already open initialises silently
    assert_eq!(d.observe("Y", MarketState::Open, 0), None);
    // band is (-2.0, 1.0]: a fall to minus two percent fires downward
    assert_eq!(d.observe("Y", MarketState::Open, -200), Some(-200));

    // nothing is checked outside the open session
    assert_eq!(d.observe("Y", MarketState::Close, 500), None);
}

#[test]
fn volume_spike_rules() {
    let mut d = VolumeSpikeDetector::new();
    // twenty quiet ticks sum to 2000: 3100 tops the floor and five times
    // the per-tick average
    assert!(d.observe("S", 1000, 3100, 2000));
    // the same tick never fires twice
    assert!(!d.observe("S", 1000, 3200, 2000));
    // a new tick with no better magnitude inside the cooldown stays quiet
    assert!(!d.observe("S", 1005, 3100, 2000));
    // a stronger spike fires at a new tick
    assert!(d.observe("S", 1006, 6200, 2000));
    // just inside the cooldown an unimproved repeat stays quiet
    assert!(!d.observe("S", 1015, 3100, 2000));
    // once the cooldown has elapsed exactly, a repeat fires again
    assert!(d.observe("S", 1016, 3100, 2000));

    // below the absolute floor nothing fires, however large the ratio
    assert!(!d.observe("S", 1040, 2999, 0));
    // above the floor but within five times the baseline: quiet
    assert!(!d.observe("T", 1000, 5000, 30000));
}

#[test]
fn volume_spike_prune_forgets() {
    let mut d = VolumeSpikeDetector::new();
    assert!(d.observe("S", 1000, 4000, 0));
    d.prune(&vec![]);
    // memory gone: the same tick is reported as if first seen
    assert!(d.observe("S", 1000, 4000, 0));
}

#[test]
fn backfill_steps() {
    let mut st = BackfillState::new();
    assert!(!st.done());
    assert!(!st.needs_interpage_delay());

    // a page that is not the last moves to the next page
    st.step(BackfillEvent::Page { is_last: false, graph_len: 30 });
    assert_eq!((st.graph_len, st.page_num, st.date_jumps), (30, 2, 0));
    assert!(st.needs_interpage_delay());

    // the last page rolls the date back and starts over at page one
    st.step(BackfillEvent::Page { is_last: true, graph_len: 60 });
    assert_eq!((st.graph_len, st.page_num, st.date_jumps), (60, 1, 1));

    // errors count as progress so retries cannot loop forever
    st.step(BackfillEvent::Error);
    assert_eq!((st.graph_len, st.page_num, st.date_jumps), (70, 1, 1));

    for _ in 0..5 {
        if !st.done() {
            st.step(BackfillEvent::Error);
        }
    }
    assert!(st.done());

    // exhausting the date rollbacks also finishes
    let mut st = BackfillState::new();
    for _ in 0..11 {
        assert!(!st.done());
        st.step(BackfillEvent::Page { is_last: true, graph_len: 0 });
    }
    assert!(st.done());
}
