use stock_watch::alarm::StockAlarm;
use stock_watch::market::{Graph, Market, Quote, ShareKind, MAX_QUOTES};
use stock_watch::model::{Index, IndexQuote, IndexQuotePage, MarketState, Stock, StockQuote, StockQuotePage};

fn quote(time: i64, value: i64, volume: i64, vol_move: i64) -> Quote {
    Quote { time, value, trading_volume: volume, trading_vol_move: vol_move }
}

fn sample_index(value: i64) -> Index {
    Index {
        state: MarketState::Open,
        now_value: value,
        high_value: value + 10,
        low_value: value - 10,
        change_value: 1442,
        change_rate: 62,
        trading_volume: 705770,
        trading_value: 8941027,
    }
}

fn sample_stock(name: &str, value: i64, change_type: &str) -> Stock {
    Stock {
        name: name.into(),
        state: MarketState::Open,
        now_value: value,
        high_value: value + 500,
        low_value: value - 500,
        change_type: change_type.into(),
        change_value: 300,
        change_rate: 51,
        trading_volume: 21316295,
        trading_value: 1245504000000,
    }
}

#[test]
fn graph_upsert_orders_and_dedups() {
    let mut g = Graph::new();
    g.update(quote(30, 3, 300, 30));
    g.update(quote(10, 1, 100, 10));
    g.update(quote(20, 2, 200, 20));
    assert_eq!(g.len(), 3);
    assert_eq!(g.quote_at(0).time, 10);
    assert_eq!(g.quote_at(1).time, 20);
    assert_eq!(g.quote_at(2).time, 30);
    assert_eq!(g.latest_time(), Some(30));

    // replacing an existing stamp neither grows nor reorders
    g.update(quote(20, 9, 999, 99));
    assert_eq!(g.len(), 3);
    assert_eq!(g.quote_at(1), quote(20, 9, 999, 99));
    assert_eq!(g.quote_at(0), quote(10, 1, 100, 10));
}

#[test]
fn graph_capacity_keeps_most_recent() {
    let mut g = Graph::new();
    for t in 0..(MAX_QUOTES as i64 + 1) {
        g.update(quote(t, t, t, 1));
    }
    assert_eq!(g.len(), MAX_QUOTES);
    // the oldest tick was evicted
    assert_eq!(g.quote_at(0).time, 1);
    assert_eq!(g.latest_time(), Some(MAX_QUOTES as i64));
}

#[test]
fn graph_capacity_out_of_order() {
    // newest first: the final insert is older than everything stored
    let mut g = Graph::new();
    for t in (0..(MAX_QUOTES as i64 + 1)).rev() {
        g.update(quote(t, t, t, 1));
    }
    assert_eq!(g.len(), MAX_QUOTES);
    // the single tick that cannot fit is the oldest one
    assert_eq!(g.quote_at(0).time, 1);
    assert_eq!(g.latest_time(), Some(MAX_QUOTES as i64));
}

#[test]
fn graph_volume_windows() {
    let mut g = Graph::new();
    for t in 0..25i64 {
        g.update(quote(t, 100, 1000 + t, t));
    }
    // the latest tick's delta
    assert_eq!(g.sum_trading_vol_move(0, 1), Some(24));
    // the twenty ticks before it: 4 + 5 + ... + 23
    assert_eq!(g.sum_trading_vol_move(1, 20), Some((4..24i128).sum()));
    assert_eq!(g.sum_trading_vol_move(0, 0), None);
    assert_eq!(g.sum_trading_vol_move(10, 20), None);
}

#[test]
fn market_add_update_remove() {
    let mut m = Market::new();
    assert!(!m.contains("KOSPI"));

    m.add_or_update_index("KOSPI", &sample_index(234526));
    assert!(m.contains("KOSPI"));
    let share = m.get_share("KOSPI").unwrap();
    assert_eq!(share.kind, ShareKind::Index);
    assert_eq!(share.value, 234526);
    assert_eq!(share.name, "KOSPI");
    assert_eq!(share.graph.len(), 0);

    m.add_or_update_stock("005930", &sample_stock("ACME", 58500, "5"));
    let share = m.get_share("005930").unwrap();
    assert_eq!(share.kind, ShareKind::Stock);
    // change type five means a fall: both change columns are negated
    assert_eq!(share.change_value, -300);
    assert_eq!(share.change_rate, -51);

    let mut codes = m.share_codes();
    codes.sort();
    assert_eq!(codes, vec!["005930".to_string(), "KOSPI".to_string()]);
    let kinds = m.share_codes_with_kind();
    assert_eq!(kinds.len(), 2);

    // updating overwrites the snapshot wholesale and keeps the history
    m.add_or_update_index("KOSPI", &sample_index(235000));
    assert_eq!(m.get_share("KOSPI").unwrap().value, 235000);

    let removed = m.remove_share("KOSPI").unwrap();
    assert_eq!(removed.value, 235000);
    assert!(!m.contains("KOSPI"));
    assert!(m.remove_share("KOSPI").is_none());
}

#[test]
fn stock_change_sign_follows_type() {
    let rise = sample_stock("A", 100, "2");
    assert_eq!(rise.change_value(), 300);
    assert_eq!(rise.change_rate(), 51);
    let fall = sample_stock("A", 100, "4");
    assert_eq!(fall.change_value(), -300);
    assert_eq!(fall.change_rate(), -51);
}

#[test]
fn stock_graph_feed_from_page() {
    let mut m = Market::new();
    m.add_or_update_stock("005930", &sample_stock("ACME", 58500, "2"));

    let page = StockQuotePage {
        quotes: vec![
            StockQuote {
                time: "15:58".into(),
                value: 63200,
                trading_vol_move: 915,
                trading_volume: 31309570,
            },
            StockQuote {
                time: "15:49".into(),
                value: 63100,
                trading_vol_move: 1210,
                trading_volume: 31301923,
            },
            StockQuote {
                time: "junk".into(),
                value: 1,
                trading_vol_move: 1,
                trading_volume: 1,
            },
        ],
        is_last: false,
    };
    let day = 18650i64;
    m.update_stock_graph("005930", &page, day);

    let share = m.get_share("005930").unwrap();
    assert_eq!(share.graph.len(), 2);
    // rows arrive newest first but are stored in time order
    assert_eq!(share.graph.latest_time(), Some(day * 1440 + 15 * 60 + 58));
    assert_eq!(share.graph.quote_at(0).time, day * 1440 + 15 * 60 + 49);
    assert_eq!(share.graph.quote_at(0).value, 63100);

    // a second identical feed changes nothing
    m.update_stock_graph("005930", &page, day);
    assert_eq!(m.get_share("005930").unwrap().graph.len(), 2);

    // feeding an untracked code does nothing
    m.update_stock_graph("nope", &page, day);
    assert!(!m.contains("nope"));
}

#[test]
fn index_graph_feed_from_page() {
    let mut m = Market::new();
    m.add_or_update_index("KOSPI", &sample_index(234526));

    let page = IndexQuotePage {
        quotes: vec![
            IndexQuote {
                time: "15:32".into(),
                value: 234331,
                trading_vol_move: 333,
                trading_volume: 874016,
            },
            IndexQuote {
                time: "15:27".into(),
                value: 234325,
                trading_vol_move: 0,
                trading_volume: 861767,
            },
        ],
        is_last: true,
    };
    let day = 18650i64;
    m.update_index_graph("KOSPI", &page, day);

    let share = m.get_share("KOSPI").unwrap();
    assert_eq!(share.graph.len(), 2);
    assert_eq!(share.graph.latest_time(), Some(day * 1440 + 15 * 60 + 32));
    assert_eq!(share.graph.quote_at(0).value, 234325);
    assert_eq!(share.graph.quote_at(1).value, 234331);
}

#[test]
fn alarm_crossing_end_to_end() {
    let mut market = Market::new();
    let mut alarms = StockAlarm::new();

    market.add_or_update_stock("X", &sample_stock("X Corp", 100, "2"));
    alarms.set_alarm("X", 105);

    // a refresh reports 108: check against the previous snapshot price
    let prev = market.get_share("X").unwrap().value;
    let new_stock = sample_stock("X Corp", 108, "2");
    let fired = alarms.take_crossed("X", prev, new_stock.now_value);
    assert_eq!(fired, vec![105]);
    assert!(alarms.get_alarms("X").is_none());
    market.add_or_update_stock("X", &new_stock);

    // an identical refresh cannot fire the alarm again
    let prev = market.get_share("X").unwrap().value;
    let fired = alarms.take_crossed("X", prev, 108);
    assert!(fired.is_empty());
    assert!(alarms.get_alarms("X").is_none());
}
