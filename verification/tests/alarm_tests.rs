use stock_watch::alarm::{crossed, StockAlarm};

#[test]
fn handle_empty_alarms() {
    let alarms = StockAlarm::new();
    assert_eq!(alarms.codes().len(), 0);
    assert!(alarms.get_alarms("").is_none());
}

#[test]
fn set_and_remove_alarms() {
    let mut alarms = StockAlarm::new();

    alarms.set_alarm("code", 777);
    alarms.set_alarm("code", 42);
    assert_eq!(alarms.codes()[0], "code");
    assert_eq!(alarms.get_alarms("code"), Some(&vec![42, 777]));

    alarms.remove_alarm("code", 42);
    assert_eq!(alarms.get_alarms("code"), Some(&vec![777]));

    alarms.remove_alarm("code", -1);
    assert_eq!(alarms.get_alarms("code").unwrap().len(), 1);

    alarms.remove_alarm("code", 777);
    assert!(alarms.get_alarms("code").is_none());
    assert_eq!(alarms.codes().len(), 0);
}

#[test]
fn alarms_stay_sorted_and_distinct() {
    let mut alarms = StockAlarm::new();
    for v in [500, 100, 300, 100, 500, 200, 400] {
        alarms.set_alarm("A", v);
    }
    assert_eq!(alarms.get_alarms("A"), Some(&vec![100, 200, 300, 400, 500]));

    alarms.set_alarm("B", -7);
    assert_eq!(alarms.codes().len(), 2);
    assert_eq!(alarms.get_alarms("B"), Some(&vec![-7]));
}

#[test]
fn remove_absent_alarm_returns_false() {
    let mut alarms = StockAlarm::new();
    alarms.set_alarm("A", 10);
    assert!(!alarms.remove_alarm("A", 11));
    assert!(!alarms.remove_alarm("unknown", 10));
    assert_eq!(alarms.get_alarms("A"), Some(&vec![10]));
    assert!(alarms.remove_alarm("A", 10));
    assert!(alarms.get_alarms("A").is_none());
}

#[test]
fn crossing_rule_cases() {
    assert!(crossed(100, 110, 105));
    assert!(crossed(110, 100, 105));
    assert!(!crossed(100, 101, 105));
    assert!(crossed(100, 100, 100));
    assert!(crossed(100, 105, 105));
    assert!(crossed(105, 100, 105));
    assert!(!crossed(106, 110, 105));
}

#[test]
fn take_crossed_fires_once() {
    let mut alarms = StockAlarm::new();
    alarms.set_alarm("X", 105);
    alarms.set_alarm("X", 95);
    alarms.set_alarm("X", 120);

    let fired = alarms.take_crossed("X", 100, 108);
    assert_eq!(fired, vec![105]);
    assert_eq!(alarms.get_alarms("X"), Some(&vec![95, 120]));

    // an identical move finds nothing left to cross
    let fired_again = alarms.take_crossed("X", 100, 108);
    assert!(fired_again.is_empty());
    assert_eq!(alarms.get_alarms("X"), Some(&vec![95, 120]));

    // crossing the rest removes the instrument entirely
    let fired_rest = alarms.take_crossed("X", 94, 121);
    assert_eq!(fired_rest, vec![95, 120]);
    assert!(alarms.get_alarms("X").is_none());
    assert_eq!(alarms.codes().len(), 0);
}

#[test]
fn take_crossed_on_unknown_code() {
    let mut alarms = StockAlarm::new();
    assert!(alarms.take_crossed("nope", 0, 1000).is_empty());
}
