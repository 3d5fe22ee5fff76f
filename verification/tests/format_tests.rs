use stock_watch::model::MarketState;
use stock_watch::util::{
    format_share_line, format_signed_rate, format_value, format_value_list,
    get_change_value_char, get_change_value_color, ColorClass,
};

#[test]
fn format_value_sets() {
    assert_eq!(format_value(0, 0), "0");
    assert_eq!(format_value(0, 1), "0.0");

    assert_eq!(format_value(1, 0), "1");
    assert_eq!(format_value(1, 1), "0.1");
    assert_eq!(format_value(10, 1), "1.0");
    assert_eq!(format_value(100, 2), "1.00");

    assert_eq!(format_value(-1, 0), "-1");
    assert_eq!(format_value(-1, 1), "-0.1");
    assert_eq!(format_value(-10, 1), "-1.0");
    assert_eq!(format_value(-100, 2), "-1.00");

    assert_eq!(format_value(321, 0), "321");
    assert_eq!(format_value(4321, 0), "4,321");
    assert_eq!(format_value(54321, 1), "5,432.1");
    assert_eq!(format_value(654321, 2), "6,543.21");

    assert_eq!(format_value(604301, 2), "6,043.01");
    assert_eq!(format_value(900604301, 2), "9,006,043.01");

    assert_eq!(
        format_value(9223372036854775807, 0),
        "9,223,372,036,854,775,807"
    );
}

#[test]
fn format_value_negatives_ungrouped() {
    assert_eq!(format_value(-4321, 0), "-4321");
    assert_eq!(format_value(-54321, 1), "-5432.1");
    assert_eq!(format_value(-900604301, 2), "-9006043.01");
    assert_eq!(
        format_value(-9223372036854775807, 0),
        "-9223372036854775807"
    );
}

#[test]
fn change_value_chars() {
    assert_eq!(get_change_value_char(300), '▲');
    assert_eq!(get_change_value_char(-300), '▼');
    assert_eq!(get_change_value_char(0), '=');
}

#[test]
fn change_value_colors() {
    assert_eq!(get_change_value_color(5), ColorClass::Positive);
    assert_eq!(get_change_value_color(-5), ColorClass::Negative);
    assert_eq!(get_change_value_color(0), ColorClass::Neutral);
}

#[test]
fn signed_rate_rendering() {
    assert_eq!(format_signed_rate(62), "+0.62");
    assert_eq!(format_signed_rate(-150), "-1.50");
    assert_eq!(format_signed_rate(0), "+0.00");
    assert_eq!(format_signed_rate(1234), "+12.34");
    assert_eq!(format_signed_rate(-5), "-0.05");
}

#[test]
fn share_line_rendering() {
    let line = format_share_line("KOSPI", 234526, 2, 1442, 62);
    assert_eq!(line, "KOSPI　2,345.26　▲14.42　+0.62%");

    let down = format_share_line("ACME", 58500, 0, -300, -51);
    assert_eq!(down, "ACME　58,500　▼300　-0.51%");
}

#[test]
fn value_list_rendering() {
    assert_eq!(format_value_list(&vec![], " | ", "원"), "");
    assert_eq!(format_value_list(&vec![777], " | ", "원"), "777원");
    assert_eq!(
        format_value_list(&vec![42, 777], " | ", "원"),
        "42원 | 777원"
    );
    assert_eq!(
        format_value_list(&vec![1000, 2000, 3000], ", ", "원"),
        "1,000원, 2,000원, 3,000원"
    );
}

#[test]
fn market_state_labels() {
    assert_eq!(MarketState::PreOpen.label(), "장전");
    assert_eq!(MarketState::Close.label(), "장마감");
    assert_eq!(MarketState::Open.label(), "장중");
}
