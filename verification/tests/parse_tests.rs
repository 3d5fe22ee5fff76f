use stock_watch::html::{parse_index_quote_page, parse_stock_quote_page};
use stock_watch::model::{IndexQuote, StockQuote};
use stock_watch::parse::{parse_comma_centi, parse_comma_int, parse_hhmm, parse_int};

#[test]
fn parse_stock_quote() {
    let html = r#" <table><tr>
        <td align="center"><span class="tah p10 gray03">15:30</span></td>
        <td class="num"><span class="tah p11">63,200</span></td>
        <td class="num">
            <img src="..." width="7" height="6" style="margin-right:4px;" alt="상승">
            <span class="tah p11 red02">2,200</span>
        </td>
        <td class="num"><span class="tah p11">63,200</span></td>
        <td class="num"><span class="tah p11">63,100</span></td>
        <td class="num"><span class="tah p11">31,220,915</span></td>
        <td class="num"><span class="tah p11">2,413,850</span></td>
        </tr></table> "#;

    let cond = stock_watch::html::parse_stock_quote(html).unwrap();
    assert_eq!(
        cond,
        StockQuote {
            time: "15:30".into(),
            value: 63200,
            trading_vol_move: 2413850,
            trading_volume: 31220915,
        }
    );
}

#[test]
fn parse_index_quote() {
    let html = r#" <table><tr>
        <td class="date">15:32</td>
        <td class="number_1">2,343.31</td>
        <td class="rate_down" style="padding-right:35px;">
            <img src="..." width="7" height="6" style="margin-right:4px;" alt="상승">
            <span class="tah p11 red02">43.15</span>
        </td>
        <td class="number_1">333</td>
        <td class="number_1" style="padding-right:40px;">874,016</td>
        <td class="number_1" style="padding-right:30px;">10,692,707</td>
        </tr></table> "#;

    let cond = stock_watch::html::parse_index_quote(html).unwrap();
    assert_eq!(
        cond,
        IndexQuote {
            time: "15:32".into(),
            value: 234331,
            trading_vol_move: 333,
            trading_volume: 874016,
        }
    );
}

#[test]
fn parse_stock_quote_page_rows() {
    let html = r#"<table class="type2">
        <tr><th>header</th></tr>
        <tr>
          <td>15:58</td><td>63,200</td><td>100</td><td>63,200</td>
          <td>63,100</td><td>31,309,570</td><td>915</td>
        </tr>
        <tr><td colspan="7">separator</td></tr>
        <tr>
          <td>15:49</td><td>63,100</td><td>50</td><td>63,150</td>
          <td>63,050</td><td>31,301,923</td><td>1,210</td>
        </tr>
        </table><div class="paging"><a class="pgRR">last</a></div>"#;

    let page = parse_stock_quote_page(html);
    assert!(!page.is_last);
    assert_eq!(page.quotes.len(), 2);
    assert_eq!(page.quotes[0].time, "15:58");
    assert_eq!(page.quotes[0].value, 63200);
    assert_eq!(page.quotes[0].trading_vol_move, 915);
    assert_eq!(page.quotes[0].trading_volume, 31309570);
    assert_eq!(page.quotes[1].time, "15:49");
    assert_eq!(page.quotes[1].value, 63100);
    assert_eq!(page.quotes[1].trading_vol_move, 1210);
    assert_eq!(page.quotes[1].trading_volume, 31301923);

    let last_page = parse_stock_quote_page("<table><tr><td>x</td></tr></table>");
    assert!(last_page.is_last);
    assert_eq!(last_page.quotes.len(), 0);
}

#[test]
fn parse_index_quote_page_rows() {
    let html = r#"<table class="type_1">
        <tr>
          <td class="date">15:32</td><td>2,343.31</td><td>43.15</td>
          <td>333</td><td>874,016</td><td>10,692,707</td>
        </tr>
        <tr>
          <td class="date">15:27</td><td>2,343.25</td><td>0.00</td>
          <td>0</td><td>861,767</td><td>10,600,000</td>
        </tr>
        </table>"#;

    let page = parse_index_quote_page(html);
    assert!(page.is_last);
    assert_eq!(page.quotes.len(), 2);
    assert_eq!(page.quotes[0].time, "15:32");
    assert_eq!(page.quotes[0].value, 234331);
    assert_eq!(page.quotes[0].trading_vol_move, 333);
    assert_eq!(page.quotes[0].trading_volume, 874016);
    assert_eq!(page.quotes[1].value, 234325);
    assert_eq!(page.quotes[1].trading_vol_move, 0);
}

#[test]
fn parse_int_cases() {
    assert_eq!(parse_int("0"), Some(0));
    assert_eq!(parse_int("12345"), Some(12345));
    assert_eq!(parse_int("-300"), Some(-300));
    assert_eq!(parse_int("9223372036854775807"), Some(i64::MAX));
    assert_eq!(parse_int("-9223372036854775808"), Some(i64::MIN));
    assert_eq!(parse_int("9223372036854775808"), None);
    assert_eq!(parse_int(""), None);
    assert_eq!(parse_int("-"), None);
    assert_eq!(parse_int("12a"), None);
    assert_eq!(parse_int("1.5"), None);
}

#[test]
fn parse_comma_int_cases() {
    assert_eq!(parse_comma_int("31,220,915"), Some(31220915));
    assert_eq!(parse_comma_int("-1,442"), Some(-1442));
    assert_eq!(parse_comma_int("915"), Some(915));
    assert_eq!(parse_comma_int("no"), None);
}

#[test]
fn parse_comma_centi_cases() {
    assert_eq!(parse_comma_centi("2,343.31"), Some(234331));
    assert_eq!(parse_comma_centi("2,343.3"), Some(234330));
    assert_eq!(parse_comma_centi("2343"), Some(234300));
    assert_eq!(parse_comma_centi("-0.62"), Some(-62));
    assert_eq!(parse_comma_centi("1.234"), None);
    assert_eq!(parse_comma_centi("x.1"), None);
}

#[test]
fn parse_hhmm_cases() {
    assert_eq!(parse_hhmm("15:32"), Some(15 * 60 + 32));
    assert_eq!(parse_hhmm("00:00"), Some(0));
    assert_eq!(parse_hhmm("23:59"), Some(23 * 60 + 59));
    assert_eq!(parse_hhmm("24:00"), None);
    assert_eq!(parse_hhmm("12:60"), None);
    assert_eq!(parse_hhmm("9:30"), None);
    assert_eq!(parse_hhmm("12-30"), None);
    assert_eq!(parse_hhmm(""), None);
}
