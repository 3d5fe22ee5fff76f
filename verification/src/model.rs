//! Plain data carried between the quote source, the registries and the
//! notification loops.

use vstd::prelude::*;

verus! {

/// Session state of a market or an instrument.
#[derive(Debug, Clone, Copy, PartialEq, Eq, Structural)]
pub enum MarketState {
    PreOpen,
    Close,
    Open,
}

pub open spec fn spec_state_label(s: MarketState) -> Seq<char> {
    match s {
        MarketState::PreOpen => "장전"@,
        MarketState::Close => "장마감"@,
        MarketState::Open => "장중"@,
    }
}

impl MarketState {
    /// Short human-readable label for the session state.
    pub fn label(&self) -> (r: String)
        ensures
            r@ == spec_state_label(*self),
    {
        match self {
            MarketState::PreOpen => "장전".to_owned(),
            MarketState::Close => "장마감".to_owned(),
            MarketState::Open => "장중".to_owned(),
        }
    }
}

/// Live snapshot of a market index. Prices carry two implied decimal
/// places (hundredths of a point); the change rate is in hundredths of a
/// percent.
#[derive(Debug, Clone, PartialEq)]
pub struct Index {
    pub state: MarketState,
    pub now_value: i64,
    pub high_value: i64,
    pub low_value: i64,
    pub change_value: i64,
    pub change_rate: i64,
    pub trading_volume: i64,
    pub trading_value: i64,
}

/// Live snapshot of an equity. Prices are whole currency units; the
/// change columns hold absolute values whose sign is carried separately
/// by `change_type` (`"4"` and `"5"` mean a fall); the change rate is in
/// hundredths of a percent.
#[derive(Debug, Clone, PartialEq)]
pub struct Stock {
    pub name: String,
    pub state: MarketState,
    pub now_value: i64,
    pub high_value: i64,
    pub low_value: i64,
    pub change_type: String,
    pub change_value: i64,
    pub change_rate: i64,
    pub trading_volume: i64,
    pub trading_value: i64,
}

/// An absolute move made signed by the change-type column.
pub open spec fn spec_signed_by_type(change_type: Seq<char>, v: int) -> int {
    if change_type == "4"@ || change_type == "5"@ {
        -v
    } else {
        v
    }
}

impl Stock {
    /// Signed price move since the previous close.
    pub fn change_value(&self) -> (r: i64)
        requires
            self.change_value > i64::MIN,
        ensures
            r as int == spec_signed_by_type(self.change_type@, self.change_value as int),
    {
        if self.change_type == "4".to_owned() || self.change_type == "5".to_owned() {
            -self.change_value
        } else {
            self.change_value
        }
    }

    /// Signed change rate, in hundredths of a percent.
    pub fn change_rate(&self) -> (r: i64)
        requires
            self.change_rate > i64::MIN,
        ensures
            r as int == spec_signed_by_type(self.change_type@, self.change_rate as int),
    {
        if self.change_type == "4".to_owned() || self.change_type == "5".to_owned() {
            -self.change_rate
        } else {
            self.change_rate
        }
    }
}

/// One row of an index quote table. The traded value carries two implied
/// decimal places (hundredths of a point).
#[derive(Debug, Clone, PartialEq)]
pub struct IndexQuote {
    pub time: String,
    pub value: i64,
    pub trading_vol_move: i64,
    pub trading_volume: i64,
}

impl IndexQuote {
    /// Traded value, in hundredths of a point.
    pub fn value(&self) -> (r: i64)
        ensures
            r == self.value,
    {
        self.value
    }

    pub fn trading_vol_move(&self) -> (r: i64)
        ensures
            r == self.trading_vol_move,
    {
        self.trading_vol_move
    }

    pub fn trading_volume(&self) -> (r: i64)
        ensures
            r == self.trading_volume,
    {
        self.trading_volume
    }
}

/// One page of an index quote table, oldest row last, plus whether the
/// pager reports this as the final page.
#[derive(Debug, Clone, PartialEq)]
pub struct IndexQuotePage {
    pub quotes: Vec<IndexQuote>,
    pub is_last: bool,
}

/// One row of an equity quote table. Prices are whole currency units.
#[derive(Debug, Clone, PartialEq)]
pub struct StockQuote {
    pub time: String,
    pub value: i64,
    pub trading_vol_move: i64,
    pub trading_volume: i64,
}

impl StockQuote {
    /// Traded price, in whole currency units.
    pub fn value(&self) -> (r: i64)
        ensures
            r == self.value,
    {
        self.value
    }

    pub fn trading_vol_move(&self) -> (r: i64)
        ensures
            r == self.trading_vol_move,
    {
        self.trading_vol_move
    }

    pub fn trading_volume(&self) -> (r: i64)
        ensures
            r == self.trading_volume,
    {
        self.trading_volume
    }
}

/// One page of an equity quote table, oldest row last, plus whether the
/// pager reports this as the final page.
#[derive(Debug, Clone, PartialEq)]
pub struct StockQuotePage {
    pub quotes: Vec<StockQuote>,
    pub is_last: bool,
}

/// One instrument found by a keyword search.
#[derive(Debug, Clone, PartialEq)]
pub struct SearchResult {
    pub code: String,
    pub name: String,
}

} // verus!
