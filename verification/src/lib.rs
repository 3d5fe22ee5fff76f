//! Core of a market-watching service: a registry of tracked instruments
//! with bounded tick histories, a registry of one-shot price alarms, the
//! decision logic of the polling and notification loops, parsers for the
//! quote source's tables and numbers, and the value formatting the
//! notifications use.

pub mod alarm;
pub mod codemap;
pub mod detect;
pub mod html;
pub mod market;
pub mod model;
pub mod parse;
pub mod seqtools;
pub mod util;
