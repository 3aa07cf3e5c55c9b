//! A parser-combinator engine for a JSON-like grammar.
//!
//! Every parser takes a [`parsec::Remaining`] cursor and returns either the
//! cursor behind what it consumed together with a value, or a
//! [`parsec::JsonError`] of one of two tiers: a recoverable failure, after
//! which a sibling alternative may be tried, or a committed one, which ends the
//! whole parse. Each executable parser is proved equal to a specification
//! function over bytes.
pub mod document;
pub mod grammar;
pub mod laws;
pub mod parsec;
pub mod render;

pub use crate::document::{Document, Field, JsonObject, JsonValue, Member};
pub use crate::grammar::{
    array, json, json_string, keyword, member, number, object, value, JsonFailure, Verdict,
};
pub use crate::parsec::combinator::branch::{alternative, sequence};
pub use crate::parsec::combinator::character::{digit, label, string};
pub use crate::parsec::combinator::multi::{many, many1};
pub use crate::parsec::combinator::whitespace::ws;
pub use crate::parsec::error::{Diagnostic, ParserError};
pub use crate::parsec::{Cursor, JsonError, Outcome, ParseResult, Remaining};
