//! An incremental dictionary-based word-segmentation engine.
//!
//! A fixed, case-normalized word list (the [`dict::Dictionary`]) is shared by
//! any number of sessions.  Each session owns one [`ouija::Ouija`] engine that
//! receives a message one character at a time, rejects characters that would
//! make the message impossible to decompose into dictionary words, reports the
//! set of legal next characters, and — on request — resolves the accumulated
//! message into a minimum-length sequence of dictionary words.

pub mod decomp;
pub mod dict;
pub mod ouija;
pub mod text;
