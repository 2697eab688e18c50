//! A SecLang rule engine in pure Rust, compatible with the OWASP Core Rule Set.
//!
//! Parapet parses SecLang, compiles a rule set into an evaluable program, and
//! runs HTTP transactions through it across the five SecLang phases. It has no
//! C or C++ dependency, no garbage collector, and no FFI.
//!
//! # Design commitments
//!
//! **Compilation is separate from evaluation.** A rule set is parsed and
//! compiled once, into a program that holds compiled regexes and multi-pattern
//! automata. Evaluation borrows that program. Callers that compile ahead of
//! time (a build step, a sealed artifact) pay no rule-compilation cost at
//! request time.
//!
//! **An unrecognised construct is an error, never a skip.** A directive,
//! operator, transformation or action that Parapet does not implement fails
//! compilation. A rule set that silently loses a rule it could not parse turns
//! that rule into a bypass, so partial understanding is not an acceptable
//! outcome for a security control.
//!
//! **What a function does is stated and proved.** Every type has a model (its
//! view), every function a contract over the models, and what holds of the
//! library as a whole is proved from those contracts.
//!
//! **Conformance is measured.** Compatibility means passing the Core Rule Set's
//! own regression corpus; [`conformance`] says what a measurement means.
//!
//! # Layout
//!
//! * [`parse`], [`rule`], [`action`] and [`operator`] read SecLang into
//!   directives; [`macros`] reads `%{...}` templates.
//! * [`engine`] compiles directives, with [`matcher`] for the operators and
//!   [`regex_compat`] for their patterns.
//! * [`collections`] holds the variables of a transaction, and [`transform`]
//!   (with [`decode`] and [`path`]) prepares them.
//! * [`evaluate`] tests one rule, and [`transaction`] runs the phases. [`body`]
//!   reads bodies, with [`form`], [`json`] and [`multipart`]; [`xml`] reads XML.
//! * [`text`], [`bytes`], [`digits`], [`ip`], [`pattern`] and [`injection`] are
//!   what these rest on.
//! * [`laws`] states what all of this promises together, over inputs and results.

use vstd::prelude::*;

pub mod action;
pub mod body;
pub mod bytes;
pub mod collections;
pub mod conformance;
pub mod decode;
pub mod digits;
pub mod engine;
pub mod evaluate;
pub mod form;
pub mod injection;
pub mod ip;
pub mod json;
pub mod laws;
pub mod macros;
pub mod matcher;
pub mod multipart;
pub mod operator;
pub mod path;
pub mod pattern;
pub mod regex_compat;
pub mod parse;
pub mod rule;
pub mod text;
pub mod transform;
pub mod transaction;
pub mod xml;

pub use engine::{CompileError, RuleSet};
pub use macros::{MacroContext, Template};
pub use matcher::{CompiledOperator, DataLoader, DirDataLoader, NoDataLoader};
pub use parse::{parse, parse_all, ParseError};
pub use rule::{Directive, Rule};
pub use transaction::{EngineMode, Transaction};

verus! {

/// Whether a transaction may proceed.
///
/// The disruptive outcome of evaluating a rule set, independent of any
/// particular HTTP server or proxy.
#[derive(Debug, Clone, Copy, PartialEq, Eq, Structural)]
pub enum Verdict {
    /// No rule demanded interruption.
    Allow,
    /// A rule interrupted the transaction.
    Deny {
        /// The HTTP status the rule asked for.
        status: u16,
        /// The id of the rule that interrupted.
        rule_id: u32,
    },
}

/// The SecLang evaluation phases, in the order in which they run.
#[derive(Debug, Clone, Copy, PartialEq, Eq, PartialOrd, Ord, Hash, Structural)]
pub enum Phase {
    /// Phase 1.
    RequestHeaders,
    /// Phase 2.
    RequestBody,
    /// Phase 3.
    ResponseHeaders,
    /// Phase 4.
    ResponseBody,
    /// Phase 5.
    Logging,
}

} // verus!
