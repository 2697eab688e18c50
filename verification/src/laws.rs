//! What the library promises of all inputs, in the words of its users: what a
//! decoder gives back, what an operator matches, what a target addresses, when a
//! rule denies. Each law is stated over inputs and results, and proved from the
//! models that the contracts speak of.

pub mod addresses;
pub mod documents;
pub mod language;
pub mod measuring;
pub mod operators;
pub mod parts;
pub mod paths;
pub mod patterns;
pub mod phases;
pub mod requests;
pub mod rule_sets;
pub mod rules;
pub mod spelling;
pub mod targets;
pub mod transformations;
