# Parapet

A SecLang rule engine in pure Rust, compatible with the OWASP Core Rule Set, with
its behaviour stated in contracts and proved by Verus.

Parapet parses SecLang, compiles a rule set into an evaluable program, and runs
HTTP transactions through it across the five SecLang phases.

## Design commitments

**Compilation is separate from evaluation.** A rule set is parsed and compiled
once, into a program that holds its compiled regexes and multi-pattern automata.
Evaluation borrows it.

**An unrecognised construct is an error, never a skip.** A directive, operator,
transformation or action that Parapet does not implement fails compilation: an
engine that ignores what it cannot parse silently converts a rule into a bypass.

**What a function does is stated and proved.** Every type has a model (its view),
every function a contract over the models, and what holds of the library as a
whole is a public proof function: what a transaction keeps from phase to phase,
that a denial is final, that an accepted rule set only jumps ahead and so every
phase ends, that no line of a rule file is lost, that a decoder leaves plain bytes
alone.

**Conformance is measured.** `conformance` says what a measurement against the
Core Rule Set's own corpus means.

## Layout

* `src/` is the verified library. `parse`, `rule`, `action` and `operator` read
  SecLang; `engine` compiles it, with `matcher` for the operators and
  `regex_compat` for their patterns; `collections` holds the variables of a
  transaction, `transform` prepares them, `evaluate` tests one rule and
  `transaction` runs the phases; `body` reads bodies, with `form`, `json` and
  `multipart`; `xml` reads XML.
* `app/` is the command-line tool around it: it reads rule files and corpora and
  prints reports.
* `tests/` runs the library.

## What is trusted

The regex engine, the multi-pattern automaton, the injection classifiers, SHA-1
and the JSON and XML readers are outside crates. Each call into one stands behind
a small function whose doc comment says what is believed of it: most results are
only named, so that what the library does with them is proved for every answer
they could give.
