//! The parsed form of a grammar specification file.

use vstd::prelude::*;

verus! {

/// A whole specification: configuration pairs and rules.
#[derive(Debug, Clone, PartialEq, Eq)]
pub struct Spec {
    pub rules: Vec<Rule>,
    pub configs: Vec<(String, String)>,
}

/// One rule: its name, its value type, and its alternatives.
#[derive(Debug, Clone, PartialEq, Eq)]
pub struct Rule {
    pub name: String,
    pub typ: String,
    pub expansions: Vec<Expansion>,
}

/// One alternative: its symbols and its semantic action text.
#[derive(Debug, Clone, PartialEq, Eq)]
pub struct Expansion {
    pub tokens: Vec<String>,
    pub code: String,
}

} // verus!
