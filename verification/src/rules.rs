//! The three matching rules, and the proof that no pair of records falls
//! under two of them.

use vstd::prelude::*;
use crate::docs::{Doc, DocView};

verus! {

/// A rule that pairs a record of the older snapshot with one of the newer.
#[derive(Clone, Copy, Debug)]
pub enum Rule {
    /// Same content, same name, same directory.
    Unchanged,
    /// Same content, same directory, another name.
    Renamed,
    /// Same content, same name, another directory.
    Moved,
}

/// Whether `a` and `b` are records of two different snapshots that hold the
/// same content.
pub open spec fn same_content(a: DocView, b: DocView) -> bool {
    a.mod_date != b.mod_date && a.hash == b.hash
}

/// Whether `rule` pairs the older record `a` with the newer record `b`.
pub open spec fn rule_holds(rule: Rule, a: DocView, b: DocView) -> bool {
    same_content(a, b) && match rule {
        Rule::Unchanged => a.name == b.name && a.path == b.path,
        Rule::Renamed => a.name != b.name && a.path == b.path,
        Rule::Moved => a.name == b.name && a.path != b.path,
    }
}

/// Decides [`rule_holds`] for two records.
pub fn check_rule(rule: Rule, a: &Doc, b: &Doc) -> (holds: bool)
    ensures
        holds == rule_holds(rule, a@, b@),
{
    if a.mod_date == b.mod_date || a.hash != b.hash {
        return false;
    }
    let same_name = a.name == b.name;
    let same_path = a.path == b.path;
    match rule {
        Rule::Unchanged => same_name && same_path,
        Rule::Renamed => !same_name && same_path,
        Rule::Moved => same_name && !same_path,
    }
}

/// No two rules hold of the same pair of records: the order in which the
/// rules are tried never decides between them for one pair.
pub proof fn lemma_rules_exclusive(a: DocView, b: DocView)
    ensures
        !(rule_holds(Rule::Unchanged, a, b) && rule_holds(Rule::Renamed, a, b)),
        !(rule_holds(Rule::Unchanged, a, b) && rule_holds(Rule::Moved, a, b)),
        !(rule_holds(Rule::Renamed, a, b) && rule_holds(Rule::Moved, a, b)),
{
}

} // verus!
