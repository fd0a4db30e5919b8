//! Per-process rate rules: how a rule is named, found and added.

use vstd::prelude::*;
use crate::text::{names_match, same_name, trim, trim_seq};

verus! {

/// A rate limit for the traffic of one process, in bytes per second in each
/// direction; 0 means no limit.
#[derive(Clone, Debug)]
pub struct ProcessRule {
    pub process_name: String,
    pub download_limit: u64,
    pub upload_limit: u64,
}

impl View for ProcessRule {
    type V = (Seq<char>, u64, u64);

    open spec fn view(&self) -> (Seq<char>, u64, u64) {
        (self.process_name@, self.download_limit, self.upload_limit)
    }
}

/// Why a rule cannot be added.
#[derive(Clone, Copy, Debug, PartialEq, Eq, Structural)]
pub enum RuleError {
    /// The process name is empty once white space is trimmed.
    EmptyName,
    /// A rule for the same process name, ignoring case, already exists.
    DuplicateName,
}

/// Some rule of `rules` is for `name`, ignoring case.
pub open spec fn has_rule(rules: Seq<ProcessRule>, name: Seq<char>) -> bool {
    exists|i: int| 0 <= i < rules.len() && same_name(#[trigger] rules[i].process_name@, name)
}

/// Rule `i` is the first of `rules` for `name`, ignoring case.
pub open spec fn is_first_rule_for(rules: Seq<ProcessRule>, name: Seq<char>, i: int) -> bool {
    &&& 0 <= i < rules.len()
    &&& same_name(rules[i].process_name@, name)
    &&& forall|j: int| 0 <= j < i ==> !same_name(#[trigger] rules[j].process_name@, name)
}

/// The position of the first rule for `name`, ignoring case, if any.
pub open spec fn rule_for(rules: Seq<ProcessRule>, name: Seq<char>) -> Option<int> {
    if exists|i: int| is_first_rule_for(rules, name, i) {
        Some(choose|i: int| is_first_rule_for(rules, name, i))
    } else {
        None
    }
}

/// No two rules of `rules` are for the same process name, ignoring case.
pub open spec fn rule_names_distinct(rules: Seq<ProcessRule>) -> bool {
    forall|i: int, j: int|
        0 <= i < j < rules.len() ==> !same_name(
            #[trigger] rules[i].process_name@,
            #[trigger] rules[j].process_name@,
        )
}

proof fn lemma_first_rule_unique(rules: Seq<ProcessRule>, name: Seq<char>, i: int)
    requires
        is_first_rule_for(rules, name, i),
    ensures
        rule_for(rules, name) == Some(i),
{
    let k = choose|k: int| is_first_rule_for(rules, name, k);
    if k < i {
        assert(!same_name(rules[k].process_name@, name));
    } else if k > i {
        assert(!same_name(rules[i].process_name@, name));
    }
}

/// The process name a rule is entered under: the input without surrounding
/// white space, which must not be empty.
pub fn rule_name_from_input(input: &str) -> (r: Result<String, RuleError>)
    ensures
        trim_seq(input@).len() == 0 ==> r == Err::<String, RuleError>(RuleError::EmptyName),
        trim_seq(input@).len() > 0 ==> r is Ok && r->Ok_0@ == trim_seq(input@),
{
    let name: String = trim(input);
    if name.as_str().is_empty() {
        Err(RuleError::EmptyName)
    } else {
        Ok(name)
    }
}

/// The position of the first rule for `name`, ignoring case.
pub fn find_rule(rules: &Vec<ProcessRule>, name: &str) -> (r: Option<usize>)
    ensures
        r is None <==> !has_rule(rules@, name@),
        r is Some ==> rule_for(rules@, name@) == Some(r->0 as int),
        r is None ==> rule_for(rules@, name@) is None,
{
    let mut i: usize = 0;
    while i < rules.len()
        invariant
            i <= rules@.len(),
            forall|j: int| 0 <= j < i ==> !same_name(#[trigger] rules@[j].process_name@, name@),
        decreases rules@.len() - i,
    {
        if names_match(rules[i].process_name.as_str(), name) {
            proof {
                lemma_first_rule_unique(rules@, name@, i as int);
            }
            return Some(i);
        }
        i = i + 1;
    }
    None
}

/// Adds a rule for `name` unless one for the same name, ignoring case,
/// exists already.
pub fn add_process_rule(
    rules: &mut Vec<ProcessRule>,
    name: String,
    download_limit: u64,
    upload_limit: u64,
) -> (r: Result<(), RuleError>)
    ensures
        has_rule(old(rules)@, name@) ==> r == Err::<(), RuleError>(RuleError::DuplicateName)
            && final(rules)@ == old(rules)@,
        !has_rule(old(rules)@, name@) ==> r is Ok && final(rules)@ == old(rules)@.push(
            (ProcessRule { process_name: name, download_limit, upload_limit }),
        ),
{
    if find_rule(rules, name.as_str()).is_some() {
        return Err(RuleError::DuplicateName);
    }
    rules.push(ProcessRule { process_name: name, download_limit, upload_limit });
    Ok(())
}

/// A rule that was just added is the one found for its name.
pub proof fn lemma_added_rule_is_found(rules: Seq<ProcessRule>, rule: ProcessRule)
    requires
        !has_rule(rules, rule.process_name@),
    ensures
        rule_for(rules.push(rule), rule.process_name@) == Some(rules.len() as int),
{
    let r2 = rules.push(rule);
    let name = rule.process_name@;
    assert forall|j: int| 0 <= j < rules.len() implies !same_name(
        #[trigger] r2[j].process_name@,
        name,
    ) by {
        assert(r2[j] == rules[j]);
    }
    assert(is_first_rule_for(r2, name, rules.len() as int));
    lemma_first_rule_unique(r2, name, rules.len() as int);
}

/// Adding rules only through `add_process_rule` keeps every process name to
/// at most one rule.
pub proof fn lemma_added_rule_keeps_names_distinct(rules: Seq<ProcessRule>, rule: ProcessRule)
    requires
        rule_names_distinct(rules),
        !has_rule(rules, rule.process_name@),
    ensures
        rule_names_distinct(rules.push(rule)),
{
    let r2 = rules.push(rule);
    assert forall|i: int, j: int| 0 <= i < j < r2.len() implies !same_name(
        #[trigger] r2[i].process_name@,
        #[trigger] r2[j].process_name@,
    ) by {
        if j == rules.len() {
            assert(r2[i] == rules[i]);
            assert(!same_name(rules[i].process_name@, rule.process_name@));
        } else {
            assert(r2[i] == rules[i] && r2[j] == rules[j]);
        }
    }
}

/// Where no two rules share a name, each rule is the one found for its own
/// name.
pub proof fn lemma_each_rule_found_by_name(rules: Seq<ProcessRule>, i: int)
    requires
        rule_names_distinct(rules),
        0 <= i < rules.len(),
    ensures
        rule_for(rules, rules[i].process_name@) == Some(i),
{
    let name = rules[i].process_name@;
    assert forall|j: int| 0 <= j < i implies !same_name(#[trigger] rules[j].process_name@, name) by {
        assert(!same_name(rules[j].process_name@, rules[i].process_name@));
    }
    lemma_first_rule_unique(rules, name, i);
}

} // verus!
