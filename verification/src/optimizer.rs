//! The rules of the logical optimizer.

use vstd::prelude::*;

use crate::text;
use crate::text::texts;

verus! {

/// A rule, in the order in which the rules run.
#[derive(Debug, Clone, Copy, PartialEq, Eq, Structural)]
pub enum RuleChoice {
    /// The rewriting of lateral projections, which runs before all others.
    LateralProjection,
    /// The built-in rule with a position.
    BuiltIn { position: usize },
    /// The built-in rule with a position, which leaves recursive queries alone.
    SkipRecursive { position: usize },
}

/// The choice for a built-in rule.
pub open spec fn choice_of(name: Seq<char>, position: int) -> RuleChoice {
    if name == "optimize_projections"@ {
        RuleChoice::SkipRecursive { position: position as usize }
    } else {
        RuleChoice::BuiltIn { position: position as usize }
    }
}

/// The rules to run, given the names of the built-in ones: these in their order, after the rewriting
/// of lateral projections; the one that prunes columns leaves recursive queries alone.
pub fn default_optimizer_rules(built_in: &[String]) -> (rules: Vec<RuleChoice>)
    ensures
        rules@ == seq![RuleChoice::LateralProjection] + Seq::new(
            built_in@.len(),
            |i: int| choice_of(texts(built_in@)[i], i),
        ),
{
    let mut rules: Vec<RuleChoice> = Vec::new();
    rules.push(RuleChoice::LateralProjection);
    let mut i: usize = 0;
    while i < built_in.len()
        invariant
            i <= built_in@.len(),
            rules@.len() == i + 1,
            rules@[0] == RuleChoice::LateralProjection,
            forall|k: int|
                0 < k <= i ==> #[trigger] rules@[k] == choice_of(texts(built_in@)[k - 1], k - 1),
        decreases built_in@.len() - i,
    {
        assert(texts(built_in@)[i as int] == built_in@[i as int]@);
        let rule = if text::str_eq(built_in[i].as_str(), "optimize_projections") {
            RuleChoice::SkipRecursive { position: i }
        } else {
            RuleChoice::BuiltIn { position: i }
        };
        rules.push(rule);
        i = i + 1;
    }
    assert(rules@ =~= seq![RuleChoice::LateralProjection] + Seq::new(
        built_in@.len(),
        |i: int| choice_of(texts(built_in@)[i], i),
    ));
    rules
}

/// A logical plan, as far as the rules depend on it.
#[derive(Debug)]
pub struct LogicalNode {
    pub recursive_query: bool,
    pub children: Vec<LogicalNode>,
}

/// Whether a plan holds a recursive query.
pub open spec fn has_recursive(plan: LogicalNode) -> bool
    decreases plan,
{
    plan.recursive_query || exists|i: int|
        0 <= i < plan.children@.len() && has_recursive(#[trigger] plan.children@[i])
}

/// Whether a plan holds a recursive query, which the pruning of columns leaves alone.
pub fn plan_has_recursive_query(plan: &LogicalNode) -> (found: bool)
    ensures
        found == has_recursive(*plan),
    decreases plan,
{
    if plan.recursive_query {
        return true;
    }
    let mut i: usize = 0;
    while i < plan.children.len()
        invariant
            !plan.recursive_query,
            i <= plan.children@.len(),
            forall|k: int| 0 <= k < i ==> !has_recursive(#[trigger] plan.children@[k]),
        decreases plan.children@.len() - i,
    {
        if plan_has_recursive_query(&plan.children[i]) {
            assert(has_recursive(plan.children@[i as int]));
            return true;
        }
        i = i + 1;
    }
    false
}

/// Only the rule for projections is kept from recursive queries; every rule stays at its position.
pub proof fn law_projections_skip_recursive_queries(name: Seq<char>, position: int)
    requires
        0 <= position <= usize::MAX,
    ensures
        choice_of(name, position) is SkipRecursive <==> name == "optimize_projections"@,
        choice_of(name, position) is BuiltIn <==> name != "optimize_projections"@,
        choice_of(name, position) matches RuleChoice::SkipRecursive { position: p } ==> p
            == position,
        choice_of(name, position) matches RuleChoice::BuiltIn { position: p } ==> p == position,
{
}

/// The plans below another, itself among them, down to a depth.
pub open spec fn is_within(part: LogicalNode, plan: LogicalNode, depth: nat) -> bool
    decreases depth,
{
    part == plan || (depth > 0 && exists|i: int|
        0 <= i < plan.children@.len() && is_within(
            part,
            #[trigger] plan.children@[i],
            (depth - 1) as nat,
        ))
}

/// A recursive query is found at any depth.
pub proof fn law_recursive_queries_are_found(part: LogicalNode, plan: LogicalNode, depth: nat)
    requires
        is_within(part, plan, depth),
        part.recursive_query,
    ensures
        has_recursive(plan),
    decreases depth,
{
    if part != plan {
        let i = choose|i: int|
            0 <= i < plan.children@.len() && is_within(
                part,
                #[trigger] plan.children@[i],
                (depth - 1) as nat,
            );
        law_recursive_queries_are_found(part, plan.children@[i], (depth - 1) as nat);
    }
}

/// What is found is there: where a plan counts as recursive, a recursive query is within it.
pub proof fn law_found_queries_are_there(plan: LogicalNode) -> (found: (LogicalNode, nat))
    requires
        has_recursive(plan),
    ensures
        is_within(found.0, plan, found.1),
        found.0.recursive_query,
    decreases plan,
{
    if plan.recursive_query {
        (plan, 0)
    } else {
        let i = choose|i: int|
            0 <= i < plan.children@.len() && has_recursive(#[trigger] plan.children@[i]);
        let below = law_found_queries_are_there(plan.children@[i]);
        let depth = (below.1 + 1) as nat;
        assert(is_within(below.0, plan.children@[i], (depth - 1) as nat));
        (below.0, depth)
    }
}

} // verus!
