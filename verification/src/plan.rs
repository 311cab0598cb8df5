//! Whether a band's physical plan can stream in hash order.
use vstd::prelude::*;

use crate::text::same_text;

verus! {

/// The kinds of plan nodes that the decision to stream tells apart.
#[derive(Clone, Copy, PartialEq, Eq, Structural, Debug)]
pub enum PlanKind {
    /// Sorts its input.
    Sort,
    /// Merges sorted partitions into one.
    SortPreservingMerge,
    Other,
}

/// The leading sort key of a plan's output. `column` is its name where the key
/// is a plain column.
pub struct SortKey {
    pub descending: bool,
    pub column: Option<String>,
}

/// A physical plan, as far as the decision to stream depends on it.
pub struct PlanNode {
    pub kind: PlanKind,
    pub partition_count: usize,
    pub ordering: Option<SortKey>,
    pub children: Vec<PlanNode>,
}

/// Which streams a band folds from.
#[derive(Clone, Copy, PartialEq, Eq, Structural, Debug)]
pub enum BandSource {
    /// The partitions of the merge's input, so that the row-level merge itself
    /// is never executed.
    MergeInputs,
    /// The single partition of the plan.
    WholePlan,
}

/// Some node of the plan sorts.
pub open spec fn contains_sort(plan: PlanNode) -> bool
    decreases plan,
{
    ||| plan.kind == PlanKind::Sort
    ||| exists|i: int| 0 <= i < plan.children@.len() && contains_sort(#[trigger] plan.children@[i])
}

/// The plan's output is ordered by the hash column first, ascending.
pub open spec fn orders_by_hash(plan: PlanNode, hash: Seq<char>) -> bool {
    match plan.ordering {
        Some(key) => !key.descending && match key.column {
            Some(column) => column@ == hash,
            None => false,
        },
        None => false,
    }
}

/// What a band with that plan folds from: nothing where the plan sorts, the
/// inputs of a merge of sorted partitions, or the plan itself where it is one
/// partition in hash order.
pub open spec fn source_of(plan: PlanNode, hash: Seq<char>) -> Option<BandSource> {
    if contains_sort(plan) {
        None
    } else if plan.kind == PlanKind::SortPreservingMerge {
        Some(BandSource::MergeInputs)
    } else if plan.partition_count == 1 && orders_by_hash(plan, hash) {
        Some(BandSource::WholePlan)
    } else {
        None
    }
}

/// Whether some node of the plan sorts.
pub fn plan_contains_sort(plan: &PlanNode) -> (found: bool)
    ensures
        found == contains_sort(*plan),
    decreases *plan,
{
    match plan.kind {
        PlanKind::Sort => {
            return true;
        },
        PlanKind::SortPreservingMerge => {},
        PlanKind::Other => {},
    }
    let mut i: usize = 0;
    while i < plan.children.len()
        invariant
            i <= plan.children@.len(),
            plan.kind != PlanKind::Sort,
            forall|k: int| 0 <= k < i ==> !contains_sort(#[trigger] plan.children@[k]),
        decreases plan.children@.len() - i,
    {
        assert(decreases_to!(*plan => plan.children@[i as int]));
        if plan_contains_sort(&plan.children[i]) {
            return true;
        }
        i += 1;
    }
    false
}

/// Whether the plan's output is ordered by the hash column, ascending.
pub fn hash_ordered(plan: &PlanNode, hash: &str) -> (ordered: bool)
    ensures
        ordered == orders_by_hash(*plan, hash@),
        ordered <==> (plan.ordering matches Some(key) && !key.descending && (
        key.column matches Some(column) && column@ == hash@)),
{
    match &plan.ordering {
        Some(key) => {
            if key.descending {
                return false;
            }
            match &key.column {
                Some(column) => same_text(column.as_str(), hash),
                None => false,
            }
        },
        None => false,
    }
}

/// The hash-ordered inputs a band folds from. `None` where the plan needs an
/// actual sort, or is neither a merge of sorted partitions nor one partition in
/// hash order.
pub fn band_streams(plan: &PlanNode, hash: &str) -> (source: Option<BandSource>)
    ensures
        source == source_of(*plan, hash@),
{
    if plan_contains_sort(plan) {
        return None;
    }
    match plan.kind {
        PlanKind::SortPreservingMerge => {
            return Some(BandSource::MergeInputs);
        },
        PlanKind::Sort => {},
        PlanKind::Other => {},
    }
    if plan.partition_count == 1 && hash_ordered(plan, hash) {
        return Some(BandSource::WholePlan);
    }
    None
}

/// Whether `node` is `plan` or stands somewhere below it.
pub open spec fn occurs_in(node: PlanNode, plan: PlanNode) -> bool
    decreases plan,
{
    ||| node == plan
    ||| exists|i: int|
        0 <= i < plan.children@.len() && occurs_in(node, #[trigger] plan.children@[i])
}

/// A plan that sorts anywhere is never streamed: a node below it that is a sort
/// rules it out, however deep it stands.
pub proof fn sort_anywhere_rules_out(node: PlanNode, plan: PlanNode)
    requires
        occurs_in(node, plan),
        node.kind == PlanKind::Sort,
    ensures
        contains_sort(plan),
        forall|hash: Seq<char>| #[trigger] source_of(plan, hash) is None,
    decreases plan,
{
    if node != plan {
        let i = choose|i: int|
            0 <= i < plan.children@.len() && occurs_in(node, #[trigger] plan.children@[i]);
        sort_anywhere_rules_out(node, plan.children@[i]);
    }
}

/// Where a plan is said to hold a sort, a path leads down from it, child by
/// child, to a node that sorts.
pub proof fn sorts_are_found_below(plan: PlanNode) -> (path: Seq<PlanNode>)
    requires
        contains_sort(plan),
    ensures
        path.len() > 0,
        path[0] == plan,
        path[path.len() - 1].kind == PlanKind::Sort,
        forall|i: int|
            0 <= i < path.len() - 1 ==> (#[trigger] path[i]).children@.contains(path[i + 1]),
    decreases plan,
{
    if plan.kind == PlanKind::Sort {
        seq![plan]
    } else {
        let c = choose|c: int|
            0 <= c < plan.children@.len() && contains_sort(#[trigger] plan.children@[c]);
        let below = sorts_are_found_below(plan.children@[c]);
        let path = seq![plan] + below;
        assert forall|i: int| 0 <= i < path.len() - 1 implies (#[trigger] path[i]).children@.contains(
            path[i + 1],
        ) by {
            if i > 0 {
                assert(path[i] == below[i - 1]);
                assert(path[i + 1] == below[i]);
            }
        }
        path
    }
}

/// Where a path leads down from a plan, child by child, to a node that sorts,
/// the plan is not streamed, however long the path is.
pub proof fn sorts_below_rule_out(path: Seq<PlanNode>, hash: Seq<char>)
    requires
        path.len() > 0,
        path[path.len() - 1].kind == PlanKind::Sort,
        forall|i: int|
            0 <= i < path.len() - 1 ==> (#[trigger] path[i]).children@.contains(path[i + 1]),
    ensures
        contains_sort(path[0]),
        source_of(path[0], hash) is None,
    decreases path.len(),
{
    if path.len() > 1 {
        let rest = path.drop_first();
        assert forall|i: int| 0 <= i < rest.len() - 1 implies (#[trigger] rest[i]).children@.contains(
            rest[i + 1],
        ) by {
            assert(rest[i] == path[i + 1]);
            assert(rest[i + 1] == path[i + 1 + 1]);
        }
        assert(rest[rest.len() - 1] == path[path.len() - 1]);
        sorts_below_rule_out(rest, hash);
        assert(path[0].children@.contains(path[1]));
        let c = choose|c: int|
            0 <= c < path[0].children@.len() && path[0].children@[c] == path[1];
        assert(contains_sort(path[0].children@[c]));
    }
}

/// A merge of sorted partitions streams from its inputs, whatever its other
/// properties and those of its inputs are, unless a path leads down from it to a
/// node that sorts.
pub proof fn merges_stream_from_their_inputs(plan: PlanNode, hash: Seq<char>)
    requires
        plan.kind == PlanKind::SortPreservingMerge,
        forall|path: Seq<PlanNode>|
            #![trigger path.len()]
            path.len() > 0 && path[0] == plan && (forall|i: int|
                0 <= i < path.len() - 1 ==> (#[trigger] path[i]).children@.contains(path[i + 1]))
                ==> path[path.len() - 1].kind != PlanKind::Sort,
    ensures
        source_of(plan, hash) == Some(BandSource::MergeInputs),
{
    if contains_sort(plan) {
        let path = sorts_are_found_below(plan);
        assert(path.len() > 0);
    }
}

/// A plan that is no merge streams as it is just where it is one partition whose
/// leading sort key is the hash column, ascending, unless a path leads down from
/// it to a node that sorts.
pub proof fn ordered_partitions_stream_as_they_are(plan: PlanNode, hash: Seq<char>)
    requires
        plan.kind != PlanKind::SortPreservingMerge,
        forall|path: Seq<PlanNode>|
            #![trigger path.len()]
            path.len() > 0 && path[0] == plan && (forall|i: int|
                0 <= i < path.len() - 1 ==> (#[trigger] path[i]).children@.contains(path[i + 1]))
                ==> path[path.len() - 1].kind != PlanKind::Sort,
    ensures
        plan.partition_count == 1 && plan.ordering is Some && !plan.ordering->0.descending
            && plan.ordering->0.column is Some && plan.ordering->0.column->0@ == hash
            ==> source_of(plan, hash) == Some(BandSource::WholePlan),
        plan.partition_count != 1 || plan.ordering is None || plan.ordering->0.descending
            || plan.ordering->0.column is None || plan.ordering->0.column->0@ != hash ==> source_of(
            plan,
            hash,
        ) is None,
{
    if contains_sort(plan) {
        let path = sorts_are_found_below(plan);
        assert(path.len() > 0);
    }
}

/// A plan is in hash order just where its leading sort key is the hash column,
/// ascending.
pub proof fn hash_order_is_the_leading_key(plan: PlanNode, hash: Seq<char>)
    ensures
        orders_by_hash(plan, hash) <==> plan.ordering is Some && !plan.ordering->0.descending
            && plan.ordering->0.column is Some && plan.ordering->0.column->0@ == hash,
{
}

} // verus!
