use promql_streaming::band_plan::{BandPlanner, PlanStep};
use promql_streaming::bands::hash_bands;
use promql_streaming::plan::{
    band_streams, hash_ordered, plan_contains_sort, BandSource, PlanKind, PlanNode, SortKey,
};

const HASH: &str = "__hash__";

fn by_column(name: &str, descending: bool) -> Option<SortKey> {
    Some(SortKey { descending, column: Some(name.to_string()) })
}

fn node(kind: PlanKind, partition_count: usize, children: Vec<PlanNode>) -> PlanNode {
    PlanNode { kind, partition_count, ordering: by_column(HASH, false), children }
}

fn scan(partition_count: usize) -> PlanNode {
    node(PlanKind::Other, partition_count, vec![])
}

#[test]
fn a_merge_of_ordered_partitions_streams_from_its_inputs() {
    let plan = node(PlanKind::SortPreservingMerge, 1, vec![scan(2)]);
    assert_eq!(band_streams(&plan, HASH), Some(BandSource::MergeInputs));
}

#[test]
fn one_ordered_partition_streams_as_it_is() {
    assert_eq!(band_streams(&scan(1), HASH), Some(BandSource::WholePlan));
}

#[test]
fn several_partitions_without_a_merge_do_not_stream() {
    assert_eq!(band_streams(&scan(2), HASH), None);
}

#[test]
fn a_sort_at_any_depth_rules_the_plan_out() {
    let sort = node(PlanKind::Sort, 1, vec![scan(1)]);
    assert!(plan_contains_sort(&sort));
    assert_eq!(band_streams(&sort, HASH), None);
    let filter = node(PlanKind::Other, 1, vec![scan(1), sort]);
    let merge = node(PlanKind::SortPreservingMerge, 1, vec![filter]);
    assert!(plan_contains_sort(&merge));
    assert_eq!(band_streams(&merge, HASH), None);
    assert!(!plan_contains_sort(&scan(1)));
}

#[test]
fn the_leading_key_must_be_the_ascending_hash_column() {
    let mut plan = scan(1);
    assert!(hash_ordered(&plan, HASH));
    plan.ordering = by_column(HASH, true);
    assert!(!hash_ordered(&plan, HASH));
    assert_eq!(band_streams(&plan, HASH), None);
    plan.ordering = by_column("_timestamp", false);
    assert!(!hash_ordered(&plan, HASH));
    assert_eq!(band_streams(&plan, HASH), None);
    plan.ordering = Some(SortKey { descending: false, column: None });
    assert!(!hash_ordered(&plan, HASH));
    assert_eq!(band_streams(&plan, HASH), None);
    plan.ordering = None;
    assert!(!hash_ordered(&plan, HASH));
    assert_eq!(band_streams(&plan, HASH), None);
}

#[test]
fn bands_are_planned_in_order() {
    let mut planner = BandPlanner::new(3);
    for (index, (low, high)) in hash_bands(3).into_iter().enumerate() {
        assert_eq!(
            planner.step(),
            PlanStep::PlanBand { band: index, lo: low, hi: high }
        );
        assert_eq!(planner.take_plan(&scan(1), HASH), Some(BandSource::WholePlan));
    }
    assert_eq!(planner.step(), PlanStep::Ready);
}

#[test]
fn planning_stops_at_the_first_band_that_cannot_stream() {
    let mut planner = BandPlanner::new(3);
    let merge = node(PlanKind::SortPreservingMerge, 1, vec![scan(2)]);
    assert_eq!(planner.take_plan(&merge, HASH), Some(BandSource::MergeInputs));
    let sort = node(PlanKind::Sort, 1, vec![scan(1)]);
    assert_eq!(planner.take_plan(&sort, HASH), None);
    assert_eq!(planner.step(), PlanStep::CannotStream(1));
}

#[test]
fn at_least_one_band_is_planned() {
    let planner = BandPlanner::new(0);
    assert_eq!(
        planner.step(),
        PlanStep::PlanBand { band: 0, lo: 0, hi: u64::MAX }
    );
}
