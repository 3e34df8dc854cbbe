use std::sync::Arc;

use institution::carrier::{CarrierError, StockFlowCarrier};
use institution::conservation::{BalanceLaw, Grade, GradedLaw, Provenance};
use institution::stock_flow::{
    Error, MorphismDefect, StockFlowInstitution, StockFlowRenaming, StockFlowSignature,
    SymbolClass, TransitionRecordData,
};
use num_bigint::BigInt;
use num_rational::BigRational;

fn q(value: i64) -> BigRational {
    BigRational::from_integer(BigInt::from(value))
}

/// Two stocks of one kind joined by a transfer, an input port feeding the
/// left stock and an output port draining the right one, and a ledger for
/// each port. Every symbol is offset by `base`; the roles are given.
fn carrier_with_roles(base: u64, input_role: u64, output_role: u64) -> StockFlowCarrier {
    let kind = base + 50;
    let mut carrier = StockFlowCarrier::new();
    carrier.add_stock(base + 1, kind).unwrap();
    carrier.add_stock(base + 2, kind).unwrap();
    carrier
        .add_flow(base + 10, kind, vec![(base + 1, q(-1)), (base + 2, q(1))])
        .unwrap();
    carrier
        .add_boundary(base + 20, kind, input_role, vec![(base + 1, q(1))])
        .unwrap();
    carrier
        .add_boundary(base + 21, kind, output_role, vec![(base + 2, q(-1))])
        .unwrap();
    carrier.add_ledger(base + 30, base + 5, kind, vec![base + 20]).unwrap();
    carrier.add_ledger(base + 31, base + 6, kind, vec![base + 21]).unwrap();
    carrier
}

fn signature(base: u64) -> StockFlowSignature {
    StockFlowSignature::new(Arc::new(carrier_with_roles(base, 1, 2)))
}

struct Pairs {
    kinds: Vec<(u64, u64)>,
    axes: Vec<(u64, u64)>,
    flows: Vec<(u64, u64)>,
    boundaries: Vec<(u64, u64)>,
    ledgers: Vec<(u64, u64)>,
}

/// The pairs renaming every symbol at `from` to the same symbol at `to`.
fn shifted(from: u64, to: u64) -> Pairs {
    Pairs {
        kinds: vec![(from + 50, to + 50)],
        axes: vec![
            (from + 1, to + 1),
            (from + 2, to + 2),
            (from + 5, to + 5),
            (from + 6, to + 6),
        ],
        flows: vec![(from + 10, to + 10)],
        boundaries: vec![(from + 20, to + 20), (from + 21, to + 21)],
        ledgers: vec![(from + 30, to + 30), (from + 31, to + 31)],
    }
}

fn rename(
    source: &StockFlowSignature,
    target: &StockFlowSignature,
    pairs: Pairs,
) -> Result<StockFlowRenaming, Error> {
    StockFlowRenaming::new(
        source.clone(),
        target.clone(),
        pairs.kinds,
        pairs.axes,
        pairs.flows,
        pairs.boundaries,
        pairs.ledgers,
    )
}

fn defect(result: Result<StockFlowRenaming, Error>) -> MorphismDefect {
    match result {
        Err(Error::InvalidMorphism(defect)) => defect,
        other => panic!("expected an invalid morphism, got {other:?}"),
    }
}

#[test]
fn carriers_reject_clashing_or_dangling_elements() {
    let mut carrier = StockFlowCarrier::new();
    assert_eq!(carrier.add_stock(1, 50), Ok(()));
    assert_eq!(carrier.add_stock(1, 50), Err(CarrierError::DuplicateAxis(1)));
    assert_eq!(carrier.add_stock(2, 51), Ok(()));
    assert_eq!(
        carrier.add_flow(10, 52, vec![(1, q(1))]),
        Err(CarrierError::UnknownKind(52))
    );
    assert_eq!(
        carrier.add_flow(10, 50, vec![(1, q(1)), (9, q(1))]),
        Err(CarrierError::UnknownStock(9))
    );
    assert_eq!(
        carrier.add_flow(10, 50, vec![(1, q(1)), (1, q(2))]),
        Err(CarrierError::DuplicateCoefficient(1))
    );
    let undefined = BigRational::new_raw(BigInt::from(1), BigInt::from(0));
    assert_eq!(
        carrier.add_flow(10, 50, vec![(1, q(1)), (2, undefined.clone()), (2, q(1))]),
        Err(CarrierError::ZeroDenominator(2))
    );
    assert_eq!(
        carrier.add_boundary(20, 51, 7, vec![(2, undefined)]),
        Err(CarrierError::ZeroDenominator(2))
    );
    assert_eq!(carrier.add_flow(10, 50, vec![(1, q(1))]), Ok(()));
    assert_eq!(carrier.add_flow(10, 50, vec![]), Err(CarrierError::DuplicateFlow(10)));
    assert_eq!(carrier.add_boundary(20, 51, 7, vec![(2, q(3))]), Ok(()));
    assert_eq!(
        carrier.add_boundary(20, 51, 7, vec![]),
        Err(CarrierError::DuplicateBoundary(20))
    );
    assert_eq!(carrier.add_ledger(30, 1, 50, vec![]), Err(CarrierError::DuplicateAxis(1)));
    assert_eq!(
        carrier.add_ledger(30, 5, 50, vec![21]),
        Err(CarrierError::UnknownBoundary(21))
    );
    assert_eq!(
        carrier.add_ledger(30, 5, 50, vec![20, 20]),
        Err(CarrierError::DuplicateLedgerBoundary(20))
    );
    assert_eq!(carrier.add_ledger(30, 5, 50, vec![20]), Ok(()));
    assert_eq!(carrier.add_ledger(30, 6, 50, vec![]), Err(CarrierError::DuplicateLedger(30)));
    assert_eq!(carrier.add_ledger(31, 5, 50, vec![]), Err(CarrierError::DuplicateAxis(5)));
    assert_eq!(carrier.add_stock(5, 50), Err(CarrierError::DuplicateAxis(5)));

    assert_eq!(carrier.axis_kind(2), Some(51));
    assert_eq!(carrier.axis_kind(5), Some(50));
    assert_eq!(carrier.axis_kind(6), None);
    assert!(carrier.is_stock(1));
    assert!(!carrier.is_stock(5));
    assert_eq!(carrier.flow_kind(10), Some(50));
    assert_eq!(carrier.flow_coefficient(10, 1), Some(&q(1)));
    assert_eq!(carrier.flow_coefficient(10, 2), None);
    assert_eq!(carrier.boundary_kind(20), Some(51));
    assert_eq!(carrier.boundary_coefficient(20, 2), Some(&q(3)));
    assert_eq!(carrier.boundary_role(20), Some(7));
    let (axis, kind, fed) = carrier.ledger(30).unwrap();
    assert_eq!((axis, kind, fed.len()), (5, 50, 1));
    assert!(carrier.ledger(31).is_none());
    assert!(carrier.has_axis(5));
    assert!(carrier.has_stock_kind(51));
    assert!(!carrier.has_stock_kind(52));
}

#[test]
fn carriers_list_their_symbols_in_order() {
    let carrier = carrier_with_roles(0, 1, 2);
    let keys = |symbols: institution::symbol_map::SymbolMap<()>| -> Vec<u64> {
        (0..symbols.len()).map(|index| symbols.entry(index).0).collect()
    };
    assert_eq!(keys(carrier.axis_symbols()), vec![1, 2, 5, 6]);
    assert_eq!(keys(carrier.stock_symbols()), vec![1, 2]);
    assert_eq!(keys(carrier.kind_symbols()), vec![50]);
    assert_eq!(keys(carrier.flow_symbols()), vec![10]);
    assert_eq!(keys(carrier.boundary_symbols()), vec![20, 21]);
    assert_eq!(keys(carrier.ledger_symbols()), vec![30, 31]);
    assert!(carrier.same_as(&carrier_with_roles(0, 1, 2)));
    assert!(!carrier.same_as(&carrier_with_roles(0, 2, 1)));
    assert!(!carrier.same_as(&carrier_with_roles(100, 1, 2)));
}

#[test]
fn structure_preserving_renaming_maps_every_symbol() {
    let source = signature(0);
    let target = signature(100);
    let renaming = rename(&source, &target, shifted(0, 100)).unwrap();
    assert_eq!(renaming.source(), &source);
    assert_eq!(renaming.target(), &target);
    assert_eq!(renaming.map_kind(50), Some(150));
    assert_eq!(renaming.map_axis(5), Some(105));
    assert_eq!(renaming.map_flow(10), Some(110));
    assert_eq!(renaming.map_boundary(21), Some(121));
    assert_eq!(renaming.map_ledger(30), Some(130));
    assert_eq!(renaming.map_axis(3), None);
}

#[test]
fn bijection_defects_come_before_structure() {
    let source = signature(0);
    let target = signature(100);
    let mut pairs = shifted(0, 100);
    pairs.ledgers.pop();
    assert_eq!(
        defect(rename(&source, &target, pairs)),
        MorphismDefect::NotTotal {
            class: SymbolClass::Ledger
        }
    );
    let mut pairs = shifted(0, 100);
    pairs.kinds = vec![(50, 151)];
    assert_eq!(
        defect(rename(&source, &target, pairs)),
        MorphismDefect::UnknownTarget {
            class: SymbolClass::Kind,
            symbol: 151
        }
    );
}

#[test]
fn renamings_must_keep_axis_roles_and_incidences() {
    let source = signature(0);
    let target = signature(100);

    let mut pairs = shifted(0, 100);
    pairs.axes = vec![(1, 105), (2, 102), (5, 101), (6, 106)];
    assert_eq!(
        defect(rename(&source, &target, pairs)),
        MorphismDefect::AxisRoleNotPreserved { axis: 1 }
    );

    let mut pairs = shifted(0, 100);
    pairs.axes = vec![(1, 102), (2, 101), (5, 105), (6, 106)];
    assert_eq!(
        defect(rename(&source, &target, pairs)),
        MorphismDefect::InternalIncidenceNotPreserved { flow: 10 }
    );

    let mut pairs = shifted(0, 100);
    pairs.boundaries = vec![(20, 121), (21, 120)];
    assert_eq!(
        defect(rename(&source, &target, pairs)),
        MorphismDefect::BoundaryIncidenceNotPreserved { boundary: 20 }
    );

    let swapped_roles = StockFlowSignature::new(Arc::new(carrier_with_roles(100, 2, 1)));
    assert_eq!(
        defect(rename(&source, &swapped_roles, shifted(0, 100))),
        MorphismDefect::BoundaryRoleNotPreserved { boundary: 20 }
    );

    let mut pairs = shifted(0, 100);
    pairs.ledgers = vec![(30, 131), (31, 130)];
    assert_eq!(
        defect(rename(&source, &target, pairs)),
        MorphismDefect::LedgerNotPreserved { ledger: 30 }
    );
}

#[test]
fn renamings_must_keep_kinds_and_ledger_feeds() {
    let mut two_kinds = StockFlowCarrier::new();
    two_kinds.add_stock(1, 50).unwrap();
    two_kinds.add_stock(2, 51).unwrap();
    two_kinds.add_flow(10, 50, vec![(1, q(1))]).unwrap();
    let mut image = StockFlowCarrier::new();
    image.add_stock(101, 150).unwrap();
    image.add_stock(102, 151).unwrap();
    image.add_flow(110, 151, vec![(101, q(1))]).unwrap();
    let source = StockFlowSignature::new(Arc::new(two_kinds));
    let target = StockFlowSignature::new(Arc::new(image));
    let kinds = vec![(50, 150), (51, 151)];
    assert_eq!(
        defect(StockFlowRenaming::new(
            source.clone(),
            target.clone(),
            kinds.clone(),
            vec![(1, 102), (2, 101)],
            vec![(10, 110)],
            vec![],
            vec![],
        )),
        MorphismDefect::AxisKindNotPreserved { axis: 1 }
    );
    assert_eq!(
        defect(StockFlowRenaming::new(
            source,
            target,
            kinds,
            vec![(1, 101), (2, 102)],
            vec![(10, 110)],
            vec![],
            vec![],
        )),
        MorphismDefect::FlowKindNotPreserved { flow: 10 }
    );

    let mut fed_by_both = StockFlowCarrier::new();
    fed_by_both.add_stock(101, 150).unwrap();
    fed_by_both.add_stock(102, 150).unwrap();
    fed_by_both
        .add_flow(110, 150, vec![(101, q(-1)), (102, q(1))])
        .unwrap();
    fed_by_both
        .add_boundary(120, 150, 1, vec![(101, q(1))])
        .unwrap();
    fed_by_both
        .add_boundary(121, 150, 2, vec![(102, q(-1))])
        .unwrap();
    fed_by_both.add_ledger(130, 105, 150, vec![120, 121]).unwrap();
    fed_by_both.add_ledger(131, 106, 150, vec![121]).unwrap();
    let target = StockFlowSignature::new(Arc::new(fed_by_both));
    assert_eq!(
        defect(rename(&signature(0), &target, shifted(0, 100))),
        MorphismDefect::LedgerBoundariesNotPreserved { ledger: 30 }
    );
}

#[test]
fn stock_flow_renamings_compose_and_have_identities() {
    let first_signature = signature(0);
    let middle = signature(100);
    let last = signature(200);
    let first = rename(&first_signature, &middle, shifted(0, 100)).unwrap();
    let second = rename(&middle, &last, shifted(100, 200)).unwrap();
    let composite = StockFlowRenaming::compose(&first, &second).unwrap();
    assert_eq!(composite, rename(&first_signature, &last, shifted(0, 200)).unwrap());
    assert_eq!(composite.map_axis(6), Some(206));

    let identity = StockFlowRenaming::identity(&first_signature);
    assert_eq!(identity.map_boundary(20), Some(20));
    assert_eq!(StockFlowRenaming::compose(&identity, &first), Ok(first.clone()));
    assert_eq!(
        StockFlowRenaming::compose(&second, &first),
        Err(Error::NotComposable)
    );
}

#[test]
fn identity_renamings_are_units_on_both_sides() {
    let source = signature(0);
    let target = signature(100);
    let renaming = rename(&source, &target, shifted(0, 100)).unwrap();
    let before = StockFlowRenaming::identity(&source);
    let after = StockFlowRenaming::identity(&target);
    assert_eq!(StockFlowRenaming::compose(&before, &renaming), Ok(renaming.clone()));
    assert_eq!(StockFlowRenaming::compose(&renaming, &after), Ok(renaming.clone()));
    let equal_copy = signature(100);
    let via_copy = StockFlowRenaming::identity(&equal_copy);
    assert_eq!(StockFlowRenaming::compose(&renaming, &via_copy), Ok(renaming.clone()));
}

fn record(base: u64, left: i64, right: i64, moved: i64) -> TransitionRecordData {
    let kind = base + 50;
    TransitionRecordData {
        before: vec![(base + 1, kind, q(left)), (base + 2, kind, q(right))],
        after: vec![(base + 1, kind, q(left - moved)), (base + 2, kind, q(right + moved))],
        requested_internal: vec![(base + 10, kind, q(moved))],
        settled_internal: vec![(base + 10, kind, q(moved))],
        requested_boundary: vec![(base + 20, kind, q(0)), (base + 21, kind, q(0))],
        settled_boundary: vec![(base + 21, kind, q(0))],
        ledger_before: vec![(base + 30, kind, q(0)), (base + 31, kind, q(0))],
        ledger_after: vec![(base + 31, kind, q(0)), (base + 30, kind, q(0))],
    }
}

#[test]
fn records_are_pulled_back_symbol_by_symbol() {
    let source = signature(0);
    let target = signature(100);
    let mut pairs = shifted(0, 100);
    pairs.boundaries = vec![(20, 120), (21, 121)];
    let renaming = rename(&source, &target, pairs).unwrap();
    let pulled = renaming.pull_back_record(&record(100, 7, 3, 2));
    assert_eq!(pulled, record(0, 7, 3, 2));

    let reduced = StockFlowInstitution::reduce_records(
        &renaming,
        &target,
        &vec![record(100, 7, 3, 2), record(100, 5, 5, 1)],
    )
    .unwrap();
    assert_eq!(reduced, vec![record(0, 7, 3, 2), record(0, 5, 5, 1)]);
    assert_eq!(
        StockFlowInstitution::reduce_records(&renaming, &signature(200), &vec![]),
        Err(Error::ModelSignatureMismatch)
    );
}

#[test]
fn graded_laws_translate_along_renamings() {
    let renaming = rename(&signature(0), &signature(100), shifted(0, 100)).unwrap();
    let law = GradedLaw::new(
        BalanceLaw::new(50, vec![(2, q(3)), (5, q(-1))], Provenance::Declared).unwrap(),
        Grade::Nonnegative,
    );
    let translated = renaming.translate_graded(&law).unwrap();
    assert_eq!(translated.form().kind(), 150);
    assert_eq!(translated.form().coefficient(102), Some(&q(3)));
    assert_eq!(translated.form().coefficient(105), Some(&q(-1)));
    assert_eq!(translated.form().coefficient(2), None);
    assert_eq!(translated.form().provenance(), Provenance::Declared);
    assert_eq!(translated.grade(), Grade::Nonnegative);

    let outside_axis = GradedLaw::new(
        BalanceLaw::new(50, vec![(3, q(1))], Provenance::Declared).unwrap(),
        Grade::Invariant,
    );
    assert!(renaming.translate_graded(&outside_axis).is_none());
    let outside_kind = GradedLaw::new(
        BalanceLaw::new(51, vec![], Provenance::Declared).unwrap(),
        Grade::Invariant,
    );
    assert!(renaming.translate_graded(&outside_kind).is_none());
}

#[test]
fn carriers_compare_coefficients_by_value() {
    let build = |coefficient: BigRational| {
        let mut carrier = StockFlowCarrier::new();
        carrier.add_stock(1, 50).unwrap();
        carrier.add_flow(10, 50, vec![(1, coefficient)]).unwrap();
        carrier
    };
    let half = BigRational::new(BigInt::from(1), BigInt::from(2));
    let unreduced_half = BigRational::new_raw(BigInt::from(2), BigInt::from(4));
    assert!(build(half.clone()).same_as(&build(unreduced_half)));
    assert!(!build(half).same_as(&build(q(1))));
}

#[test]
fn composite_renamings_translate_and_pull_back_stepwise() {
    let (a, b, c) = (signature(0), signature(100), signature(200));
    let first = rename(&a, &b, shifted(0, 100)).unwrap();
    let second = rename(&b, &c, shifted(100, 200)).unwrap();
    let composite = StockFlowRenaming::compose(&first, &second).unwrap();

    let law = GradedLaw::new(
        BalanceLaw::new(50, vec![(1, q(2)), (6, q(5))], Provenance::IncidenceNullspace).unwrap(),
        Grade::Nondecreasing,
    );
    let stepwise = second
        .translate_graded(&first.translate_graded(&law).unwrap())
        .unwrap();
    let direct = composite.translate_graded(&law).unwrap();
    assert_eq!(direct, stepwise);
    assert_eq!(direct.form().coefficient(206), Some(&q(5)));

    let later = record(200, 4, 4, 3);
    assert_eq!(
        composite.pull_back_record(&later),
        first.pull_back_record(&second.pull_back_record(&later))
    );
    let identity = StockFlowRenaming::identity(&c);
    assert_eq!(identity.pull_back_record(&later), later);
    assert_eq!(
        StockFlowRenaming::identity(&a).translate_graded(&law),
        Some(law.clone())
    );
}
