use institution::stock_flow::{
    Bijection, Error, MorphismDefect, StockFlowInstitution, SymbolClass,
};
use institution::symbol_map::SymbolMap;

fn symbols(values: &[u64]) -> SymbolMap<()> {
    SymbolMap::from_entries(values.iter().map(|value| (*value, ())).collect()).unwrap()
}

#[test]
fn bijection_maps_each_symbol_and_back() {
    let source = symbols(&[1, 2, 3]);
    let target = symbols(&[10, 20, 30]);
    let bijection =
        Bijection::new(SymbolClass::Axis, &source, &target, vec![(3, 10), (1, 30), (2, 20)]).unwrap();
    assert_eq!(bijection.map(1), Some(30));
    assert_eq!(bijection.map(3), Some(10));
    assert_eq!(bijection.map(4), None);
    assert_eq!(bijection.preimage(30), Some(1));
    assert_eq!(bijection.preimage(20), Some(2));
    assert_eq!(bijection.preimage(1), None);
}

#[test]
fn bijection_defects_are_reported_in_order() {
    let source = symbols(&[1, 2]);
    let target = symbols(&[10, 20]);
    assert_eq!(
        Bijection::new(SymbolClass::Flow, &source, &target, vec![(1, 10), (7, 20)]),
        Err(Error::InvalidMorphism(MorphismDefect::UnknownSource {
            class: SymbolClass::Flow,
            symbol: 7,
        }))
    );
    assert_eq!(
        Bijection::new(SymbolClass::Ledger, &source, &target, vec![(1, 70), (7, 20)]),
        Err(Error::InvalidMorphism(MorphismDefect::UnknownTarget {
            class: SymbolClass::Ledger,
            symbol: 70,
        }))
    );
    assert_eq!(
        Bijection::new(SymbolClass::Kind, &source, &target, vec![(1, 10), (1, 20)]),
        Err(Error::InvalidMorphism(MorphismDefect::DuplicateSource {
            class: SymbolClass::Kind,
            symbol: 1,
        }))
    );
    assert_eq!(
        Bijection::new(SymbolClass::Boundary, &source, &target, vec![(1, 10), (2, 10)]),
        Err(Error::InvalidMorphism(MorphismDefect::NonInjectiveTarget {
            class: SymbolClass::Boundary,
            symbol: 10,
        }))
    );
    assert_eq!(
        Bijection::new(SymbolClass::Axis, &source, &target, vec![(2, 20)]),
        Err(Error::InvalidMorphism(MorphismDefect::NotTotal {
            class: SymbolClass::Axis,
        }))
    );
    let wider = symbols(&[10, 20, 30]);
    assert_eq!(
        Bijection::new(SymbolClass::Axis, &source, &wider, vec![(1, 10), (2, 20)]),
        Err(Error::InvalidMorphism(MorphismDefect::NotTotal {
            class: SymbolClass::Axis,
        }))
    );
}

#[test]
fn bijections_compose_and_have_identities() {
    let a = symbols(&[1, 2]);
    let b = symbols(&[10, 20]);
    let c = symbols(&[100, 200]);
    let first = Bijection::new(SymbolClass::Axis, &a, &b, vec![(1, 20), (2, 10)]).unwrap();
    let second = Bijection::new(SymbolClass::Axis, &b, &c, vec![(10, 100), (20, 200)]).unwrap();
    let composite = Bijection::compose(&first, &second);
    assert_eq!(composite.map(1), Some(200));
    assert_eq!(composite.map(2), Some(100));
    assert_eq!(composite.preimage(100), Some(2));
    assert_eq!(composite.preimage(200), Some(1));

    let identity = Bijection::identity(&a);
    assert_eq!(identity.map(1), Some(1));
    assert_eq!(identity.preimage(2), Some(2));
    assert_eq!(Bijection::compose(&identity, &first), first);
    assert_eq!(Bijection::compose(&first, &Bijection::identity(&b)), first);
}

#[test]
fn stock_flow_institution_is_a_unit_value() {
    assert_eq!(StockFlowInstitution::default(), StockFlowInstitution);
}

#[test]
fn identity_bijection_is_the_bijection_of_identity_pairs() {
    let values = symbols(&[4, 9, 12]);
    let pairs = vec![(4, 4), (9, 9), (12, 12)];
    assert_eq!(
        Bijection::new(SymbolClass::Kind, &values, &values, pairs),
        Ok(Bijection::identity(&values))
    );
    let empty = symbols(&[]);
    assert_eq!(
        Bijection::new(SymbolClass::Axis, &empty, &empty, vec![]),
        Ok(Bijection::identity(&empty))
    );
}
