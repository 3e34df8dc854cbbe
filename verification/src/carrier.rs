//! Exact stock-flow carriers.
//!
//! A carrier names stocks (axes of a kind), internal flow channels and
//! boundary ports, each with its kind and its exact effect on the stocks,
//! a role for each boundary port, and cumulative ledgers: axes of a kind fed
//! by a set of boundary ports. Carriers are built one element at a time, and
//! every element is checked against what is already there.
use num_bigint::Sign;
use num_rational::BigRational;
use vstd::prelude::*;

use crate::conservation::{AxisId, KindId, copy_amounts};
use crate::symbol_map::{SymbolMap, collect_entries, keys_of, lemma_same_keys, same_keys};

verus! {

/// An internal flow channel.
pub type FlowId = u64;

/// A boundary port.
pub type BoundaryId = u64;

/// A cumulative ledger.
pub type LedgerId = u64;

/// The role a boundary port plays.
pub type RoleId = u64;

/// Why a carrier could not take a new element.
#[derive(Clone, Copy, Debug, PartialEq, Eq, Structural)]
pub enum CarrierError {
    /// The axis is already a stock or a ledger axis.
    DuplicateAxis(AxisId),
    /// The flow channel already exists.
    DuplicateFlow(FlowId),
    /// The boundary port already exists.
    DuplicateBoundary(BoundaryId),
    /// The ledger already exists.
    DuplicateLedger(LedgerId),
    /// A flow channel or boundary port has a kind that no stock has.
    UnknownKind(KindId),
    /// An effect names an axis that is not a stock.
    UnknownStock(AxisId),
    /// An effect's coefficient at a stock has a zero denominator.
    ZeroDenominator(AxisId),
    /// An effect names a stock twice.
    DuplicateCoefficient(AxisId),
    /// A ledger names a boundary port that does not exist.
    UnknownBoundary(BoundaryId),
    /// A ledger names a boundary port twice.
    DuplicateLedgerBoundary(BoundaryId),
}

/// The first of `keys`, in order, that `known` lacks.
pub open spec fn first_outside(keys: Seq<u64>, known: Set<u64>) -> Option<u64>
    decreases keys.len(),
{
    if keys.len() == 0 {
        None
    } else {
        match first_outside(keys.drop_last(), known) {
            Some(key) => Some(key),
            None => if known.contains(keys.last()) {
                None
            } else {
                Some(keys.last())
            },
        }
    }
}

/// `symbols` as entries with no value.
pub open spec fn unit_entries(symbols: Seq<u64>) -> Seq<(u64, ())> {
    symbols.map_values(|symbol: u64| (symbol, ()))
}

/// The kind of one flow channel or boundary port and its coefficient at
/// each stock it changes.
#[derive(Debug, PartialEq, Eq)]
pub struct EffectColumn {
    kind: KindId,
    coefficients: SymbolMap<BigRational>,
}

/// A boundary port: its effect on the stocks and its role.
#[derive(Debug, PartialEq, Eq)]
pub struct BoundaryPort {
    column: EffectColumn,
    role: RoleId,
}

/// A cumulative ledger: an axis of one kind, fed by a set of boundary ports.
#[derive(Debug, PartialEq, Eq)]
pub struct Ledger {
    axis: AxisId,
    kind: KindId,
    boundaries: SymbolMap<()>,
}

/// The column has the kind of some stock, every stock it changes is a stock
/// of the carrier, and every coefficient has a nonzero denominator.
pub closed spec fn column_fits(column: EffectColumn, stocks: Map<AxisId, KindId>) -> bool {
    &&& column.coefficients.well_formed()
    &&& column.coefficients@.dom().subset_of(stocks.dom())
    &&& stocks.values().contains(column.kind)
    &&& forall|axis: AxisId| #[trigger]
        column.coefficients@.dom().contains(axis) ==> has_denominator(column.coefficients@[axis])
}

/// Once a prefix of `keys` has a key outside `known`, every longer prefix
/// reports that same key.
proof fn lemma_first_outside_persists(keys: Seq<u64>, known: Set<u64>, i: int, j: int)
    requires
        0 <= i <= j <= keys.len(),
        first_outside(keys.take(i), known) is Some,
    ensures
        first_outside(keys.take(j), known) == first_outside(keys.take(i), known),
    decreases j - i,
{
    if i < j {
        lemma_first_outside_persists(keys, known, i, j - 1);
        assert(keys.take(j).drop_last() == keys.take(j - 1));
    }
}

/// No key of `keys` is outside `known` exactly when `known` holds them all.
proof fn lemma_first_outside_none(keys: Seq<u64>, known: Set<u64>)
    ensures
        first_outside(keys, known) is None <==> forall|i: int|
            0 <= i < keys.len() ==> known.contains(#[trigger] keys[i]),
    decreases keys.len(),
{
    if keys.len() > 0 {
        lemma_first_outside_none(keys.drop_last(), known);
        assert forall|i: int| 0 <= i < keys.len() - 1 implies keys.drop_last()[i] == keys[i] by {}
    }
}

/// Each key of a map collected from `entries` is the key of an entry that
/// carries its value.
proof fn lemma_collected_keys<V>(entries: Seq<(u64, V)>)
    requires
        collect_entries(entries) is Ok,
    ensures
        forall|key: u64| #[trigger]
            collect_entries(entries)->Ok_0.dom().contains(key) ==> exists|i: int|
                0 <= i < entries.len() && entries[i].0 == key && collect_entries(entries)->Ok_0[key]
                    == entries[i].1,
    decreases entries.len(),
{
    if entries.len() > 0 {
        lemma_collected_keys(entries.drop_last());
        let map = collect_entries(entries)->Ok_0;
        let prefix_map = collect_entries(entries.drop_last())->Ok_0;
        assert forall|key: u64| #[trigger] map.dom().contains(key) implies exists|i: int|
            0 <= i < entries.len() && entries[i].0 == key && map[key] == entries[i].1 by {
            if key != entries.last().0 {
                let i = choose|i: int|
                    0 <= i < entries.drop_last().len() && entries.drop_last()[i].0 == key
                        && prefix_map[key] == entries.drop_last()[i].1;
                assert(entries[i] == entries.drop_last()[i]);
            } else {
                assert(entries[entries.len() - 1].0 == key);
            }
        }
    }
}

/// What `value.denom().sign() != Sign::NoSign` answers for an exact rational:
/// whether its denominator is nonzero.
pub uninterp spec fn has_denominator(value: BigRational) -> bool;

/// Calls `Ratio::denom` and `BigInt::sign`: whether the denominator of
/// `value` is nonzero.
#[verifier::external_body]
pub(crate) fn denominator_is_nonzero(value: &BigRational) -> (nonzero: bool)
    ensures
        nonzero == has_denominator(*value),
{
    value.denom().sign() != Sign::NoSign
}

/// The first key of `entries`, in order, whose amount has a zero
/// denominator.
pub open spec fn first_without_denominator(entries: Seq<(u64, BigRational)>) -> Option<u64>
    decreases entries.len(),
{
    if entries.len() == 0 {
        None
    } else {
        match first_without_denominator(entries.drop_last()) {
            Some(key) => Some(key),
            None => if has_denominator(entries.last().1) {
                None
            } else {
                Some(entries.last().0)
            },
        }
    }
}

proof fn lemma_first_without_denominator_persists(
    entries: Seq<(u64, BigRational)>,
    i: int,
    j: int,
)
    requires
        0 <= i <= j <= entries.len(),
        first_without_denominator(entries.take(i)) is Some,
    ensures
        first_without_denominator(entries.take(j)) == first_without_denominator(entries.take(i)),
    decreases j - i,
{
    if i < j {
        lemma_first_without_denominator_persists(entries, i, j - 1);
        assert(entries.take(j).drop_last() == entries.take(j - 1));
    }
}

/// No amount of `entries` lacks a denominator exactly when all have one.
proof fn lemma_first_without_denominator_none(entries: Seq<(u64, BigRational)>)
    ensures
        first_without_denominator(entries) is None <==> forall|i: int|
            0 <= i < entries.len() ==> has_denominator(#[trigger] entries[i].1),
    decreases entries.len(),
{
    if entries.len() > 0 {
        lemma_first_without_denominator_none(entries.drop_last());
        assert forall|i: int| 0 <= i < entries.len() - 1 implies entries.drop_last()[i] == entries[i] by {}
    }
}

/// The first key of `entries`, in order, whose amount has a zero
/// denominator.
fn first_zero_denominator(entries: &Vec<(u64, BigRational)>) -> (key: Option<u64>)
    ensures
        key == first_without_denominator(entries@),
{
    let mut index: usize = 0;
    while index < entries.len()
        invariant
            index <= entries@.len(),
            first_without_denominator(entries@.take(index as int)) == None::<u64>,
        decreases entries@.len() - index,
    {
        proof {
            assert(entries@.take(index + 1).drop_last() == entries@.take(index as int));
            assert(entries@.take(index + 1).last() == entries@[index as int]);
        }
        if !denominator_is_nonzero(&entries[index].1) {
            proof {
                lemma_first_without_denominator_persists(entries@, index + 1, entries@.len() as int);
                assert(entries@.take(entries@.len() as int) == entries@);
            }
            return Some(entries[index].0);
        }
        index = index + 1;
    }
    proof {
        assert(entries@.take(entries@.len() as int) == entries@);
    }
    None
}

/// Inserting a new key keeps every value of a map.
proof fn lemma_values_grow(map: Map<AxisId, KindId>, key: AxisId, value: KindId)
    requires
        !map.dom().contains(key),
    ensures
        map.values().subset_of(map.insert(key, value).values()),
        map.insert(key, value).values().contains(value),
{
    assert forall|kind: KindId| map.values().contains(kind) implies map.insert(key, value).values().contains(
        kind,
    ) by {
        let axis = choose|axis: AxisId| map.dom().contains(axis) && map[axis] == kind;
        assert(map.insert(key, value).dom().contains(axis));
    }
    assert(map.insert(key, value).dom().contains(key));
}

/// The first key of `entries`, in order, that `known` lacks.
fn first_unknown_key<V, W>(entries: &Vec<(u64, V)>, known: &SymbolMap<W>) -> (outside: Option<u64>)
    requires
        known.well_formed(),
    ensures
        outside == first_outside(keys_of(entries@), known@.dom()),
{
    let ghost keys = keys_of(entries@);
    let mut index: usize = 0;
    while index < entries.len()
        invariant
            index <= entries@.len(),
            keys == keys_of(entries@),
            known.well_formed(),
            first_outside(keys.take(index as int), known@.dom()) == None::<u64>,
        decreases entries@.len() - index,
    {
        let key = entries[index].0;
        proof {
            assert(keys.take(index + 1).drop_last() == keys.take(index as int));
            assert(keys.take(index + 1).last() == key);
        }
        if !known.contains(key) {
            proof {
                lemma_first_outside_persists(keys, known@.dom(), index + 1, keys.len() as int);
                assert(keys.take(keys.len() as int) == keys);
            }
            return Some(key);
        }
        index = index + 1;
    }
    proof {
        assert(keys.take(keys.len() as int) == keys);
    }
    None
}

/// `symbols` as entries with no value.
fn unit_pairs(symbols: &Vec<u64>) -> (pairs: Vec<(u64, ())>)
    ensures
        pairs@ == unit_entries(symbols@),
{
    let mut pairs: Vec<(u64, ())> = Vec::new();
    let mut index: usize = 0;
    while index < symbols.len()
        invariant
            index <= symbols@.len(),
            pairs@ == unit_entries(symbols@.take(index as int)),
        decreases symbols@.len() - index,
    {
        pairs.push((symbols[index], ()));
        index = index + 1;
        proof {
            assert(pairs@ =~= unit_entries(symbols@.take(index as int)));
        }
    }
    proof {
        assert(symbols@.take(index as int) =~= symbols@);
    }
    pairs
}

/// What `<Ratio<BigInt> as PartialEq>::eq` answers for two exact rationals.
pub uninterp spec fn same_rational(first: BigRational, second: BigRational) -> bool;

/// Calls `<Ratio<BigInt> as PartialEq>::eq`, which compares two rationals
/// by value and divides by their denominators, so both must be nonzero; a
/// rational is equal to itself.
#[verifier::external_body]
pub(crate) fn rationals_equal(first: &BigRational, second: &BigRational) -> (equal: bool)
    requires
        has_denominator(*first),
        has_denominator(*second),
    ensures
        equal == same_rational(*first, *second),
        *first == *second ==> equal,
{
    first == second
}

/// The two maps have the same keys, and rationals that compare equal at each.
pub open spec fn amounts_agree(first: Map<AxisId, BigRational>, second: Map<AxisId, BigRational>) -> bool {
    &&& first.dom() == second.dom()
    &&& forall|axis: AxisId| #[trigger]
        first.dom().contains(axis) ==> same_rational(first[axis], second[axis])
}

/// The two effect maps have the same columns, and agreeing amounts in each.
pub open spec fn effects_agree(
    first: Map<u64, Map<AxisId, BigRational>>,
    second: Map<u64, Map<AxisId, BigRational>>,
) -> bool {
    &&& first.dom() == second.dom()
    &&& forall|column: u64| #[trigger]
        first.dom().contains(column) ==> amounts_agree(first[column], second[column])
}

/// Whether two maps of amounts have the same keys and equal amounts at each.
fn same_amounts(first: &SymbolMap<BigRational>, second: &SymbolMap<BigRational>) -> (same: bool)
    requires
        first.well_formed(),
        second.well_formed(),
        forall|axis: AxisId| #[trigger] first@.dom().contains(axis) ==> has_denominator(first@[axis]),
        forall|axis: AxisId| #[trigger] second@.dom().contains(axis) ==> has_denominator(second@[axis]),
    ensures
        same == amounts_agree(first@, second@),
        *first == *second ==> same,
{
    if !same_keys(first, second) {
        return false;
    }
    proof {
        first.lemma_view();
        second.lemma_view();
        lemma_same_keys(first.entries(), second.entries());
        assert forall|i: int| 0 <= i < first.entries().len() implies #[trigger] first.entries()[i].0
            == second.entries()[i].0 by {
            assert(keys_of(first.entries())[i] == keys_of(second.entries())[i]);
        }
    }
    let mut index: usize = 0;
    while index < first.len()
        invariant
            index <= first.entries().len(),
            first.well_formed(),
            second.well_formed(),
            forall|axis: AxisId| #[trigger] first@.dom().contains(axis) ==> has_denominator(first@[axis]),
            forall|axis: AxisId| #[trigger] second@.dom().contains(axis) ==> has_denominator(second@[axis]),
            first.entries().len() == second.entries().len(),
            forall|i: int|
                0 <= i < first.entries().len() ==> #[trigger] first.entries()[i].0
                    == second.entries()[i].0,
            forall|i: int|
                0 <= i < index ==> same_rational(
                    #[trigger] first.entries()[i].1,
                    second.entries()[i].1,
                ),
        decreases first.entries().len() - index,
    {
        proof {
            first.lemma_view();
            second.lemma_view();
            assert(first@.dom().contains(first.entries()[index as int].0));
            assert(second@.dom().contains(second.entries()[index as int].0));
        }
        if !rationals_equal(&first.entry(index).1, &second.entry(index).1) {
            proof {
                first.lemma_view();
                second.lemma_view();
                let axis = first.entries()[index as int].0;
                assert(second.entries()[index as int].0 == axis);
                assert(first@.dom().contains(axis));
                assert(first@[axis] == first.entries()[index as int].1);
                assert(second@[axis] == second.entries()[index as int].1);
                assert(!same_rational(first@[axis], second@[axis]));
            }
            return false;
        }
        index = index + 1;
    }
    proof {
        first.lemma_view();
        second.lemma_view();
        assert forall|axis: AxisId| #[trigger] first@.dom().contains(axis) implies same_rational(
            first@[axis],
            second@[axis],
        ) by {
            let i = choose|i: int| 0 <= i < first.entries().len() && first.entries()[i].0 == axis;
            assert(second@[second.entries()[i].0] == second.entries()[i].1);
        }
    }
    true
}

/// The stocks of `a` and `b` are the same.
pub open spec fn same_stocks(a: StockFlowCarrier, b: StockFlowCarrier) -> bool {
    a.stock_kinds() == b.stock_kinds()
}

/// The flow channels of `a` and `b` are the same.
pub open spec fn same_flows(a: StockFlowCarrier, b: StockFlowCarrier) -> bool {
    a.flow_kinds() == b.flow_kinds() && a.flow_effects() == b.flow_effects()
}

/// The boundary ports of `a` and `b` are the same.
pub open spec fn same_boundaries(a: StockFlowCarrier, b: StockFlowCarrier) -> bool {
    &&& a.boundary_kinds() == b.boundary_kinds()
    &&& a.boundary_effects() == b.boundary_effects()
    &&& a.boundary_roles() == b.boundary_roles()
}

/// The ledgers of `a` and `b` are the same.
pub open spec fn same_ledgers(a: StockFlowCarrier, b: StockFlowCarrier) -> bool {
    &&& a.ledger_axes() == b.ledger_axes()
    &&& a.ledger_kinds() == b.ledger_kinds()
    &&& a.ledger_boundaries() == b.ledger_boundaries()
}

/// A validated stock-flow carrier.
#[derive(Debug, PartialEq, Eq)]
pub struct StockFlowCarrier {
    stocks: SymbolMap<KindId>,
    flows: SymbolMap<EffectColumn>,
    boundaries: SymbolMap<BoundaryPort>,
    ledgers: SymbolMap<Ledger>,
}

impl StockFlowCarrier {
    /// The kind of each stock.
    pub closed spec fn stock_kinds(self) -> Map<AxisId, KindId> {
        self.stocks@
    }

    /// The kind of each flow channel.
    pub closed spec fn flow_kinds(self) -> Map<FlowId, KindId> {
        self.flows@.map_values(|column: EffectColumn| column.kind)
    }

    /// The coefficients of each flow channel at the stocks it changes.
    pub closed spec fn flow_effects(self) -> Map<FlowId, Map<AxisId, BigRational>> {
        self.flows@.map_values(|column: EffectColumn| column.coefficients@)
    }

    /// The kind of each boundary port.
    pub closed spec fn boundary_kinds(self) -> Map<BoundaryId, KindId> {
        self.boundaries@.map_values(|port: BoundaryPort| port.column.kind)
    }

    /// The coefficients of each boundary port at the stocks it changes.
    pub closed spec fn boundary_effects(self) -> Map<BoundaryId, Map<AxisId, BigRational>> {
        self.boundaries@.map_values(|port: BoundaryPort| port.column.coefficients@)
    }

    /// The role of each boundary port.
    pub closed spec fn boundary_roles(self) -> Map<BoundaryId, RoleId> {
        self.boundaries@.map_values(|port: BoundaryPort| port.role)
    }

    /// The axis of each ledger.
    pub closed spec fn ledger_axes(self) -> Map<LedgerId, AxisId> {
        self.ledgers@.map_values(|ledger: Ledger| ledger.axis)
    }

    /// The kind of each ledger.
    pub closed spec fn ledger_kinds(self) -> Map<LedgerId, KindId> {
        self.ledgers@.map_values(|ledger: Ledger| ledger.kind)
    }

    /// The boundary ports that feed each ledger.
    pub closed spec fn ledger_boundaries(self) -> Map<LedgerId, Set<BoundaryId>> {
        self.ledgers@.map_values(|ledger: Ledger| ledger.boundaries@.dom())
    }

    /// The stock axes and the ledger axes.
    pub open spec fn axis_set(self) -> Set<AxisId> {
        self.stock_kinds().dom() + self.ledger_axes().values()
    }

    /// The kinds of the stocks and of the ledgers.
    pub open spec fn kind_set(self) -> Set<KindId> {
        self.stock_kinds().values() + self.ledger_kinds().values()
    }

    /// The ledger whose axis is `axis`.
    pub open spec fn ledger_at(self, axis: AxisId) -> LedgerId {
        choose|ledger: LedgerId|
            self.ledger_axes().dom().contains(ledger) && self.ledger_axes()[ledger] == axis
    }

    /// The kind of a stock or ledger axis.
    pub open spec fn kind_at(self, axis: AxisId) -> KindId {
        if self.stock_kinds().dom().contains(axis) {
            self.stock_kinds()[axis]
        } else {
            self.ledger_kinds()[self.ledger_at(axis)]
        }
    }

    /// Each element is stored once; effects change stocks only; ledger axes are neither stocks nor shared
    /// between ledgers; ledgers are fed by existing boundary ports.
    #[verifier::type_invariant]
    pub closed spec fn well_formed(self) -> bool {
        &&& self.stocks.well_formed()
        &&& self.flows.well_formed()
        &&& self.boundaries.well_formed()
        &&& self.ledgers.well_formed()
        &&& forall|flow: FlowId| #[trigger]
            self.flows@.dom().contains(flow) ==> column_fits(self.flows@[flow], self.stocks@)
        &&& forall|port: BoundaryId| #[trigger]
            self.boundaries@.dom().contains(port) ==> column_fits(
                self.boundaries@[port].column,
                self.stocks@,
            )
        &&& forall|ledger: LedgerId| #[trigger]
            self.ledgers@.dom().contains(ledger) ==> {
                &&& self.ledgers@[ledger].boundaries.well_formed()
                &&& self.ledgers@[ledger].boundaries@.dom().subset_of(self.boundaries@.dom())
                &&& !self.stocks@.dom().contains(self.ledgers@[ledger].axis)
            }
        &&& forall|first: LedgerId, second: LedgerId|
            #![trigger self.ledgers@[first], self.ledgers@[second]]
            self.ledgers@.dom().contains(first) && self.ledgers@.dom().contains(second) && first
                != second ==> self.ledgers@[first].axis != self.ledgers@[second].axis
    }

    /// The views of a carrier have the shape the invariant gives them.
    pub proof fn lemma_views(self)
        requires
            self.well_formed(),
        ensures
            self.flow_kinds().dom() == self.flow_effects().dom(),
            self.boundary_kinds().dom() == self.boundary_effects().dom(),
            self.boundary_roles().dom() == self.boundary_kinds().dom(),
            self.ledger_axes().dom() == self.ledger_kinds().dom(),
            self.ledger_axes().dom() == self.ledger_boundaries().dom(),
            forall|flow: FlowId| #[trigger]
                self.flow_effects().dom().contains(flow) ==> self.flow_effects()[flow].dom().subset_of(
                    self.stock_kinds().dom(),
                ),
            forall|port: BoundaryId| #[trigger]
                self.boundary_effects().dom().contains(port)
                    ==> self.boundary_effects()[port].dom().subset_of(self.stock_kinds().dom()),
            forall|ledger: LedgerId| #[trigger]
                self.ledger_axes().dom().contains(ledger) ==> !self.stock_kinds().dom().contains(
                    self.ledger_axes()[ledger],
                ) && self.ledger_boundaries()[ledger].subset_of(self.boundary_kinds().dom()),
            forall|first: LedgerId, second: LedgerId|
                #![trigger self.ledger_axes()[first], self.ledger_axes()[second]]
                self.ledger_axes().dom().contains(first) && self.ledger_axes().dom().contains(
                    second,
                ) && self.ledger_axes()[first] == self.ledger_axes()[second] ==> first == second,
            forall|flow: FlowId| #[trigger]
                self.flow_kinds().dom().contains(flow) ==> self.kind_set().contains(
                    self.flow_kinds()[flow],
                ),
            forall|port: BoundaryId| #[trigger]
                self.boundary_kinds().dom().contains(port) ==> self.kind_set().contains(
                    self.boundary_kinds()[port],
                ),
            forall|axis: AxisId| #[trigger]
                self.axis_set().contains(axis) ==> self.kind_set().contains(self.kind_at(axis)),
            forall|flow: FlowId, axis: AxisId|
                #![trigger self.flow_effects()[flow][axis]]
                self.flow_effects().dom().contains(flow) && self.flow_effects()[flow].dom().contains(
                    axis,
                ) ==> has_denominator(self.flow_effects()[flow][axis]),
            forall|port: BoundaryId, axis: AxisId|
                #![trigger self.boundary_effects()[port][axis]]
                self.boundary_effects().dom().contains(port)
                    && self.boundary_effects()[port].dom().contains(axis) ==> has_denominator(
                    self.boundary_effects()[port][axis],
                ),
    {
        assert forall|flow: FlowId, axis: AxisId|
            #![trigger self.flow_effects()[flow][axis]]
            self.flow_effects().dom().contains(flow) && self.flow_effects()[flow].dom().contains(axis)
                implies has_denominator(self.flow_effects()[flow][axis]) by {
            assert(column_fits(self.flows@[flow], self.stocks@));
        }
        assert forall|port: BoundaryId, axis: AxisId|
            #![trigger self.boundary_effects()[port][axis]]
            self.boundary_effects().dom().contains(port) && self.boundary_effects()[port].dom().contains(
                axis,
            ) implies has_denominator(self.boundary_effects()[port][axis]) by {
            assert(column_fits(self.boundaries@[port].column, self.stocks@));
        }
        assert forall|flow: FlowId| #[trigger] self.flow_kinds().dom().contains(flow) implies self.kind_set().contains(
            self.flow_kinds()[flow],
        ) by {
            assert(column_fits(self.flows@[flow], self.stocks@));
        }
        assert forall|port: BoundaryId| #[trigger] self.boundary_kinds().dom().contains(port) implies self.kind_set().contains(
            self.boundary_kinds()[port],
        ) by {
            assert(column_fits(self.boundaries@[port].column, self.stocks@));
        }
        assert forall|axis: AxisId| #[trigger] self.axis_set().contains(axis) implies self.kind_set().contains(
            self.kind_at(axis),
        ) by {
            if self.stock_kinds().dom().contains(axis) {
                assert(self.stock_kinds().values().contains(self.stock_kinds()[axis]));
            } else {
                let ledger = self.ledger_at(axis);
                assert(self.ledger_axes().dom().contains(ledger));
                assert(self.ledger_kinds().dom().contains(ledger));
                assert(self.ledger_kinds().values().contains(self.ledger_kinds()[ledger]));
            }
        }
        assert forall|first: LedgerId, second: LedgerId|
            #![trigger self.ledger_axes()[first], self.ledger_axes()[second]]
            self.ledger_axes().dom().contains(first) && self.ledger_axes().dom().contains(second)
                && self.ledger_axes()[first] == self.ledger_axes()[second] implies first
            == second by {
            if first != second {
                assert(self.ledgers@[first].axis != self.ledgers@[second].axis);
            }
        }
    }

    /// Whether `axis` is a stock or a ledger axis.
    pub fn has_axis(&self, axis: AxisId) -> (present: bool)
        ensures
            present == self.axis_set().contains(axis),
    {
        proof {
            use_type_invariant(self);
            self.ledgers.lemma_view();
        }
        if self.stocks.contains(axis) {
            return true;
        }
        let mut index: usize = 0;
        while index < self.ledgers.len()
            invariant
                index <= self.ledgers.entries().len(),
                forall|i: int| 0 <= i < index ==> (#[trigger] self.ledgers.entries()[i]).1.axis != axis,
            decreases self.ledgers.entries().len() - index,
        {
            if self.ledgers.entry(index).1.axis == axis {
                proof {
                    use_type_invariant(self);
                    self.ledgers.lemma_view();
                    let ledger = self.ledgers.entries()[index as int].0;
                    assert(self.ledgers@.dom().contains(ledger));
                    assert(self.ledger_axes().dom().contains(ledger));
                    assert(self.ledger_axes()[ledger] == axis);
                    assert(self.ledger_axes().values().contains(axis));
                }
                return true;
            }
            index = index + 1;
        }
        proof {
            use_type_invariant(self);
            self.ledgers.lemma_view();
            if self.ledger_axes().values().contains(axis) {
                let ledger = choose|ledger: LedgerId|
                    self.ledger_axes().dom().contains(ledger) && self.ledger_axes()[ledger] == axis;
                let i = choose|i: int|
                    0 <= i < self.ledgers.entries().len() && self.ledgers.entries()[i].0 == ledger;
                assert(self.ledgers.entries()[i].1.axis == axis);
            }
        }
        false
    }

    /// Whether some stock has `kind`.
    pub fn has_stock_kind(&self, kind: KindId) -> (present: bool)
        ensures
            present == self.stock_kinds().values().contains(kind),
    {
        proof {
            use_type_invariant(self);
            self.stocks.lemma_view();
        }
        let mut index: usize = 0;
        while index < self.stocks.len()
            invariant
                index <= self.stocks.entries().len(),
                forall|i: int| 0 <= i < index ==> (#[trigger] self.stocks.entries()[i]).1 != kind,
            decreases self.stocks.entries().len() - index,
        {
            if self.stocks.entry(index).1 == kind {
                proof {
                    use_type_invariant(self);
                    self.stocks.lemma_view();
                    let axis = self.stocks.entries()[index as int].0;
                    assert(self.stocks@.dom().contains(axis));
                    assert(self.stock_kinds().values().contains(kind));
                }
                return true;
            }
            index = index + 1;
        }
        proof {
            use_type_invariant(self);
            self.stocks.lemma_view();
            if self.stock_kinds().values().contains(kind) {
                let axis = choose|axis: AxisId|
                    self.stock_kinds().dom().contains(axis) && self.stock_kinds()[axis] == kind;
                let i = choose|i: int|
                    0 <= i < self.stocks.entries().len() && self.stocks.entries()[i].0 == axis;
                assert(self.stocks.entries()[i].1 == kind);
            }
        }
        false
    }

    /// Adds a stock of `kind`; the axis must be new.
    pub fn add_stock(&mut self, axis: AxisId, kind: KindId) -> (added: Result<(), CarrierError>)
        ensures
            old(self).axis_set().contains(axis) ==> added == Err::<(), CarrierError>(
                CarrierError::DuplicateAxis(axis),
            ) && *final(self) == *old(self),
            !old(self).axis_set().contains(axis) ==> added == Ok::<(), CarrierError>(())
                && final(self).stock_kinds() == old(self).stock_kinds().insert(axis, kind)
                && same_flows(*final(self), *old(self)) && same_boundaries(
                *final(self),
                *old(self),
            ) && same_ledgers(*final(self), *old(self)),
    {
        if self.has_axis(axis) {
            return Err(CarrierError::DuplicateAxis(axis));
        }
        let mut carrier = StockFlowCarrier::new();
        std::mem::swap(&mut carrier, self);
        proof {
            use_type_invariant(&carrier);
            carrier.ledgers.lemma_view();
        }
        let StockFlowCarrier { mut stocks, flows, boundaries, ledgers } = carrier;
        stocks.insert_new(axis, kind);
        proof {
            assert forall|ledger: LedgerId| #[trigger] ledgers@.dom().contains(ledger) implies !stocks@.dom().contains(
                ledgers@[ledger].axis,
            ) by {
                assert(carrier.ledger_axes().dom().contains(ledger));
                assert(carrier.ledger_axes()[ledger] == ledgers@[ledger].axis);
                assert(carrier.ledger_axes().values().contains(ledgers@[ledger].axis));
            }
            lemma_values_grow(carrier.stocks@, axis, kind);
            assert forall|flow: FlowId| #[trigger] flows@.dom().contains(flow) implies column_fits(
                flows@[flow],
                stocks@,
            ) by {
                assert(column_fits(flows@[flow], carrier.stocks@));
            }
            assert forall|port: BoundaryId| #[trigger] boundaries@.dom().contains(port) implies column_fits(
                boundaries@[port].column,
                stocks@,
            ) by {
                assert(column_fits(boundaries@[port].column, carrier.stocks@));
            }
        }
        *self = StockFlowCarrier { stocks, flows, boundaries, ledgers };
        Ok(())
    }

    /// Adds a flow channel of `kind` with its coefficient at each stock it
    /// changes. The channel must be new, its kind the kind of some stock,
    /// each coefficient's axis, in order, a stock, then each coefficient, in
    /// order, must have a nonzero denominator, and no stock may be named
    /// twice.
    pub fn add_flow(
        &mut self,
        flow: FlowId,
        kind: KindId,
        coefficients: Vec<(AxisId, BigRational)>,
    ) -> (added: Result<(), CarrierError>)
        ensures
            old(self).flow_kinds().dom().contains(flow) ==> added == Err::<(), CarrierError>(
                CarrierError::DuplicateFlow(flow),
            ) && *final(self) == *old(self),
            !old(self).flow_kinds().dom().contains(flow) && !old(self).stock_kinds().values().contains(
                kind,
            ) ==> added == Err::<(), CarrierError>(CarrierError::UnknownKind(kind)) && *final(self)
                == *old(self),
            !old(self).flow_kinds().dom().contains(flow) && old(self).stock_kinds().values().contains(
                kind,
            ) ==> match first_outside(
                keys_of(coefficients@),
                old(self).stock_kinds().dom(),
            ) {
                Some(axis) => added == Err::<(), CarrierError>(CarrierError::UnknownStock(axis))
                    && *final(self) == *old(self),
                None => match first_without_denominator(coefficients@) {
                    Some(axis) => added == Err::<(), CarrierError>(
                        CarrierError::ZeroDenominator(axis),
                    ) && *final(self) == *old(self),
                    None => match collect_entries(coefficients@) {
                    Err(axis) => added == Err::<(), CarrierError>(
                        CarrierError::DuplicateCoefficient(axis),
                    ) && *final(self) == *old(self),
                    Ok(effect) => added == Ok::<(), CarrierError>(()) && final(self).flow_kinds()
                        == old(self).flow_kinds().insert(flow, kind) && final(self).flow_effects()
                        == old(self).flow_effects().insert(flow, effect) && same_stocks(
                        *final(self),
                        *old(self),
                    ) && same_boundaries(*final(self), *old(self)) && same_ledgers(
                        *final(self),
                        *old(self),
                    ),
                },
                },
            },
    {
        proof {
            use_type_invariant(&*self);
        }
        if self.flows.contains(flow) {
            return Err(CarrierError::DuplicateFlow(flow));
        }
        if !self.has_stock_kind(kind) {
            return Err(CarrierError::UnknownKind(kind));
        }
        match first_unknown_key(&coefficients, &self.stocks) {
            Some(axis) => return Err(CarrierError::UnknownStock(axis)),
            None => {},
        }
        proof {
            lemma_first_outside_none(keys_of(coefficients@), self.stocks@.dom());
        }
        match first_zero_denominator(&coefficients) {
            Some(axis) => return Err(CarrierError::ZeroDenominator(axis)),
            None => {},
        }
        proof {
            lemma_first_without_denominator_none(coefficients@);
        }
        let ghost entries = coefficients@;
        let effect = match SymbolMap::from_entries(coefficients) {
            Ok(effect) => effect,
            Err(axis) => return Err(CarrierError::DuplicateCoefficient(axis)),
        };
        proof {
            lemma_collected_keys(entries);
            assert forall|axis: AxisId| #[trigger] effect@.dom().contains(axis) implies self.stocks@.dom().contains(
                axis,
            ) && has_denominator(effect@[axis]) by {
                let i = choose|i: int|
                    0 <= i < entries.len() && entries[i].0 == axis && effect@[axis] == entries[i].1;
                assert(keys_of(entries)[i] == axis);
            }
        }
        let mut carrier = StockFlowCarrier::new();
        std::mem::swap(&mut carrier, self);
        proof {
            use_type_invariant(&carrier);
        }
        let StockFlowCarrier { stocks, mut flows, boundaries, ledgers } = carrier;
        let column = EffectColumn { kind, coefficients: effect };
        flows.insert_new(flow, column);
        proof {
            assert forall|other: FlowId| #[trigger] flows@.dom().contains(other) implies column_fits(
                flows@[other],
                stocks@,
            ) by {
                if other != flow {
                    assert(carrier.flows@.dom().contains(other));
                }
            }
        }
        *self = StockFlowCarrier { stocks, flows, boundaries, ledgers };
        proof {
            assert(self.flow_kinds() =~= carrier.flow_kinds().insert(flow, kind));
            assert(self.flow_effects() =~= carrier.flow_effects().insert(flow, effect@));
        }
        Ok(())
    }

    /// Adds a boundary port of `kind` and `role` with its coefficient at
    /// each stock it changes. The port must be new, its kind the kind of some
    /// stock, each coefficient's axis, in order, a stock, then each
    /// coefficient, in order, must have a nonzero denominator, and no stock
    /// may be named twice.
    pub fn add_boundary(
        &mut self,
        port: BoundaryId,
        kind: KindId,
        role: RoleId,
        coefficients: Vec<(AxisId, BigRational)>,
    ) -> (added: Result<(), CarrierError>)
        ensures
            old(self).boundary_kinds().dom().contains(port) ==> added == Err::<(), CarrierError>(
                CarrierError::DuplicateBoundary(port),
            ) && *final(self) == *old(self),
            !old(self).boundary_kinds().dom().contains(port)
                && !old(self).stock_kinds().values().contains(kind) ==> added == Err::<
                (),
                CarrierError,
            >(CarrierError::UnknownKind(kind)) && *final(self) == *old(self),
            !old(self).boundary_kinds().dom().contains(port)
                && old(self).stock_kinds().values().contains(kind) ==> match first_outside(
                keys_of(coefficients@),
                old(self).stock_kinds().dom(),
            ) {
                Some(axis) => added == Err::<(), CarrierError>(CarrierError::UnknownStock(axis))
                    && *final(self) == *old(self),
                None => match first_without_denominator(coefficients@) {
                    Some(axis) => added == Err::<(), CarrierError>(
                        CarrierError::ZeroDenominator(axis),
                    ) && *final(self) == *old(self),
                    None => match collect_entries(coefficients@) {
                    Err(axis) => added == Err::<(), CarrierError>(
                        CarrierError::DuplicateCoefficient(axis),
                    ) && *final(self) == *old(self),
                    Ok(effect) => added == Ok::<(), CarrierError>(()) && final(self).boundary_kinds()
                        == old(self).boundary_kinds().insert(port, kind)
                        && final(self).boundary_effects() == old(self).boundary_effects().insert(
                        port,
                        effect,
                    ) && final(self).boundary_roles() == old(self).boundary_roles().insert(
                        port,
                        role,
                    ) && same_stocks(*final(self), *old(self)) && same_flows(
                        *final(self),
                        *old(self),
                    ) && same_ledgers(*final(self), *old(self)),
                },
                },
            },
    {
        proof {
            use_type_invariant(&*self);
        }
        if self.boundaries.contains(port) {
            return Err(CarrierError::DuplicateBoundary(port));
        }
        if !self.has_stock_kind(kind) {
            return Err(CarrierError::UnknownKind(kind));
        }
        match first_unknown_key(&coefficients, &self.stocks) {
            Some(axis) => return Err(CarrierError::UnknownStock(axis)),
            None => {},
        }
        proof {
            lemma_first_outside_none(keys_of(coefficients@), self.stocks@.dom());
        }
        match first_zero_denominator(&coefficients) {
            Some(axis) => return Err(CarrierError::ZeroDenominator(axis)),
            None => {},
        }
        proof {
            lemma_first_without_denominator_none(coefficients@);
        }
        let ghost entries = coefficients@;
        let effect = match SymbolMap::from_entries(coefficients) {
            Ok(effect) => effect,
            Err(axis) => return Err(CarrierError::DuplicateCoefficient(axis)),
        };
        proof {
            lemma_collected_keys(entries);
            assert forall|axis: AxisId| #[trigger] effect@.dom().contains(axis) implies self.stocks@.dom().contains(
                axis,
            ) && has_denominator(effect@[axis]) by {
                let i = choose|i: int|
                    0 <= i < entries.len() && entries[i].0 == axis && effect@[axis] == entries[i].1;
                assert(keys_of(entries)[i] == axis);
            }
        }
        let mut carrier = StockFlowCarrier::new();
        std::mem::swap(&mut carrier, self);
        proof {
            use_type_invariant(&carrier);
        }
        let StockFlowCarrier { stocks, flows, mut boundaries, ledgers } = carrier;
        let entry = BoundaryPort { column: EffectColumn { kind, coefficients: effect }, role };
        boundaries.insert_new(port, entry);
        proof {
            assert forall|other: BoundaryId| #[trigger] boundaries@.dom().contains(other) implies column_fits(
                boundaries@[other].column,
                stocks@,
            ) by {
                if other != port {
                    assert(carrier.boundaries@.dom().contains(other));
                }
            }
            assert forall|ledger: LedgerId| #[trigger] ledgers@.dom().contains(ledger) implies ledgers@[ledger].boundaries@.dom().subset_of(
                boundaries@.dom(),
            ) by {
                assert(ledgers@[ledger].boundaries@.dom().subset_of(carrier.boundaries@.dom()));
            }
        }
        *self = StockFlowCarrier { stocks, flows, boundaries, ledgers };
        proof {
            assert(self.boundary_kinds() =~= carrier.boundary_kinds().insert(port, kind));
            assert(self.boundary_effects() =~= carrier.boundary_effects().insert(port, effect@));
            assert(self.boundary_roles() =~= carrier.boundary_roles().insert(port, role));
        }
        Ok(())
    }

    /// Adds a ledger on a new axis of `kind`, fed by `boundaries`. The ledger
    /// must be new, then its axis, then each boundary port, in order, must
    /// exist, and no port may be named twice.
    pub fn add_ledger(
        &mut self,
        ledger: LedgerId,
        axis: AxisId,
        kind: KindId,
        boundaries: Vec<BoundaryId>,
    ) -> (added: Result<(), CarrierError>)
        ensures
            old(self).ledger_axes().dom().contains(ledger) ==> added == Err::<(), CarrierError>(
                CarrierError::DuplicateLedger(ledger),
            ) && *final(self) == *old(self),
            !old(self).ledger_axes().dom().contains(ledger) && old(self).axis_set().contains(axis)
                ==> added == Err::<(), CarrierError>(CarrierError::DuplicateAxis(axis))
                && *final(self) == *old(self),
            !old(self).ledger_axes().dom().contains(ledger) && !old(self).axis_set().contains(axis)
                ==> match first_outside(boundaries@, old(self).boundary_kinds().dom()) {
                Some(port) => added == Err::<(), CarrierError>(CarrierError::UnknownBoundary(port))
                    && *final(self) == *old(self),
                None => match collect_entries(unit_entries(boundaries@)) {
                    Err(port) => added == Err::<(), CarrierError>(
                        CarrierError::DuplicateLedgerBoundary(port),
                    ) && *final(self) == *old(self),
                    Ok(fed) => added == Ok::<(), CarrierError>(()) && final(self).ledger_axes()
                        == old(self).ledger_axes().insert(ledger, axis) && final(self).ledger_kinds()
                        == old(self).ledger_kinds().insert(ledger, kind)
                        && final(self).ledger_boundaries() == old(self).ledger_boundaries().insert(
                        ledger,
                        fed.dom(),
                    ) && same_stocks(*final(self), *old(self)) && same_flows(
                        *final(self),
                        *old(self),
                    ) && same_boundaries(*final(self), *old(self)),
                },
            },
    {
        proof {
            use_type_invariant(&*self);
        }
        proof {
            assert(self.boundary_kinds().dom() =~= self.boundaries@.dom());
            assert(self.ledger_axes().dom() =~= self.ledgers@.dom());
        }
        if self.ledgers.contains(ledger) {
            return Err(CarrierError::DuplicateLedger(ledger));
        }
        if self.has_axis(axis) {
            return Err(CarrierError::DuplicateAxis(axis));
        }
        let pairs = unit_pairs(&boundaries);
        proof {
            assert(keys_of(pairs@) =~= boundaries@);
        }
        match first_unknown_key(&pairs, &self.boundaries) {
            Some(port) => return Err(CarrierError::UnknownBoundary(port)),
            None => {},
        }
        proof {
            lemma_first_outside_none(boundaries@, self.boundaries@.dom());
        }
        let ghost entries = pairs@;
        let fed = match SymbolMap::from_entries(pairs) {
            Ok(fed) => fed,
            Err(port) => return Err(CarrierError::DuplicateLedgerBoundary(port)),
        };
        proof {
            lemma_collected_keys(entries);
            assert forall|port: BoundaryId| #[trigger] fed@.dom().contains(port) implies self.boundaries@.dom().contains(
                port,
            ) by {
                let i = choose|i: int| 0 <= i < entries.len() && entries[i].0 == port;
                assert(boundaries@[i] == port);
            }
        }
        let mut carrier = StockFlowCarrier::new();
        std::mem::swap(&mut carrier, self);
        proof {
            use_type_invariant(&carrier);
        }
        let StockFlowCarrier { stocks, flows, boundaries, mut ledgers } = carrier;
        let entry = Ledger { axis, kind, boundaries: fed };
        ledgers.insert_new(ledger, entry);
        proof {
            assert(!carrier.ledger_axes().values().contains(axis));
            assert forall|first: LedgerId, second: LedgerId|
                #![trigger ledgers@[first], ledgers@[second]]
                ledgers@.dom().contains(first) && ledgers@.dom().contains(second) && first
                    != second implies ledgers@[first].axis != ledgers@[second].axis by {
                if first == ledger {
                    assert(carrier.ledger_axes()[second] == ledgers@[second].axis);
                } else if second == ledger {
                    assert(carrier.ledger_axes()[first] == ledgers@[first].axis);
                } else {
                    assert(carrier.ledgers@[first] == ledgers@[first]);
                    assert(carrier.ledgers@[second] == ledgers@[second]);
                }
            }
        }
        *self = StockFlowCarrier { stocks, flows, boundaries, ledgers };
        proof {
            assert(self.ledger_axes() =~= carrier.ledger_axes().insert(ledger, axis));
            assert(self.ledger_kinds() =~= carrier.ledger_kinds().insert(ledger, kind));
            assert(self.ledger_boundaries() =~= carrier.ledger_boundaries().insert(ledger, fed@.dom()));
        }
        Ok(())
    }

    /// The stock axes.
    pub fn stock_symbols(&self) -> (keys: SymbolMap<()>)
        ensures
            keys.well_formed(),
            keys@.dom() == self.stock_kinds().dom(),
    {
        proof {
            use_type_invariant(self);
        }
        self.stocks.key_set()
    }

    /// The flow channels.
    pub fn flow_symbols(&self) -> (keys: SymbolMap<()>)
        ensures
            keys.well_formed(),
            keys@.dom() == self.flow_kinds().dom(),
    {
        proof {
            use_type_invariant(self);
        }
        let keys = self.flows.key_set();
        proof {
            assert(keys@.dom() =~= self.flow_kinds().dom());
        }
        keys
    }

    /// The boundary ports.
    pub fn boundary_symbols(&self) -> (keys: SymbolMap<()>)
        ensures
            keys.well_formed(),
            keys@.dom() == self.boundary_kinds().dom(),
    {
        proof {
            use_type_invariant(self);
        }
        let keys = self.boundaries.key_set();
        proof {
            assert(keys@.dom() =~= self.boundary_kinds().dom());
        }
        keys
    }

    /// The ledgers.
    pub fn ledger_symbols(&self) -> (keys: SymbolMap<()>)
        ensures
            keys.well_formed(),
            keys@.dom() == self.ledger_axes().dom(),
    {
        proof {
            use_type_invariant(self);
        }
        let keys = self.ledgers.key_set();
        proof {
            assert(keys@.dom() =~= self.ledger_axes().dom());
        }
        keys
    }

    /// The stock axes and the ledger axes.
    pub fn axis_symbols(&self) -> (keys: SymbolMap<()>)
        ensures
            keys.well_formed(),
            keys@.dom() == self.axis_set(),
    {
        proof {
            use_type_invariant(self);
            self.ledgers.lemma_view();
            self.lemma_views();
        }
        let mut keys = self.stocks.key_set();
        let ghost entries = self.ledgers.entries();
        let mut index: usize = 0;
        while index < self.ledgers.len()
            invariant
                index <= entries.len(),
                entries == self.ledgers.entries(),
                self.well_formed(),
                keys.well_formed(),
                forall|i: int|
                    0 <= i < entries.len() ==> #[trigger] self.ledgers@[entries[i].0] == entries[i].1
                        && self.ledgers@.dom().contains(entries[i].0),
                crate::symbol_map::ascending(entries),
                keys@.dom() == self.stocks@.dom() + Set::new(
                    |axis: AxisId| exists|i: int| 0 <= i < index && entries[i].1.axis == axis,
                ),
            decreases entries.len() - index,
        {
            let axis = self.ledgers.entry(index).1.axis;
            proof {
                let ledger = entries[index as int].0;
                assert(!self.stocks@.dom().contains(self.ledgers@[ledger].axis));
                assert forall|i: int| 0 <= i < index implies entries[i].1.axis != axis by {
                    assert(entries[i].0 < entries[index as int].0);
                    assert(self.ledgers@[entries[i].0].axis != self.ledgers@[ledger].axis);
                }
            }
            keys.insert_new(axis, ());
            index = index + 1;
            proof {
                assert(keys@.dom() =~= self.stocks@.dom() + Set::new(
                    |a: AxisId| exists|i: int| 0 <= i < index && entries[i].1.axis == a,
                )) by {
                    assert(entries[index - 1].1.axis == axis);
                }
            }
        }
        proof {
            assert(keys@.dom() =~= self.axis_set()) by {
                assert forall|axis: AxisId| self.ledger_axes().values().contains(axis) implies exists|i: int|
                    0 <= i < entries.len() && entries[i].1.axis == axis by {
                    let ledger = choose|ledger: LedgerId|
                        self.ledger_axes().dom().contains(ledger) && self.ledger_axes()[ledger] == axis;
                    let i = choose|i: int| 0 <= i < entries.len() && entries[i].0 == ledger;
                }
                assert forall|axis: AxisId| (exists|i: int|
                    0 <= i < entries.len() && entries[i].1.axis == axis) implies self.ledger_axes().values().contains(
                    axis,
                ) by {
                    let i = choose|i: int| 0 <= i < entries.len() && entries[i].1.axis == axis;
                    assert(self.ledger_axes().dom().contains(entries[i].0));
                }
            }
        }
        keys
    }

    /// The kinds of the stocks and of the ledgers.
    pub fn kind_symbols(&self) -> (keys: SymbolMap<()>)
        ensures
            keys.well_formed(),
            keys@.dom() == self.kind_set(),
    {
        proof {
            use_type_invariant(self);
            self.stocks.lemma_view();
            self.ledgers.lemma_view();
        }
        let mut keys: SymbolMap<()> = SymbolMap::new();
        let ghost stock_entries = self.stocks.entries();
        let mut index: usize = 0;
        while index < self.stocks.len()
            invariant
                index <= stock_entries.len(),
                stock_entries == self.stocks.entries(),
                keys.well_formed(),
                keys@.dom() == Set::new(
                    |kind: KindId| exists|i: int| 0 <= i < index && stock_entries[i].1 == kind,
                ),
            decreases stock_entries.len() - index,
        {
            let kind = self.stocks.entry(index).1;
            if !keys.contains(kind) {
                keys.insert_new(kind, ());
            }
            index = index + 1;
            proof {
                assert(keys@.dom() =~= Set::new(
                    |k: KindId| exists|i: int| 0 <= i < index && stock_entries[i].1 == k,
                )) by {
                    assert(stock_entries[index - 1].1 == kind);
                }
            }
        }
        let ghost ledger_entries = self.ledgers.entries();
        let mut index: usize = 0;
        while index < self.ledgers.len()
            invariant
                index <= ledger_entries.len(),
                ledger_entries == self.ledgers.entries(),
                keys.well_formed(),
                keys@.dom() == Set::new(
                    |kind: KindId| exists|i: int| 0 <= i < stock_entries.len() && stock_entries[i].1 == kind,
                ) + Set::new(
                    |kind: KindId| exists|i: int| 0 <= i < index && ledger_entries[i].1.kind == kind,
                ),
            decreases ledger_entries.len() - index,
        {
            let kind = self.ledgers.entry(index).1.kind;
            if !keys.contains(kind) {
                keys.insert_new(kind, ());
            }
            index = index + 1;
            proof {
                assert(keys@.dom() =~= Set::new(
                    |k: KindId| exists|i: int| 0 <= i < stock_entries.len() && stock_entries[i].1 == k,
                ) + Set::new(
                    |k: KindId| exists|i: int| 0 <= i < index && ledger_entries[i].1.kind == k,
                )) by {
                    assert(ledger_entries[index - 1].1.kind == kind);
                }
            }
        }
        proof {
            assert(keys@.dom() =~= self.kind_set()) by {
                assert forall|kind: KindId| self.stock_kinds().values().contains(kind) implies exists|i: int|
                    0 <= i < stock_entries.len() && stock_entries[i].1 == kind by {
                    let axis = choose|axis: AxisId|
                        self.stock_kinds().dom().contains(axis) && self.stock_kinds()[axis] == kind;
                    let i = choose|i: int| 0 <= i < stock_entries.len() && stock_entries[i].0 == axis;
                }
                assert forall|kind: KindId| (exists|i: int|
                    0 <= i < stock_entries.len() && stock_entries[i].1 == kind) implies self.stock_kinds().values().contains(
                    kind,
                ) by {
                    let i = choose|i: int| 0 <= i < stock_entries.len() && stock_entries[i].1 == kind;
                    assert(self.stock_kinds().dom().contains(stock_entries[i].0));
                }
                assert forall|kind: KindId| self.ledger_kinds().values().contains(kind) implies exists|i: int|
                    0 <= i < ledger_entries.len() && ledger_entries[i].1.kind == kind by {
                    let ledger = choose|ledger: LedgerId|
                        self.ledger_kinds().dom().contains(ledger) && self.ledger_kinds()[ledger] == kind;
                    let i = choose|i: int| 0 <= i < ledger_entries.len() && ledger_entries[i].0 == ledger;
                }
                assert forall|kind: KindId| (exists|i: int|
                    0 <= i < ledger_entries.len() && ledger_entries[i].1.kind == kind) implies self.ledger_kinds().values().contains(
                    kind,
                ) by {
                    let i = choose|i: int| 0 <= i < ledger_entries.len() && ledger_entries[i].1.kind == kind;
                    assert(self.ledger_kinds().dom().contains(ledger_entries[i].0));
                }
            }
        }
        keys
    }

    /// The kind of a stock or ledger axis.
    pub fn axis_kind(&self, axis: AxisId) -> (kind: Option<KindId>)
        ensures
            kind == (if self.axis_set().contains(axis) {
                Some(self.kind_at(axis))
            } else {
                None::<KindId>
            }),
    {
        proof {
            use_type_invariant(self);
            self.ledgers.lemma_view();
            self.lemma_views();
        }
        match self.stocks.get(axis) {
            Some(kind) => return Some(*kind),
            None => {},
        }
        let ghost entries = self.ledgers.entries();
        let mut index: usize = 0;
        while index < self.ledgers.len()
            invariant
                index <= entries.len(),
                entries == self.ledgers.entries(),
                forall|i: int| 0 <= i < index ==> (#[trigger] entries[i]).1.axis != axis,
            decreases entries.len() - index,
        {
            let entry = self.ledgers.entry(index);
            if entry.1.axis == axis {
                proof {
                    use_type_invariant(self);
                    self.ledgers.lemma_view();
                    self.lemma_views();
                    let ledger = entries[index as int].0;
                    assert(self.ledger_axes().dom().contains(ledger));
                    assert(self.ledger_axes()[ledger] == axis);
                    assert(self.ledger_axes().values().contains(axis));
                    let chosen = self.ledger_at(axis);
                    assert(self.ledger_axes()[chosen] == self.ledger_axes()[ledger]);
                }
                return Some(entry.1.kind);
            }
            index = index + 1;
        }
        proof {
            use_type_invariant(self);
            self.ledgers.lemma_view();
            if self.ledger_axes().values().contains(axis) {
                let ledger = choose|ledger: LedgerId|
                    self.ledger_axes().dom().contains(ledger) && self.ledger_axes()[ledger] == axis;
                let i = choose|i: int| 0 <= i < entries.len() && entries[i].0 == ledger;
                assert(entries[i].1.axis == axis);
            }
        }
        None
    }

    /// Whether `axis` is a stock.
    pub fn is_stock(&self, axis: AxisId) -> (stock: bool)
        ensures
            stock == self.stock_kinds().dom().contains(axis),
    {
        proof {
            use_type_invariant(self);
        }
        self.stocks.contains(axis)
    }

    /// The kind of a flow channel.
    pub fn flow_kind(&self, flow: FlowId) -> (kind: Option<KindId>)
        ensures
            kind == (if self.flow_kinds().dom().contains(flow) {
                Some(self.flow_kinds()[flow])
            } else {
                None::<KindId>
            }),
    {
        proof {
            use_type_invariant(self);
        }
        match self.flows.get(flow) {
            Some(column) => Some(column.kind),
            None => None,
        }
    }

    /// The coefficient of a flow channel at a stock, if it changes it.
    pub fn flow_coefficient(&self, flow: FlowId, axis: AxisId) -> (coefficient: Option<&BigRational>)
        ensures
            match coefficient {
                Some(found) => self.flow_effects().dom().contains(flow)
                    && self.flow_effects()[flow].dom().contains(axis) && *found
                    == self.flow_effects()[flow][axis],
                None => !(self.flow_effects().dom().contains(flow)
                    && self.flow_effects()[flow].dom().contains(axis)),
            },
    {
        proof {
            use_type_invariant(self);
        }
        match self.flows.get(flow) {
            Some(column) => {
                proof {
                    assert(column_fits(*column, self.stocks@));
                }
                column.coefficients.get(axis)
            },
            None => None,
        }
    }

    /// The kind of a boundary port.
    pub fn boundary_kind(&self, port: BoundaryId) -> (kind: Option<KindId>)
        ensures
            kind == (if self.boundary_kinds().dom().contains(port) {
                Some(self.boundary_kinds()[port])
            } else {
                None::<KindId>
            }),
    {
        proof {
            use_type_invariant(self);
        }
        match self.boundaries.get(port) {
            Some(entry) => Some(entry.column.kind),
            None => None,
        }
    }

    /// The coefficient of a boundary port at a stock, if it changes it.
    pub fn boundary_coefficient(&self, port: BoundaryId, axis: AxisId) -> (coefficient: Option<
        &BigRational,
    >)
        ensures
            match coefficient {
                Some(found) => self.boundary_effects().dom().contains(port)
                    && self.boundary_effects()[port].dom().contains(axis) && *found
                    == self.boundary_effects()[port][axis],
                None => !(self.boundary_effects().dom().contains(port)
                    && self.boundary_effects()[port].dom().contains(axis)),
            },
    {
        proof {
            use_type_invariant(self);
        }
        match self.boundaries.get(port) {
            Some(entry) => {
                proof {
                    assert(column_fits(entry.column, self.stocks@));
                }
                entry.column.coefficients.get(axis)
            },
            None => None,
        }
    }

    /// The role of a boundary port.
    pub fn boundary_role(&self, port: BoundaryId) -> (role: Option<RoleId>)
        ensures
            role == (if self.boundary_roles().dom().contains(port) {
                Some(self.boundary_roles()[port])
            } else {
                None::<RoleId>
            }),
    {
        proof {
            use_type_invariant(self);
        }
        match self.boundaries.get(port) {
            Some(entry) => Some(entry.role),
            None => None,
        }
    }

    /// The axis, kind and feeding boundary ports of a ledger.
    pub fn ledger(&self, ledger: LedgerId) -> (found: Option<(AxisId, KindId, &SymbolMap<()>)>)
        ensures
            match found {
                Some((axis, kind, fed)) => self.ledger_axes().dom().contains(ledger) && axis
                    == self.ledger_axes()[ledger] && kind == self.ledger_kinds()[ledger]
                    && fed.well_formed() && fed@.dom() == self.ledger_boundaries()[ledger],
                None => !self.ledger_axes().dom().contains(ledger),
            },
    {
        proof {
            use_type_invariant(self);
        }
        match self.ledgers.get(ledger) {
            Some(entry) => Some((entry.axis, entry.kind, &entry.boundaries)),
            None => None,
        }
    }

    /// The carriers have the same stocks, flow channels, boundary ports and
    /// ledgers, with effects that compare equal.
    pub open spec fn agrees_with(self, other: StockFlowCarrier) -> bool {
        &&& self.stock_kinds() == other.stock_kinds()
        &&& self.flow_kinds() == other.flow_kinds()
        &&& effects_agree(self.flow_effects(), other.flow_effects())
        &&& self.boundary_kinds() == other.boundary_kinds()
        &&& effects_agree(self.boundary_effects(), other.boundary_effects())
        &&& self.boundary_roles() == other.boundary_roles()
        &&& same_ledgers(self, other)
    }

    /// Whether the carriers have the same structure.
    pub fn same_as(&self, other: &Self) -> (same: bool)
        ensures
            same == self.agrees_with(*other),
            *self == *other ==> same,
    {
        proof {
            use_type_invariant(self);
            use_type_invariant(other);
        }
        if !self.stocks.same_as(&other.stocks) {
            return false;
        }
        if !self.same_flows_as(other) {
            return false;
        }
        if !self.same_boundaries_as(other) {
            return false;
        }
        self.same_ledgers_as(other)
    }

    fn same_flows_as(&self, other: &Self) -> (same: bool)
        ensures
            same == (self.flow_kinds() == other.flow_kinds() && effects_agree(
                self.flow_effects(),
                other.flow_effects(),
            )),
            *self == *other ==> same,
    {
        proof {
            use_type_invariant(self);
            use_type_invariant(other);
            assert(self.flow_kinds().dom() =~= self.flows@.dom());
            assert(other.flow_kinds().dom() =~= other.flows@.dom());
            assert(self.flow_effects().dom() =~= self.flows@.dom());
            assert(other.flow_effects().dom() =~= other.flows@.dom());
        }
        if !same_keys(&self.flows, &other.flows) {
            return false;
        }
        proof {
            self.flows.lemma_view();
            other.flows.lemma_view();
            lemma_same_keys(self.flows.entries(), other.flows.entries());
            assert forall|i: int| 0 <= i < self.flows.entries().len() implies #[trigger] self.flows.entries()[i].0
                == other.flows.entries()[i].0 by {
                assert(keys_of(self.flows.entries())[i] == keys_of(other.flows.entries())[i]);
            }
        }
        let ghost left = self.flows.entries();
        let ghost right = other.flows.entries();
        let mut index: usize = 0;
        while index < self.flows.len()
            invariant
                index <= left.len(),
                left == self.flows.entries(),
                right == other.flows.entries(),
                left.len() == right.len(),
                self.well_formed(),
                other.well_formed(),
                forall|i: int| 0 <= i < left.len() ==> #[trigger] left[i].0 == right[i].0,
                forall|i: int|
                    0 <= i < left.len() ==> #[trigger] self.flows@[left[i].0] == left[i].1
                        && self.flows@.dom().contains(left[i].0),
                forall|i: int|
                    0 <= i < right.len() ==> #[trigger] other.flows@[right[i].0] == right[i].1
                        && other.flows@.dom().contains(right[i].0),
                forall|i: int|
                    0 <= i < index ==> (#[trigger] left[i]).1.kind == right[i].1.kind
                        && amounts_agree(left[i].1.coefficients@, right[i].1.coefficients@),
            decreases left.len() - index,
        {
            let mine = self.flows.entry(index);
            let theirs = other.flows.entry(index);
            proof {
                assert(self.flows@[left[index as int].0] == left[index as int].1);
                assert(other.flows@[right[index as int].0] == right[index as int].1);
                assert(column_fits(self.flows@[left[index as int].0], self.stocks@));
                assert(column_fits(other.flows@[right[index as int].0], other.stocks@));
            }
            if mine.1.kind != theirs.1.kind {
                proof {
                    let flow = left[index as int].0;
                    assert(self.flow_kinds()[flow] != other.flow_kinds()[flow]);
                }
                return false;
            }
            if !same_amounts(&mine.1.coefficients, &theirs.1.coefficients) {
                proof {
                    let flow = left[index as int].0;
                    assert(self.flow_effects().dom().contains(flow));
                    assert(self.flow_effects()[flow] == mine.1.coefficients@);
                    assert(other.flow_effects()[flow] == theirs.1.coefficients@);
                    assert(!amounts_agree(self.flow_effects()[flow], other.flow_effects()[flow]));
                }
                return false;
            }
            index = index + 1;
        }
        proof {
            assert(self.flow_kinds() =~= other.flow_kinds()) by {
                assert forall|flow: FlowId| #[trigger] self.flows@.dom().contains(flow) implies self.flow_kinds()[flow]
                    == other.flow_kinds()[flow] by {
                    let i = choose|i: int| 0 <= i < left.len() && left[i].0 == flow;
                    assert(left[i].1.kind == right[i].1.kind);
                }
            }
            assert forall|flow: FlowId| #[trigger] self.flow_effects().dom().contains(flow) implies amounts_agree(
                self.flow_effects()[flow],
                other.flow_effects()[flow],
            ) by {
                let i = choose|i: int| 0 <= i < left.len() && left[i].0 == flow;
                assert(amounts_agree(left[i].1.coefficients@, right[i].1.coefficients@));
            }
        }
        true
    }

    fn same_boundaries_as(&self, other: &Self) -> (same: bool)
        ensures
            same == (self.boundary_kinds() == other.boundary_kinds() && effects_agree(
                self.boundary_effects(),
                other.boundary_effects(),
            ) && self.boundary_roles() == other.boundary_roles()),
            *self == *other ==> same,
    {
        proof {
            use_type_invariant(self);
            use_type_invariant(other);
            assert(self.boundary_kinds().dom() =~= self.boundaries@.dom());
            assert(other.boundary_kinds().dom() =~= other.boundaries@.dom());
            assert(self.boundary_effects().dom() =~= self.boundaries@.dom());
            assert(other.boundary_effects().dom() =~= other.boundaries@.dom());
            assert(self.boundary_roles().dom() =~= self.boundaries@.dom());
            assert(other.boundary_roles().dom() =~= other.boundaries@.dom());
        }
        if !same_keys(&self.boundaries, &other.boundaries) {
            return false;
        }
        proof {
            self.boundaries.lemma_view();
            other.boundaries.lemma_view();
            lemma_same_keys(self.boundaries.entries(), other.boundaries.entries());
            assert forall|i: int| 0 <= i < self.boundaries.entries().len() implies #[trigger] self.boundaries.entries()[i].0
                == other.boundaries.entries()[i].0 by {
                assert(keys_of(self.boundaries.entries())[i] == keys_of(other.boundaries.entries())[i]);
            }
        }
        let ghost left = self.boundaries.entries();
        let ghost right = other.boundaries.entries();
        let mut index: usize = 0;
        while index < self.boundaries.len()
            invariant
                index <= left.len(),
                left == self.boundaries.entries(),
                right == other.boundaries.entries(),
                left.len() == right.len(),
                self.well_formed(),
                other.well_formed(),
                forall|i: int| 0 <= i < left.len() ==> #[trigger] left[i].0 == right[i].0,
                forall|i: int|
                    0 <= i < left.len() ==> #[trigger] self.boundaries@[left[i].0] == left[i].1
                        && self.boundaries@.dom().contains(left[i].0),
                forall|i: int|
                    0 <= i < right.len() ==> #[trigger] other.boundaries@[right[i].0] == right[i].1
                        && other.boundaries@.dom().contains(right[i].0),
                forall|i: int|
                    0 <= i < index ==> (#[trigger] left[i]).1.column.kind == right[i].1.column.kind
                        && left[i].1.role == right[i].1.role && amounts_agree(
                        left[i].1.column.coefficients@,
                        right[i].1.column.coefficients@,
                    ),
            decreases left.len() - index,
        {
            let mine = self.boundaries.entry(index);
            let theirs = other.boundaries.entry(index);
            proof {
                assert(self.boundaries@[left[index as int].0] == left[index as int].1);
                assert(other.boundaries@[right[index as int].0] == right[index as int].1);
                assert(column_fits(self.boundaries@[left[index as int].0].column, self.stocks@));
                assert(column_fits(other.boundaries@[right[index as int].0].column, other.stocks@));
            }
            if mine.1.column.kind != theirs.1.column.kind || mine.1.role != theirs.1.role {
                proof {
                    let port = left[index as int].0;
                    assert(self.boundary_kinds()[port] != other.boundary_kinds()[port]
                        || self.boundary_roles()[port] != other.boundary_roles()[port]);
                }
                return false;
            }
            if !same_amounts(&mine.1.column.coefficients, &theirs.1.column.coefficients) {
                proof {
                    let port = left[index as int].0;
                    assert(self.boundary_effects().dom().contains(port));
                    assert(self.boundary_effects()[port] == mine.1.column.coefficients@);
                    assert(other.boundary_effects()[port] == theirs.1.column.coefficients@);
                    assert(!amounts_agree(self.boundary_effects()[port], other.boundary_effects()[port]));
                }
                return false;
            }
            index = index + 1;
        }
        proof {
            assert(self.boundary_kinds() =~= other.boundary_kinds()) by {
                assert forall|port: BoundaryId| #[trigger] self.boundaries@.dom().contains(port) implies self.boundary_kinds()[port]
                    == other.boundary_kinds()[port] by {
                    let i = choose|i: int| 0 <= i < left.len() && left[i].0 == port;
                    assert(left[i].1.column.kind == right[i].1.column.kind);
                }
            }
            assert(self.boundary_roles() =~= other.boundary_roles()) by {
                assert forall|port: BoundaryId| #[trigger] self.boundaries@.dom().contains(port) implies self.boundary_roles()[port]
                    == other.boundary_roles()[port] by {
                    let i = choose|i: int| 0 <= i < left.len() && left[i].0 == port;
                    assert(left[i].1.role == right[i].1.role);
                }
            }
            assert forall|port: BoundaryId| #[trigger] self.boundary_effects().dom().contains(port) implies amounts_agree(
                self.boundary_effects()[port],
                other.boundary_effects()[port],
            ) by {
                let i = choose|i: int| 0 <= i < left.len() && left[i].0 == port;
                assert(amounts_agree(left[i].1.column.coefficients@, right[i].1.column.coefficients@));
            }
        }
        true
    }

    fn same_ledgers_as(&self, other: &Self) -> (same: bool)
        ensures
            same == same_ledgers(*self, *other),
            *self == *other ==> same,
    {
        proof {
            use_type_invariant(self);
            use_type_invariant(other);
            assert(self.ledger_axes().dom() =~= self.ledgers@.dom());
            assert(other.ledger_axes().dom() =~= other.ledgers@.dom());
            assert(self.ledger_kinds().dom() =~= self.ledgers@.dom());
            assert(other.ledger_kinds().dom() =~= other.ledgers@.dom());
            assert(self.ledger_boundaries().dom() =~= self.ledgers@.dom());
            assert(other.ledger_boundaries().dom() =~= other.ledgers@.dom());
        }
        if !same_keys(&self.ledgers, &other.ledgers) {
            return false;
        }
        proof {
            self.ledgers.lemma_view();
            other.ledgers.lemma_view();
            lemma_same_keys(self.ledgers.entries(), other.ledgers.entries());
            assert forall|i: int| 0 <= i < self.ledgers.entries().len() implies #[trigger] self.ledgers.entries()[i].0
                == other.ledgers.entries()[i].0 by {
                assert(keys_of(self.ledgers.entries())[i] == keys_of(other.ledgers.entries())[i]);
            }
        }
        let ghost left = self.ledgers.entries();
        let ghost right = other.ledgers.entries();
        let mut index: usize = 0;
        while index < self.ledgers.len()
            invariant
                index <= left.len(),
                left == self.ledgers.entries(),
                right == other.ledgers.entries(),
                left.len() == right.len(),
                self.well_formed(),
                other.well_formed(),
                forall|i: int| 0 <= i < left.len() ==> #[trigger] left[i].0 == right[i].0,
                forall|i: int|
                    0 <= i < left.len() ==> #[trigger] self.ledgers@[left[i].0] == left[i].1
                        && self.ledgers@.dom().contains(left[i].0),
                forall|i: int|
                    0 <= i < right.len() ==> #[trigger] other.ledgers@[right[i].0] == right[i].1
                        && other.ledgers@.dom().contains(right[i].0),
                forall|i: int|
                    0 <= i < index ==> (#[trigger] left[i]).1.axis == right[i].1.axis
                        && left[i].1.kind == right[i].1.kind && left[i].1.boundaries@.dom()
                        == right[i].1.boundaries@.dom(),
            decreases left.len() - index,
        {
            let mine = self.ledgers.entry(index);
            let theirs = other.ledgers.entry(index);
            proof {
                assert(self.ledgers@[left[index as int].0] == left[index as int].1);
                assert(other.ledgers@[right[index as int].0] == right[index as int].1);
            }
            if mine.1.axis != theirs.1.axis || mine.1.kind != theirs.1.kind || !same_keys(
                &mine.1.boundaries,
                &theirs.1.boundaries,
            ) {
                proof {
                    let ledger = left[index as int].0;
                    assert(self.ledger_axes()[ledger] != other.ledger_axes()[ledger]
                        || self.ledger_kinds()[ledger] != other.ledger_kinds()[ledger]
                        || self.ledger_boundaries()[ledger] != other.ledger_boundaries()[ledger]);
                }
                return false;
            }
            index = index + 1;
        }
        proof {
            assert(self.ledger_axes() =~= other.ledger_axes()) by {
                assert forall|ledger: LedgerId| #[trigger] self.ledgers@.dom().contains(ledger) implies self.ledger_axes()[ledger]
                    == other.ledger_axes()[ledger] by {
                    let i = choose|i: int| 0 <= i < left.len() && left[i].0 == ledger;
                    assert(left[i].1.axis == right[i].1.axis);
                }
            }
            assert(self.ledger_kinds() =~= other.ledger_kinds()) by {
                assert forall|ledger: LedgerId| #[trigger] self.ledgers@.dom().contains(ledger) implies self.ledger_kinds()[ledger]
                    == other.ledger_kinds()[ledger] by {
                    let i = choose|i: int| 0 <= i < left.len() && left[i].0 == ledger;
                    assert(left[i].1.kind == right[i].1.kind);
                }
            }
            assert(self.ledger_boundaries() =~= other.ledger_boundaries()) by {
                assert forall|ledger: LedgerId| #[trigger] self.ledgers@.dom().contains(ledger) implies self.ledger_boundaries()[ledger]
                    == other.ledger_boundaries()[ledger] by {
                    let i = choose|i: int| 0 <= i < left.len() && left[i].0 == ledger;
                    assert(left[i].1.boundaries@.dom() == right[i].1.boundaries@.dom());
                }
            }
        }
        true
    }

    /// The carrier with nothing in it.
    pub fn new() -> (carrier: Self)
        ensures
            carrier.stock_kinds() == Map::<AxisId, KindId>::empty(),
            carrier.flow_kinds() == Map::<FlowId, KindId>::empty(),
            carrier.boundary_kinds() == Map::<BoundaryId, KindId>::empty(),
            carrier.ledger_axes() == Map::<LedgerId, AxisId>::empty(),
    {
        let carrier = StockFlowCarrier {
            stocks: SymbolMap::new(),
            flows: SymbolMap::new(),
            boundaries: SymbolMap::new(),
            ledgers: SymbolMap::new(),
        };
        proof {
            assert(carrier.flow_kinds() =~= Map::<FlowId, KindId>::empty());
            assert(carrier.boundary_kinds() =~= Map::<BoundaryId, KindId>::empty());
            assert(carrier.ledger_axes() =~= Map::<LedgerId, AxisId>::empty());
        }
        carrier
    }
}

} // verus!
