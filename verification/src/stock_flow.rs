//! Stock-flow signatures and their structural renamings.
//!
//! A stock-flow signature is one exact carrier. A stock-flow renaming renames
//! every class of carrier symbol (kinds, axes, internal flows, boundary ports
//! and ledgers) by a total bijection that preserves the carrier's structure:
//! kinds and stock or ledger roles of axes, kinds and incidences of flows and
//! boundary ports, boundary roles, and the axis, kind and feeding ports of
//! every ledger.
use std::sync::Arc;

use num_rational::BigRational;
use vstd::prelude::*;

use crate::carrier::{BoundaryId, FlowId, LedgerId, StockFlowCarrier, has_denominator, same_rational};
use crate::conservation::{
    AxisId, BalanceLaw, GradedLaw, KindId, compose_entries, copy_rational, identity_of_keys,
    identity_on, renamed, then,
};
use crate::symbol_map::SymbolMap;

verus! {

/// The class of carrier symbol that a bijection renames.
#[derive(Clone, Copy, Debug, PartialEq, Eq, Structural, Hash)]
pub enum SymbolClass {
    /// Quantity kinds.
    Kind,
    /// Stock and ledger axes.
    Axis,
    /// Internal flow channels.
    Flow,
    /// Boundary ports.
    Boundary,
    /// Cumulative ledgers.
    Ledger,
}

/// Why a proposed symbol map is not a total bijection.
#[derive(Clone, Copy, Debug, PartialEq, Eq, Structural, Hash)]
pub enum MorphismDefect {
    /// A pair's source symbol is not a source symbol of its class.
    UnknownSource { class: SymbolClass, symbol: u64 },
    /// A pair's target symbol is not a target symbol of its class.
    UnknownTarget { class: SymbolClass, symbol: u64 },
    /// A source symbol is mapped more than once.
    DuplicateSource { class: SymbolClass, symbol: u64 },
    /// A target symbol is hit more than once.
    NonInjectiveTarget { class: SymbolClass, symbol: u64 },
    /// The pairs do not cover every source and every target symbol.
    NotTotal { class: SymbolClass },
    /// The kind of an axis is not carried to the kind of its image.
    AxisKindNotPreserved { axis: u64 },
    /// A stock axis is renamed to a ledger axis, or the other way round.
    AxisRoleNotPreserved { axis: u64 },
    /// The kind of a flow channel is not carried to the kind of its image.
    FlowKindNotPreserved { flow: u64 },
    /// A flow channel changes some stock otherwise than its image does.
    InternalIncidenceNotPreserved { flow: u64 },
    /// The kind of a boundary port is not carried to the kind of its image.
    BoundaryKindNotPreserved { boundary: u64 },
    /// A boundary port changes some stock otherwise than its image does.
    BoundaryIncidenceNotPreserved { boundary: u64 },
    /// A boundary port and its image play different roles.
    BoundaryRoleNotPreserved { boundary: u64 },
    /// A ledger's axis or kind is not carried to its image's.
    LedgerNotPreserved { ledger: u64 },
    /// A ledger's feeding ports are not carried to its image's.
    LedgerBoundariesNotPreserved { ledger: u64 },
}

/// Structural failure of a stock-flow renaming.
#[derive(Clone, Copy, Debug, PartialEq, Eq, Structural)]
#[non_exhaustive]
pub enum Error {
    /// A proposed symbol map does not preserve complete carrier structure.
    InvalidMorphism(MorphismDefect),
    /// The two morphisms do not share their middle signature.
    NotComposable,
    /// A model trace belongs to a different carrier.
    ModelSignatureMismatch,
}

/// The forward and inverse maps built from `pairs` in order, or the first
/// defect: a symbol outside its set, a source mapped twice, or a target hit
/// twice.
pub open spec fn pairs_outcome(
    class: SymbolClass,
    source: Set<u64>,
    target: Set<u64>,
    pairs: Seq<(u64, u64)>,
) -> Result<(Map<u64, u64>, Map<u64, u64>), MorphismDefect>
    decreases pairs.len(),
{
    if pairs.len() == 0 {
        Ok((Map::empty(), Map::empty()))
    } else {
        match pairs_outcome(class, source, target, pairs.drop_last()) {
            Err(defect) => Err(defect),
            Ok((forward, inverse)) => {
                let (from, to) = pairs.last();
                if !source.contains(from) {
                    Err(MorphismDefect::UnknownSource { class, symbol: from })
                } else if !target.contains(to) {
                    Err(MorphismDefect::UnknownTarget { class, symbol: to })
                } else if forward.dom().contains(from) {
                    Err(MorphismDefect::DuplicateSource { class, symbol: from })
                } else if inverse.dom().contains(to) {
                    Err(MorphismDefect::NonInjectiveTarget { class, symbol: to })
                } else {
                    Ok((forward.insert(from, to), inverse.insert(to, from)))
                }
            },
        }
    }
}

/// What [`Bijection::new`] makes of `pairs`: the maps of
/// [`pairs_outcome`], which must cover every source and every target symbol.
pub open spec fn bijection_outcome(
    class: SymbolClass,
    source: Set<u64>,
    target: Set<u64>,
    pairs: Seq<(u64, u64)>,
) -> Result<(Map<u64, u64>, Map<u64, u64>), MorphismDefect> {
    match pairs_outcome(class, source, target, pairs) {
        Err(defect) => Err(defect),
        Ok((forward, inverse)) => if forward.dom().len() != source.len() || inverse.dom().len()
            != target.len() {
            Err(MorphismDefect::NotTotal { class })
        } else {
            Ok((forward, inverse))
        },
    }
}

/// `forward` and `inverse` undo each other.
pub open spec fn mutually_inverse(forward: Map<u64, u64>, inverse: Map<u64, u64>) -> bool {
    &&& forall|symbol: u64| #[trigger]
        forward.dom().contains(symbol) ==> inverse.dom().contains(forward[symbol])
            && inverse[forward[symbol]] == symbol
    &&& forall|symbol: u64| #[trigger]
        inverse.dom().contains(symbol) ==> forward.dom().contains(inverse[symbol])
            && forward[inverse[symbol]] == symbol
}

proof fn lemma_pairs_facts(
    class: SymbolClass,
    source: Set<u64>,
    target: Set<u64>,
    pairs: Seq<(u64, u64)>,
)
    requires
        pairs_outcome(class, source, target, pairs) is Ok,
    ensures
        ({
            let (forward, inverse) = pairs_outcome(class, source, target, pairs)->Ok_0;
            &&& forward.dom().subset_of(source)
            &&& inverse.dom().subset_of(target)
            &&& forward.dom().finite()
            &&& inverse.dom().finite()
            &&& mutually_inverse(forward, inverse)
        }),
    decreases pairs.len(),
{
    if pairs.len() > 0 {
        lemma_pairs_facts(class, source, target, pairs.drop_last());
    }
}

proof fn lemma_pairs_error_persists(
    class: SymbolClass,
    source: Set<u64>,
    target: Set<u64>,
    pairs: Seq<(u64, u64)>,
    i: int,
    j: int,
)
    requires
        0 <= i <= j <= pairs.len(),
        pairs_outcome(class, source, target, pairs.take(i)) is Err,
    ensures
        pairs_outcome(class, source, target, pairs.take(j)) == pairs_outcome(
            class,
            source,
            target,
            pairs.take(i),
        ),
    decreases j - i,
{
    if i < j {
        lemma_pairs_error_persists(class, source, target, pairs, i, j - 1);
        assert(pairs.take(j).drop_last() == pairs.take(j - 1));
    }
}

/// The pairs sending each symbol listed in `entries` to itself, in order.
pub open spec fn identity_pairs(entries: Seq<(u64, ())>) -> Seq<(u64, u64)> {
    entries.map_values(|entry: (u64, ())| (entry.0, entry.0))
}

proof fn lemma_identity_pairs_prefix(
    class: SymbolClass,
    symbols: Set<u64>,
    entries: Seq<(u64, ())>,
    count: int,
)
    requires
        crate::symbol_map::ascending(entries),
        0 <= count <= entries.len(),
        forall|i: int| 0 <= i < entries.len() ==> symbols.contains(#[trigger] entries[i].0),
    ensures
        ({
            let listed = crate::symbol_map::map_of(entries.take(count)).dom();
            pairs_outcome(class, symbols, symbols, identity_pairs(entries.take(count))) == Ok::<
                (Map<u64, u64>, Map<u64, u64>),
                MorphismDefect,
            >((identity_on(listed), identity_on(listed)))
        }),
    decreases count,
{
    let prefix = entries.take(count);
    if count == 0 {
        assert(identity_pairs(prefix) =~= Seq::<(u64, u64)>::empty());
        assert(identity_on(crate::symbol_map::map_of(prefix).dom()) =~= Map::<u64, u64>::empty());
    } else {
        lemma_identity_pairs_prefix(class, symbols, entries, count - 1);
        let earlier = entries.take(count - 1);
        let symbol = entries[count - 1].0;
        assert(prefix.drop_last() =~= earlier);
        assert(identity_pairs(prefix).drop_last() =~= identity_pairs(earlier));
        assert(identity_pairs(prefix).last() == (symbol, symbol));
        crate::symbol_map::lemma_map_of_entries(earlier);
        let before = crate::symbol_map::map_of(earlier).dom();
        assert(!before.contains(symbol)) by {
            if before.contains(symbol) {
                let i = choose|i: int| 0 <= i < earlier.len() && earlier[i].0 == symbol;
                assert(entries[i].0 < entries[count - 1].0);
            }
        }
        assert(crate::symbol_map::map_of(prefix).dom() == before.insert(symbol));
        assert(identity_on(before).insert(symbol, symbol) =~= identity_on(before.insert(symbol)));
    }
}

/// The identity bijection on a set of symbols is what validating the pairs
/// that send each of those symbols to itself gives, in any symbol class.
pub proof fn lemma_identity_bijection_outcome(class: SymbolClass, values: SymbolMap<()>)
    requires
        values.well_formed(),
    ensures
        bijection_outcome(class, values@.dom(), values@.dom(), identity_pairs(values.entries()))
            == Ok::<(Map<u64, u64>, Map<u64, u64>), MorphismDefect>(
            (identity_on(values@.dom()), identity_on(values@.dom())),
        ),
{
    values.lemma_view();
    let entries = values.entries();
    assert forall|i: int| 0 <= i < entries.len() implies values@.dom().contains(
        #[trigger] entries[i].0,
    ) by {}
    lemma_identity_pairs_prefix(class, values@.dom(), entries, entries.len() as int);
    assert(entries.take(entries.len() as int) =~= entries);
    assert(crate::symbol_map::map_of(entries) == values@);
    assert(identity_on(values@.dom()).dom() =~= values@.dom());
}

/// A total bijection between two finite symbol sets, with its inverse.
#[derive(Debug, PartialEq, Eq)]
pub struct Bijection {
    forward: SymbolMap<u64>,
    inverse: SymbolMap<u64>,
}

impl Bijection {
    /// The image of each source symbol.
    pub closed spec fn forward_map(self) -> Map<u64, u64> {
        self.forward@
    }

    /// The preimage of each target symbol.
    pub closed spec fn inverse_map(self) -> Map<u64, u64> {
        self.inverse@
    }

    /// The two maps undo each other.
    #[verifier::type_invariant]
    pub closed spec fn well_formed(self) -> bool {
        &&& self.forward.well_formed()
        &&& self.inverse.well_formed()
        &&& mutually_inverse(self.forward@, self.inverse@)
    }

    /// The two maps of a bijection undo each other.
    pub proof fn lemma_inverse(self)
        requires
            self.well_formed(),
        ensures
            mutually_inverse(self.forward_map(), self.inverse_map()),
    {
    }

    /// Validates `pairs` as a total bijection from `source` onto `target`.
    /// The pairs are checked in order; the first defect is returned, and
    /// then the pairs must cover both sets.
    pub fn new(
        class: SymbolClass,
        source: &SymbolMap<()>,
        target: &SymbolMap<()>,
        pairs: Vec<(u64, u64)>,
    ) -> (bijection: Result<Self, Error>)
        requires
            source.well_formed(),
            target.well_formed(),
        ensures
            match bijection_outcome(class, source@.dom(), target@.dom(), pairs@) {
                Err(defect) => bijection == Err::<Self, Error>(Error::InvalidMorphism(defect)),
                Ok((forward, inverse)) => bijection matches Ok(valid) && valid.forward_map()
                    == forward && valid.inverse_map() == inverse,
            },
            bijection matches Ok(valid) ==> valid.forward_map().dom() == source@.dom()
                && valid.inverse_map().dom() == target@.dom(),
    {
        proof {
            source.lemma_view();
            target.lemma_view();
        }
        let ghost source_set = source@.dom();
        let ghost target_set = target@.dom();
        let mut forward: SymbolMap<u64> = SymbolMap::new();
        let mut inverse: SymbolMap<u64> = SymbolMap::new();
        let mut index: usize = 0;
        while index < pairs.len()
            invariant
                index <= pairs@.len(),
                source.well_formed(),
                target.well_formed(),
                source_set == source@.dom(),
                target_set == target@.dom(),
                forward.well_formed(),
                inverse.well_formed(),
                pairs_outcome(class, source_set, target_set, pairs@.take(index as int)) == Ok::<
                    (Map<u64, u64>, Map<u64, u64>),
                    MorphismDefect,
                >((forward@, inverse@)),
            decreases pairs@.len() - index,
        {
            let (from, to) = pairs[index];
            proof {
                assert(pairs@.take(index + 1).drop_last() == pairs@.take(index as int));
                assert(pairs@.take(index + 1).last() == (from, to));
            }
            let defect = if !source.contains(from) {
                Some(MorphismDefect::UnknownSource { class, symbol: from })
            } else if !target.contains(to) {
                Some(MorphismDefect::UnknownTarget { class, symbol: to })
            } else if forward.contains(from) {
                Some(MorphismDefect::DuplicateSource { class, symbol: from })
            } else if inverse.contains(to) {
                Some(MorphismDefect::NonInjectiveTarget { class, symbol: to })
            } else {
                None
            };
            match defect {
                Some(defect) => {
                    proof {
                        lemma_pairs_error_persists(
                            class,
                            source_set,
                            target_set,
                            pairs@,
                            index + 1,
                            pairs@.len() as int,
                        );
                        assert(pairs@.take(pairs@.len() as int) == pairs@);
                    }
                    return Err(Error::InvalidMorphism(defect));
                },
                None => {},
            }
            forward.insert_new(from, to);
            inverse.insert_new(to, from);
            index = index + 1;
        }
        proof {
            assert(pairs@.take(pairs@.len() as int) == pairs@);
            lemma_pairs_facts(class, source_set, target_set, pairs@);
            forward.lemma_view();
            inverse.lemma_view();
        }
        if forward.len() != source.len() || inverse.len() != target.len() {
            return Err(Error::InvalidMorphism(MorphismDefect::NotTotal { class }));
        }
        proof {
            vstd::set_lib::lemma_subset_equality(forward@.dom(), source_set);
            vstd::set_lib::lemma_subset_equality(inverse@.dom(), target_set);
        }
        Ok(Bijection { forward, inverse })
    }

    /// The identity bijection on `values`.
    pub fn identity(values: &SymbolMap<()>) -> (bijection: Self)
        requires
            values.well_formed(),
        ensures
            bijection.forward_map() == identity_on(values@.dom()),
            bijection.inverse_map() == identity_on(values@.dom()),
    {
        let forward = identity_of_keys(values);
        let inverse = identity_of_keys(values);
        Bijection { forward, inverse }
    }

    /// Composes `first: A -> B` with `second: B -> C`, producing `A -> C`;
    /// the targets of `first` must be the sources of `second`.
    pub fn compose(first: &Self, second: &Self) -> (composite: Self)
        requires
            first.inverse_map().dom() == second.forward_map().dom(),
        ensures
            composite.forward_map() == then(first.forward_map(), second.forward_map()),
            composite.inverse_map() == then(second.inverse_map(), first.inverse_map()),
    {
        proof {
            use_type_invariant(first);
            use_type_invariant(second);
        }
        let forward = compose_entries(&first.forward, &second.forward);
        let inverse = compose_entries(&second.inverse, &first.inverse);
        proof {
            let f = first.forward@;
            let g = second.forward@;
            assert forall|symbol: u64| #[trigger] forward@.dom().contains(symbol) implies inverse@.dom().contains(
                forward@[symbol],
            ) && inverse@[forward@[symbol]] == symbol by {
                assert(g.dom().contains(f[symbol]));
                assert(second.inverse@[g[f[symbol]]] == f[symbol]);
            }
            assert forall|symbol: u64| #[trigger] inverse@.dom().contains(symbol) implies forward@.dom().contains(
                inverse@[symbol],
            ) && forward@[inverse@[symbol]] == symbol by {
                let middle = second.inverse@[symbol];
                assert(first.inverse@.dom().contains(middle));
            }
        }
        Bijection { forward, inverse }
    }

    /// The image of a source symbol.
    pub fn map(&self, symbol: u64) -> (image: Option<u64>)
        ensures
            image == (if self.forward_map().dom().contains(symbol) {
                Some(self.forward_map()[symbol])
            } else {
                None::<u64>
            }),
    {
        proof {
            use_type_invariant(self);
        }
        match self.forward.get(symbol) {
            Some(image) => Some(*image),
            None => None,
        }
    }

    /// The preimage of a target symbol.
    pub fn preimage(&self, symbol: u64) -> (preimage: Option<u64>)
        ensures
            preimage == (if self.inverse_map().dom().contains(symbol) {
                Some(self.inverse_map()[symbol])
            } else {
                None::<u64>
            }),
    {
        proof {
            use_type_invariant(self);
        }
        match self.inverse.get(symbol) {
            Some(preimage) => Some(*preimage),
            None => None,
        }
    }
}

impl Clone for Bijection {
    fn clone(&self) -> (copy: Self)
        ensures
            copy.forward_map() == self.forward_map(),
            copy.inverse_map() == self.inverse_map(),
    {
        proof {
            use_type_invariant(self);
        }
        Bijection { forward: self.forward.duplicate(), inverse: self.inverse.duplicate() }
    }
}

/// Composing the identity of a bijection's sources with it, or it with the
/// identity of its targets, gives back its maps.
pub proof fn lemma_bijection_identity(bijection: Bijection)
    requires
        bijection.well_formed(),
    ensures
        then(identity_on(bijection.forward_map().dom()), bijection.forward_map())
            == bijection.forward_map(),
        then(bijection.inverse_map(), identity_on(bijection.forward_map().dom()))
            == bijection.inverse_map(),
        then(bijection.forward_map(), identity_on(bijection.inverse_map().dom()))
            == bijection.forward_map(),
        then(identity_on(bijection.inverse_map().dom()), bijection.inverse_map())
            == bijection.inverse_map(),
{
    let f = bijection.forward_map();
    let g = bijection.inverse_map();
    assert(then(identity_on(f.dom()), f) =~= f);
    assert(then(g, identity_on(f.dom())) =~= g);
    assert(then(f, identity_on(g.dom())) =~= f);
    assert(then(identity_on(g.dom()), g) =~= g);
}

/// For bijections `first: A -> B`, `second: B -> C` and `third: C -> D`,
/// the two ways of composing all three have the same maps.
pub proof fn lemma_bijection_associativity(first: Bijection, second: Bijection, third: Bijection)
    requires
        first.well_formed(),
        second.well_formed(),
        third.well_formed(),
        first.inverse_map().dom() == second.forward_map().dom(),
        second.inverse_map().dom() == third.forward_map().dom(),
    ensures
        then(then(first.forward_map(), second.forward_map()), third.forward_map()) == then(
            first.forward_map(),
            then(second.forward_map(), third.forward_map()),
        ),
        then(then(third.inverse_map(), second.inverse_map()), first.inverse_map()) == then(
            third.inverse_map(),
            then(second.inverse_map(), first.inverse_map()),
        ),
{
    assert(then(then(first.forward_map(), second.forward_map()), third.forward_map()) =~= then(
        first.forward_map(),
        then(second.forward_map(), third.forward_map()),
    ));
    assert(then(then(third.inverse_map(), second.inverse_map()), first.inverse_map()) =~= then(
        third.inverse_map(),
        then(second.inverse_map(), first.inverse_map()),
    ));
}

/// The defect at the least key of `keys` that has one, if any key has one.
pub open spec fn first_defect(
    keys: Set<u64>,
    defect: spec_fn(u64) -> Option<MorphismDefect>,
) -> Option<MorphismDefect> {
    if exists|key: u64| keys.contains(key) && #[trigger] defect(key) is Some {
        defect(
            choose|key: u64|
                keys.contains(key) && defect(key) is Some && forall|other: u64|
                    #![trigger keys.contains(other)]
                    keys.contains(other) && defect(other) is Some ==> key <= other,
        )
    } else {
        None
    }
}

/// Met in ascending order, the first key with a defect is the least one.
#[verifier::spinoff_prover]
#[verifier::rlimit(40)]
proof fn lemma_first_defect_at(
    keys: SymbolMap<()>,
    defect: spec_fn(u64) -> Option<MorphismDefect>,
    index: int,
)
    requires
        keys.well_formed(),
        0 <= index < keys.entries().len(),
        forall|i: int| 0 <= i < index ==> (#[trigger] defect(keys.entries()[i].0)) is None,
        defect(keys.entries()[index].0) is Some,
    ensures
        first_defect(keys@.dom(), defect) == defect(keys.entries()[index].0),
{
    keys.lemma_view();
    let entries = keys.entries();
    let key = entries[index].0;
    assert forall|other: u64| #![trigger keys@.dom().contains(other)]
        keys@.dom().contains(other) && defect(other) is Some implies key <= other by {
        let j = choose|j: int| 0 <= j < entries.len() && entries[j].0 == other;
        if j < index {
            assert(defect(entries[j].0) is None);
        } else if j > index {
            assert(entries[index].0 < entries[j].0);
        }
    }
    assert(keys@.dom().contains(key));
    let chosen = choose|candidate: u64|
        keys@.dom().contains(candidate) && defect(candidate) is Some && forall|other: u64|
            #![trigger keys@.dom().contains(other)]
            keys@.dom().contains(other) && defect(other) is Some ==> candidate <= other;
    assert(chosen <= key && key <= chosen);
}

/// When no key, met in ascending order, has a defect, there is none.
proof fn lemma_first_defect_none(keys: SymbolMap<()>, defect: spec_fn(u64) -> Option<MorphismDefect>)
    requires
        keys.well_formed(),
        forall|i: int| 0 <= i < keys.entries().len() ==> (#[trigger] defect(keys.entries()[i].0)) is None,
    ensures
        first_defect(keys@.dom(), defect) is None,
{
    keys.lemma_view();
    assert forall|key: u64| keys@.dom().contains(key) implies defect(key) is None by {
        let i = choose|i: int| 0 <= i < keys.entries().len() && keys.entries()[i].0 == key;
        assert(defect(keys.entries()[i].0) is None);
    }
}

/// The coefficient of `first` at `first_axis` and that of `second` at
/// `second_axis` are both absent, or both present and equal.
pub open spec fn coefficients_agree(
    first: Map<AxisId, BigRational>,
    first_axis: AxisId,
    second: Map<AxisId, BigRational>,
    second_axis: AxisId,
) -> bool {
    if first.dom().contains(first_axis) {
        second.dom().contains(second_axis) && same_rational(first[first_axis], second[second_axis])
    } else {
        !second.dom().contains(second_axis)
    }
}

/// The defect of renaming `axis`: its kind must be carried to the kind of
/// its image, and both must be stocks or both ledger axes.
pub open spec fn axis_defect(
    source: StockFlowCarrier,
    target: StockFlowCarrier,
    kinds: Map<u64, u64>,
    axes: Map<u64, u64>,
    axis: AxisId,
) -> Option<MorphismDefect> {
    if kinds[source.kind_at(axis)] != target.kind_at(axes[axis]) {
        Some(MorphismDefect::AxisKindNotPreserved { axis })
    } else if source.stock_kinds().dom().contains(axis) != target.stock_kinds().dom().contains(
        axes[axis],
    ) {
        Some(MorphismDefect::AxisRoleNotPreserved { axis })
    } else {
        None
    }
}

/// The defect of renaming the column `column` of an effect matrix (boundary
/// ports when `boundary`, flow channels otherwise): its kind must be carried
/// to its image's kind, and at every stock its coefficient must be that of
/// its image at the stock's image.
pub open spec fn column_defect(
    boundary: bool,
    source_kinds: Map<u64, KindId>,
    source_effects: Map<u64, Map<AxisId, BigRational>>,
    target_kinds: Map<u64, KindId>,
    target_effects: Map<u64, Map<AxisId, BigRational>>,
    stocks: Set<AxisId>,
    kinds: Map<u64, u64>,
    axes: Map<u64, u64>,
    columns: Map<u64, u64>,
    column: u64,
) -> Option<MorphismDefect> {
    let image = columns[column];
    if kinds[source_kinds[column]] != target_kinds[image] {
        Some(
            if boundary {
                MorphismDefect::BoundaryKindNotPreserved { boundary: column }
            } else {
                MorphismDefect::FlowKindNotPreserved { flow: column }
            },
        )
    } else if exists|axis: AxisId|
        stocks.contains(axis) && !#[trigger] coefficients_agree(
            source_effects[column],
            axis,
            target_effects[image],
            axes[axis],
        ) {
        Some(
            if boundary {
                MorphismDefect::BoundaryIncidenceNotPreserved { boundary: column }
            } else {
                MorphismDefect::InternalIncidenceNotPreserved { flow: column }
            },
        )
    } else {
        None
    }
}

/// The defect of renaming the boundary port `port`: it and its image must
/// play the same role.
pub open spec fn role_defect(
    source: StockFlowCarrier,
    target: StockFlowCarrier,
    boundaries: Map<u64, u64>,
    port: u64,
) -> Option<MorphismDefect> {
    if source.boundary_roles()[port] != target.boundary_roles()[boundaries[port]] {
        Some(MorphismDefect::BoundaryRoleNotPreserved { boundary: port })
    } else {
        None
    }
}

/// The defect of renaming `ledger`: its axis and kind must be carried to
/// those of its image, and its feeding ports to its image's feeding ports.
pub open spec fn ledger_defect(
    source: StockFlowCarrier,
    target: StockFlowCarrier,
    kinds: Map<u64, u64>,
    axes: Map<u64, u64>,
    boundaries: Map<u64, u64>,
    ledgers: Map<u64, u64>,
    ledger: u64,
) -> Option<MorphismDefect> {
    let image = ledgers[ledger];
    if !(axes.dom().contains(source.ledger_axes()[ledger]) && axes[source.ledger_axes()[ledger]]
        == target.ledger_axes()[image]) || !(kinds.dom().contains(source.ledger_kinds()[ledger])
        && kinds[source.ledger_kinds()[ledger]] == target.ledger_kinds()[image]) {
        Some(MorphismDefect::LedgerNotPreserved { ledger })
    } else if source.ledger_boundaries()[ledger].map(|port: u64| boundaries[port])
        != target.ledger_boundaries()[image] {
        Some(MorphismDefect::LedgerBoundariesNotPreserved { ledger })
    } else {
        None
    }
}

/// The kinds of the flow channels, or of the boundary ports when `boundary`.
pub open spec fn column_kinds(carrier: StockFlowCarrier, boundary: bool) -> Map<u64, KindId> {
    if boundary {
        carrier.boundary_kinds()
    } else {
        carrier.flow_kinds()
    }
}

/// The effects of the flow channels, or of the boundary ports when
/// `boundary`.
pub open spec fn column_effects(carrier: StockFlowCarrier, boundary: bool) -> Map<
    u64,
    Map<AxisId, BigRational>,
> {
    if boundary {
        carrier.boundary_effects()
    } else {
        carrier.flow_effects()
    }
}

/// The least axis with a defect.
pub open spec fn axis_phase(
    source: StockFlowCarrier,
    target: StockFlowCarrier,
    kinds: Map<u64, u64>,
    axes: Map<u64, u64>,
) -> Option<MorphismDefect> {
    first_defect(source.axis_set(), |axis: u64| axis_defect(source, target, kinds, axes, axis))
}

/// The least flow channel, or boundary port when `boundary`, whose effect
/// has a defect.
pub open spec fn column_phase(
    boundary: bool,
    source: StockFlowCarrier,
    target: StockFlowCarrier,
    kinds: Map<u64, u64>,
    axes: Map<u64, u64>,
    columns: Map<u64, u64>,
) -> Option<MorphismDefect> {
    first_defect(
        column_kinds(source, boundary).dom(),
        |column: u64|
            column_defect(
                boundary,
                column_kinds(source, boundary),
                column_effects(source, boundary),
                column_kinds(target, boundary),
                column_effects(target, boundary),
                source.stock_kinds().dom(),
                kinds,
                axes,
                columns,
                column,
            ),
    )
}

/// The least boundary port whose role is not kept.
pub open spec fn role_phase(
    source: StockFlowCarrier,
    target: StockFlowCarrier,
    boundaries: Map<u64, u64>,
) -> Option<MorphismDefect> {
    first_defect(
        source.boundary_kinds().dom(),
        |port: u64| role_defect(source, target, boundaries, port),
    )
}

/// The least ledger with a defect.
pub open spec fn ledger_phase(
    source: StockFlowCarrier,
    target: StockFlowCarrier,
    kinds: Map<u64, u64>,
    axes: Map<u64, u64>,
    boundaries: Map<u64, u64>,
    ledgers: Map<u64, u64>,
) -> Option<MorphismDefect> {
    first_defect(
        source.ledger_axes().dom(),
        |ledger: u64| ledger_defect(source, target, kinds, axes, boundaries, ledgers, ledger),
    )
}

/// The first structural defect of a renaming with the given forward maps,
/// checked in this order: every axis, every flow channel, every boundary
/// port's effect, every boundary port's role, every ledger; within each,
/// the least symbol with a defect is reported.
pub open spec fn structure_defect(
    source: StockFlowCarrier,
    target: StockFlowCarrier,
    kinds: Map<u64, u64>,
    axes: Map<u64, u64>,
    flows: Map<u64, u64>,
    boundaries: Map<u64, u64>,
    ledgers: Map<u64, u64>,
) -> Option<MorphismDefect> {
    if axis_phase(source, target, kinds, axes) is Some {
        axis_phase(source, target, kinds, axes)
    } else if column_phase(false, source, target, kinds, axes, flows) is Some {
        column_phase(false, source, target, kinds, axes, flows)
    } else if column_phase(true, source, target, kinds, axes, boundaries) is Some {
        column_phase(true, source, target, kinds, axes, boundaries)
    } else if role_phase(source, target, boundaries) is Some {
        role_phase(source, target, boundaries)
    } else {
        ledger_phase(source, target, kinds, axes, boundaries, ledgers)
    }
}

/// A defect that none of `keys` has when the first defect is absent: every
/// key is then free of defects.
proof fn lemma_least_defect_exists(
    keys: Set<u64>,
    defect: spec_fn(u64) -> Option<MorphismDefect>,
    key: u64,
)
    requires
        keys.contains(key),
        defect(key) is Some,
    ensures
        exists|least: u64|
            keys.contains(least) && defect(least) is Some && forall|other: u64|
                #![trigger keys.contains(other)]
                keys.contains(other) && defect(other) is Some ==> least <= other,
    decreases key,
{
    if exists|other: u64| keys.contains(other) && #[trigger] defect(other) is Some && other < key {
        let other = choose|other: u64| keys.contains(other) && #[trigger] defect(other) is Some && other < key;
        lemma_least_defect_exists(keys, defect, other);
    } else {
        assert forall|other: u64| #![trigger keys.contains(other)]
            keys.contains(other) && defect(other) is Some implies key <= other by {
            if other < key {
                assert(defect(other) is Some);
            }
        }
    }
}

/// When no symbol has the first defect, no symbol has any.
proof fn lemma_first_defect_absent(
    keys: Set<u64>,
    defect: spec_fn(u64) -> Option<MorphismDefect>,
    key: u64,
)
    requires
        first_defect(keys, defect) is None,
        keys.contains(key),
    ensures
        defect(key) is None,
{
    if defect(key) is Some {
        lemma_least_defect_exists(keys, defect, key);
        assert(exists|k: u64| keys.contains(k) && #[trigger] defect(k) is Some);
    }
}

/// Each flow channel, or boundary port when `boundary`, of `source` and its
/// image under `columns` have kinds related by `kinds`, and at every source
/// stock the channel has a coefficient exactly when its image has one at the
/// stock's image under `axes`, the two comparing equal.
pub open spec fn effects_preserved(
    boundary: bool,
    source: StockFlowCarrier,
    target: StockFlowCarrier,
    kinds: Map<u64, u64>,
    axes: Map<u64, u64>,
    columns: Map<u64, u64>,
) -> bool {
    forall|column: u64| #[trigger] column_kinds(source, boundary).dom().contains(column) ==> {
        let image = columns[column];
        let effect = column_effects(source, boundary)[column];
        let image_effect = column_effects(target, boundary)[image];
        &&& kinds[column_kinds(source, boundary)[column]] == column_kinds(target, boundary)[image]
        &&& forall|stock: AxisId| #[trigger]
            source.stock_kinds().dom().contains(stock) ==> (effect.dom().contains(stock)
                <==> image_effect.dom().contains(axes[stock]))
        &&& forall|stock: AxisId| #[trigger]
            source.stock_kinds().dom().contains(stock) && effect.dom().contains(stock) ==> same_rational(
                effect[stock],
                image_effect[axes[stock]],
            )
    }
}

/// The maps carry the structure of `source` onto `target`: every axis keeps
/// its kind and its role as a stock or a ledger axis; every flow channel and
/// boundary port keeps its kind and its effect on each stock; every boundary
/// port keeps its role; every ledger keeps its axis and kind, and the ports
/// feeding it are sent onto the ports feeding its image.
pub open spec fn structure_preserved(
    source: StockFlowCarrier,
    target: StockFlowCarrier,
    kinds: Map<u64, u64>,
    axes: Map<u64, u64>,
    flows: Map<u64, u64>,
    boundaries: Map<u64, u64>,
    ledgers: Map<u64, u64>,
) -> bool {
    &&& forall|axis: AxisId| #[trigger]
        source.axis_set().contains(axis) ==> kinds[source.kind_at(axis)] == target.kind_at(axes[axis])
            && (source.stock_kinds().dom().contains(axis) <==> target.stock_kinds().dom().contains(
            axes[axis],
        ))
    &&& effects_preserved(false, source, target, kinds, axes, flows)
    &&& effects_preserved(true, source, target, kinds, axes, boundaries)
    &&& forall|port: BoundaryId| #[trigger]
        source.boundary_kinds().dom().contains(port) ==> source.boundary_roles()[port]
            == target.boundary_roles()[boundaries[port]]
    &&& forall|ledger: LedgerId| #[trigger]
        source.ledger_axes().dom().contains(ledger) ==> {
            let image = ledgers[ledger];
            &&& axes[source.ledger_axes()[ledger]] == target.ledger_axes()[image]
            &&& kinds[source.ledger_kinds()[ledger]] == target.ledger_kinds()[image]
            &&& source.ledger_boundaries()[ledger].map(|port: BoundaryId| boundaries[port])
                == target.ledger_boundaries()[image]
        }
}

proof fn lemma_effects_preserved(
    boundary: bool,
    source: StockFlowCarrier,
    target: StockFlowCarrier,
    kinds: Map<u64, u64>,
    axes: Map<u64, u64>,
    columns: Map<u64, u64>,
)
    requires
        column_phase(boundary, source, target, kinds, axes, columns) is None,
    ensures
        effects_preserved(boundary, source, target, kinds, axes, columns),
{
    let defect = |column: u64|
        column_defect(
            boundary,
            column_kinds(source, boundary),
            column_effects(source, boundary),
            column_kinds(target, boundary),
            column_effects(target, boundary),
            source.stock_kinds().dom(),
            kinds,
            axes,
            columns,
            column,
        );
    assert forall|column: u64| #[trigger] column_kinds(source, boundary).dom().contains(column) implies {
        let image = columns[column];
        let effect = column_effects(source, boundary)[column];
        let image_effect = column_effects(target, boundary)[image];
        &&& kinds[column_kinds(source, boundary)[column]] == column_kinds(target, boundary)[image]
        &&& forall|stock: AxisId| #[trigger]
            source.stock_kinds().dom().contains(stock) ==> (effect.dom().contains(stock)
                <==> image_effect.dom().contains(axes[stock]))
        &&& forall|stock: AxisId| #[trigger]
            source.stock_kinds().dom().contains(stock) && effect.dom().contains(stock) ==> same_rational(
                effect[stock],
                image_effect[axes[stock]],
            )
    } by {
        lemma_first_defect_absent(column_kinds(source, boundary).dom(), defect, column);
        assert(defect(column) is None);
        let image = columns[column];
        let effect = column_effects(source, boundary)[column];
        let image_effect = column_effects(target, boundary)[image];
        assert forall|stock: AxisId| #[trigger] source.stock_kinds().dom().contains(stock) implies
            coefficients_agree(effect, stock, image_effect, axes[stock]) by {
            if !coefficients_agree(effect, stock, image_effect, axes[stock]) {
                assert(source.stock_kinds().dom().contains(stock) && !coefficients_agree(
                    effect,
                    stock,
                    image_effect,
                    axes[stock],
                ));
            }
        }
    }
}

/// A renaming with no structural defect carries the structure of its source
/// onto its target.
pub proof fn lemma_structure_preserved(
    source: StockFlowCarrier,
    target: StockFlowCarrier,
    kinds: Map<u64, u64>,
    axes: Map<u64, u64>,
    flows: Map<u64, u64>,
    boundaries: Map<u64, u64>,
    ledgers: Map<u64, u64>,
)
    requires
        structure_defect(source, target, kinds, axes, flows, boundaries, ledgers) is None,
    ensures
        structure_preserved(source, target, kinds, axes, flows, boundaries, ledgers),
{
    assert forall|axis: AxisId| #[trigger] source.axis_set().contains(axis) implies kinds[source.kind_at(axis)]
        == target.kind_at(axes[axis]) && (source.stock_kinds().dom().contains(axis)
        <==> target.stock_kinds().dom().contains(axes[axis])) by {
        lemma_first_defect_absent(
            source.axis_set(),
            |axis: u64| axis_defect(source, target, kinds, axes, axis),
            axis,
        );
    }
    lemma_effects_preserved(false, source, target, kinds, axes, flows);
    lemma_effects_preserved(true, source, target, kinds, axes, boundaries);
    assert forall|port: BoundaryId| #[trigger] source.boundary_kinds().dom().contains(port) implies source.boundary_roles()[port]
        == target.boundary_roles()[boundaries[port]] by {
        lemma_first_defect_absent(
            source.boundary_kinds().dom(),
            |port: u64| role_defect(source, target, boundaries, port),
            port,
        );
    }
    assert forall|ledger: LedgerId| #[trigger] source.ledger_axes().dom().contains(ledger) implies {
        let image = ledgers[ledger];
        &&& axes[source.ledger_axes()[ledger]] == target.ledger_axes()[image]
        &&& kinds[source.ledger_kinds()[ledger]] == target.ledger_kinds()[image]
        &&& source.ledger_boundaries()[ledger].map(|port: BoundaryId| boundaries[port])
            == target.ledger_boundaries()[image]
    } by {
        lemma_first_defect_absent(
            source.ledger_axes().dom(),
            |ledger: u64| ledger_defect(source, target, kinds, axes, boundaries, ledgers, ledger),
            ledger,
        );
    }
}

/// What [`StockFlowRenaming::new`] makes of its inputs: the forward maps of
/// the kind, axis, flow, boundary and ledger bijections, validated in that
/// order, or the first defect; then the structure must be preserved.
pub open spec fn renaming_outcome(
    source: StockFlowCarrier,
    target: StockFlowCarrier,
    kinds: Seq<(u64, u64)>,
    axes: Seq<(u64, u64)>,
    flows: Seq<(u64, u64)>,
    boundaries: Seq<(u64, u64)>,
    ledgers: Seq<(u64, u64)>,
) -> Result<(Map<u64, u64>, Map<u64, u64>, Map<u64, u64>, Map<u64, u64>, Map<u64, u64>), MorphismDefect> {
    match bijection_outcome(SymbolClass::Kind, source.kind_set(), target.kind_set(), kinds) {
        Err(defect) => Err(defect),
        Ok((kind_map, _)) => match bijection_outcome(
            SymbolClass::Axis,
            source.axis_set(),
            target.axis_set(),
            axes,
        ) {
            Err(defect) => Err(defect),
            Ok((axis_map, _)) => match bijection_outcome(
                SymbolClass::Flow,
                source.flow_kinds().dom(),
                target.flow_kinds().dom(),
                flows,
            ) {
                Err(defect) => Err(defect),
                Ok((flow_map, _)) => match bijection_outcome(
                    SymbolClass::Boundary,
                    source.boundary_kinds().dom(),
                    target.boundary_kinds().dom(),
                    boundaries,
                ) {
                    Err(defect) => Err(defect),
                    Ok((boundary_map, _)) => match bijection_outcome(
                        SymbolClass::Ledger,
                        source.ledger_axes().dom(),
                        target.ledger_axes().dom(),
                        ledgers,
                    ) {
                        Err(defect) => Err(defect),
                        Ok((ledger_map, _)) => match structure_defect(
                            source,
                            target,
                            kind_map,
                            axis_map,
                            flow_map,
                            boundary_map,
                            ledger_map,
                        ) {
                            Some(defect) => Err(defect),
                            None => Ok((kind_map, axis_map, flow_map, boundary_map, ledger_map)),
                        },
                    },
                },
            },
        },
    }
}

/// The first axis, in ascending order, whose kind or role is not kept.
fn check_axes(
    source: &StockFlowCarrier,
    target: &StockFlowCarrier,
    kinds: &Bijection,
    axes: &Bijection,
) -> (defect: Option<MorphismDefect>)
    requires
        kinds.forward_map().dom() == source.kind_set(),
        axes.forward_map().dom() == source.axis_set(),
        axes.inverse_map().dom() == target.axis_set(),
    ensures
        defect == axis_phase(*source, *target, kinds.forward_map(), axes.forward_map()),
{
    proof {
        use_type_invariant(source);
        use_type_invariant(axes);
        source.lemma_views();
        axes.lemma_inverse();
    }
    let ghost kind_map = kinds.forward_map();
    let ghost axis_map = axes.forward_map();
    let keys = source.axis_symbols();
    let mut index: usize = 0;
    while index < keys.len()
        invariant
            index <= keys.entries().len(),
            keys.well_formed(),
            keys@.dom() == source.axis_set(),
            kind_map == kinds.forward_map(),
            axis_map == axes.forward_map(),
            kind_map.dom() == source.kind_set(),
            axis_map.dom() == source.axis_set(),
            axes.inverse_map().dom() == target.axis_set(),
            mutually_inverse(axis_map, axes.inverse_map()),
            forall|axis: AxisId| #[trigger]
                source.axis_set().contains(axis) ==> source.kind_set().contains(source.kind_at(axis)),
            forall|i: int|
                0 <= i < index ==> (#[trigger] axis_defect(
                    *source,
                    *target,
                    kind_map,
                    axis_map,
                    keys.entries()[i].0,
                )) is None,
        decreases keys.entries().len() - index,
    {
        let axis = keys.entry(index).0;
        proof {
            keys.lemma_view();
            assert(keys@.dom().contains(keys.entries()[index as int].0));
        }
        let image = axes.map(axis).unwrap();
        let source_kind = source.axis_kind(axis).unwrap();
        let target_kind = target.axis_kind(image).unwrap();
        let mapped = kinds.map(source_kind).unwrap();
        if mapped != target_kind || source.is_stock(axis) != target.is_stock(image) {
            let defect = if mapped != target_kind {
                MorphismDefect::AxisKindNotPreserved { axis }
            } else {
                MorphismDefect::AxisRoleNotPreserved { axis }
            };
            proof {
                lemma_first_defect_at(
                    keys,
                    |a: u64| axis_defect(*source, *target, kind_map, axis_map, a),
                    index as int,
                );
            }
            return Some(defect);
        }
        index = index + 1;
    }
    proof {
        lemma_first_defect_none(keys, |a: u64| axis_defect(*source, *target, kind_map, axis_map, a));
    }
    None
}

/// The flow channels, or the boundary ports when `boundary`.
fn column_symbols(carrier: &StockFlowCarrier, boundary: bool) -> (keys: SymbolMap<()>)
    ensures
        keys.well_formed(),
        keys@.dom() == column_kinds(*carrier, boundary).dom(),
{
    if boundary {
        carrier.boundary_symbols()
    } else {
        carrier.flow_symbols()
    }
}

/// The kind of a flow channel, or of a boundary port when `boundary`.
fn column_kind(carrier: &StockFlowCarrier, boundary: bool, column: u64) -> (kind: Option<KindId>)
    ensures
        kind == (if column_kinds(*carrier, boundary).dom().contains(column) {
            Some(column_kinds(*carrier, boundary)[column])
        } else {
            None::<KindId>
        }),
{
    if boundary {
        carrier.boundary_kind(column)
    } else {
        carrier.flow_kind(column)
    }
}

/// The coefficient of a flow channel, or of a boundary port when
/// `boundary`, at a stock.
fn column_coefficient(carrier: &StockFlowCarrier, boundary: bool, column: u64, axis: AxisId) -> (coefficient:
    Option<&BigRational>)
    ensures
        match coefficient {
            Some(found) => column_effects(*carrier, boundary).dom().contains(column) && column_effects(
                *carrier,
                boundary,
            )[column].dom().contains(axis) && *found == column_effects(*carrier, boundary)[column][axis],
            None => !(column_effects(*carrier, boundary).dom().contains(column) && column_effects(
                *carrier,
                boundary,
            )[column].dom().contains(axis)),
        },
{
    if boundary {
        carrier.boundary_coefficient(column, axis)
    } else {
        carrier.flow_coefficient(column, axis)
    }
}

/// Whether the column `column` of `source` changes every stock as its image
/// `image` of `target` changes the stock's image.
fn same_incidence(
    boundary: bool,
    source: &StockFlowCarrier,
    target: &StockFlowCarrier,
    axes: &Bijection,
    column: u64,
    image: u64,
) -> (same: bool)
    requires
        axes.forward_map().dom() == source.axis_set(),
        column_effects(*source, boundary).dom().contains(column),
        column_effects(*target, boundary).dom().contains(image),
    ensures
        same == forall|axis: AxisId|
            source.stock_kinds().dom().contains(axis) ==> #[trigger] coefficients_agree(
                column_effects(*source, boundary)[column],
                axis,
                column_effects(*target, boundary)[image],
                axes.forward_map()[axis],
            ),
{
    proof {
        use_type_invariant(source);
        use_type_invariant(target);
        source.lemma_views();
        target.lemma_views();
    }
    let stocks = source.stock_symbols();
    let ghost axis_map = axes.forward_map();
    let mut index: usize = 0;
    while index < stocks.len()
        invariant
            index <= stocks.entries().len(),
            stocks.well_formed(),
            stocks@.dom() == source.stock_kinds().dom(),
            axis_map == axes.forward_map(),
            axis_map.dom() == source.axis_set(),
            column_effects(*source, boundary).dom().contains(column),
            column_effects(*target, boundary).dom().contains(image),
            forall|i: int|
                0 <= i < index ==> #[trigger] coefficients_agree(
                    column_effects(*source, boundary)[column],
                    stocks.entries()[i].0,
                    column_effects(*target, boundary)[image],
                    axis_map[stocks.entries()[i].0],
                ),
        decreases stocks.entries().len() - index,
    {
        let axis = stocks.entry(index).0;
        proof {
            stocks.lemma_view();
            assert(stocks@.dom().contains(stocks.entries()[index as int].0));
            assert(source.axis_set().contains(axis));
        }
        let moved = axes.map(axis).unwrap();
        let agree = match (
            column_coefficient(source, boundary, column, axis),
            column_coefficient(target, boundary, image, moved),
        ) {
            (None, None) => true,
            (Some(first), Some(second)) => {
                proof {
                    use_type_invariant(source);
                    use_type_invariant(target);
                    source.lemma_views();
                    target.lemma_views();
                    if boundary {
                        assert(has_denominator(source.boundary_effects()[column][axis]));
                        assert(has_denominator(target.boundary_effects()[image][moved]));
                    } else {
                        assert(has_denominator(source.flow_effects()[column][axis]));
                        assert(has_denominator(target.flow_effects()[image][moved]));
                    }
                }
                crate::carrier::rationals_equal(first, second)
            },
            _ => false,
        };
        if !agree {
            proof {
                assert(!coefficients_agree(
                    column_effects(*source, boundary)[column],
                    axis,
                    column_effects(*target, boundary)[image],
                    axis_map[axis],
                ));
            }
            return false;
        }
        index = index + 1;
    }
    proof {
        stocks.lemma_view();
        assert forall|axis: AxisId| source.stock_kinds().dom().contains(axis) implies #[trigger] coefficients_agree(
            column_effects(*source, boundary)[column],
            axis,
            column_effects(*target, boundary)[image],
            axis_map[axis],
        ) by {
            let i = choose|i: int| 0 <= i < stocks.entries().len() && stocks.entries()[i].0 == axis;
        }
    }
    true
}

/// The first flow channel, or boundary port when `boundary`, in ascending
/// order, whose kind or incidence is not kept.
fn check_columns(
    boundary: bool,
    source: &StockFlowCarrier,
    target: &StockFlowCarrier,
    kinds: &Bijection,
    axes: &Bijection,
    columns: &Bijection,
) -> (defect: Option<MorphismDefect>)
    requires
        kinds.forward_map().dom() == source.kind_set(),
        axes.forward_map().dom() == source.axis_set(),
        columns.forward_map().dom() == column_kinds(*source, boundary).dom(),
        columns.inverse_map().dom() == column_kinds(*target, boundary).dom(),
    ensures
        defect == column_phase(
            boundary,
            *source,
            *target,
            kinds.forward_map(),
            axes.forward_map(),
            columns.forward_map(),
        ),
{
    proof {
        use_type_invariant(source);
        use_type_invariant(target);
        use_type_invariant(columns);
        source.lemma_views();
        target.lemma_views();
        columns.lemma_inverse();
    }
    let ghost kind_map = kinds.forward_map();
    let ghost axis_map = axes.forward_map();
    let ghost column_map = columns.forward_map();
    let ghost defect_at = |column: u64|
        column_defect(
            boundary,
            column_kinds(*source, boundary),
            column_effects(*source, boundary),
            column_kinds(*target, boundary),
            column_effects(*target, boundary),
            source.stock_kinds().dom(),
            kind_map,
            axis_map,
            column_map,
            column,
        );
    let keys = column_symbols(source, boundary);
    let mut index: usize = 0;
    while index < keys.len()
        invariant
            index <= keys.entries().len(),
            keys.well_formed(),
            keys@.dom() == column_kinds(*source, boundary).dom(),
            kind_map == kinds.forward_map(),
            axis_map == axes.forward_map(),
            column_map == columns.forward_map(),
            kind_map.dom() == source.kind_set(),
            axis_map.dom() == source.axis_set(),
            column_map.dom() == column_kinds(*source, boundary).dom(),
            columns.inverse_map().dom() == column_kinds(*target, boundary).dom(),
            mutually_inverse(column_map, columns.inverse_map()),
            column_kinds(*source, boundary).dom() == column_effects(*source, boundary).dom(),
            column_kinds(*target, boundary).dom() == column_effects(*target, boundary).dom(),
            forall|column: u64| #[trigger]
                column_kinds(*source, boundary).dom().contains(column) ==> source.kind_set().contains(
                    column_kinds(*source, boundary)[column],
                ),
            defect_at == (|column: u64|
                column_defect(
                    boundary,
                    column_kinds(*source, boundary),
                    column_effects(*source, boundary),
                    column_kinds(*target, boundary),
                    column_effects(*target, boundary),
                    source.stock_kinds().dom(),
                    kind_map,
                    axis_map,
                    column_map,
                    column,
                )),
            forall|i: int| 0 <= i < index ==> (#[trigger] defect_at(keys.entries()[i].0)) is None,
        decreases keys.entries().len() - index,
    {
        let column = keys.entry(index).0;
        proof {
            keys.lemma_view();
            assert(keys@.dom().contains(keys.entries()[index as int].0));
        }
        let image = columns.map(column).unwrap();
        let source_kind = column_kind(source, boundary, column).unwrap();
        let target_kind = column_kind(target, boundary, image).unwrap();
        let mapped = kinds.map(source_kind).unwrap();
        if mapped != target_kind {
            let defect = if boundary {
                MorphismDefect::BoundaryKindNotPreserved { boundary: column }
            } else {
                MorphismDefect::FlowKindNotPreserved { flow: column }
            };
            proof {
                lemma_first_defect_at(keys, defect_at, index as int);
            }
            return Some(defect);
        }
        if !same_incidence(boundary, source, target, axes, column, image) {
            let defect = if boundary {
                MorphismDefect::BoundaryIncidenceNotPreserved { boundary: column }
            } else {
                MorphismDefect::InternalIncidenceNotPreserved { flow: column }
            };
            proof {
                lemma_first_defect_at(keys, defect_at, index as int);
            }
            return Some(defect);
        }
        index = index + 1;
    }
    proof {
        lemma_first_defect_none(keys, defect_at);
    }
    None
}

/// The first boundary port, in ascending order, whose role is not kept.
fn check_roles(source: &StockFlowCarrier, target: &StockFlowCarrier, boundaries: &Bijection) -> (defect:
    Option<MorphismDefect>)
    requires
        boundaries.forward_map().dom() == source.boundary_kinds().dom(),
        boundaries.inverse_map().dom() == target.boundary_kinds().dom(),
    ensures
        defect == role_phase(*source, *target, boundaries.forward_map()),
{
    proof {
        use_type_invariant(source);
        use_type_invariant(target);
        use_type_invariant(boundaries);
        source.lemma_views();
        target.lemma_views();
        boundaries.lemma_inverse();
    }
    let ghost port_map = boundaries.forward_map();
    let keys = source.boundary_symbols();
    let mut index: usize = 0;
    while index < keys.len()
        invariant
            index <= keys.entries().len(),
            keys.well_formed(),
            keys@.dom() == source.boundary_kinds().dom(),
            port_map == boundaries.forward_map(),
            port_map.dom() == source.boundary_kinds().dom(),
            boundaries.inverse_map().dom() == target.boundary_kinds().dom(),
            mutually_inverse(port_map, boundaries.inverse_map()),
            source.boundary_roles().dom() == source.boundary_kinds().dom(),
            target.boundary_roles().dom() == target.boundary_kinds().dom(),
            forall|i: int|
                0 <= i < index ==> (#[trigger] role_defect(
                    *source,
                    *target,
                    port_map,
                    keys.entries()[i].0,
                )) is None,
        decreases keys.entries().len() - index,
    {
        let port = keys.entry(index).0;
        proof {
            keys.lemma_view();
            assert(keys@.dom().contains(keys.entries()[index as int].0));
        }
        let image = boundaries.map(port).unwrap();
        let source_role = source.boundary_role(port).unwrap();
        let target_role = target.boundary_role(image).unwrap();
        if source_role != target_role {
            proof {
                lemma_first_defect_at(
                    keys,
                    |p: u64| role_defect(*source, *target, port_map, p),
                    index as int,
                );
            }
            return Some(MorphismDefect::BoundaryRoleNotPreserved { boundary: port });
        }
        index = index + 1;
    }
    proof {
        lemma_first_defect_none(keys, |p: u64| role_defect(*source, *target, port_map, p));
    }
    None
}

/// The images of `ports` under `boundaries`.
fn map_ports(ports: &SymbolMap<()>, boundaries: &Bijection) -> (images: SymbolMap<()>)
    requires
        ports.well_formed(),
        ports@.dom().subset_of(boundaries.forward_map().dom()),
    ensures
        images.well_formed(),
        images@.dom() == ports@.dom().map(|port: u64| boundaries.forward_map()[port]),
{
    proof {
        ports.lemma_view();
    }
    let ghost port_map = boundaries.forward_map();
    let mut images: SymbolMap<()> = SymbolMap::new();
    let mut index: usize = 0;
    while index < ports.len()
        invariant
            index <= ports.entries().len(),
            ports.well_formed(),
            port_map == boundaries.forward_map(),
            ports@.dom().subset_of(port_map.dom()),
            forall|i: int| 0 <= i < ports.entries().len() ==> ports@.dom().contains(#[trigger] ports.entries()[i].0),
            images.well_formed(),
            images@.dom() == Set::new(
                |image: u64| exists|i: int| 0 <= i < index && port_map[ports.entries()[i].0] == image,
            ),
        decreases ports.entries().len() - index,
    {
        let port = ports.entry(index).0;
        proof {
            assert(ports@.dom().contains(ports.entries()[index as int].0));
        }
        let image = boundaries.map(port).unwrap();
        if !images.contains(image) {
            images.insert_new(image, ());
        }
        index = index + 1;
        proof {
            assert(images@.dom() =~= Set::new(
                |im: u64| exists|i: int| 0 <= i < index && port_map[ports.entries()[i].0] == im,
            )) by {
                assert(port_map[ports.entries()[index - 1].0] == image);
            }
        }
    }
    proof {
        assert(images@.dom() =~= ports@.dom().map(|port: u64| port_map[port])) by {
            assert forall|im: u64| images@.dom().contains(im) implies ports@.dom().map(|port: u64| port_map[port]).contains(im) by {
                let i = choose|i: int| 0 <= i < ports.entries().len() && port_map[ports.entries()[i].0] == im;
                assert(ports@.dom().contains(ports.entries()[i].0));
            }
            assert forall|im: u64| ports@.dom().map(|port: u64| port_map[port]).contains(im) implies images@.dom().contains(im) by {
                let port = choose|port: u64| ports@.dom().contains(port) && port_map[port] == im;
                let i = choose|i: int| 0 <= i < ports.entries().len() && ports.entries()[i].0 == port;
            }
        }
    }
    images
}

/// The first ledger, in ascending order, whose axis, kind or feeding ports
/// are not kept.
fn check_ledgers(
    source: &StockFlowCarrier,
    target: &StockFlowCarrier,
    kinds: &Bijection,
    axes: &Bijection,
    boundaries: &Bijection,
    ledgers: &Bijection,
) -> (defect: Option<MorphismDefect>)
    requires
        boundaries.forward_map().dom() == source.boundary_kinds().dom(),
        ledgers.forward_map().dom() == source.ledger_axes().dom(),
        ledgers.inverse_map().dom() == target.ledger_axes().dom(),
    ensures
        defect == ledger_phase(
            *source,
            *target,
            kinds.forward_map(),
            axes.forward_map(),
            boundaries.forward_map(),
            ledgers.forward_map(),
        ),
{
    proof {
        use_type_invariant(source);
        use_type_invariant(target);
        use_type_invariant(ledgers);
        source.lemma_views();
        target.lemma_views();
        ledgers.lemma_inverse();
    }
    let ghost kind_map = kinds.forward_map();
    let ghost axis_map = axes.forward_map();
    let ghost port_map = boundaries.forward_map();
    let ghost ledger_map = ledgers.forward_map();
    let keys = source.ledger_symbols();
    let mut index: usize = 0;
    while index < keys.len()
        invariant
            index <= keys.entries().len(),
            keys.well_formed(),
            keys@.dom() == source.ledger_axes().dom(),
            kind_map == kinds.forward_map(),
            axis_map == axes.forward_map(),
            port_map == boundaries.forward_map(),
            ledger_map == ledgers.forward_map(),
            port_map.dom() == source.boundary_kinds().dom(),
            ledger_map.dom() == source.ledger_axes().dom(),
            ledgers.inverse_map().dom() == target.ledger_axes().dom(),
            mutually_inverse(ledger_map, ledgers.inverse_map()),
            forall|ledger: u64| #[trigger]
                source.ledger_axes().dom().contains(ledger)
                    ==> source.ledger_boundaries()[ledger].subset_of(source.boundary_kinds().dom()),
            forall|i: int|
                0 <= i < index ==> (#[trigger] ledger_defect(
                    *source,
                    *target,
                    kind_map,
                    axis_map,
                    port_map,
                    ledger_map,
                    keys.entries()[i].0,
                )) is None,
        decreases keys.entries().len() - index,
    {
        let ledger = keys.entry(index).0;
        proof {
            keys.lemma_view();
            assert(keys@.dom().contains(keys.entries()[index as int].0));
        }
        let image = ledgers.map(ledger).unwrap();
        let (source_axis, source_kind, source_ports) = source.ledger(ledger).unwrap();
        let (target_axis, target_kind, target_ports) = target.ledger(image).unwrap();
        let axis_kept = match axes.map(source_axis) {
            Some(moved) => moved == target_axis,
            None => false,
        };
        let kind_kept = match kinds.map(source_kind) {
            Some(moved) => moved == target_kind,
            None => false,
        };
        if !axis_kept || !kind_kept {
            proof {
                lemma_first_defect_at(
                    keys,
                    |l: u64| ledger_defect(*source, *target, kind_map, axis_map, port_map, ledger_map, l),
                    index as int,
                );
            }
            return Some(MorphismDefect::LedgerNotPreserved { ledger });
        }
        let images = map_ports(source_ports, boundaries);
        if !crate::symbol_map::same_keys(&images, target_ports) {
            proof {
                lemma_first_defect_at(
                    keys,
                    |l: u64| ledger_defect(*source, *target, kind_map, axis_map, port_map, ledger_map, l),
                    index as int,
                );
            }
            return Some(MorphismDefect::LedgerBoundariesNotPreserved { ledger });
        }
        index = index + 1;
    }
    proof {
        lemma_first_defect_none(
            keys,
            |l: u64| ledger_defect(*source, *target, kind_map, axis_map, port_map, ledger_map, l),
        );
    }
    None
}

/// The amounts of `amounts` carried along `ids` and `kinds`: each entry's
/// symbol and kind are replaced by their images, its amount kept.
pub open spec fn carried_amounts(
    amounts: Seq<(u64, KindId, BigRational)>,
    ids: Map<u64, u64>,
    kinds: Map<u64, u64>,
) -> Seq<(u64, KindId, BigRational)> {
    amounts.map_values(|entry: (u64, KindId, BigRational)| (ids[entry.0], kinds[entry.1], entry.2))
}

/// Every entry of `amounts` has a symbol of `ids` and a kind of `kinds`.
pub open spec fn amounts_within(
    amounts: Seq<(u64, KindId, BigRational)>,
    ids: Set<u64>,
    kinds: Set<u64>,
) -> bool {
    forall|i: int|
        0 <= i < amounts.len() ==> ids.contains(#[trigger] amounts[i].0) && kinds.contains(
            amounts[i].1,
        )
}

/// The amounts recorded for one transition: stocks before and after,
/// requested and settled internal flows, requested and settled boundary
/// flows, and ledgers before and after.
#[derive(Debug, PartialEq, Eq)]
pub struct TransitionRecordData {
    /// Stock amounts before the transition.
    pub before: Vec<(AxisId, KindId, BigRational)>,
    /// Stock amounts after the transition.
    pub after: Vec<(AxisId, KindId, BigRational)>,
    /// Requested internal flows.
    pub requested_internal: Vec<(FlowId, KindId, BigRational)>,
    /// Settled internal flows.
    pub settled_internal: Vec<(FlowId, KindId, BigRational)>,
    /// Requested boundary flows.
    pub requested_boundary: Vec<(BoundaryId, KindId, BigRational)>,
    /// Settled boundary flows.
    pub settled_boundary: Vec<(BoundaryId, KindId, BigRational)>,
    /// Ledger amounts before the transition.
    pub ledger_before: Vec<(LedgerId, KindId, BigRational)>,
    /// Ledger amounts after the transition.
    pub ledger_after: Vec<(LedgerId, KindId, BigRational)>,
}

/// Every amount of `record` names a symbol of the right class, and a kind,
/// of `carrier`.
pub open spec fn record_within(record: TransitionRecordData, carrier: StockFlowCarrier) -> bool {
    let kinds = carrier.kind_set();
    &&& amounts_within(record.before@, carrier.axis_set(), kinds)
    &&& amounts_within(record.after@, carrier.axis_set(), kinds)
    &&& amounts_within(record.requested_internal@, carrier.flow_kinds().dom(), kinds)
    &&& amounts_within(record.settled_internal@, carrier.flow_kinds().dom(), kinds)
    &&& amounts_within(record.requested_boundary@, carrier.boundary_kinds().dom(), kinds)
    &&& amounts_within(record.settled_boundary@, carrier.boundary_kinds().dom(), kinds)
    &&& amounts_within(record.ledger_before@, carrier.ledger_axes().dom(), kinds)
    &&& amounts_within(record.ledger_after@, carrier.ledger_axes().dom(), kinds)
}

/// `pulled` is `record` carried back along `renaming`.
pub open spec fn record_pulled_back(
    pulled: TransitionRecordData,
    record: TransitionRecordData,
    renaming: StockFlowRenaming,
) -> bool {
    let kinds = renaming.kind_inverse();
    &&& pulled.before@ == carried_amounts(record.before@, renaming.axis_inverse(), kinds)
    &&& pulled.after@ == carried_amounts(record.after@, renaming.axis_inverse(), kinds)
    &&& pulled.requested_internal@ == carried_amounts(
        record.requested_internal@,
        renaming.flow_inverse(),
        kinds,
    )
    &&& pulled.settled_internal@ == carried_amounts(
        record.settled_internal@,
        renaming.flow_inverse(),
        kinds,
    )
    &&& pulled.requested_boundary@ == carried_amounts(
        record.requested_boundary@,
        renaming.boundary_inverse(),
        kinds,
    )
    &&& pulled.settled_boundary@ == carried_amounts(
        record.settled_boundary@,
        renaming.boundary_inverse(),
        kinds,
    )
    &&& pulled.ledger_before@ == carried_amounts(
        record.ledger_before@,
        renaming.ledger_inverse(),
        kinds,
    )
    &&& pulled.ledger_after@ == carried_amounts(record.ledger_after@, renaming.ledger_inverse(), kinds)
}

/// The amounts of `amounts` carried back along `ids` and `kinds`.
fn pull_back_amounts(
    amounts: &Vec<(u64, KindId, BigRational)>,
    ids: &Bijection,
    kinds: &Bijection,
) -> (pulled: Vec<(u64, KindId, BigRational)>)
    requires
        amounts_within(amounts@, ids.inverse_map().dom(), kinds.inverse_map().dom()),
    ensures
        pulled@ == carried_amounts(amounts@, ids.inverse_map(), kinds.inverse_map()),
{
    let mut pulled: Vec<(u64, KindId, BigRational)> = Vec::new();
    let mut index: usize = 0;
    while index < amounts.len()
        invariant
            index <= amounts@.len(),
            amounts_within(amounts@, ids.inverse_map().dom(), kinds.inverse_map().dom()),
            pulled@ == carried_amounts(
                amounts@.take(index as int),
                ids.inverse_map(),
                kinds.inverse_map(),
            ),
        decreases amounts@.len() - index,
    {
        let entry = &amounts[index];
        proof {
            assert(ids.inverse_map().dom().contains(amounts@[index as int].0));
        }
        let symbol = ids.preimage(entry.0).unwrap();
        let kind = kinds.preimage(entry.1).unwrap();
        let amount = copy_rational(&entry.2);
        pulled.push((symbol, kind, amount));
        index = index + 1;
        proof {
            assert(pulled@ =~= carried_amounts(
                amounts@.take(index as int),
                ids.inverse_map(),
                kinds.inverse_map(),
            ));
        }
    }
    proof {
        assert(amounts@.take(index as int) =~= amounts@);
    }
    pulled
}

/// Calls `<Arc<StockFlowCarrier> as Clone>::clone`, which makes another
/// pointer to the same carrier. It aborts the process only if the count of
/// pointers to the carrier would overflow, which no clause here states.
#[verifier::external_body]
fn share(carrier: &Arc<StockFlowCarrier>) -> (shared: Arc<StockFlowCarrier>)
    ensures
        shared == *carrier,
{
    Arc::clone(carrier)
}

/// A stock-flow signature: one exact carrier, shared.
#[derive(Debug, PartialEq, Eq)]
pub struct StockFlowSignature {
    carrier: Arc<StockFlowCarrier>,
}

impl StockFlowSignature {
    /// The carrier.
    pub closed spec fn spec_carrier(self) -> StockFlowCarrier {
        *self.carrier
    }

    /// The signature of `carrier`.
    pub fn new(carrier: Arc<StockFlowCarrier>) -> (signature: Self)
        ensures
            signature.spec_carrier() == *carrier,
    {
        StockFlowSignature { carrier }
    }

    /// The carrier that models over this signature interpret.
    pub fn carrier(&self) -> (carrier: &Arc<StockFlowCarrier>)
        ensures
            **carrier == self.spec_carrier(),
    {
        &self.carrier
    }

    /// The carrier, which is this signature's structural identity.
    pub fn identity(&self) -> (carrier: &StockFlowCarrier)
        ensures
            *carrier == self.spec_carrier(),
    {
        &*self.carrier
    }

    /// Whether the two signatures have the same structure.
    pub fn same_as(&self, other: &Self) -> (same: bool)
        ensures
            same == self.spec_carrier().agrees_with(other.spec_carrier()),
            *self == *other ==> same,
    {
        self.carrier.same_as(&other.carrier)
    }
}

impl Clone for StockFlowSignature {
    fn clone(&self) -> (copy: Self)
        ensures
            copy == *self,
    {
        StockFlowSignature { carrier: share(&self.carrier) }
    }
}

/// The bijection sets of two carriers that agree are the same.
proof fn lemma_agreeing_sets(first: StockFlowCarrier, second: StockFlowCarrier)
    requires
        first.agrees_with(second),
    ensures
        first.kind_set() == second.kind_set(),
        first.axis_set() == second.axis_set(),
        first.flow_kinds().dom() == second.flow_kinds().dom(),
        first.boundary_kinds().dom() == second.boundary_kinds().dom(),
        first.ledger_axes().dom() == second.ledger_axes().dom(),
{
}

/// A structure-preserving, invertible renaming of every named carrier
/// symbol, with explicit source and target signatures.
#[derive(Debug, PartialEq, Eq)]
pub struct StockFlowRenaming {
    source: StockFlowSignature,
    target: StockFlowSignature,
    kinds: Bijection,
    axes: Bijection,
    flows: Bijection,
    boundaries: Bijection,
    ledgers: Bijection,
}

/// Each bijection of a renaming between `source` and `target` goes from the
/// symbols of its class in `source` onto those in `target`.
pub open spec fn covers(
    source: StockFlowCarrier,
    target: StockFlowCarrier,
    kinds: Bijection,
    axes: Bijection,
    flows: Bijection,
    boundaries: Bijection,
    ledgers: Bijection,
) -> bool {
    &&& kinds.forward_map().dom() == source.kind_set()
    &&& kinds.inverse_map().dom() == target.kind_set()
    &&& axes.forward_map().dom() == source.axis_set()
    &&& axes.inverse_map().dom() == target.axis_set()
    &&& flows.forward_map().dom() == source.flow_kinds().dom()
    &&& flows.inverse_map().dom() == target.flow_kinds().dom()
    &&& boundaries.forward_map().dom() == source.boundary_kinds().dom()
    &&& boundaries.inverse_map().dom() == target.boundary_kinds().dom()
    &&& ledgers.forward_map().dom() == source.ledger_axes().dom()
    &&& ledgers.inverse_map().dom() == target.ledger_axes().dom()
}

impl StockFlowRenaming {
    /// The source signature.
    pub closed spec fn source_signature(self) -> StockFlowSignature {
        self.source
    }

    /// The target signature.
    pub closed spec fn target_signature(self) -> StockFlowSignature {
        self.target
    }

    /// The image of each source kind.
    pub closed spec fn kind_map(self) -> Map<u64, u64> {
        self.kinds.forward_map()
    }

    /// The image of each source axis.
    pub closed spec fn axis_map(self) -> Map<u64, u64> {
        self.axes.forward_map()
    }

    /// The image of each source flow channel.
    pub closed spec fn flow_map(self) -> Map<u64, u64> {
        self.flows.forward_map()
    }

    /// The image of each source boundary port.
    pub closed spec fn boundary_map(self) -> Map<u64, u64> {
        self.boundaries.forward_map()
    }

    /// The image of each source ledger.
    pub closed spec fn ledger_map(self) -> Map<u64, u64> {
        self.ledgers.forward_map()
    }

    /// The preimage of each target kind.
    pub closed spec fn kind_inverse(self) -> Map<u64, u64> {
        self.kinds.inverse_map()
    }

    /// The preimage of each target axis.
    pub closed spec fn axis_inverse(self) -> Map<u64, u64> {
        self.axes.inverse_map()
    }

    /// The preimage of each target flow channel.
    pub closed spec fn flow_inverse(self) -> Map<u64, u64> {
        self.flows.inverse_map()
    }

    /// The preimage of each target boundary port.
    pub closed spec fn boundary_inverse(self) -> Map<u64, u64> {
        self.boundaries.inverse_map()
    }

    /// The preimage of each target ledger.
    pub closed spec fn ledger_inverse(self) -> Map<u64, u64> {
        self.ledgers.inverse_map()
    }

    /// Every bijection covers its class of symbols in both signatures.
    #[verifier::type_invariant]
    pub closed spec fn well_formed(self) -> bool {
        &&& self.kinds.well_formed()
        &&& self.axes.well_formed()
        &&& self.flows.well_formed()
        &&& self.boundaries.well_formed()
        &&& self.ledgers.well_formed()
        &&& covers(
            self.source.spec_carrier(),
            self.target.spec_carrier(),
            self.kinds,
            self.axes,
            self.flows,
            self.boundaries,
            self.ledgers,
        )
    }

    /// The maps of a renaming are bijections between the symbol sets of its
    /// signatures.
    pub proof fn lemma_maps(self)
        requires
            self.well_formed(),
        ensures
            ({
                let source = self.source_signature().spec_carrier();
                let target = self.target_signature().spec_carrier();
                &&& self.kind_map().dom() == source.kind_set()
                &&& self.axis_map().dom() == source.axis_set()
                &&& self.flow_map().dom() == source.flow_kinds().dom()
                &&& self.boundary_map().dom() == source.boundary_kinds().dom()
                &&& self.ledger_map().dom() == source.ledger_axes().dom()
                &&& forall|kind: u64| #[trigger]
                    source.kind_set().contains(kind) ==> target.kind_set().contains(
                        self.kind_map()[kind],
                    )
                &&& forall|axis: u64| #[trigger]
                    source.axis_set().contains(axis) ==> target.axis_set().contains(
                        self.axis_map()[axis],
                    )
                &&& forall|flow: u64| #[trigger]
                    source.flow_kinds().dom().contains(flow) ==> target.flow_kinds().dom().contains(
                        self.flow_map()[flow],
                    )
                &&& forall|port: u64| #[trigger]
                    source.boundary_kinds().dom().contains(port)
                        ==> target.boundary_kinds().dom().contains(self.boundary_map()[port])
                &&& forall|ledger: u64| #[trigger]
                    source.ledger_axes().dom().contains(ledger)
                        ==> target.ledger_axes().dom().contains(self.ledger_map()[ledger])
            }),
    {
        self.kinds.lemma_inverse();
        self.axes.lemma_inverse();
        self.flows.lemma_inverse();
        self.boundaries.lemma_inverse();
        self.ledgers.lemma_inverse();
    }

    /// Validates a total structural isomorphism between two carriers: the
    /// kind, axis, flow, boundary and ledger bijections in that order, then
    /// that the structure is preserved. The first defect is returned.
    pub fn new(
        source: StockFlowSignature,
        target: StockFlowSignature,
        kinds: Vec<(u64, u64)>,
        axes: Vec<(u64, u64)>,
        flows: Vec<(u64, u64)>,
        boundaries: Vec<(u64, u64)>,
        ledgers: Vec<(u64, u64)>,
    ) -> (renaming: Result<Self, Error>)
        ensures
            match renaming_outcome(
                source.spec_carrier(),
                target.spec_carrier(),
                kinds@,
                axes@,
                flows@,
                boundaries@,
                ledgers@,
            ) {
                Err(defect) => renaming == Err::<Self, Error>(Error::InvalidMorphism(defect)),
                Ok((kind_map, axis_map, flow_map, boundary_map, ledger_map)) => renaming matches Ok(
                    valid,
                ) && valid.source_signature() == source && valid.target_signature() == target
                    && valid.kind_map() == kind_map && valid.axis_map() == axis_map
                    && valid.flow_map() == flow_map && valid.boundary_map() == boundary_map
                    && valid.ledger_map() == ledger_map,
            },
            renaming matches Ok(valid) ==> structure_preserved(
                source.spec_carrier(),
                target.spec_carrier(),
                valid.kind_map(),
                valid.axis_map(),
                valid.flow_map(),
                valid.boundary_map(),
                valid.ledger_map(),
            ),
    {
        let source_carrier = source.identity();
        let target_carrier = target.identity();
        let kinds = match Bijection::new(
            SymbolClass::Kind,
            &source_carrier.kind_symbols(),
            &target_carrier.kind_symbols(),
            kinds,
        ) {
            Ok(bijection) => bijection,
            Err(error) => return Err(error),
        };
        let axes = match Bijection::new(
            SymbolClass::Axis,
            &source_carrier.axis_symbols(),
            &target_carrier.axis_symbols(),
            axes,
        ) {
            Ok(bijection) => bijection,
            Err(error) => return Err(error),
        };
        let flows = match Bijection::new(
            SymbolClass::Flow,
            &source_carrier.flow_symbols(),
            &target_carrier.flow_symbols(),
            flows,
        ) {
            Ok(bijection) => bijection,
            Err(error) => return Err(error),
        };
        let boundaries = match Bijection::new(
            SymbolClass::Boundary,
            &source_carrier.boundary_symbols(),
            &target_carrier.boundary_symbols(),
            boundaries,
        ) {
            Ok(bijection) => bijection,
            Err(error) => return Err(error),
        };
        let ledgers = match Bijection::new(
            SymbolClass::Ledger,
            &source_carrier.ledger_symbols(),
            &target_carrier.ledger_symbols(),
            ledgers,
        ) {
            Ok(bijection) => bijection,
            Err(error) => return Err(error),
        };
        proof {
            use_type_invariant(&kinds);
            use_type_invariant(&axes);
            use_type_invariant(&flows);
            use_type_invariant(&boundaries);
            use_type_invariant(&ledgers);
        }
        match check_axes(source_carrier, target_carrier, &kinds, &axes) {
            Some(defect) => return Err(Error::InvalidMorphism(defect)),
            None => {},
        }
        match check_columns(false, source_carrier, target_carrier, &kinds, &axes, &flows) {
            Some(defect) => return Err(Error::InvalidMorphism(defect)),
            None => {},
        }
        match check_columns(true, source_carrier, target_carrier, &kinds, &axes, &boundaries) {
            Some(defect) => return Err(Error::InvalidMorphism(defect)),
            None => {},
        }
        match check_roles(source_carrier, target_carrier, &boundaries) {
            Some(defect) => return Err(Error::InvalidMorphism(defect)),
            None => {},
        }
        match check_ledgers(source_carrier, target_carrier, &kinds, &axes, &boundaries, &ledgers) {
            Some(defect) => return Err(Error::InvalidMorphism(defect)),
            None => {},
        }
        proof {
            lemma_structure_preserved(
                source.spec_carrier(),
                target.spec_carrier(),
                kinds.forward_map(),
                axes.forward_map(),
                flows.forward_map(),
                boundaries.forward_map(),
                ledgers.forward_map(),
            );
        }
        Ok(StockFlowRenaming { source, target, kinds, axes, flows, boundaries, ledgers })
    }

    /// The identity renaming of `signature`.
    pub fn identity(signature: &StockFlowSignature) -> (renaming: Self)
        ensures
            renaming.source_signature() == *signature,
            renaming.target_signature() == *signature,
            renaming.kind_map() == identity_on(signature.spec_carrier().kind_set()),
            renaming.axis_map() == identity_on(signature.spec_carrier().axis_set()),
            renaming.flow_map() == identity_on(signature.spec_carrier().flow_kinds().dom()),
            renaming.boundary_map() == identity_on(signature.spec_carrier().boundary_kinds().dom()),
            renaming.ledger_map() == identity_on(signature.spec_carrier().ledger_axes().dom()),
            renaming.kind_inverse() == identity_on(signature.spec_carrier().kind_set()),
            renaming.axis_inverse() == identity_on(signature.spec_carrier().axis_set()),
            renaming.flow_inverse() == identity_on(signature.spec_carrier().flow_kinds().dom()),
            renaming.boundary_inverse() == identity_on(
                signature.spec_carrier().boundary_kinds().dom(),
            ),
            renaming.ledger_inverse() == identity_on(signature.spec_carrier().ledger_axes().dom()),
    {
        let carrier = signature.identity();
        let kinds = Bijection::identity(&carrier.kind_symbols());
        let axes = Bijection::identity(&carrier.axis_symbols());
        let flows = Bijection::identity(&carrier.flow_symbols());
        let boundaries = Bijection::identity(&carrier.boundary_symbols());
        let ledgers = Bijection::identity(&carrier.ledger_symbols());
        proof {
            use_type_invariant(&kinds);
            use_type_invariant(&axes);
            use_type_invariant(&flows);
            use_type_invariant(&boundaries);
            use_type_invariant(&ledgers);
            let c = signature.spec_carrier();
            assert(identity_on(c.kind_set()).dom() =~= c.kind_set());
            assert(identity_on(c.axis_set()).dom() =~= c.axis_set());
            assert(identity_on(c.flow_kinds().dom()).dom() =~= c.flow_kinds().dom());
            assert(identity_on(c.boundary_kinds().dom()).dom() =~= c.boundary_kinds().dom());
            assert(identity_on(c.ledger_axes().dom()).dom() =~= c.ledger_axes().dom());
        }
        StockFlowRenaming {
            source: signature.clone(),
            target: signature.clone(),
            kinds,
            axes,
            flows,
            boundaries,
            ledgers,
        }
    }

    /// Domain signature.
    pub fn source(&self) -> (source: &StockFlowSignature)
        ensures
            *source == self.source_signature(),
    {
        &self.source
    }

    /// Codomain signature.
    pub fn target(&self) -> (target: &StockFlowSignature)
        ensures
            *target == self.target_signature(),
    {
        &self.target
    }

    /// Covariant image of a source quantity kind.
    pub fn map_kind(&self, value: u64) -> (image: Option<u64>)
        ensures
            image == (if self.kind_map().dom().contains(value) {
                Some(self.kind_map()[value])
            } else {
                None::<u64>
            }),
    {
        self.kinds.map(value)
    }

    /// Covariant image of a source stock or ledger axis.
    pub fn map_axis(&self, value: u64) -> (image: Option<u64>)
        ensures
            image == (if self.axis_map().dom().contains(value) {
                Some(self.axis_map()[value])
            } else {
                None::<u64>
            }),
    {
        self.axes.map(value)
    }

    /// Covariant image of a source internal-flow channel.
    pub fn map_flow(&self, value: u64) -> (image: Option<u64>)
        ensures
            image == (if self.flow_map().dom().contains(value) {
                Some(self.flow_map()[value])
            } else {
                None::<u64>
            }),
    {
        self.flows.map(value)
    }

    /// Covariant image of a source boundary port.
    pub fn map_boundary(&self, value: u64) -> (image: Option<u64>)
        ensures
            image == (if self.boundary_map().dom().contains(value) {
                Some(self.boundary_map()[value])
            } else {
                None::<u64>
            }),
    {
        self.boundaries.map(value)
    }

    /// Covariant image of a source cumulative ledger.
    pub fn map_ledger(&self, value: u64) -> (image: Option<u64>)
        ensures
            image == (if self.ledger_map().dom().contains(value) {
                Some(self.ledger_map()[value])
            } else {
                None::<u64>
            }),
    {
        self.ledgers.map(value)
    }

    /// The amounts of a transition recorded over the target carried back to
    /// the source: every symbol and kind is replaced by its preimage.
    pub fn pull_back_record(&self, record: &TransitionRecordData) -> (pulled: TransitionRecordData)
        requires
            record_within(*record, self.target_signature().spec_carrier()),
        ensures
            record_pulled_back(pulled, *record, *self),
    {
        proof {
            use_type_invariant(self);
        }
        TransitionRecordData {
            before: pull_back_amounts(&record.before, &self.axes, &self.kinds),
            after: pull_back_amounts(&record.after, &self.axes, &self.kinds),
            requested_internal: pull_back_amounts(&record.requested_internal, &self.flows, &self.kinds),
            settled_internal: pull_back_amounts(&record.settled_internal, &self.flows, &self.kinds),
            requested_boundary: pull_back_amounts(
                &record.requested_boundary,
                &self.boundaries,
                &self.kinds,
            ),
            settled_boundary: pull_back_amounts(&record.settled_boundary, &self.boundaries, &self.kinds),
            ledger_before: pull_back_amounts(&record.ledger_before, &self.ledgers, &self.kinds),
            ledger_after: pull_back_amounts(&record.ledger_after, &self.ledgers, &self.kinds),
        }
    }

    /// The graded law over the target that renames `law`: its kind and each
    /// of its axes go to their images, its coefficients, provenance and grade
    /// are kept. There is none when the law's kind or one of its axes is not
    /// a symbol of the source. Whether `law` is a well-formed law over the
    /// source signature (its axes of its own kind) is not checked here: the
    /// caller hands over a law that it has validated.
    pub fn translate_graded(&self, law: &GradedLaw) -> (translated: Option<GradedLaw>)
        ensures
            translated is Some <==> self.kind_map().dom().contains(law.spec_form().spec_kind())
                && law.spec_form().coefficient_map().dom().subset_of(self.axis_map().dom()),
            translated matches Some(image) ==> image.spec_form().spec_kind()
                == self.kind_map()[law.spec_form().spec_kind()]
                && image.spec_form().coefficient_map() == renamed(
                law.spec_form().coefficient_map(),
                self.axis_inverse(),
            ) && image.spec_form().spec_provenance() == law.spec_form().spec_provenance()
                && image.spec_grade() == law.spec_grade(),
    {
        proof {
            use_type_invariant(self);
            self.axes.lemma_inverse();
        }
        let form = law.form();
        let kind = match self.kinds.map(form.kind()) {
            Some(kind) => kind,
            None => return None,
        };
        let coefficients = form.coefficients();
        proof {
            coefficients.lemma_view();
        }
        let ghost entries = coefficients.entries();
        let ghost inverse = self.axes.inverse_map();
        let mut moved: SymbolMap<BigRational> = SymbolMap::new();
        let mut index: usize = 0;
        while index < coefficients.len()
            invariant
                index <= entries.len(),
                entries == coefficients.entries(),
                coefficients.well_formed(),
                crate::symbol_map::ascending(entries),
                forall|i: int|
                    0 <= i < entries.len() ==> #[trigger] coefficients@.dom().contains(entries[i].0)
                        && coefficients@[entries[i].0] == entries[i].1,
                forall|axis: AxisId|
                    #![trigger coefficients@.dom().contains(axis)]
                    coefficients@.dom().contains(axis) <==> exists|i: int|
                        0 <= i < entries.len() && entries[i].0 == axis,
                inverse == self.axes.inverse_map(),
                coefficients@ == law.spec_form().coefficient_map(),
                mutually_inverse(self.axes.forward_map(), inverse),
                forall|i: int| 0 <= i < index ==> self.axes.forward_map().dom().contains(#[trigger] entries[i].0),
                moved.well_formed(),
                moved@ == renamed(crate::symbol_map::map_of(entries.take(index as int)), inverse),
            decreases entries.len() - index,
        {
            let entry = coefficients.entry(index);
            let image = match self.axes.map(entry.0) {
                Some(image) => image,
                None => {
                    proof {
                        assert(coefficients@.dom().contains(entries[index as int].0));
                        assert(!self.axis_map().dom().contains(entries[index as int].0));
                    }
                    return None;
                },
            };
            let amount = copy_rational(&entry.1);
            proof {
                let prefix = entries.take(index as int);
                let before = crate::symbol_map::map_of(prefix);
                crate::symbol_map::lemma_map_of_entries(prefix);
                assert(entries.take(index + 1).drop_last() == prefix);
                assert(entries.take(index + 1).last() == *entry);
                assert(!before.dom().contains(entry.0)) by {
                    if before.dom().contains(entry.0) {
                        let i = choose|i: int| 0 <= i < prefix.len() && prefix[i].0 == entry.0;
                        assert(entries[i].0 < entries[index as int].0);
                    }
                }
                let after = crate::symbol_map::map_of(entries.take(index + 1));
                assert(after == before.insert(entry.0, entry.1));
                assert(renamed(after, inverse) =~= renamed(before, inverse).insert(image, amount)) by {
                    assert forall|t: AxisId| #[trigger] renamed(after, inverse).dom().contains(t)
                        implies renamed(before, inverse).insert(image, amount).dom().contains(t) by {
                        if inverse[t] == entry.0 {
                            assert(self.axes.forward_map()[inverse[t]] == t);
                        }
                    }
                }
            }
            moved.insert_new(image, amount);
            index = index + 1;
        }
        proof {
            assert(entries.take(index as int) == entries);
            assert forall|axis: AxisId| #[trigger] coefficients@.dom().contains(axis) implies self.axes.forward_map().dom().contains(axis) by {
                let i = choose|i: int| 0 <= i < entries.len() && entries[i].0 == axis;
            }
            assert(crate::symbol_map::map_of(entries) == coefficients@);
        }
        let translated = BalanceLaw::from_map(kind, moved, form.provenance());
        Some(GradedLaw::new(translated, law.grade()))
    }

    /// Composes two compatible renamings: the target of `first` must have
    /// the structure of the source of `second`.
    pub fn compose(first: &Self, second: &Self) -> (composite: Result<Self, Error>)
        ensures
            first.target_signature() == second.source_signature() ==> composite is Ok,
            !first.target_signature().spec_carrier().agrees_with(
                second.source_signature().spec_carrier(),
            ) ==> composite == Err::<Self, Error>(Error::NotComposable),
            first.target_signature().spec_carrier().agrees_with(
                second.source_signature().spec_carrier(),
            ) ==> (composite matches Ok(valid) && valid.source_signature()
                == first.source_signature() && valid.target_signature()
                == second.target_signature() && valid.kind_map() == then(
                first.kind_map(),
                second.kind_map(),
            ) && valid.axis_map() == then(first.axis_map(), second.axis_map())
                && valid.flow_map() == then(first.flow_map(), second.flow_map())
                && valid.boundary_map() == then(first.boundary_map(), second.boundary_map())
                && valid.ledger_map() == then(first.ledger_map(), second.ledger_map())
                && valid.kind_inverse() == then(second.kind_inverse(), first.kind_inverse())
                && valid.axis_inverse() == then(second.axis_inverse(), first.axis_inverse())
                && valid.flow_inverse() == then(second.flow_inverse(), first.flow_inverse())
                && valid.boundary_inverse() == then(
                second.boundary_inverse(),
                first.boundary_inverse(),
            ) && valid.ledger_inverse() == then(second.ledger_inverse(), first.ledger_inverse())),
    {
        proof {
            use_type_invariant(first);
            use_type_invariant(second);
        }
        if !first.target.same_as(&second.source) {
            return Err(Error::NotComposable);
        }
        proof {
            lemma_agreeing_sets(first.target.spec_carrier(), second.source.spec_carrier());
            use_type_invariant(&first.kinds);
            use_type_invariant(&second.kinds);
        }
        let kinds = Bijection::compose(&first.kinds, &second.kinds);
        let axes = Bijection::compose(&first.axes, &second.axes);
        let flows = Bijection::compose(&first.flows, &second.flows);
        let boundaries = Bijection::compose(&first.boundaries, &second.boundaries);
        let ledgers = Bijection::compose(&first.ledgers, &second.ledgers);
        proof {
            use_type_invariant(&kinds);
            use_type_invariant(&axes);
            use_type_invariant(&flows);
            use_type_invariant(&boundaries);
            use_type_invariant(&ledgers);
            assert(kinds.forward_map().dom() =~= first.kinds.forward_map().dom());
            assert(kinds.inverse_map().dom() =~= second.kinds.inverse_map().dom());
            assert(axes.forward_map().dom() =~= first.axes.forward_map().dom());
            assert(axes.inverse_map().dom() =~= second.axes.inverse_map().dom());
            assert(flows.forward_map().dom() =~= first.flows.forward_map().dom());
            assert(flows.inverse_map().dom() =~= second.flows.inverse_map().dom());
            assert(boundaries.forward_map().dom() =~= first.boundaries.forward_map().dom());
            assert(boundaries.inverse_map().dom() =~= second.boundaries.inverse_map().dom());
            assert(ledgers.forward_map().dom() =~= first.ledgers.forward_map().dom());
            assert(ledgers.inverse_map().dom() =~= second.ledgers.inverse_map().dom());
        }
        Ok(StockFlowRenaming {
            source: first.source.clone(),
            target: second.target.clone(),
            kinds,
            axes,
            flows,
            boundaries,
            ledgers,
        })
    }
}

impl Clone for StockFlowRenaming {
    fn clone(&self) -> (copy: Self)
        ensures
            copy.source_signature() == self.source_signature(),
            copy.target_signature() == self.target_signature(),
            copy.kind_map() == self.kind_map(),
            copy.axis_map() == self.axis_map(),
            copy.flow_map() == self.flow_map(),
            copy.boundary_map() == self.boundary_map(),
            copy.ledger_map() == self.ledger_map(),
    {
        proof {
            use_type_invariant(self);
        }
        let kinds = self.kinds.clone();
        let axes = self.axes.clone();
        let flows = self.flows.clone();
        let boundaries = self.boundaries.clone();
        let ledgers = self.ledgers.clone();
        proof {
            use_type_invariant(&kinds);
            use_type_invariant(&axes);
            use_type_invariant(&flows);
            use_type_invariant(&boundaries);
            use_type_invariant(&ledgers);
        }
        StockFlowRenaming {
            source: self.source.clone(),
            target: self.target.clone(),
            kinds,
            axes,
            flows,
            boundaries,
            ledgers,
        }
    }
}

/// Composing the identity of a renaming's source with the renaming, or the
/// renaming with the identity of its target, gives back each of its maps.
pub proof fn lemma_stock_flow_renaming_identity(renaming: StockFlowRenaming)
    requires
        renaming.well_formed(),
    ensures
        ({
            let source = renaming.source_signature().spec_carrier();
            let target = renaming.target_signature().spec_carrier();
            &&& then(identity_on(source.kind_set()), renaming.kind_map()) == renaming.kind_map()
            &&& then(identity_on(source.axis_set()), renaming.axis_map()) == renaming.axis_map()
            &&& then(identity_on(source.flow_kinds().dom()), renaming.flow_map())
                == renaming.flow_map()
            &&& then(identity_on(source.boundary_kinds().dom()), renaming.boundary_map())
                == renaming.boundary_map()
            &&& then(identity_on(source.ledger_axes().dom()), renaming.ledger_map())
                == renaming.ledger_map()
            &&& then(renaming.kind_map(), identity_on(target.kind_set())) == renaming.kind_map()
            &&& then(renaming.axis_map(), identity_on(target.axis_set())) == renaming.axis_map()
            &&& then(renaming.flow_map(), identity_on(target.flow_kinds().dom()))
                == renaming.flow_map()
            &&& then(renaming.boundary_map(), identity_on(target.boundary_kinds().dom()))
                == renaming.boundary_map()
            &&& then(renaming.ledger_map(), identity_on(target.ledger_axes().dom()))
                == renaming.ledger_map()
        }),
{
    renaming.lemma_maps();
    let source = renaming.source_signature().spec_carrier();
    let target = renaming.target_signature().spec_carrier();
    assert(then(identity_on(source.kind_set()), renaming.kind_map()) =~= renaming.kind_map());
    assert(then(identity_on(source.axis_set()), renaming.axis_map()) =~= renaming.axis_map());
    assert(then(identity_on(source.flow_kinds().dom()), renaming.flow_map())
        =~= renaming.flow_map());
    assert(then(identity_on(source.boundary_kinds().dom()), renaming.boundary_map())
        =~= renaming.boundary_map());
    assert(then(identity_on(source.ledger_axes().dom()), renaming.ledger_map())
        =~= renaming.ledger_map());
    assert(then(renaming.kind_map(), identity_on(target.kind_set())) =~= renaming.kind_map());
    assert(then(renaming.axis_map(), identity_on(target.axis_set())) =~= renaming.axis_map());
    assert(then(renaming.flow_map(), identity_on(target.flow_kinds().dom()))
        =~= renaming.flow_map());
    assert(then(renaming.boundary_map(), identity_on(target.boundary_kinds().dom()))
        =~= renaming.boundary_map());
    assert(then(renaming.ledger_map(), identity_on(target.ledger_axes().dom()))
        =~= renaming.ledger_map());
}

/// For composable renamings `first`, `second` and `third`, the two ways of
/// composing all three have the same maps.
pub proof fn lemma_stock_flow_renaming_associativity(
    first: StockFlowRenaming,
    second: StockFlowRenaming,
    third: StockFlowRenaming,
)
    requires
        first.well_formed(),
        second.well_formed(),
        third.well_formed(),
        first.target_signature().spec_carrier().agrees_with(second.source_signature().spec_carrier()),
        second.target_signature().spec_carrier().agrees_with(third.source_signature().spec_carrier()),
    ensures
        then(then(first.kind_map(), second.kind_map()), third.kind_map()) == then(
            first.kind_map(),
            then(second.kind_map(), third.kind_map()),
        ),
        then(then(first.axis_map(), second.axis_map()), third.axis_map()) == then(
            first.axis_map(),
            then(second.axis_map(), third.axis_map()),
        ),
        then(then(first.flow_map(), second.flow_map()), third.flow_map()) == then(
            first.flow_map(),
            then(second.flow_map(), third.flow_map()),
        ),
        then(then(first.boundary_map(), second.boundary_map()), third.boundary_map()) == then(
            first.boundary_map(),
            then(second.boundary_map(), third.boundary_map()),
        ),
        then(then(first.ledger_map(), second.ledger_map()), third.ledger_map()) == then(
            first.ledger_map(),
            then(second.ledger_map(), third.ledger_map()),
        ),
{
    first.lemma_maps();
    second.lemma_maps();
    third.lemma_maps();
    lemma_agreeing_sets(
        first.target_signature().spec_carrier(),
        second.source_signature().spec_carrier(),
    );
    lemma_agreeing_sets(
        second.target_signature().spec_carrier(),
        third.source_signature().spec_carrier(),
    );
    assert(then(then(first.kind_map(), second.kind_map()), third.kind_map()) =~= then(
        first.kind_map(),
        then(second.kind_map(), third.kind_map()),
    ));
    assert(then(then(first.axis_map(), second.axis_map()), third.axis_map()) =~= then(
        first.axis_map(),
        then(second.axis_map(), third.axis_map()),
    ));
    assert(then(then(first.flow_map(), second.flow_map()), third.flow_map()) =~= then(
        first.flow_map(),
        then(second.flow_map(), third.flow_map()),
    ));
    assert(then(then(first.boundary_map(), second.boundary_map()), third.boundary_map()) =~= then(
        first.boundary_map(),
        then(second.boundary_map(), third.boundary_map()),
    ));
    assert(then(then(first.ledger_map(), second.ledger_map()), third.ledger_map()) =~= then(
        first.ledger_map(),
        then(second.ledger_map(), third.ledger_map()),
    ));
}

/// Translating a graded law along an identity renaming, when it can be
/// translated, gives back its kind and coefficients.
pub proof fn lemma_graded_translation_identity(identity: StockFlowRenaming, law: GradedLaw)
    requires
        identity.well_formed(),
        law.spec_form().well_formed(),
        identity.kind_map() == identity_on(identity.source_signature().spec_carrier().kind_set()),
        identity.axis_inverse() == identity_on(identity.source_signature().spec_carrier().axis_set()),
        identity.kind_map().dom().contains(law.spec_form().spec_kind()),
        law.spec_form().coefficient_map().dom().subset_of(identity.axis_map().dom()),
    ensures
        identity.kind_map()[law.spec_form().spec_kind()] == law.spec_form().spec_kind(),
        renamed(law.spec_form().coefficient_map(), identity.axis_inverse())
            == law.spec_form().coefficient_map(),
{
    identity.lemma_maps();
    assert(renamed(law.spec_form().coefficient_map(), identity.axis_inverse())
        =~= law.spec_form().coefficient_map());
}

/// Translating a graded law along a composite renaming is translating it
/// along the first renaming and then along the second.
pub proof fn lemma_graded_translation_composition(
    first: StockFlowRenaming,
    second: StockFlowRenaming,
    composite: StockFlowRenaming,
    coefficients: Map<AxisId, BigRational>,
    kind: KindId,
)
    requires
        first.well_formed(),
        second.well_formed(),
        first.target_signature().spec_carrier().agrees_with(second.source_signature().spec_carrier()),
        composite.kind_map() == then(first.kind_map(), second.kind_map()),
        composite.axis_inverse() == then(second.axis_inverse(), first.axis_inverse()),
        first.kind_map().dom().contains(kind),
    ensures
        composite.kind_map()[kind] == second.kind_map()[first.kind_map()[kind]],
        second.kind_map().dom().contains(first.kind_map()[kind]),
        renamed(renamed(coefficients, first.axis_inverse()), second.axis_inverse()) == renamed(
            coefficients,
            composite.axis_inverse(),
        ),
{
    first.lemma_maps();
    second.lemma_maps();
    lemma_agreeing_sets(
        first.target_signature().spec_carrier(),
        second.source_signature().spec_carrier(),
    );
    first.axes.lemma_inverse();
    second.axes.lemma_inverse();
    assert(renamed(renamed(coefficients, first.axis_inverse()), second.axis_inverse()) =~= renamed(
        coefficients,
        composite.axis_inverse(),
    ));
}

/// Carrying amounts back along identity maps on their symbols and kinds
/// gives them back.
pub proof fn lemma_carried_identity(
    amounts: Seq<(u64, KindId, BigRational)>,
    ids: Set<u64>,
    kinds: Set<u64>,
)
    requires
        amounts_within(amounts, ids, kinds),
    ensures
        carried_amounts(amounts, identity_on(ids), identity_on(kinds)) == amounts,
{
    assert(carried_amounts(amounts, identity_on(ids), identity_on(kinds)) =~= amounts);
}

/// Carrying amounts back along `second` and then along `first` is carrying
/// them back along the composite maps.
pub proof fn lemma_carried_composition(
    amounts: Seq<(u64, KindId, BigRational)>,
    second_ids: Map<u64, u64>,
    second_kinds: Map<u64, u64>,
    first_ids: Map<u64, u64>,
    first_kinds: Map<u64, u64>,
)
    requires
        amounts_within(amounts, second_ids.dom(), second_kinds.dom()),
    ensures
        carried_amounts(carried_amounts(amounts, second_ids, second_kinds), first_ids, first_kinds)
            == carried_amounts(amounts, then(second_ids, first_ids), then(second_kinds, first_kinds)),
{
    assert(carried_amounts(carried_amounts(amounts, second_ids, second_kinds), first_ids, first_kinds)
        =~= carried_amounts(amounts, then(second_ids, first_ids), then(second_kinds, first_kinds)));
}

/// Pulling a record back along an identity renaming gives it back.
pub proof fn lemma_pull_back_identity(
    identity: StockFlowRenaming,
    record: TransitionRecordData,
    pulled: TransitionRecordData,
)
    requires
        identity.well_formed(),
        identity.kind_inverse() == identity_on(identity.target_signature().spec_carrier().kind_set()),
        identity.axis_inverse() == identity_on(identity.target_signature().spec_carrier().axis_set()),
        identity.flow_inverse() == identity_on(
            identity.target_signature().spec_carrier().flow_kinds().dom(),
        ),
        identity.boundary_inverse() == identity_on(
            identity.target_signature().spec_carrier().boundary_kinds().dom(),
        ),
        identity.ledger_inverse() == identity_on(
            identity.target_signature().spec_carrier().ledger_axes().dom(),
        ),
        record_within(record, identity.target_signature().spec_carrier()),
        record_pulled_back(pulled, record, identity),
    ensures
        pulled.before@ == record.before@,
        pulled.after@ == record.after@,
        pulled.requested_internal@ == record.requested_internal@,
        pulled.settled_internal@ == record.settled_internal@,
        pulled.requested_boundary@ == record.requested_boundary@,
        pulled.settled_boundary@ == record.settled_boundary@,
        pulled.ledger_before@ == record.ledger_before@,
        pulled.ledger_after@ == record.ledger_after@,
{
    let carrier = identity.target_signature().spec_carrier();
    let kinds = carrier.kind_set();
    lemma_carried_identity(record.before@, carrier.axis_set(), kinds);
    lemma_carried_identity(record.after@, carrier.axis_set(), kinds);
    lemma_carried_identity(record.requested_internal@, carrier.flow_kinds().dom(), kinds);
    lemma_carried_identity(record.settled_internal@, carrier.flow_kinds().dom(), kinds);
    lemma_carried_identity(record.requested_boundary@, carrier.boundary_kinds().dom(), kinds);
    lemma_carried_identity(record.settled_boundary@, carrier.boundary_kinds().dom(), kinds);
    lemma_carried_identity(record.ledger_before@, carrier.ledger_axes().dom(), kinds);
    lemma_carried_identity(record.ledger_after@, carrier.ledger_axes().dom(), kinds);
}

/// Pulling a record back along a composite renaming is pulling it back
/// along the second renaming and then along the first.
pub proof fn lemma_pull_back_composition(
    first: StockFlowRenaming,
    second: StockFlowRenaming,
    composite: StockFlowRenaming,
    record: TransitionRecordData,
    middle: TransitionRecordData,
    pulled: TransitionRecordData,
)
    requires
        second.well_formed(),
        composite.kind_inverse() == then(second.kind_inverse(), first.kind_inverse()),
        composite.axis_inverse() == then(second.axis_inverse(), first.axis_inverse()),
        composite.flow_inverse() == then(second.flow_inverse(), first.flow_inverse()),
        composite.boundary_inverse() == then(second.boundary_inverse(), first.boundary_inverse()),
        composite.ledger_inverse() == then(second.ledger_inverse(), first.ledger_inverse()),
        record_within(record, second.target_signature().spec_carrier()),
        record_pulled_back(middle, record, second),
        record_pulled_back(pulled, middle, first),
    ensures
        record_pulled_back(pulled, record, composite),
{
    second.kinds.lemma_inverse();
    let k2 = second.kind_inverse();
    let k1 = first.kind_inverse();
    lemma_carried_composition(record.before@, second.axis_inverse(), k2, first.axis_inverse(), k1);
    lemma_carried_composition(record.after@, second.axis_inverse(), k2, first.axis_inverse(), k1);
    lemma_carried_composition(
        record.requested_internal@,
        second.flow_inverse(),
        k2,
        first.flow_inverse(),
        k1,
    );
    lemma_carried_composition(
        record.settled_internal@,
        second.flow_inverse(),
        k2,
        first.flow_inverse(),
        k1,
    );
    lemma_carried_composition(
        record.requested_boundary@,
        second.boundary_inverse(),
        k2,
        first.boundary_inverse(),
        k1,
    );
    lemma_carried_composition(
        record.settled_boundary@,
        second.boundary_inverse(),
        k2,
        first.boundary_inverse(),
        k1,
    );
    lemma_carried_composition(
        record.ledger_before@,
        second.ledger_inverse(),
        k2,
        first.ledger_inverse(),
        k1,
    );
    lemma_carried_composition(record.ledger_after@, second.ledger_inverse(), k2, first.ledger_inverse(), k1);
}

/// The institution of exact stock-flow carriers, structural renamings and
/// transition traces.
#[derive(Clone, Copy, Debug, PartialEq, Eq, Structural, Default)]
pub struct StockFlowInstitution;

impl StockFlowInstitution {
    /// The transition records of a model over `model_signature`, carried back
    /// along `morphism` to its source, in order. The model's signature must
    /// have the structure of the morphism's target.
    pub fn reduce_records(
        morphism: &StockFlowRenaming,
        model_signature: &StockFlowSignature,
        records: &Vec<TransitionRecordData>,
    ) -> (reduced: Result<Vec<TransitionRecordData>, Error>)
        requires
            forall|i: int|
                0 <= i < records@.len() ==> record_within(
                    #[trigger] records@[i],
                    morphism.target_signature().spec_carrier(),
                ),
        ensures
            !model_signature.spec_carrier().agrees_with(morphism.target_signature().spec_carrier())
                ==> reduced == Err::<Vec<TransitionRecordData>, Error>(Error::ModelSignatureMismatch),
            model_signature.spec_carrier().agrees_with(morphism.target_signature().spec_carrier())
                ==> (reduced matches Ok(pulled) && pulled@.len() == records@.len() && forall|i: int|
                0 <= i < records@.len() ==> record_pulled_back(
                    #[trigger] pulled@[i],
                    records@[i],
                    *morphism,
                )),
    {
        if !model_signature.same_as(morphism.target()) {
            return Err(Error::ModelSignatureMismatch);
        }
        let mut pulled: Vec<TransitionRecordData> = Vec::new();
        let mut index: usize = 0;
        while index < records.len()
            invariant
                index <= records@.len(),
                pulled@.len() == index,
                forall|i: int|
                    0 <= i < records@.len() ==> record_within(
                        #[trigger] records@[i],
                        morphism.target_signature().spec_carrier(),
                    ),
                forall|i: int|
                    0 <= i < index ==> record_pulled_back(
                        #[trigger] pulled@[i],
                        records@[i],
                        *morphism,
                    ),
            decreases records@.len() - index,
        {
            assert(record_within(records@[index as int], morphism.target_signature().spec_carrier()));
            pulled.push(morphism.pull_back_record(&records[index]));
            index = index + 1;
        }
        Ok(pulled)
    }
}

} // verus!
