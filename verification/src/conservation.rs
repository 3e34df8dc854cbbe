//! Exact balance laws over finite traces, organised as an institution.
//!
//! Sentences are [`GradedLaw`]s: one exact linear form read as an invariant
//! balance, a nonnegativity constraint, or a nondecreasing (dissipation)
//! constraint. Translation renames the form and preserves the grade; the
//! reduct renames every state of a trace back to the source axes. Axes and
//! quantity kinds are integer symbols; amounts and coefficients are exact
//! rationals.
use num_bigint::BigInt;
use num_rational::{BigRational, Ratio};
use vstd::prelude::*;

use crate::symbol_map::{
    SymbolMap, ascending, collect_entries, lemma_collect_entries_error_persists,
};

verus! {

/// An exact rational number.
#[verifier::external_type_specification]
#[verifier::external_body]
#[verifier::reject_recursive_types(T)]
pub struct ExRatio<T>(Ratio<T>);

/// An arbitrary-precision integer.
#[verifier::external_type_specification]
#[verifier::external_body]
pub struct ExBigInt(BigInt);

/// Calls `<Ratio<BigInt> as Clone>::clone`, which clones numerator and
/// denominator; the copy is the same number as `value`.
#[verifier::external_body]
pub(crate) fn copy_rational(value: &BigRational) -> (copy: BigRational)
    ensures
        copy == *value,
{
    value.clone()
}

/// A named axis of a signature.
pub type AxisId = u64;

/// A quantity kind.
pub type KindId = u64;

/// The set of values a finite map takes.
pub open spec fn kinds_of(axes: Map<AxisId, KindId>) -> Set<KindId> {
    axes.values()
}

/// A nonempty assignment of every axis to its quantitative kind.
#[derive(Debug, PartialEq, Eq)]
pub struct ConservationSignature {
    axes: SymbolMap<KindId>,
    kinds: SymbolMap<()>,
}

impl View for ConservationSignature {
    type V = Map<AxisId, KindId>;

    /// The kind of each axis.
    closed spec fn view(&self) -> Map<AxisId, KindId> {
        self.axes@
    }
}

impl ConservationSignature {
    /// The axes with their kinds, in ascending axis order.
    pub closed spec fn axis_entries(self) -> Seq<(AxisId, KindId)> {
        self.axes.entries()
    }

    /// The distinct kinds, in ascending order.
    pub closed spec fn kind_entries(self) -> Seq<(KindId, ())> {
        self.kinds.entries()
    }

    /// The signature holds at least one axis, each once, and its kinds are
    /// exactly the kinds of its axes.
    #[verifier::type_invariant]
    pub closed spec fn well_formed(self) -> bool {
        &&& self.axes.well_formed()
        &&& self.kinds.well_formed()
        &&& self.axes@.dom().len() > 0
        &&& self.kinds@.dom() == kinds_of(self.axes@)
    }

    /// The facts a signature offers about its view.
    proof fn lemma_view(self)
        requires
            self.well_formed(),
        ensures
            self@.dom().finite(),
            self@.dom().len() > 0,
            self@.dom().len() == self.axis_entries().len(),
            ascending(self.axis_entries()),
            forall|i: int|
                0 <= i < self.axis_entries().len() ==> #[trigger] self@[self.axis_entries()[i].0]
                    == self.axis_entries()[i].1 && self@.dom().contains(self.axis_entries()[i].0),
            forall|axis: AxisId|
                #![trigger self@.dom().contains(axis)]
                self@.dom().contains(axis) <==> exists|i: int|
                    0 <= i < self.axis_entries().len() && self.axis_entries()[i].0 == axis,
            self.kind_set() == kinds_of(self@),
            self.kind_set().finite(),
            self.kind_set().len() == self.kind_entries().len(),
    {
        self.axes.lemma_view();
        self.kinds.lemma_view();
    }

    /// The distinct kinds of the signature's axes.
    pub closed spec fn kind_set(self) -> Set<KindId> {
        self.kinds@.dom()
    }

    /// Validates and constructs a conservation signature: no axis may occur
    /// twice, and at least one axis is needed.
    pub fn new(axes: Vec<(AxisId, KindId)>) -> (signature: Result<Self, Error>)
        ensures
            match collect_entries(axes@) {
                Err(axis) => signature == Err::<Self, Error>(Error::DuplicateSignatureAxis(axis)),
                Ok(map) => if map.dom().len() == 0 {
                    signature == Err::<Self, Error>(Error::EmptySignature)
                } else {
                    signature matches Ok(valid) && valid@ == map
                },
            },
    {
        let mut canonical: SymbolMap<KindId> = SymbolMap::new();
        let mut kinds: SymbolMap<()> = SymbolMap::new();
        let mut index: usize = 0;
        while index < axes.len()
            invariant
                index <= axes@.len(),
                canonical.well_formed(),
                kinds.well_formed(),
                collect_entries(axes@.take(index as int)) == Ok::<Map<AxisId, KindId>, AxisId>(
                    canonical@,
                ),
                kinds@.dom() == kinds_of(canonical@),
            decreases axes@.len() - index,
        {
            let (axis, kind) = axes[index];
            proof {
                assert(axes@.take(index + 1).drop_last() == axes@.take(index as int));
            }
            if canonical.contains(axis) {
                proof {
                    lemma_collect_entries_error_persists(axes@, index + 1, axes@.len() as int);
                    assert(axes@.take(axes@.len() as int) == axes@);
                }
                return Err(Error::DuplicateSignatureAxis(axis));
            }
            let ghost before = canonical@;
            canonical.insert_new(axis, kind);
            if !kinds.contains(kind) {
                kinds.insert_new(kind, ());
            }
            proof {
                assert(kinds@.dom() =~= kinds_of(canonical@)) by {
                    assert forall|k: KindId| kinds_of(canonical@).contains(k) implies kinds@.dom().contains(k) by {
                        let a = choose|a: AxisId| canonical@.dom().contains(a) && canonical@[a] == k;
                        if a != axis {
                            assert(before.dom().contains(a) && before[a] == k);
                            assert(kinds_of(before).contains(k));
                        }
                    }
                    assert forall|k: KindId| kinds@.dom().contains(k) implies kinds_of(canonical@).contains(k) by {
                        if k != kind {
                            let a = choose|a: AxisId| before.dom().contains(a) && before[a] == k;
                            assert(canonical@.dom().contains(a) && canonical@[a] == k);
                        } else {
                            assert(canonical@.dom().contains(axis) && canonical@[axis] == k);
                        }
                    }
                }
            }
            index = index + 1;
        }
        proof {
            assert(axes@.take(axes@.len() as int) == axes@);
            canonical.lemma_view();
        }
        if canonical.len() == 0 {
            return Err(Error::EmptySignature);
        }
        Ok(ConservationSignature { axes: canonical, kinds })
    }

    /// Returns the kind assigned to an axis.
    pub fn kind(&self, axis: AxisId) -> (kind: Option<KindId>)
        ensures
            kind == (if self@.dom().contains(axis) {
                Some(self@[axis])
            } else {
                None::<KindId>
            }),
    {
        proof {
            use_type_invariant(self);
        }
        match self.axes.get(axis) {
            Some(kind) => Some(*kind),
            None => None,
        }
    }

    /// The axes and their kinds, in ascending axis order.
    pub fn axes(&self) -> (axes: Vec<(AxisId, KindId)>)
        ensures
            axes@ == self.axis_entries(),
            axes@.len() == self@.dom().len(),
            forall|i: int|
                0 <= i < axes@.len() ==> self@.dom().contains(#[trigger] axes@[i].0) && self@[axes@[i].0]
                    == axes@[i].1,
            forall|i: int, j: int| 0 <= i < j < axes@.len() ==> axes@[i].0 < axes@[j].0,
    {
        proof {
            use_type_invariant(self);
            self.lemma_view();
        }
        let mut axes: Vec<(AxisId, KindId)> = Vec::new();
        let mut index: usize = 0;
        while index < self.axes.len()
            invariant
                index <= self.axis_entries().len(),
                axes@ == self.axis_entries().take(index as int),
            decreases self.axis_entries().len() - index,
        {
            axes.push(*self.axes.entry(index));
            index = index + 1;
            proof {
                assert(axes@ =~= self.axis_entries().take(index as int));
            }
        }
        proof {
            assert(self.axis_entries().take(index as int) =~= self.axis_entries());
        }
        axes
    }

    /// The distinct kinds, in ascending order.
    pub fn kinds(&self) -> (kinds: Vec<KindId>)
        ensures
            kinds@ == self.kind_entries().map_values(|entry: (KindId, ())| entry.0),
            kinds@.to_set() == self.kind_set(),
            kinds@.to_set() == kinds_of(self@),
            forall|i: int, j: int| 0 <= i < j < kinds@.len() ==> kinds@[i] < kinds@[j],
    {
        let mut kinds: Vec<KindId> = Vec::new();
        let mut index: usize = 0;
        while index < self.kinds.len()
            invariant
                index <= self.kind_entries().len(),
                kinds@ == self.kind_entries().take(index as int).map_values(
                    |entry: (KindId, ())| entry.0,
                ),
            decreases self.kind_entries().len() - index,
        {
            kinds.push(self.kinds.entry(index).0);
            index = index + 1;
            proof {
                assert(kinds@ =~= self.kind_entries().take(index as int).map_values(
                    |entry: (KindId, ())| entry.0,
                ));
            }
        }
        proof {
            use_type_invariant(self);
            self.kinds.lemma_view();
            assert(self.kind_entries().take(index as int) =~= self.kind_entries());
            assert(kinds@.to_set() =~= self.kind_set()) by {
                assert forall|k: KindId| kinds@.to_set().contains(k) implies self.kind_set().contains(k) by {
                    let i = choose|i: int| 0 <= i < kinds@.len() && kinds@[i] == k;
                    assert(self.kind_entries()[i].0 == k);
                }
                assert forall|k: KindId| self.kind_set().contains(k) implies kinds@.to_set().contains(k) by {
                    let i = choose|i: int| 0 <= i < self.kind_entries().len() && self.kind_entries()[i].0 == k;
                    assert(kinds@[i] == k);
                }
            }
        }
        kinds
    }

    /// Returns the number of axes.
    pub fn len(&self) -> (count: usize)
        ensures
            count == self@.dom().len(),
    {
        proof {
            use_type_invariant(self);
            self.lemma_view();
        }
        self.axes.len()
    }

    /// Returns whether this signature has no axes; validated signatures
    /// always return `false`.
    pub fn is_empty(&self) -> (empty: bool)
        ensures
            empty == (self@.dom().len() == 0),
            !empty,
    {
        proof {
            use_type_invariant(self);
            self.lemma_view();
        }
        self.axes.len() == 0
    }

    /// Whether the two signatures assign the same kinds to the same axes.
    pub fn same_as(&self, other: &Self) -> (same: bool)
        ensures
            same == (self@ == other@),
            same == (self.axis_entries() == other.axis_entries()),
    {
        proof {
            use_type_invariant(self);
            use_type_invariant(other);
        }
        self.axes.same_as(&other.axes)
    }

    /// A copy of this signature.
    pub fn duplicate(&self) -> (copy: Self)
        ensures
            copy@ == self@,
            copy.axis_entries() == self.axis_entries(),
            copy.kind_set() == self.kind_set(),
    {
        proof {
            use_type_invariant(self);
        }
        let axes = self.axes.duplicate();
        let kinds = self.kinds.duplicate();
        ConservationSignature { axes, kinds }
    }
}

impl Clone for ConservationSignature {
    fn clone(&self) -> (copy: Self)
        ensures
            copy@ == self@,
    {
        self.duplicate()
    }
}

/// The kind maps built from `pairs` in order, or the first failure: a kind
/// outside its signature, a source kind mapped twice, or a target kind hit
/// twice.
pub open spec fn kind_pairs_outcome(
    source_kinds: Set<KindId>,
    target_kinds: Set<KindId>,
    pairs: Seq<(KindId, KindId)>,
) -> Result<(Map<KindId, KindId>, Map<KindId, KindId>), Error>
    decreases pairs.len(),
{
    if pairs.len() == 0 {
        Ok((Map::empty(), Map::empty()))
    } else {
        match kind_pairs_outcome(source_kinds, target_kinds, pairs.drop_last()) {
            Err(error) => Err(error),
            Ok((forward, inverse)) => {
                let (source_kind, target_kind) = pairs.last();
                if !source_kinds.contains(source_kind) {
                    Err(Error::KindMappingSourceOutsideSignature(source_kind))
                } else if !target_kinds.contains(target_kind) {
                    Err(Error::KindMappingTargetOutsideSignature(target_kind))
                } else if forward.dom().contains(source_kind) {
                    if forward[source_kind] == target_kind {
                        Err(Error::DuplicateSourceKind(source_kind))
                    } else {
                        Err(
                            Error::ConflictingKindMapping {
                                source_kind,
                                first_target: forward[source_kind],
                                second_target: target_kind,
                            },
                        )
                    }
                } else if inverse.dom().contains(target_kind) {
                    Err(Error::DuplicateTargetKind(target_kind))
                } else {
                    Ok(
                        (
                            forward.insert(source_kind, target_kind),
                            inverse.insert(target_kind, source_kind),
                        ),
                    )
                }
            },
        }
    }
}

/// The validated kind maps of a renaming between `source` and `target`:
/// those of [`kind_pairs_outcome`], which must cover every kind of both
/// signatures.
pub open spec fn kind_renaming_outcome(
    source: Map<AxisId, KindId>,
    target: Map<AxisId, KindId>,
    pairs: Seq<(KindId, KindId)>,
) -> Result<(Map<KindId, KindId>, Map<KindId, KindId>), Error> {
    match kind_pairs_outcome(kinds_of(source), kinds_of(target), pairs) {
        Err(error) => Err(error),
        Ok((forward, inverse)) => if forward.dom().len() != kinds_of(source).len() {
            Err(
                Error::IncompleteKindRenaming {
                    mapped: forward.dom().len() as usize,
                    source_kinds: kinds_of(source).len() as usize,
                },
            )
        } else if inverse.dom().len() != kinds_of(target).len() {
            Err(
                Error::NonBijectiveKindRenaming {
                    mapped_targets: inverse.dom().len() as usize,
                    target_kinds: kinds_of(target).len() as usize,
                },
            )
        } else {
            Ok((forward, inverse))
        },
    }
}

/// The axis maps built from `pairs` in order, or the first failure: an axis
/// outside its signature, a kind that the kind map does not carry to the
/// target axis's kind, a source axis mapped twice, or a target axis hit twice.
pub open spec fn axis_pairs_outcome(
    source: Map<AxisId, KindId>,
    target: Map<AxisId, KindId>,
    kinds: Map<KindId, KindId>,
    pairs: Seq<(AxisId, AxisId)>,
) -> Result<(Map<AxisId, AxisId>, Map<AxisId, AxisId>), Error>
    decreases pairs.len(),
{
    if pairs.len() == 0 {
        Ok((Map::empty(), Map::empty()))
    } else {
        match axis_pairs_outcome(source, target, kinds, pairs.drop_last()) {
            Err(error) => Err(error),
            Ok((forward, inverse)) => {
                let (source_axis, target_axis) = pairs.last();
                if !source.dom().contains(source_axis) {
                    Err(Error::RenamingSourceAxisOutsideSignature(source_axis))
                } else if !target.dom().contains(target_axis) {
                    Err(Error::RenamingTargetAxisOutsideSignature(target_axis))
                } else if !kinds.dom().contains(source[source_axis]) {
                    Err(Error::KindMappingSourceOutsideSignature(source[source_axis]))
                } else if kinds[source[source_axis]] != target[target_axis] {
                    Err(
                        Error::AxisKindMappingMismatch {
                            source_axis,
                            target_axis,
                            mapped_kind: kinds[source[source_axis]],
                            target_kind: target[target_axis],
                        },
                    )
                } else if forward.dom().contains(source_axis) {
                    Err(Error::DuplicateSourceAxis(source_axis))
                } else if inverse.dom().contains(target_axis) {
                    Err(Error::DuplicateTargetAxis(target_axis))
                } else {
                    Ok(
                        (
                            forward.insert(source_axis, target_axis),
                            inverse.insert(target_axis, source_axis),
                        ),
                    )
                }
            },
        }
    }
}

/// What [`AxisRenaming::new`] makes of its inputs: the forward and inverse
/// axis maps and the forward kind map, or the first failure met while
/// validating the kind pairs, then the axis pairs, then that both cover
/// their signatures.
pub open spec fn renaming_outcome(
    source: Map<AxisId, KindId>,
    target: Map<AxisId, KindId>,
    mappings: Seq<(AxisId, AxisId)>,
    kind_mappings: Seq<(KindId, KindId)>,
) -> Result<(Map<AxisId, AxisId>, Map<AxisId, AxisId>, Map<KindId, KindId>), Error> {
    match kind_renaming_outcome(source, target, kind_mappings) {
        Err(error) => Err(error),
        Ok((kinds, _)) => match axis_pairs_outcome(source, target, kinds, mappings) {
            Err(error) => Err(error),
            Ok((forward, inverse)) => if forward.dom().len() != source.dom().len() {
                Err(
                    Error::IncompleteRenaming {
                        mapped: forward.dom().len() as usize,
                        source_axes: source.dom().len() as usize,
                    },
                )
            } else if inverse.dom().len() != target.dom().len() {
                Err(
                    Error::NonBijectiveRenaming {
                        mapped_targets: inverse.dom().len() as usize,
                        target_axes: target.dom().len() as usize,
                    },
                )
            } else {
                Ok((forward, inverse, kinds))
            },
        },
    }
}

/// `forward` and `inverse` are maps between `source` and `target`, each
/// undoing the other, and `kinds` carries the kind of every source axis to
/// the kind of its image; `kinds` is a bijection between the signatures'
/// kinds.
pub open spec fn is_renaming(
    source: Map<AxisId, KindId>,
    target: Map<AxisId, KindId>,
    forward: Map<AxisId, AxisId>,
    inverse: Map<AxisId, AxisId>,
    kinds: Map<KindId, KindId>,
) -> bool {
    &&& forward.dom() == source.dom()
    &&& inverse.dom() == target.dom()
    &&& kinds.dom() == kinds_of(source)
    &&& forall|axis: AxisId|
        #![trigger forward[axis]]
        source.dom().contains(axis) ==> target.dom().contains(forward[axis]) && inverse[forward[axis]]
            == axis && target[forward[axis]] == kinds[source[axis]]
    &&& forall|axis: AxisId|
        #![trigger inverse[axis]]
        target.dom().contains(axis) ==> source.dom().contains(inverse[axis]) && forward[inverse[axis]]
            == axis
    &&& forall|kind: KindId|
        #![trigger kinds[kind]]
        kinds_of(source).contains(kind) ==> kinds_of(target).contains(kinds[kind])
    &&& forall|first: KindId, second: KindId|
        #![trigger kinds[first], kinds[second]]
        kinds_of(source).contains(first) && kinds_of(source).contains(second) && kinds[first]
            == kinds[second] ==> first == second
}

proof fn lemma_kind_pairs_facts(
    source_kinds: Set<KindId>,
    target_kinds: Set<KindId>,
    pairs: Seq<(KindId, KindId)>,
)
    requires
        kind_pairs_outcome(source_kinds, target_kinds, pairs) is Ok,
    ensures
        ({
            let (forward, inverse) = kind_pairs_outcome(source_kinds, target_kinds, pairs)->Ok_0;
            &&& forward.dom().subset_of(source_kinds)
            &&& inverse.dom().subset_of(target_kinds)
            &&& forward.dom().finite()
            &&& inverse.dom().finite()
            &&& forall|kind: KindId| #[trigger]
                forward.dom().contains(kind) ==> inverse.dom().contains(forward[kind])
                    && inverse[forward[kind]] == kind
            &&& forall|kind: KindId| #[trigger]
                inverse.dom().contains(kind) ==> forward.dom().contains(inverse[kind])
                    && forward[inverse[kind]] == kind
        }),
    decreases pairs.len(),
{
    if pairs.len() > 0 {
        lemma_kind_pairs_facts(source_kinds, target_kinds, pairs.drop_last());
    }
}

proof fn lemma_axis_pairs_facts(
    source: Map<AxisId, KindId>,
    target: Map<AxisId, KindId>,
    kinds: Map<KindId, KindId>,
    pairs: Seq<(AxisId, AxisId)>,
)
    requires
        axis_pairs_outcome(source, target, kinds, pairs) is Ok,
    ensures
        ({
            let (forward, inverse) = axis_pairs_outcome(source, target, kinds, pairs)->Ok_0;
            &&& forward.dom().subset_of(source.dom())
            &&& inverse.dom().subset_of(target.dom())
            &&& forward.dom().finite()
            &&& inverse.dom().finite()
            &&& forall|axis: AxisId| #[trigger]
                forward.dom().contains(axis) ==> inverse.dom().contains(forward[axis])
                    && inverse[forward[axis]] == axis && kinds.dom().contains(source[axis])
                    && target[forward[axis]] == kinds[source[axis]]
            &&& forall|axis: AxisId| #[trigger]
                inverse.dom().contains(axis) ==> forward.dom().contains(inverse[axis])
                    && forward[inverse[axis]] == axis
        }),
    decreases pairs.len(),
{
    if pairs.len() > 0 {
        lemma_axis_pairs_facts(source, target, kinds, pairs.drop_last());
    }
}

proof fn lemma_kinds_finite(axes: Map<AxisId, KindId>)
    requires
        axes.dom().finite(),
    ensures
        kinds_of(axes).finite(),
{
    vstd::map_lib::lemma_values_finite(axes);
}

/// A successful validation yields a renaming.
proof fn lemma_renaming_outcome_is_renaming(
    source: Map<AxisId, KindId>,
    target: Map<AxisId, KindId>,
    mappings: Seq<(AxisId, AxisId)>,
    kind_mappings: Seq<(KindId, KindId)>,
)
    requires
        source.dom().finite(),
        target.dom().finite(),
        renaming_outcome(source, target, mappings, kind_mappings) is Ok,
    ensures
        ({
            let (forward, inverse, kinds) = renaming_outcome(source, target, mappings, kind_mappings)->Ok_0;
            is_renaming(source, target, forward, inverse, kinds)
        }),
{
    let (kinds, kind_inverse) = kind_renaming_outcome(source, target, kind_mappings)->Ok_0;
    lemma_kind_pairs_facts(kinds_of(source), kinds_of(target), kind_mappings);
    lemma_kinds_finite(source);
    lemma_kinds_finite(target);
    vstd::set_lib::lemma_subset_equality(kinds.dom(), kinds_of(source));
    vstd::set_lib::lemma_subset_equality(kind_inverse.dom(), kinds_of(target));
    let (forward, inverse) = axis_pairs_outcome(source, target, kinds, mappings)->Ok_0;
    lemma_axis_pairs_facts(source, target, kinds, mappings);
    vstd::set_lib::lemma_subset_equality(forward.dom(), source.dom());
    vstd::set_lib::lemma_subset_equality(inverse.dom(), target.dom());
    assert forall|kind: KindId| #[trigger] kinds_of(source).contains(kind) implies kinds_of(
        target,
    ).contains(kinds[kind]) by {
        assert(kind_inverse.dom().contains(kinds[kind]));
    }
    assert forall|first: KindId, second: KindId|
        #![trigger kinds[first], kinds[second]]
        kinds_of(source).contains(first) && kinds_of(source).contains(second) && kinds[first]
            == kinds[second] implies first == second by {
        assert(kind_inverse[kinds[first]] == first);
        assert(kind_inverse[kinds[second]] == second);
    }
}

proof fn lemma_kind_pairs_error_persists(
    source_kinds: Set<KindId>,
    target_kinds: Set<KindId>,
    pairs: Seq<(KindId, KindId)>,
    i: int,
    j: int,
)
    requires
        0 <= i <= j <= pairs.len(),
        kind_pairs_outcome(source_kinds, target_kinds, pairs.take(i)) is Err,
    ensures
        kind_pairs_outcome(source_kinds, target_kinds, pairs.take(j)) == kind_pairs_outcome(
            source_kinds,
            target_kinds,
            pairs.take(i),
        ),
    decreases j - i,
{
    if i < j {
        lemma_kind_pairs_error_persists(source_kinds, target_kinds, pairs, i, j - 1);
        assert(pairs.take(j).drop_last() == pairs.take(j - 1));
    }
}

proof fn lemma_axis_pairs_error_persists(
    source: Map<AxisId, KindId>,
    target: Map<AxisId, KindId>,
    kinds: Map<KindId, KindId>,
    pairs: Seq<(AxisId, AxisId)>,
    i: int,
    j: int,
)
    requires
        0 <= i <= j <= pairs.len(),
        axis_pairs_outcome(source, target, kinds, pairs.take(i)) is Err,
    ensures
        axis_pairs_outcome(source, target, kinds, pairs.take(j)) == axis_pairs_outcome(
            source,
            target,
            kinds,
            pairs.take(i),
        ),
    decreases j - i,
{
    if i < j {
        lemma_axis_pairs_error_persists(source, target, kinds, pairs, i, j - 1);
        assert(pairs.take(j).drop_last() == pairs.take(j - 1));
    }
}

/// A bijective, kind-preserving renaming with explicit source and target.
#[derive(Debug, PartialEq, Eq)]
pub struct AxisRenaming {
    source: ConservationSignature,
    target: ConservationSignature,
    forward: SymbolMap<AxisId>,
    inverse: SymbolMap<AxisId>,
    kind_forward: SymbolMap<KindId>,
}

impl AxisRenaming {
    /// The source signature.
    pub closed spec fn source_signature(self) -> ConservationSignature {
        self.source
    }

    /// The target signature.
    pub closed spec fn target_signature(self) -> ConservationSignature {
        self.target
    }

    /// The image of each source axis.
    pub closed spec fn forward_map(self) -> Map<AxisId, AxisId> {
        self.forward@
    }

    /// The preimage of each target axis.
    pub closed spec fn inverse_map(self) -> Map<AxisId, AxisId> {
        self.inverse@
    }

    /// The image of each source kind.
    pub closed spec fn kind_map(self) -> Map<KindId, KindId> {
        self.kind_forward@
    }

    /// The maps describe a renaming between the two signatures.
    #[verifier::type_invariant]
    pub closed spec fn well_formed(self) -> bool {
        &&& self.forward.well_formed()
        &&& self.inverse.well_formed()
        &&& self.kind_forward.well_formed()
        &&& is_renaming(
            self.source@,
            self.target@,
            self.forward@,
            self.inverse@,
            self.kind_forward@,
        )
    }

    /// The maps of a renaming relate its signatures as [`is_renaming`] says.
    pub proof fn lemma_renaming(self)
        requires
            self.well_formed(),
        ensures
            is_renaming(
                self.source_signature()@,
                self.target_signature()@,
                self.forward_map(),
                self.inverse_map(),
                self.kind_map(),
            ),
    {
    }

    /// Validates and constructs an axis renaming. The kind pairs are checked
    /// first, in order, then that they cover both signatures' kinds, then the
    /// axis pairs, in order, then that they cover both signatures' axes; the
    /// first failure is returned.
    pub fn new(
        source: ConservationSignature,
        target: ConservationSignature,
        mappings: Vec<(AxisId, AxisId)>,
        kind_mappings: Vec<(KindId, KindId)>,
    ) -> (renaming: Result<Self, Error>)
        ensures
            match renaming_outcome(source@, target@, mappings@, kind_mappings@) {
                Err(error) => renaming == Err::<Self, Error>(error),
                Ok((forward, inverse, kinds)) => renaming matches Ok(valid)
                    && valid.source_signature() == source && valid.target_signature() == target
                    && valid.forward_map() == forward && valid.inverse_map() == inverse
                    && valid.kind_map() == kinds,
            },
    {
        proof {
            use_type_invariant(&source);
            use_type_invariant(&target);
            source.lemma_view();
            target.lemma_view();
        }
        let ghost source_kinds = kinds_of(source@);
        let ghost target_kinds = kinds_of(target@);
        let mut kind_forward: SymbolMap<KindId> = SymbolMap::new();
        let mut kind_inverse: SymbolMap<KindId> = SymbolMap::new();
        let mut index: usize = 0;
        while index < kind_mappings.len()
            invariant
                index <= kind_mappings@.len(),
                kind_forward.well_formed(),
                kind_inverse.well_formed(),
                source.well_formed(),
                target.well_formed(),
                source_kinds == kinds_of(source@),
                target_kinds == kinds_of(target@),
                source.kind_set() == source_kinds,
                target.kind_set() == target_kinds,
                kind_pairs_outcome(source_kinds, target_kinds, kind_mappings@.take(index as int))
                    == Ok::<(Map<KindId, KindId>, Map<KindId, KindId>), Error>(
                    (kind_forward@, kind_inverse@),
                ),
            decreases kind_mappings@.len() - index,
        {
            let (source_kind, target_kind) = kind_mappings[index];
            proof {
                assert(kind_mappings@.take(index + 1).drop_last() == kind_mappings@.take(
                    index as int,
                ));
                assert(kind_mappings@.take(index + 1).last() == (source_kind, target_kind));
            }
            let failure = if !source.kinds.contains(source_kind) {
                Some(Error::KindMappingSourceOutsideSignature(source_kind))
            } else if !target.kinds.contains(target_kind) {
                Some(Error::KindMappingTargetOutsideSignature(target_kind))
            } else {
                match kind_forward.get(source_kind) {
                    Some(existing) => if *existing == target_kind {
                        Some(Error::DuplicateSourceKind(source_kind))
                    } else {
                        Some(
                            Error::ConflictingKindMapping {
                                source_kind,
                                first_target: *existing,
                                second_target: target_kind,
                            },
                        )
                    },
                    None => if kind_inverse.contains(target_kind) {
                        Some(Error::DuplicateTargetKind(target_kind))
                    } else {
                        None
                    },
                }
            };
            match failure {
                Some(error) => {
                    proof {
                        lemma_kind_pairs_error_persists(
                            source_kinds,
                            target_kinds,
                            kind_mappings@,
                            index + 1,
                            kind_mappings@.len() as int,
                        );
                        assert(kind_mappings@.take(kind_mappings@.len() as int) == kind_mappings@);
                    }
                    return Err(error);
                },
                None => {},
            }
            kind_forward.insert_new(source_kind, target_kind);
            kind_inverse.insert_new(target_kind, source_kind);
            index = index + 1;
        }
        proof {
            assert(kind_mappings@.take(kind_mappings@.len() as int) == kind_mappings@);
            kind_forward.lemma_view();
            kind_inverse.lemma_view();
        }
        if kind_forward.len() != source.kinds.len() {
            return Err(
                Error::IncompleteKindRenaming {
                    mapped: kind_forward.len(),
                    source_kinds: source.kinds.len(),
                },
            );
        }
        if kind_inverse.len() != target.kinds.len() {
            return Err(
                Error::NonBijectiveKindRenaming {
                    mapped_targets: kind_inverse.len(),
                    target_kinds: target.kinds.len(),
                },
            );
        }
        let mut forward: SymbolMap<AxisId> = SymbolMap::new();
        let mut inverse: SymbolMap<AxisId> = SymbolMap::new();
        let mut index: usize = 0;
        while index < mappings.len()
            invariant
                index <= mappings@.len(),
                forward.well_formed(),
                inverse.well_formed(),
                kind_forward.well_formed(),
                source.well_formed(),
                target.well_formed(),
                kind_renaming_outcome(source@, target@, kind_mappings@) == Ok::<
                    (Map<KindId, KindId>, Map<KindId, KindId>),
                    Error,
                >((kind_forward@, kind_inverse@)),
                axis_pairs_outcome(source@, target@, kind_forward@, mappings@.take(index as int))
                    == Ok::<(Map<AxisId, AxisId>, Map<AxisId, AxisId>), Error>(
                    (forward@, inverse@),
                ),
            decreases mappings@.len() - index,
        {
            let (source_axis, target_axis) = mappings[index];
            proof {
                assert(mappings@.take(index + 1).drop_last() == mappings@.take(index as int));
                assert(mappings@.take(index + 1).last() == (source_axis, target_axis));
            }
            let failure = match source.kind(source_axis) {
                None => Some(Error::RenamingSourceAxisOutsideSignature(source_axis)),
                Some(source_kind) => match target.kind(target_axis) {
                    None => Some(Error::RenamingTargetAxisOutsideSignature(target_axis)),
                    Some(target_kind) => match kind_forward.get(source_kind) {
                        None => Some(Error::KindMappingSourceOutsideSignature(source_kind)),
                        Some(mapped_kind) => if *mapped_kind != target_kind {
                            Some(
                                Error::AxisKindMappingMismatch {
                                    source_axis,
                                    target_axis,
                                    mapped_kind: *mapped_kind,
                                    target_kind,
                                },
                            )
                        } else if forward.contains(source_axis) {
                            Some(Error::DuplicateSourceAxis(source_axis))
                        } else if inverse.contains(target_axis) {
                            Some(Error::DuplicateTargetAxis(target_axis))
                        } else {
                            None
                        },
                    },
                },
            };
            match failure {
                Some(error) => {
                    proof {
                        lemma_axis_pairs_error_persists(
                            source@,
                            target@,
                            kind_forward@,
                            mappings@,
                            index + 1,
                            mappings@.len() as int,
                        );
                        assert(mappings@.take(mappings@.len() as int) == mappings@);
                    }
                    return Err(error);
                },
                None => {},
            }
            forward.insert_new(source_axis, target_axis);
            inverse.insert_new(target_axis, source_axis);
            index = index + 1;
        }
        proof {
            assert(mappings@.take(mappings@.len() as int) == mappings@);
            forward.lemma_view();
            inverse.lemma_view();
        }
        if forward.len() != source.axes.len() {
            return Err(
                Error::IncompleteRenaming { mapped: forward.len(), source_axes: source.axes.len() },
            );
        }
        if inverse.len() != target.axes.len() {
            return Err(
                Error::NonBijectiveRenaming {
                    mapped_targets: inverse.len(),
                    target_axes: target.axes.len(),
                },
            );
        }
        proof {
            lemma_renaming_outcome_is_renaming(source@, target@, mappings@, kind_mappings@);
        }
        Ok(AxisRenaming { source, target, forward, inverse, kind_forward })
    }

    /// The identity renaming of `signature`.
    pub fn identity(signature: &ConservationSignature) -> (renaming: Result<Self, Error>)
        ensures
            renaming matches Ok(valid) && valid.source_signature()@ == signature@
                && valid.target_signature()@ == signature@ && valid.forward_map() == identity_on(
                signature@.dom(),
            ) && valid.inverse_map() == identity_on(signature@.dom()) && valid.kind_map()
                == identity_on(kinds_of(signature@)),
    {
        proof {
            use_type_invariant(signature);
            signature.lemma_view();
            signature.kinds.lemma_view();
        }
        let forward = identity_of_keys(&signature.axes);
        let inverse = identity_of_keys(&signature.axes);
        let kind_forward = identity_of_keys(&signature.kinds);
        let source = signature.duplicate();
        let target = signature.duplicate();
        proof {
            let axes = signature@;
            assert(kind_forward@ == identity_on(kinds_of(axes)));
            assert forall|axis: AxisId| #![trigger forward@[axis]] axes.dom().contains(axis) implies axes.dom().contains(forward@[axis])
                && inverse@[forward@[axis]] == axis && axes[forward@[axis]] == kind_forward@[axes[axis]] by {
                assert(kinds_of(axes).contains(axes[axis]));
            }
            assert(forward@.dom() =~= axes.dom());
            assert(inverse@.dom() =~= axes.dom());
            assert(kind_forward@.dom() =~= kinds_of(axes));
            assert(is_renaming(source@, target@, forward@, inverse@, kind_forward@));
        }
        Ok(AxisRenaming { source, target, forward, inverse, kind_forward })
    }

    /// Composes `first: A -> B` with `second: B -> C`, producing `A -> C`;
    /// the middle signatures must be the same.
    pub fn compose(first: &Self, second: &Self) -> (composite: Result<Self, Error>)
        ensures
            first.target_signature()@ != second.source_signature()@ ==> composite == Err::<
                Self,
                Error,
            >(Error::NonComposableRenamings),
            first.target_signature()@ == second.source_signature()@ ==> (composite matches Ok(valid)
                && valid.source_signature()@ == first.source_signature()@
                && valid.target_signature()@ == second.target_signature()@ && valid.forward_map()
                == then(first.forward_map(), second.forward_map()) && valid.inverse_map() == then(
                second.inverse_map(),
                first.inverse_map(),
            ) && valid.kind_map() == then(first.kind_map(), second.kind_map())),
    {
        proof {
            use_type_invariant(first);
            use_type_invariant(second);
        }
        if !first.target.same_as(&second.source) {
            return Err(Error::NonComposableRenamings);
        }
        proof {
            use_type_invariant(&first.source);
            use_type_invariant(&first.target);
            use_type_invariant(&second.target);
        }
        let forward = compose_entries(&first.forward, &second.forward);
        let inverse = compose_entries(&second.inverse, &first.inverse);
        let kind_forward = compose_entries(&first.kind_forward, &second.kind_forward);
        let source = first.source.duplicate();
        let target = second.target.duplicate();
        proof {
            let a = first.source@;
            let b = first.target@;
            let c = second.target@;
            assert(forward@.dom() == a.dom());
            assert(inverse@.dom() == c.dom());
            assert(kind_forward@.dom() == kinds_of(a));
            assert forall|axis: AxisId| #![trigger forward@[axis]] a.dom().contains(axis) implies c.dom().contains(forward@[axis])
                && inverse@[forward@[axis]] == axis && c[forward@[axis]] == kind_forward@[a[axis]] by {
                let middle = first.forward@[axis];
                assert(b.dom().contains(middle));
                assert(second.inverse@[second.forward@[middle]] == middle);
                assert(kinds_of(a).contains(a[axis]));
            }
            assert forall|axis: AxisId| #![trigger inverse@[axis]] c.dom().contains(axis) implies a.dom().contains(inverse@[axis])
                && forward@[inverse@[axis]] == axis by {
                let middle = second.inverse@[axis];
                assert(b.dom().contains(middle));
            }
            assert forall|kind: KindId| #![trigger kind_forward@[kind]] kinds_of(a).contains(kind) implies kinds_of(c).contains(kind_forward@[kind]) by {
                assert(kinds_of(b).contains(first.kind_forward@[kind]));
            }
            assert forall|one: KindId, other: KindId| #![trigger kind_forward@[one], kind_forward@[other]]
                kinds_of(a).contains(one) && kinds_of(a).contains(other) && kind_forward@[one]
                    == kind_forward@[other] implies one == other by {
                assert(kinds_of(b).contains(first.kind_forward@[one]));
                assert(kinds_of(b).contains(first.kind_forward@[other]));
            }
        }
        Ok(AxisRenaming { source, target, forward, inverse, kind_forward })
    }

    /// Returns the explicit source signature.
    pub fn source(&self) -> (source: &ConservationSignature)
        ensures
            *source == self.source_signature(),
    {
        &self.source
    }

    /// Returns the explicit target signature.
    pub fn target(&self) -> (target: &ConservationSignature)
        ensures
            *target == self.target_signature(),
    {
        &self.target
    }
}

impl Clone for AxisRenaming {
    fn clone(&self) -> (copy: Self)
        ensures
            copy.source_signature()@ == self.source_signature()@,
            copy.target_signature()@ == self.target_signature()@,
            copy.forward_map() == self.forward_map(),
            copy.inverse_map() == self.inverse_map(),
            copy.kind_map() == self.kind_map(),
    {
        proof {
            use_type_invariant(self);
        }
        AxisRenaming {
            source: self.source.duplicate(),
            target: self.target.duplicate(),
            forward: self.forward.duplicate(),
            inverse: self.inverse.duplicate(),
            kind_forward: self.kind_forward.duplicate(),
        }
    }
}

/// The map sending each key of `keys` to itself.
pub open spec fn identity_on(keys: Set<u64>) -> Map<u64, u64> {
    Map::new(|key: u64| keys.contains(key), |key: u64| key)
}

/// The map sending each key of `first` to the image, under `second`, of its
/// image under `first`.
pub open spec fn then(first: Map<u64, u64>, second: Map<u64, u64>) -> Map<u64, u64> {
    Map::new(|key: u64| first.dom().contains(key), |key: u64| second[first[key]])
}

/// The identity map on the keys of `keys`.
pub(crate) fn identity_of_keys<V>(keys: &SymbolMap<V>) -> (identity: SymbolMap<u64>)
    requires
        keys.well_formed(),
    ensures
        identity.well_formed(),
        identity@ == identity_on(keys@.dom()),
{
    proof {
        keys.lemma_view();
    }
    let mut identity: SymbolMap<u64> = SymbolMap::new();
    let mut index: usize = 0;
    while index < keys.len()
        invariant
            index <= keys.entries().len(),
            keys.well_formed(),
            identity.well_formed(),
            ascending(keys.entries()),
            identity@.dom() == Set::new(|key: u64| exists|i: int| 0 <= i < index && keys.entries()[i].0 == key),
            forall|key: u64| #[trigger] identity@.dom().contains(key) ==> identity@[key] == key,
        decreases keys.entries().len() - index,
    {
        let key = keys.entry(index).0;
        proof {
            assert(!identity@.dom().contains(key)) by {
                if identity@.dom().contains(key) {
                    let i = choose|i: int| 0 <= i < index && keys.entries()[i].0 == key;
                    assert(keys.entries()[i].0 < keys.entries()[index as int].0);
                }
            }
        }
        identity.insert_new(key, key);
        index = index + 1;
        proof {
            assert(identity@.dom() =~= Set::new(|k: u64| exists|i: int| 0 <= i < index && keys.entries()[i].0 == k)) by {
                assert forall|k: u64| identity@.dom().contains(k) implies exists|i: int| 0 <= i < index && keys.entries()[i].0 == k by {
                    if k == key {
                        assert(keys.entries()[index - 1].0 == k);
                    }
                }
            }
        }
    }
    proof {
        assert(identity@ =~= identity_on(keys@.dom()));
    }
    identity
}

/// The composite of two maps whose first lands inside the keys of the second.
pub(crate) fn compose_entries(first: &SymbolMap<u64>, second: &SymbolMap<u64>) -> (composite: SymbolMap<u64>)
    requires
        first.well_formed(),
        second.well_formed(),
        forall|key: u64| #[trigger] first@.dom().contains(key) ==> second@.dom().contains(first@[key]),
    ensures
        composite.well_formed(),
        composite@ == then(first@, second@),
{
    proof {
        first.lemma_view();
    }
    let mut composite: SymbolMap<u64> = SymbolMap::new();
    let mut index: usize = 0;
    while index < first.len()
        invariant
            index <= first.entries().len(),
            first.well_formed(),
            second.well_formed(),
            composite.well_formed(),
            ascending(first.entries()),
            forall|i: int| 0 <= i < first.entries().len() ==> #[trigger] first@[first.entries()[i].0] == first.entries()[i].1 && first@.dom().contains(first.entries()[i].0),
            forall|key: u64| #[trigger] first@.dom().contains(key) ==> second@.dom().contains(first@[key]),
            composite@.dom() == Set::new(|key: u64| exists|i: int| 0 <= i < index && first.entries()[i].0 == key),
            forall|key: u64| #[trigger] composite@.dom().contains(key) ==> composite@[key] == second@[first@[key]],
        decreases first.entries().len() - index,
    {
        let (key, middle) = *first.entry(index);
        proof {
            assert(first@[key] == middle);
            assert(!composite@.dom().contains(key)) by {
                if composite@.dom().contains(key) {
                    let i = choose|i: int| 0 <= i < index && first.entries()[i].0 == key;
                    assert(first.entries()[i].0 < first.entries()[index as int].0);
                }
            }
        }
        let image = match second.get(middle) {
            Some(image) => *image,
            None => {
                proof {
                    assert(false);
                }
                middle
            },
        };
        composite.insert_new(key, image);
        index = index + 1;
        proof {
            assert(composite@.dom() =~= Set::new(|k: u64| exists|i: int| 0 <= i < index && first.entries()[i].0 == k)) by {
                assert forall|k: u64| composite@.dom().contains(k) implies exists|i: int| 0 <= i < index && first.entries()[i].0 == k by {
                    if k == key {
                        assert(first.entries()[index - 1].0 == k);
                    }
                }
            }
        }
    }
    proof {
        assert forall|key: u64| first@.dom().contains(key) <==> composite@.dom().contains(key) by {
            if first@.dom().contains(key) {
                let i = choose|i: int| 0 <= i < first.entries().len() && first.entries()[i].0 == key;
                assert(composite@.dom().contains(first.entries()[i].0));
            }
        }
        assert(composite@ =~= then(first@, second@));
    }
    composite
}

/// One exact state of a trace: an amount for each of its axes.
#[derive(Debug, PartialEq, Eq)]
pub struct TraceState {
    values: SymbolMap<BigRational>,
}

impl View for TraceState {
    type V = Map<AxisId, BigRational>;

    /// The amount at each axis.
    closed spec fn view(&self) -> Map<AxisId, BigRational> {
        self.values@
    }
}

impl TraceState {
    /// Each axis is held once, in ascending order.
    #[verifier::type_invariant]
    pub closed spec fn well_formed(self) -> bool {
        self.values.well_formed()
    }

    /// Constructs a state from its amounts; no axis may occur twice.
    pub fn new(values: Vec<(AxisId, BigRational)>) -> (state: Result<Self, Error>)
        ensures
            match collect_entries(values@) {
                Err(axis) => state == Err::<Self, Error>(Error::DuplicateStateAxis(axis)),
                Ok(amounts) => state matches Ok(valid) && valid@ == amounts,
            },
    {
        match SymbolMap::from_entries(values) {
            Ok(values) => Ok(TraceState { values }),
            Err(axis) => Err(Error::DuplicateStateAxis(axis)),
        }
    }

    /// The axes of this state, in ascending order.
    pub fn axes(&self) -> (axes: Vec<AxisId>)
        ensures
            axes@.to_set() == self@.dom(),
            axes@.len() == self@.dom().len(),
            forall|i: int, j: int| 0 <= i < j < axes@.len() ==> axes@[i] < axes@[j],
    {
        proof {
            use_type_invariant(self);
            self.values.lemma_view();
        }
        let mut axes: Vec<AxisId> = Vec::new();
        let mut index: usize = 0;
        while index < self.values.len()
            invariant
                index <= self.values.entries().len(),
                axes@ == self.values.entries().take(index as int).map_values(
                    |entry: (AxisId, BigRational)| entry.0,
                ),
            decreases self.values.entries().len() - index,
        {
            axes.push(self.values.entry(index).0);
            index = index + 1;
            proof {
                assert(axes@ =~= self.values.entries().take(index as int).map_values(
                    |entry: (AxisId, BigRational)| entry.0,
                ));
            }
        }
        proof {
            assert(self.values.entries().take(index as int) =~= self.values.entries());
            assert(axes@.to_set() =~= self@.dom()) by {
                assert forall|axis: AxisId| axes@.to_set().contains(axis) implies self@.dom().contains(axis) by {
                    let i = choose|i: int| 0 <= i < axes@.len() && axes@[i] == axis;
                    assert(self.values.entries()[i].0 == axis);
                }
                assert forall|axis: AxisId| self@.dom().contains(axis) implies axes@.to_set().contains(axis) by {
                    let i = choose|i: int| 0 <= i < self.values.entries().len() && self.values.entries()[i].0 == axis;
                    assert(axes@[i] == axis);
                }
            }
        }
        axes
    }

    /// The amount at `axis`.
    pub fn value(&self, axis: AxisId) -> (value: Option<&BigRational>)
        ensures
            match value {
                Some(amount) => self@.dom().contains(axis) && *amount == self@[axis],
                None => !self@.dom().contains(axis),
            },
    {
        proof {
            use_type_invariant(self);
        }
        self.values.get(axis)
    }

    /// A copy of this state.
    pub fn duplicate(&self) -> (copy: Self)
        ensures
            copy@ == self@,
    {
        proof {
            use_type_invariant(self);
        }
        TraceState { values: copy_amounts(&self.values) }
    }
}

/// A copy of a map of exact amounts.
pub(crate) fn copy_amounts(amounts: &SymbolMap<BigRational>) -> (copy: SymbolMap<BigRational>)
    requires
        amounts.well_formed(),
    ensures
        copy.well_formed(),
        copy@ == amounts@,
        copy.entries() == amounts.entries(),
{
    proof {
        amounts.lemma_view();
    }
    let mut values: SymbolMap<BigRational> = SymbolMap::new();
    let mut index: usize = 0;
    while index < amounts.len()
        invariant
            index <= amounts.entries().len(),
            amounts.well_formed(),
            values.well_formed(),
            ascending(amounts.entries()),
            values@ == crate::symbol_map::map_of(amounts.entries().take(index as int)),
        decreases amounts.entries().len() - index,
    {
        let entry = amounts.entry(index);
        let amount = copy_rational(&entry.1);
        proof {
            let prefix = amounts.entries().take(index as int);
            crate::symbol_map::lemma_map_of_entries(prefix);
            assert(!values@.dom().contains(entry.0)) by {
                if values@.dom().contains(entry.0) {
                    let i = choose|i: int| 0 <= i < prefix.len() && prefix[i].0 == entry.0;
                    assert(amounts.entries()[i].0 < amounts.entries()[index as int].0);
                }
            }
            assert(amounts.entries().take(index + 1).drop_last() == prefix);
        }
        values.insert_new(entry.0, amount);
        index = index + 1;
    }
    proof {
        assert(amounts.entries().take(index as int) =~= amounts.entries());
        values.lemma_unique(*amounts);
    }
    values
}

impl Clone for TraceState {
    fn clone(&self) -> (copy: Self)
        ensures
            copy@ == self@,
    {
        self.duplicate()
    }
}

/// A validated model containing at least two exact trace states, each over
/// exactly the axes of the model's signature.
#[derive(Debug, PartialEq, Eq)]
pub struct TraceModel {
    signature: ConservationSignature,
    states: Vec<TraceState>,
}

impl TraceModel {
    /// At least two states, each over exactly the signature's axes.
    #[verifier::type_invariant]
    pub closed spec fn well_formed(self) -> bool {
        &&& self.states@.len() >= 2
        &&& forall|i: int| 0 <= i < self.states@.len() ==> (#[trigger] self.states@[i])@.dom()
            == self.signature@.dom()
    }

    /// A model has at least two states, each over its signature's axes.
    pub proof fn lemma_states(self)
        requires
            self.well_formed(),
        ensures
            self.state_views().len() >= 2,
            forall|i: int|
                0 <= i < self.state_views().len() ==> (#[trigger] self.state_views()[i]).dom()
                    == self.model_signature()@.dom(),
    {
        assert forall|i: int| 0 <= i < self.state_views().len() implies (#[trigger] self.state_views()[i]).dom()
            == self.model_signature()@.dom() by {
            assert(self.state_views()[i] == self.states@[i]@);
        }
    }

    /// The model's signature.
    pub closed spec fn model_signature(self) -> ConservationSignature {
        self.signature
    }

    /// The amounts of each state, in trace order.
    pub closed spec fn state_views(self) -> Seq<Map<AxisId, BigRational>> {
        self.states@.map_values(|state: TraceState| state@)
    }

    /// Constructs a model whose every state has exactly the signature's axes.
    pub fn new(signature: ConservationSignature, states: Vec<TraceState>) -> (model: Result<
        Self,
        Error,
    >)
        ensures
            states@.len() < 2 ==> model == Err::<Self, Error>(
                Error::TraceTooShort { states: states@.len() as usize },
            ),
            states@.len() >= 2 && (exists|i: int|
                0 <= i < states@.len() && (#[trigger] states@[i])@.dom() != signature@.dom())
                ==> model == Err::<Self, Error>(
                Error::ModelAxisSetMismatch {
                    state_index: first_mismatch(states@, signature@.dom()) as usize,
                },
            ),
            states@.len() >= 2 && (forall|i: int|
                0 <= i < states@.len() ==> (#[trigger] states@[i])@.dom() == signature@.dom())
                ==> (model matches Ok(valid) && valid.model_signature() == signature
                && valid.state_views() == states@.map_values(|state: TraceState| state@)),
    {
        if states.len() < 2 {
            return Err(Error::TraceTooShort { states: states.len() });
        }
        proof {
            use_type_invariant(&signature);
        }
        let mut index: usize = 0;
        while index < states.len()
            invariant
                index <= states@.len(),
                states@.len() >= 2,
                signature.well_formed(),
                forall|i: int| 0 <= i < index ==> (#[trigger] states@[i])@.dom() == signature@.dom(),
            decreases states@.len() - index,
        {
            let state = &states[index];
            proof {
                use_type_invariant(state);
            }
            if !crate::symbol_map::same_keys(&state.values, &signature.axes) {
                proof {
                    lemma_first_mismatch(states@, signature@.dom(), index as int);
                }
                return Err(Error::ModelAxisSetMismatch { state_index: index });
            }
            index = index + 1;
        }
        Ok(TraceModel { signature, states })
    }

    /// Returns the model's signature.
    pub fn signature(&self) -> (signature: &ConservationSignature)
        ensures
            *signature == self.model_signature(),
    {
        &self.signature
    }

    /// Returns the model's exact trace states.
    pub fn states(&self) -> (states: &[TraceState])
        ensures
            states@.map_values(|state: TraceState| state@) == self.state_views(),
    {
        self.states.as_slice()
    }
}

impl Clone for TraceModel {
    fn clone(&self) -> (copy: Self)
        ensures
            copy.model_signature()@ == self.model_signature()@,
            copy.state_views() == self.state_views(),
    {
        proof {
            use_type_invariant(self);
        }
        let mut states: Vec<TraceState> = Vec::new();
        let mut index: usize = 0;
        while index < self.states.len()
            invariant
                index <= self.states@.len(),
                states@.len() == index,
                forall|i: int| 0 <= i < index ==> (#[trigger] states@[i])@ == self.states@[i]@,
            decreases self.states@.len() - index,
        {
            states.push(self.states[index].duplicate());
            index = index + 1;
        }
        proof {
            assert(states@.map_values(|state: TraceState| state@) =~= self.state_views());
        }
        TraceModel { signature: self.signature.duplicate(), states }
    }
}

/// The first state of `states` whose axes are not `axes`.
pub open spec fn first_mismatch(states: Seq<TraceState>, axes: Set<AxisId>) -> int
    decreases states.len(),
{
    if states.len() == 0 {
        0
    } else if first_mismatch(states.drop_last(), axes) < states.len() - 1 {
        first_mismatch(states.drop_last(), axes)
    } else if states.last()@.dom() != axes {
        states.len() - 1
    } else {
        states.len() as int
    }
}

proof fn lemma_first_mismatch(states: Seq<TraceState>, axes: Set<AxisId>, index: int)
    requires
        0 <= index < states.len(),
        states[index]@.dom() != axes,
        forall|i: int| 0 <= i < index ==> (#[trigger] states[i])@.dom() == axes,
    ensures
        first_mismatch(states, axes) == index,
    decreases states.len(),
{
    if index < states.len() - 1 {
        lemma_first_mismatch(states.drop_last(), axes, index);
    } else {
        lemma_first_mismatch_none(states.drop_last(), axes);
    }
}

proof fn lemma_first_mismatch_none(states: Seq<TraceState>, axes: Set<AxisId>)
    requires
        forall|i: int| 0 <= i < states.len() ==> (#[trigger] states[i])@.dom() == axes,
    ensures
        first_mismatch(states, axes) == states.len(),
    decreases states.len(),
{
    if states.len() > 0 {
        lemma_first_mismatch_none(states.drop_last(), axes);
    }
}

/// How a balance law is read over a trace.
#[derive(Clone, Copy, Debug, PartialEq, Eq, Structural, Hash)]
pub enum Grade {
    /// The balance takes the same value in every state.
    Invariant,
    /// The balance is never negative.
    Nonnegative,
    /// The balance never decreases from one state to the next.
    Nondecreasing,
}

/// Where a balance law came from. Translation carries it unchanged and it
/// takes no part in satisfaction.
#[derive(Clone, Copy, Debug, PartialEq, Eq, Structural, Hash)]
pub enum Provenance {
    /// Stated by the user.
    Declared,
    /// Derived from the left nullspace of an incidence matrix.
    IncidenceNullspace,
    /// Derived from the left nullspace of a stoichiometric matrix.
    StoichiometricNullspace,
}

/// An exact linear form over axes of one kind: a coefficient for each of
/// its axes.
#[derive(Debug, PartialEq, Eq)]
pub struct BalanceLaw {
    kind: KindId,
    coefficients: SymbolMap<BigRational>,
    provenance: Provenance,
}

impl BalanceLaw {
    /// Each axis is held once, in ascending order.
    #[verifier::type_invariant]
    pub closed spec fn well_formed(self) -> bool {
        self.coefficients.well_formed()
    }

    /// The entries list the coefficient map, each axis once.
    pub proof fn lemma_entries(self)
        requires
            self.well_formed(),
        ensures
            forall|i: int|
                0 <= i < self.coefficient_entries().len() ==> #[trigger] self.coefficient_map()[self.coefficient_entries()[i].0]
                    == self.coefficient_entries()[i].1 && self.coefficient_map().dom().contains(
                    self.coefficient_entries()[i].0,
                ),
            forall|axis: AxisId|
                #![trigger self.coefficient_map().dom().contains(axis)]
                self.coefficient_map().dom().contains(axis) <==> exists|i: int|
                    0 <= i < self.coefficient_entries().len() && self.coefficient_entries()[i].0
                        == axis,
            self.coefficient_map().dom().finite(),
    {
        self.coefficients.lemma_view();
        assert forall|axis: AxisId| #![trigger self.coefficient_map().dom().contains(axis)]
            self.coefficient_map().dom().contains(axis) <==> exists|i: int|
                0 <= i < self.coefficient_entries().len() && self.coefficient_entries()[i].0
                    == axis by {
            if self.coefficients@.dom().contains(axis) {
                let i = choose|i: int|
                    0 <= i < self.coefficients.entries().len() && self.coefficients.entries()[i].0
                        == axis;
                assert(self.coefficient_entries()[i].0 == axis);
            }
        }
    }

    /// The kind of the form.
    pub closed spec fn spec_kind(self) -> KindId {
        self.kind
    }

    /// The coefficient of each axis.
    pub closed spec fn coefficient_map(self) -> Map<AxisId, BigRational> {
        self.coefficients@
    }

    /// The axes and coefficients, in ascending axis order.
    pub closed spec fn coefficient_entries(self) -> Seq<(AxisId, BigRational)> {
        self.coefficients.entries()
    }

    /// The provenance tag.
    pub closed spec fn spec_provenance(self) -> Provenance {
        self.provenance
    }

    /// Constructs a form of `kind` from its coefficients; no axis may occur
    /// twice.
    pub fn new(kind: KindId, coefficients: Vec<(AxisId, BigRational)>, provenance: Provenance) -> (law:
        Result<Self, Error>)
        ensures
            match collect_entries(coefficients@) {
                Err(axis) => law == Err::<Self, Error>(Error::DuplicateLawAxis(axis)),
                Ok(map) => law matches Ok(valid) && valid.spec_kind() == kind
                    && valid.coefficient_map() == map && valid.spec_provenance() == provenance,
            },
    {
        match SymbolMap::from_entries(coefficients) {
            Ok(coefficients) => Ok(BalanceLaw { kind, coefficients, provenance }),
            Err(axis) => Err(Error::DuplicateLawAxis(axis)),
        }
    }

    /// The form of `kind` with the coefficients of `coefficients`.
    pub(crate) fn from_map(kind: KindId, coefficients: SymbolMap<BigRational>, provenance: Provenance) -> (law:
        Self)
        requires
            coefficients.well_formed(),
        ensures
            law.spec_kind() == kind,
            law.coefficient_map() == coefficients@,
            law.spec_provenance() == provenance,
    {
        BalanceLaw { kind, coefficients, provenance }
    }

    /// The kind of the form.
    pub fn kind(&self) -> (kind: KindId)
        ensures
            kind == self.spec_kind(),
    {
        self.kind
    }

    /// The axes and coefficients, in ascending axis order.
    pub fn coefficients(&self) -> (coefficients: &SymbolMap<BigRational>)
        ensures
            coefficients@ == self.coefficient_map(),
            coefficients.entries() == self.coefficient_entries(),
            coefficients.well_formed(),
    {
        proof {
            use_type_invariant(self);
        }
        &self.coefficients
    }

    /// The coefficient of `axis`, if the form reads it.
    pub fn coefficient(&self, axis: AxisId) -> (coefficient: Option<&BigRational>)
        ensures
            match coefficient {
                Some(found) => self.coefficient_map().dom().contains(axis) && *found
                    == self.coefficient_map()[axis],
                None => !self.coefficient_map().dom().contains(axis),
            },
    {
        proof {
            use_type_invariant(self);
        }
        self.coefficients.get(axis)
    }

    /// The provenance tag.
    pub fn provenance(&self) -> (provenance: Provenance)
        ensures
            provenance == self.spec_provenance(),
    {
        self.provenance
    }
}

impl Clone for BalanceLaw {
    fn clone(&self) -> (copy: Self)
        ensures
            copy.spec_kind() == self.spec_kind(),
            copy.coefficient_map() == self.coefficient_map(),
            copy.coefficient_entries() == self.coefficient_entries(),
            copy.spec_provenance() == self.spec_provenance(),
    {
        proof {
            use_type_invariant(self);
        }
        BalanceLaw {
            kind: self.kind,
            coefficients: copy_amounts(&self.coefficients),
            provenance: self.provenance,
        }
    }
}

/// A balance law with the grade that says how it is read.
#[derive(Debug, PartialEq, Eq)]
pub struct GradedLaw {
    law: BalanceLaw,
    grade: Grade,
}

impl GradedLaw {
    /// The linear form.
    pub closed spec fn spec_form(self) -> BalanceLaw {
        self.law
    }

    /// The grade.
    pub closed spec fn spec_grade(self) -> Grade {
        self.grade
    }

    /// Grades `law`.
    pub fn new(law: BalanceLaw, grade: Grade) -> (graded: Self)
        ensures
            graded.spec_form() == law,
            graded.spec_grade() == grade,
    {
        GradedLaw { law, grade }
    }

    /// The linear form.
    pub fn form(&self) -> (form: &BalanceLaw)
        ensures
            *form == self.spec_form(),
    {
        &self.law
    }

    /// The grade.
    pub fn grade(&self) -> (grade: Grade)
        ensures
            grade == self.spec_grade(),
    {
        self.grade
    }
}

impl Clone for GradedLaw {
    fn clone(&self) -> (copy: Self)
        ensures
            copy.spec_form().spec_kind() == self.spec_form().spec_kind(),
            copy.spec_form().coefficient_map() == self.spec_form().coefficient_map(),
            copy.spec_form().coefficient_entries() == self.spec_form().coefficient_entries(),
            copy.spec_form().spec_provenance() == self.spec_form().spec_provenance(),
            copy.spec_grade() == self.spec_grade(),
    {
        GradedLaw { law: self.law.clone(), grade: self.grade }
    }
}

/// The outcome of deciding a law over a trace.
#[derive(Clone, Copy, Debug, PartialEq, Eq, Structural)]
pub enum LawVerdict {
    /// The trace satisfies the law.
    Satisfied,
    /// The trace violates the law.
    Violated,
}

/// Malformed trace structure met while deciding a law.
#[derive(Clone, Copy, Debug, PartialEq, Eq, Structural)]
pub enum TraceError {
    /// A state lacked an axis the law reads.
    MissingAxis { state_index: usize, axis: AxisId },
}

/// Whether the form of kind `kind` with axis entries `entries` belongs to
/// `signature`: every axis is in the signature with the form's kind; the
/// first offending axis, in order, is reported.
pub open spec fn sentence_outcome(
    signature: Map<AxisId, KindId>,
    kind: KindId,
    entries: Seq<(AxisId, BigRational)>,
) -> Result<(), Error>
    decreases entries.len(),
{
    if entries.len() == 0 {
        Ok(())
    } else {
        match sentence_outcome(signature, kind, entries.drop_last()) {
            Err(error) => Err(error),
            Ok(()) => {
                let axis = entries.last().0;
                if !signature.dom().contains(axis) {
                    Err(Error::SentenceAxisOutsideSignature(axis))
                } else if kind != signature[axis] {
                    Err(
                        Error::SentenceKindMismatch {
                            axis,
                            sentence_kind: kind,
                            signature_kind: signature[axis],
                        },
                    )
                } else {
                    Ok(())
                }
            },
        }
    }
}

proof fn lemma_sentence_outcome_error_persists(
    signature: Map<AxisId, KindId>,
    kind: KindId,
    entries: Seq<(AxisId, BigRational)>,
    i: int,
    j: int,
)
    requires
        0 <= i <= j <= entries.len(),
        sentence_outcome(signature, kind, entries.take(i)) is Err,
    ensures
        sentence_outcome(signature, kind, entries.take(j)) == sentence_outcome(
            signature,
            kind,
            entries.take(i),
        ),
    decreases j - i,
{
    if i < j {
        lemma_sentence_outcome_error_persists(signature, kind, entries, i, j - 1);
        assert(entries.take(j).drop_last() == entries.take(j - 1));
    }
}

/// A form belongs to a signature exactly when every one of its axes is in
/// the signature with the form's kind.
pub proof fn lemma_sentence_outcome_ok(
    signature: Map<AxisId, KindId>,
    kind: KindId,
    entries: Seq<(AxisId, BigRational)>,
)
    ensures
        sentence_outcome(signature, kind, entries) is Ok <==> forall|i: int|
            0 <= i < entries.len() ==> signature.dom().contains(#[trigger] entries[i].0)
                && signature[entries[i].0] == kind,
    decreases entries.len(),
{
    if entries.len() > 0 {
        lemma_sentence_outcome_ok(signature, kind, entries.drop_last());
        assert forall|i: int| 0 <= i < entries.len() - 1 implies entries.drop_last()[i] == entries[i] by {}
    }
}

/// Whether `sentence` belongs to `signature`.
pub open spec fn sentence_check(signature: Map<AxisId, KindId>, sentence: GradedLaw) -> Result<
    (),
    Error,
> {
    sentence_outcome(
        signature,
        sentence.spec_form().spec_kind(),
        sentence.spec_form().coefficient_entries(),
    )
}

/// The coefficients of a form over target axes whose source form has
/// `coefficients`, for a renaming whose inverse is `inverse`.
pub open spec fn renamed(
    coefficients: Map<AxisId, BigRational>,
    inverse: Map<AxisId, AxisId>,
) -> Map<AxisId, BigRational> {
    Map::new(
        |axis: AxisId| inverse.dom().contains(axis) && coefficients.dom().contains(inverse[axis]),
        |axis: AxisId| coefficients[inverse[axis]],
    )
}

/// The amounts of a state over source axes reduced from a target state with
/// `amounts` along a renaming whose forward map is `forward`.
pub open spec fn pulled_back(
    amounts: Map<AxisId, BigRational>,
    forward: Map<AxisId, AxisId>,
) -> Map<AxisId, BigRational> {
    Map::new(|axis: AxisId| forward.dom().contains(axis), |axis: AxisId| amounts[forward[axis]])
}

/// The kind and coefficients of the translation of `sentence` along
/// `morphism`, or the first error: the sentence must belong to the source
/// signature and its kind must be mapped.
pub open spec fn translation_outcome(morphism: AxisRenaming, sentence: GradedLaw) -> Result<
    (KindId, Map<AxisId, BigRational>),
    Error,
> {
    match sentence_check(morphism.source_signature()@, sentence) {
        Err(error) => Err(error),
        Ok(()) => if !morphism.kind_map().dom().contains(sentence.spec_form().spec_kind()) {
            Err(Error::KindMappingSourceOutsideSignature(sentence.spec_form().spec_kind()))
        } else {
            Ok(
                (
                    morphism.kind_map()[sentence.spec_form().spec_kind()],
                    renamed(sentence.spec_form().coefficient_map(), morphism.inverse_map()),
                ),
            )
        },
    }
}

/// Whether `translated` is what [`translation_outcome`] describes, keeping
/// the provenance and grade of `sentence`.
pub open spec fn translation_reports(
    translated: Result<GradedLaw, Error>,
    morphism: AxisRenaming,
    sentence: GradedLaw,
) -> bool {
    match translation_outcome(morphism, sentence) {
        Err(error) => translated == Err::<GradedLaw, Error>(error),
        Ok((kind, coefficients)) => translated matches Ok(law) && law.spec_form().spec_kind()
            == kind && law.spec_form().coefficient_map() == coefficients
            && law.spec_form().spec_provenance() == sentence.spec_form().spec_provenance()
            && law.spec_grade() == sentence.spec_grade(),
    }
}

/// Whether `reduced` is the reduct of `model` along `morphism`: the model
/// must be over the morphism's target; the reduct is over its source, with
/// each state pulled back along the forward map.
pub open spec fn reduct_reports(
    reduced: Result<TraceModel, Error>,
    morphism: AxisRenaming,
    model: TraceModel,
) -> bool {
    if model.model_signature()@ != morphism.target_signature()@ {
        reduced == Err::<TraceModel, Error>(Error::ModelSignatureMismatch)
    } else {
        reduced matches Ok(valid) && valid.model_signature()@ == morphism.source_signature()@
            && valid.state_views() == model.state_views().map_values(
            |amounts: Map<AxisId, BigRational>| pulled_back(amounts, morphism.forward_map()),
        )
    }
}

/// The satisfaction of `sentence` by `model` over `signature` once the law
/// has been decided as `verdict`: the model must be over the signature and
/// the sentence must belong to it; a failed decision is a trace error.
pub open spec fn satisfaction_outcome(
    signature: ConservationSignature,
    model: TraceModel,
    sentence: GradedLaw,
    verdict: Result<LawVerdict, TraceError>,
) -> Result<bool, Error> {
    if model.model_signature()@ != signature@ {
        Err(Error::ModelSignatureMismatch)
    } else {
        match sentence_check(signature@, sentence) {
            Err(error) => Err(error),
            Ok(()) => match verdict {
                Ok(LawVerdict::Satisfied) => Ok(true),
                Ok(LawVerdict::Violated) => Ok(false),
                Err(error) => Err(Error::Trace(error)),
            },
        }
    }
}

/// The coefficients of a form moved from each source axis to its image
/// under `morphism`.
fn rename_coefficients(coefficients: &SymbolMap<BigRational>, morphism: &AxisRenaming) -> (moved:
    SymbolMap<BigRational>)
    requires
        coefficients.well_formed(),
        coefficients@.dom().subset_of(morphism.source_signature()@.dom()),
    ensures
        moved.well_formed(),
        moved@ == renamed(coefficients@, morphism.inverse_map()),
{
    proof {
        use_type_invariant(morphism);
        coefficients.lemma_view();
    }
    let ghost source = morphism.source@;
    let ghost target = morphism.target@;
    let ghost inverse = morphism.inverse@;
    let ghost entries = coefficients.entries();
    let mut moved: SymbolMap<BigRational> = SymbolMap::new();
    let mut index: usize = 0;
    while index < coefficients.len()
        invariant
            index <= entries.len(),
            entries == coefficients.entries(),
            coefficients.well_formed(),
            ascending(entries),
            forall|i: int|
                0 <= i < entries.len() ==> #[trigger] coefficients@.dom().contains(entries[i].0),
            coefficients@.dom().subset_of(source.dom()),
            source == morphism.source@,
            target == morphism.target@,
            inverse == morphism.inverse@,
            morphism.forward.well_formed(),
            is_renaming(source, target, morphism.forward@, inverse, morphism.kind_forward@),
            moved.well_formed(),
            moved@ == renamed(crate::symbol_map::map_of(entries.take(index as int)), inverse),
        decreases entries.len() - index,
    {
        let entry = coefficients.entry(index);
        let axis = entry.0;
        proof {
            assert(coefficients@.dom().contains(entries[index as int].0));
        }
        let image = *morphism.forward.get(axis).unwrap();
        let amount = copy_rational(&entry.1);
        proof {
            let prefix = entries.take(index as int);
            let before = crate::symbol_map::map_of(prefix);
            crate::symbol_map::lemma_map_of_entries(prefix);
            assert(entries.take(index + 1).drop_last() == prefix);
            assert(entries.take(index + 1).last() == *entry);
            assert(!before.dom().contains(axis)) by {
                if before.dom().contains(axis) {
                    let i = choose|i: int| 0 <= i < prefix.len() && prefix[i].0 == axis;
                    assert(entries[i].0 < entries[index as int].0);
                }
            }
            assert(inverse[image] == axis);
            let after = crate::symbol_map::map_of(entries.take(index + 1));
            assert(after == before.insert(axis, entry.1));
            assert(renamed(after, inverse) =~= renamed(before, inverse).insert(image, amount)) by {
                assert forall|t: AxisId| #[trigger] renamed(after, inverse).dom().contains(t)
                    implies renamed(before, inverse).insert(image, amount).dom().contains(t) by {
                    if inverse[t] == axis {
                        assert(morphism.forward@[inverse[t]] == t);
                    }
                }
            }
        }
        moved.insert_new(image, amount);
        index = index + 1;
    }
    proof {
        assert(entries.take(index as int) == entries);
    }
    moved
}

/// The amounts of `state` read back onto the source axes of `morphism`:
/// each source axis takes the amount of its image.
fn pull_back_state(state: &TraceState, morphism: &AxisRenaming) -> (pulled: TraceState)
    requires
        state@.dom() == morphism.target_signature()@.dom(),
    ensures
        pulled@ == pulled_back(state@, morphism.forward_map()),
{
    proof {
        use_type_invariant(morphism);
        use_type_invariant(state);
        morphism.forward.lemma_view();
    }
    let ghost forward = morphism.forward@;
    let ghost entries = morphism.forward.entries();
    let mut values: SymbolMap<BigRational> = SymbolMap::new();
    let mut index: usize = 0;
    while index < morphism.forward.len()
        invariant
            index <= entries.len(),
            entries == morphism.forward.entries(),
            forward == morphism.forward@,
            ascending(entries),
            forall|i: int|
                0 <= i < entries.len() ==> #[trigger] forward[entries[i].0] == entries[i].1
                    && forward.dom().contains(entries[i].0),
            forall|axis: AxisId|
                #![trigger forward.dom().contains(axis)]
                forward.dom().contains(axis) <==> exists|i: int|
                    0 <= i < entries.len() && entries[i].0 == axis,
            is_renaming(
                morphism.source@,
                morphism.target@,
                forward,
                morphism.inverse@,
                morphism.kind_forward@,
            ),
            state.values.well_formed(),
            state@.dom() == morphism.target@.dom(),
            values.well_formed(),
            values@ == pulled_back(state@, crate::symbol_map::map_of(entries.take(index as int))),
        decreases entries.len() - index,
    {
        let (axis, image) = *morphism.forward.entry(index);
        proof {
            assert(forward[axis] == image && forward.dom().contains(axis));
        }
        let amount = copy_rational(state.values.get(image).unwrap());
        proof {
            let prefix = entries.take(index as int);
            let before = crate::symbol_map::map_of(prefix);
            crate::symbol_map::lemma_map_of_entries(prefix);
            assert(entries.take(index + 1).drop_last() == prefix);
            assert(entries.take(index + 1).last() == (axis, image));
            assert(!before.dom().contains(axis)) by {
                if before.dom().contains(axis) {
                    let i = choose|i: int| 0 <= i < prefix.len() && prefix[i].0 == axis;
                    assert(entries[i].0 < entries[index as int].0);
                }
            }
            let after = crate::symbol_map::map_of(entries.take(index + 1));
            assert(after == before.insert(axis, image));
            assert(pulled_back(state@, after) =~= pulled_back(state@, before).insert(axis, amount));
        }
        values.insert_new(axis, amount);
        index = index + 1;
    }
    proof {
        assert(entries.take(index as int) == entries);
        crate::symbol_map::lemma_map_of_entries(entries);
        assert(crate::symbol_map::map_of(entries) =~= forward) by {
            assert forall|axis: AxisId| #[trigger] forward.dom().contains(axis) implies crate::symbol_map::map_of(entries)[axis] == forward[axis] by {
                let i = choose|i: int| 0 <= i < entries.len() && entries[i].0 == axis;
            }
        }
    }
    TraceState { values }
}

/// The executable institution of exact balance laws and finite traces.
#[derive(Clone, Copy, Debug, PartialEq, Eq, Structural, Default)]
pub struct ConservationInstitution;

impl ConservationInstitution {
    /// The institution.
    pub fn new() -> (institution: Self) {
        ConservationInstitution
    }

    fn validate_sentence(signature: &ConservationSignature, sentence: &GradedLaw) -> (valid: Result<
        (),
        Error,
    >)
        ensures
            valid == sentence_check(signature@, *sentence),
    {
        let form = &sentence.law;
        proof {
            use_type_invariant(form);
        }
        let entries = &form.coefficients;
        let mut index: usize = 0;
        while index < entries.len()
            invariant
                index <= entries.entries().len(),
                *entries == sentence.spec_form().coefficients,
                *form == sentence.spec_form(),
                sentence_outcome(signature@, form.kind, entries.entries().take(index as int))
                    == Ok::<(), Error>(()),
            decreases entries.entries().len() - index,
        {
            let axis = entries.entry(index).0;
            proof {
                assert(entries.entries().take(index + 1).drop_last() == entries.entries().take(
                    index as int,
                ));
                assert(entries.entries().take(index + 1).last().0 == axis);
            }
            let failure = match signature.kind(axis) {
                None => Some(Error::SentenceAxisOutsideSignature(axis)),
                Some(signature_kind) => if form.kind != signature_kind {
                    Some(
                        Error::SentenceKindMismatch {
                            axis,
                            sentence_kind: form.kind,
                            signature_kind,
                        },
                    )
                } else {
                    None
                },
            };
            match failure {
                Some(error) => {
                    proof {
                        lemma_sentence_outcome_error_persists(
                            signature@,
                            form.kind,
                            entries.entries(),
                            index + 1,
                            entries.entries().len() as int,
                        );
                        assert(entries.entries().take(entries.entries().len() as int)
                            == entries.entries());
                    }
                    return Err(error);
                },
                None => {},
            }
            index = index + 1;
        }
        proof {
            assert(entries.entries().take(entries.entries().len() as int) == entries.entries());
        }
        Ok(())
    }

    /// Translates `sentence` along `morphism`: the sentence must belong to
    /// the morphism's source; its kind and axes are carried to their images,
    /// and its coefficients, provenance and grade are kept.
    pub fn translate_sentence(&self, morphism: &AxisRenaming, sentence: &GradedLaw) -> (translated:
        Result<GradedLaw, Error>)
        ensures
            translation_reports(translated, *morphism, *sentence),
    {
        proof {
            use_type_invariant(morphism);
        }
        match Self::validate_sentence(&morphism.source, sentence) {
            Err(error) => return Err(error),
            Ok(()) => {},
        }
        let form = &sentence.law;
        proof {
            use_type_invariant(form);
        }
        let target_kind = match morphism.kind_forward.get(form.kind) {
            Some(kind) => *kind,
            None => return Err(Error::KindMappingSourceOutsideSignature(form.kind)),
        };
        proof {
            form.coefficients.lemma_view();
            lemma_sentence_outcome_ok(
                morphism.source@,
                form.kind,
                form.coefficients.entries(),
            );
            assert forall|axis: AxisId| #[trigger] form.coefficients@.dom().contains(axis) implies morphism.source@.dom().contains(axis) by {
                let i = choose|i: int| 0 <= i < form.coefficients.entries().len() && form.coefficients.entries()[i].0 == axis;
                assert(morphism.source@.dom().contains(form.coefficients.entries()[i].0));
            }
        }
        let coefficients = rename_coefficients(&form.coefficients, morphism);
        let law = BalanceLaw { kind: target_kind, coefficients, provenance: form.provenance };
        Ok(GradedLaw { law, grade: sentence.grade })
    }

    /// The reduct of `model` along `morphism`: the model must be over the
    /// morphism's target; each of its states is read back onto the source
    /// axes, in trace order.
    pub fn reduct(&self, morphism: &AxisRenaming, model: &TraceModel) -> (reduced: Result<
        TraceModel,
        Error,
    >)
        ensures
            reduct_reports(reduced, *morphism, *model),
    {
        proof {
            use_type_invariant(morphism);
            use_type_invariant(model);
        }
        if !model.signature.same_as(&morphism.target) {
            return Err(Error::ModelSignatureMismatch);
        }
        let mut states: Vec<TraceState> = Vec::new();
        let mut index: usize = 0;
        while index < model.states.len()
            invariant
                index <= model.states@.len(),
                states@.len() == index,
                model.well_formed(),
                model.signature@ == morphism.target@,
                is_renaming(
                    morphism.source@,
                    morphism.target@,
                    morphism.forward@,
                    morphism.inverse@,
                    morphism.kind_forward@,
                ),
                forall|i: int|
                    0 <= i < index ==> (#[trigger] states@[i])@ == pulled_back(
                        model.states@[i]@,
                        morphism.forward@,
                    ),
            decreases model.states@.len() - index,
        {
            assert(model.states@[index as int]@.dom() == model.signature@.dom());
            let pulled = pull_back_state(&model.states[index], morphism);
            states.push(pulled);
            index = index + 1;
        }
        let signature = morphism.source.duplicate();
        proof {
            assert forall|i: int| 0 <= i < states@.len() implies (#[trigger] states@[i])@.dom()
                == signature@.dom() by {
                assert(states@[i]@.dom() =~= morphism.forward@.dom());
            }
            assert(states@.map_values(|state: TraceState| state@) =~= model.state_views().map_values(
                |amounts: Map<AxisId, BigRational>| pulled_back(amounts, morphism.forward_map()),
            ));
        }
        Ok(TraceModel { signature, states })
    }

    /// Checks what deciding `sentence` over `model` at `signature` needs: the
    /// model must be over the signature and the sentence must belong to it,
    /// checked in that order. A failure here is the answer of
    /// [`Self::satisfies_with`] whatever the verdict.
    pub fn check_satisfaction_inputs(
        &self,
        signature: &ConservationSignature,
        model: &TraceModel,
        sentence: &GradedLaw,
    ) -> (checked: Result<(), Error>)
        ensures
            checked == (if model.model_signature()@ != signature@ {
                Err(Error::ModelSignatureMismatch)
            } else {
                sentence_check(signature@, *sentence)
            }),
            checked matches Err(error) ==> forall|verdict: Result<LawVerdict, TraceError>|
                #[trigger] satisfaction_outcome(*signature, *model, *sentence, verdict) == Err::<
                    bool,
                    Error,
                >(error),
    {
        if !model.signature.same_as(signature) {
            return Err(Error::ModelSignatureMismatch);
        }
        Self::validate_sentence(signature, sentence)
    }

    /// Whether `model` satisfies `sentence` over `signature`, given `verdict`,
    /// the decision of the law over the model's states: the model must be
    /// over the signature and the sentence must belong to it, checked in
    /// that order, and a failed decision is reported as a trace error.
    pub fn satisfies_with(
        &self,
        signature: &ConservationSignature,
        model: &TraceModel,
        sentence: &GradedLaw,
        verdict: Result<LawVerdict, TraceError>,
    ) -> (satisfied: Result<bool, Error>)
        ensures
            satisfied == satisfaction_outcome(*signature, *model, *sentence, verdict),
    {
        match self.check_satisfaction_inputs(signature, model, sentence) {
            Err(error) => Err(error),
            Ok(()) => match verdict {
                Ok(LawVerdict::Satisfied) => Ok(true),
                Ok(LawVerdict::Violated) => Ok(false),
                Err(error) => Err(Error::Trace(error)),
            },
        }
    }

    /// Returns the source signature of `morphism`.
    pub fn source<'a>(&self, morphism: &'a AxisRenaming) -> (signature: &'a ConservationSignature)
        ensures
            *signature == morphism.source_signature(),
    {
        morphism.source()
    }

    /// Returns the target signature of `morphism`.
    pub fn target<'a>(&self, morphism: &'a AxisRenaming) -> (signature: &'a ConservationSignature)
        ensures
            *signature == morphism.target_signature(),
    {
        morphism.target()
    }

    /// The identity renaming of `signature`.
    pub fn identity(&self, signature: &ConservationSignature) -> (renaming: Result<
        AxisRenaming,
        Error,
    >)
        ensures
            renaming matches Ok(valid) && valid.source_signature()@ == signature@
                && valid.target_signature()@ == signature@ && valid.forward_map() == identity_on(
                signature@.dom(),
            ) && valid.inverse_map() == identity_on(signature@.dom()) && valid.kind_map()
                == identity_on(kinds_of(signature@)),
    {
        AxisRenaming::identity(signature)
    }

    /// Composes `first: A -> B` with `second: B -> C`, producing `A -> C`.
    pub fn compose(&self, first: &AxisRenaming, second: &AxisRenaming) -> (composite: Result<
        AxisRenaming,
        Error,
    >)
        ensures
            first.target_signature()@ != second.source_signature()@ ==> composite == Err::<
                AxisRenaming,
                Error,
            >(Error::NonComposableRenamings),
            first.target_signature()@ == second.source_signature()@ ==> (composite matches Ok(valid)
                && valid.source_signature()@ == first.source_signature()@
                && valid.target_signature()@ == second.target_signature()@ && valid.forward_map()
                == then(first.forward_map(), second.forward_map()) && valid.inverse_map() == then(
                second.inverse_map(),
                first.inverse_map(),
            ) && valid.kind_map() == then(first.kind_map(), second.kind_map())),
    {
        AxisRenaming::compose(first, second)
    }
}

/// Errors produced by validated construction and institution operations.
#[derive(Clone, Debug, PartialEq, Eq)]
#[non_exhaustive]
pub enum Error {
    /// A signature was empty.
    EmptySignature,
    /// A signature repeated an axis.
    DuplicateSignatureAxis(AxisId),
    /// A mapping source did not belong to the source signature.
    RenamingSourceAxisOutsideSignature(AxisId),
    /// A mapping target did not belong to the target signature.
    RenamingTargetAxisOutsideSignature(AxisId),
    /// A source axis occurred more than once in a mapping input.
    DuplicateSourceAxis(AxisId),
    /// A target axis had more than one preimage.
    DuplicateTargetAxis(AxisId),
    /// A kind-map source was outside the source signature.
    KindMappingSourceOutsideSignature(KindId),
    /// A kind-map target was outside the target signature.
    KindMappingTargetOutsideSignature(KindId),
    /// An identical source-kind mapping was supplied more than once.
    DuplicateSourceKind(KindId),
    /// A target kind had more than one source-kind preimage.
    DuplicateTargetKind(KindId),
    /// One source kind was assigned two different target kinds.
    ConflictingKindMapping { source_kind: KindId, first_target: KindId, second_target: KindId },
    /// Not every distinct source kind was mapped.
    IncompleteKindRenaming { mapped: usize, source_kinds: usize },
    /// The kind-map image did not cover the target kinds exactly.
    NonBijectiveKindRenaming { mapped_targets: usize, target_kinds: usize },
    /// An axis mapping disagreed with the validated kind-symbol mapping.
    AxisKindMappingMismatch {
        source_axis: AxisId,
        target_axis: AxisId,
        mapped_kind: KindId,
        target_kind: KindId,
    },
    /// Not every source axis was mapped.
    IncompleteRenaming { mapped: usize, source_axes: usize },
    /// The mapped targets did not cover the target signature exactly.
    NonBijectiveRenaming { mapped_targets: usize, target_axes: usize },
    /// Two signature renamings did not share the required middle signature.
    NonComposableRenamings,
    /// A trace model had fewer than two states.
    TraceTooShort { states: usize },
    /// A trace state's exact axis set differed from its model signature.
    ModelAxisSetMismatch { state_index: usize },
    /// A model was used with a different signature.
    ModelSignatureMismatch,
    /// A sentence referenced an axis outside its operation signature.
    SentenceAxisOutsideSignature(AxisId),
    /// A sentence's kind differed from the signature kind at an axis.
    SentenceKindMismatch { axis: AxisId, sentence_kind: KindId, signature_kind: KindId },
    /// A trace state repeated an axis.
    DuplicateStateAxis(AxisId),
    /// A balance law repeated an axis.
    DuplicateLawAxis(AxisId),
    /// Deciding a law met malformed trace structure.
    Trace(TraceError),
}

} // verus!
