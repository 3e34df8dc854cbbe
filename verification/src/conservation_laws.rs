//! Laws of the conservation institution.
//!
//! Axis renamings form a category under identity and composition; sentence
//! translation and model reduct respect identities and composites; and
//! translating a law along a renaming pairs every term of its balance over a
//! target state with a term of the source law over the reduced state, so that
//! the two satisfaction questions are the same question.
use num_rational::BigRational;
use vstd::prelude::*;

use crate::conservation::{
    AxisId, AxisRenaming, ConservationSignature, GradedLaw, LawVerdict, TraceError, TraceModel, identity_on, kinds_of,
    lemma_sentence_outcome_ok, pulled_back, reduct_reports, renamed, satisfaction_outcome,
    sentence_check, then, translation_outcome, translation_reports,
};

verus! {

/// Composing the identity of a renaming's source with the renaming gives back
/// its forward, inverse and kind maps.
pub proof fn lemma_renaming_left_identity(renaming: AxisRenaming)
    requires
        renaming.well_formed(),
    ensures
        then(identity_on(renaming.source_signature()@.dom()), renaming.forward_map())
            == renaming.forward_map(),
        then(renaming.inverse_map(), identity_on(renaming.source_signature()@.dom()))
            == renaming.inverse_map(),
        then(identity_on(kinds_of(renaming.source_signature()@)), renaming.kind_map())
            == renaming.kind_map(),
{
    renaming.lemma_renaming();
    assert(then(identity_on(renaming.source_signature()@.dom()), renaming.forward_map())
        =~= renaming.forward_map());
    assert(then(renaming.inverse_map(), identity_on(renaming.source_signature()@.dom()))
        =~= renaming.inverse_map());
    assert(then(identity_on(kinds_of(renaming.source_signature()@)), renaming.kind_map())
        =~= renaming.kind_map());
}

/// Composing a renaming with the identity of its target gives back its
/// forward, inverse and kind maps.
pub proof fn lemma_renaming_right_identity(renaming: AxisRenaming)
    requires
        renaming.well_formed(),
    ensures
        then(renaming.forward_map(), identity_on(renaming.target_signature()@.dom()))
            == renaming.forward_map(),
        then(identity_on(renaming.target_signature()@.dom()), renaming.inverse_map())
            == renaming.inverse_map(),
        then(renaming.kind_map(), identity_on(kinds_of(renaming.target_signature()@)))
            == renaming.kind_map(),
{
    renaming.lemma_renaming();
    assert(then(renaming.forward_map(), identity_on(renaming.target_signature()@.dom()))
        =~= renaming.forward_map());
    assert(then(identity_on(renaming.target_signature()@.dom()), renaming.inverse_map())
        =~= renaming.inverse_map());
    assert(then(renaming.kind_map(), identity_on(kinds_of(renaming.target_signature()@)))
        =~= renaming.kind_map());
}

/// For renamings `first: A -> B`, `second: B -> C` and `third: C -> D`, the
/// two ways of composing all three have the same maps.
pub proof fn lemma_renaming_associativity(
    first: AxisRenaming,
    second: AxisRenaming,
    third: AxisRenaming,
)
    requires
        first.well_formed(),
        second.well_formed(),
        third.well_formed(),
        first.target_signature()@ == second.source_signature()@,
        second.target_signature()@ == third.source_signature()@,
    ensures
        then(then(first.forward_map(), second.forward_map()), third.forward_map()) == then(
            first.forward_map(),
            then(second.forward_map(), third.forward_map()),
        ),
        then(then(third.inverse_map(), second.inverse_map()), first.inverse_map()) == then(
            third.inverse_map(),
            then(second.inverse_map(), first.inverse_map()),
        ),
        then(then(first.kind_map(), second.kind_map()), third.kind_map()) == then(
            first.kind_map(),
            then(second.kind_map(), third.kind_map()),
        ),
{
    first.lemma_renaming();
    second.lemma_renaming();
    third.lemma_renaming();
    assert(then(then(first.forward_map(), second.forward_map()), third.forward_map()) =~= then(
        first.forward_map(),
        then(second.forward_map(), third.forward_map()),
    ));
    assert(then(then(third.inverse_map(), second.inverse_map()), first.inverse_map()) =~= then(
        third.inverse_map(),
        then(second.inverse_map(), first.inverse_map()),
    ));
    assert(then(then(first.kind_map(), second.kind_map()), third.kind_map()) =~= then(
        first.kind_map(),
        then(second.kind_map(), third.kind_map()),
    ));
}

/// A sentence that belongs to a signature, with a kind of that signature,
/// translates along the identity renaming to itself.
pub proof fn lemma_translation_identity(identity: AxisRenaming, sentence: GradedLaw)
    requires
        identity.well_formed(),
        sentence.spec_form().well_formed(),
        identity.forward_map() == identity_on(identity.source_signature()@.dom()),
        identity.inverse_map() == identity_on(identity.source_signature()@.dom()),
        identity.kind_map() == identity_on(kinds_of(identity.source_signature()@)),
        sentence_check(identity.source_signature()@, sentence) is Ok,
        kinds_of(identity.source_signature()@).contains(sentence.spec_form().spec_kind()),
    ensures
        translation_outcome(identity, sentence) == Ok::<_, crate::conservation::Error>(
            (sentence.spec_form().spec_kind(), sentence.spec_form().coefficient_map()),
        ),
{
    let form = sentence.spec_form();
    let source = identity.source_signature()@;
    form.lemma_entries();
    lemma_sentence_outcome_ok(source, form.spec_kind(), form.coefficient_entries());
    assert(renamed(form.coefficient_map(), identity.inverse_map()) =~= form.coefficient_map()) by {
        assert forall|axis: AxisId| #[trigger]
            form.coefficient_map().dom().contains(axis) implies source.dom().contains(axis) by {
            let i = choose|i: int|
                0 <= i < form.coefficient_entries().len() && form.coefficient_entries()[i].0
                    == axis;
            assert(source.dom().contains(form.coefficient_entries()[i].0));
        }
    }
}

/// Translating along a composite renaming is translating along its first
/// part and then along its second: when `sentence` translates along `first`
/// to `translated`, the translation of `translated` along `second` succeeds
/// and agrees with the translation of `sentence` along the composite.
pub proof fn lemma_translation_composition(
    first: AxisRenaming,
    second: AxisRenaming,
    composite: AxisRenaming,
    sentence: GradedLaw,
    translated: GradedLaw,
)
    requires
        first.well_formed(),
        second.well_formed(),
        sentence.spec_form().well_formed(),
        translated.spec_form().well_formed(),
        first.target_signature()@ == second.source_signature()@,
        composite.source_signature()@ == first.source_signature()@,
        composite.inverse_map() == then(second.inverse_map(), first.inverse_map()),
        composite.kind_map() == then(first.kind_map(), second.kind_map()),
        translation_reports(Ok(translated), first, sentence),
    ensures
        translation_outcome(second, translated) is Ok,
        translation_outcome(composite, sentence) == translation_outcome(second, translated),
{
    first.lemma_renaming();
    second.lemma_renaming();
    lemma_translated_belongs(first, sentence, translated);
    let form = sentence.spec_form();
    let kind = form.spec_kind();
    let coefficients = form.coefficient_map();
    let moved = translated.spec_form().coefficient_map();
    assert(moved == renamed(coefficients, first.inverse_map()));
    assert(renamed(moved, second.inverse_map()) =~= renamed(
        coefficients,
        then(second.inverse_map(), first.inverse_map()),
    ));
}

/// When `sentence` translates along `renaming` to `translated`, the
/// translation belongs to the renaming's target, with the image of the
/// sentence's kind, which the target's kinds hold.
proof fn lemma_translated_belongs(
    renaming: AxisRenaming,
    sentence: GradedLaw,
    translated: GradedLaw,
)
    requires
        renaming.well_formed(),
        sentence.spec_form().well_formed(),
        translated.spec_form().well_formed(),
        translation_reports(Ok(translated), renaming, sentence),
    ensures
        sentence_check(renaming.source_signature()@, sentence) is Ok,
        renaming.kind_map().dom().contains(sentence.spec_form().spec_kind()),
        translated.spec_form().spec_kind() == renaming.kind_map()[sentence.spec_form().spec_kind()],
        translated.spec_form().coefficient_map() == renamed(
            sentence.spec_form().coefficient_map(),
            renaming.inverse_map(),
        ),
        sentence_check(renaming.target_signature()@, translated) is Ok,
        kinds_of(renaming.target_signature()@).contains(translated.spec_form().spec_kind()),
        forall|axis: AxisId| #[trigger]
            sentence.spec_form().coefficient_map().dom().contains(axis)
                ==> renaming.source_signature()@.dom().contains(axis),
{
    renaming.lemma_renaming();
    let source = renaming.source_signature()@;
    let target = renaming.target_signature()@;
    let form = sentence.spec_form();
    let kind = form.spec_kind();
    let image_form = translated.spec_form();
    form.lemma_entries();
    image_form.lemma_entries();
    lemma_sentence_outcome_ok(source, kind, form.coefficient_entries());
    lemma_sentence_outcome_ok(target, image_form.spec_kind(), image_form.coefficient_entries());
    assert forall|axis: AxisId| #[trigger]
        form.coefficient_map().dom().contains(axis) implies source.dom().contains(axis)
        && source[axis] == kind by {
        let i = choose|i: int|
            0 <= i < form.coefficient_entries().len() && form.coefficient_entries()[i].0 == axis;
        assert(source.dom().contains(form.coefficient_entries()[i].0));
    }
    assert forall|i: int| 0 <= i < image_form.coefficient_entries().len() implies target.dom().contains(
        #[trigger] image_form.coefficient_entries()[i].0,
    ) && target[image_form.coefficient_entries()[i].0] == image_form.spec_kind() by {
        let axis = image_form.coefficient_entries()[i].0;
        assert(image_form.coefficient_map().dom().contains(axis));
        let preimage = renaming.inverse_map()[axis];
        assert(form.coefficient_map().dom().contains(preimage));
        assert(renaming.forward_map()[preimage] == axis);
    }
}

/// Reducing a model along the identity renaming gives back the model.
pub proof fn lemma_reduct_identity(
    identity: AxisRenaming,
    model: TraceModel,
    reduced: Result<TraceModel, crate::conservation::Error>,
)
    requires
        identity.well_formed(),
        model.well_formed(),
        identity.forward_map() == identity_on(identity.source_signature()@.dom()),
        identity.target_signature()@ == identity.source_signature()@,
        model.model_signature()@ == identity.target_signature()@,
        reduct_reports(reduced, identity, model),
    ensures
        reduced matches Ok(valid) && valid.model_signature()@ == model.model_signature()@
            && valid.state_views() == model.state_views(),
{
    model.lemma_states();
    let views = model.state_views();
    let valid = reduced->Ok_0;
    assert(valid.state_views() =~= views) by {
        assert forall|i: int| 0 <= i < views.len() implies pulled_back(
            #[trigger] views[i],
            identity.forward_map(),
        ) == views[i] by {
            assert(pulled_back(views[i], identity.forward_map()) =~= views[i]);
        }
    }
}

/// Reducing along a composite renaming is reducing along its second part and
/// then along its first: when `model` reduces along `second` to `middle`,
/// `middle` is over the middle signature and its reduct along `first` has
/// the states of the reduct of `model` along the composite.
pub proof fn lemma_reduct_composition(
    first: AxisRenaming,
    second: AxisRenaming,
    composite: AxisRenaming,
    model: TraceModel,
    middle: TraceModel,
)
    requires
        first.well_formed(),
        second.well_formed(),
        model.well_formed(),
        first.target_signature()@ == second.source_signature()@,
        composite.forward_map() == then(first.forward_map(), second.forward_map()),
        model.model_signature()@ == second.target_signature()@,
        reduct_reports(Ok(middle), second, model),
    ensures
        middle.model_signature()@ == first.target_signature()@,
        middle.state_views().map_values(
            |amounts: Map<AxisId, BigRational>| pulled_back(amounts, first.forward_map()),
        ) == model.state_views().map_values(
            |amounts: Map<AxisId, BigRational>| pulled_back(amounts, composite.forward_map()),
        ),
{
    first.lemma_renaming();
    second.lemma_renaming();
    let views = model.state_views();
    assert forall|i: int| 0 <= i < views.len() implies pulled_back(
        pulled_back(#[trigger] views[i], second.forward_map()),
        first.forward_map(),
    ) == pulled_back(views[i], composite.forward_map()) by {
        assert(pulled_back(pulled_back(views[i], second.forward_map()), first.forward_map())
            =~= pulled_back(views[i], composite.forward_map()));
    }
    assert(middle.state_views().map_values(
        |amounts: Map<AxisId, BigRational>| pulled_back(amounts, first.forward_map()),
    ) =~= views.map_values(
        |amounts: Map<AxisId, BigRational>| pulled_back(amounts, composite.forward_map()),
    ));
}

/// The terms of a balance with coefficients `moved` over a state with
/// amounts `image` are those of a balance with `coefficients` over
/// `amounts`, matched through `inverse` and `forward`: each term of the first
/// has the coefficient and amount of the term it is matched to, and every
/// term of the second is matched exactly once.
pub open spec fn terms_correspond(
    moved: Map<AxisId, BigRational>,
    image: Map<AxisId, BigRational>,
    coefficients: Map<AxisId, BigRational>,
    amounts: Map<AxisId, BigRational>,
    inverse: Map<AxisId, AxisId>,
    forward: Map<AxisId, AxisId>,
) -> bool {
    &&& forall|axis: AxisId| #[trigger]
        moved.dom().contains(axis) ==> coefficients.dom().contains(inverse[axis]) && forward[inverse[axis]]
            == axis && moved[axis] == coefficients[inverse[axis]] && image[axis]
            == amounts[inverse[axis]]
    &&& forall|axis: AxisId| #[trigger]
        coefficients.dom().contains(axis) ==> moved.dom().contains(forward[axis]) && inverse[forward[axis]]
            == axis
}

/// The satisfaction condition. When `sentence` translates along `renaming`
/// to `translated` and `model`, over the renaming's target, reduces to
/// `reduced`, then: deciding `translated` in `model` and deciding `sentence`
/// in `reduced` give the same outcome for the same verdict, and in every
/// state the terms of the translated balance are those of the source
/// balance over the reduced state, so the verdicts are decided over the same
/// terms.
pub proof fn lemma_satisfaction_condition(
    renaming: AxisRenaming,
    sentence: GradedLaw,
    translated: GradedLaw,
    model: TraceModel,
    reduced: TraceModel,
    verdict: Result<LawVerdict, TraceError>,
)
    requires
        renaming.well_formed(),
        sentence.spec_form().well_formed(),
        translated.spec_form().well_formed(),
        model.well_formed(),
        translation_reports(Ok(translated), renaming, sentence),
        model.model_signature()@ == renaming.target_signature()@,
        reduct_reports(Ok(reduced), renaming, model),
    ensures
        satisfaction_outcome(renaming.target_signature(), model, translated, verdict)
            == satisfaction_outcome(renaming.source_signature(), reduced, sentence, verdict),
        reduced.state_views().len() == model.state_views().len(),
        forall|i: int|
            0 <= i < model.state_views().len() ==> terms_correspond(
                translated.spec_form().coefficient_map(),
                #[trigger] model.state_views()[i],
                sentence.spec_form().coefficient_map(),
                reduced.state_views()[i],
                renaming.inverse_map(),
                renaming.forward_map(),
            ),
{
    renaming.lemma_renaming();
    model.lemma_states();
    lemma_translated_belongs(renaming, sentence, translated);
    let views = model.state_views();
    assert forall|i: int| 0 <= i < views.len() implies terms_correspond(
        translated.spec_form().coefficient_map(),
        #[trigger] views[i],
        sentence.spec_form().coefficient_map(),
        reduced.state_views()[i],
        renaming.inverse_map(),
        renaming.forward_map(),
    ) by {
        assert(reduced.state_views()[i] == pulled_back(views[i], renaming.forward_map()));
    }
}

/// Provenance takes no part in satisfaction: two sentences with the same
/// kind, coefficients and grade have the same satisfaction outcome in every
/// model for every verdict.
pub proof fn lemma_provenance_irrelevant(
    signature: ConservationSignature,
    model: TraceModel,
    first: GradedLaw,
    second: GradedLaw,
    verdict: Result<LawVerdict, TraceError>,
)
    requires
        first.spec_form().spec_kind() == second.spec_form().spec_kind(),
        first.spec_form().coefficient_entries() == second.spec_form().coefficient_entries(),
        first.spec_grade() == second.spec_grade(),
    ensures
        satisfaction_outcome(signature, model, first, verdict) == satisfaction_outcome(
            signature,
            model,
            second,
            verdict,
        ),
{
}

} // verus!
