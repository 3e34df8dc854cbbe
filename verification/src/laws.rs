//! Reusable observations for individual satisfaction squares and test cases.
//!
//! These helpers execute supplied operations and report what they observed.
//! Each helper's contract states its result exactly in terms of the `spec_`
//! functions of [`Institution`] and [`Comorphism`]; whether an observation
//! holds for all inputs is a property of the institution, not of the helper.
use vstd::prelude::*;

use crate::comorphism::{Comorphism, ComorphismError, ComorphismLawError};
use crate::Institution;
use vstd::std_specs::cmp::PartialEqSpec;

verus! {

/// The two satisfaction observations made for one supplied square.
#[derive(Clone, Copy, Debug, Eq, PartialEq)]
pub struct SatisfactionSquare {
    translated_sentence_satisfied: bool,
    reduced_model_satisfies_source_sentence: bool,
}

impl SatisfactionSquare {
    /// Satisfaction at the target after translating the source sentence.
    pub closed spec fn spec_translated(self) -> bool {
        self.translated_sentence_satisfied
    }

    /// Satisfaction at the source after reducing the target model.
    pub closed spec fn spec_reduced(self) -> bool {
        self.reduced_model_satisfies_source_sentence
    }

    /// Whether the two observations made for this square agree.
    pub open spec fn spec_holds(self) -> bool {
        self.spec_translated() == self.spec_reduced()
    }

    /// Whether the two observations made for this square agree.
    pub fn holds(self) -> (agree: bool)
        ensures
            agree == self.spec_holds(),
    {
        self.translated_sentence_satisfied == self.reduced_model_satisfies_source_sentence
    }

    /// Satisfaction at the target after translating the source sentence.
    pub fn translated_sentence_satisfied(self) -> (satisfied: bool)
        ensures
            satisfied == self.spec_translated(),
    {
        self.translated_sentence_satisfied
    }

    /// Satisfaction at the source after reducing the target model.
    pub fn reduced_model_satisfies_source_sentence(self) -> (satisfied: bool)
        ensures
            satisfied == self.spec_reduced(),
    {
        self.reduced_model_satisfies_source_sentence
    }
}

/// The two observations of one satisfaction square, or the first error met
/// while making them: translate the sentence, decide it at the target, reduce
/// the model, decide the source sentence at the source.
pub open spec fn square_outcome<I: Institution>(
    institution: I,
    morphism: I::SignatureMorphism,
    source_sentence: I::Sentence,
    target_model: I::Model,
) -> Result<(bool, bool), I::Error> {
    match institution.spec_translate_sentence(morphism, source_sentence) {
        Err(error) => Err(error),
        Ok(translated) => match institution.spec_satisfies(
            institution.spec_target(morphism),
            target_model,
            translated,
        ) {
            Err(error) => Err(error),
            Ok(at_target) => match institution.spec_reduct(morphism, target_model) {
                Err(error) => Err(error),
                Ok(reduced) => match institution.spec_satisfies(
                    institution.spec_source(morphism),
                    reduced,
                    source_sentence,
                ) {
                    Err(error) => Err(error),
                    Ok(at_source) => Ok((at_target, at_source)),
                },
            },
        },
    }
}

/// Whether `square` is what `outcome` describes: the same two observations,
/// or the same error.
pub open spec fn square_reports<E>(
    square: Result<SatisfactionSquare, E>,
    outcome: Result<(bool, bool), E>,
) -> bool {
    match outcome {
        Ok((at_target, at_source)) => square matches Ok(observed) && observed.spec_translated()
            == at_target && observed.spec_reduced() == at_source,
        Err(error) => square == Err::<SatisfactionSquare, E>(error),
    }
}

/// Evaluates both sides of one candidate Goguen satisfaction square.
///
/// Given `morphism: source -> target`, a source sentence, and a target model,
/// this observes the equation
/// `target_model |= translate(sentence)` iff
/// `reduct(target_model) |= sentence`.
/// [`SatisfactionSquare::holds`] reports agreement for this case only.
/// Operation errors are returned without being converted into a law result.
pub fn check_satisfaction_square<I: Institution>(
    institution: &I,
    morphism: &I::SignatureMorphism,
    source_sentence: &I::Sentence,
    target_model: &I::Model,
) -> (square: Result<SatisfactionSquare, I::Error>)
    ensures
        square_reports(
            square,
            square_outcome(*institution, *morphism, *source_sentence, *target_model),
        ),
{
    let translated = match institution.translate_sentence(morphism, source_sentence) {
        Ok(translated) => translated,
        Err(error) => return Err(error),
    };
    let at_target = match institution.satisfies(
        institution.target(morphism),
        target_model,
        &translated,
    ) {
        Ok(satisfied) => satisfied,
        Err(error) => return Err(error),
    };
    let reduced = match institution.reduct(morphism, target_model) {
        Ok(reduced) => reduced,
        Err(error) => return Err(error),
    };
    let at_source = match institution.satisfies(
        institution.source(morphism),
        &reduced,
        source_sentence,
    ) {
        Ok(satisfied) => satisfied,
        Err(error) => return Err(error),
    };
    Ok(
        SatisfactionSquare {
            translated_sentence_satisfied: at_target,
            reduced_model_satisfies_source_sentence: at_source,
        },
    )
}

/// Counts observed positive and negative supplied satisfaction examples.
#[derive(Clone, Copy, Debug, Default, Eq, PartialEq)]
pub struct NonVacuity {
    satisfying_cases: usize,
    falsifying_cases: usize,
}

impl NonVacuity {
    /// The number of examples for which satisfaction holds.
    pub closed spec fn spec_satisfying(self) -> nat {
        self.satisfying_cases as nat
    }

    /// The number of examples for which satisfaction does not hold.
    pub closed spec fn spec_falsifying(self) -> nat {
        self.falsifying_cases as nat
    }

    /// Whether the counted examples exercise both outcomes.
    pub open spec fn spec_non_vacuous(self) -> bool {
        self.spec_satisfying() > 0 && self.spec_falsifying() > 0
    }

    /// Whether the supplied examples exercise both outcomes of satisfaction.
    pub fn is_non_vacuous(self) -> (non_vacuous: bool)
        ensures
            non_vacuous == self.spec_non_vacuous(),
    {
        self.satisfying_cases > 0 && self.falsifying_cases > 0
    }

    /// The number of examples for which satisfaction holds.
    pub fn satisfying_cases(self) -> (count: usize)
        ensures
            count == self.spec_satisfying(),
    {
        self.satisfying_cases
    }

    /// The number of examples for which satisfaction does not hold.
    pub fn falsifying_cases(self) -> (count: usize)
        ensures
            count == self.spec_falsifying(),
    {
        self.falsifying_cases
    }
}

/// The counts of `true` and `false` among `outcomes`, or the first error.
pub open spec fn tally<E>(outcomes: Seq<Result<bool, E>>) -> Result<(nat, nat), E>
    decreases outcomes.len(),
{
    if outcomes.len() == 0 {
        Ok((0, 0))
    } else {
        match tally(outcomes.drop_last()) {
            Err(error) => Err(error),
            Ok((satisfying, falsifying)) => match outcomes.last() {
                Err(error) => Err(error),
                Ok(true) => Ok((satisfying + 1, falsifying)),
                Ok(false) => Ok((satisfying, falsifying + 1)),
            },
        }
    }
}

/// Whether `evidence` is what `counts` describes: the same two counts, or the
/// same error.
pub open spec fn evidence_reports<E>(
    evidence: Result<NonVacuity, E>,
    counts: Result<(nat, nat), E>,
) -> bool {
    match counts {
        Ok((satisfying, falsifying)) => evidence matches Ok(observed)
            && observed.spec_satisfying() == satisfying && observed.spec_falsifying()
            == falsifying,
        Err(error) => evidence == Err::<NonVacuity, E>(error),
    }
}

/// The satisfaction outcome of each supplied `(signature, model, sentence)` case.
pub open spec fn satisfaction_outcomes<I: Institution>(
    institution: I,
    cases: Seq<(&I::Signature, &I::Model, &I::Sentence)>,
) -> Seq<Result<bool, I::Error>> {
    cases.map_values(
        |case: (&I::Signature, &I::Model, &I::Sentence)|
            institution.spec_satisfies(*case.0, *case.1, *case.2),
    )
}

proof fn lemma_tally_step<E>(outcomes: Seq<Result<bool, E>>, i: int)
    requires
        0 <= i < outcomes.len(),
    ensures
        tally(outcomes.take(i + 1)) == match tally(outcomes.take(i)) {
            Err(error) => Err(error),
            Ok((satisfying, falsifying)) => match outcomes[i] {
                Err(error) => Err(error),
                Ok(true) => Ok((satisfying + 1, falsifying)),
                Ok(false) => Ok((satisfying, falsifying + 1)),
            },
        },
{
    assert(outcomes.take(i + 1).drop_last() =~= outcomes.take(i));
}

proof fn lemma_tally_error_persists<E>(outcomes: Seq<Result<bool, E>>, i: int, j: int)
    requires
        0 <= i <= j <= outcomes.len(),
        tally(outcomes.take(i)) is Err,
    ensures
        tally(outcomes.take(j)) == tally(outcomes.take(i)),
    decreases j - i,
{
    if i < j {
        lemma_tally_error_persists(outcomes, i, j - 1);
        lemma_tally_step(outcomes, j - 1);
    }
}

/// When every case is decided, the satisfying and the falsifying counts add
/// up to the number of cases.
pub proof fn lemma_tally_counts_every_case<E>(outcomes: Seq<Result<bool, E>>)
    ensures
        tally(outcomes) matches Ok((satisfying, falsifying)) ==> satisfying + falsifying
            == outcomes.len(),
    decreases outcomes.len(),
{
    if outcomes.len() > 0 {
        lemma_tally_counts_every_case(outcomes.drop_last());
    }
}

/// Evaluates supplied satisfaction examples and counts their observed outcomes.
///
/// The returned evidence is called non-vacuous when the cases include at
/// least one satisfying and one falsifying observation. Empty and one-sided
/// inputs are reported as vacuous. Operation errors are returned immediately.
pub fn check_non_vacuity<I: Institution>(
    institution: &I,
    cases: &[(&I::Signature, &I::Model, &I::Sentence)],
) -> (evidence: Result<NonVacuity, I::Error>)
    ensures
        evidence_reports(evidence, tally(satisfaction_outcomes(*institution, cases@))),
{
    let ghost outcomes = satisfaction_outcomes(*institution, cases@);
    let mut satisfying: usize = 0;
    let mut falsifying: usize = 0;
    let mut index: usize = 0;
    while index < cases.len()
        invariant
            index <= cases.len(),
            outcomes == satisfaction_outcomes(*institution, cases@),
            tally(outcomes.take(index as int)) == Ok::<(nat, nat), I::Error>(
                (satisfying as nat, falsifying as nat),
            ),
            satisfying + falsifying == index,
        decreases cases.len() - index,
    {
        let case = &cases[index];
        proof {
            lemma_tally_step(outcomes, index as int);
        }
        match institution.satisfies(case.0, case.1, case.2) {
            Ok(true) => {
                satisfying = satisfying + 1;
            },
            Ok(false) => {
                falsifying = falsifying + 1;
            },
            Err(error) => {
                proof {
                    lemma_tally_error_persists(outcomes, index + 1, cases.len() as int);
                    assert(outcomes.take(cases.len() as int) =~= outcomes);
                }
                return Err(error);
            },
        }
        index = index + 1;
    }
    assert(outcomes.take(cases.len() as int) =~= outcomes);
    Ok(NonVacuity { satisfying_cases: satisfying, falsifying_cases: falsifying })
}

/// Whether `==` holds, by its specification, between the two members of
/// every pair.
pub open spec fn all_equal<T: PartialEqSpec>(pairs: Seq<(T, T)>) -> bool
    decreases pairs.len(),
{
    if pairs.len() == 0 {
        true
    } else {
        all_equal(pairs.drop_last()) && pairs.last().0.eq_spec(&pairs.last().1)
    }
}

/// Whether `observed` is the verdict `==` gives on each pair of `compared`,
/// or the same error; `==` is known only for types whose equality obeys its
/// specification.
pub open spec fn agreement_reports<T: PartialEqSpec, E>(
    observed: Result<bool, E>,
    compared: Result<Seq<(T, T)>, E>,
) -> bool {
    match compared {
        Ok(pairs) => match observed {
            Ok(agree) => T::obeys_eq_spec() ==> agree == all_equal(pairs),
            Err(_) => false,
        },
        Err(error) => observed == Err::<bool, E>(error),
    }
}

/// The pairs compared by the identity law on `morphism`: `id; morphism`
/// against `morphism`, then `morphism; id` against `morphism`.
pub open spec fn signature_identity_pairs<I: Institution>(
    institution: I,
    morphism: I::SignatureMorphism,
) -> Result<Seq<(I::SignatureMorphism, I::SignatureMorphism)>, I::Error> {
    match institution.spec_identity(institution.spec_source(morphism)) {
        Err(error) => Err(error),
        Ok(source_identity) => match institution.spec_identity(institution.spec_target(morphism)) {
            Err(error) => Err(error),
            Ok(target_identity) => match institution.spec_compose(source_identity, morphism) {
                Err(error) => Err(error),
                Ok(left) => match institution.spec_compose(morphism, target_identity) {
                    Err(error) => Err(error),
                    Ok(right) => Ok(seq![(left, morphism), (right, morphism)]),
                },
            },
        },
    }
}

/// Observes `id(source); morphism == morphism == morphism; id(target)`.
pub fn check_signature_identity<I: Institution>(
    institution: &I,
    morphism: &I::SignatureMorphism,
) -> (agree: Result<bool, I::Error>) where I::SignatureMorphism: PartialEq
    ensures
        agreement_reports(agree, signature_identity_pairs(*institution, *morphism)),
        vstd::laws_eq::obeys_concrete_eq::<I::SignatureMorphism>() ==> (agree matches Ok(holds) ==> holds
            == identity_law_holds(*institution, *morphism)),
{
    proof {
        if vstd::laws_eq::obeys_concrete_eq::<I::SignatureMorphism>() {
            reveal(vstd::laws_eq::obeys_concrete_eq);
            lemma_signature_identity_observation(*institution, *morphism);
        }
    }
    let source_identity = match institution.identity(institution.source(morphism)) {
        Ok(identity) => identity,
        Err(error) => return Err(error),
    };
    let target_identity = match institution.identity(institution.target(morphism)) {
        Ok(identity) => identity,
        Err(error) => return Err(error),
    };
    let left = match institution.compose(&source_identity, morphism) {
        Ok(composite) => composite,
        Err(error) => return Err(error),
    };
    let right = match institution.compose(morphism, &target_identity) {
        Ok(composite) => composite,
        Err(error) => return Err(error),
    };
    let left_agrees = left == *morphism;
    let right_agrees = right == *morphism;
    proof {
        let pairs = seq![(left, *morphism), (right, *morphism)];
        reveal_with_fuel(all_equal, 3);
        assert(pairs.drop_last() =~= seq![(left, *morphism)]);
    }
    Ok(left_agrees && right_agrees)
}

/// The pair compared by associativity: `(first; second); third` against
/// `first; (second; third)`.
pub open spec fn associativity_pairs<I: Institution>(
    institution: I,
    first: I::SignatureMorphism,
    second: I::SignatureMorphism,
    third: I::SignatureMorphism,
) -> Result<Seq<(I::SignatureMorphism, I::SignatureMorphism)>, I::Error> {
    match institution.spec_compose(first, second) {
        Err(error) => Err(error),
        Ok(first_second) => match institution.spec_compose(second, third) {
            Err(error) => Err(error),
            Ok(second_third) => match institution.spec_compose(first_second, third) {
                Err(error) => Err(error),
                Ok(left) => match institution.spec_compose(first, second_third) {
                    Err(error) => Err(error),
                    Ok(right) => Ok(seq![(left, right)]),
                },
            },
        },
    }
}

/// Observes `(first; second); third == first; (second; third)`.
pub fn check_signature_associativity<I: Institution>(
    institution: &I,
    first: &I::SignatureMorphism,
    second: &I::SignatureMorphism,
    third: &I::SignatureMorphism,
) -> (agree: Result<bool, I::Error>) where I::SignatureMorphism: PartialEq
    ensures
        agreement_reports(agree, associativity_pairs(*institution, *first, *second, *third)),
        vstd::laws_eq::obeys_concrete_eq::<I::SignatureMorphism>() ==> (agree matches Ok(holds) ==> holds
            == associativity_law_holds(*institution, *first, *second, *third)),
{
    proof {
        if vstd::laws_eq::obeys_concrete_eq::<I::SignatureMorphism>() {
            reveal(vstd::laws_eq::obeys_concrete_eq);
            lemma_associativity_observation(*institution, *first, *second, *third);
        }
    }
    let first_second = match institution.compose(first, second) {
        Ok(composite) => composite,
        Err(error) => return Err(error),
    };
    let second_third = match institution.compose(second, third) {
        Ok(composite) => composite,
        Err(error) => return Err(error),
    };
    let left = match institution.compose(&first_second, third) {
        Ok(composite) => composite,
        Err(error) => return Err(error),
    };
    let right = match institution.compose(first, &second_third) {
        Ok(composite) => composite,
        Err(error) => return Err(error),
    };
    let agrees = left == right;
    proof {
        let pairs = seq![(left, right)];
        assert(pairs[0] == (left, right));
        reveal_with_fuel(all_equal, 2);
    }
    Ok(agrees)
}

/// The pair compared by the sentence identity law: the translation of
/// `sentence` along `id(signature)` against `sentence`.
pub open spec fn sentence_identity_pairs<I: Institution>(
    institution: I,
    signature: I::Signature,
    sentence: I::Sentence,
) -> Result<Seq<(I::Sentence, I::Sentence)>, I::Error> {
    match institution.spec_identity(signature) {
        Err(error) => Err(error),
        Ok(identity) => match institution.spec_translate_sentence(identity, sentence) {
            Err(error) => Err(error),
            Ok(translated) => Ok(seq![(translated, sentence)]),
        },
    }
}

/// Observes that translating along the identity leaves `sentence` unchanged.
pub fn check_sentence_identity<I: Institution>(
    institution: &I,
    signature: &I::Signature,
    sentence: &I::Sentence,
) -> (agree: Result<bool, I::Error>) where I::Sentence: PartialEq
    ensures
        agreement_reports(agree, sentence_identity_pairs(*institution, *signature, *sentence)),
        vstd::laws_eq::obeys_concrete_eq::<I::Sentence>() ==> (agree matches Ok(holds) ==> holds
            == sentence_identity_law_holds(*institution, *signature, *sentence)),
{
    proof {
        if vstd::laws_eq::obeys_concrete_eq::<I::Sentence>() {
            reveal(vstd::laws_eq::obeys_concrete_eq);
            lemma_sentence_identity_observation(*institution, *signature, *sentence);
        }
    }
    let identity = match institution.identity(signature) {
        Ok(identity) => identity,
        Err(error) => return Err(error),
    };
    let translated = match institution.translate_sentence(&identity, sentence) {
        Ok(translated) => translated,
        Err(error) => return Err(error),
    };
    let agrees = translated == *sentence;
    proof {
        let pairs = seq![(translated, *sentence)];
        assert(pairs[0] == (translated, *sentence));
        reveal_with_fuel(all_equal, 2);
    }
    Ok(agrees)
}

/// The pair compared by the sentence composition law: the translation along
/// `first; second` against the translation along `first`, then `second`.
pub open spec fn sentence_composition_pairs<I: Institution>(
    institution: I,
    first: I::SignatureMorphism,
    second: I::SignatureMorphism,
    sentence: I::Sentence,
) -> Result<Seq<(I::Sentence, I::Sentence)>, I::Error> {
    match institution.spec_compose(first, second) {
        Err(error) => Err(error),
        Ok(composite) => match institution.spec_translate_sentence(composite, sentence) {
            Err(error) => Err(error),
            Ok(along_composite) => match institution.spec_translate_sentence(first, sentence) {
                Err(error) => Err(error),
                Ok(along_first) => match institution.spec_translate_sentence(second, along_first) {
                    Err(error) => Err(error),
                    Ok(along_both) => Ok(seq![(along_composite, along_both)]),
                },
            },
        },
    }
}

/// Observes `translate(first; second) == translate(second) . translate(first)`
/// on `sentence`.
pub fn check_sentence_composition<I: Institution>(
    institution: &I,
    first: &I::SignatureMorphism,
    second: &I::SignatureMorphism,
    sentence: &I::Sentence,
) -> (agree: Result<bool, I::Error>) where I::Sentence: PartialEq
    ensures
        agreement_reports(
            agree,
            sentence_composition_pairs(*institution, *first, *second, *sentence),
        ),
        vstd::laws_eq::obeys_concrete_eq::<I::Sentence>() ==> (agree matches Ok(holds) ==> holds
            == sentence_composition_law_holds(*institution, *first, *second, *sentence)),
{
    proof {
        if vstd::laws_eq::obeys_concrete_eq::<I::Sentence>() {
            reveal(vstd::laws_eq::obeys_concrete_eq);
            lemma_sentence_composition_observation(*institution, *first, *second, *sentence);
        }
    }
    let composite = match institution.compose(first, second) {
        Ok(composite) => composite,
        Err(error) => return Err(error),
    };
    let along_composite = match institution.translate_sentence(&composite, sentence) {
        Ok(translated) => translated,
        Err(error) => return Err(error),
    };
    let along_first = match institution.translate_sentence(first, sentence) {
        Ok(translated) => translated,
        Err(error) => return Err(error),
    };
    let along_both = match institution.translate_sentence(second, &along_first) {
        Ok(translated) => translated,
        Err(error) => return Err(error),
    };
    let agrees = along_composite == along_both;
    proof {
        let pairs = seq![(along_composite, along_both)];
        assert(pairs[0] == (along_composite, along_both));
        reveal_with_fuel(all_equal, 2);
    }
    Ok(agrees)
}

/// The pair compared by the model identity law: the reduct of `model` along
/// `id(signature)` against `model`.
pub open spec fn model_identity_pairs<I: Institution>(
    institution: I,
    signature: I::Signature,
    model: I::Model,
) -> Result<Seq<(I::Model, I::Model)>, I::Error> {
    match institution.spec_identity(signature) {
        Err(error) => Err(error),
        Ok(identity) => match institution.spec_reduct(identity, model) {
            Err(error) => Err(error),
            Ok(reduced) => Ok(seq![(reduced, model)]),
        },
    }
}

/// Observes that reducing along the identity leaves `model` unchanged.
pub fn check_model_identity<I: Institution>(
    institution: &I,
    signature: &I::Signature,
    model: &I::Model,
) -> (agree: Result<bool, I::Error>) where I::Model: PartialEq
    ensures
        agreement_reports(agree, model_identity_pairs(*institution, *signature, *model)),
        vstd::laws_eq::obeys_concrete_eq::<I::Model>() ==> (agree matches Ok(holds) ==> holds
            == model_identity_law_holds(*institution, *signature, *model)),
{
    proof {
        if vstd::laws_eq::obeys_concrete_eq::<I::Model>() {
            reveal(vstd::laws_eq::obeys_concrete_eq);
            lemma_model_identity_observation(*institution, *signature, *model);
        }
    }
    let identity = match institution.identity(signature) {
        Ok(identity) => identity,
        Err(error) => return Err(error),
    };
    let reduced = match institution.reduct(&identity, model) {
        Ok(reduced) => reduced,
        Err(error) => return Err(error),
    };
    let agrees = reduced == *model;
    proof {
        let pairs = seq![(reduced, *model)];
        assert(pairs[0] == (reduced, *model));
        reveal_with_fuel(all_equal, 2);
    }
    Ok(agrees)
}

/// The pair compared by the model composition law: the reduct along
/// `first; second` against the reduct along `second`, then `first`.
pub open spec fn model_composition_pairs<I: Institution>(
    institution: I,
    first: I::SignatureMorphism,
    second: I::SignatureMorphism,
    model: I::Model,
) -> Result<Seq<(I::Model, I::Model)>, I::Error> {
    match institution.spec_compose(first, second) {
        Err(error) => Err(error),
        Ok(composite) => match institution.spec_reduct(composite, model) {
            Err(error) => Err(error),
            Ok(along_composite) => match institution.spec_reduct(second, model) {
                Err(error) => Err(error),
                Ok(along_second) => match institution.spec_reduct(first, along_second) {
                    Err(error) => Err(error),
                    Ok(along_both) => Ok(seq![(along_composite, along_both)]),
                },
            },
        },
    }
}

/// Observes `reduct(first; second) == reduct(first) . reduct(second)` on
/// `model`, a model over the target of `second`.
pub fn check_model_composition<I: Institution>(
    institution: &I,
    first: &I::SignatureMorphism,
    second: &I::SignatureMorphism,
    model: &I::Model,
) -> (agree: Result<bool, I::Error>) where I::Model: PartialEq
    ensures
        agreement_reports(agree, model_composition_pairs(*institution, *first, *second, *model)),
        vstd::laws_eq::obeys_concrete_eq::<I::Model>() ==> (agree matches Ok(holds) ==> holds
            == model_composition_law_holds(*institution, *first, *second, *model)),
{
    proof {
        if vstd::laws_eq::obeys_concrete_eq::<I::Model>() {
            reveal(vstd::laws_eq::obeys_concrete_eq);
            lemma_model_composition_observation(*institution, *first, *second, *model);
        }
    }
    let composite = match institution.compose(first, second) {
        Ok(composite) => composite,
        Err(error) => return Err(error),
    };
    let along_composite = match institution.reduct(&composite, model) {
        Ok(reduced) => reduced,
        Err(error) => return Err(error),
    };
    let along_second = match institution.reduct(second, model) {
        Ok(reduced) => reduced,
        Err(error) => return Err(error),
    };
    let along_both = match institution.reduct(first, &along_second) {
        Ok(reduced) => reduced,
        Err(error) => return Err(error),
    };
    let agrees = along_composite == along_both;
    proof {
        let pairs = seq![(along_composite, along_both)];
        assert(pairs[0] == (along_composite, along_both));
        reveal_with_fuel(all_equal, 2);
    }
    Ok(agrees)
}

/// The satisfaction of the translated sentence at the target: map the
/// signature, translate the sentence, decide it over the target model.
pub open spec fn comorphism_target_outcome<C: Comorphism>(
    comorphism: C,
    signature: <C::Source as Institution>::Signature,
    sentence: <C::Source as Institution>::Sentence,
    target_model: <C::Target as Institution>::Model,
) -> Result<bool, ComorphismLawError<C>> {
    match comorphism.spec_translate_sentence(signature, sentence) {
        Err(error) => Err(ComorphismError::Comorphism(error)),
        Ok(translated) => match comorphism.spec_map_signature(signature) {
            Err(error) => Err(ComorphismError::Comorphism(error)),
            Ok(mapped) => match comorphism.spec_target_institution().spec_satisfies(
                mapped,
                target_model,
                translated,
            ) {
                Err(error) => Err(ComorphismError::Target(error)),
                Ok(satisfied) => Ok(satisfied),
            },
        },
    }
}

/// The two observations of one comorphism satisfaction square, or the first
/// error met, kept with the side that produced it: the target side as in
/// [`comorphism_target_outcome`], then the reduct of the target model and
/// the source sentence decided over it.
pub open spec fn comorphism_square_outcome<C: Comorphism>(
    comorphism: C,
    signature: <C::Source as Institution>::Signature,
    sentence: <C::Source as Institution>::Sentence,
    target_model: <C::Target as Institution>::Model,
) -> Result<(bool, bool), ComorphismLawError<C>> {
    match comorphism_target_outcome(comorphism, signature, sentence, target_model) {
        Err(error) => Err(error),
        Ok(at_target) => match comorphism.spec_reduct(signature, target_model) {
            Err(error) => Err(ComorphismError::Comorphism(error)),
            Ok(reduced) => match comorphism.spec_source_institution().spec_satisfies(
                signature,
                reduced,
                sentence,
            ) {
                Err(error) => Err(ComorphismError::Source(error)),
                Ok(at_source) => Ok((at_target, at_source)),
            },
        },
    }
}

/// Evaluates both sides of the comorphism satisfaction condition
/// `target_model |= translate(sentence)` iff `reduct(target_model) |= sentence`
/// for one source signature, source sentence and target model over the
/// mapped signature. Errors keep the side that produced them.
pub fn check_comorphism_satisfaction<C: Comorphism>(
    comorphism: &C,
    signature: &<C::Source as Institution>::Signature,
    sentence: &<C::Source as Institution>::Sentence,
    target_model: &<C::Target as Institution>::Model,
) -> (square: Result<SatisfactionSquare, ComorphismLawError<C>>)
    ensures
        square_reports(
            square,
            comorphism_square_outcome(*comorphism, *signature, *sentence, *target_model),
        ),
{
    let at_target = match comorphism_target_side(comorphism, signature, sentence, target_model) {
        Ok(satisfied) => satisfied,
        Err(error) => return Err(error),
    };
    let reduced = match comorphism.reduct(signature, target_model) {
        Ok(reduced) => reduced,
        Err(error) => return Err(ComorphismError::Comorphism(error)),
    };
    let at_source = match comorphism.source_institution().satisfies(signature, &reduced, sentence) {
        Ok(satisfied) => satisfied,
        Err(error) => return Err(ComorphismError::Source(error)),
    };
    Ok(
        SatisfactionSquare {
            translated_sentence_satisfied: at_target,
            reduced_model_satisfies_source_sentence: at_source,
        },
    )
}

fn comorphism_target_side<C: Comorphism>(
    comorphism: &C,
    signature: &<C::Source as Institution>::Signature,
    sentence: &<C::Source as Institution>::Sentence,
    target_model: &<C::Target as Institution>::Model,
) -> (satisfied: Result<bool, ComorphismLawError<C>>)
    ensures
        satisfied == comorphism_target_outcome(*comorphism, *signature, *sentence, *target_model),
{
    let translated = match comorphism.translate_sentence(signature, sentence) {
        Ok(translated) => translated,
        Err(error) => return Err(ComorphismError::Comorphism(error)),
    };
    let mapped = match comorphism.map_signature(signature) {
        Ok(mapped) => mapped,
        Err(error) => return Err(ComorphismError::Comorphism(error)),
    };
    match comorphism.target_institution().satisfies(&mapped, target_model, &translated) {
        Ok(satisfied) => Ok(satisfied),
        Err(error) => Err(ComorphismError::Target(error)),
    }
}

/// The target-side outcome of each supplied `(signature, sentence, model)` case.
pub open spec fn comorphism_outcomes<C: Comorphism>(
    comorphism: C,
    cases: Seq<
        (
            &<C::Source as Institution>::Signature,
            &<C::Source as Institution>::Sentence,
            &<C::Target as Institution>::Model,
        ),
    >,
) -> Seq<Result<bool, ComorphismLawError<C>>> {
    cases.map_values(
        |
            case: (
                &<C::Source as Institution>::Signature,
                &<C::Source as Institution>::Sentence,
                &<C::Target as Institution>::Model,
            ),
        |
            comorphism_target_outcome(comorphism, *case.0, *case.1, *case.2),
    )
}

/// Counts the supplied comorphism examples whose translated sentence is,
/// and is not, satisfied by the target model over the mapped signature.
/// Errors are returned immediately, kept with their side.
pub fn check_comorphism_non_vacuity<C: Comorphism>(
    comorphism: &C,
    cases: &[(
        &<C::Source as Institution>::Signature,
        &<C::Source as Institution>::Sentence,
        &<C::Target as Institution>::Model,
    )],
) -> (evidence: Result<NonVacuity, ComorphismLawError<C>>)
    ensures
        evidence_reports(evidence, tally(comorphism_outcomes(*comorphism, cases@))),
{
    let ghost outcomes = comorphism_outcomes(*comorphism, cases@);
    let mut satisfying: usize = 0;
    let mut falsifying: usize = 0;
    let mut index: usize = 0;
    while index < cases.len()
        invariant
            index <= cases.len(),
            outcomes == comorphism_outcomes(*comorphism, cases@),
            tally(outcomes.take(index as int)) == Ok::<(nat, nat), ComorphismLawError<C>>(
                (satisfying as nat, falsifying as nat),
            ),
            satisfying + falsifying == index,
        decreases cases.len() - index,
    {
        let case = &cases[index];
        proof {
            lemma_tally_step(outcomes, index as int);
        }
        match comorphism_target_side(comorphism, case.0, case.1, case.2) {
            Ok(true) => {
                satisfying = satisfying + 1;
            },
            Ok(false) => {
                falsifying = falsifying + 1;
            },
            Err(error) => {
                proof {
                    lemma_tally_error_persists(outcomes, index + 1, cases.len() as int);
                    assert(outcomes.take(cases.len() as int) =~= outcomes);
                }
                return Err(error);
            },
        }
        index = index + 1;
    }
    assert(outcomes.take(cases.len() as int) =~= outcomes);
    Ok(NonVacuity { satisfying_cases: satisfying, falsifying_cases: falsifying })
}

/// The identity law at `morphism`: both identities exist and composing with
/// them on either side gives `morphism` back.
pub open spec fn identity_law_holds<I: Institution>(
    institution: I,
    morphism: I::SignatureMorphism,
) -> bool {
    &&& institution.spec_identity(institution.spec_source(morphism)) matches Ok(source_identity)
        && institution.spec_compose(source_identity, morphism) == Ok::<
        I::SignatureMorphism,
        I::Error,
    >(morphism)
    &&& institution.spec_identity(institution.spec_target(morphism)) matches Ok(target_identity)
        && institution.spec_compose(morphism, target_identity) == Ok::<
        I::SignatureMorphism,
        I::Error,
    >(morphism)
}

/// The associativity law at `first`, `second`, `third`: every composite
/// exists and `(first; second); third` is `first; (second; third)`.
pub open spec fn associativity_law_holds<I: Institution>(
    institution: I,
    first: I::SignatureMorphism,
    second: I::SignatureMorphism,
    third: I::SignatureMorphism,
) -> bool {
    &&& institution.spec_compose(first, second) matches Ok(first_second)
    &&& institution.spec_compose(second, third) matches Ok(second_third)
    &&& institution.spec_compose(first_second, third) is Ok
    &&& institution.spec_compose(first_second, third) == institution.spec_compose(
        first,
        second_third,
    )
}

/// The sentence identity law at `sentence`: translating along the identity
/// on `signature` gives `sentence` back.
pub open spec fn sentence_identity_law_holds<I: Institution>(
    institution: I,
    signature: I::Signature,
    sentence: I::Sentence,
) -> bool {
    institution.spec_identity(signature) matches Ok(identity)
        && institution.spec_translate_sentence(identity, sentence) == Ok::<
        I::Sentence,
        I::Error,
    >(sentence)
}

/// The sentence composition law at `sentence`: translating along
/// `first; second` is translating along `first`, then along `second`.
pub open spec fn sentence_composition_law_holds<I: Institution>(
    institution: I,
    first: I::SignatureMorphism,
    second: I::SignatureMorphism,
    sentence: I::Sentence,
) -> bool {
    &&& institution.spec_compose(first, second) matches Ok(composite)
    &&& institution.spec_translate_sentence(first, sentence) matches Ok(along_first)
    &&& institution.spec_translate_sentence(composite, sentence) is Ok
    &&& institution.spec_translate_sentence(composite, sentence)
        == institution.spec_translate_sentence(second, along_first)
}

/// The model identity law at `model`: reducing along the identity on
/// `signature` gives `model` back.
pub open spec fn model_identity_law_holds<I: Institution>(
    institution: I,
    signature: I::Signature,
    model: I::Model,
) -> bool {
    institution.spec_identity(signature) matches Ok(identity) && institution.spec_reduct(
        identity,
        model,
    ) == Ok::<I::Model, I::Error>(model)
}

/// The model composition law at `model`: reducing along `first; second` is
/// reducing along `second`, then along `first`.
pub open spec fn model_composition_law_holds<I: Institution>(
    institution: I,
    first: I::SignatureMorphism,
    second: I::SignatureMorphism,
    model: I::Model,
) -> bool {
    &&& institution.spec_compose(first, second) matches Ok(composite)
    &&& institution.spec_reduct(second, model) matches Ok(along_second)
    &&& institution.spec_reduct(composite, model) is Ok
    &&& institution.spec_reduct(composite, model) == institution.spec_reduct(first, along_second)
}

/// The satisfaction condition at one square: both observations can be made
/// and they agree.
pub open spec fn satisfaction_condition_holds<I: Institution>(
    institution: I,
    morphism: I::SignatureMorphism,
    source_sentence: I::Sentence,
    target_model: I::Model,
) -> bool {
    square_outcome(institution, morphism, source_sentence, target_model) matches Ok(
        (at_target, at_source),
    ) && at_target == at_source
}


/// When `==` on the compared values is spec equality, an observation that
/// completes agrees exactly when the identity law holds at `morphism`: composing with the identity of its
/// source on the left, and with the identity of its target on the right,
/// each gives `morphism` back.
pub proof fn lemma_signature_identity_observation<I: Institution>(institution: I, morphism: I::SignatureMorphism) where I::SignatureMorphism: PartialEq
    requires
        vstd::laws_eq::obeys_concrete_eq::<I::SignatureMorphism>(),
    ensures
        signature_identity_pairs(institution, morphism) matches Ok(pairs) ==> all_equal(pairs) == identity_law_holds(institution, morphism),
{
    reveal(vstd::laws_eq::obeys_concrete_eq);
    reveal_with_fuel(all_equal, 3);
}

/// When `==` on the compared values is spec equality, an observation that
/// completes agrees exactly when `(first; second); third` equals `first; (second; third)`.
pub proof fn lemma_associativity_observation<I: Institution>(institution: I, first: I::SignatureMorphism, second: I::SignatureMorphism, third: I::SignatureMorphism) where I::SignatureMorphism: PartialEq
    requires
        vstd::laws_eq::obeys_concrete_eq::<I::SignatureMorphism>(),
    ensures
        associativity_pairs(institution, first, second, third) matches Ok(pairs) ==> all_equal(pairs) == associativity_law_holds(institution, first, second, third),
{
    reveal(vstd::laws_eq::obeys_concrete_eq);
    reveal_with_fuel(all_equal, 3);
}

/// When `==` on the compared values is spec equality, an observation that
/// completes agrees exactly when translating `sentence` along the identity of `signature` gives it back.
pub proof fn lemma_sentence_identity_observation<I: Institution>(institution: I, signature: I::Signature, sentence: I::Sentence) where I::Sentence: PartialEq
    requires
        vstd::laws_eq::obeys_concrete_eq::<I::Sentence>(),
    ensures
        sentence_identity_pairs(institution, signature, sentence) matches Ok(pairs) ==> all_equal(pairs) == sentence_identity_law_holds(institution, signature, sentence),
{
    reveal(vstd::laws_eq::obeys_concrete_eq);
    reveal_with_fuel(all_equal, 3);
}

/// When `==` on the compared values is spec equality, an observation that
/// completes agrees exactly when translating `sentence` along `first; second` equals translating it along
/// `first` and then along `second`.
pub proof fn lemma_sentence_composition_observation<I: Institution>(institution: I, first: I::SignatureMorphism, second: I::SignatureMorphism, sentence: I::Sentence) where I::Sentence: PartialEq
    requires
        vstd::laws_eq::obeys_concrete_eq::<I::Sentence>(),
    ensures
        sentence_composition_pairs(institution, first, second, sentence) matches Ok(pairs) ==> all_equal(pairs) == sentence_composition_law_holds(institution, first, second, sentence),
{
    reveal(vstd::laws_eq::obeys_concrete_eq);
    reveal_with_fuel(all_equal, 3);
}

/// When `==` on the compared values is spec equality, an observation that
/// completes agrees exactly when reducing `model` along the identity of `signature` gives it back.
pub proof fn lemma_model_identity_observation<I: Institution>(institution: I, signature: I::Signature, model: I::Model) where I::Model: PartialEq
    requires
        vstd::laws_eq::obeys_concrete_eq::<I::Model>(),
    ensures
        model_identity_pairs(institution, signature, model) matches Ok(pairs) ==> all_equal(pairs) == model_identity_law_holds(institution, signature, model),
{
    reveal(vstd::laws_eq::obeys_concrete_eq);
    reveal_with_fuel(all_equal, 3);
}

/// When `==` on the compared values is spec equality, an observation that
/// completes agrees exactly when reducing `model` along `first; second` equals reducing it along `second`
/// and then along `first`.
pub proof fn lemma_model_composition_observation<I: Institution>(institution: I, first: I::SignatureMorphism, second: I::SignatureMorphism, model: I::Model) where I::Model: PartialEq
    requires
        vstd::laws_eq::obeys_concrete_eq::<I::Model>(),
    ensures
        model_composition_pairs(institution, first, second, model) matches Ok(pairs) ==> all_equal(pairs) == model_composition_law_holds(institution, first, second, model),
{
    reveal(vstd::laws_eq::obeys_concrete_eq);
    reveal_with_fuel(all_equal, 3);
}

} // verus!
