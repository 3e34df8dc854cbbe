use institution::conservation::{
    AxisId, AxisRenaming, BalanceLaw, ConservationInstitution, ConservationSignature, Error,
    Grade, GradedLaw, KindId, LawVerdict, Provenance, TraceError, TraceModel, TraceState,
};
use num_bigint::BigInt;
use num_rational::BigRational;

// Axis symbols.
const A: AxisId = 1;
const B: AxisId = 2;
const X: AxisId = 24;
const Y: AxisId = 25;
const Z: AxisId = 26;
const LEFT: AxisId = 31;
const RIGHT: AxisId = 32;
const ALPHA: AxisId = 41;
const ZETA: AxisId = 42;
const BETA: AxisId = 43;
const GAMMA: AxisId = 44;
const UPPER_STORE: AxisId = 51;
const LOWER_STORE: AxisId = 52;
const DISSIPATED: AxisId = 53;
const AVAILABLE_POTENTIAL: AxisId = 61;
const KINETIC: AxisId = 62;
const DISSIPATED_HEAT: AxisId = 63;
const PRODUCER_POOL: AxisId = 71;
const CONSUMER_POOL: AxisId = 72;
const RESPIRED: AxisId = 73;
const OUTSIDE_AXIS: AxisId = 99;

// Kind symbols.
const QUANTITY: KindId = 1;
const MEASURE: KindId = 2;
const Q1: KindId = 11;
const Q2: KindId = 12;
const R1: KindId = 21;
const R2: KindId = 22;
const NEUTRAL_ENERGY: KindId = 31;
const ENERGY: KindId = 32;
const BIOMASS_ENERGY: KindId = 33;
const OUTSIDE_KIND: KindId = 99;

fn q(value: i64) -> BigRational {
    BigRational::from_integer(BigInt::from(value))
}

fn signature(entries: &[(AxisId, KindId)]) -> ConservationSignature {
    ConservationSignature::new(entries.to_vec()).unwrap()
}

fn state(entries: &[(AxisId, i64)]) -> TraceState {
    TraceState::new(entries.iter().map(|(axis, value)| (*axis, q(*value))).collect()).unwrap()
}

fn law(kind: KindId, coefficients: &[(AxisId, i64)], provenance: Provenance) -> BalanceLaw {
    BalanceLaw::new(
        kind,
        coefficients.iter().map(|(axis, value)| (*axis, q(*value))).collect(),
        provenance,
    )
    .unwrap()
}

fn graded(kind: KindId, coefficients: &[(AxisId, i64)], grade: Grade) -> GradedLaw {
    GradedLaw::new(law(kind, coefficients, Provenance::Declared), grade)
}

/// The balance of `form` in `state`: the sum of its coefficients times the
/// state's amounts.
fn balance(form: &BalanceLaw, state: &TraceState) -> BigRational {
    let mut total = q(0);
    for axis in state.axes() {
        if let Some(coefficient) = form.coefficient(axis) {
            total += coefficient * state.value(axis).unwrap();
        }
    }
    total
}

struct GradedCases {
    source: ConservationSignature,
    total: GradedLaw,
    reservoir: GradedLaw,
    dissipation: GradedLaw,
    weather_renaming: AxisRenaming,
    weather_model: TraceModel,
    ecological_renaming: AxisRenaming,
    ecological_model: TraceModel,
}

fn shared_graded_cases() -> GradedCases {
    let source = signature(&[
        (UPPER_STORE, NEUTRAL_ENERGY),
        (LOWER_STORE, NEUTRAL_ENERGY),
        (DISSIPATED, NEUTRAL_ENERGY),
    ]);
    let total = graded(
        NEUTRAL_ENERGY,
        &[(UPPER_STORE, 1), (LOWER_STORE, 1), (DISSIPATED, 1)],
        Grade::Invariant,
    );
    let reservoir = graded(NEUTRAL_ENERGY, &[(LOWER_STORE, 1)], Grade::Nonnegative);
    let dissipation = graded(NEUTRAL_ENERGY, &[(DISSIPATED, 1)], Grade::Nondecreasing);

    let weather_target = signature(&[
        (AVAILABLE_POTENTIAL, ENERGY),
        (KINETIC, ENERGY),
        (DISSIPATED_HEAT, ENERGY),
    ]);
    let weather_renaming = AxisRenaming::new(
        source.clone(),
        weather_target.clone(),
        vec![
            (UPPER_STORE, AVAILABLE_POTENTIAL),
            (LOWER_STORE, KINETIC),
            (DISSIPATED, DISSIPATED_HEAT),
        ],
        vec![(NEUTRAL_ENERGY, ENERGY)],
    )
    .unwrap();
    let weather_model = TraceModel::new(
        weather_target,
        vec![
            state(&[(AVAILABLE_POTENTIAL, 10), (KINETIC, 0), (DISSIPATED_HEAT, 0)]),
            state(&[(AVAILABLE_POTENTIAL, 6), (KINETIC, 3), (DISSIPATED_HEAT, 1)]),
            state(&[(AVAILABLE_POTENTIAL, 2), (KINETIC, 5), (DISSIPATED_HEAT, 3)]),
        ],
    )
    .unwrap();

    let ecological_target = signature(&[
        (PRODUCER_POOL, BIOMASS_ENERGY),
        (CONSUMER_POOL, BIOMASS_ENERGY),
        (RESPIRED, BIOMASS_ENERGY),
    ]);
    let ecological_renaming = AxisRenaming::new(
        source.clone(),
        ecological_target.clone(),
        vec![
            (UPPER_STORE, PRODUCER_POOL),
            (LOWER_STORE, CONSUMER_POOL),
            (DISSIPATED, RESPIRED),
        ],
        vec![(NEUTRAL_ENERGY, BIOMASS_ENERGY)],
    )
    .unwrap();
    let ecological_model = TraceModel::new(
        ecological_target,
        vec![
            state(&[(PRODUCER_POOL, 5), (CONSUMER_POOL, 1), (RESPIRED, 4)]),
            state(&[(PRODUCER_POOL, 7), (CONSUMER_POOL, -1), (RESPIRED, 4)]),
            state(&[(PRODUCER_POOL, 6), (CONSUMER_POOL, 1), (RESPIRED, 3)]),
        ],
    )
    .unwrap();

    GradedCases {
        source,
        total,
        reservoir,
        dissipation,
        weather_renaming,
        weather_model,
        ecological_renaming,
        ecological_model,
    }
}

#[test]
fn signatures_axis_maps_and_models_retain_their_validation() {
    assert_eq!(ConservationSignature::new(vec![]), Err(Error::EmptySignature));
    assert_eq!(
        ConservationSignature::new(vec![(A, QUANTITY), (A, QUANTITY)]),
        Err(Error::DuplicateSignatureAxis(A))
    );

    let source = signature(&[(A, QUANTITY), (B, QUANTITY)]);
    let target = signature(&[(X, MEASURE), (Y, MEASURE)]);
    let kind_map = vec![(QUANTITY, MEASURE)];
    assert_eq!(
        AxisRenaming::new(source.clone(), target.clone(), vec![(A, X)], kind_map.clone()),
        Err(Error::IncompleteRenaming {
            mapped: 1,
            source_axes: 2,
        })
    );
    assert_eq!(
        AxisRenaming::new(source.clone(), target, vec![(A, X), (B, X)], kind_map),
        Err(Error::DuplicateTargetAxis(X))
    );

    assert_eq!(
        TraceModel::new(source.clone(), vec![state(&[(A, 1), (B, 1)])]),
        Err(Error::TraceTooShort { states: 1 })
    );
    assert_eq!(
        TraceModel::new(source, vec![state(&[(A, 1), (B, 1)]), state(&[(A, 2)])]),
        Err(Error::ModelAxisSetMismatch { state_index: 1 })
    );
}

#[test]
fn kind_maps_reject_missing_extra_duplicate_conflicting_and_nonbijective_entries() {
    let source = signature(&[(A, Q1), (B, Q2)]);
    let target = signature(&[(X, R1), (Y, R2)]);
    let axes = vec![(A, X), (B, Y)];

    assert_eq!(
        AxisRenaming::new(source.clone(), target.clone(), axes.clone(), vec![(Q1, R1)]),
        Err(Error::IncompleteKindRenaming {
            mapped: 1,
            source_kinds: 2,
        })
    );
    assert_eq!(
        AxisRenaming::new(
            source.clone(),
            target.clone(),
            axes.clone(),
            vec![(Q1, R1), (Q2, R2), (OUTSIDE_KIND, R1)],
        ),
        Err(Error::KindMappingSourceOutsideSignature(OUTSIDE_KIND))
    );
    assert_eq!(
        AxisRenaming::new(
            source.clone(),
            target.clone(),
            axes.clone(),
            vec![(Q1, R1), (Q2, OUTSIDE_KIND)],
        ),
        Err(Error::KindMappingTargetOutsideSignature(OUTSIDE_KIND))
    );
    assert_eq!(
        AxisRenaming::new(
            source.clone(),
            target.clone(),
            axes.clone(),
            vec![(Q1, R1), (Q1, R1)],
        ),
        Err(Error::DuplicateSourceKind(Q1))
    );
    assert!(matches!(
        AxisRenaming::new(
            source.clone(),
            target.clone(),
            axes.clone(),
            vec![(Q1, R1), (Q1, R2)],
        ),
        Err(Error::ConflictingKindMapping { .. })
    ));
    assert_eq!(
        AxisRenaming::new(
            source.clone(),
            target.clone(),
            axes.clone(),
            vec![(Q1, R1), (Q2, R1)],
        ),
        Err(Error::DuplicateTargetKind(R1))
    );

    let target_with_extra_kind = signature(&[(X, R1), (Y, R1), (Z, R2)]);
    let one_kind_source = signature(&[(A, Q1), (B, Q1)]);
    assert_eq!(
        AxisRenaming::new(
            one_kind_source,
            target_with_extra_kind,
            vec![(A, X), (B, Y)],
            vec![(Q1, R1)],
        ),
        Err(Error::NonBijectiveKindRenaming {
            mapped_targets: 1,
            target_kinds: 2,
        })
    );

    let mismatched_axes = vec![(A, Y), (B, X)];
    assert!(matches!(
        AxisRenaming::new(source, target, mismatched_axes, vec![(Q1, R1), (Q2, R2)]),
        Err(Error::AxisKindMappingMismatch { .. })
    ));
}

#[test]
fn malformed_memberships_error_instead_of_returning_false() {
    let institution = ConservationInstitution::new();
    let source = signature(&[(A, QUANTITY), (B, QUANTITY)]);
    let model = TraceModel::new(
        source.clone(),
        vec![state(&[(A, 1), (B, 1)]), state(&[(A, 2), (B, 0)])],
    )
    .unwrap();
    let outside_law = GradedLaw::new(
        law(QUANTITY, &[(OUTSIDE_AXIS, 1)], Provenance::Declared),
        Grade::Invariant,
    );
    assert_eq!(
        institution.satisfies_with(&source, &model, &outside_law, Ok(LawVerdict::Satisfied)),
        Err(Error::SentenceAxisOutsideSignature(OUTSIDE_AXIS))
    );

    let other = signature(&[(X, QUANTITY), (Y, QUANTITY)]);
    let other_model = TraceModel::new(
        other,
        vec![state(&[(X, 1), (Y, 1)]), state(&[(X, 2), (Y, 0)])],
    )
    .unwrap();
    let incidence_law = GradedLaw::new(
        law(QUANTITY, &[(A, 1), (B, 1)], Provenance::IncidenceNullspace),
        Grade::Invariant,
    );
    assert_eq!(
        institution.satisfies_with(&source, &other_model, &incidence_law, Ok(LawVerdict::Satisfied)),
        Err(Error::ModelSignatureMismatch)
    );

    assert_eq!(
        institution.check_satisfaction_inputs(&source, &model, &outside_law),
        Err(Error::SentenceAxisOutsideSignature(OUTSIDE_AXIS))
    );
    assert_eq!(
        institution.check_satisfaction_inputs(&source, &other_model, &outside_law),
        Err(Error::ModelSignatureMismatch)
    );
    assert_eq!(institution.check_satisfaction_inputs(&source, &model, &incidence_law), Ok(()));
}

#[test]
fn asymmetric_stoichiometric_law_exposes_translation_and_reduct_direction() {
    let institution = ConservationInstitution::new();
    let source = signature(&[(LEFT, QUANTITY), (RIGHT, QUANTITY)]);
    let stoichiometric = law(QUANTITY, &[(LEFT, 1), (RIGHT, 2)], Provenance::StoichiometricNullspace);
    assert_eq!(stoichiometric.coefficient(LEFT), Some(&q(1)));
    assert_eq!(stoichiometric.coefficient(RIGHT), Some(&q(2)));
    assert_eq!(stoichiometric.provenance(), Provenance::StoichiometricNullspace);

    let target = signature(&[(ALPHA, MEASURE), (ZETA, MEASURE)]);
    let reversing = AxisRenaming::new(
        source.clone(),
        target.clone(),
        vec![(LEFT, ZETA), (RIGHT, ALPHA)],
        vec![(QUANTITY, MEASURE)],
    )
    .unwrap();
    let target_model = TraceModel::new(
        target,
        vec![
            state(&[(ALPHA, 20), (ZETA, 10)]),
            state(&[(ALPHA, 21), (ZETA, 8)]),
        ],
    )
    .unwrap();

    let translated = institution
        .translate_sentence(&reversing, &GradedLaw::new(stoichiometric, Grade::Invariant))
        .unwrap();
    assert_eq!(translated.form().kind(), MEASURE);
    assert_eq!(translated.form().coefficient(ALPHA), Some(&q(2)));
    assert_eq!(translated.form().coefficient(ZETA), Some(&q(1)));

    let reduced = institution.reduct(&reversing, &target_model).unwrap();
    assert_eq!(reduced.signature(), &source);
    assert_eq!(reduced.states()[0].value(LEFT), Some(&q(10)));
    assert_eq!(reduced.states()[0].value(RIGHT), Some(&q(20)));
}

#[test]
fn translation_preserves_every_grade() {
    let cases = shared_graded_cases();
    let institution = ConservationInstitution::new();

    for sentence in [&cases.total, &cases.reservoir, &cases.dissipation] {
        let translated = institution
            .translate_sentence(&cases.weather_renaming, sentence)
            .unwrap();
        assert_eq!(translated.grade(), sentence.grade());
        assert_eq!(translated.form().kind(), ENERGY);
        assert_eq!(translated.form().provenance(), sentence.form().provenance());
    }
}

#[test]
fn graded_sentences_observe_the_sentence_functor_laws() {
    let cases = shared_graded_cases();
    let institution = ConservationInstitution::new();

    let onward = signature(&[(ALPHA, MEASURE), (BETA, MEASURE), (GAMMA, MEASURE)]);
    let second = AxisRenaming::new(
        cases.weather_renaming.target().clone(),
        onward,
        vec![
            (AVAILABLE_POTENTIAL, ALPHA),
            (KINETIC, BETA),
            (DISSIPATED_HEAT, GAMMA),
        ],
        vec![(ENERGY, MEASURE)],
    )
    .unwrap();

    let identity = institution.identity(&cases.source).unwrap();
    let composite = institution.compose(&cases.weather_renaming, &second).unwrap();
    for sentence in [&cases.total, &cases.reservoir, &cases.dissipation] {
        assert_eq!(
            institution.translate_sentence(&identity, sentence).as_ref(),
            Ok(sentence)
        );
        let stepwise = institution
            .translate_sentence(
                &second,
                &institution
                    .translate_sentence(&cases.weather_renaming, sentence)
                    .unwrap(),
            )
            .unwrap();
        assert_eq!(
            institution.translate_sentence(&composite, sentence),
            Ok(stepwise)
        );
    }
}

#[test]
fn renaming_composition_has_identities_and_associates() {
    let cases = shared_graded_cases();
    let institution = ConservationInstitution::new();
    let onward = signature(&[(ALPHA, MEASURE), (BETA, MEASURE), (GAMMA, MEASURE)]);
    let second = AxisRenaming::new(
        cases.weather_renaming.target().clone(),
        onward.clone(),
        vec![
            (AVAILABLE_POTENTIAL, GAMMA),
            (KINETIC, ALPHA),
            (DISSIPATED_HEAT, BETA),
        ],
        vec![(ENERGY, MEASURE)],
    )
    .unwrap();
    let third = institution.identity(&onward).unwrap();

    let source_identity = institution.identity(&cases.source).unwrap();
    assert_eq!(
        institution.compose(&source_identity, &cases.weather_renaming),
        Ok(cases.weather_renaming.clone())
    );
    let target_identity = institution.identity(cases.weather_renaming.target()).unwrap();
    assert_eq!(
        institution.compose(&cases.weather_renaming, &target_identity),
        Ok(cases.weather_renaming.clone())
    );

    let left = institution
        .compose(
            &institution.compose(&cases.weather_renaming, &second).unwrap(),
            &third,
        )
        .unwrap();
    let right = institution
        .compose(
            &cases.weather_renaming,
            &institution.compose(&second, &third).unwrap(),
        )
        .unwrap();
    assert_eq!(left, right);
    assert_eq!(left.source(), &cases.source);
    assert_eq!(left.target(), &onward);

    assert_eq!(
        institution.compose(&second, &cases.weather_renaming),
        Err(Error::NonComposableRenamings)
    );
}

#[test]
fn reduct_along_identity_and_composite() {
    let cases = shared_graded_cases();
    let institution = ConservationInstitution::new();
    let weather_target = cases.weather_renaming.target().clone();
    let identity = institution.identity(&weather_target).unwrap();
    assert_eq!(
        institution.reduct(&identity, &cases.weather_model),
        Ok(cases.weather_model.clone())
    );

    let onward = signature(&[(ALPHA, MEASURE), (BETA, MEASURE), (GAMMA, MEASURE)]);
    let second = AxisRenaming::new(
        weather_target,
        onward.clone(),
        vec![
            (AVAILABLE_POTENTIAL, BETA),
            (KINETIC, GAMMA),
            (DISSIPATED_HEAT, ALPHA),
        ],
        vec![(ENERGY, MEASURE)],
    )
    .unwrap();
    let onward_model = TraceModel::new(
        onward,
        vec![
            state(&[(ALPHA, 1), (BETA, 2), (GAMMA, 3)]),
            state(&[(ALPHA, 4), (BETA, 5), (GAMMA, 6)]),
        ],
    )
    .unwrap();
    let composite = institution.compose(&cases.weather_renaming, &second).unwrap();
    let stepwise = institution
        .reduct(
            &cases.weather_renaming,
            &institution.reduct(&second, &onward_model).unwrap(),
        )
        .unwrap();
    let direct = institution.reduct(&composite, &onward_model).unwrap();
    assert_eq!(direct, stepwise);
    assert_eq!(direct.signature(), &cases.source);
    assert_eq!(direct.states()[1].value(UPPER_STORE), Some(&q(5)));
    assert_eq!(direct.states()[1].value(LOWER_STORE), Some(&q(6)));
    assert_eq!(direct.states()[1].value(DISSIPATED), Some(&q(4)));
}

#[test]
fn translated_balances_equal_source_balances_over_reducts() {
    let cases = shared_graded_cases();
    let institution = ConservationInstitution::new();
    for (renaming, model) in [
        (&cases.weather_renaming, &cases.weather_model),
        (&cases.ecological_renaming, &cases.ecological_model),
    ] {
        let reduced = institution.reduct(renaming, model).unwrap();
        for sentence in [&cases.total, &cases.reservoir, &cases.dissipation] {
            let translated = institution.translate_sentence(renaming, sentence).unwrap();
            for (target_state, source_state) in model.states().iter().zip(reduced.states()) {
                assert_eq!(
                    balance(translated.form(), target_state),
                    balance(sentence.form(), source_state)
                );
            }
        }
    }
    // The ecological books stay balanced in total while the consumer pool
    // dips below zero in the second state.
    let reduced = institution
        .reduct(&cases.ecological_renaming, &cases.ecological_model)
        .unwrap();
    assert_eq!(balance(cases.total.form(), &reduced.states()[1]), q(10));
    assert_eq!(balance(cases.reservoir.form(), &reduced.states()[1]), q(-1));
}

#[test]
fn satisfaction_reports_the_verdict_only_for_members() {
    let cases = shared_graded_cases();
    let institution = ConservationInstitution::new();
    let target = cases.weather_renaming.target();
    let translated = institution
        .translate_sentence(&cases.weather_renaming, &cases.total)
        .unwrap();
    assert_eq!(
        institution.satisfies_with(target, &cases.weather_model, &translated, Ok(LawVerdict::Satisfied)),
        Ok(true)
    );
    assert_eq!(
        institution.satisfies_with(target, &cases.weather_model, &translated, Ok(LawVerdict::Violated)),
        Ok(false)
    );
    let missing = TraceError::MissingAxis {
        state_index: 1,
        axis: KINETIC,
    };
    assert_eq!(
        institution.satisfies_with(target, &cases.weather_model, &translated, Err(missing)),
        Err(Error::Trace(missing))
    );
    // The untranslated sentence is over the neutral axes, not the weather ones.
    assert_eq!(
        institution.satisfies_with(target, &cases.weather_model, &cases.total, Ok(LawVerdict::Satisfied)),
        Err(Error::SentenceAxisOutsideSignature(UPPER_STORE))
    );
    let wrong_kind = graded(MEASURE, &[(KINETIC, 1)], Grade::Nonnegative);
    assert_eq!(
        institution.satisfies_with(target, &cases.weather_model, &wrong_kind, Ok(LawVerdict::Satisfied)),
        Err(Error::SentenceKindMismatch {
            axis: KINETIC,
            sentence_kind: MEASURE,
            signature_kind: ENERGY,
        })
    );
}

#[test]
fn translation_rejects_sentences_outside_the_source() {
    let cases = shared_graded_cases();
    let institution = ConservationInstitution::new();
    let foreign = graded(ENERGY, &[(KINETIC, 1)], Grade::Invariant);
    assert_eq!(
        institution.translate_sentence(&cases.weather_renaming, &foreign),
        Err(Error::SentenceAxisOutsideSignature(KINETIC))
    );
    let mixed = graded(ENERGY, &[(UPPER_STORE, 1)], Grade::Invariant);
    assert_eq!(
        institution.translate_sentence(&cases.weather_renaming, &mixed),
        Err(Error::SentenceKindMismatch {
            axis: UPPER_STORE,
            sentence_kind: ENERGY,
            signature_kind: NEUTRAL_ENERGY,
        })
    );
    let empty_foreign = graded(ENERGY, &[], Grade::Invariant);
    assert_eq!(
        institution.translate_sentence(&cases.weather_renaming, &empty_foreign),
        Err(Error::KindMappingSourceOutsideSignature(ENERGY))
    );
    let empty_neutral = graded(NEUTRAL_ENERGY, &[], Grade::Nonnegative);
    let translated = institution
        .translate_sentence(&cases.weather_renaming, &empty_neutral)
        .unwrap();
    assert_eq!(translated.form().kind(), ENERGY);
    assert_eq!(translated.form().coefficients().len(), 0);
}

#[test]
fn reduct_rejects_models_over_other_signatures() {
    let cases = shared_graded_cases();
    let institution = ConservationInstitution::new();
    assert_eq!(
        institution.reduct(&cases.weather_renaming, &cases.ecological_model),
        Err(Error::ModelSignatureMismatch)
    );
}

#[test]
fn renaming_axes_must_belong_and_cover() {
    let source = signature(&[(A, QUANTITY), (B, QUANTITY)]);
    let target = signature(&[(X, MEASURE), (Y, MEASURE)]);
    let kinds = vec![(QUANTITY, MEASURE)];
    assert_eq!(
        AxisRenaming::new(source.clone(), target.clone(), vec![(OUTSIDE_AXIS, X)], kinds.clone()),
        Err(Error::RenamingSourceAxisOutsideSignature(OUTSIDE_AXIS))
    );
    assert_eq!(
        AxisRenaming::new(source.clone(), target.clone(), vec![(A, OUTSIDE_AXIS)], kinds.clone()),
        Err(Error::RenamingTargetAxisOutsideSignature(OUTSIDE_AXIS))
    );
    assert_eq!(
        AxisRenaming::new(source.clone(), target.clone(), vec![(A, X), (A, Y)], kinds.clone()),
        Err(Error::DuplicateSourceAxis(A))
    );
    let wider = signature(&[(X, MEASURE), (Y, MEASURE), (Z, MEASURE)]);
    assert_eq!(
        AxisRenaming::new(source, wider, vec![(A, X), (B, Y)], kinds),
        Err(Error::NonBijectiveRenaming {
            mapped_targets: 2,
            target_axes: 3,
        })
    );
}

#[test]
fn states_and_laws_reject_repeated_axes() {
    assert_eq!(
        TraceState::new(vec![(A, q(1)), (B, q(2)), (A, q(3))]),
        Err(Error::DuplicateStateAxis(A))
    );
    assert_eq!(
        BalanceLaw::new(QUANTITY, vec![(B, q(1)), (B, q(1))], Provenance::Declared),
        Err(Error::DuplicateLawAxis(B))
    );
}

#[test]
fn signatures_report_axes_and_kinds_in_order() {
    let signature = signature(&[(Y, R2), (A, Q1), (X, R2)]);
    assert_eq!(signature.len(), 3);
    assert!(!signature.is_empty());
    assert_eq!(signature.kind(X), Some(R2));
    assert_eq!(signature.kind(B), None);
    assert_eq!(signature.axes(), vec![(A, Q1), (X, R2), (Y, R2)]);
    assert_eq!(signature.kinds(), vec![Q1, R2]);
    let state = state(&[(X, 5), (A, 4)]);
    assert_eq!(state.axes(), vec![A, X]);
    assert_eq!(state.value(Y), None);
}

#[test]
fn provenance_is_carried_and_takes_no_part_in_membership() {
    let institution = ConservationInstitution::new();
    let source = signature(&[(LEFT, QUANTITY), (RIGHT, QUANTITY)]);
    let model = TraceModel::new(
        source.clone(),
        vec![state(&[(LEFT, 10), (RIGHT, 20)]), state(&[(LEFT, 8), (RIGHT, 21)])],
    )
    .unwrap();
    let derived = GradedLaw::new(
        law(QUANTITY, &[(LEFT, 1), (RIGHT, 2)], Provenance::StoichiometricNullspace),
        Grade::Invariant,
    );
    let declared = GradedLaw::new(
        law(QUANTITY, &[(LEFT, 1), (RIGHT, 2)], Provenance::Declared),
        Grade::Invariant,
    );
    for verdict in [Ok(LawVerdict::Satisfied), Ok(LawVerdict::Violated)] {
        assert_eq!(
            institution.satisfies_with(&source, &model, &derived, verdict),
            institution.satisfies_with(&source, &model, &declared, verdict)
        );
    }
    let identity = institution.identity(&source).unwrap();
    let carried = institution.translate_sentence(&identity, &derived).unwrap();
    assert_eq!(carried.form().provenance(), Provenance::StoichiometricNullspace);
}
