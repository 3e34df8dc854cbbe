use institution::comorphism::ComorphismError;
use institution::join::{
    Bridge, Join, JoinError, JoinedModel, JoinedSentence, JoinedSignature,
    JoinedSignatureMorphism, Pair,
};
use institution::{Institution, laws};

/// A set of propositional symbols `0..8`, one bit each.
#[derive(Clone, Copy, Debug, Eq, PartialEq)]
struct Signature(u8);

#[derive(Clone, Copy, Debug, Eq, PartialEq)]
struct Morphism {
    source: Signature,
    target: Signature,
    image: [u8; 8],
}

#[derive(Clone, Copy, Debug, Eq, PartialEq)]
struct Model {
    signature: Signature,
    true_atoms: u8,
}

#[derive(Clone, Copy, Debug, Eq, PartialEq)]
enum BitError {
    SignatureMismatch,
    UnknownSymbol(u8),
    NonComposable,
}

fn has(bits: u8, symbol: u8) -> bool {
    symbol < 8 && bits & (1 << symbol) != 0
}

fn morphism(source: u8, target: u8, pairs: &[(u8, u8)]) -> Morphism {
    let mut image = [0u8; 8];
    for (from, to) in pairs {
        image[*from as usize] = *to;
    }
    Morphism {
        source: Signature(source),
        target: Signature(target),
        image,
    }
}

struct BitLogic;

impl Institution for BitLogic {
    type Signature = Signature;
    type SignatureMorphism = Morphism;
    type Sentence = u8;
    type Model = Model;
    type Error = BitError;

    fn spec_source(&self, morphism: Self::SignatureMorphism) -> Self::Signature {
        self.source(&morphism).clone()
    }

    fn spec_target(&self, morphism: Self::SignatureMorphism) -> Self::Signature {
        self.target(&morphism).clone()
    }

    fn spec_identity(
        &self,
        signature: Self::Signature,
    ) -> Result<Self::SignatureMorphism, Self::Error> {
        self.identity(&signature)
    }

    fn spec_compose(
        &self,
        first: Self::SignatureMorphism,
        second: Self::SignatureMorphism,
    ) -> Result<Self::SignatureMorphism, Self::Error> {
        self.compose(&first, &second)
    }

    fn spec_translate_sentence(
        &self,
        morphism: Self::SignatureMorphism,
        sentence: Self::Sentence,
    ) -> Result<Self::Sentence, Self::Error> {
        self.translate_sentence(&morphism, &sentence)
    }

    fn spec_reduct(
        &self,
        morphism: Self::SignatureMorphism,
        model: Self::Model,
    ) -> Result<Self::Model, Self::Error> {
        self.reduct(&morphism, &model)
    }

    fn spec_satisfies(
        &self,
        signature: Self::Signature,
        model: Self::Model,
        sentence: Self::Sentence,
    ) -> Result<bool, Self::Error> {
        self.satisfies(&signature, &model, &sentence)
    }

    fn source<'a>(&self, morphism: &'a Morphism) -> &'a Signature {
        &morphism.source
    }

    fn target<'a>(&self, morphism: &'a Morphism) -> &'a Signature {
        &morphism.target
    }

    fn identity(&self, signature: &Signature) -> Result<Morphism, BitError> {
        let mut image = [0u8; 8];
        for symbol in 0..8u8 {
            if has(signature.0, symbol) {
                image[symbol as usize] = symbol;
            }
        }
        Ok(Morphism {
            source: *signature,
            target: *signature,
            image,
        })
    }

    fn compose(&self, first: &Morphism, second: &Morphism) -> Result<Morphism, BitError> {
        if first.target != second.source {
            return Err(BitError::NonComposable);
        }
        let mut image = [0u8; 8];
        for symbol in 0..8u8 {
            if has(first.source.0, symbol) {
                image[symbol as usize] = second.image[first.image[symbol as usize] as usize];
            }
        }
        Ok(Morphism {
            source: first.source,
            target: second.target,
            image,
        })
    }

    fn translate_sentence(&self, morphism: &Morphism, sentence: &u8) -> Result<u8, BitError> {
        if !has(morphism.source.0, *sentence) {
            return Err(BitError::UnknownSymbol(*sentence));
        }
        Ok(morphism.image[*sentence as usize])
    }

    fn reduct(&self, morphism: &Morphism, model: &Model) -> Result<Model, BitError> {
        if model.signature != morphism.target {
            return Err(BitError::SignatureMismatch);
        }
        let mut true_atoms = 0u8;
        for symbol in 0..8u8 {
            if has(morphism.source.0, symbol)
                && has(model.true_atoms, morphism.image[symbol as usize])
            {
                true_atoms |= 1 << symbol;
            }
        }
        Ok(Model {
            signature: morphism.source,
            true_atoms,
        })
    }

    fn satisfies(&self, signature: &Signature, model: &Model, sentence: &u8) -> Result<bool, BitError> {
        if model.signature != *signature {
            return Err(BitError::SignatureMismatch);
        }
        if !has(signature.0, *sentence) {
            return Err(BitError::UnknownSymbol(*sentence));
        }
        Ok(has(model.true_atoms, *sentence))
    }
}

/// Bridge sentences `(l, r)`: if left atom `l` holds then right atom `r` holds.
struct Implication;

impl Bridge for Implication {
    type Left = BitLogic;
    type Right = BitLogic;
    type Sentence = (u8, u8);
    type Verdict = bool;
    type Error = BitError;

    fn spec_translate_sentence(
        &self,
        morphism: JoinedSignatureMorphism<Self>,
        sentence: Self::Sentence,
    ) -> Result<Self::Sentence, Self::Error> {
        self.translate_sentence(&morphism, &sentence)
    }

    fn spec_evaluate(
        &self,
        signature: JoinedSignature<Self>,
        model: JoinedModel<Self>,
        sentence: Self::Sentence,
    ) -> Result<Self::Verdict, Self::Error> {
        self.evaluate(&signature, &model, &sentence)
    }

    fn spec_is_satisfied(verdict: Self::Verdict) -> bool {
        Self::is_satisfied(&verdict)
    }

    fn translate_sentence(
        &self,
        morphism: &JoinedSignatureMorphism<Self>,
        sentence: &(u8, u8),
    ) -> Result<(u8, u8), BitError> {
        let left = BitLogic.translate_sentence(&morphism.parts().left, &sentence.0)?;
        let right = BitLogic.translate_sentence(&morphism.parts().right, &sentence.1)?;
        Ok((left, right))
    }

    fn evaluate(
        &self,
        signature: &JoinedSignature<Self>,
        model: &JoinedModel<Self>,
        sentence: &(u8, u8),
    ) -> Result<bool, BitError> {
        let premise = BitLogic.satisfies(&signature.left, &model.left, &sentence.0)?;
        let conclusion = BitLogic.satisfies(&signature.right, &model.right, &sentence.1)?;
        Ok(!premise || conclusion)
    }

    fn is_satisfied(verdict: &bool) -> bool {
        *verdict
    }
}

/// A bridge that forgets to rename its symbols.
struct StaleImplication;

impl Bridge for StaleImplication {
    type Left = BitLogic;
    type Right = BitLogic;
    type Sentence = (u8, u8);
    type Verdict = bool;
    type Error = BitError;

    fn spec_translate_sentence(
        &self,
        morphism: JoinedSignatureMorphism<Self>,
        sentence: Self::Sentence,
    ) -> Result<Self::Sentence, Self::Error> {
        self.translate_sentence(&morphism, &sentence)
    }

    fn spec_evaluate(
        &self,
        signature: JoinedSignature<Self>,
        model: JoinedModel<Self>,
        sentence: Self::Sentence,
    ) -> Result<Self::Verdict, Self::Error> {
        self.evaluate(&signature, &model, &sentence)
    }

    fn spec_is_satisfied(verdict: Self::Verdict) -> bool {
        Self::is_satisfied(&verdict)
    }

    fn translate_sentence(
        &self,
        _morphism: &JoinedSignatureMorphism<Self>,
        sentence: &(u8, u8),
    ) -> Result<(u8, u8), BitError> {
        Ok(*sentence)
    }

    fn evaluate(
        &self,
        signature: &JoinedSignature<Self>,
        model: &JoinedModel<Self>,
        sentence: &(u8, u8),
    ) -> Result<bool, BitError> {
        Implication.evaluate(signature, model, sentence)
    }

    fn is_satisfied(verdict: &bool) -> bool {
        *verdict
    }
}

// Left symbols {0, 1} renamed to {2, 3} swapped; right symbols {0} to {5}.
fn left_renaming() -> Morphism {
    morphism(0b0000_0011, 0b0000_1100, &[(0, 3), (1, 2)])
}

fn right_renaming() -> Morphism {
    morphism(0b0000_0001, 0b0010_0000, &[(0, 5)])
}

fn joined_target_model(left_atoms: u8, right_atoms: u8) -> Pair<Model, Model> {
    Pair {
        left: Model {
            signature: Signature(0b0000_1100),
            true_atoms: left_atoms,
        },
        right: Model {
            signature: Signature(0b0010_0000),
            true_atoms: right_atoms,
        },
    }
}

#[test]
fn join_of_bit_logics_obeys_category_and_functor_laws() -> Result<(), JoinError<BitError, BitError, BitError>> {
    let join = Join::new(BitLogic, BitLogic, Implication);
    let first = join.morphism(left_renaming(), right_renaming());
    assert_eq!(first.parts().left, left_renaming());
    assert_eq!(
        join.source(&first),
        &Pair {
            left: Signature(0b0000_0011),
            right: Signature(0b0000_0001),
        }
    );
    let second = join.morphism(
        morphism(0b0000_1100, 0b0011_0000, &[(2, 4), (3, 5)]),
        morphism(0b0010_0000, 0b1000_0000, &[(5, 7)]),
    );
    let third = join.morphism(
        morphism(0b0011_0000, 0b0011_0000, &[(4, 5), (5, 4)]),
        morphism(0b1000_0000, 0b0100_0000, &[(7, 6)]),
    );
    let model = Pair {
        left: Model {
            signature: Signature(0b0011_0000),
            true_atoms: 0b0001_0000,
        },
        right: Model {
            signature: Signature(0b0100_0000),
            true_atoms: 0b0100_0000,
        },
    };

    assert!(laws::check_signature_identity(&join, &first)?);
    assert!(laws::check_signature_associativity(&join, &first, &second, &third)?);
    for sentence in [
        JoinedSentence::Left(1),
        JoinedSentence::Right(0),
        JoinedSentence::Bridge((0, 0)),
    ] {
        assert!(laws::check_sentence_identity(&join, join.source(&first), &sentence)?);
        assert!(laws::check_sentence_composition(&join, &first, &second, &sentence)?);
    }
    assert!(laws::check_model_identity(&join, join.target(&third), &model)?);
    assert!(laws::check_model_composition(&join, &second, &third, &model)?);
    Ok(())
}

#[test]
fn joined_squares_hold_for_every_sentence_family_with_both_truth_values() {
    let join = Join::new(BitLogic, BitLogic, Implication);
    let renaming = join.morphism(left_renaming(), right_renaming());
    // Left atom 0 renames to 3, left atom 1 to 2, right atom 0 to 5.
    let cases = [
        (JoinedSentence::Left(0), joined_target_model(0b0000_1000, 0), true),
        (JoinedSentence::Left(1), joined_target_model(0b0000_1000, 0), false),
        (JoinedSentence::Right(0), joined_target_model(0, 0b0010_0000), true),
        (JoinedSentence::Right(0), joined_target_model(0, 0), false),
        (JoinedSentence::Bridge((0, 0)), joined_target_model(0b0000_1000, 0b0010_0000), true),
        (JoinedSentence::Bridge((0, 0)), joined_target_model(0b0000_1000, 0), false),
    ];
    for (sentence, model, expected) in cases {
        let square = laws::check_satisfaction_square(&join, &renaming, &sentence, &model).unwrap();
        assert!(square.holds());
        assert_eq!(square.translated_sentence_satisfied(), expected);
        assert_eq!(square.reduced_model_satisfies_source_sentence(), expected);
    }
}

#[test]
fn joined_non_vacuity_counts_bridge_outcomes() {
    let join = Join::new(BitLogic, BitLogic, Implication);
    let signature = Pair {
        left: Signature(0b0000_1100),
        right: Signature(0b0010_0000),
    };
    let holds = joined_target_model(0b0000_1000, 0b0010_0000);
    let fails = joined_target_model(0b0000_1000, 0);
    let vacuous = joined_target_model(0, 0);
    let sentence = JoinedSentence::Bridge((3, 5));
    let evidence = laws::check_non_vacuity(
        &join,
        &[
            (&signature, &holds, &sentence),
            (&signature, &fails, &sentence),
            (&signature, &vacuous, &sentence),
        ],
    )
    .unwrap();
    assert!(evidence.is_non_vacuous());
    assert_eq!(evidence.satisfying_cases(), 2);
    assert_eq!(evidence.falsifying_cases(), 1);
}

#[test]
fn stale_bridge_breaks_the_joined_satisfaction_square() {
    let join = Join::new(BitLogic, BitLogic, StaleImplication);
    let renaming = join.morphism(left_renaming(), right_renaming());
    let model = joined_target_model(0b0000_1000, 0);
    let square =
        laws::check_satisfaction_square(&join, &renaming, &JoinedSentence::Bridge((0, 0)), &model);
    // The stale sentence still names source symbols, which the target lacks.
    assert_eq!(square, Err(JoinError::Bridge(BitError::UnknownSymbol(0))));

    // With symbols that exist on both sides the stale square disagrees.
    let identity_sides = join.morphism(
        morphism(0b0000_0011, 0b0000_0011, &[(0, 1), (1, 0)]),
        morphism(0b0000_0001, 0b0000_0001, &[(0, 0)]),
    );
    let model = Pair {
        left: Model {
            signature: Signature(0b0000_0011),
            true_atoms: 0b0000_0001,
        },
        right: Model {
            signature: Signature(0b0000_0001),
            true_atoms: 0,
        },
    };
    let square = laws::check_satisfaction_square(
        &join,
        &identity_sides,
        &JoinedSentence::Bridge((1, 0)),
        &model,
    )
    .unwrap();
    assert!(!square.holds());
    assert!(square.translated_sentence_satisfied());
    assert!(!square.reduced_model_satisfies_source_sentence());
}

#[test]
fn embeddings_meet_the_comorphism_condition_with_both_truth_values() {
    let join = Join::new(BitLogic, BitLogic, Implication);
    let left_signature = Signature(0b0000_0011);
    let right_signature = Signature(0b0000_0001);
    let left_embedding = join.embed_left(right_signature);
    let right_embedding = join.embed_right(left_signature);
    let model = Pair {
        left: Model {
            signature: left_signature,
            true_atoms: 0b0000_0010,
        },
        right: Model {
            signature: right_signature,
            true_atoms: 0,
        },
    };

    for (sentence, expected) in [(1u8, true), (0u8, false)] {
        let square =
            laws::check_comorphism_satisfaction(&left_embedding, &left_signature, &sentence, &model)
                .unwrap();
        assert!(square.holds());
        assert_eq!(square.translated_sentence_satisfied(), expected);
        assert_eq!(square.reduced_model_satisfies_source_sentence(), expected);
    }
    let square =
        laws::check_comorphism_satisfaction(&right_embedding, &right_signature, &0u8, &model)
            .unwrap();
    assert!(square.holds());
    assert!(!square.translated_sentence_satisfied());

    let evidence = laws::check_comorphism_non_vacuity(
        &left_embedding,
        &[
            (&left_signature, &1u8, &model),
            (&left_signature, &0u8, &model),
        ],
    )
    .unwrap();
    assert!(evidence.is_non_vacuous());
    assert_eq!(evidence.satisfying_cases(), 1);
    assert_eq!(evidence.falsifying_cases(), 1);
}

#[test]
fn joined_errors_name_the_failing_part() {
    let join = Join::new(BitLogic, BitLogic, Implication);
    let renaming = join.morphism(left_renaming(), right_renaming());
    assert_eq!(
        join.translate_sentence(&renaming, &JoinedSentence::Left(6)),
        Err(JoinError::Left(BitError::UnknownSymbol(6)))
    );
    assert_eq!(
        join.translate_sentence(&renaming, &JoinedSentence::Right(4)),
        Err(JoinError::Right(BitError::UnknownSymbol(4)))
    );
    assert_eq!(
        join.translate_sentence(&renaming, &JoinedSentence::Bridge((0, 7))),
        Err(JoinError::Bridge(BitError::UnknownSymbol(7)))
    );
    let mut model = joined_target_model(0, 0);
    model.right.signature = Signature(0b0000_0001);
    assert_eq!(
        join.reduct(&renaming, &model),
        Err(JoinError::Right(BitError::SignatureMismatch))
    );
    assert_eq!(
        join.compose(&renaming, &renaming),
        Err(JoinError::Left(BitError::NonComposable))
    );
}

#[test]
fn embedding_errors_keep_their_side() {
    let join = Join::new(BitLogic, BitLogic, Implication);
    let left_signature = Signature(0b0000_0011);
    let embedding = join.embed_left(Signature(0b0000_0001));
    let foreign = Pair {
        left: Model {
            signature: Signature(0b0000_0111),
            true_atoms: 0,
        },
        right: Model {
            signature: Signature(0b0000_0001),
            true_atoms: 0,
        },
    };
    assert_eq!(
        laws::check_comorphism_satisfaction(&embedding, &left_signature, &0u8, &foreign),
        Err(ComorphismError::Target(JoinError::Left(BitError::SignatureMismatch)))
    );
}
