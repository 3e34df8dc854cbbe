//! A generic institution joining two institutions with bridge sentences.
use vstd::prelude::*;

use crate::comorphism::{Comorphism, ComorphismError, ComorphismLawError};
use crate::laws::{
    associativity_law_holds, comorphism_square_outcome, identity_law_holds,
    model_composition_law_holds, model_identity_law_holds, satisfaction_condition_holds,
    sentence_composition_law_holds, sentence_identity_law_holds, square_outcome,
};
use crate::Institution;

verus! {

/// One value of each part: the joined signature, model, or morphism parts.
#[derive(Clone, Copy, Debug, Eq, PartialEq)]
pub struct Pair<L, R> {
    /// The left part's value.
    pub left: L,
    /// The right part's value.
    pub right: R,
}

/// Sentences of a joined institution.
#[derive(Clone, Copy, Debug, Eq, PartialEq)]
pub enum JoinedSentence<L, R, B> {
    /// A sentence of the left part.
    Left(L),
    /// A sentence of the right part.
    Right(R),
    /// A bridge sentence relating both parts.
    Bridge(B),
}

/// A joined signature morphism: its endpoints and one morphism of each part.
#[derive(Clone, Copy, Debug, Eq, PartialEq)]
pub struct JoinedMorphism<S, M> {
    source: S,
    target: S,
    parts: M,
}

impl<S, M> JoinedMorphism<S, M> {
    /// The explicit source signature.
    pub closed spec fn spec_source(self) -> S {
        self.source
    }

    /// The explicit target signature.
    pub closed spec fn spec_target(self) -> S {
        self.target
    }

    /// One morphism of each part.
    pub closed spec fn spec_parts(self) -> M {
        self.parts
    }

    /// One morphism of each part.
    pub fn parts(&self) -> (parts: &M)
        ensures
            *parts == self.spec_parts(),
    {
        &self.parts
    }
}

/// A failure of a joined operation, kept with the part that produced it.
#[derive(Clone, Copy, Debug, Eq, PartialEq)]
pub enum JoinError<L, R, B> {
    /// The left institution failed.
    Left(L),
    /// The right institution failed.
    Right(R),
    /// The bridge failed.
    Bridge(B),
}

/// The signature of a join: one signature of each part.
pub type JoinedSignature<B> = Pair<
    <<B as Bridge>::Left as Institution>::Signature,
    <<B as Bridge>::Right as Institution>::Signature,
>;

/// The signature morphism of a join: one morphism of each part.
pub type JoinedSignatureMorphism<B> = JoinedMorphism<
    JoinedSignature<B>,
    Pair<
        <<B as Bridge>::Left as Institution>::SignatureMorphism,
        <<B as Bridge>::Right as Institution>::SignatureMorphism,
    >,
>;

/// The model of a join: one model of each part.
pub type JoinedModel<B> = Pair<
    <<B as Bridge>::Left as Institution>::Model,
    <<B as Bridge>::Right as Institution>::Model,
>;

/// Sentences relating the two components of a joined model.
///
/// The consumer declares the sentence type, its translation along a joined
/// morphism, and its evaluation over a pair model. Translation and
/// evaluation must satisfy the joined satisfaction condition;
/// `laws::check_satisfaction_square` on the [`Join`] observes it. As for
/// [`Institution`], each operation is described by its `spec_` function.
pub trait Bridge: Sized {
    /// The left part.
    type Left: Institution;

    /// The right part.
    type Right: Institution;

    /// Bridge sentences over a joined signature.
    type Sentence;

    /// Typed evidence of one evaluation.
    type Verdict;

    /// Failures of bridge operations.
    type Error;

    /// The translation of a bridge sentence along a joined morphism.
    spec fn spec_translate_sentence(
        &self,
        morphism: JoinedSignatureMorphism<Self>,
        sentence: Self::Sentence,
    ) -> Result<Self::Sentence, Self::Error>;

    /// The evaluation of a bridge sentence over a joined model.
    spec fn spec_evaluate(
        &self,
        signature: JoinedSignature<Self>,
        model: JoinedModel<Self>,
        sentence: Self::Sentence,
    ) -> Result<Self::Verdict, Self::Error>;

    /// Whether `verdict` reports satisfaction.
    spec fn spec_is_satisfied(verdict: Self::Verdict) -> bool;

    /// Translates a bridge sentence along a joined morphism.
    fn translate_sentence(
        &self,
        morphism: &JoinedSignatureMorphism<Self>,
        sentence: &Self::Sentence,
    ) -> (translated: Result<Self::Sentence, Self::Error>)
        ensures
            translated == self.spec_translate_sentence(*morphism, *sentence),
    ;

    /// Evaluates a bridge sentence over a joined model, keeping the evidence.
    fn evaluate(
        &self,
        signature: &JoinedSignature<Self>,
        model: &JoinedModel<Self>,
        sentence: &Self::Sentence,
    ) -> (verdict: Result<Self::Verdict, Self::Error>)
        ensures
            verdict == self.spec_evaluate(*signature, *model, *sentence),
    ;

    /// Whether `verdict` reports satisfaction.
    fn is_satisfied(verdict: &Self::Verdict) -> (satisfied: bool)
        ensures
            satisfied == Self::spec_is_satisfied(*verdict),
    ;
}

/// Every clone of a value of `T` is equal to it.
pub open spec fn clones_exactly<T: Clone>() -> bool {
    forall|value: T, copy: T| #[trigger] call_ensures(T::clone, (&value,), copy) ==> copy == value
}

/// Two institutions and the bridge relating them.
pub struct Join<B: Bridge> where
    <B::Left as Institution>::Signature: Clone,
    <B::Right as Institution>::Signature: Clone,
{
    left: B::Left,
    right: B::Right,
    bridge: B,
}

impl<B: Bridge> Join<B> where
    <B::Left as Institution>::Signature: Clone,
    <B::Right as Institution>::Signature: Clone,
 {
    /// Joined signatures are copied by cloning their parts, which gives them
    /// back unchanged.
    #[verifier::type_invariant]
    spec fn parts_clone_exactly(self) -> bool {
        &&& clones_exactly::<<B::Left as Institution>::Signature>()
        &&& clones_exactly::<<B::Right as Institution>::Signature>()
    }

    /// The left part.
    pub closed spec fn spec_left(self) -> B::Left {
        self.left
    }

    /// The right part.
    pub closed spec fn spec_right(self) -> B::Right {
        self.right
    }

    /// The bridge.
    pub closed spec fn spec_bridge(self) -> B {
        self.bridge
    }

    /// Joins `left` and `right` through `bridge`. The joined operations copy
    /// part signatures by cloning them, so each part's signatures must clone
    /// to equal values.
    pub fn new(left: B::Left, right: B::Right, bridge: B) -> (join: Self)
        requires
            clones_exactly::<<B::Left as Institution>::Signature>(),
            clones_exactly::<<B::Right as Institution>::Signature>(),
        ensures
            join.spec_left() == left,
            join.spec_right() == right,
            join.spec_bridge() == bridge,
    {
        Self { left, right, bridge }
    }

    /// The left part.
    pub fn left(&self) -> (left: &B::Left)
        ensures
            *left == self.spec_left(),
    {
        &self.left
    }

    /// The right part.
    pub fn right(&self) -> (right: &B::Right)
        ensures
            *right == self.spec_right(),
    {
        &self.right
    }

    /// The bridge.
    pub fn bridge(&self) -> (bridge: &B)
        ensures
            *bridge == self.spec_bridge(),
    {
        &self.bridge
    }

    /// The joined morphism pairing `left` and `right`, with the endpoints
    /// each part reports for its morphism.
    pub closed spec fn spec_morphism(
        self,
        left: <B::Left as Institution>::SignatureMorphism,
        right: <B::Right as Institution>::SignatureMorphism,
    ) -> JoinedSignatureMorphism<B> {
        JoinedMorphism {
            source: Pair { left: self.left.spec_source(left), right: self.right.spec_source(right) },
            target: Pair { left: self.left.spec_target(left), right: self.right.spec_target(right) },
            parts: Pair { left, right },
        }
    }

    /// Pairs one morphism of each part. Endpoints are copied from the parts.
    pub fn morphism(
        &self,
        left: <B::Left as Institution>::SignatureMorphism,
        right: <B::Right as Institution>::SignatureMorphism,
    ) -> (morphism: JoinedSignatureMorphism<B>)
        ensures
            morphism == self.spec_morphism(left, right),
    {
        proof {
            use_type_invariant(self);
        }
        let source = Pair {
            left: self.left.source(&left).clone(),
            right: self.right.source(&right).clone(),
        };
        let target = Pair {
            left: self.left.target(&left).clone(),
            right: self.right.target(&right).clone(),
        };
        JoinedMorphism { source, target, parts: Pair { left, right } }
    }

    /// Embeds the left part with the right component fixed at `right`. The
    /// embedding copies the left part's sentences, models and morphisms by
    /// cloning them, so these must clone to equal values.
    pub fn embed_left(&self, right: <B::Right as Institution>::Signature) -> (embedding:
        LeftEmbedding<'_, B>) where
        <B::Left as Institution>::Sentence: Clone,
        <B::Left as Institution>::Model: Clone,
        <B::Left as Institution>::SignatureMorphism: Clone,

        requires
            clones_exactly::<<B::Left as Institution>::Sentence>(),
            clones_exactly::<<B::Left as Institution>::Model>(),
            clones_exactly::<<B::Left as Institution>::SignatureMorphism>(),
        ensures
            *embedding.spec_join() == *self,
            embedding.spec_fixed() == right,
    {
        LeftEmbedding { join: self, right }
    }

    /// Embeds the right part with the left component fixed at `left`. The
    /// embedding copies the right part's sentences, models and morphisms by
    /// cloning them, so these must clone to equal values.
    pub fn embed_right(&self, left: <B::Left as Institution>::Signature) -> (embedding:
        RightEmbedding<'_, B>) where
        <B::Right as Institution>::Sentence: Clone,
        <B::Right as Institution>::Model: Clone,
        <B::Right as Institution>::SignatureMorphism: Clone,

        requires
            clones_exactly::<<B::Right as Institution>::Sentence>(),
            clones_exactly::<<B::Right as Institution>::Model>(),
            clones_exactly::<<B::Right as Institution>::SignatureMorphism>(),
        ensures
            *embedding.spec_join() == *self,
            embedding.spec_fixed() == left,
    {
        RightEmbedding { join: self, left }
    }
}

impl<B> Institution for Join<B> where
    B: Bridge,
    <B::Left as Institution>::Signature: Clone,
    <B::Right as Institution>::Signature: Clone,
 {
    type Signature = JoinedSignature<B>;

    type SignatureMorphism = JoinedSignatureMorphism<B>;

    type Sentence = JoinedSentence<
        <B::Left as Institution>::Sentence,
        <B::Right as Institution>::Sentence,
        B::Sentence,
    >;

    type Model = JoinedModel<B>;

    type Error = JoinError<
        <B::Left as Institution>::Error,
        <B::Right as Institution>::Error,
        B::Error,
    >;

    closed spec fn spec_source(&self, morphism: Self::SignatureMorphism) -> Self::Signature {
        morphism.source
    }

    closed spec fn spec_target(&self, morphism: Self::SignatureMorphism) -> Self::Signature {
        morphism.target
    }

    closed spec fn spec_identity(&self, signature: Self::Signature) -> Result<
        Self::SignatureMorphism,
        Self::Error,
    > {
        match self.left.spec_identity(signature.left) {
            Err(error) => Err(JoinError::Left(error)),
            Ok(left) => match self.right.spec_identity(signature.right) {
                Err(error) => Err(JoinError::Right(error)),
                Ok(right) => Ok(
                    JoinedMorphism {
                        source: signature,
                        target: signature,
                        parts: Pair { left, right },
                    },
                ),
            },
        }
    }

    closed spec fn spec_compose(
        &self,
        first: Self::SignatureMorphism,
        second: Self::SignatureMorphism,
    ) -> Result<Self::SignatureMorphism, Self::Error> {
        match self.left.spec_compose(first.parts.left, second.parts.left) {
            Err(error) => Err(JoinError::Left(error)),
            Ok(left) => match self.right.spec_compose(first.parts.right, second.parts.right) {
                Err(error) => Err(JoinError::Right(error)),
                Ok(right) => Ok(
                    JoinedMorphism {
                        source: first.source,
                        target: second.target,
                        parts: Pair { left, right },
                    },
                ),
            },
        }
    }

    closed spec fn spec_translate_sentence(
        &self,
        morphism: Self::SignatureMorphism,
        sentence: Self::Sentence,
    ) -> Result<Self::Sentence, Self::Error> {
        match sentence {
            JoinedSentence::Left(sentence) => match self.left.spec_translate_sentence(
                morphism.parts.left,
                sentence,
            ) {
                Ok(translated) => Ok(JoinedSentence::Left(translated)),
                Err(error) => Err(JoinError::Left(error)),
            },
            JoinedSentence::Right(sentence) => match self.right.spec_translate_sentence(
                morphism.parts.right,
                sentence,
            ) {
                Ok(translated) => Ok(JoinedSentence::Right(translated)),
                Err(error) => Err(JoinError::Right(error)),
            },
            JoinedSentence::Bridge(sentence) => match self.bridge.spec_translate_sentence(
                morphism,
                sentence,
            ) {
                Ok(translated) => Ok(JoinedSentence::Bridge(translated)),
                Err(error) => Err(JoinError::Bridge(error)),
            },
        }
    }

    closed spec fn spec_reduct(&self, morphism: Self::SignatureMorphism, model: Self::Model) -> Result<
        Self::Model,
        Self::Error,
    > {
        match self.left.spec_reduct(morphism.parts.left, model.left) {
            Err(error) => Err(JoinError::Left(error)),
            Ok(left) => match self.right.spec_reduct(morphism.parts.right, model.right) {
                Err(error) => Err(JoinError::Right(error)),
                Ok(right) => Ok(Pair { left, right }),
            },
        }
    }

    closed spec fn spec_satisfies(
        &self,
        signature: Self::Signature,
        model: Self::Model,
        sentence: Self::Sentence,
    ) -> Result<bool, Self::Error> {
        match sentence {
            JoinedSentence::Left(sentence) => match self.left.spec_satisfies(
                signature.left,
                model.left,
                sentence,
            ) {
                Ok(satisfied) => Ok(satisfied),
                Err(error) => Err(JoinError::Left(error)),
            },
            JoinedSentence::Right(sentence) => match self.right.spec_satisfies(
                signature.right,
                model.right,
                sentence,
            ) {
                Ok(satisfied) => Ok(satisfied),
                Err(error) => Err(JoinError::Right(error)),
            },
            JoinedSentence::Bridge(sentence) => match self.bridge.spec_evaluate(
                signature,
                model,
                sentence,
            ) {
                Ok(verdict) => Ok(B::spec_is_satisfied(verdict)),
                Err(error) => Err(JoinError::Bridge(error)),
            },
        }
    }

    fn source<'a>(&self, morphism: &'a Self::SignatureMorphism) -> (signature: &'a Self::Signature) {
        &morphism.source
    }

    fn target<'a>(&self, morphism: &'a Self::SignatureMorphism) -> (signature: &'a Self::Signature) {
        &morphism.target
    }

    fn identity(&self, signature: &Self::Signature) -> (morphism: Result<
        Self::SignatureMorphism,
        Self::Error,
    >) {
        let left = match self.left.identity(&signature.left) {
            Ok(morphism) => morphism,
            Err(error) => return Err(JoinError::Left(error)),
        };
        let right = match self.right.identity(&signature.right) {
            Ok(morphism) => morphism,
            Err(error) => return Err(JoinError::Right(error)),
        };
        proof {
            use_type_invariant(self);
        }
        let source = Pair { left: signature.left.clone(), right: signature.right.clone() };
        let target = Pair { left: signature.left.clone(), right: signature.right.clone() };
        Ok(JoinedMorphism { source, target, parts: Pair { left, right } })
    }

    fn compose(&self, first: &Self::SignatureMorphism, second: &Self::SignatureMorphism) -> (composite:
        Result<Self::SignatureMorphism, Self::Error>) {
        let left = match self.left.compose(&first.parts.left, &second.parts.left) {
            Ok(morphism) => morphism,
            Err(error) => return Err(JoinError::Left(error)),
        };
        let right = match self.right.compose(&first.parts.right, &second.parts.right) {
            Ok(morphism) => morphism,
            Err(error) => return Err(JoinError::Right(error)),
        };
        proof {
            use_type_invariant(self);
        }
        let source = Pair { left: first.source.left.clone(), right: first.source.right.clone() };
        let target = Pair { left: second.target.left.clone(), right: second.target.right.clone() };
        Ok(JoinedMorphism { source, target, parts: Pair { left, right } })
    }

    fn translate_sentence(&self, morphism: &Self::SignatureMorphism, sentence: &Self::Sentence) -> (translated:
        Result<Self::Sentence, Self::Error>) {
        match sentence {
            JoinedSentence::Left(sentence) => match self.left.translate_sentence(
                &morphism.parts.left,
                sentence,
            ) {
                Ok(translated) => Ok(JoinedSentence::Left(translated)),
                Err(error) => Err(JoinError::Left(error)),
            },
            JoinedSentence::Right(sentence) => match self.right.translate_sentence(
                &morphism.parts.right,
                sentence,
            ) {
                Ok(translated) => Ok(JoinedSentence::Right(translated)),
                Err(error) => Err(JoinError::Right(error)),
            },
            JoinedSentence::Bridge(sentence) => match self.bridge.translate_sentence(
                morphism,
                sentence,
            ) {
                Ok(translated) => Ok(JoinedSentence::Bridge(translated)),
                Err(error) => Err(JoinError::Bridge(error)),
            },
        }
    }

    fn reduct(&self, morphism: &Self::SignatureMorphism, model: &Self::Model) -> (reduced: Result<
        Self::Model,
        Self::Error,
    >) {
        let left = match self.left.reduct(&morphism.parts.left, &model.left) {
            Ok(reduced) => reduced,
            Err(error) => return Err(JoinError::Left(error)),
        };
        let right = match self.right.reduct(&morphism.parts.right, &model.right) {
            Ok(reduced) => reduced,
            Err(error) => return Err(JoinError::Right(error)),
        };
        Ok(Pair { left, right })
    }

    fn satisfies(
        &self,
        signature: &Self::Signature,
        model: &Self::Model,
        sentence: &Self::Sentence,
    ) -> (satisfied: Result<bool, Self::Error>) {
        match sentence {
            JoinedSentence::Left(sentence) => match self.left.satisfies(
                &signature.left,
                &model.left,
                sentence,
            ) {
                Ok(satisfied) => Ok(satisfied),
                Err(error) => Err(JoinError::Left(error)),
            },
            JoinedSentence::Right(sentence) => match self.right.satisfies(
                &signature.right,
                &model.right,
                sentence,
            ) {
                Ok(satisfied) => Ok(satisfied),
                Err(error) => Err(JoinError::Right(error)),
            },
            JoinedSentence::Bridge(sentence) => match self.bridge.evaluate(
                signature,
                model,
                sentence,
            ) {
                Ok(verdict) => Ok(B::is_satisfied(&verdict)),
                Err(error) => Err(JoinError::Bridge(error)),
            },
        }
    }
}

/// The left part's comorphism into the join, for a fixed right signature.
pub struct LeftEmbedding<'a, B: Bridge> where
    <B::Left as Institution>::Signature: Clone,
    <B::Right as Institution>::Signature: Clone,
    <B::Left as Institution>::Sentence: Clone,
    <B::Left as Institution>::Model: Clone,
    <B::Left as Institution>::SignatureMorphism: Clone,
 {
    join: &'a Join<B>,
    right: <B::Right as Institution>::Signature,
}

impl<'a, B: Bridge> LeftEmbedding<'a, B> where
    <B::Left as Institution>::Signature: Clone,
    <B::Right as Institution>::Signature: Clone,
    <B::Left as Institution>::Sentence: Clone,
    <B::Left as Institution>::Model: Clone,
    <B::Left as Institution>::SignatureMorphism: Clone,
 {
    /// The left part's sentences, models and morphisms are copied by
    /// cloning, which gives them back unchanged.
    #[verifier::type_invariant]
    spec fn values_clone_exactly(self) -> bool {
        &&& clones_exactly::<<B::Left as Institution>::Sentence>()
        &&& clones_exactly::<<B::Left as Institution>::Model>()
        &&& clones_exactly::<<B::Left as Institution>::SignatureMorphism>()
    }

    /// The join embedded into.
    pub closed spec fn spec_join(self) -> &'a Join<B> {
        self.join
    }

    /// The fixed right signature.
    pub closed spec fn spec_fixed(self) -> <B::Right as Institution>::Signature {
        self.right
    }
}

/// The right part's comorphism into the join, for a fixed left signature.
pub struct RightEmbedding<'a, B: Bridge> where
    <B::Left as Institution>::Signature: Clone,
    <B::Right as Institution>::Signature: Clone,
    <B::Right as Institution>::Sentence: Clone,
    <B::Right as Institution>::Model: Clone,
    <B::Right as Institution>::SignatureMorphism: Clone,
 {
    join: &'a Join<B>,
    left: <B::Left as Institution>::Signature,
}

impl<'a, B: Bridge> RightEmbedding<'a, B> where
    <B::Left as Institution>::Signature: Clone,
    <B::Right as Institution>::Signature: Clone,
    <B::Right as Institution>::Sentence: Clone,
    <B::Right as Institution>::Model: Clone,
    <B::Right as Institution>::SignatureMorphism: Clone,
 {
    /// The right part's sentences, models and morphisms are copied by
    /// cloning, which gives them back unchanged.
    #[verifier::type_invariant]
    spec fn values_clone_exactly(self) -> bool {
        &&& clones_exactly::<<B::Right as Institution>::Sentence>()
        &&& clones_exactly::<<B::Right as Institution>::Model>()
        &&& clones_exactly::<<B::Right as Institution>::SignatureMorphism>()
    }

    /// The join embedded into.
    pub closed spec fn spec_join(self) -> &'a Join<B> {
        self.join
    }

    /// The fixed left signature.
    pub closed spec fn spec_fixed(self) -> <B::Left as Institution>::Signature {
        self.left
    }
}

impl<'a, B> Comorphism for LeftEmbedding<'a, B> where
    B: Bridge,
    <B::Left as Institution>::Signature: Clone,
    <B::Right as Institution>::Signature: Clone,
    <B::Left as Institution>::Sentence: Clone,
    <B::Left as Institution>::Model: Clone,
    <B::Left as Institution>::SignatureMorphism: Clone,
 {
    type Source = B::Left;

    type Target = Join<B>;

    /// Only mapping a morphism can fail: it needs the right part's identity.
    type Error = <B::Right as Institution>::Error;

    closed spec fn spec_source_institution(&self) -> Self::Source {
        self.join.left
    }

    closed spec fn spec_target_institution(&self) -> Self::Target {
        *self.join
    }

    closed spec fn spec_map_signature(
        &self,
        signature: <Self::Source as Institution>::Signature,
    ) -> Result<<Self::Target as Institution>::Signature, Self::Error> {
        Ok(Pair { left: signature, right: self.right })
    }

    closed spec fn spec_map_signature_morphism(
        &self,
        morphism: <Self::Source as Institution>::SignatureMorphism,
    ) -> Result<<Self::Target as Institution>::SignatureMorphism, Self::Error> {
        match self.join.right.spec_identity(self.right) {
            Err(error) => Err(error),
            Ok(identity) => Ok(self.join.spec_morphism(morphism, identity)),
        }
    }

    closed spec fn spec_translate_sentence(
        &self,
        signature: <Self::Source as Institution>::Signature,
        sentence: <Self::Source as Institution>::Sentence,
    ) -> Result<<Self::Target as Institution>::Sentence, Self::Error> {
        Ok(JoinedSentence::Left(sentence))
    }

    closed spec fn spec_reduct(
        &self,
        signature: <Self::Source as Institution>::Signature,
        model: <Self::Target as Institution>::Model,
    ) -> Result<<Self::Source as Institution>::Model, Self::Error> {
        Ok(model.left)
    }

    fn source_institution(&self) -> (institution: &Self::Source) {
        self.join.left()
    }

    fn target_institution(&self) -> (institution: &Self::Target) {
        self.join
    }

    fn map_signature(&self, signature: &<Self::Source as Institution>::Signature) -> (mapped: Result<
        <Self::Target as Institution>::Signature,
        Self::Error,
    >) {
        proof {
            use_type_invariant(self.join);
        }
        Ok(Pair { left: signature.clone(), right: self.right.clone() })
    }

    fn map_signature_morphism(
        &self,
        morphism: &<Self::Source as Institution>::SignatureMorphism,
    ) -> (mapped: Result<<Self::Target as Institution>::SignatureMorphism, Self::Error>) {
        let identity = match self.join.right().identity(&self.right) {
            Ok(identity) => identity,
            Err(error) => return Err(error),
        };
        proof {
            use_type_invariant(self);
        }
        Ok(self.join.morphism(morphism.clone(), identity))
    }

    fn translate_sentence(
        &self,
        signature: &<Self::Source as Institution>::Signature,
        sentence: &<Self::Source as Institution>::Sentence,
    ) -> (translated: Result<<Self::Target as Institution>::Sentence, Self::Error>) {
        proof {
            use_type_invariant(self);
        }
        Ok(JoinedSentence::Left(sentence.clone()))
    }

    fn reduct(
        &self,
        signature: &<Self::Source as Institution>::Signature,
        model: &<Self::Target as Institution>::Model,
    ) -> (reduced: Result<<Self::Source as Institution>::Model, Self::Error>) {
        proof {
            use_type_invariant(self);
        }
        Ok(model.left.clone())
    }
}

impl<'a, B> Comorphism for RightEmbedding<'a, B> where
    B: Bridge,
    <B::Left as Institution>::Signature: Clone,
    <B::Right as Institution>::Signature: Clone,
    <B::Right as Institution>::Sentence: Clone,
    <B::Right as Institution>::Model: Clone,
    <B::Right as Institution>::SignatureMorphism: Clone,
 {
    type Source = B::Right;

    type Target = Join<B>;

    /// Only mapping a morphism can fail: it needs the left part's identity.
    type Error = <B::Left as Institution>::Error;

    closed spec fn spec_source_institution(&self) -> Self::Source {
        self.join.right
    }

    closed spec fn spec_target_institution(&self) -> Self::Target {
        *self.join
    }

    closed spec fn spec_map_signature(
        &self,
        signature: <Self::Source as Institution>::Signature,
    ) -> Result<<Self::Target as Institution>::Signature, Self::Error> {
        Ok(Pair { left: self.left, right: signature })
    }

    closed spec fn spec_map_signature_morphism(
        &self,
        morphism: <Self::Source as Institution>::SignatureMorphism,
    ) -> Result<<Self::Target as Institution>::SignatureMorphism, Self::Error> {
        match self.join.left.spec_identity(self.left) {
            Err(error) => Err(error),
            Ok(identity) => Ok(self.join.spec_morphism(identity, morphism)),
        }
    }

    closed spec fn spec_translate_sentence(
        &self,
        signature: <Self::Source as Institution>::Signature,
        sentence: <Self::Source as Institution>::Sentence,
    ) -> Result<<Self::Target as Institution>::Sentence, Self::Error> {
        Ok(JoinedSentence::Right(sentence))
    }

    closed spec fn spec_reduct(
        &self,
        signature: <Self::Source as Institution>::Signature,
        model: <Self::Target as Institution>::Model,
    ) -> Result<<Self::Source as Institution>::Model, Self::Error> {
        Ok(model.right)
    }

    fn source_institution(&self) -> (institution: &Self::Source) {
        self.join.right()
    }

    fn target_institution(&self) -> (institution: &Self::Target) {
        self.join
    }

    fn map_signature(&self, signature: &<Self::Source as Institution>::Signature) -> (mapped: Result<
        <Self::Target as Institution>::Signature,
        Self::Error,
    >) {
        proof {
            use_type_invariant(self.join);
        }
        Ok(Pair { left: self.left.clone(), right: signature.clone() })
    }

    fn map_signature_morphism(
        &self,
        morphism: &<Self::Source as Institution>::SignatureMorphism,
    ) -> (mapped: Result<<Self::Target as Institution>::SignatureMorphism, Self::Error>) {
        let identity = match self.join.left().identity(&self.left) {
            Ok(identity) => identity,
            Err(error) => return Err(error),
        };
        proof {
            use_type_invariant(self);
        }
        Ok(self.join.morphism(identity, morphism.clone()))
    }

    fn translate_sentence(
        &self,
        signature: &<Self::Source as Institution>::Signature,
        sentence: &<Self::Source as Institution>::Sentence,
    ) -> (translated: Result<<Self::Target as Institution>::Sentence, Self::Error>) {
        proof {
            use_type_invariant(self);
        }
        Ok(JoinedSentence::Right(sentence.clone()))
    }

    fn reduct(
        &self,
        signature: &<Self::Source as Institution>::Signature,
        model: &<Self::Target as Institution>::Model,
    ) -> (reduced: Result<<Self::Source as Institution>::Model, Self::Error>) {
        proof {
            use_type_invariant(self);
        }
        Ok(model.right.clone())
    }
}

/// The endpoints of `morphism` are those its two parts report.
pub open spec fn endpoints_agree<B: Bridge>(join: Join<B>, morphism: JoinedSignatureMorphism<B>) -> bool where
    <B::Left as Institution>::Signature: Clone,
    <B::Right as Institution>::Signature: Clone,
 {
    &&& morphism.spec_source().left == join.spec_left().spec_source(morphism.spec_parts().left)
    &&& morphism.spec_source().right == join.spec_right().spec_source(morphism.spec_parts().right)
    &&& morphism.spec_target().left == join.spec_left().spec_target(morphism.spec_parts().left)
    &&& morphism.spec_target().right == join.spec_right().spec_target(morphism.spec_parts().right)
}

/// A left-part result with its error kept as a left failure of the join.
pub open spec fn as_left_failure<T, L, R, E>(result: Result<T, L>) -> Result<T, JoinError<L, R, E>> {
    match result {
        Ok(value) => Ok(value),
        Err(error) => Err(JoinError::Left(error)),
    }
}

/// A right-part result with its error kept as a right failure of the join.
pub open spec fn as_right_failure<T, L, R, E>(result: Result<T, R>) -> Result<T, JoinError<L, R, E>> {
    match result {
        Ok(value) => Ok(value),
        Err(error) => Err(JoinError::Right(error)),
    }
}

/// A joined morphism made by [`Join::morphism`] has the endpoints its parts
/// report.
pub proof fn lemma_morphism_endpoints<B: Bridge>(
    join: Join<B>,
    left: <B::Left as Institution>::SignatureMorphism,
    right: <B::Right as Institution>::SignatureMorphism,
) where
    <B::Left as Institution>::Signature: Clone,
    <B::Right as Institution>::Signature: Clone,

    ensures
        join.spec_morphism(left, right).spec_parts() == (Pair { left, right }),
        endpoints_agree(join, join.spec_morphism(left, right)),
{
}

/// The identity of a joined signature starts and ends at that signature, and
/// a composite starts where the first morphism starts and ends where the
/// second ends.
pub proof fn lemma_join_endpoints<B: Bridge>(
    join: Join<B>,
    signature: JoinedSignature<B>,
    first: JoinedSignatureMorphism<B>,
    second: JoinedSignatureMorphism<B>,
) where
    <B::Left as Institution>::Signature: Clone,
    <B::Right as Institution>::Signature: Clone,

    ensures
        join.spec_identity(signature) matches Ok(identity) ==> join.spec_source(identity)
            == signature && join.spec_target(identity) == signature,
        join.spec_compose(first, second) matches Ok(composite) ==> join.spec_source(composite)
            == join.spec_source(first) && join.spec_target(composite) == join.spec_target(second),
{
}

/// A joined morphism starts and ends at the signatures it carries.
pub proof fn lemma_join_source_target<B: Bridge>(join: Join<B>, morphism: JoinedSignatureMorphism<B>) where
    <B::Left as Institution>::Signature: Clone,
    <B::Right as Institution>::Signature: Clone,

    ensures
        join.spec_source(morphism) == morphism.spec_source(),
        join.spec_target(morphism) == morphism.spec_target(),
{
}

/// The identity of a joined signature fails with the left part's error when
/// the left part has no identity, else with the right part's error when the
/// right part has none; otherwise it pairs the two identities and starts and
/// ends at the signature.
pub proof fn lemma_join_identity<B: Bridge>(join: Join<B>, signature: JoinedSignature<B>) where
    <B::Left as Institution>::Signature: Clone,
    <B::Right as Institution>::Signature: Clone,

    ensures
        match join.spec_left().spec_identity(signature.left) {
            Err(error) => join.spec_identity(signature) == Err::<
                JoinedSignatureMorphism<B>,
                <Join<B> as Institution>::Error,
            >(JoinError::Left(error)),
            Ok(left) => match join.spec_right().spec_identity(signature.right) {
                Err(error) => join.spec_identity(signature) == Err::<
                    JoinedSignatureMorphism<B>,
                    <Join<B> as Institution>::Error,
                >(JoinError::Right(error)),
                Ok(right) => join.spec_identity(signature) matches Ok(identity)
                    && identity.spec_source() == signature && identity.spec_target() == signature
                    && identity.spec_parts() == (Pair { left, right }),
            },
        },
{
}

/// A joined composite fails with the left part's error when the left
/// morphisms do not compose, else with the right part's error; otherwise it
/// pairs the two composites, starting where `first` starts and ending where
/// `second` ends.
pub proof fn lemma_join_compose<B: Bridge>(
    join: Join<B>,
    first: JoinedSignatureMorphism<B>,
    second: JoinedSignatureMorphism<B>,
) where
    <B::Left as Institution>::Signature: Clone,
    <B::Right as Institution>::Signature: Clone,

    ensures
        match join.spec_left().spec_compose(first.spec_parts().left, second.spec_parts().left) {
            Err(error) => join.spec_compose(first, second) == Err::<
                JoinedSignatureMorphism<B>,
                <Join<B> as Institution>::Error,
            >(JoinError::Left(error)),
            Ok(left) => match join.spec_right().spec_compose(
                first.spec_parts().right,
                second.spec_parts().right,
            ) {
                Err(error) => join.spec_compose(first, second) == Err::<
                    JoinedSignatureMorphism<B>,
                    <Join<B> as Institution>::Error,
                >(JoinError::Right(error)),
                Ok(right) => join.spec_compose(first, second) matches Ok(composite)
                    && composite.spec_source() == first.spec_source() && composite.spec_target()
                    == second.spec_target() && composite.spec_parts() == (Pair { left, right }),
            },
        },
{
}

/// A left sentence is translated by the left part along the left morphism,
/// a right sentence by the right part along the right morphism, and a bridge
/// sentence by the bridge along the joined morphism; a failure is kept with
/// the side that produced it.
pub proof fn lemma_join_translate_sentence<B: Bridge>(
    join: Join<B>,
    morphism: JoinedSignatureMorphism<B>,
    sentence: <Join<B> as Institution>::Sentence,
) where
    <B::Left as Institution>::Signature: Clone,
    <B::Right as Institution>::Signature: Clone,

    ensures
        join.spec_translate_sentence(morphism, sentence) == match sentence {
            JoinedSentence::Left(left) => match join.spec_left().spec_translate_sentence(
                morphism.spec_parts().left,
                left,
            ) {
                Ok(translated) => Ok(JoinedSentence::Left(translated)),
                Err(error) => Err(JoinError::Left(error)),
            },
            JoinedSentence::Right(right) => match join.spec_right().spec_translate_sentence(
                morphism.spec_parts().right,
                right,
            ) {
                Ok(translated) => Ok(JoinedSentence::Right(translated)),
                Err(error) => Err(JoinError::Right(error)),
            },
            JoinedSentence::Bridge(bridged) => match join.spec_bridge().spec_translate_sentence(
                morphism,
                bridged,
            ) {
                Ok(translated) => Ok(JoinedSentence::Bridge(translated)),
                Err(error) => Err(JoinError::Bridge(error)),
            },
        },
{
}

/// The reduct of a pair model fails with the left part's error when the left
/// component cannot be reduced, else with the right part's error; otherwise
/// it pairs the two reducts.
pub proof fn lemma_join_reduct<B: Bridge>(
    join: Join<B>,
    morphism: JoinedSignatureMorphism<B>,
    model: JoinedModel<B>,
) where
    <B::Left as Institution>::Signature: Clone,
    <B::Right as Institution>::Signature: Clone,

    ensures
        join.spec_reduct(morphism, model) == match join.spec_left().spec_reduct(
            morphism.spec_parts().left,
            model.left,
        ) {
            Err(error) => Err::<JoinedModel<B>, <Join<B> as Institution>::Error>(
                JoinError::Left(error),
            ),
            Ok(left) => match join.spec_right().spec_reduct(morphism.spec_parts().right, model.right) {
                Err(error) => Err(JoinError::Right(error)),
                Ok(right) => Ok(Pair { left, right }),
            },
        },
{
}

/// A left sentence is decided by the left part over the left components, a
/// right sentence by the right part over the right components, and a bridge
/// sentence by whether the bridge's verdict reports satisfaction; a failure
/// is kept with the side that produced it.
pub proof fn lemma_join_satisfies<B: Bridge>(
    join: Join<B>,
    signature: JoinedSignature<B>,
    model: JoinedModel<B>,
    sentence: <Join<B> as Institution>::Sentence,
) where
    <B::Left as Institution>::Signature: Clone,
    <B::Right as Institution>::Signature: Clone,

    ensures
        join.spec_satisfies(signature, model, sentence) == match sentence {
            JoinedSentence::Left(left) => match join.spec_left().spec_satisfies(
                signature.left,
                model.left,
                left,
            ) {
                Ok(satisfied) => Ok(satisfied),
                Err(error) => Err(JoinError::Left(error)),
            },
            JoinedSentence::Right(right) => match join.spec_right().spec_satisfies(
                signature.right,
                model.right,
                right,
            ) {
                Ok(satisfied) => Ok(satisfied),
                Err(error) => Err(JoinError::Right(error)),
            },
            JoinedSentence::Bridge(bridged) => match join.spec_bridge().spec_evaluate(
                signature,
                model,
                bridged,
            ) {
                Ok(verdict) => Ok(B::spec_is_satisfied(verdict)),
                Err(error) => Err(JoinError::Bridge(error)),
            },
        },
{
}

/// The join satisfies the identity law at a morphism whose endpoints agree
/// with its parts whenever both parts satisfy it at their morphisms.
pub proof fn lemma_join_identity_law<B: Bridge>(join: Join<B>, morphism: JoinedSignatureMorphism<B>) where
    <B::Left as Institution>::Signature: Clone,
    <B::Right as Institution>::Signature: Clone,

    requires
        endpoints_agree(join, morphism),
        identity_law_holds(join.spec_left(), morphism.spec_parts().left),
        identity_law_holds(join.spec_right(), morphism.spec_parts().right),
    ensures
        identity_law_holds(join, morphism),
{
    let source_identity = join.spec_identity(join.spec_source(morphism))->Ok_0;
    let target_identity = join.spec_identity(join.spec_target(morphism))->Ok_0;
    assert(join.spec_compose(source_identity, morphism) == Ok::<
        JoinedSignatureMorphism<B>,
        <Join<B> as Institution>::Error,
    >(morphism));
    assert(join.spec_compose(morphism, target_identity) == Ok::<
        JoinedSignatureMorphism<B>,
        <Join<B> as Institution>::Error,
    >(morphism));
}

/// The join satisfies associativity whenever both parts do at their
/// morphisms.
pub proof fn lemma_join_associativity_law<B: Bridge>(
    join: Join<B>,
    first: JoinedSignatureMorphism<B>,
    second: JoinedSignatureMorphism<B>,
    third: JoinedSignatureMorphism<B>,
) where
    <B::Left as Institution>::Signature: Clone,
    <B::Right as Institution>::Signature: Clone,

    requires
        associativity_law_holds(
            join.spec_left(),
            first.spec_parts().left,
            second.spec_parts().left,
            third.spec_parts().left,
        ),
        associativity_law_holds(
            join.spec_right(),
            first.spec_parts().right,
            second.spec_parts().right,
            third.spec_parts().right,
        ),
    ensures
        associativity_law_holds(join, first, second, third),
{
}

/// Translating a left sentence along the identity of a joined signature gives
/// it back whenever the left part's identity law holds for it and the right
/// part has an identity; likewise for right sentences.
pub proof fn lemma_join_sentence_identity_law<B: Bridge>(
    join: Join<B>,
    signature: JoinedSignature<B>,
    sentence: <Join<B> as Institution>::Sentence,
) where
    <B::Left as Institution>::Signature: Clone,
    <B::Right as Institution>::Signature: Clone,

    requires
        join.spec_left().spec_identity(signature.left) is Ok,
        join.spec_right().spec_identity(signature.right) is Ok,
        sentence matches JoinedSentence::Left(left) ==> sentence_identity_law_holds(
            join.spec_left(),
            signature.left,
            left,
        ),
        sentence matches JoinedSentence::Right(right) ==> sentence_identity_law_holds(
            join.spec_right(),
            signature.right,
            right,
        ),
        sentence is Left || sentence is Right,
    ensures
        sentence_identity_law_holds(join, signature, sentence),
{
}

/// Translating a left or right sentence along a joined composite is
/// translating along the two morphisms in turn whenever that part's
/// composition law holds for it and the other part's composite exists.
pub proof fn lemma_join_sentence_composition_law<B: Bridge>(
    join: Join<B>,
    first: JoinedSignatureMorphism<B>,
    second: JoinedSignatureMorphism<B>,
    sentence: <Join<B> as Institution>::Sentence,
) where
    <B::Left as Institution>::Signature: Clone,
    <B::Right as Institution>::Signature: Clone,

    requires
        join.spec_left().spec_compose(first.spec_parts().left, second.spec_parts().left) is Ok,
        join.spec_right().spec_compose(first.spec_parts().right, second.spec_parts().right) is Ok,
        sentence matches JoinedSentence::Left(left) ==> sentence_composition_law_holds(
            join.spec_left(),
            first.spec_parts().left,
            second.spec_parts().left,
            left,
        ),
        sentence matches JoinedSentence::Right(right) ==> sentence_composition_law_holds(
            join.spec_right(),
            first.spec_parts().right,
            second.spec_parts().right,
            right,
        ),
        sentence is Left || sentence is Right,
    ensures
        sentence_composition_law_holds(join, first, second, sentence),
{
}

/// The join satisfies the model identity law at a pair model whenever both
/// parts do at its components.
pub proof fn lemma_join_model_identity_law<B: Bridge>(
    join: Join<B>,
    signature: JoinedSignature<B>,
    model: JoinedModel<B>,
) where
    <B::Left as Institution>::Signature: Clone,
    <B::Right as Institution>::Signature: Clone,

    requires
        model_identity_law_holds(join.spec_left(), signature.left, model.left),
        model_identity_law_holds(join.spec_right(), signature.right, model.right),
    ensures
        model_identity_law_holds(join, signature, model),
{
}

/// The join satisfies the model composition law at a pair model whenever
/// both parts do at its components.
pub proof fn lemma_join_model_composition_law<B: Bridge>(
    join: Join<B>,
    first: JoinedSignatureMorphism<B>,
    second: JoinedSignatureMorphism<B>,
    model: JoinedModel<B>,
) where
    <B::Left as Institution>::Signature: Clone,
    <B::Right as Institution>::Signature: Clone,

    requires
        model_composition_law_holds(
            join.spec_left(),
            first.spec_parts().left,
            second.spec_parts().left,
            model.left,
        ),
        model_composition_law_holds(
            join.spec_right(),
            first.spec_parts().right,
            second.spec_parts().right,
            model.right,
        ),
    ensures
        model_composition_law_holds(join, first, second, model),
{
}

/// The satisfaction square of a left sentence in the join is the left part's
/// square, with left errors kept as left failures, whenever the joined
/// morphism's endpoints agree with its parts and the right part can reduce
/// the right component of the model.
pub proof fn lemma_join_left_square<B: Bridge>(
    join: Join<B>,
    morphism: JoinedSignatureMorphism<B>,
    sentence: <B::Left as Institution>::Sentence,
    model: JoinedModel<B>,
) where
    <B::Left as Institution>::Signature: Clone,
    <B::Right as Institution>::Signature: Clone,

    requires
        endpoints_agree(join, morphism),
        join.spec_right().spec_reduct(morphism.spec_parts().right, model.right) is Ok,
    ensures
        square_outcome(join, morphism, JoinedSentence::Left(sentence), model) == as_left_failure::<
            (bool, bool),
            <B::Left as Institution>::Error,
            <B::Right as Institution>::Error,
            B::Error,
        >(square_outcome(join.spec_left(), morphism.spec_parts().left, sentence, model.left)),
        satisfaction_condition_holds(join, morphism, JoinedSentence::Left(sentence), model)
            <==> satisfaction_condition_holds(
            join.spec_left(),
            morphism.spec_parts().left,
            sentence,
            model.left,
        ),
{
}

/// The satisfaction square of a right sentence in the join is the right
/// part's square, with right errors kept as right failures, whenever the
/// joined morphism's endpoints agree with its parts and the left part can
/// reduce the left component of the model.
pub proof fn lemma_join_right_square<B: Bridge>(
    join: Join<B>,
    morphism: JoinedSignatureMorphism<B>,
    sentence: <B::Right as Institution>::Sentence,
    model: JoinedModel<B>,
) where
    <B::Left as Institution>::Signature: Clone,
    <B::Right as Institution>::Signature: Clone,

    requires
        endpoints_agree(join, morphism),
        join.spec_left().spec_reduct(morphism.spec_parts().left, model.left) is Ok,
    ensures
        square_outcome(join, morphism, JoinedSentence::Right(sentence), model)
            == as_right_failure::<
            (bool, bool),
            <B::Left as Institution>::Error,
            <B::Right as Institution>::Error,
            B::Error,
        >(square_outcome(join.spec_right(), morphism.spec_parts().right, sentence, model.right)),
        satisfaction_condition_holds(join, morphism, JoinedSentence::Right(sentence), model)
            <==> satisfaction_condition_holds(
            join.spec_right(),
            morphism.spec_parts().right,
            sentence,
            model.right,
        ),
{
}

/// The left embedding satisfies the comorphism satisfaction condition: for
/// every left signature, left sentence and joined model, both observations
/// are the left part's verdict on the left component, and the only failure
/// is that verdict's, reported from the target side.
pub proof fn lemma_left_embedding_condition<'a, B: Bridge>(
    embedding: LeftEmbedding<'a, B>,
    signature: <B::Left as Institution>::Signature,
    sentence: <B::Left as Institution>::Sentence,
    model: JoinedModel<B>,
) where
    <B::Left as Institution>::Signature: Clone,
    <B::Right as Institution>::Signature: Clone,
    <B::Left as Institution>::Sentence: Clone,
    <B::Left as Institution>::Model: Clone,
    <B::Left as Institution>::SignatureMorphism: Clone,

    ensures
        comorphism_square_outcome(embedding, signature, sentence, model) == match embedding.spec_join().spec_left().spec_satisfies(signature, model.left, sentence) {
            Ok(satisfied) => Ok((satisfied, satisfied)),
            Err(error) => Err::<(bool, bool), ComorphismLawError<LeftEmbedding<'a, B>>>(ComorphismError::Target(JoinError::Left(error))),
        },
{
}

/// The right embedding satisfies the comorphism satisfaction condition: for
/// every right signature, right sentence and joined model, both observations
/// are the right part's verdict on the right component, and the only failure
/// is that verdict's, reported from the target side.
pub proof fn lemma_right_embedding_condition<'a, B: Bridge>(
    embedding: RightEmbedding<'a, B>,
    signature: <B::Right as Institution>::Signature,
    sentence: <B::Right as Institution>::Sentence,
    model: JoinedModel<B>,
) where
    <B::Left as Institution>::Signature: Clone,
    <B::Right as Institution>::Signature: Clone,
    <B::Right as Institution>::Sentence: Clone,
    <B::Right as Institution>::Model: Clone,
    <B::Right as Institution>::SignatureMorphism: Clone,

    ensures
        comorphism_square_outcome(embedding, signature, sentence, model) == match embedding.spec_join().spec_right().spec_satisfies(signature, model.right, sentence) {
            Ok(satisfied) => Ok((satisfied, satisfied)),
            Err(error) => Err::<(bool, bool), ComorphismLawError<RightEmbedding<'a, B>>>(ComorphismError::Target(JoinError::Right(error))),
        },
{
}

/// The left embedding maps the identity on a left signature to the identity
/// on the mapped joined signature, whenever that identity starts and ends at
/// the signature and the right part's identity on the fixed signature starts
/// and ends there too.
pub proof fn lemma_left_embedding_preserves_identity<'a, B: Bridge>(
    embedding: LeftEmbedding<'a, B>,
    signature: <B::Left as Institution>::Signature,
) where
    <B::Left as Institution>::Signature: Clone,
    <B::Right as Institution>::Signature: Clone,
    <B::Left as Institution>::Sentence: Clone,
    <B::Left as Institution>::Model: Clone,
    <B::Left as Institution>::SignatureMorphism: Clone,

    requires
        embedding.spec_join().spec_left().spec_identity(signature) matches Ok(identity)
            && embedding.spec_join().spec_left().spec_source(identity) == signature
            && embedding.spec_join().spec_left().spec_target(identity) == signature,
        embedding.spec_join().spec_right().spec_identity(embedding.spec_fixed()) matches Ok(fixed_identity)
            && embedding.spec_join().spec_right().spec_source(fixed_identity) == embedding.spec_fixed()
            && embedding.spec_join().spec_right().spec_target(fixed_identity) == embedding.spec_fixed(),
    ensures
        ({
            let identity = embedding.spec_join().spec_left().spec_identity(signature)->Ok_0;
            &&& embedding.spec_map_signature(signature) == Ok::<JoinedSignature<B>, <B::Right as Institution>::Error>(Pair { left: signature, right: embedding.spec_fixed() })
            &&& embedding.spec_map_signature_morphism(identity) matches Ok(mapped)
            &&& embedding.spec_join().spec_identity(Pair { left: signature, right: embedding.spec_fixed() }) == Ok::<JoinedSignatureMorphism<B>, <Join<B> as Institution>::Error>(mapped)
        }),
{
}

/// The right embedding maps the identity on a right signature to the
/// identity on the mapped joined signature, whenever that identity starts and
/// ends at the signature and the left part's identity on the fixed signature
/// starts and ends there too.
pub proof fn lemma_right_embedding_preserves_identity<'a, B: Bridge>(
    embedding: RightEmbedding<'a, B>,
    signature: <B::Right as Institution>::Signature,
) where
    <B::Left as Institution>::Signature: Clone,
    <B::Right as Institution>::Signature: Clone,
    <B::Right as Institution>::Sentence: Clone,
    <B::Right as Institution>::Model: Clone,
    <B::Right as Institution>::SignatureMorphism: Clone,

    requires
        embedding.spec_join().spec_right().spec_identity(signature) matches Ok(identity)
            && embedding.spec_join().spec_right().spec_source(identity) == signature
            && embedding.spec_join().spec_right().spec_target(identity) == signature,
        embedding.spec_join().spec_left().spec_identity(embedding.spec_fixed()) matches Ok(fixed_identity)
            && embedding.spec_join().spec_left().spec_source(fixed_identity) == embedding.spec_fixed()
            && embedding.spec_join().spec_left().spec_target(fixed_identity) == embedding.spec_fixed(),
    ensures
        ({
            let identity = embedding.spec_join().spec_right().spec_identity(signature)->Ok_0;
            &&& embedding.spec_map_signature(signature) == Ok::<JoinedSignature<B>, <B::Left as Institution>::Error>(Pair { left: embedding.spec_fixed(), right: signature })
            &&& embedding.spec_map_signature_morphism(identity) matches Ok(mapped)
            &&& embedding.spec_join().spec_identity(Pair { left: embedding.spec_fixed(), right: signature }) == Ok::<JoinedSignatureMorphism<B>, <Join<B> as Institution>::Error>(mapped)
        }),
{
}

} // verus!
