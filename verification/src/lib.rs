//! Executable foundations for Goguen-style institutions.
//!
//! An institution connects signatures, signature morphisms, sentences, models,
//! and satisfaction. Every operation of [`Institution`] is described by a spec
//! function of the same name, so that the observations in [`laws`] and the
//! generic constructions in [`join`] can be stated and proved over them.
//! [`conservation`] holds the signatures, renamings, sentences and models of
//! exact balance laws over finite traces, with a satisfaction verdict that
//! the caller supplies, and [`stock_flow`] renames stock-flow carriers
//! ([`carrier`]) while preserving their structure.
use vstd::prelude::*;

pub mod carrier;
pub mod comorphism;
pub mod conservation;
pub mod conservation_laws;
pub mod join;
pub mod laws;
pub mod stock_flow;
pub mod symbol_map;

verus! {

/// Core executable operations of a Goguen-style institution.
///
/// For a signature morphism `m: source -> target`, sentence translation is
/// covariant (`source` to `target`) and model reduct is contravariant (`target`
/// to `source`). Each operation is a function of its arguments: its result is
/// the value of the matching `spec_` function. The signature-category,
/// functoriality and satisfaction laws are not demanded here; [`laws`] makes
/// them observable on supplied examples.
pub trait Institution {
    /// The language vocabulary over which sentences and models are formed.
    type Signature;

    /// A morphism carrying an explicit source and target signature.
    type SignatureMorphism;

    /// A sentence over a signature.
    type Sentence;

    /// A model over a signature.
    type Model;

    /// An error produced by executable institution operations.
    type Error;

    /// The source signature of `morphism`.
    spec fn spec_source(&self, morphism: Self::SignatureMorphism) -> Self::Signature;

    /// The target signature of `morphism`.
    spec fn spec_target(&self, morphism: Self::SignatureMorphism) -> Self::Signature;

    /// The identity morphism on `signature`, or the error that prevents it.
    spec fn spec_identity(&self, signature: Self::Signature) -> Result<
        Self::SignatureMorphism,
        Self::Error,
    >;

    /// The composite `first; second`, or the error that prevents it.
    spec fn spec_compose(
        &self,
        first: Self::SignatureMorphism,
        second: Self::SignatureMorphism,
    ) -> Result<Self::SignatureMorphism, Self::Error>;

    /// The translation of `sentence` along `morphism`.
    spec fn spec_translate_sentence(
        &self,
        morphism: Self::SignatureMorphism,
        sentence: Self::Sentence,
    ) -> Result<Self::Sentence, Self::Error>;

    /// The reduct of `model` along `morphism`.
    spec fn spec_reduct(&self, morphism: Self::SignatureMorphism, model: Self::Model) -> Result<
        Self::Model,
        Self::Error,
    >;

    /// Whether `model` satisfies `sentence` over `signature`.
    spec fn spec_satisfies(
        &self,
        signature: Self::Signature,
        model: Self::Model,
        sentence: Self::Sentence,
    ) -> Result<bool, Self::Error>;

    /// Returns the source signature of `morphism`.
    fn source<'a>(&self, morphism: &'a Self::SignatureMorphism) -> (signature: &'a Self::Signature)
        ensures
            *signature == self.spec_source(*morphism),
    ;

    /// Returns the target signature of `morphism`.
    fn target<'a>(&self, morphism: &'a Self::SignatureMorphism) -> (signature: &'a Self::Signature)
        ensures
            *signature == self.spec_target(*morphism),
    ;

    /// Constructs the identity signature morphism on `signature`.
    fn identity(&self, signature: &Self::Signature) -> (morphism: Result<
        Self::SignatureMorphism,
        Self::Error,
    >)
        ensures
            morphism == self.spec_identity(*signature),
    ;

    /// Composes `first: A -> B` with `second: B -> C`, producing `A -> C`.
    fn compose(
        &self,
        first: &Self::SignatureMorphism,
        second: &Self::SignatureMorphism,
    ) -> (composite: Result<Self::SignatureMorphism, Self::Error>)
        ensures
            composite == self.spec_compose(*first, *second),
    ;

    /// Translates a source sentence along `morphism` into a target sentence.
    fn translate_sentence(
        &self,
        morphism: &Self::SignatureMorphism,
        sentence: &Self::Sentence,
    ) -> (translated: Result<Self::Sentence, Self::Error>)
        ensures
            translated == self.spec_translate_sentence(*morphism, *sentence),
    ;

    /// Reduces a target model along `morphism` into a source model.
    fn reduct(&self, morphism: &Self::SignatureMorphism, model: &Self::Model) -> (reduced: Result<
        Self::Model,
        Self::Error,
    >)
        ensures
            reduced == self.spec_reduct(*morphism, *model),
    ;

    /// Decides whether `model` satisfies `sentence` over `signature`.
    fn satisfies(
        &self,
        signature: &Self::Signature,
        model: &Self::Model,
        sentence: &Self::Sentence,
    ) -> (satisfied: Result<bool, Self::Error>)
        ensures
            satisfied == self.spec_satisfies(*signature, *model, *sentence),
    ;
}

} // verus!
