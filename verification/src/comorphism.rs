//! Comorphisms between institutions.
use vstd::prelude::*;

use crate::Institution;

verus! {

/// A Goguen comorphism from `Source` to `Target`.
///
/// `map_signature` and `map_signature_morphism` are the signature functor.
/// `translate_sentence` is covariant (source sentence to target sentence over
/// the mapped signature). `reduct` is contravariant (a target model over the
/// mapped signature to a source model). The satisfaction condition
/// `target_model |= translate(sentence)` iff `reduct(target_model) |= sentence`
/// is observed on examples by [`crate::laws::check_comorphism_satisfaction`].
/// As for [`Institution`], every operation is a function of its arguments,
/// described by the `spec_` function of the same name.
pub trait Comorphism {
    /// The institution whose signatures, sentences and models are mapped.
    type Source: Institution;

    /// The institution receiving mapped signatures and translated sentences.
    type Target: Institution;

    /// Failures of the comorphism's own operations.
    type Error;

    /// The source institution.
    spec fn spec_source_institution(&self) -> Self::Source;

    /// The target institution.
    spec fn spec_target_institution(&self) -> Self::Target;

    /// The image of a source signature.
    spec fn spec_map_signature(
        &self,
        signature: <Self::Source as Institution>::Signature,
    ) -> Result<<Self::Target as Institution>::Signature, Self::Error>;

    /// The image of a source signature morphism.
    spec fn spec_map_signature_morphism(
        &self,
        morphism: <Self::Source as Institution>::SignatureMorphism,
    ) -> Result<<Self::Target as Institution>::SignatureMorphism, Self::Error>;

    /// The translation of a source sentence over `signature`.
    spec fn spec_translate_sentence(
        &self,
        signature: <Self::Source as Institution>::Signature,
        sentence: <Self::Source as Institution>::Sentence,
    ) -> Result<<Self::Target as Institution>::Sentence, Self::Error>;

    /// The reduct of a target model to a source model over `signature`.
    spec fn spec_reduct(
        &self,
        signature: <Self::Source as Institution>::Signature,
        model: <Self::Target as Institution>::Model,
    ) -> Result<<Self::Source as Institution>::Model, Self::Error>;

    /// Returns the source institution.
    fn source_institution(&self) -> (institution: &Self::Source)
        ensures
            *institution == self.spec_source_institution(),
    ;

    /// Returns the target institution.
    fn target_institution(&self) -> (institution: &Self::Target)
        ensures
            *institution == self.spec_target_institution(),
    ;

    /// Maps a source signature to a target signature.
    fn map_signature(&self, signature: &<Self::Source as Institution>::Signature) -> (mapped: Result<
        <Self::Target as Institution>::Signature,
        Self::Error,
    >)
        ensures
            mapped == self.spec_map_signature(*signature),
    ;

    /// Maps a source signature morphism to a target signature morphism.
    fn map_signature_morphism(
        &self,
        morphism: &<Self::Source as Institution>::SignatureMorphism,
    ) -> (mapped: Result<<Self::Target as Institution>::SignatureMorphism, Self::Error>)
        ensures
            mapped == self.spec_map_signature_morphism(*morphism),
    ;

    /// Translates a source sentence over `signature` into a target sentence
    /// over the mapped signature.
    fn translate_sentence(
        &self,
        signature: &<Self::Source as Institution>::Signature,
        sentence: &<Self::Source as Institution>::Sentence,
    ) -> (translated: Result<<Self::Target as Institution>::Sentence, Self::Error>)
        ensures
            translated == self.spec_translate_sentence(*signature, *sentence),
    ;

    /// Reduces a target model over the mapped signature into a source model
    /// over `signature`.
    fn reduct(
        &self,
        signature: &<Self::Source as Institution>::Signature,
        model: &<Self::Target as Institution>::Model,
    ) -> (reduced: Result<<Self::Source as Institution>::Model, Self::Error>)
        ensures
            reduced == self.spec_reduct(*signature, *model),
    ;
}

/// A failure while observing a comorphism, kept with the side that produced it.
#[derive(Clone, Debug, Eq, PartialEq)]
pub enum ComorphismError<S, T, C> {
    /// The source institution failed.
    Source(S),
    /// The target institution failed.
    Target(T),
    /// The comorphism's own operation failed.
    Comorphism(C),
}

/// The error of observing comorphism `C`.
pub type ComorphismLawError<C> = ComorphismError<
    <<C as Comorphism>::Source as Institution>::Error,
    <<C as Comorphism>::Target as Institution>::Error,
    <C as Comorphism>::Error,
>;

} // verus!
