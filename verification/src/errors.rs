//! What can go wrong: arguments that are refused before any work begins, and
//! faults met while an image is being synthesised.

use vstd::prelude::*;

verus! {

/// Why a set of arguments was refused.
#[derive(Clone, Copy, Debug, PartialEq, Eq, Structural)]
pub enum InvalidArgument {
    /// The requested output has no columns or no rows.
    EmptyOutput,
    /// The overlap between neighbouring patches is zero.
    ZeroOverlap,
    /// The patch is narrower than twice the overlap.
    PatchSmallerThanTwiceOverlap,
    /// The selection chance is not a fraction in `(0, 1]`.
    SelectionChanceOutOfRange,
    /// The patch does not fit inside the source image.
    PatchLargerThanSource,
    /// The seed lies, in part or wholly, outside the source image.
    SeedOutsideSource,
    /// The search window has an even side.
    EvenWindowSize,
    /// The source image cannot hold a seed block.
    SourceTooSmall,
    /// The requested output cannot hold a seed block.
    OutputTooSmall,
    /// The working buffer would hold more cells than a grid may.
    OutputTooLarge,
    /// A side of the image is not a power of two.
    DimensionsNotPowerOfTwo,
    /// The image is too small for the number of pyramid levels asked for.
    TooManyLevels,
}

/// Why a synthesis run gave up.
#[derive(Clone, Copy, Debug, PartialEq, Eq, Structural)]
pub enum SynthesisFault {
    /// No candidate could be compared with what is already synthesised.
    EmptyCandidatePool,
    /// Random sampling accepted no candidate in any of its passes.
    SearchExhausted,
}

/// An error of this library.
#[derive(Clone, Copy, Debug, PartialEq, Eq, Structural)]
pub enum Error {
    /// The arguments were refused; no image work was done.
    InvalidArguments(InvalidArgument),
    /// The run met a state it cannot continue from.
    SynthesisError(SynthesisFault),
}

impl InvalidArgument {
    /// The sentence that names it.
    pub open spec fn spec_message(&self) -> Seq<char> {
        match *self {
            InvalidArgument::EmptyOutput => "Output size must be non-zero"@,
            InvalidArgument::ZeroOverlap => "overlap must be non-zero"@,
            InvalidArgument::PatchSmallerThanTwiceOverlap => "patch_size must be at least twice the overlap"@,
            InvalidArgument::SelectionChanceOutOfRange => "selection_chance must be in (0, 1]"@,
            InvalidArgument::PatchLargerThanSource => "Patch is larger than source image"@,
            InvalidArgument::SeedOutsideSource => "Seed patch is outside source image"@,
            InvalidArgument::EvenWindowSize => "window_size must be odd"@,
            InvalidArgument::SourceTooSmall => "Source image is too small for a seed"@,
            InvalidArgument::OutputTooSmall => "Output size is too small for a seed"@,
            InvalidArgument::OutputTooLarge => "Output size is too large"@,
            InvalidArgument::DimensionsNotPowerOfTwo => "Image dimensions must be a power of 2"@,
            InvalidArgument::TooManyLevels => "Too many levels for image size"@,
        }
    }

    /// A sentence that names it.
    pub fn message(&self) -> (s: String)
        ensures
            s@ == self.spec_message(),
    {
        match self {
            InvalidArgument::EmptyOutput => "Output size must be non-zero".to_owned(),
            InvalidArgument::ZeroOverlap => "overlap must be non-zero".to_owned(),
            InvalidArgument::PatchSmallerThanTwiceOverlap => "patch_size must be at least twice the overlap".to_owned(),
            InvalidArgument::SelectionChanceOutOfRange => "selection_chance must be in (0, 1]".to_owned(),
            InvalidArgument::PatchLargerThanSource => "Patch is larger than source image".to_owned(),
            InvalidArgument::SeedOutsideSource => "Seed patch is outside source image".to_owned(),
            InvalidArgument::EvenWindowSize => "window_size must be odd".to_owned(),
            InvalidArgument::SourceTooSmall => "Source image is too small for a seed".to_owned(),
            InvalidArgument::OutputTooSmall => "Output size is too small for a seed".to_owned(),
            InvalidArgument::OutputTooLarge => "Output size is too large".to_owned(),
            InvalidArgument::DimensionsNotPowerOfTwo => "Image dimensions must be a power of 2".to_owned(),
            InvalidArgument::TooManyLevels => "Too many levels for image size".to_owned(),
        }
    }
}

impl SynthesisFault {
    /// The sentence that names it.
    pub open spec fn spec_message(&self) -> Seq<char> {
        match *self {
            SynthesisFault::EmptyCandidatePool => "No candidate overlaps the synthesised region"@,
            SynthesisFault::SearchExhausted => "Random sampling kept no candidate"@,
        }
    }

    /// A sentence that names it.
    pub fn message(&self) -> (s: String)
        ensures
            s@ == self.spec_message(),
    {
        match self {
            SynthesisFault::EmptyCandidatePool => "No candidate overlaps the synthesised region".to_owned(),
            SynthesisFault::SearchExhausted => "Random sampling kept no candidate".to_owned(),
        }
    }
}

impl Error {
    /// The sentence that names the error.
    pub open spec fn spec_message(&self) -> Seq<char> {
        match *self {
            Error::InvalidArguments(a) => a.spec_message(),
            Error::SynthesisError(f) => f.spec_message(),
        }
    }

    /// A sentence that names the error.
    pub fn message(&self) -> (s: String)
        ensures
            s@ == self.spec_message(),
    {
        match self {
            Error::InvalidArguments(a) => a.message(),
            Error::SynthesisError(f) => f.message(),
        }
    }
}

} // verus!
