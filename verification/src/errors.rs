use vstd::prelude::*;

use crate::phoneme::Phoneme;
use crate::phoneme_table::Axis;
use crate::phoneme_table::HeaderDef;
use crate::phoneme_table::TableOption;
use crate::patterns::SourceLocation;

verus! {

/// The errors of the library: inventory set-up, word validation, word reading, phoneme
/// tables and transformations.
#[derive(Debug, Clone)]
pub enum ElbieError {
    SetIsEmpty(&'static str),
    SetIsEmptyWithFilter(&'static str),
    UnknownSet(&'static str),
    UnknownPhoneme(&'static str),
    PhonemeAlreadyExists(&'static str),
    SetExistsWithPhonemeName(&'static str),
    SetAlreadyExists(&'static str),
    PhonemeExistsWithSetName(&'static str),
    EnvironmentAlreadyExists(&'static str),
    UnknownEnvironment(&'static str),
    NoEnvironmentChoices(&'static str),
    IncompleteBranches(&'static str),
    MismatchedSpellingsForPhoneme(&'static str, usize, usize),
    PatternAlreadyExists(&'static str),
    UnknownPattern(&'static str),
    // word validation errors
    EmptyWord,
    IncorrectPhoneme(usize, Phoneme, &'static str, &'static str),
    ExpectedEndOfWord(usize, Phoneme, &'static str),
    ExpectedPhonemeFoundEndOfWord(usize, &'static str, &'static str),
    NoBranchFitsPhoneme(usize, Phoneme, &'static str),
    NestingTooDeep(&'static str),
    // word generation errors
    NoChoiceChoices(SourceLocation),
    PhonemeAfterTerminate,
    NoCatchAllInEnvironment(SourceLocation),
    // word reading errors
    UnknownPhonemeWhileReading(String, String),
    // table definition errors
    InvalidOptionForTable(TableOption),
    DuplicateTableHeaderDef(Axis, HeaderDef),
    DuplicateTableDef(String),
    InvalidAxisForPhoneme(Axis),
    TooManyAxisses,
    // transformation errors
    TransformationCreatedOverlappingReplacements(&'static str),
    UnknownTransformation(String, String),
    UnknownTransformationLoader(String),
    TransformationAlreadyAdded(String, String),
    TransformationNotLoaded(String, String),
    TransformationSetsNotAllowedHere,
    // language family errors
    LanguageAlreadyAdded(String),
    UnknownLanguage(String),
    LanguageNotLoaded(String),
    NoDefaultLanguage,
    UnknownOrthography(usize),
    // analysis errors
    AnalysisSetIsNonExclusive(&'static str, &'static str, &'static str),
    AnalysisSetCoverageIsIncomplete(&'static str, String),
}

} // verus!
