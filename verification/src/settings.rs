//! The languages the vocabulary trainer supports, and the application
//! settings record. Reading and writing the settings file is the caller's
//! concern; this module holds the data and the pure mappings on it.

use vstd::prelude::*;

verus! {

/// A language the vocabulary trainer supports.
#[derive(Clone, Copy, PartialEq, Eq, Structural, Debug)]
pub enum Language {
    Spanish,
    French,
    Portuguese,
    German,
}

/// The lower-case name of a language.
pub open spec fn language_name(lang: Language) -> Seq<char> {
    match lang {
        Language::Spanish => "spanish"@,
        Language::French => "french"@,
        Language::Portuguese => "portuguese"@,
        Language::German => "german"@,
    }
}

/// The translation-service code of a language, where the service supports it.
pub open spec fn translation_code(lang: Language) -> Option<Seq<char>> {
    match lang {
        Language::Spanish => Some("es"@),
        Language::French => Some("fr"@),
        Language::Portuguese => Some("pt-PT"@),
        Language::German => None,
    }
}

impl Language {
    /// The lower-case name of the language.
    pub fn as_str(&self) -> (r: &'static str)
        ensures
            r@ == language_name(*self),
    {
        match self {
            Language::Spanish => "spanish",
            Language::French => "french",
            Language::Portuguese => "portuguese",
            Language::German => "german",
        }
    }
}

/// The target-language code to hand the translation service, or nothing for a
/// language it does not cover.
pub fn translation_target(lang: Language) -> (r: Option<&'static str>)
    ensures
        r is Some <==> translation_code(lang) is Some,
        r is Some ==> Some(r->0@) == translation_code(lang),
{
    match lang {
        Language::Spanish => Some("es"),
        Language::French => Some("fr"),
        Language::Portuguese => Some("pt-PT"),
        Language::German => None,
    }
}

/// The application settings: the model key, the language under study, and
/// where the card store lives.
pub struct Settings {
    pub anthropic_api_key: String,
    pub learning_language: Language,
    pub db_path: String,
}

} // verus!
