//! The languages a dictionary entry can belong to.

use vstd::prelude::*;
use crate::text::same_str;

verus! {

/// A language tag. Entries and headwords are keyed by one.
#[derive(Clone, Copy, Debug, PartialEq, Eq, Hash, Structural)]
pub enum TargetLanguage {
    English,
    German,
    French,
    Spanish,
    Italian,
    Portuguese,
    Dutch,
    Russian,
    Czech,
    Polish,
    Serbian,
    Croatian,
}

impl View for TargetLanguage {
    type V = TargetLanguage;

    open spec fn view(&self) -> TargetLanguage {
        *self
    }
}

impl DeepView for TargetLanguage {
    type V = TargetLanguage;

    open spec fn deep_view(&self) -> TargetLanguage {
        *self
    }
}

/// The number of languages.
pub const LANGUAGE_COUNT: usize = 12;

/// The language at position `i` of the enumeration.
pub open spec fn language_at(i: int) -> Option<TargetLanguage> {
    if i == 0 {
        Some(TargetLanguage::English)
    } else if i == 1 {
        Some(TargetLanguage::German)
    } else if i == 2 {
        Some(TargetLanguage::French)
    } else if i == 3 {
        Some(TargetLanguage::Spanish)
    } else if i == 4 {
        Some(TargetLanguage::Italian)
    } else if i == 5 {
        Some(TargetLanguage::Portuguese)
    } else if i == 6 {
        Some(TargetLanguage::Dutch)
    } else if i == 7 {
        Some(TargetLanguage::Russian)
    } else if i == 8 {
        Some(TargetLanguage::Czech)
    } else if i == 9 {
        Some(TargetLanguage::Polish)
    } else if i == 10 {
        Some(TargetLanguage::Serbian)
    } else if i == 11 {
        Some(TargetLanguage::Croatian)
    } else {
        None
    }
}

/// The languages that a Wiktionary language code stands for. Most codes
/// stand for one language, a macrolanguage code for several, an unknown
/// code for none.
pub open spec fn languages_of_code(code: Seq<char>) -> Seq<TargetLanguage> {
    if code == "en"@ {
        seq![TargetLanguage::English]
    } else if code == "de"@ {
        seq![TargetLanguage::German]
    } else if code == "fr"@ {
        seq![TargetLanguage::French]
    } else if code == "es"@ {
        seq![TargetLanguage::Spanish]
    } else if code == "it"@ {
        seq![TargetLanguage::Italian]
    } else if code == "pt"@ {
        seq![TargetLanguage::Portuguese]
    } else if code == "nl"@ {
        seq![TargetLanguage::Dutch]
    } else if code == "ru"@ {
        seq![TargetLanguage::Russian]
    } else if code == "cs"@ {
        seq![TargetLanguage::Czech]
    } else if code == "pl"@ {
        seq![TargetLanguage::Polish]
    } else if code == "sh"@ {
        seq![TargetLanguage::Serbian, TargetLanguage::Croatian]
    } else {
        seq![]
    }
}

impl TargetLanguage {
    /// The position of the language in the enumeration.
    pub open spec fn spec_index(self) -> int {
        match self {
            TargetLanguage::English => 0,
            TargetLanguage::German => 1,
            TargetLanguage::French => 2,
            TargetLanguage::Spanish => 3,
            TargetLanguage::Italian => 4,
            TargetLanguage::Portuguese => 5,
            TargetLanguage::Dutch => 6,
            TargetLanguage::Russian => 7,
            TargetLanguage::Czech => 8,
            TargetLanguage::Polish => 9,
            TargetLanguage::Serbian => 10,
            TargetLanguage::Croatian => 11,
        }
    }

    /// The English name under which Wiktionary files the language.
    pub open spec fn spec_long_name(self) -> Seq<char> {
        match self {
            TargetLanguage::English => "English"@,
            TargetLanguage::German => "German"@,
            TargetLanguage::French => "French"@,
            TargetLanguage::Spanish => "Spanish"@,
            TargetLanguage::Italian => "Italian"@,
            TargetLanguage::Portuguese => "Portuguese"@,
            TargetLanguage::Dutch => "Dutch"@,
            TargetLanguage::Russian => "Russian"@,
            TargetLanguage::Czech => "Czech"@,
            TargetLanguage::Polish => "Polish"@,
            TargetLanguage::Serbian => "Serbo-Croatian"@,
            TargetLanguage::Croatian => "Serbo-Croatian"@,
        }
    }

    /// The position of the language in the enumeration.
    pub fn index(self) -> (i: usize)
        ensures
            i == self.spec_index(),
            i < LANGUAGE_COUNT,
            language_at(i as int) == Some(self),
    {
        match self {
            TargetLanguage::English => 0,
            TargetLanguage::German => 1,
            TargetLanguage::French => 2,
            TargetLanguage::Spanish => 3,
            TargetLanguage::Italian => 4,
            TargetLanguage::Portuguese => 5,
            TargetLanguage::Dutch => 6,
            TargetLanguage::Russian => 7,
            TargetLanguage::Czech => 8,
            TargetLanguage::Polish => 9,
            TargetLanguage::Serbian => 10,
            TargetLanguage::Croatian => 11,
        }
    }

    /// The language at position `i`, if there is one.
    pub fn from_index(i: usize) -> (r: Option<TargetLanguage>)
        ensures
            r == language_at(i as int),
            r is Some <==> i < LANGUAGE_COUNT,
            r matches Some(l) ==> l.spec_index() == i,
    {
        if i == 0 {
            Some(TargetLanguage::English)
        } else if i == 1 {
            Some(TargetLanguage::German)
        } else if i == 2 {
            Some(TargetLanguage::French)
        } else if i == 3 {
            Some(TargetLanguage::Spanish)
        } else if i == 4 {
            Some(TargetLanguage::Italian)
        } else if i == 5 {
            Some(TargetLanguage::Portuguese)
        } else if i == 6 {
            Some(TargetLanguage::Dutch)
        } else if i == 7 {
            Some(TargetLanguage::Russian)
        } else if i == 8 {
            Some(TargetLanguage::Czech)
        } else if i == 9 {
            Some(TargetLanguage::Polish)
        } else if i == 10 {
            Some(TargetLanguage::Serbian)
        } else if i == 11 {
            Some(TargetLanguage::Croatian)
        } else {
            None
        }
    }

    /// The languages that the Wiktionary language code `code` stands for.
    pub fn from_wiktionary_language_code_n(code: &str) -> (r: Vec<TargetLanguage>)
        ensures
            r@ == languages_of_code(code@),
    {
        let mut r: Vec<TargetLanguage> = Vec::new();
        if same_str(code, "en") {
            r.push(TargetLanguage::English);
        } else if same_str(code, "de") {
            r.push(TargetLanguage::German);
        } else if same_str(code, "fr") {
            r.push(TargetLanguage::French);
        } else if same_str(code, "es") {
            r.push(TargetLanguage::Spanish);
        } else if same_str(code, "it") {
            r.push(TargetLanguage::Italian);
        } else if same_str(code, "pt") {
            r.push(TargetLanguage::Portuguese);
        } else if same_str(code, "nl") {
            r.push(TargetLanguage::Dutch);
        } else if same_str(code, "ru") {
            r.push(TargetLanguage::Russian);
        } else if same_str(code, "cs") {
            r.push(TargetLanguage::Czech);
        } else if same_str(code, "pl") {
            r.push(TargetLanguage::Polish);
        } else if same_str(code, "sh") {
            r.push(TargetLanguage::Serbian);
            r.push(TargetLanguage::Croatian);
        }
        assert(r@ =~= languages_of_code(code@));
        r
    }

    /// The English name under which Wiktionary files the language.
    pub fn to_wiktionary_long_name_n(&self) -> (r: String)
        ensures
            r@ == self.spec_long_name(),
    {
        let name: &str = match self {
            TargetLanguage::English => "English",
            TargetLanguage::German => "German",
            TargetLanguage::French => "French",
            TargetLanguage::Spanish => "Spanish",
            TargetLanguage::Italian => "Italian",
            TargetLanguage::Portuguese => "Portuguese",
            TargetLanguage::Dutch => "Dutch",
            TargetLanguage::Russian => "Russian",
            TargetLanguage::Czech => "Czech",
            TargetLanguage::Polish => "Polish",
            TargetLanguage::Serbian => "Serbo-Croatian",
            TargetLanguage::Croatian => "Serbo-Croatian",
        };
        name.to_owned()
    }
}

} // verus!
