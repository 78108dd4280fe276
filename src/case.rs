//! Letter cases that names can be shown in.

use vstd::prelude::*;

verus! {

/// A letter case.
#[derive(PartialEq, Eq, Structural, Clone, Copy, Debug)]
pub enum Case {
    /// The name as it is.
    Same,
    /// camelCase.
    Camel,
    /// kebab-case.
    Kebab,
    /// snake_case.
    Snake,
    /// ClassCase.
    Class,
    /// SCREAMING_CASE.
    Screaming,
    /// Sentence case.
    Sentence,
    /// Title Case.
    Title,
    /// UPPER CASE.
    Upper,
    /// lower case.
    Lower,
}

/// The case that a lower-case name names.
pub open spec fn case_named(s: Seq<char>) -> Option<Case> {
    if s == "same"@ {
        Some(Case::Same)
    } else if s == "camel"@ {
        Some(Case::Camel)
    } else if s == "kebab"@ {
        Some(Case::Kebab)
    } else if s == "snake"@ {
        Some(Case::Snake)
    } else if s == "class"@ {
        Some(Case::Class)
    } else if s == "screaming"@ {
        Some(Case::Screaming)
    } else if s == "sentence"@ {
        Some(Case::Sentence)
    } else if s == "title"@ {
        Some(Case::Title)
    } else if s == "upper"@ {
        Some(Case::Upper)
    } else if s == "lower"@ {
        Some(Case::Lower)
    } else {
        None
    }
}

/// The camelCase form of a string.
pub uninterp spec fn camel_of(s: Seq<char>) -> Seq<char>;

/// Relies on `inflector::cases::camelcase::to_camel_case`: the result depends on the characters of the string
/// alone.
#[verifier::external_body]
fn to_camel(s: &str) -> (r: String)
    ensures
        r@ == camel_of(s@),
{
    inflector::cases::camelcase::to_camel_case(s)
}

/// The kebab-case form of a string.
pub uninterp spec fn kebab_of(s: Seq<char>) -> Seq<char>;

/// Relies on `inflector::cases::kebabcase::to_kebab_case`: the result depends on the characters of the string
/// alone.
#[verifier::external_body]
fn to_kebab(s: &str) -> (r: String)
    ensures
        r@ == kebab_of(s@),
{
    inflector::cases::kebabcase::to_kebab_case(s)
}

/// The snake_case form of a string.
pub uninterp spec fn snake_case_of(s: Seq<char>) -> Seq<char>;

/// Relies on `inflector::cases::snakecase::to_snake_case`: the result depends on the characters of the string
/// alone.
#[verifier::external_body]
fn to_snake(s: &str) -> (r: String)
    ensures
        r@ == snake_case_of(s@),
{
    inflector::cases::snakecase::to_snake_case(s)
}

/// The ClassCase form of a string.
pub uninterp spec fn class_of(s: Seq<char>) -> Seq<char>;

/// Relies on `inflector::cases::classcase::to_class_case`: the result depends on the characters of the string
/// alone.
#[verifier::external_body]
fn to_class(s: &str) -> (r: String)
    ensures
        r@ == class_of(s@),
{
    inflector::cases::classcase::to_class_case(s)
}

/// The SCREAMING_SNAKE_CASE form of a string.
pub uninterp spec fn screaming_of(s: Seq<char>) -> Seq<char>;

/// Relies on `inflector::cases::screamingsnakecase::to_screaming_snake_case`: the result depends on the characters of the string
/// alone.
#[verifier::external_body]
fn to_screaming(s: &str) -> (r: String)
    ensures
        r@ == screaming_of(s@),
{
    inflector::cases::screamingsnakecase::to_screaming_snake_case(s)
}

/// The Sentence case form of a string.
pub uninterp spec fn sentence_of(s: Seq<char>) -> Seq<char>;

/// Relies on `inflector::cases::sentencecase::to_sentence_case`: the result depends on the characters of the string
/// alone.
#[verifier::external_body]
fn to_sentence(s: &str) -> (r: String)
    ensures
        r@ == sentence_of(s@),
{
    inflector::cases::sentencecase::to_sentence_case(s)
}

/// The Title Case form of a string.
pub uninterp spec fn title_of(s: Seq<char>) -> Seq<char>;

/// Relies on `inflector::cases::titlecase::to_title_case`: the result depends on the characters of the string
/// alone.
#[verifier::external_body]
fn to_title(s: &str) -> (r: String)
    ensures
        r@ == title_of(s@),
{
    inflector::cases::titlecase::to_title_case(s)
}

/// The upper-case form of a string.
pub uninterp spec fn upper_of(s: Seq<char>) -> Seq<char>;

/// Relies on `str::to_uppercase`: the result depends on the characters of
/// the string alone.
#[verifier::external_body]
fn to_upper(s: &str) -> (r: String)
    ensures
        r@ == upper_of(s@),
{
    s.to_uppercase()
}

/// The lower-case form of a string.
pub uninterp spec fn lower_of(s: Seq<char>) -> Seq<char>;

/// Relies on `str::to_lowercase`: the result depends on the characters of
/// the string alone.
#[verifier::external_body]
fn to_lower(s: &str) -> (r: String)
    ensures
        r@ == lower_of(s@),
{
    s.to_lowercase()
}

/// A string converted into a case.
pub open spec fn case_of(c: Case, s: Seq<char>) -> Seq<char> {
    match c {
        Case::Same => s,
        Case::Camel => camel_of(s),
        Case::Kebab => kebab_of(s),
        Case::Snake => snake_case_of(s),
        Case::Class => class_of(s),
        Case::Screaming => screaming_of(s),
        Case::Sentence => sentence_of(s),
        Case::Title => title_of(s),
        Case::Upper => upper_of(s),
        Case::Lower => lower_of(s),
    }
}

fn same_text(a: &String, b: &str) -> (r: bool)
    ensures
        r == (a@ == b@),
{
    *a == b.to_owned()
}

impl Case {
    /// The case named by its lower-case name, if any.
    pub fn from_name(string: &str) -> (r: Option<Case>)
        ensures
            r == case_named(string@),
    {
        let s = string.to_owned();
        if same_text(&s, "same") {
            Some(Case::Same)
        } else if same_text(&s, "camel") {
            Some(Case::Camel)
        } else if same_text(&s, "kebab") {
            Some(Case::Kebab)
        } else if same_text(&s, "snake") {
            Some(Case::Snake)
        } else if same_text(&s, "class") {
            Some(Case::Class)
        } else if same_text(&s, "screaming") {
            Some(Case::Screaming)
        } else if same_text(&s, "sentence") {
            Some(Case::Sentence)
        } else if same_text(&s, "title") {
            Some(Case::Title)
        } else if same_text(&s, "upper") {
            Some(Case::Upper)
        } else if same_text(&s, "lower") {
            Some(Case::Lower)
        } else {
            None
        }
    }

    /// Converts a string into this case.
    pub fn to_case(&self, string: String) -> (r: String)
        ensures
            r@ == case_of(*self, string@),
    {
        let s = string.as_str();
        match self {
            Case::Same => string,
            Case::Camel => to_camel(s),
            Case::Kebab => to_kebab(s),
            Case::Snake => to_snake(s),
            Case::Class => to_class(s),
            Case::Screaming => to_screaming(s),
            Case::Sentence => to_sentence(s),
            Case::Title => to_title(s),
            Case::Upper => to_upper(s),
            Case::Lower => to_lower(s),
        }
    }

    /// Whether a string is in this case: converting it into the case leaves
    /// it as it is. Every string is in `Same`.
    pub fn is_case(&self, string: &str) -> (r: bool)
        ensures
            r == (string@ == case_of(*self, string@)),
    {
        let converted = self.to_case(string.to_owned());
        same_text(&converted, string)
    }
}

} // verus!
