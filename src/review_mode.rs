//! Review modes: each has a stable lowercase identity and a description,
//! and is read from text without regard to case.

use vstd::prelude::*;
use crate::text::str_eq;

verus! {

#[verifier::external_type_specification]
#[verifier::external_body]
pub struct ExAnyhowError(anyhow::Error);

/// The persona that sets the tone and structure of a review.
#[derive(Debug, Clone, Copy, PartialEq, Eq, Structural)]
pub enum ReviewMode {
    Calm,
    Informative,
    Hardcore,
}

/// The stable lowercase identity of a mode.
pub open spec fn mode_identity(m: ReviewMode) -> Seq<char> {
    match m {
        ReviewMode::Calm => "calm"@,
        ReviewMode::Informative => "informative"@,
        ReviewMode::Hardcore => "hardcore"@,
    }
}

/// The mode whose identity is `s`, if any.
pub open spec fn mode_of_identity(s: Seq<char>) -> Option<ReviewMode> {
    if s == mode_identity(ReviewMode::Calm) {
        Some(ReviewMode::Calm)
    } else if s == mode_identity(ReviewMode::Informative) {
        Some(ReviewMode::Informative)
    } else if s == mode_identity(ReviewMode::Hardcore) {
        Some(ReviewMode::Hardcore)
    } else {
        None
    }
}

/// The human-readable persona text of a mode.
pub open spec fn mode_description(m: ReviewMode) -> Seq<char> {
    match m {
        ReviewMode::Calm => "Teaching tone, encouraging, suggestive"@,
        ReviewMode::Informative => "Structured, technical depth, prioritized"@,
        ReviewMode::Hardcore => "Zero tolerance, aggressive critique, flags anti-patterns"@,
    }
}

/// The lowercase form of a string, as `str::to_lowercase` computes it.
pub uninterp spec fn lower_of(s: Seq<char>) -> Seq<char>;

/// Every character is a lowercase ASCII letter.
pub open spec fn is_lower_ascii(s: Seq<char>) -> bool {
    forall|i: int| 0 <= i < s.len() ==> 'a' <= #[trigger] s[i] && s[i] <= 'z'
}

/// Relies on `str::to_lowercase`: the lowercase form depends on the
/// characters alone, and lowercase ASCII letters map to themselves.
#[verifier::external_body]
fn lowercase(s: &str) -> (r: String)
    ensures
        r@ == lower_of(s@),
        is_lower_ascii(s@) ==> r@ == s@,
{
    s.to_lowercase()
}

/// Relies on `anyhow::Error::msg`: an error that displays `m`.
#[verifier::external_body]
fn error_from_message(m: String) -> anyhow::Error {
    anyhow::Error::msg(m)
}

/// The text of the error for an unknown mode: it names the rejected input
/// and lists the valid modes.
pub open spec fn unknown_mode_text(input: Seq<char>) -> Seq<char> {
    "Unknown review mode: '"@ + input + "'. Choose calm, informative, or hardcore."@
}

/// The message for an unknown mode.
pub fn unknown_mode_message(input: &str) -> (r: String)
    ensures
        r@ == unknown_mode_text(input@),
{
    let mut text = "Unknown review mode: '".to_owned();
    text.append(input);
    text.append("'. Choose calm, informative, or hardcore.");
    text
}

/// Each identity is lowercase ASCII and reads back as its mode.
pub proof fn lemma_identity_reads_back(m: ReviewMode)
    ensures
        is_lower_ascii(mode_identity(m)),
        mode_of_identity(mode_identity(m)) == Some(m),
{
    reveal_strlit("calm");
    reveal_strlit("informative");
    reveal_strlit("hardcore");
    assert("calm"@.len() == 4);
    assert("informative"@.len() == 11);
    assert("hardcore"@.len() == 8);
}

impl ReviewMode {
    /// The stable lowercase identity, which is also the serialized form.
    pub fn as_str(&self) -> (r: &'static str)
        ensures
            r@ == mode_identity(*self),
    {
        proof {
            reveal_strlit("calm");
            reveal_strlit("informative");
            reveal_strlit("hardcore");
        }
        match self {
            ReviewMode::Calm => "calm",
            ReviewMode::Informative => "informative",
            ReviewMode::Hardcore => "hardcore",
        }
    }

    /// The human-readable persona text shown to the user.
    pub fn description(&self) -> (r: &'static str)
        ensures
            r@ == mode_description(*self),
    {
        match self {
            ReviewMode::Calm => "Teaching tone, encouraging, suggestive",
            ReviewMode::Informative => "Structured, technical depth, prioritized",
            ReviewMode::Hardcore => "Zero tolerance, aggressive critique, flags anti-patterns",
        }
    }

    /// The mode whose identity is exactly `s`; no case folding.
    pub fn from_identity(s: &str) -> (r: Option<ReviewMode>)
        ensures
            r == mode_of_identity(s@),
    {
        if str_eq(s, "calm") {
            Some(ReviewMode::Calm)
        } else if str_eq(s, "informative") {
            Some(ReviewMode::Informative)
        } else if str_eq(s, "hardcore") {
            Some(ReviewMode::Hardcore)
        } else {
            None
        }
    }

    /// Parses a mode from user text, ignoring case. Unknown text gives an
    /// error that names the input and lists the valid modes.
    pub fn parse(s: &str) -> (r: Result<ReviewMode, anyhow::Error>)
        ensures
            mode_of_identity(lower_of(s@)) is Some ==> r == Ok::<ReviewMode, anyhow::Error>(
                mode_of_identity(lower_of(s@))->0,
            ),
            mode_of_identity(lower_of(s@)) is None <==> r is Err,
            is_lower_ascii(s@) ==> lower_of(s@) == s@,
            forall|m: ReviewMode| s@ == #[trigger] mode_identity(m) ==> r == Ok::<ReviewMode, anyhow::Error>(m),
    {
        let lower = lowercase(s);
        proof {
            assert forall|m: ReviewMode| s@ == #[trigger] mode_identity(m) implies lower_of(s@) == s@
                && mode_of_identity(s@) == Some(m) by {
                lemma_identity_reads_back(m);
            }
        }
        match ReviewMode::from_identity(lower.as_str()) {
            Some(m) => Ok(m),
            None => Err(error_from_message(unknown_mode_message(lower.as_str()))),
        }
    }
}

impl std::str::FromStr for ReviewMode {
    type Err = anyhow::Error;

    fn from_str(s: &str) -> Result<ReviewMode, anyhow::Error> {
        ReviewMode::parse(s)
    }
}

} // verus!
