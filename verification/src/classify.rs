//! The classifier: decides, per normalized command, whether it is retained.
//! Two fixed, case-insensitive rule sets are compiled once per run: the
//! exceptions (checked first; a match retains the command unconditionally)
//! and the ignores (a match drops it). A command matching neither set is
//! retained by default.
//!
//! The ignore rules: commands of one to three characters; `cd` or `ls` into
//! a path starting with neither `~` nor `/`; `reboot`, `shutdown` or `halt`,
//! optionally prefixed by `sudo`; commands starting with the digit `0`
//! (mouse-escape artifacts); commands starting with a space; and commands
//! containing any of the substrings `api`, `token`, `key`, `secret` or
//! `pass`. The one exception rule: commands beginning with `pass -c`.

use vstd::prelude::*;
use regex::RegexSet;
use crate::text::chars_to_string;

verus! {

#[verifier::external_type_specification]
#[verifier::external_body]
pub struct ExRegexSet(RegexSet);

/// Whether the fixed, case-insensitive ignore rule set matches a command.
/// Names the result of `RegexSet::is_match` on the compiled ignore set; it
/// depends on the command text alone.
pub uninterp spec fn ignore_verdict(s: Seq<char>) -> bool;

/// Whether the fixed, case-insensitive exception rule set matches a command.
/// Names the result of `RegexSet::is_match` on the compiled exception set;
/// it depends on the command text alone.
pub uninterp spec fn exception_verdict(s: Seq<char>) -> bool;

/// A command is retained exactly when an exception pattern matches it, or
/// otherwise when no ignore pattern does.
pub open spec fn retained(s: Seq<char>) -> bool {
    exception_verdict(s) || !ignore_verdict(s)
}

/// The two compiled rule sets. Values are only ever built by
/// `Classifier::new`, so each field holds the set its name says.
pub struct Classifier {
    ignores: RegexSet,
    exceptions: RegexSet,
}

/// Relies on `regex::RegexSetBuilder::build` with `case_insensitive`: the
/// returned set's `is_match` decides whether any of these ignore patterns
/// matches, case-insensitively. Building fails only on an invalid pattern
/// or on exceeding the compiled-size limit; these fixed patterns are valid
/// and far below the default limit, so building succeeds.
#[verifier::external_body]
fn build_ignores() -> (r: Option<RegexSet>)
    ensures
        r is Some,
{
    regex::RegexSetBuilder::new([
        "^.{1,3}$",
        "^cd [^~/]",
        "^ls [^~/]",
        "^(sudo )?reboot",
        "^(sudo )?shutdown",
        "^(sudo )?halt",
        "^0",
        "^ ",
        "(api|token|key|secret|pass)",
    ]).case_insensitive(true).build().ok()
}

/// Relies on `regex::RegexSetBuilder::build` with `case_insensitive`: the
/// returned set's `is_match` decides whether the exception pattern matches,
/// case-insensitively. The fixed pattern is valid and far below the default
/// compiled-size limit, so building succeeds.
#[verifier::external_body]
fn build_exceptions() -> (r: Option<RegexSet>)
    ensures
        r is Some,
{
    regex::RegexSetBuilder::new(["^pass -c"]).case_insensitive(true).build().ok()
}

impl Classifier {
    /// Compiles the two fixed rule sets. The patterns are fixed and valid,
    /// so construction always succeeds.
    pub fn new() -> (r: Option<Classifier>)
        ensures
            r is Some,
    {
        let ignores = build_ignores();
        let exceptions = build_exceptions();
        match (ignores, exceptions) {
            (Some(i), Some(e)) => Some(Classifier { ignores: i, exceptions: e }),
            _ => None,
        }
    }

    /// Relies on `regex::RegexSet::is_match` over the ignore set this
    /// classifier was built with: the result is `ignore_verdict` of the text.
    #[verifier::external_body]
    fn ignores_match(&self, s: &str) -> (r: bool)
        ensures
            r == ignore_verdict(s@),
    {
        self.ignores.is_match(s)
    }

    /// Relies on `regex::RegexSet::is_match` over the exception set this
    /// classifier was built with: the result is `exception_verdict` of the
    /// text.
    #[verifier::external_body]
    fn exceptions_match(&self, s: &str) -> (r: bool)
        ensures
            r == exception_verdict(s@),
    {
        self.exceptions.is_match(s)
    }

    /// The retention decision: exceptions first, then ignores, retained by
    /// default.
    pub fn is_retained(&self, cmd: &Vec<char>) -> (r: bool)
        ensures
            r == retained(cmd@),
    {
        let s = chars_to_string(cmd);
        if self.exceptions_match(s.as_str()) {
            true
        } else if self.ignores_match(s.as_str()) {
            false
        } else {
            true
        }
    }
}

/// A command that an exception pattern matches is retained, even when an
/// ignore pattern also matches it.
pub proof fn lemma_exception_overrides_ignore(s: Seq<char>)
    ensures
        exception_verdict(s) ==> retained(s),
{
}

} // verus!
