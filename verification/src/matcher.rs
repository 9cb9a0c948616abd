//! The log-group name matcher: a compiled regular expression together
//! with its source pattern. An exact name is matched as `^name$`;
//! matchers are compared by pattern text.
use vstd::prelude::*;

verus! {

#[verifier::external_type_specification]
#[verifier::external_body]
pub struct ExRegex(regex::Regex);

#[verifier::external_type_specification]
#[verifier::external_body]
pub struct ExRegexError(regex::Error);

/// Whether the regular expression written `pattern` matches `text`
/// somewhere. The result depends on the two strings alone.
pub uninterp spec fn regex_match(pattern: Seq<char>, text: Seq<char>) -> bool;

/// Whether `pattern` is a well-formed regular expression. Whether a
/// pattern compiles depends on its text alone.
pub uninterp spec fn regex_compiles(pattern: Seq<char>) -> bool;

/// Relies on regex::Regex::new: compiles a pattern, succeeding exactly
/// on well-formed patterns, or reports why it cannot be compiled.
#[verifier::external_body]
fn compile_regex(pattern: &str) -> (r: Result<regex::Regex, regex::Error>)
    ensures
        r is Ok <==> regex_compiles(pattern@),
{
    regex::Regex::new(pattern)
}

/// A matcher over log group names. The compiled expression always
/// comes from the stored pattern: the only constructor compiles it.
pub struct LogGroupNameMatcher {
    pattern: String,
    regex: regex::Regex,
}

impl LogGroupNameMatcher {
    /// The source pattern this matcher was compiled from.
    pub closed spec fn spec_pattern(&self) -> Seq<char> {
        self.pattern@
    }

    /// Compile a matcher from a pattern; succeeds exactly on
    /// well-formed patterns.
    pub fn new(pattern: &str) -> (r: Result<Self, String>)
        ensures
            r is Ok <==> regex_compiles(pattern@),
            r matches Ok(m) ==> m.spec_pattern() == pattern@,
            r matches Err(e) ==> e@ == pattern@ + " is not a valid regular expression"@,
    {
        match compile_regex(pattern) {
            Ok(regex) => Ok(Self { pattern: String::from_str(pattern), regex }),
            Err(_) => {
                let mut msg = String::from_str(pattern);
                msg.append(" is not a valid regular expression");
                Err(msg)
            },
        }
    }

    /// The source pattern, for building cache keys.
    pub fn pattern(&self) -> (r: &String)
        ensures
            r@ == self.spec_pattern(),
    {
        &self.pattern
    }

    /// Relies on regex::Regex::is_match. This matcher's expression is
    /// compiled from its pattern, so the answer is a function of the
    /// pattern and the name.
    #[verifier::external_body]
    pub fn is_match(&self, name: &str) -> (r: bool)
        ensures
            r == regex_match(self.spec_pattern(), name@),
    {
        self.regex.is_match(name)
    }
}

/// Validate a regular expression for the command line: accepted
/// exactly when the pattern compiles.
pub fn validate_regex(pattern: &str) -> (r: Result<(), String>)
    ensures
        r is Ok <==> regex_compiles(pattern@),
        r matches Err(e) ==> e@ == pattern@ + " is not a valid regular expression"@,
{
    match LogGroupNameMatcher::new(pattern) {
        Ok(_) => Ok(()),
        Err(e) => Err(e),
    }
}

} // verus!
