//! Checks that a name can be used to name a table or a column of a database.
use vstd::prelude::*;
use vstd::string::*;
use regex::Regex;

verus! {

/// The pattern that invariant and function names follow.
pub const INVARIANT_REGEX: &'static str = "^([a-z]|[A-Z]|_)(_|[a-z]|[A-Z]|[0-9])*$";

#[verifier::external_type_specification]
#[verifier::external_body]
pub struct ExRegex(Regex);

#[verifier::external_type_specification]
#[verifier::external_body]
pub struct ExRegexError(regex::Error);

pub open spec fn is_ascii_letter(c: char) -> bool {
    ('a' <= c && c <= 'z') || ('A' <= c && c <= 'Z')
}

/// A name made of ASCII letters, digits and `_`, not starting with a digit:
/// what [`INVARIANT_REGEX`] matches.
pub open spec fn is_identifier(s: Seq<char>) -> bool {
    &&& s.len() > 0
    &&& is_ascii_letter(s[0]) || s[0] == '_'
    &&& forall|i: int| 1 <= i < s.len() ==> is_ascii_letter(#[trigger] s[i]) || s[i] == '_' || ('0' <= s[i] && s[i] <= '9')
}

/// A compiled regular expression together with its pattern.
pub struct CompiledRegex {
    re: Regex,
    pattern: String,
}

impl View for CompiledRegex {
    type V = Seq<char>;

    closed spec fn view(&self) -> Seq<char> {
        self.pattern@
    }
}

/// `regex::Regex::new`: compiles `pattern`. The identifier pattern
/// [`INVARIANT_REGEX`] is a valid pattern, so it always compiles; for other
/// patterns nothing is claimed about success.
#[verifier::external_body]
pub(crate) fn compile_regex(pattern: &str) -> (r: Result<CompiledRegex, regex::Error>)
    ensures
        r matches Ok(c) ==> c@ == pattern@,
        pattern@ == INVARIANT_REGEX@ ==> r is Ok,
{
    match Regex::new(pattern) {
        Ok(re) => Ok(CompiledRegex { re, pattern: pattern.to_string() }),
        Err(e) => Err(e),
    }
}

/// `regex::Regex::is_match`: whether the expression matches somewhere in
/// `text`. For the identifier pattern [`INVARIANT_REGEX`] (anchored at both
/// ends) this is [`is_identifier`]; for other patterns nothing is stated.
#[verifier::external_body]
pub(crate) fn regex_is_match(re: &CompiledRegex, text: &str) -> (r: bool)
    ensures
        re@ == INVARIANT_REGEX@ ==> (r <==> is_identifier(text@)),
{
    re.re.is_match(text)
}

/// Checks that `name` is ASCII and matches [`INVARIANT_REGEX`].
pub fn is_valid_name(name: &str) -> (r: bool)
    ensures
        r == (is_ascii(name) && is_identifier(name@)),
{
    let re = compile_regex(INVARIANT_REGEX);
    match re {
        Ok(re) => name.is_ascii() && regex_is_match(&re, name),
        Err(_) => false,
    }
}

} // verus!
