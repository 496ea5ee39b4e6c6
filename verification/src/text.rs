//! Text helpers: string equality, quote stripping and the
//! names of the languages a polyglot call can name.
use vstd::prelude::*;
use vstd::string::StrSliceExecFns;
use vstd::string::StringSliceAdditionalSpecFns;

verus! {

/// The guest languages a polyglot call can evaluate.
#[derive(Debug, Clone, Copy, PartialEq, Eq, Structural)]
pub enum Language {
    Python,
    JavaScript,
    Java,
}

/// A language name that names no supported language.
#[derive(Debug, Clone, Copy, PartialEq, Eq, Structural)]
pub struct InvalidArgumentError;

/// The language a name stands for: `python`, `js` or `javascript`, `java`.
pub open spec fn language_of(s: Seq<char>) -> Option<Language> {
    if s == "python"@ {
        Some(Language::Python)
    } else if s == "js"@ || s == "javascript"@ {
        Some(Language::JavaScript)
    } else if s == "java"@ {
        Some(Language::Java)
    } else {
        None
    }
}

/// Each language has its names, and no other text names it: `python` for
/// Python, `js` and `javascript` for JavaScript, `java` for Java.
pub proof fn lemma_language_names(s: Seq<char>)
    ensures
        language_of(s) == Some(Language::Python) <==> s == "python"@,
        language_of(s) == Some(Language::JavaScript) <==> s == "js"@ || s == "javascript"@,
        language_of(s) == Some(Language::Java) <==> s == "java"@,
{
    reveal_strlit("python");
    reveal_strlit("js");
    reveal_strlit("javascript");
    reveal_strlit("java");
    assert("python"@.len() == 6);
    assert("js"@.len() == 2);
    assert("javascript"@.len() == 10);
    assert("java"@.len() == 4);
}

/// `s` without its first and its last character (nothing is left of a text
/// shorter than two characters).
pub open spec fn strip_quotes_spec(s: Seq<char>) -> Seq<char> {
    if s.len() <= 1 {
        Seq::empty()
    } else {
        s.subrange(1, s.len() - 1)
    }
}

/// Equality of two texts, decided on their UTF-8 bytes.
pub fn str_eq(a: &str, b: &str) -> (r: bool)
    ensures
        r == (a@ == b@),
{
    let ab = a.as_bytes();
    let bb = b.as_bytes();
    proof {
        vstd::utf8::encode_utf8_decode_utf8(a@);
        vstd::utf8::encode_utf8_decode_utf8(b@);
    }
    if ab.len() != bb.len() {
        return false;
    }
    let mut i: usize = 0;
    while i < ab.len()
        invariant
            ab@ == a.spec_bytes(),
            bb@ == b.spec_bytes(),
            ab@.len() == bb@.len(),
            i <= ab@.len(),
            forall|k: int| 0 <= k < i ==> ab@[k] == bb@[k],
        decreases ab@.len() - i,
    {
        if ab[i] != bb[i] {
            return false;
        }
        i = i + 1;
    }
    assert(ab@ =~= bb@);
    true
}

/// `strip_quotes`: drops the first and the last character of `s`, as one does
/// to the quotes around a string literal.
pub fn strip_quotes(s: &str) -> (r: String)
    ensures
        r@ == strip_quotes_spec(s@),
{
    let n = s.unicode_len();
    if n <= 1 {
        String::new()
    } else {
        s.substring_char(1, n - 1).to_owned()
    }
}

/// `language_string_to_enum`: the language that `s` names.
pub fn language_string_to_enum(s: &str) -> (r: Result<Language, InvalidArgumentError>)
    ensures
        r matches Ok(l) ==> language_of(s@) == Some(l),
        r is Err ==> language_of(s@) is None,
{
    if str_eq(s, "python") {
        Ok(Language::Python)
    } else if str_eq(s, "js") || str_eq(s, "javascript") {
        Ok(Language::JavaScript)
    } else if str_eq(s, "java") {
        Ok(Language::Java)
    } else {
        Err(InvalidArgumentError)
    }
}

} // verus!
