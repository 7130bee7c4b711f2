//! Language tags: how they are compared, which of them are configured, and
//! which have a lexer.

use vstd::prelude::*;
use vstd::string::*;

verus! {

/// An ASCII capital as its small letter; any other byte as it is.
pub open spec fn ascii_lower(b: u8) -> u8 {
    if 0x41 <= b <= 0x5a {
        (b + 0x20) as u8
    } else {
        b
    }
}

/// The two byte strings are equal but for the case of their ASCII letters.
pub open spec fn same_ignoring_case(a: Seq<u8>, b: Seq<u8>) -> bool {
    &&& a.len() == b.len()
    &&& forall|i: int| 0 <= i < a.len() ==> ascii_lower(#[trigger] a[i]) == ascii_lower(b[i])
}

/// The bytes of each configured language.
pub open spec fn language_bytes(languages: Seq<String>) -> Seq<Seq<u8>> {
    Seq::new(languages.len(), |i: int| vstd::utf8::encode_utf8(languages[i]@))
}

/// One of the languages is `tag`, but for the case of ASCII letters.
pub open spec fn is_configured(languages: Seq<Seq<u8>>, tag: Seq<u8>) -> bool {
    exists|i: int| 0 <= i < languages.len() && same_ignoring_case(#[trigger] languages[i], tag)
}

/// A lexer that can cut the body of a fence.
#[derive(Clone, Copy, Debug, PartialEq, Eq, Structural)]
pub enum Backend {
    /// The Python lexer.
    Python,
}

/// What a tag resolves to.
#[derive(Clone, Copy, Debug, PartialEq, Eq, Structural)]
pub enum Resolution {
    /// The tag is configured and this lexer cuts the body.
    Backend(Backend),
    /// The tag is configured, but no lexer exists for it: the body stays whole.
    Unsupported,
    /// The tag is empty or not configured: the body stays whole.
    Unconfigured,
}

/// The lexer that a tag names, whether configured or not: `python` and `py`
/// name the Python lexer, in any case of their letters.
pub open spec fn backend_of(tag: Seq<u8>) -> Option<Backend> {
    if same_ignoring_case(tag, "python".spec_bytes()) || same_ignoring_case(
        tag,
        "py".spec_bytes(),
    ) {
        Some(Backend::Python)
    } else {
        None
    }
}

/// What `tag` resolves to under the configured languages.
pub open spec fn resolution(languages: Seq<Seq<u8>>, tag: Seq<u8>) -> Resolution {
    if tag.len() == 0 || !is_configured(languages, tag) {
        Resolution::Unconfigured
    } else {
        match backend_of(tag) {
            Some(backend) => Resolution::Backend(backend),
            None => Resolution::Unsupported,
        }
    }
}

/// The languages that are configured where none are given: `python` and `py`.
pub fn default_languages() -> (languages: Vec<String>)
    ensures
        languages@.len() == 2,
        languages@[0]@ == "python"@,
        languages@[1]@ == "py"@,
{
    vec!["python".to_owned(), "py".to_owned()]
}

/// The small letter of an ASCII capital; any other byte as it is.
pub fn to_ascii_lower(b: u8) -> (r: u8)
    ensures
        r == ascii_lower(b),
{
    if 0x41 <= b && b <= 0x5a {
        b + 0x20
    } else {
        b
    }
}

/// Whether two byte strings are equal but for the case of their ASCII letters.
pub fn eq_ignore_ascii_case(a: &[u8], b: &[u8]) -> (same: bool)
    ensures
        same == same_ignoring_case(a@, b@),
{
    if a.len() != b.len() {
        return false;
    }
    let mut i: usize = 0;
    while i < a.len()
        invariant
            i <= a@.len(),
            a@.len() == b@.len(),
            forall|k: int| 0 <= k < i ==> ascii_lower(#[trigger] a@[k]) == ascii_lower(b@[k]),
        decreases a@.len() - i,
    {
        if to_ascii_lower(a[i]) != to_ascii_lower(b[i]) {
            return false;
        }
        i += 1;
    }
    true
}

/// Whether one of the languages is `tag`, but for the case of ASCII letters.
pub fn names_language(languages: &Vec<String>, tag: &[u8]) -> (found: bool)
    ensures
        found == is_configured(language_bytes(languages@), tag@),
{
    let ghost all = language_bytes(languages@);
    let mut i: usize = 0;
    while i < languages.len()
        invariant
            i <= languages@.len(),
            all == language_bytes(languages@),
            forall|k: int| 0 <= k < i ==> !same_ignoring_case(#[trigger] all[k], tag@),
        decreases languages@.len() - i,
    {
        let language = languages[i].as_str().as_bytes();
        assert(language@ == all[i as int]);
        if eq_ignore_ascii_case(language, tag) {
            return true;
        }
        i += 1;
    }
    false
}

/// The lexer that `tag` names, if any.
pub fn backend_for(tag: &[u8]) -> (backend: Option<Backend>)
    ensures
        backend == backend_of(tag@),
{
    if eq_ignore_ascii_case(tag, "python".as_bytes()) || eq_ignore_ascii_case(
        tag,
        "py".as_bytes(),
    ) {
        Some(Backend::Python)
    } else {
        None
    }
}

/// Resolves `tag` under the configured languages.
pub fn resolve(languages: &Vec<String>, tag: &[u8]) -> (r: Resolution)
    ensures
        r == resolution(language_bytes(languages@), tag@),
{
    if tag.len() == 0 || !names_language(languages, tag) {
        Resolution::Unconfigured
    } else {
        match backend_for(tag) {
            Some(backend) => Resolution::Backend(backend),
            None => Resolution::Unsupported,
        }
    }
}

} // verus!
