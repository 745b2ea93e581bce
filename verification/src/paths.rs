//! File-system path arithmetic, as the standard library performs it under the
//! path rules of the target platform, and the Unicode spellings under which a
//! path typed by a user is looked up. Paths are held as text.
use vstd::prelude::*;
use unicode_normalization::UnicodeNormalization;
use crate::text::string_views;

verus! {

/// What `Path::strip_prefix` gives for `path` and `base`, as text: the rest of
/// `path` after the components of `base`, or nothing when `base` is not a
/// prefix of `path` component by component.
pub uninterp spec fn path_strip_prefix(path: Seq<char>, base: Seq<char>) -> Option<Seq<char>>;

/// What `Path::join` gives for `base` and `rest`, as text.
pub uninterp spec fn path_join(base: Seq<char>, rest: Seq<char>) -> Seq<char>;

/// Calls `std::path::Path::strip_prefix`. Trusted: the result is the named
/// value [`path_strip_prefix`] of the two arguments; nothing more of it is
/// stated, since its exact form follows the platform's component rules.
#[verifier::external_body]
pub(crate) fn strip_path_prefix(path: &str, base: &str) -> (r: Option<String>)
    ensures
        match r {
            Some(rest) => path_strip_prefix(path@, base@) == Some(rest@),
            None => path_strip_prefix(path@, base@) is None,
        },
{
    match std::path::Path::new(path).strip_prefix(base) {
        Ok(rest) => Some(rest.to_string_lossy().into_owned()),
        Err(_) => None,
    }
}

/// Calls `std::path::Path::join` (which is also what `PathBuf::push` does).
/// Trusted: the result is the named value [`path_join`] of the two arguments;
/// nothing more of it is stated, since where separators go and whether `rest`
/// replaces `base` follow the platform's rules.
#[verifier::external_body]
pub(crate) fn join_path(base: &str, rest: &str) -> (r: String)
    ensures
        r@ == path_join(base@, rest@),
{
    std::path::Path::new(base).join(rest).to_string_lossy().into_owned()
}

/// What `unicode_normalization`'s `nfc()` gives for `s`: its canonical
/// composition (Unicode Normalization Form C).
pub uninterp spec fn nfc_form(s: Seq<char>) -> Seq<char>;

/// What `unicode_normalization`'s `nfd()` gives for `s`: its canonical
/// decomposition (Unicode Normalization Form D).
pub uninterp spec fn nfd_form(s: Seq<char>) -> Seq<char>;

/// Calls `UnicodeNormalization::nfc` on `s` and collects the characters.
/// Trusted: the result is the named value [`nfc_form`] of `s`; nothing more
/// of it is stated, since the composition follows the Unicode tables.
#[verifier::external_body]
fn composed(s: &str) -> (r: String)
    ensures
        r@ == nfc_form(s@),
{
    s.nfc().collect()
}

/// Calls `UnicodeNormalization::nfd` on `s` and collects the characters.
/// Trusted: the result is the named value [`nfd_form`] of `s`; nothing more
/// of it is stated, since the decomposition follows the Unicode tables.
#[verifier::external_body]
fn decomposed(s: &str) -> (r: String)
    ensures
        r@ == nfd_form(s@),
{
    s.nfd().collect()
}

/// The spellings under which a path typed by a user is looked up, in order:
/// as given, composed (NFC), and decomposed (NFD). File systems differ in
/// which form they store, so a name typed in one form may exist in another.
pub open spec fn spec_spellings(raw: Seq<char>) -> Seq<Seq<char>> {
    seq![raw, nfc_form(raw), nfd_form(raw)]
}

/// The spellings of `raw` to look up, in order of preference.
pub fn path_spellings(raw: &str) -> (r: Vec<String>)
    ensures
        string_views(r@) == spec_spellings(raw@),
{
    let mut r: Vec<String> = Vec::new();
    r.push(String::from_str(raw));
    r.push(composed(raw));
    r.push(decomposed(raw));
    assert(string_views(r@) =~= spec_spellings(raw@));
    r
}

/// Picks the path to open among `spellings` (see [`path_spellings`]), given
/// for each whether it exists: the first that does, or the path as given
/// when none does.
pub fn pick_spelling(spellings: &Vec<String>, exists: &Vec<bool>) -> (r: String)
    requires
        spellings@.len() >= 1,
        exists@.len() == spellings@.len(),
    ensures
        (exists|i: int| 0 <= i < exists@.len() && exists@[i]) ==> exists|i: int|
            0 <= i < exists@.len() && exists@[i] && (forall|j: int| 0 <= j < i ==> !exists@[j])
                && r@ == spellings@[i]@,
        !(exists|i: int| 0 <= i < exists@.len() && exists@[i]) ==> r@ == spellings@[0]@,
{
    let mut i: usize = 0;
    while i < spellings.len()
        invariant
            i <= spellings@.len() == exists@.len(),
            forall|j: int| 0 <= j < i ==> !exists@[j],
        decreases spellings.len() - i,
    {
        if exists[i] {
            return spellings[i].clone();
        }
        i = i + 1;
    }
    spellings[0].clone()
}

} // verus!
