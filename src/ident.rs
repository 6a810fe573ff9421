//! Identifiers derived from file names.

use vstd::prelude::*;
use vstd::std_specs::iter::IteratorSpec;

verus! {

broadcast use vstd::string::axiom_spec_iter, vstd::string::next_postcondition;

/// The identifier of an asset: the stem of its file name, that is the file
/// name with the configured suffix removed.
#[derive(Debug, Hash)]
pub struct AssetId(pub String);

impl View for AssetId {
    type V = Seq<char>;

    open spec fn view(&self) -> Seq<char> {
        self.0@
    }
}

impl PartialEq for AssetId {
    fn eq(&self, o: &AssetId) -> (r: bool) {
        self.0 == o.0
    }
}

impl vstd::std_specs::cmp::PartialEqSpecImpl for AssetId {
    open spec fn obeys_eq_spec() -> bool {
        true
    }

    open spec fn eq_spec(&self, o: &AssetId) -> bool {
        self@ == o@
    }
}

impl Eq for AssetId {}

impl From<String> for AssetId {
    fn from(s: String) -> (r: AssetId) {
        AssetId(s)
    }
}

impl vstd::std_specs::convert::FromSpecImpl<String> for AssetId {
    open spec fn obeys_from_spec() -> bool {
        true
    }

    open spec fn from_spec(s: String) -> AssetId {
        AssetId(s)
    }
}

impl AssetId {
    /// A second identifier with the same stem.
    pub fn duplicate(&self) -> (r: AssetId)
        ensures
            r@ == self@,
    {
        AssetId(self.0.clone())
    }
}

/// The last component of a path, as `std::path::Path::file_name` finds it
/// with the path separators of the target platform.
pub uninterp spec fn file_name_of(path: Seq<char>) -> Option<Seq<char>>;

/// `s` ends with `suffix`.
pub open spec fn has_suffix(s: Seq<char>, suffix: Seq<char>) -> bool {
    suffix.len() <= s.len() && s.subrange(s.len() - suffix.len(), s.len() as int) == suffix
}

/// `name` with the last `suffix.len()` characters removed.
pub open spec fn stem_of(name: Seq<char>, suffix: Seq<char>) -> Seq<char> {
    name.subrange(0, name.len() - suffix.len())
}

/// A name that starts with `.` (hidden) or `_` (disabled).
pub open spec fn is_hidden_name(name: Seq<char>) -> bool {
    name.len() > 0 && (name[0] == '.' || name[0] == '_')
}

/// The identifier that a file name yields under `suffix`: its stem, when the
/// name ends with the suffix and the stem is neither empty, hidden nor disabled.
pub open spec fn id_for_name(name: Seq<char>, suffix: Seq<char>) -> Option<Seq<char>> {
    if has_suffix(name, suffix) && stem_of(name, suffix).len() > 0 && !is_hidden_name(
        stem_of(name, suffix),
    ) {
        Some(stem_of(name, suffix))
    } else {
        None
    }
}

/// The identifier that a path yields under `suffix`, through its file name.
pub open spec fn id_for_path(path: Seq<char>, suffix: Seq<char>) -> Option<Seq<char>> {
    match file_name_of(path) {
        Some(name) => id_for_name(name, suffix),
        None => None,
    }
}

/// Relies on `std::path::Path::file_name`, read back through
/// `OsStr::to_string_lossy`: the last component of the path, if it has one.
#[verifier::external_body]
fn path_file_name(path: &str) -> (r: Option<String>)
    ensures
        match r {
            Some(n) => file_name_of(path@) == Some(n@),
            None => file_name_of(path@) is None,
        },
{
    std::path::Path::new(path).file_name().map(|n| n.to_string_lossy().into_owned())
}

/// Relies on `FromIterator<char> for String`: the string of these characters.
#[verifier::external_body]
fn string_from_chars(chars: &[char]) -> (r: String)
    ensures
        r@ == chars@,
{
    chars.iter().collect()
}

/// The characters of `s`, in order.
fn chars_of(s: &str) -> (r: Vec<char>)
    ensures
        r@ == s@,
{
    let mut it = s.chars();
    let mut out: Vec<char> = Vec::new();
    loop
        invariant
            out@ + it.remaining() == s@,
            it.decrease() is Some,
        ensures
            out@ == s@,
        decreases it.decrease()->0,
    {
        let ghost before = it;
        match it.next() {
            Some(c) => {
                out.push(c);
            },
            None => {
                assert(before.remaining().len() == 0);
                assert(out@ =~= s@);
                break ;
            },
        }
    }
    out
}

/// Whether `name` ends with `suffix`.
fn ends_with_chars(name: &Vec<char>, suffix: &Vec<char>) -> (r: bool)
    ensures
        r == has_suffix(name@, suffix@),
{
    if suffix.len() > name.len() {
        return false;
    }
    let offset = name.len() - suffix.len();
    let mut i: usize = 0;
    while i < suffix.len()
        invariant
            offset == name.len() - suffix.len(),
            i <= suffix.len(),
            forall|j: int| 0 <= j < i ==> name@[offset + j] == suffix@[j],
        decreases suffix.len() - i,
    {
        if name[offset + i] != suffix[i] {
            assert(name@.subrange(offset as int, name.len() as int)[i as int] != suffix@[i as int]);
            return false;
        }
        i = i + 1;
    }
    assert(name@.subrange(offset as int, name.len() as int) =~= suffix@);
    true
}

/// The identifier of a file whose name is `name`, under `extension`: `None`
/// when the name does not end with `extension`, or when the stem left is
/// empty or starts with `.` or `_`.
pub fn id_from_file_name(name: &str, extension: &str) -> (r: Option<AssetId>)
    ensures
        match r {
            Some(id) => id_for_name(name@, extension@) == Some(id@),
            None => id_for_name(name@, extension@) is None,
        },
{
    let name_chars = chars_of(name);
    let suffix_chars = chars_of(extension);
    if !ends_with_chars(&name_chars, &suffix_chars) {
        return None;
    }
    let stem_len = name_chars.len() - suffix_chars.len();
    if stem_len == 0 {
        return None;
    }
    let first = name_chars[0];
    if first == '.' || first == '_' {
        return None;
    }
    let stem = string_from_chars(&name_chars.as_slice()[0..stem_len]);
    Some(AssetId(stem))
}

/// The identifier of the file at `path`, under `extension`: the identifier
/// that the path's file name yields (see `id_from_file_name`), and `None`
/// for a path without a file name.
pub fn id_from_filename_with_extension(path: &str, extension: &str) -> (r: Option<AssetId>)
    ensures
        match r {
            Some(id) => id_for_path(path@, extension@) == Some(id@),
            None => id_for_path(path@, extension@) is None,
        },
{
    match path_file_name(path) {
        Some(name) => id_from_file_name(name.as_str(), extension),
        None => None,
    }
}

/// Same as `id_from_filename_with_extension`.
pub fn id_from_filename(path: &str, extension: &str) -> (r: Option<AssetId>)
    ensures
        match r {
            Some(id) => id_for_path(path@, extension@) == Some(id@),
            None => id_for_path(path@, extension@) is None,
        },
{
    id_from_filename_with_extension(path, extension)
}

/// Whether a file name starts with `.` (hidden) or `_` (disabled).
pub fn is_hidden_file_name(name: &str) -> (r: bool)
    ensures
        r == is_hidden_name(name@),
{
    let chars = chars_of(name);
    chars.len() > 0 && (chars[0] == '.' || chars[0] == '_')
}

/// Whether the file name of `path` starts with `.` (hidden) or `_`
/// (disabled); `false` for a path without a file name.
pub fn is_hidden_file(path: &str) -> (r: bool)
    ensures
        r == match file_name_of(path@) {
            Some(name) => is_hidden_name(name),
            None => false,
        },
{
    match path_file_name(path) {
        Some(name) => is_hidden_file_name(name.as_str()),
        None => false,
    }
}

/// The identifier that a file name `stem + suffix` yields is `stem` exactly
/// when the stem is not empty and starts with neither `.` nor `_`; otherwise
/// the name yields no identifier.
pub proof fn lemma_id_of_stem(stem: Seq<char>, suffix: Seq<char>)
    ensures
        id_for_name(stem + suffix, suffix) == if stem.len() > 0 && stem[0] != '.' && stem[0]
            != '_' {
            Some(stem)
        } else {
            None
        },
{
    let name = stem + suffix;
    assert(name.subrange(name.len() - suffix.len(), name.len() as int) =~= suffix);
    assert(stem_of(name, suffix) =~= stem);
}

} // verus!
