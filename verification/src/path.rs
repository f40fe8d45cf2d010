//! Path helpers on `/`-separated text, and the byte helpers that the scanners share.
use crate::encoding::{ascii_from, law_decoded_ascii};
use crate::text::{chars_of, str_eq};
use vstd::prelude::*;
use vstd::slice::slice_subrange;
use vstd::string::StrSliceExecFns;

verus! {

/// Position of the last slash of `s`, if it has one.
pub open spec fn last_slash(s: Seq<char>) -> Option<int>
    decreases s.len(),
{
    if s.len() == 0 {
        None
    } else if s.last() == '/' {
        Some(s.len() - 1)
    } else {
        last_slash(s.drop_last())
    }
}

/// What stands before the last slash; `.` when there is none.
pub open spec fn dir_of(s: Seq<char>) -> Seq<char> {
    match last_slash(s) {
        Some(i) => s.take(i),
        None => "."@,
    }
}

/// What stands behind the last slash; the whole text when there is none.
pub open spec fn base_of(s: Seq<char>) -> Seq<char> {
    match last_slash(s) {
        Some(i) => s.skip(i + 1),
        None => s,
    }
}

/// `path` relative to `root`: empty for the root itself, what follows `root/` below it,
/// nothing outside.
pub open spec fn rel_of(path: Seq<char>, root: Seq<char>) -> Option<Seq<char>> {
    if path == root {
        Some(Seq::empty())
    } else if path.len() > root.len() && path.take(root.len() as int) == root
        && path[root.len() as int] == '/' {
        Some(path.skip(root.len() + 1int))
    } else {
        None
    }
}

/// `path` is `root`, or lives below it.
pub open spec fn under(path: Seq<char>, root: Seq<char>) -> bool {
    rel_of(path, root) is Some
}

/// The bytes `from..to` hold a dot with a byte before it, which is no slash, and bytes behind
/// it, none of which is a slash.
pub open spec fn extension_in(bytes: Seq<u8>, from: int, to: int) -> bool {
    to - from >= 3 && exists|k: int|
        from < k < to - 1 && #[trigger] bytes[k] == 0x2e && bytes[k - 1] != 0x2f && (forall|j: int|
            k < j < to ==> bytes[j] != 0x2f)
}

/// What `String::from_utf8_lossy` makes of bytes that are not UTF-8.
pub uninterp spec fn repaired_text(bytes: Seq<u8>) -> Seq<char>;

/// The text of the bytes: what they encode, where they are UTF-8; otherwise the repaired
/// text, which has its ASCII characters from the bytes. One that had them from elsewhere
/// would be no text of these bytes.
pub open spec fn lossy_text(bytes: Seq<u8>) -> Seq<char> {
    if vstd::utf8::valid_utf8(bytes) {
        vstd::utf8::decode_utf8(bytes)
    } else if ascii_from(bytes, repaired_text(bytes)) {
        repaired_text(bytes)
    } else {
        Seq::empty()
    }
}

/// A symlink-resolved absolute path: the crawl's identity key. The type keeps raw and
/// canonical paths apart, which containment checks and visited sets depend on.
#[derive(Debug, PartialEq, Eq, Hash)]
pub struct CanonicalPath {
    path: String,
}

impl View for CanonicalPath {
    type V = Seq<char>;

    closed spec fn view(&self) -> Seq<char> {
        self.path@
    }
}

impl Clone for CanonicalPath {
    fn clone(&self) -> (r: Self)
        ensures
            r@ == self@,
    {
        CanonicalPath { path: self.path.clone() }
    }
}

impl CanonicalPath {
    /// Brands a path. The caller owns the claim that it is canonical; a path that cannot
    /// be resolved, such as a missing entry file, is branded as it stands.
    pub fn assume_canonical(path: String) -> (r: Self)
        ensures
            r@ == path@,
    {
        CanonicalPath { path }
    }

    /// The path as text.
    pub fn as_str(&self) -> (r: &str)
        ensures
            r@ == self@,
    {
        self.path.as_str()
    }
}

/// Position, in characters, of the last slash.
fn find_last_slash(path: &str) -> (r: Option<usize>)
    ensures
        match r {
            Some(i) => last_slash(path@) == Some(i as int) && i < path@.len(),
            None => last_slash(path@) is None,
        },
{
    let cs = chars_of(path);
    let mut n: usize = cs.len();
    assert(cs@.take(n as int) =~= path@);
    while n > 0
        invariant
            n <= cs.len(),
            cs@ == path@,
            last_slash(path@) == last_slash(cs@.take(n as int)),
        decreases n,
    {
        assert(cs@.take(n as int).drop_last() =~= cs@.take(n - 1));
        if cs[n - 1] == '/' {
            return Some(n - 1);
        }
        n -= 1;
    }
    None
}

/// Parent directory portion of `path`, or `.` when it has no slash.
pub fn dir_name(path: &str) -> (r: &str)
    ensures
        r@ == dir_of(path@),
{
    match find_last_slash(path) {
        Some(i) => {
            assert(path@.subrange(0, i as int) =~= path@.take(i as int));
            path.substring_char(0, i)
        },
        None => ".",
    }
}

/// Final path component; the whole text when it has no slash.
pub fn base_name(path: &str) -> (r: &str)
    ensures
        r@ == base_of(path@),
{
    match find_last_slash(path) {
        Some(i) => {
            let n: usize = path.unicode_len();
            assert(path@.subrange(i + 1, n as int) =~= path@.skip(i + 1));
            path.substring_char(i + 1, n)
        },
        None => path,
    }
}

/// `path` relative to `under_root`: empty for the root itself, `None` outside.
pub fn rel_path<'a>(path: &'a str, under_root: &str) -> (r: Option<&'a str>)
    ensures
        match r {
            Some(rest) => rel_of(path@, under_root@) == Some(rest@),
            None => rel_of(path@, under_root@) is None,
        },
{
    if str_eq(path, under_root) {
        let r = path.substring_char(0, 0);
        assert(path@.subrange(0, 0) =~= Seq::<char>::empty());
        return Some(r);
    }
    let n: usize = path.unicode_len();
    let m: usize = under_root.unicode_len();
    if n <= m {
        return None;
    }
    let head = path.substring_char(0, m);
    assert(path@.subrange(0, m as int) =~= path@.take(m as int));
    if !str_eq(head, under_root) || path.get_char(m) != '/' {
        return None;
    }
    assert(path@.subrange(m + 1, n as int) =~= path@.skip(m + 1));
    Some(path.substring_char(m + 1, n))
}

/// Whether `path` is `root` or lives below it.
pub fn is_under(path: &str, root: &str) -> (r: bool)
    ensures
        r == under(path@, root@),
{
    rel_path(path, root).is_some()
}

/// Whether the `len` bytes from `from` end in a file extension: a dot that is not the first
/// byte and stands behind no slash, with at least one byte and no slash behind it.
pub fn has_extension(bytes: &[u8], from: usize, len: usize) -> (r: bool)
    requires
        len >= 3 ==> from + len <= bytes.len(),
    ensures
        r == extension_in(bytes@, from as int, from + len),
{
    if len < 3 {
        return false;
    }
    let last: usize = from + len - 1;
    if bytes[last] == 0x2f {
        return false;
    }
    let mut i: usize = last - 1;
    while i > from
        invariant
            3 <= len,
            from <= i < last,
            last == from + len - 1,
            from + len <= bytes.len(),
            forall|j: int| i < j < from + len ==> bytes@[j] != 0x2f,
            forall|k: int|
                i < k < last && #[trigger] bytes@[k] == 0x2e ==> bytes@[k - 1] == 0x2f,
        decreases i - from,
    {
        let b = bytes[i];
        if b == 0x2e && bytes[i - 1] != 0x2f {
            return true;
        }
        if b == 0x2f {
            return false;
        }
        i -= 1;
    }
    false
}

/// `String::from_utf8_lossy`: on well-formed UTF-8 it is the text that the bytes encode.
/// Otherwise malformed parts are replaced by U+FFFD, and the result depends on the bytes
/// alone. As an ASCII byte is never part of a malformed sequence and nothing is left out, the
/// ASCII characters of the result are those of the bytes, next to each other where they are
/// in the bytes.
#[verifier::external_body]
fn from_utf8_lossy(bytes: &[u8]) -> (r: String)
    ensures
        vstd::utf8::valid_utf8(bytes@) ==> r@ == vstd::utf8::decode_utf8(bytes@),
        !vstd::utf8::valid_utf8(bytes@) ==> r@ == repaired_text(bytes@) && ascii_from(bytes@, r@),
{
    String::from_utf8_lossy(bytes).into_owned()
}

/// The text of the `len` bytes from `from`.
pub fn decode_utf8(bytes: &[u8], from: usize, len: usize) -> (r: String)
    requires
        from + len <= bytes.len(),
    ensures
        r@ == lossy_text(bytes@.subrange(from as int, from + len)),
{
    from_utf8_lossy(slice_subrange(bytes, from, from + len))
}

/// A path that has a slash is its directory, a slash and its base name, and the base name
/// has no slash; without a slash it is its own base name.
pub proof fn law_dir_base(path: Seq<char>)
    ensures
        path.contains('/') ==> path == dir_of(path) + seq!['/'] + base_of(path),
        !path.contains('/') ==> base_of(path) == path && dir_of(path) == "."@,
        !base_of(path).contains('/'),
{
    lemma_last_slash(path);
    match last_slash(path) {
        Some(i) => {
            assert(path[i] == '/');
            assert(path =~= dir_of(path) + seq!['/'] + base_of(path));
        },
        None => {},
    }
}

pub(crate) proof fn lemma_last_slash(s: Seq<char>)
    ensures
        match last_slash(s) {
            Some(i) => 0 <= i < s.len() && s[i] == '/' && forall|j: int|
                i < j < s.len() ==> s[j] != '/',
            None => forall|j: int| 0 <= j < s.len() ==> s[j] != '/',
        },
    decreases s.len(),
{
    if s.len() > 0 && s.last() != '/' {
        lemma_last_slash(s.drop_last());
        assert(forall|j: int| 0 <= j < s.len() - 1 ==> s.drop_last()[j] == s[j]);
    }
}

/// What stands below a root is found again relative to it, and only the root itself and
/// what stands below it is under the root.
pub proof fn law_rel_path(root: Seq<char>, rest: Seq<char>, path: Seq<char>)
    ensures
        rel_of(root + seq!['/'] + rest, root) == Some(rest),
        under(path, root) <==> path == root || exists|r: Seq<char>|
            path == root + seq!['/'] + r,
{
    let p = root + seq!['/'] + rest;
    assert(p.take(root.len() as int) =~= root);
    assert(p.skip(root.len() + 1int) =~= rest);
    if under(path, root) && path != root {
        assert(path =~= root + seq!['/'] + path.skip(root.len() + 1int));
    }
    if exists|r: Seq<char>| path == root + seq!['/'] + r {
        let r = choose|r: Seq<char>| path == root + seq!['/'] + r;
        assert(path.take(root.len() as int) =~= root);
    }
}

/// Below the root, a path and its relative path have the same base name.
pub proof fn law_rel_base(path: Seq<char>, root: Seq<char>)
    requires
        under(path, root),
        path != root,
    ensures
        base_of(rel_of(path, root)->0) == base_of(path),
{
    let rel = rel_of(path, root)->0;
    let n = root.len() + 1int;
    lemma_last_slash(path);
    lemma_last_slash(rel);
    assert forall|j: int| n <= j < path.len() implies path[j] == rel[j - n] by {}
    match last_slash(rel) {
        Some(i) => {
            assert(path[i + n] == '/');
            assert(last_slash(path) == Some(i + n)) by {
                let k = last_slash(path)->0;
                if k > i + n {
                    assert(rel[k - n] == '/');
                }
            }
            assert(path.skip(i + n + 1) =~= rel.skip(i + 1));
        },
        None => {
            assert(path[n - 1] == '/');
            assert(last_slash(path) == Some(n - 1)) by {
                let k = last_slash(path)->0;
                if k > n - 1 {
                    assert(rel[k - n] == '/');
                }
            }
        },
    }
}

/// The text of bytes has its ASCII characters from them.
pub proof fn law_lossy_ascii(bytes: Seq<u8>)
    ensures
        ascii_from(bytes, lossy_text(bytes)),
{
    if vstd::utf8::valid_utf8(bytes) {
        law_decoded_ascii(bytes);
    }
}

/// The bytes of a text decode to the text.
pub proof fn law_decode_encode(text: Seq<char>)
    ensures
        lossy_text(vstd::utf8::encode_utf8(text)) == text,
{
    vstd::utf8::encode_utf8_valid_utf8(text);
    vstd::utf8::encode_utf8_decode_utf8(text);
}

} // verus!
