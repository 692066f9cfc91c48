//! From the path of a request to the file system path it names, and what is
//! served from there.
use vstd::prelude::*;

use crate::paths::{ends_with_slash, starts_with_slash, strip_root};
use crate::types::{EntryKind, TalkyError};

verus! {

/// The path that pushing `part` onto the path `acc` gives, with Unix's `/`
/// as separator: an absolute part replaces `acc`; any other part is
/// appended, after a `/` where `acc` is not empty and does not end with one.
pub open spec fn pushed(acc: Seq<char>, part: Seq<char>) -> Seq<char> {
    if starts_with_slash(part) {
        part
    } else if acc.len() > 0 && !ends_with_slash(acc) {
        acc + seq!['/'] + part
    } else {
        acc + part
    }
}

/// The parts pushed in order onto an empty path.
pub open spec fn joined_path(parts: Seq<Seq<char>>) -> Seq<char>
    decreases parts.len(),
{
    if parts.len() == 0 {
        seq![]
    } else {
        pushed(joined_path(parts.drop_last()), parts.last())
    }
}

/// Relies on `easy_paths::get_path_joined`, which collects the parts into a
/// `PathBuf` (one `PathBuf::push` each, on Unix) and returns it with
/// `to_str`; parts that are all valid UTF-8 give a valid UTF-8 path, so
/// the result is always there.
#[verifier::external_body]
pub(crate) fn join_parts(parts: &Vec<String>) -> (r: Option<String>)
    ensures
        r is Some,
        r.deep_view() == Some(joined_path(parts.deep_view())),
{
    easy_paths::get_path_joined(parts.as_slice())
}

/// Joins two parts into one path.
pub(crate) fn join_two(a: &String, b: &String) -> (r: String)
    ensures
        r@ == joined_path(seq![a@, b@]),
{
    let mut parts: Vec<String> = Vec::new();
    parts.push(a.clone());
    parts.push(b.clone());
    assert(parts.deep_view() =~= seq![a@, b@]);
    join_parts(&parts).unwrap()
}

/// Whether `s` begins with `prefix`.
pub open spec fn starts_with(s: Seq<char>, prefix: Seq<char>) -> bool {
    prefix.len() <= s.len() && s.subrange(0, prefix.len() as int) == prefix
}

/// A relative part pushed onto a path keeps that path in front.
pub proof fn lemma_join_keeps_base(base: Seq<char>, rel: Seq<char>)
    requires
        !starts_with_slash(rel),
    ensures
        starts_with(joined_path(seq![base, rel]), base),
{
    let parts = seq![base, rel];
    assert(parts.drop_last() =~= seq![base]);
    assert(seq![base].drop_last() =~= Seq::<Seq<char>>::empty());
    assert(joined_path(Seq::<Seq<char>>::empty()) =~= Seq::<char>::empty());
    assert(Seq::<char>::empty() + base =~= base);
    assert(joined_path(seq![base]) =~= base);
    let j = joined_path(parts);
    assert(j.subrange(0, base.len() as int) =~= base);
}

/// Whether `s` holds the escape `%20` at position `i`.
pub open spec fn escaped_space_at(s: Seq<char>, i: int) -> bool {
    0 <= i && i + 3 <= s.len() && s[i] == '%' && s[i + 1] == '2' && s[i + 2] == '0'
}

/// `s` with each `%20`, read from left to right, turned into a space.
pub open spec fn decode_spaces(s: Seq<char>) -> Seq<char>
    decreases s.len(),
{
    if s.len() == 0 {
        s
    } else if escaped_space_at(s, 0) {
        seq![' '] + decode_spaces(s.subrange(3, s.len() as int))
    } else {
        seq![s[0]] + decode_spaces(s.subrange(1, s.len() as int))
    }
}

/// The request path as it is joined to the base directory: spaces decoded,
/// one leading `/` dropped.
pub open spec fn normalized(p: Seq<char>) -> Seq<char> {
    strip_root(decode_spaces(p))
}

/// Whether `s` has a segment `..` that starts at `i`.
pub open spec fn parent_segment_at(s: Seq<char>, i: int) -> bool {
    &&& 0 <= i
    &&& i + 2 <= s.len()
    &&& s[i] == '.'
    &&& s[i + 1] == '.'
    &&& (i == 0 || s[i - 1] == '/')
    &&& (i + 2 == s.len() || s[i + 2] == '/')
}

/// Whether `s`, joined below a directory, stays below it: it is not
/// absolute and no segment of it climbs up.
pub open spec fn stays_below(s: Seq<char>) -> bool {
    !starts_with_slash(s) && !(exists|i: int| parent_segment_at(s, i))
}

proof fn lemma_decode_append(a: Seq<char>, t: Seq<char>)
    requires
        t.len() == 0 || (t[0] != '2' && t[0] != '0'),
    ensures
        decode_spaces(a + t) == decode_spaces(a) + decode_spaces(t),
    decreases a.len(),
{
    if a.len() == 0 {
        assert(a + t =~= t);
    } else if escaped_space_at(a, 0) {
        let tail = a.subrange(3, a.len() as int);
        assert((a + t).subrange(3, (a + t).len() as int) =~= tail + t);
        lemma_decode_append(tail, t);
        assert(escaped_space_at(a + t, 0));
    } else {
        let tail = a.subrange(1, a.len() as int);
        assert((a + t).subrange(1, (a + t).len() as int) =~= tail + t);
        lemma_decode_append(tail, t);
        assert(!escaped_space_at(a + t, 0));
    }
}

/// An escaped space in a request path is read as a literal space:
/// the two paths name the same place below the base directory.
pub proof fn lemma_escaped_space_is_space(a: Seq<char>, b: Seq<char>)
    ensures
        decode_spaces(a + seq!['%', '2', '0'] + b) == decode_spaces(a + seq![' '] + b),
{
    let esc = seq!['%', '2', '0'] + b;
    let sp = seq![' '] + b;
    lemma_decode_append(a, esc);
    lemma_decode_append(a, sp);
    assert(esc.subrange(3, esc.len() as int) =~= b);
    assert(sp.subrange(1, sp.len() as int) =~= b);
    assert(a + seq!['%', '2', '0'] + b =~= a + esc);
    assert(a + seq![' '] + b =~= a + sp);
}

/// Turns each `%20` of `s`, read from left to right, into a space.
pub fn decode_escaped_spaces(s: &str) -> (r: String)
    ensures
        r@ == decode_spaces(s@),
{
    let n = s.unicode_len();
    let mut r = String::new();
    let mut i: usize = 0;
    proof {
        assert(s@.subrange(0, n as int) =~= s@);
        assert(r@ + decode_spaces(s@) =~= decode_spaces(s@));
    }
    while i < n
        invariant
            n == s@.len(),
            0 <= i <= n,
            r@ + decode_spaces(s@.subrange(i as int, n as int)) == decode_spaces(s@),
        decreases n - i,
    {
        let ghost rest = s@.subrange(i as int, n as int);
        let ghost before = r@;
        if n - i >= 3 && s.get_char(i) == '%' && s.get_char(i + 1) == '2' && s.get_char(i + 2)
            == '0' {
            assert(escaped_space_at(rest, 0));
            assert(rest.subrange(3, rest.len() as int) =~= s@.subrange(i + 3, n as int));
            proof {
                reveal_strlit(" ");
            }
            r.append(" ");
            assert(decode_spaces(rest) == seq![' '] + decode_spaces(s@.subrange(i + 3, n as int)));
            assert(r@ + decode_spaces(s@.subrange(i + 3, n as int)) =~= before + decode_spaces(
                rest,
            ));
            i += 3;
        } else {
            assert(!escaped_space_at(rest, 0));
            assert(rest.subrange(1, rest.len() as int) =~= s@.subrange(i + 1, n as int));
            let c = s.substring_char(i, i + 1);
            assert(c@ =~= seq![rest[0]]);
            r.append(c);
            assert(decode_spaces(rest) == seq![rest[0]] + decode_spaces(s@.subrange(i + 1, n as int)));
            assert(r@ + decode_spaces(s@.subrange(i + 1, n as int)) =~= before + decode_spaces(
                rest,
            ));
            i += 1;
        }
    }
    assert(s@.subrange(n as int, n as int) =~= Seq::<char>::empty());
    assert(r@ =~= r@ + Seq::<char>::empty());
    r
}

/// The request path as it is joined to the base directory: each `%20`
/// becomes a space (no other escape is decoded), then one leading `/` is
/// dropped.
pub fn normalize_request_path(path: &str) -> (r: String)
    ensures
        r@ == normalized(path@),
{
    let decoded = decode_escaped_spaces(path);
    let d = decoded.as_str();
    let n = d.unicode_len();
    if n > 0 && d.get_char(0) == '/' {
        d.substring_char(1, n).to_owned()
    } else {
        decoded
    }
}

/// Whether `path`, joined below a directory, stays below it.
pub fn is_below(path: &str) -> (r: bool)
    ensures
        r == stays_below(path@),
{
    let n = path.unicode_len();
    if n > 0 && path.get_char(0) == '/' {
        return false;
    }
    let mut i: usize = 0;
    while n >= 2 && i <= n - 2
        invariant
            n == path@.len(),
            i <= n,
            forall|k: int| 0 <= k < i ==> !parent_segment_at(path@, k),
        decreases n - i,
    {
        if path.get_char(i) == '.' && path.get_char(i + 1) == '.' && (i == 0 || path.get_char(
            i - 1,
        ) == '/') && (i + 2 == n || path.get_char(i + 2) == '/') {
            assert(parent_segment_at(path@, i as int));
            return false;
        }
        i += 1;
    }
    assert forall|k: int| !parent_segment_at(path@, k) by {
        if 0 <= k < i {
        } else {
            assert(!parent_segment_at(path@, k));
        }
    }
    true
}

/// A request path resolved against the base directory.
#[derive(Debug)]
pub struct RequestTarget {
    /// The request path as joined: decoded, without its leading `/`.
    pub request_path: String,
    /// The base directory and the request path joined into one path.
    pub full_path: String,
}

/// What the full path of a request is joined to, if the request path may be joined.
pub open spec fn target_of(base_dir: Seq<char>, uri_path: Seq<char>) -> Option<Seq<char>> {
    let rel = normalized(uri_path);
    if stays_below(rel) {
        Some(joined_path(seq![base_dir, rel]))
    } else {
        None
    }
}

/// Resolves the path of a request against the base directory. A path that
/// would leave the base directory is refused with `PathJoin`; any other is
/// joined below it, so that the full path begins with the base directory.
pub fn resolve_request_path(base_dir: &String, uri_path: &str) -> (r: Result<
    RequestTarget,
    TalkyError,
>)
    ensures
        match target_of(base_dir@, uri_path@) {
            Some(full) => r matches Ok(t) && t.request_path@ == normalized(uri_path@)
                && t.full_path@ == full,
            None => r matches Err(TalkyError::PathJoin),
        },
        r matches Ok(t) ==> starts_with(t.full_path@, base_dir@) && stays_below(
            t.request_path@,
        ),
{
    let request_path = normalize_request_path(uri_path);
    if !is_below(request_path.as_str()) {
        return Err(TalkyError::PathJoin);
    }
    let full_path = join_two(base_dir, &request_path);
    proof {
        lemma_join_keeps_base(base_dir@, request_path@);
    }
    Ok(RequestTarget { request_path, full_path })
}

/// How a resolved path is answered.
#[derive(Debug, Clone, Copy, PartialEq, Eq, Structural)]
pub enum Serving {
    /// A directory: its listing is rendered into a page.
    Listing,
    /// A text file shown as it is.
    InlineText,
    /// Any other file, handed out as a download.
    Attachment,
    /// Neither a file nor a directory.
    Missing,
}

/// The extensions of files that are shown inline rather than downloaded.
pub open spec fn inline_extensions() -> Seq<Seq<char>> {
    seq!["html"@, "md"@, "json"@, "xml"@, "log"@, "conf"@, "css"@]
}

/// How a path of this kind and extension is answered.
pub open spec fn serving_of(kind: EntryKind, extension: Option<Seq<char>>) -> Serving {
    match kind {
        EntryKind::Directory => Serving::Listing,
        EntryKind::File => match extension {
            Some(e) => if inline_extensions().contains(e) {
                Serving::InlineText
            } else {
                Serving::Attachment
            },
            None => Serving::Attachment,
        },
        EntryKind::Other => Serving::Missing,
    }
}

/// Whether a file with this extension is shown inline.
fn is_inline_extension(extension: &String) -> (r: bool)
    ensures
        r == inline_extensions().contains(extension@),
{
    let mut known: Vec<String> = Vec::new();
    known.push(String::from_str("html"));
    known.push(String::from_str("md"));
    known.push(String::from_str("json"));
    known.push(String::from_str("xml"));
    known.push(String::from_str("log"));
    known.push(String::from_str("conf"));
    known.push(String::from_str("css"));
    assert(known.deep_view() =~= inline_extensions());
    let mut i: usize = 0;
    while i < known.len()
        invariant
            known.deep_view() == inline_extensions(),
            0 <= i <= known.len(),
            forall|k: int| 0 <= k < i ==> known.deep_view()[k] != extension@,
        decreases known.len() - i,
    {
        if known[i] == *extension {
            assert(known.deep_view()[i as int] == extension@);
            return true;
        }
        i += 1;
    }
    assert(!inline_extensions().contains(extension@));
    false
}

/// Decides how a path is answered: a directory is listed, a file whose
/// extension is `html`, `md`, `json`, `xml`, `log`, `conf` or `css` is shown
/// inline, another file is downloaded, and anything else is not found.
pub fn serving_for(kind: EntryKind, extension: &Option<String>) -> (r: Serving)
    ensures
        r == serving_of(kind, extension.deep_view()),
{
    match kind {
        EntryKind::Directory => Serving::Listing,
        EntryKind::File => match extension {
            Some(e) => if is_inline_extension(e) {
                Serving::InlineText
            } else {
                Serving::Attachment
            },
            None => Serving::Attachment,
        },
        EntryKind::Other => Serving::Missing,
    }
}

} // verus!
