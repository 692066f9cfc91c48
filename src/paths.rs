//! Path algebra on request paths: the trail of ancestor paths and the
//! display form of a directory path.
use vstd::prelude::*;

verus! {

/// Whether `s` begins with a `/`.
pub open spec fn starts_with_slash(s: Seq<char>) -> bool {
    s.len() > 0 && s[0] == '/'
}

/// Whether `s` ends with a `/`.
pub open spec fn ends_with_slash(s: Seq<char>) -> bool {
    s.len() > 0 && s.last() == '/'
}

/// `p` without one leading `/`, if it has one.
pub open spec fn strip_root(p: Seq<char>) -> Seq<char> {
    if starts_with_slash(p) {
        p.subrange(1, p.len() as int)
    } else {
        p
    }
}

/// The prefixes of `s` that end just before a `/`, for each `/` among the
/// first `j` characters, in order.
pub open spec fn prefixes_before_slashes(s: Seq<char>, j: int) -> Seq<Seq<char>>
    decreases j,
{
    if j <= 0 {
        seq![]
    } else {
        let earlier = prefixes_before_slashes(s, j - 1);
        if s[j - 1] == '/' {
            earlier.push(s.subrange(0, j - 1))
        } else {
            earlier
        }
    }
}

/// How many of the first `j` characters of `s` are `/`.
pub open spec fn slash_count(s: Seq<char>, j: int) -> nat
    decreases j,
{
    if j <= 0 {
        0
    } else if s[j - 1] == '/' {
        slash_count(s, j - 1) + 1
    } else {
        slash_count(s, j - 1)
    }
}

/// The number of `/`-separated segments of `s`; the empty string has none.
pub open spec fn segment_count(s: Seq<char>) -> nat {
    if s.len() == 0 {
        0
    } else {
        slash_count(s, s.len() as int) + 1
    }
}

/// The cumulative paths of `s`: `a/b/c` gives `a`, `a/b`, `a/b/c`.
pub open spec fn cumulative(s: Seq<char>) -> Seq<Seq<char>> {
    prefixes_before_slashes(s, s.len() as int).push(s)
}

/// `s` with a `/` in front.
pub open spec fn rooted(s: Seq<char>) -> Seq<char> {
    seq!['/'] + s
}

/// The trail of ancestor paths of `p`, from the shallowest to `p` itself.
/// With a root (asked for, or `p` begins with `/`) the trail starts at `/`
/// and every entry carries a leading `/`.
pub open spec fn path_list(p: Seq<char>, set_prefix: bool) -> Seq<Seq<char>> {
    let rest = strip_root(p);
    if set_prefix || starts_with_slash(p) {
        if rest.len() == 0 {
            seq![seq!['/']]
        } else {
            seq![seq!['/']] + cumulative(rest).map_values(|e: Seq<char>| rooted(e))
        }
    } else {
        cumulative(rest)
    }
}

/// `p` without any of its leading `/`.
pub open spec fn trim_leading(p: Seq<char>) -> Seq<char>
    decreases p.len(),
{
    if starts_with_slash(p) {
        trim_leading(p.drop_first())
    } else {
        p
    }
}

/// `p` without any of its trailing `/`.
pub open spec fn trim_trailing(p: Seq<char>) -> Seq<char>
    decreases p.len(),
{
    if ends_with_slash(p) {
        trim_trailing(p.drop_last())
    } else {
        p
    }
}

/// `p` without any `/` at either end.
pub open spec fn trim_slashes(p: Seq<char>) -> Seq<char> {
    trim_trailing(trim_leading(p))
}

/// `p` with exactly one `/` at the start and one at the end: the runs of
/// `/` at either end are replaced by one. A path of slashes alone, and the
/// empty path, give `/`.
pub open spec fn prefix_path(p: Seq<char>) -> Seq<char> {
    let core = trim_slashes(p);
    if core.len() == 0 {
        seq!['/']
    } else {
        rooted(core).push('/')
    }
}

proof fn lemma_trim_leading_shape(p: Seq<char>)
    ensures
        !starts_with_slash(trim_leading(p)),
        p.len() > 0 && !starts_with_slash(p) ==> trim_leading(p) == p,
    decreases p.len(),
{
    if starts_with_slash(p) {
        lemma_trim_leading_shape(p.drop_first());
    }
}

proof fn lemma_trim_trailing_shape(p: Seq<char>)
    ensures
        !ends_with_slash(trim_trailing(p)),
        trim_trailing(p).len() <= p.len(),
        trim_trailing(p) =~= p.subrange(0, trim_trailing(p).len() as int),
    decreases p.len(),
{
    if ends_with_slash(p) {
        lemma_trim_trailing_shape(p.drop_last());
    }
}

proof fn lemma_trim_slashes_shape(p: Seq<char>)
    ensures
        !starts_with_slash(trim_slashes(p)),
        !ends_with_slash(trim_slashes(p)),
{
    let l = trim_leading(p);
    lemma_trim_leading_shape(p);
    lemma_trim_trailing_shape(l);
    let t = trim_trailing(l);
    if t.len() > 0 {
        assert(t[0] == l[0]);
    }
}

proof fn lemma_prefixes_len(s: Seq<char>, j: int)
    requires
        0 <= j <= s.len(),
    ensures
        prefixes_before_slashes(s, j).len() == slash_count(s, j),
    decreases j,
{
    if j > 0 {
        lemma_prefixes_len(s, j - 1);
    }
}

proof fn lemma_prefixes_are_cut_at_slashes(s: Seq<char>, j: int)
    requires
        0 <= j <= s.len(),
    ensures
        forall|k: int|
            0 <= k < prefixes_before_slashes(s, j).len() ==> {
                let e = #[trigger] prefixes_before_slashes(s, j)[k];
                &&& e.len() < j
                &&& e =~= s.subrange(0, e.len() as int)
                &&& s[e.len() as int] == '/'
            },
    decreases j,
{
    if j > 0 {
        lemma_prefixes_are_cut_at_slashes(s, j - 1);
        let prev = prefixes_before_slashes(s, j - 1);
        let cur = prefixes_before_slashes(s, j);
        assert forall|k: int| 0 <= k < cur.len() implies {
            let e = #[trigger] cur[k];
            &&& e.len() < j
            &&& e =~= s.subrange(0, e.len() as int)
            &&& s[e.len() as int] == '/'
        } by {
            if k < prev.len() {
                assert(cur[k] == prev[k]);
            }
        }
    }
}

/// No entry of the trail of a path that is not absolute is absolute.
pub proof fn lemma_relative_trail(p: Seq<char>)
    requires
        !starts_with_slash(p),
    ensures
        forall|k: int|
            0 <= k < path_list(p, false).len() ==> !starts_with_slash(
                #[trigger] path_list(p, false)[k],
            ),
{
    let pre = prefixes_before_slashes(p, p.len() as int);
    lemma_prefixes_are_cut_at_slashes(p, p.len() as int);
    let t = path_list(p, false);
    assert forall|k: int| 0 <= k < t.len() implies !starts_with_slash(#[trigger] t[k]) by {
        if k < pre.len() {
            let e = pre[k];
            assert(t[k] == e);
            if e.len() > 0 {
                assert(e[0] == p[0]);
            }
        }
    }
}

/// The trail of a rooted path has one entry for the root and one for each
/// segment of the path without its leading `/`; its last entry is that path
/// with a `/` in front, and it has the same display form as the path.
pub proof fn lemma_trail_shape(p: Seq<char>)
    ensures
        path_list(p, true).len() == 1 + segment_count(strip_root(p)),
        path_list(p, true).last() == rooted(strip_root(p)),
        prefix_path(path_list(p, true).last()) == prefix_path(p),
{
    let rest = strip_root(p);
    let t = path_list(p, true);
    lemma_prefixes_len(rest, rest.len() as int);
    if rest.len() == 0 {
        assert(rooted(rest) =~= seq!['/']);
    } else {
        let c = cumulative(rest);
        assert(t.last() == rooted(c.last()));
    }
    if starts_with_slash(p) {
        assert(rooted(rest) =~= p);
    } else {
        assert(rooted(p).drop_first() =~= p);
        assert(trim_leading(rooted(p)) == trim_leading(p));
    }
}

/// Putting the slashes in place a second time changes nothing.
pub proof fn lemma_prefix_path_idempotent(p: Seq<char>)
    ensures
        prefix_path(prefix_path(p)) == prefix_path(p),
{
    let core = trim_slashes(p);
    lemma_trim_slashes_shape(p);
    if core.len() == 0 {
        let q = seq!['/'];
        assert(q.drop_first() =~= Seq::<char>::empty());
        assert(trim_leading(q) == trim_leading(Seq::<char>::empty()));
        assert(trim_slashes(q) =~= Seq::<char>::empty());
    } else {
        let q = rooted(core).push('/');
        assert(q.drop_first() =~= core.push('/'));
        lemma_trim_leading_shape(core.push('/'));
        assert(trim_leading(q) == core.push('/'));
        assert(core.push('/').drop_last() =~= core);
        assert(trim_trailing(core.push('/')) == trim_trailing(core));
        assert(trim_slashes(q) == core);
    }
}

/// Builds a `String` holding `/` followed by `s`.
fn with_root(s: &str) -> (r: String)
    ensures
        r@ == rooted(s@),
{
    let mut r = String::from_str("/");
    proof {
        reveal_strlit("/");
    }
    r.append(s);
    r
}

/// The cumulative paths of `s`, each a prefix that ends before a `/`, then `s`.
fn cumulative_paths(s: &str) -> (r: Vec<String>)
    ensures
        r.deep_view() == cumulative(s@),
{
    let n = s.unicode_len();
    let mut r: Vec<String> = Vec::new();
    let mut j: usize = 0;
    while j < n
        invariant
            n == s@.len(),
            0 <= j <= n,
            r.deep_view() == prefixes_before_slashes(s@, j as int),
        decreases n - j,
    {
        if s.get_char(j) == '/' {
            let ghost before = r.deep_view();
            r.push(s.substring_char(0, j).to_owned());
            assert(r.deep_view() =~= before.push(s@.subrange(0, j as int)));
        }
        j += 1;
    }
    let ghost before = r.deep_view();
    r.push(s.to_owned());
    assert(r.deep_view() =~= before.push(s@));
    r
}

/// Rewrites a path as the list of paths of the directories above it and of
/// itself, from the shallowest down:
/// `a/b/c` gives `a`, `a/b`, `a/b/c`; `/a/b/c` (or `a/b/c` with `set_prefix`)
/// gives `/`, `/a`, `/a/b`, `/a/b/c`. The empty path gives one empty entry,
/// or `/` alone when `set_prefix` is set.
pub fn get_path_list(path: &String, set_prefix: bool) -> (r: Vec<String>)
    ensures
        r.deep_view() == path_list(path@, set_prefix),
{
    let s = path.as_str();
    let n = s.unicode_len();
    let has_root = n > 0 && s.get_char(0) == '/';
    let start: usize = if has_root {
        1
    } else {
        0
    };
    let rest = s.substring_char(start, n);
    assert(rest@ == strip_root(path@));
    let folders = cumulative_paths(rest);
    if !(set_prefix || has_root) {
        return folders;
    }
    let mut result: Vec<String> = Vec::new();
    result.push(with_root(""));
    proof {
        reveal_strlit("");
        assert(result.deep_view() =~= seq![seq!['/']]);
    }
    if rest.unicode_len() == 0 {
        return result;
    }
    let ghost cum = cumulative(rest@);
    let mut i: usize = 0;
    while i < folders.len()
        invariant
            folders.deep_view() == cum,
            0 <= i <= folders.len(),
            result.deep_view() =~= seq![seq!['/']] + cum.subrange(0, i as int).map_values(
                |e: Seq<char>| rooted(e),
            ),
        decreases folders.len() - i,
    {
        let ghost before = result.deep_view();
        result.push(with_root(folders[i].as_str()));
        proof {
            assert(folders[i as int]@ == cum[i as int]);
            assert(result.deep_view() =~= before.push(rooted(cum[i as int])));
            assert(cum.subrange(0, i + 1).map_values(|e: Seq<char>| rooted(e)) =~= cum.subrange(
                0,
                i as int,
            ).map_values(|e: Seq<char>| rooted(e)).push(rooted(cum[i as int])));
        }
        i += 1;
    }
    assert(cum.subrange(0, cum.len() as int) =~= cum);
    result
}

/// Gives `path` exactly one `/` at the start and one at the end: runs of
/// `/` at either end become one, and a path of slashes alone, or the empty
/// path, becomes `/`.
pub fn format_prefix_path(path: &str) -> (r: String)
    ensures
        r@ == prefix_path(path@),
{
    let n = path.unicode_len();
    let mut a: usize = 0;
    proof {
        assert(path@.subrange(0, n as int) =~= path@);
    }
    while a < n && path.get_char(a) == '/'
        invariant
            n == path@.len(),
            a <= n,
            trim_leading(path@) == trim_leading(path@.subrange(a as int, n as int)),
        decreases n - a,
    {
        assert(path@.subrange(a as int, n as int).drop_first() =~= path@.subrange(a + 1, n as int));
        a += 1;
    }
    let ghost lead = path@.subrange(a as int, n as int);
    proof {
        lemma_trim_leading_shape(lead);
    }
    assert(trim_leading(path@) == lead);
    let mut b: usize = n;
    proof {
        assert(lead.subrange(0, (b - a) as int) =~= lead);
    }
    while b > a && path.get_char(b - 1) == '/'
        invariant
            n == path@.len(),
            a <= b <= n,
            lead == path@.subrange(a as int, n as int),
            trim_trailing(lead) == trim_trailing(path@.subrange(a as int, b as int)),
        decreases b,
    {
        assert(path@.subrange(a as int, b as int).drop_last() =~= path@.subrange(
            a as int,
            b - 1,
        ));
        b -= 1;
    }
    let core = path.substring_char(a, b);
    assert(trim_slashes(path@) == core@);
    let mut r = with_root(core);
    if b > a {
        r.append("/");
        proof {
            reveal_strlit("/");
        }
    } else {
        proof {
            reveal_strlit("");
        }
        assert(r@ =~= seq!['/']);
    }
    r
}

} // verus!
