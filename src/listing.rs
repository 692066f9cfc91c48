//! One directory's listing, its breadcrumbs, and the data a page is
//! rendered from.
use vstd::prelude::*;

use crate::paths::{format_prefix_path, get_path_list, path_list, prefix_path};
use crate::types::{Breadcrumb, Directory, EntryKind, File, RenderData, ScannedEntry};

verus! {

broadcast use vstd::seq_lib::group_to_multiset_ensures;

/// The name of the file that overrides the page template of a directory.
pub const OVERRIDE_TEMPLATE_NAME: &'static str = "_index_talky.html";

/// What a breadcrumb for the site root shows.
pub const ROOT_MARKER: &'static str = "\u{1F3E0}";

/// Ordinal order on names: character by character by code point, a
/// proper prefix first.
pub open spec fn name_lt(a: Seq<char>, b: Seq<char>) -> bool
    decreases a.len(),
{
    if a.len() == 0 {
        b.len() > 0
    } else if b.len() == 0 {
        false
    } else if (a[0] as u32) < (b[0] as u32) {
        true
    } else if (a[0] as u32) > (b[0] as u32) {
        false
    } else {
        name_lt(a.drop_first(), b.drop_first())
    }
}

/// Whether the names ascend.
pub open spec fn ascending(s: Seq<Seq<char>>) -> bool {
    forall|i: int, j: int| 0 <= i < j < s.len() ==> !name_lt(s[j], s[i])
}

proof fn lemma_name_lt_transitive(a: Seq<char>, b: Seq<char>, c: Seq<char>)
    requires
        name_lt(a, b),
        name_lt(b, c),
    ensures
        name_lt(a, c),
    decreases a.len(),
{
    if a.len() > 0 && b.len() > 0 && c.len() > 0 && a[0] as u32 == b[0] as u32 && b[0] as u32
        == c[0] as u32 {
        lemma_name_lt_transitive(a.drop_first(), b.drop_first(), c.drop_first());
    }
}

proof fn lemma_name_lt_irreflexive(a: Seq<char>)
    ensures
        !name_lt(a, a),
    decreases a.len(),
{
    if a.len() > 0 {
        lemma_name_lt_irreflexive(a.drop_first());
    }
}

/// Whether `a` comes before `b` in ordinal order.
pub fn name_less(a: &str, b: &str) -> (r: bool)
    ensures
        r == name_lt(a@, b@),
{
    let n = a.unicode_len();
    let m = b.unicode_len();
    let mut i: usize = 0;
    proof {
        assert(a@.subrange(0, n as int) =~= a@);
        assert(b@.subrange(0, m as int) =~= b@);
    }
    while i < n && i < m
        invariant
            n == a@.len(),
            m == b@.len(),
            i <= n,
            i <= m,
            name_lt(a@.subrange(i as int, n as int), b@.subrange(i as int, m as int)) == name_lt(
                a@,
                b@,
            ),
        decreases n - i,
    {
        let x = a.get_char(i) as u32;
        let y = b.get_char(i) as u32;
        if x < y {
            return true;
        }
        if x > y {
            return false;
        }
        assert(a@.subrange(i as int, n as int).drop_first() =~= a@.subrange(i + 1, n as int));
        assert(b@.subrange(i as int, m as int).drop_first() =~= b@.subrange(i + 1, m as int));
        i += 1;
    }
    i == n && i < m
}

/// Sorts names into ordinal order.
pub fn sort_names(v: &Vec<String>) -> (r: Vec<String>)
    ensures
        ascending(r.deep_view()),
        r.deep_view().to_multiset() == v.deep_view().to_multiset(),
{
    let mut r: Vec<String> = Vec::new();
    let mut i: usize = 0;
    while i < v.len()
        invariant
            0 <= i <= v.len(),
            ascending(r.deep_view()),
            r.deep_view().to_multiset() == v.deep_view().subrange(0, i as int).to_multiset(),
        decreases v.len() - i,
    {
        let x = v[i].clone();
        let mut k: usize = 0;
        while k < r.len()
            invariant
                0 <= k <= r.len(),
                forall|j: int| 0 <= j < k ==> !name_lt(x@, r.deep_view()[j]),
            ensures
                0 <= k <= r.len(),
                forall|j: int| 0 <= j < k ==> !name_lt(x@, r.deep_view()[j]),
                k < r.len() ==> name_lt(x@, r.deep_view()[k as int]),
            decreases r.len() - k,
        {
            if name_less(x.as_str(), r[k].as_str()) {
                break;
            }
            k += 1;
        }
        let ghost old_r = r.deep_view();
        r.insert(k, x);
        proof {
            let nr = r.deep_view();
            assert(nr =~= old_r.insert(k as int, x@));
            assert forall|p: int, q: int| 0 <= p < q < nr.len() implies !name_lt(nr[q], nr[p]) by {
                if q < k {
                    assert(nr[q] == old_r[q] && nr[p] == old_r[p]);
                } else if q == k {
                    assert(nr[q] == x@ && nr[p] == old_r[p]);
                } else if p < k {
                    assert(nr[q] == old_r[q - 1] && nr[p] == old_r[p]);
                } else if p == k {
                    assert(nr[q] == old_r[q - 1] && nr[p] == x@);
                    if name_lt(old_r[q - 1], x@) {
                        lemma_name_lt_transitive(old_r[q - 1], x@, old_r[k as int]);
                        lemma_name_lt_irreflexive(old_r[k as int]);
                    }
                } else {
                    assert(nr[q] == old_r[q - 1] && nr[p] == old_r[p - 1]);
                }
            }
            assert(v.deep_view().subrange(0, i + 1) =~= v.deep_view().subrange(0, i as int).push(
                x@,
            ));
        }
        i += 1;
    }
    assert(v.deep_view().subrange(0, v.len() as int) =~= v.deep_view());
    r
}

/// Whether a name is hidden: it begins with `.`.
pub open spec fn is_hidden(name: Seq<char>) -> bool {
    name.len() > 0 && name[0] == '.'
}

/// Whether an entry is listed among those of kind `want`: it was read, it
/// is of that kind, it is not hidden, and no file listed is the template
/// override.
pub open spec fn listed(e: Option<ScannedEntry>, want: EntryKind) -> bool {
    match e {
        Some(x) => x.kind == want && !is_hidden(x.name@) && (want == EntryKind::File
            ==> x.name@ != OVERRIDE_TEMPLATE_NAME@),
        None => false,
    }
}

/// The names of the listed entries of kind `want` among the first `i`, in
/// the order read.
pub open spec fn listed_names(es: Seq<Option<ScannedEntry>>, want: EntryKind, i: int) -> Seq<
    Seq<char>,
>
    decreases i,
{
    if i <= 0 {
        seq![]
    } else if listed(es[i - 1], want) {
        listed_names(es, want, i - 1).push(es[i - 1]->Some_0.name@)
    } else {
        listed_names(es, want, i - 1)
    }
}

proof fn lemma_listed_names_visible(es: Seq<Option<ScannedEntry>>, want: EntryKind, i: int)
    requires
        i <= es.len(),
    ensures
        forall|k: int|
            0 <= k < listed_names(es, want, i).len() ==> !is_hidden(
                #[trigger] listed_names(es, want, i)[k],
            ),
    decreases i,
{
    if i > 0 {
        lemma_listed_names_visible(es, want, i - 1);
        let prev = listed_names(es, want, i - 1);
        let cur = listed_names(es, want, i);
        assert forall|k: int| 0 <= k < cur.len() implies !is_hidden(#[trigger] cur[k]) by {
            if k < prev.len() {
                assert(cur[k] == prev[k]);
            }
        }
    }
}

/// Whether a name is hidden.
fn hidden(name: &String) -> (r: bool)
    ensures
        r == is_hidden(name@),
{
    let s = name.as_str();
    s.unicode_len() > 0 && s.get_char(0) == '.'
}

/// The names of the listed entries of kind `want`, in ordinal order.
fn listed_sorted(entries: &Vec<Option<ScannedEntry>>, want: EntryKind) -> (r: Vec<String>)
    ensures
        ascending(r.deep_view()),
        r.deep_view().to_multiset() == listed_names(entries@, want, entries.len() as int).to_multiset(),
        forall|k: int| 0 <= k < r.len() ==> !is_hidden(#[trigger] r.deep_view()[k]),
{
    let reserved = String::from_str(OVERRIDE_TEMPLATE_NAME);
    let mut names: Vec<String> = Vec::new();
    let mut i: usize = 0;
    while i < entries.len()
        invariant
            0 <= i <= entries.len(),
            reserved@ == OVERRIDE_TEMPLATE_NAME@,
            names.deep_view() == listed_names(entries@, want, i as int),
        decreases entries.len() - i,
    {
        match &entries[i] {
            Some(e) => {
                if e.kind == want && !hidden(&e.name) && (want != EntryKind::File || e.name
                    != reserved) {
                    let ghost before = names.deep_view();
                    names.push(e.name.clone());
                    assert(names.deep_view() =~= before.push(e.name@));
                }
            },
            None => {},
        }
        i += 1;
    }
    let r = sort_names(&names);
    proof {
        lemma_listed_names_visible(entries@, want, entries.len() as int);
        assert forall|k: int| 0 <= k < r.len() implies !is_hidden(#[trigger] r.deep_view()[k]) by {
            let x = r.deep_view()[k];
            assert(r.deep_view().contains(x));
            assert(r.deep_view().to_multiset().count(x) > 0);
            assert(names.deep_view().to_multiset().count(x) > 0);
            assert(names.deep_view().contains(x));
            let j = choose|j: int| 0 <= j < names.deep_view().len() && names.deep_view()[j] == x;
            assert(listed_names(entries@, want, entries.len() as int)[j] == x);
        }
    }
    r
}

/// The names of a listing's files.
pub open spec fn file_names(v: Seq<File>) -> Seq<Seq<char>> {
    v.map_values(|f: File| f.name@)
}

/// The names of a listing's subdirectories.
pub open spec fn directory_names(v: Seq<Directory>) -> Seq<Seq<char>> {
    v.map_values(|d: Directory| d.name@)
}

/// Whether `names` holds exactly the entries of kind `want` that a listing
/// shows, in ordinal order.
pub open spec fn is_listing_of(
    names: Seq<Seq<char>>,
    entries: Seq<Option<ScannedEntry>>,
    want: EntryKind,
) -> bool {
    &&& ascending(names)
    &&& names.to_multiset() == listed_names(entries, want, entries.len() as int).to_multiset()
    &&& forall|k: int| 0 <= k < names.len() ==> !is_hidden(#[trigger] names[k])
}

/// The files of a directory, read as `entries` (an entry that could not be
/// read is `None`): every regular file that is not hidden and is not the
/// template override, in ordinal order.
pub fn list_files(entries: &Vec<Option<ScannedEntry>>) -> (r: Vec<File>)
    ensures
        is_listing_of(file_names(r@), entries@, EntryKind::File),
{
    let names = listed_sorted(entries, EntryKind::File);
    let mut r: Vec<File> = Vec::new();
    let mut i: usize = 0;
    while i < names.len()
        invariant
            0 <= i <= names.len(),
            file_names(r@) =~= names.deep_view().subrange(0, i as int),
        decreases names.len() - i,
    {
        let ghost before = r@;
        r.push(File { name: names[i].clone() });
        assert(r@ =~= before.push(File { name: names[i as int] }));
        assert(names.deep_view().subrange(0, i + 1) =~= names.deep_view().subrange(
            0,
            i as int,
        ).push(names[i as int]@));
        i += 1;
    }
    assert(names.deep_view().subrange(0, names.len() as int) =~= names.deep_view());
    r
}

/// The subdirectories of a directory, read as `entries` (an entry that could
/// not be read is `None`): every directory that is not hidden, in ordinal
/// order.
pub fn list_directories(entries: &Vec<Option<ScannedEntry>>) -> (r: Vec<Directory>)
    ensures
        is_listing_of(directory_names(r@), entries@, EntryKind::Directory),
{
    let names = listed_sorted(entries, EntryKind::Directory);
    let mut r: Vec<Directory> = Vec::new();
    let mut i: usize = 0;
    while i < names.len()
        invariant
            0 <= i <= names.len(),
            directory_names(r@) =~= names.deep_view().subrange(0, i as int),
        decreases names.len() - i,
    {
        let ghost before = r@;
        r.push(Directory { name: names[i].clone() });
        assert(r@ =~= before.push(Directory { name: names[i as int] }));
        assert(names.deep_view().subrange(0, i + 1) =~= names.deep_view().subrange(
            0,
            i as int,
        ).push(names[i as int]@));
        i += 1;
    }
    assert(names.deep_view().subrange(0, names.len() as int) =~= names.deep_view());
    r
}

/// The part of `s` after its last `/`; all of `s` where it has none.
pub open spec fn last_segment(s: Seq<char>) -> Seq<char>
    decreases s.len(),
{
    if s.len() == 0 {
        s
    } else if s.last() == '/' {
        seq![]
    } else {
        last_segment(s.drop_last()).push(s.last())
    }
}

/// What the breadcrumb for `path` shows: its last segment, or the root
/// marker where that is empty.
pub open spec fn crumb_display(path: Seq<char>) -> Seq<char> {
    if last_segment(path).len() == 0 {
        ROOT_MARKER@
    } else {
        last_segment(path)
    }
}

/// The part of `s` after its last `/`.
pub fn last_path_segment(s: &str) -> (r: String)
    ensures
        r@ == last_segment(s@),
{
    let n = s.unicode_len();
    let mut k: usize = n;
    proof {
        assert(s@.subrange(0, n as int) =~= s@);
        assert(s@.subrange(n as int, n as int) =~= Seq::<char>::empty());
    }
    while k > 0 && s.get_char(k - 1) != '/'
        invariant
            n == s@.len(),
            k <= n,
            last_segment(s@) =~= last_segment(s@.subrange(0, k as int)) + s@.subrange(
                k as int,
                n as int,
            ),
        decreases k,
    {
        assert(s@.subrange(0, k as int).drop_last() =~= s@.subrange(0, k - 1));
        k -= 1;
    }
    s.substring_char(k, n).to_owned()
}

/// The breadcrumbs above the directory at `request_path`: one for each
/// entry of its rooted trail but the last, showing that entry's last segment
/// (the root marker for the root).
pub open spec fn crumbs_of(request_path: Seq<char>, crumbs: Seq<Breadcrumb>) -> bool {
    let t = path_list(request_path, true);
    &&& crumbs.len() + 1 == t.len()
    &&& forall|i: int|
        0 <= i < crumbs.len() ==> (#[trigger] crumbs[i]).path@ == t[i] && crumbs[i].display@
            == crumb_display(t[i])
}

/// The breadcrumbs above the directory at `request_path`.
pub fn breadcrumbs_for(request_path: &String) -> (r: Vec<Breadcrumb>)
    ensures
        crumbs_of(request_path@, r@),
{
    let trail = get_path_list(request_path, true);
    let ghost t = path_list(request_path@, true);
    assert(trail.deep_view() == t);
    assert(t.len() >= 1);
    let mut r: Vec<Breadcrumb> = Vec::new();
    let mut i: usize = 0;
    while i < trail.len() - 1
        invariant
            trail.deep_view() == t,
            trail.len() == t.len(),
            t.len() >= 1,
            i + 1 <= t.len(),
            r.len() == i,
            forall|j: int|
                0 <= j < i ==> (#[trigger] r@[j]).path@ == t[j] && r@[j].display@
                    == crumb_display(t[j]),
        decreases t.len() - i,
    {
        assert(trail[i as int]@ == t[i as int]);
        let segment = last_path_segment(trail[i].as_str());
        let display = if segment.as_str().unicode_len() == 0 {
            String::from_str(ROOT_MARKER)
        } else {
            segment
        };
        r.push(Breadcrumb { path: trail[i].clone(), display });
        i += 1;
    }
    r
}

/// Whether `d` is the render data of the directory at `request_path`
/// whose entries were read as `entries`.
pub open spec fn render_data_of(
    d: RenderData,
    request_path: Seq<char>,
    entries: Seq<Option<ScannedEntry>>,
) -> bool {
    &&& d.current_path@ == prefix_path(request_path)
    &&& is_listing_of(directory_names(d.directories@), entries, EntryKind::Directory)
    &&& is_listing_of(file_names(d.files@), entries, EntryKind::File)
    &&& crumbs_of(request_path, d.breadcrumbs@)
}

/// The render data of the directory at `request_path` (as joined to the
/// base directory) whose entries were read as `entries`.
pub fn render_data_from_entries(request_path: &String, entries: &Vec<Option<ScannedEntry>>) -> (r:
    RenderData)
    ensures
        render_data_of(r, request_path@, entries@),
{
    RenderData {
        current_path: format_prefix_path(request_path.as_str()),
        directories: list_directories(entries),
        files: list_files(entries),
        breadcrumbs: breadcrumbs_for(request_path),
    }
}

/// A directory with no entries renders with an empty list of files and an
/// empty list of subdirectories.
pub proof fn lemma_empty_directory_lists_nothing(d: RenderData, request_path: Seq<char>)
    requires
        render_data_of(d, request_path, seq![]),
    ensures
        d.files@.len() == 0,
        d.directories@.len() == 0,
{
    let none = Seq::<Option<ScannedEntry>>::empty();
    assert(listed_names(none, EntryKind::File, 0) =~= Seq::<Seq<char>>::empty());
    assert(listed_names(none, EntryKind::Directory, 0) =~= Seq::<Seq<char>>::empty());
    assert(file_names(d.files@).to_multiset().len() == 0);
    assert(directory_names(d.directories@).to_multiset().len() == 0);
}

} // verus!
