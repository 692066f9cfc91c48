//! Choosing the page template of a directory: the override file of the
//! deepest ancestor that has one, else the default.
use vstd::prelude::*;

use crate::listing::OVERRIDE_TEMPLATE_NAME;
use crate::paths::{get_path_list, lemma_relative_trail, path_list, starts_with_slash, strip_root};
use crate::request::{
    is_below, join_parts, joined_path, lemma_join_keeps_base, pushed, starts_with, stays_below,
};
use crate::types::TalkyError;

verus! {

/// The directories searched for an override, relative to the base
/// directory and from the shallowest: the base directory itself, then each
/// ancestor of `request_path` down to itself. A leading `/` of
/// `request_path` is ignored, so `/x/y` and `x/y` search the same ones.
pub open spec fn template_dirs(request_path: Seq<char>) -> Seq<Seq<char>> {
    seq![Seq::<char>::empty()] + path_list(strip_root(request_path), false)
}

/// Where the override file of directory `dir` below `base_dir` lies.
pub open spec fn override_file(base_dir: Seq<char>, dir: Seq<char>) -> Seq<char> {
    joined_path(seq![base_dir, dir, OVERRIDE_TEMPLATE_NAME@])
}

/// Whether `files` holds the override file of each directory of `dirs`
/// below `base_dir`, in order.
pub open spec fn override_files_of(
    files: Seq<Seq<char>>,
    base_dir: Seq<char>,
    dirs: Seq<Seq<char>>,
) -> bool {
    &&& files.len() == dirs.len()
    &&& forall|i: int| 0 <= i < dirs.len() ==> override_file(base_dir, dirs[i]) == files[i]
}

proof fn lemma_push_keeps_prefix(acc: Seq<char>, part: Seq<char>, base: Seq<char>)
    requires
        starts_with(acc, base),
        !starts_with_slash(part),
    ensures
        starts_with(pushed(acc, part), base),
{
    let r = pushed(acc, part);
    assert(r.subrange(0, base.len() as int) =~= acc.subrange(0, base.len() as int));
}

proof fn lemma_override_under_base(base_dir: Seq<char>, dir: Seq<char>)
    requires
        !starts_with_slash(dir),
    ensures
        starts_with(override_file(base_dir, dir), base_dir),
{
    let parts = seq![base_dir, dir, OVERRIDE_TEMPLATE_NAME@];
    assert(parts.drop_last() =~= seq![base_dir, dir]);
    lemma_join_keeps_base(base_dir, dir);
    reveal_strlit("_index_talky.html");
    assert(!starts_with_slash(OVERRIDE_TEMPLATE_NAME@));
    lemma_push_keeps_prefix(joined_path(seq![base_dir, dir]), OVERRIDE_TEMPLATE_NAME@, base_dir);
}

/// The paths of the override files that may apply to the directory at
/// `request_path`, from the base directory down to the deepest: each lies
/// below `base_dir`. A leading `/` of `request_path` is ignored; a path
/// that would climb out of the base directory is refused with `PathJoin`.
pub fn template_candidates(base_dir: &String, request_path: &String) -> (r: Result<
    Vec<String>,
    TalkyError,
>)
    ensures
        match r {
            Ok(v) => {
                &&& stays_below(strip_root(request_path@))
                &&& override_files_of(v.deep_view(), base_dir@, template_dirs(request_path@))
                &&& forall|k: int|
                    0 <= k < v.len() ==> starts_with(#[trigger] v.deep_view()[k], base_dir@)
            },
            Err(e) => !stays_below(strip_root(request_path@)) && e is PathJoin,
        },
{
    let s = request_path.as_str();
    let n = s.unicode_len();
    let rel = if n > 0 && s.get_char(0) == '/' {
        s.substring_char(1, n).to_owned()
    } else {
        request_path.clone()
    };
    assert(rel@ == strip_root(request_path@));
    if !is_below(rel.as_str()) {
        return Err(TalkyError::PathJoin);
    }
    let mut dirs: Vec<String> = Vec::new();
    dirs.push(String::new());
    let mut below = get_path_list(&rel, false);
    dirs.append(&mut below);
    let ghost ds = template_dirs(request_path@);
    assert(dirs.deep_view() =~= ds);
    proof {
        lemma_relative_trail(rel@);
        assert forall|k: int| 0 <= k < ds.len() implies !starts_with_slash(#[trigger] ds[k]) by {
            if k > 0 {
                assert(ds[k] == path_list(rel@, false)[k - 1]);
            }
        }
    }
    let mut r: Vec<String> = Vec::new();
    let mut i: usize = 0;
    while i < dirs.len()
        invariant
            ds == template_dirs(request_path@),
            dirs.deep_view() == ds,
            forall|k: int| 0 <= k < ds.len() ==> !starts_with_slash(#[trigger] ds[k]),
            0 <= i <= dirs.len(),
            override_files_of(r.deep_view(), base_dir@, ds.subrange(0, i as int)),
            forall|k: int| 0 <= k < r.len() ==> starts_with(#[trigger] r.deep_view()[k], base_dir@),
        decreases dirs.len() - i,
    {
        let mut parts: Vec<String> = Vec::new();
        parts.push(base_dir.clone());
        parts.push(dirs[i].clone());
        parts.push(String::from_str(OVERRIDE_TEMPLATE_NAME));
        assert(parts.deep_view() =~= seq![base_dir@, ds[i as int], OVERRIDE_TEMPLATE_NAME@]);
        let file = join_parts(&parts).unwrap();
        proof {
            lemma_override_under_base(base_dir@, ds[i as int]);
        }
        let ghost before = r.deep_view();
        r.push(file);
        assert(r.deep_view() =~= before.push(file@));
        assert forall|j: int| 0 <= j < i + 1 implies override_file(
            base_dir@,
            ds.subrange(0, i + 1)[j],
        ) == r.deep_view()[j] by {
            if j < i {
                assert(ds.subrange(0, i + 1)[j] == ds.subrange(0, i as int)[j]);
            }
        }
        assert forall|k: int| 0 <= k < r.len() implies starts_with(
            #[trigger] r.deep_view()[k],
            base_dir@,
        ) by {
            if k < i {
                assert(r.deep_view()[k] == before[k]);
            }
        }
        i += 1;
    }
    assert(ds.subrange(0, ds.len() as int) =~= ds);
    Ok(r)
}

/// The last text that was found, if any.
pub open spec fn last_found(found: Seq<Option<Seq<char>>>) -> Option<Seq<char>>
    decreases found.len(),
{
    if found.len() == 0 {
        None
    } else if found.last() is Some {
        found.last()
    } else {
        last_found(found.drop_last())
    }
}

/// Of the override files read from the shallowest directory to the
/// deepest (`None` where one could not be read), the deepest one read.
pub fn pick_template(found: &Vec<Option<String>>) -> (r: Option<String>)
    ensures
        r.deep_view() == last_found(found.deep_view()),
{
    let mut r: Option<String> = None;
    let mut i: usize = 0;
    while i < found.len()
        invariant
            0 <= i <= found.len(),
            r.deep_view() == last_found(found.deep_view().subrange(0, i as int)),
        decreases found.len() - i,
    {
        assert(found.deep_view().subrange(0, i + 1).drop_last() =~= found.deep_view().subrange(
            0,
            i as int,
        ));
        match &found[i] {
            Some(text) => {
                r = Some(text.clone());
            },
            None => {},
        }
        i += 1;
    }
    assert(found.deep_view().subrange(0, found.len() as int) =~= found.deep_view());
    r
}

/// The template a directory page is rendered with: the deepest override
/// read, else the default.
pub fn template_source(found: &Vec<Option<String>>, default_template: &String) -> (r: String)
    ensures
        r@ == match last_found(found.deep_view()) {
            Some(t) => t,
            None => default_template@,
        },
{
    match pick_template(found) {
        Some(t) => t,
        None => default_template.clone(),
    }
}

/// Where several directories hold an override, the deepest one that was
/// read is chosen: one read at position `k` with none read after it wins.
pub proof fn lemma_deepest_override_wins(found: Seq<Option<Seq<char>>>, k: int)
    requires
        0 <= k < found.len(),
        found[k] is Some,
        forall|j: int| k < j < found.len() ==> found[j] is None,
    ensures
        last_found(found) == found[k],
    decreases found.len(),
{
    if found.len() - 1 > k {
        assert(found.drop_last()[k] == found[k]);
        lemma_deepest_override_wins(found.drop_last(), k);
    }
}

} // verus!
