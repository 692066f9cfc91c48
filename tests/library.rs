use talky::listing::{
    breadcrumbs_for, last_path_segment, list_directories, list_files, name_less,
    render_data_from_entries, sort_names,
};
use talky::paths::{format_prefix_path, get_path_list};
use talky::request::{
    decode_escaped_spaces, is_below, normalize_request_path, resolve_request_path, serving_for,
    Serving,
};
use talky::template::{pick_template, template_candidates, template_source};
use talky::types::{EntryKind, ScannedEntry, TalkyError};

fn entry(name: &str, kind: EntryKind) -> Option<ScannedEntry> {
    Some(ScannedEntry {
        name: name.to_owned(),
        kind,
    })
}

fn strings(v: &[&str]) -> Vec<String> {
    v.iter().map(|s| s.to_string()).collect()
}

#[test]
fn trail_edge_cases_with_root() {
    assert_eq!(get_path_list(&"".to_owned(), true), vec!["/"]);
    assert_eq!(get_path_list(&"/".to_owned(), true), vec!["/"]);
    assert_eq!(get_path_list(&"/a".to_owned(), true), vec!["/", "/a"]);
    assert_eq!(
        get_path_list(&"a/b/c".to_owned(), true),
        vec!["/", "/a", "/a/b", "/a/b/c"]
    );
}

#[test]
fn trail_length_and_last_entry() {
    let t = get_path_list(&"/x/y/z".to_owned(), true);
    assert_eq!(t.len(), 1 + 3);
    assert_eq!(t.last().unwrap(), "/x/y/z");
    assert_eq!(format_prefix_path("/x/y/z"), format!("{}/", t.last().unwrap()));
    let t = get_path_list(&"a//b".to_owned(), true);
    assert_eq!(t, vec!["/", "/a", "/a/", "/a//b"]);
    assert_eq!(format_prefix_path(t.last().unwrap()), format_prefix_path("a//b"));
}

#[test]
fn prefix_path_adds_missing_slashes() {
    assert_eq!(format_prefix_path(""), "/");
    assert_eq!(format_prefix_path("a"), "/a/");
    assert_eq!(format_prefix_path("/a"), "/a/");
    assert_eq!(format_prefix_path("a/"), "/a/");
    assert_eq!(format_prefix_path("/a/b/"), "/a/b/");
}

#[test]
fn prefix_path_keeps_one_slash_at_each_end() {
    assert_eq!(format_prefix_path("/"), "/");
    assert_eq!(format_prefix_path("///"), "/");
    assert_eq!(format_prefix_path("//a"), "/a/");
    assert_eq!(format_prefix_path("a//"), "/a/");
    assert_eq!(format_prefix_path("//a//b//"), "/a//b/");
}

#[test]
fn prefix_path_twice_is_once() {
    for p in ["", "/", "a", "a/b", "/a/", "x/y/", "//a//", "///"] {
        let once = format_prefix_path(p);
        assert_eq!(format_prefix_path(&once), once);
    }
}

#[test]
fn escaped_spaces_are_decoded() {
    assert_eq!(decode_escaped_spaces("my%20dir"), "my dir");
    assert_eq!(decode_escaped_spaces("%2520"), "%2520");
    assert_eq!(decode_escaped_spaces("a%20%20b%2"), "a  b%2");
    assert_eq!(normalize_request_path("/my%20dir/sub"), "my dir/sub");
    assert_eq!(normalize_request_path("/my dir/sub"), "my dir/sub");
    assert_eq!(normalize_request_path("plain"), "plain");
}

#[test]
fn climbing_paths_are_not_below() {
    assert!(is_below("a/b"));
    assert!(is_below("a/..b/c.."));
    assert!(is_below(""));
    assert!(!is_below(".."));
    assert!(!is_below("a/../b"));
    assert!(!is_below("a/.."));
    assert!(!is_below("/etc"));
}

#[test]
fn request_path_joins_below_base() {
    let t = resolve_request_path(&"/srv/files".to_owned(), "/my%20dir").unwrap();
    assert_eq!(t.request_path, "my dir");
    assert_eq!(t.full_path, "/srv/files/my dir");
    let same = resolve_request_path(&"/srv/files".to_owned(), "/my dir").unwrap();
    assert_eq!(same.full_path, t.full_path);
    let slashed = resolve_request_path(&"/srv/files/".to_owned(), "/a/b").unwrap();
    assert_eq!(slashed.full_path, "/srv/files/a/b");
    let root = resolve_request_path(&"/srv/files".to_owned(), "/").unwrap();
    assert!(root.full_path.starts_with("/srv/files"));
}

#[test]
fn request_path_that_climbs_is_refused() {
    let base = "/srv/files".to_owned();
    assert!(matches!(
        resolve_request_path(&base, "/../etc"),
        Err(TalkyError::PathJoin)
    ));
    assert!(matches!(
        resolve_request_path(&base, "//etc/passwd"),
        Err(TalkyError::PathJoin)
    ));
}

#[test]
fn serving_follows_kind_and_extension() {
    let ext = |e: &str| Some(e.to_owned());
    assert_eq!(serving_for(EntryKind::Directory, &None), Serving::Listing);
    for e in ["html", "md", "json", "xml", "log", "conf", "css"] {
        assert_eq!(serving_for(EntryKind::File, &ext(e)), Serving::InlineText);
    }
    assert_eq!(serving_for(EntryKind::File, &ext("png")), Serving::Attachment);
    assert_eq!(serving_for(EntryKind::File, &ext("HTML")), Serving::Attachment);
    assert_eq!(serving_for(EntryKind::File, &None), Serving::Attachment);
}

#[test]
fn missing_path_is_not_found() {
    assert_eq!(serving_for(EntryKind::Other, &None), Serving::Missing);
    assert_eq!(
        serving_for(EntryKind::Other, &Some("html".to_owned())),
        Serving::Missing
    );
}

#[test]
fn names_sort_by_code_point() {
    assert!(name_less("B", "a"));
    assert!(name_less("a", "ab"));
    assert!(!name_less("ab", "ab"));
    assert!(!name_less("b", "ab"));
    let sorted = sort_names(&strings(&["b", "B", "a", "_x", "ab", "a"]));
    assert_eq!(sorted, strings(&["B", "_x", "a", "a", "ab", "b"]));
    assert!(sort_names(&vec![]).is_empty());
}

#[test]
fn listing_hides_dot_names_and_override() {
    let entries = vec![
        entry("notes.md", EntryKind::File),
        entry(".hidden", EntryKind::File),
        entry("_index_talky.html", EntryKind::File),
        entry("zeta", EntryKind::Directory),
        entry(".git", EntryKind::Directory),
        entry("Alpha", EntryKind::Directory),
        entry("link", EntryKind::Other),
        None,
        entry("archive.zip", EntryKind::File),
    ];
    let files: Vec<String> = list_files(&entries).into_iter().map(|f| f.name).collect();
    assert_eq!(files, strings(&["archive.zip", "notes.md"]));
    let dirs: Vec<String> = list_directories(&entries)
        .into_iter()
        .map(|d| d.name)
        .collect();
    assert_eq!(dirs, strings(&["Alpha", "zeta"]));
}

#[test]
fn override_name_is_listed_as_directory() {
    let entries = vec![entry("_index_talky.html", EntryKind::Directory)];
    assert_eq!(list_directories(&entries).len(), 1);
    assert!(list_files(&entries).is_empty());
}

#[test]
fn last_segment_of_paths() {
    assert_eq!(last_path_segment("/a/b"), "b");
    assert_eq!(last_path_segment("/"), "");
    assert_eq!(last_path_segment("name"), "name");
    assert_eq!(last_path_segment(""), "");
}

#[test]
fn breadcrumbs_of_nested_directory() {
    let crumbs = breadcrumbs_for(&"/a/b/c".to_owned());
    let paths: Vec<&str> = crumbs.iter().map(|c| c.path.as_str()).collect();
    let shown: Vec<&str> = crumbs.iter().map(|c| c.display.as_str()).collect();
    assert_eq!(paths, vec!["/", "/a", "/a/b"]);
    assert_eq!(shown, vec!["\u{1F3E0}", "a", "b"]);
    assert_eq!(breadcrumbs_for(&"a/b/c".to_owned()).len(), 3);
}

#[test]
fn empty_directory_renders_empty_listing() {
    let data = render_data_from_entries(&"".to_owned(), &vec![]);
    assert_eq!(data.current_path, "/");
    assert!(data.files.is_empty());
    assert!(data.directories.is_empty());
    assert!(data.breadcrumbs.is_empty());
}

#[test]
fn render_data_of_subdirectory() {
    let entries = vec![entry("b.txt", EntryKind::File), entry("a.txt", EntryKind::File)];
    let data = render_data_from_entries(&"docs/x".to_owned(), &entries);
    assert_eq!(data.current_path, "/docs/x/");
    let files: Vec<&str> = data.files.iter().map(|f| f.name.as_str()).collect();
    assert_eq!(files, vec!["a.txt", "b.txt"]);
    let paths: Vec<&str> = data.breadcrumbs.iter().map(|c| c.path.as_str()).collect();
    assert_eq!(paths, vec!["/", "/docs"]);
}

#[test]
fn override_candidates_from_base_down() {
    let c = template_candidates(&"/b".to_owned(), &"x/y".to_owned()).unwrap();
    assert_eq!(
        c,
        strings(&[
            "/b/_index_talky.html",
            "/b/x/_index_talky.html",
            "/b/x/y/_index_talky.html"
        ])
    );
}

#[test]
fn override_candidates_ignore_leading_slash() {
    let base = "/b".to_owned();
    let rooted = template_candidates(&base, &"/x/y".to_owned()).unwrap();
    let plain = template_candidates(&base, &"x/y".to_owned()).unwrap();
    assert_eq!(rooted, plain);
    assert!(rooted.iter().all(|c| c.starts_with("/b/")));
    let top = template_candidates(&base, &"/".to_owned()).unwrap();
    assert!(top.iter().all(|c| c == "/b/_index_talky.html"));
}

#[test]
fn override_candidates_refuse_climbing_paths() {
    let base = "/b".to_owned();
    assert!(matches!(
        template_candidates(&base, &"../etc".to_owned()),
        Err(TalkyError::PathJoin)
    ));
    assert!(matches!(
        template_candidates(&base, &"/x/../../etc".to_owned()),
        Err(TalkyError::PathJoin)
    ));
    assert!(matches!(
        template_candidates(&base, &"//etc".to_owned()),
        Err(TalkyError::PathJoin)
    ));
}

#[test]
fn deepest_override_is_chosen() {
    let found = vec![Some("root".to_owned()), Some("x".to_owned()), None];
    assert_eq!(pick_template(&found), Some("x".to_owned()));
    assert_eq!(pick_template(&vec![None, None]), None);
    let default = "default".to_owned();
    assert_eq!(template_source(&found, &default), "x");
    assert_eq!(template_source(&vec![None], &default), "default");
    assert_eq!(template_source(&vec![], &default), "default");
}
