use dirlist::errors::ServeError;
use dirlist::listing::{build_entries, build_listing};
use dirlist::resolve::resolve_request_path;

fn some(n: &[u8]) -> Option<Vec<u8>> {
    Some(n.to_vec())
}

fn pairs(entries: &[dirlist::listing::DirectoryEntry]) -> Vec<(Vec<u8>, Vec<u8>)> {
    entries.iter().map(|e| (e.link.clone(), e.name.clone())).collect()
}

#[test]
fn listing_at_root_is_sorted() {
    // Root holds `notes.txt` and the subdirectory `drafts`.
    let rel: Vec<Vec<u8>> = Vec::new();
    let children = vec![some(b"notes.txt"), some(b"drafts")];
    let entries = build_entries(&rel, &children);
    assert_eq!(
        pairs(&entries),
        vec![
            (b"drafts".to_vec(), b"drafts".to_vec()),
            (b"notes.txt".to_vec(), b"notes.txt".to_vec()),
        ]
    );
}

#[test]
fn listing_of_subdirectory_encodes_links() {
    // `drafts` holds `v1 final.md`; its link is the encoded
    // root-relative path.
    let rel = vec![b"drafts".to_vec()];
    let children = vec![some(b"v1 final.md")];
    let entries = build_entries(&rel, &children);
    assert_eq!(
        pairs(&entries),
        vec![(b"drafts/v1%20final.md".to_vec(), b"v1 final.md".to_vec())]
    );
}

#[test]
fn special_characters_are_escaped_and_links_navigate_back() {
    let rel: Vec<Vec<u8>> = Vec::new();
    let children = vec![some(b"a b"), some(b"c#d"), some(b"e?f")];
    let entries = build_entries(&rel, &children);
    let got = pairs(&entries);
    assert_eq!(
        got,
        vec![
            (b"a%20b".to_vec(), b"a b".to_vec()),
            (b"c%23d".to_vec(), b"c#d".to_vec()),
            (b"e%3Ff".to_vec(), b"e?f".to_vec()),
        ]
    );
    // Following each link resolves back to the file it was made for.
    for (link, name) in got {
        let mut path = b"/".to_vec();
        path.extend_from_slice(&link);
        assert_eq!(resolve_request_path(&path), Ok(vec![name]));
    }
}

#[test]
fn one_unreadable_child_is_skipped() {
    // One child cannot be examined; the others still come out, with
    // exactly that one omitted.
    let rel: Vec<Vec<u8>> = Vec::new();
    let children = vec![some(b"a"), None, some(b"b")];
    let entries = build_entries(&rel, &children);
    assert_eq!(
        pairs(&entries),
        vec![
            (b"a".to_vec(), b"a".to_vec()),
            (b"b".to_vec(), b"b".to_vec()),
        ]
    );
}

#[test]
fn unreadable_directory_is_a_single_request_error() {
    // A directory that cannot be opened at all never reaches the
    // listing builder; the failure maps to one request-level error.
    assert_eq!(dirlist::errors::status_code(&ServeError::ReadFailed), 500);
    assert_eq!(dirlist::errors::status_code(&ServeError::NotFound), 404);
}

#[test]
fn entries_sorted_by_link_then_name() {
    let rel: Vec<Vec<u8>> = Vec::new();
    let children = vec![some(b"b"), some(b"a c"), some(b"a!"), some(b"a")];
    let entries = build_entries(&rel, &children);
    let got = pairs(&entries);
    // "a" < "a!" < "a c" (space encodes to %20, and '!' < '%') < "b"
    assert_eq!(
        got,
        vec![
            (b"a".to_vec(), b"a".to_vec()),
            (b"a!".to_vec(), b"a!".to_vec()),
            (b"a%20c".to_vec(), b"a c".to_vec()),
            (b"b".to_vec(), b"b".to_vec()),
        ]
    );
    for w in got.windows(2) {
        assert!((&w[0].0, &w[0].1) <= (&w[1].0, &w[1].1));
    }
}

#[test]
fn empty_directory_lists_nothing() {
    let rel: Vec<Vec<u8>> = Vec::new();
    let children: Vec<Option<Vec<u8>>> = Vec::new();
    let entries = build_entries(&rel, &children);
    assert_eq!(entries.len(), 0);
}

#[test]
fn view_label_is_the_undecoded_request_path() {
    let path = b"/dra%66ts".to_vec();
    let rel = vec![b"drafts".to_vec()];
    let children = vec![some(b"x")];
    let view = build_listing(&path, &rel, &children);
    assert_eq!(view.label, path);
    assert_eq!(pairs(&view.entries), vec![(b"drafts/x".to_vec(), b"x".to_vec())]);
}

#[test]
fn display_names_cover_all_readable_children() {
    let rel = vec![b"d".to_vec()];
    let children = vec![some(b"q"), None, some(b"p"), some(b"r"), None];
    let entries = build_entries(&rel, &children);
    let mut names: Vec<Vec<u8>> = entries.iter().map(|e| e.name.clone()).collect();
    names.sort();
    assert_eq!(names, vec![b"p".to_vec(), b"q".to_vec(), b"r".to_vec()]);
}
