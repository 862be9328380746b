use dirlist::errors::{status_code, ServeError};
use dirlist::resolve::resolve_request_path;

fn resolve(p: &[u8]) -> Result<Vec<Vec<u8>>, ServeError> {
    resolve_request_path(&p.to_vec())
}

#[test]
fn resolves_root() {
    assert_eq!(resolve(b"/"), Ok(Vec::new()));
}

#[test]
fn resolves_plain_subdirectory() {
    assert_eq!(resolve(b"/drafts"), Ok(vec![b"drafts".to_vec()]));
    assert_eq!(
        resolve(b"/drafts/v1%20final.md"),
        Ok(vec![b"drafts".to_vec(), b"v1 final.md".to_vec()])
    );
}

#[test]
fn decodes_before_joining() {
    assert_eq!(resolve(b"/dra%66ts"), Ok(vec![b"drafts".to_vec()]));
}

#[test]
fn drops_empty_and_dot_segments() {
    assert_eq!(
        resolve(b"/a//b/./c/"),
        Ok(vec![b"a".to_vec(), b"b".to_vec(), b"c".to_vec()])
    );
}

#[test]
fn parent_segments_resolve_inside_root() {
    assert_eq!(resolve(b"/a/../b"), Ok(vec![b"b".to_vec()]));
    assert_eq!(resolve(b"/a/.."), Ok(Vec::new()));
}

#[test]
fn traversal_out_of_root_is_forbidden() {
    assert_eq!(resolve(b"/../secret"), Err(ServeError::Forbidden));
    assert_eq!(resolve(b"/a/../../b"), Err(ServeError::Forbidden));
    // An encoded climb is decoded first and still caught.
    assert_eq!(resolve(b"/%2E%2E/secret"), Err(ServeError::Forbidden));
}

#[test]
fn missing_leading_slash_is_malformed() {
    assert_eq!(resolve(b""), Err(ServeError::MalformedPath));
    assert_eq!(resolve(b"abc"), Err(ServeError::MalformedPath));
}

#[test]
fn status_codes_per_failure() {
    assert_eq!(status_code(&ServeError::MalformedPath), 400);
    assert_eq!(status_code(&ServeError::Forbidden), 403);
    assert_eq!(status_code(&ServeError::NotFound), 404);
    assert_eq!(status_code(&ServeError::ReadFailed), 500);
    assert_eq!(status_code(&ServeError::RenderFailed), 500);
}
