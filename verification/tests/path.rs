use parchmint::path::{hex, normalize_path_input, validate_project_name, PathInputError};
use std::path::Path;

fn text(path: &Path) -> String {
    path.to_str().unwrap().to_string()
}

#[test]
fn normalizes_native_home_relative_and_file_url_inputs() {
    let root = tempfile::tempdir().unwrap();
    let documents = root.path().join("A Writer/Documents");
    let home = root.path().join("A Writer");
    let documents_text = text(&documents);
    let home_text = text(&home);
    assert_eq!(
        normalize_path_input(" Drafts/My #1% Novel ", &documents_text, Some(&home_text)).unwrap(),
        text(&documents.join("Drafts/My #1% Novel"))
    );
    assert_eq!(
        normalize_path_input("~/My Novel", &documents_text, Some(&home_text)).unwrap(),
        text(&home.join("My Novel"))
    );
    assert_eq!(
        normalize_path_input("~\\My Novel", &documents_text, Some(&home_text)).unwrap(),
        text(&home.join("My Novel"))
    );
}

#[test]
fn decodes_unix_file_urls_once() {
    assert_eq!(
        normalize_path_input(
            "file:///Users/A%20Writer/%E6%9C%AC%23%25",
            "/documents",
            None
        )
        .unwrap(),
        "/Users/A Writer/本#%"
    );
}

#[test]
fn rejects_empty_malformed_and_remote_urls() {
    let documents = "/documents";
    assert!(matches!(
        normalize_path_input("  ", documents, None),
        Err(PathInputError::Empty)
    ));
    assert!(matches!(
        normalize_path_input("file:///bad%2", documents, None),
        Err(PathInputError::MalformedUrl(_))
    ));
    assert!(matches!(
        normalize_path_input("https://example.test/project", documents, None),
        Err(PathInputError::RemoteUrl)
    ));
    assert!(matches!(
        normalize_path_input("file://server/share", documents, None),
        Err(PathInputError::RemoteUrl)
    ));
}

#[test]
fn paths_are_normalized_lexically() {
    assert_eq!(
        normalize_path_input("a/./b/../c//d/", "/docs", None).unwrap(),
        "/docs/a/c/d"
    );
    assert_eq!(
        normalize_path_input("/../x", "/docs", None).unwrap(),
        "/x"
    );
    assert_eq!(normalize_path_input("~", "/docs", Some("/home/w")).unwrap(), "/home/w");
    assert_eq!(normalize_path_input("~", "/docs", None).unwrap(), "/docs/~");
    assert_eq!(
        normalize_path_input("file://localhost/tmp/x", "/docs", None).unwrap(),
        "/tmp/x"
    );
}

#[test]
fn nul_and_undecodable_inputs_are_refused() {
    assert!(matches!(
        normalize_path_input("a\0b", "/docs", None),
        Err(PathInputError::Nul)
    ));
    assert!(matches!(
        normalize_path_input("file:///%FF", "/docs", None),
        Err(PathInputError::MalformedUrl(_))
    ));
    assert!(matches!(
        normalize_path_input("file:///%zz", "/docs", None),
        Err(PathInputError::MalformedUrl(_))
    ));
}

#[test]
fn project_names_are_trimmed_and_validated() {
    assert_eq!(validate_project_name("  Novel #1 ").unwrap(), "Novel #1");
    assert!(matches!(
        validate_project_name("   "),
        Err(PathInputError::EmptyProjectName)
    ));
    for name in [".", "..", "a/b", "a\\b", "a\0b"] {
        assert!(matches!(
            validate_project_name(name),
            Err(PathInputError::InvalidProjectName)
        ));
    }
}

#[test]
fn hex_digits_decode_in_either_case() {
    assert_eq!(hex(b'0'), Some(0));
    assert_eq!(hex(b'a'), Some(10));
    assert_eq!(hex(b'F'), Some(15));
    assert_eq!(hex(b'g'), None);
}

#[test]
fn normalizing_a_normalized_path_gives_it_back() {
    let inputs = [
        " Drafts/./My Novel/../Novel ",
        "file:///srv//books/a%20b",
        "~/notes/",
        "/abs/../x/y",
        "..",
    ];
    for input in inputs {
        let once = normalize_path_input(input, "/home/writer/Documents", Some("/home/writer")).unwrap();
        let twice = normalize_path_input(&once, "/home/writer/Documents", None).unwrap();
        assert_eq!(twice, once);
    }
    assert_eq!(
        normalize_path_input("/a/./b//c/../d", "/docs", None).unwrap(),
        "/a/b/d"
    );
}
