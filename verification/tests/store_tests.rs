use navi_gator::errors::{AddError, ParseError, RemoveError};
use navi_gator::store::{normalize_path, PathStore};

#[test]
fn scenario_add_duplicate_remove() {
    let mut s = PathStore::new();
    let added = s
        .add("home".to_string(), "/home/user".to_string(), true)
        .unwrap();
    assert_eq!(added.name, "home");
    assert_eq!(added.path, "/home/user");
    assert_eq!(s.serialize(), "home::/home/user\n");

    let err = s.add("home".to_string(), "/tmp".to_string(), true).unwrap_err();
    assert_eq!(
        err,
        AddError::DuplicateName {
            existing_path: "/home/user".to_string()
        }
    );
    assert_eq!(s.serialize(), "home::/home/user\n");

    s.remove(&"home".to_string()).unwrap();
    assert_eq!(s.serialize(), "");
    assert_eq!(
        s.remove(&"home".to_string()),
        Err(RemoveError::NotFound)
    );
}

#[test]
fn dot_normalizes_to_cwd() {
    let cwd = "/home/user/project".to_string();
    assert_eq!(normalize_path(&".".to_string(), &cwd), "/home/user/project");
    assert_eq!(normalize_path(&"./".to_string(), &cwd), "/home/user/project");
    assert_eq!(normalize_path(&"src".to_string(), &cwd), "src");
    assert_eq!(normalize_path(&"..".to_string(), &cwd), "..");
    assert_eq!(normalize_path(&"".to_string(), &cwd), "");

    let mut s = PathStore::new();
    let p = normalize_path(&".".to_string(), &cwd);
    s.add("cwd".to_string(), p, true).unwrap();
    let e = s.find(&"cwd".to_string()).unwrap();
    assert_eq!(e.path, "/home/user/project");
}

#[test]
fn serialize_then_load_round_trips() {
    let mut s = PathStore::new();
    s.add("a".to_string(), "/x".to_string(), true).unwrap();
    s.add("b".to_string(), "/y/z".to_string(), true).unwrap();
    s.add("c".to_string(), "rel/path".to_string(), true).unwrap();
    let text = s.serialize();
    assert_eq!(text, "a::/x\nb::/y/z\nc::rel/path\n");

    let s2 = match PathStore::load(&text) {
        Ok(s2) => s2,
        Err(e) => panic!("round trip failed: {:?}", e),
    };
    let l1 = s.list();
    let l2 = s2.list();
    assert_eq!(l1.len(), l2.len());
    for (e1, e2) in l1.iter().zip(l2.iter()) {
        assert_eq!(e1.name, e2.name);
        assert_eq!(e1.path, e2.path);
    }
}

#[test]
fn load_keeps_file_order_and_skips_blanks() {
    let s = PathStore::load("a::1\n\nb::2\n").unwrap_or_else(|_| panic!());
    let l = s.list();
    assert_eq!(l.len(), 2);
    assert_eq!(l[0].name, "a");
    assert_eq!(l[0].path, "1");
    assert_eq!(l[1].name, "b");
    assert_eq!(l[1].path, "2");
}

#[test]
fn load_accepts_missing_trailing_newline() {
    let s = PathStore::load("a::1").unwrap_or_else(|_| panic!());
    let l = s.list();
    assert_eq!(l.len(), 1);
    assert_eq!(l[0].name, "a");
    assert_eq!(l[0].path, "1");
}

#[test]
fn load_empty_content_gives_empty_store() {
    let s = PathStore::load("").unwrap_or_else(|_| panic!());
    assert!(s.list().is_empty());
    assert_eq!(s.serialize(), "");
    assert!(s.find(&"a".to_string()).is_none());
}

#[test]
fn load_only_newlines_gives_empty_store() {
    let s = PathStore::load("\n\n\n").unwrap_or_else(|_| panic!());
    assert!(s.list().is_empty());
}

#[test]
fn single_colon_in_fields_round_trips() {
    let mut s = PathStore::new();
    s.add("a:b".to_string(), "/x:y".to_string(), true).unwrap();
    let text = s.serialize();
    assert_eq!(text, "a:b::/x:y\n");
    let s2 = PathStore::load(&text).unwrap_or_else(|_| panic!());
    let e = s2.find(&"a:b".to_string()).unwrap();
    assert_eq!(e.path, "/x:y");
}

#[test]
fn load_rejects_malformed_lines() {
    for bad in [
        "noDelimiter",
        "a::b::c",
        "::path",
        "name::",
        "a:::b",
        "good::1\nbad\n",
    ] {
        match PathStore::load(bad) {
            Err(ParseError::MalformedLine(_)) => {}
            other => panic!("{:?} on {:?}", other.map(|s| s.serialize()), bad),
        }
    }
}

#[test]
fn load_reports_the_offending_line() {
    match PathStore::load("good::1\nbad line\ngood2::2\n") {
        Err(ParseError::MalformedLine(line)) => assert_eq!(line, "bad line"),
        _ => panic!(),
    }
}

#[test]
fn load_rejects_duplicate_names() {
    match PathStore::load("a::1\nb::2\na::3\n") {
        Err(ParseError::DuplicateName(name)) => assert_eq!(name, "a"),
        _ => panic!(),
    }
}

#[test]
fn add_rejects_missing_path() {
    let mut s = PathStore::new();
    let err = s
        .add("x".to_string(), "/does/not/exist".to_string(), false)
        .unwrap_err();
    assert_eq!(
        err,
        AddError::PathNotFound {
            path: "/does/not/exist".to_string()
        }
    );
    assert!(s.list().is_empty());
    assert_eq!(s.serialize(), "");
}

#[test]
fn add_rejects_delimiter_in_fields() {
    let mut s = PathStore::new();
    let err = s.add("a::b".to_string(), "/x".to_string(), true).unwrap_err();
    assert_eq!(err, AddError::InvalidCharacters);
    let err = s.add("a".to_string(), "/x::y".to_string(), true).unwrap_err();
    assert_eq!(err, AddError::InvalidCharacters);
    assert!(s.list().is_empty());
}

#[test]
fn find_is_case_sensitive() {
    let mut s = PathStore::new();
    s.add("Home".to_string(), "/h".to_string(), true).unwrap();
    assert!(s.find(&"home".to_string()).is_none());
    assert_eq!(s.find(&"Home".to_string()).unwrap().path, "/h");
}

#[test]
fn find_returns_added_entry() {
    let mut s = PathStore::new();
    s.add("docs".to_string(), "/home/user/docs".to_string(), true)
        .unwrap();
    let e = s.find(&"docs".to_string()).unwrap();
    assert_eq!(e.name, "docs");
    assert_eq!(e.path, "/home/user/docs");
}

#[test]
fn remove_middle_entry_keeps_order() {
    let mut s = PathStore::new();
    s.add("a".to_string(), "/1".to_string(), true).unwrap();
    s.add("b".to_string(), "/2".to_string(), true).unwrap();
    s.add("c".to_string(), "/3".to_string(), true).unwrap();
    s.remove(&"b".to_string()).unwrap();
    let l = s.list();
    assert_eq!(l.len(), 2);
    assert_eq!(l[0].name, "a");
    assert_eq!(l[1].name, "c");
    assert!(s.find(&"b".to_string()).is_none());
    assert_eq!(s.serialize(), "a::/1\nc::/3\n");
}

#[test]
fn purge_empties_any_store() {
    let mut s = PathStore::new();
    s.purge();
    assert!(s.list().is_empty());

    s.add("a".to_string(), "/1".to_string(), true).unwrap();
    s.add("b".to_string(), "/2".to_string(), true).unwrap();
    s.purge();
    assert!(s.list().is_empty());
    assert_eq!(s.serialize(), "");
}
