use fluqsr::error::Error;
use fluqsr::paths::{
    fallback_name, numbered_name, partial_path, NameSearch, MAX_NUMBERED_TRIES, resolve_within, safe_relative_path,
    sanitize_component, MAX_COMPONENT_LEN,
};

fn parts(items: &[&str]) -> Vec<String> {
    items.iter().map(|s| s.to_string()).collect()
}

#[test]
fn accepts_ordinary_paths() {
    assert_eq!(safe_relative_path("notes.txt").unwrap(), parts(&["notes.txt"]));
    assert_eq!(
        safe_relative_path("photos/2026/trip.jpg").unwrap(),
        parts(&["photos", "2026", "trip.jpg"])
    );
}

#[test]
fn treats_windows_separators_as_separators() {
    assert_eq!(
        safe_relative_path("photos\\trip.jpg").unwrap(),
        parts(&["photos", "trip.jpg"]),
        "a backslash must split components, not become part of a filename"
    );
}

#[test]
fn rejects_traversal() {
    for evil in [
        "../secrets",
        "a/../../b",
        "..\\..\\Windows\\System32\\drivers\\etc\\hosts",
        "photos/../../../.ssh/authorized_keys",
        "..",
    ] {
        assert!(
            safe_relative_path(evil).is_err(),
            "should have rejected traversal: {evil}"
        );
    }
}

#[test]
fn rejects_absolute_and_drive_paths() {
    for evil in [
        "/etc/passwd",
        "/",
        "C:/Windows/System32/calc.exe",
        "c:relative.txt",
        "\\\\server\\share\\file.txt",
        "//server/share/file.txt",
    ] {
        assert!(
            safe_relative_path(evil).is_err(),
            "should have rejected absolute path: {evil}"
        );
    }
}

#[test]
fn rejects_null_bytes() {
    assert!(safe_relative_path("good.txt\0.exe").is_err());
}

#[test]
fn rejects_empty_and_dot_only_paths() {
    for evil in ["", "   ", ".", "./", "./././"] {
        assert!(
            safe_relative_path(evil).is_err(),
            "should have rejected: {evil:?}"
        );
    }
}

#[test]
fn collapses_redundant_separators() {
    assert_eq!(
        safe_relative_path("a//b/./c.txt").unwrap(),
        parts(&["a", "b", "c.txt"])
    );
}

#[test]
fn neutralizes_ntfs_alternate_data_streams() {
    let safe = safe_relative_path("report.txt:payload.exe").unwrap();
    assert_eq!(safe, parts(&["report.txt_payload.exe"]));
    assert!(!safe.iter().any(|c| c.contains(':')));
}

#[test]
fn escapes_windows_reserved_device_names() {
    for reserved in ["CON", "con.txt", "NUL", "aux.tar.gz", "COM1", "lpt9.dat"] {
        let safe = sanitize_component(reserved).unwrap();
        assert!(
            safe.starts_with('_'),
            "{reserved} should have been escaped, got {safe}"
        );
    }
}

#[test]
fn leaves_names_that_merely_resemble_reserved_ones() {
    for ordinary in ["console.log", "contract.pdf", "nullable.rs", "communicate"] {
        assert_eq!(sanitize_component(ordinary).unwrap(), ordinary);
    }
}

#[test]
fn strips_trailing_dots_and_spaces() {
    assert_eq!(sanitize_component("evil.txt. . ").unwrap(), "evil.txt");
    assert_eq!(sanitize_component("trailing ").unwrap(), "trailing");
}

#[test]
fn keeps_leading_dots_for_dotfiles() {
    assert_eq!(sanitize_component(".gitignore").unwrap(), ".gitignore");
    assert_eq!(sanitize_component(".env.local").unwrap(), ".env.local");
}

#[test]
fn strips_control_characters() {
    let safe = sanitize_component("na\u{7}me\u{1b}[0m.txt").unwrap();
    assert!(!safe.chars().any(|c| c.is_control()));
}

#[test]
fn truncates_long_names_but_keeps_the_extension() {
    let long = format!("{}.pdf", "a".repeat(500));
    let safe = sanitize_component(&long).unwrap();
    assert!(safe.len() <= MAX_COMPONENT_LEN);
    assert!(safe.ends_with(".pdf"), "extension must survive: {safe}");
}

#[test]
fn truncation_does_not_split_multibyte_characters() {
    let long = "\u{1f600}".repeat(200);
    let safe = sanitize_component(&long).unwrap();
    assert!(safe.len() <= MAX_COMPONENT_LEN);
    assert!(!safe.is_empty());
}

#[test]
fn rejects_absurdly_long_paths() {
    let long = format!("{}/x.txt", "a/".repeat(2000));
    assert!(safe_relative_path(&long).is_err());
}

#[test]
fn unicode_filenames_pass_through_intact() {
    assert_eq!(
        safe_relative_path("документы/отчёт.pdf").unwrap(),
        parts(&["документы", "отчёт.pdf"])
    );
    assert_eq!(sanitize_component("日本語.txt").unwrap(), "日本語.txt");
}

#[test]
fn resolve_within_accepts_paths_inside_the_root() {
    let root = parts(&["/", "tmp", "inbox"]);
    let relative = safe_relative_path("sub/file.txt").unwrap();
    let resolved = resolve_within(&root, &relative, &root, Some(&root)).unwrap();
    assert!(resolved.ends_with(&parts(&["sub", "file.txt"])));
    assert_eq!(resolved, parts(&["/", "tmp", "inbox", "sub", "file.txt"]));
}

#[test]
fn unique_path_never_overwrites() {
    assert_eq!(numbered_name("report.pdf", 1), "report (1).pdf");
    assert_eq!(numbered_name("report.pdf", 2), "report (2).pdf");
    assert_ne!(numbered_name("report.pdf", 1), "report.pdf");
}

#[test]
fn partial_files_are_distinguishable_from_finished_ones() {
    let partial = partial_path("/tmp/movie.mkv");
    assert!(partial.ends_with(".fluqsr-part"));
    assert_ne!(partial, "/tmp/movie.mkv");
}

#[test]
fn a_parent_that_resolves_outside_the_root_is_refused() {
    let root = parts(&["/", "home", "me", "inbox"]);
    let relative = safe_relative_path("linked/file.txt").unwrap();
    let outside = parts(&["/", "etc"]);
    assert!(matches!(
        resolve_within(&root, &relative, &root, Some(&outside)),
        Err(Error::UnsafePath(_))
    ));
}

#[test]
fn a_destination_without_any_parent_is_refused() {
    let root = parts(&["inbox"]);
    let relative = parts(&["file.txt"]);
    assert!(matches!(
        resolve_within(&root, &relative, &root, None),
        Err(Error::UnsafePath(_))
    ));
}

#[test]
fn the_canonical_root_is_what_containment_is_checked_against() {
    // A symlinked receive folder resolves elsewhere; its resolved parent is
    // inside the resolved root, so the write is allowed.
    let root = parts(&["/", "home", "me", "inbox"]);
    let canonical = parts(&["/", "data", "inbox"]);
    let parent = parts(&["/", "data", "inbox", "sub"]);
    let relative = parts(&["sub", "a.txt"]);
    assert_eq!(
        resolve_within(&root, &relative, &canonical, Some(&parent)).unwrap(),
        parts(&["/", "home", "me", "inbox", "sub", "a.txt"])
    );
}

#[test]
fn numbered_names_without_an_extension() {
    assert_eq!(numbered_name("notes", 3), "notes (3)");
    assert_eq!(numbered_name(".bashrc", 1), ".bashrc (1)");
    assert_eq!(numbered_name("archive.tar.gz", 12), "archive.tar (12).gz");
}

#[test]
fn the_fallback_name_keeps_the_stem() {
    let name = fallback_name("report.pdf");
    assert!(name.starts_with("report-"));
    assert_eq!(name.len(), "report-".len() + 36);
    assert_ne!(fallback_name("report.pdf"), fallback_name("report.pdf"));
}

#[test]
fn a_name_that_fits_is_only_cleaned() {
    assert_eq!(sanitize_component("a:b*c?.txt").unwrap(), "a_b_c_.txt");
    assert!(matches!(sanitize_component(". ."), Err(Error::UnsafePath(_))));
    assert!(matches!(sanitize_component(""), Err(Error::UnsafePath(_))));
}

#[test]
fn an_over_long_name_without_an_extension_is_cut_to_the_limit() {
    let safe = sanitize_component(&"b".repeat(300)).unwrap();
    assert_eq!(safe, "b".repeat(200));
}

#[test]
fn a_name_search_proposes_each_alternative_once_in_order() {
    let mut search = NameSearch::new("report.pdf");
    assert_eq!(search.next().as_deref(), Some("report (1).pdf"));
    assert_eq!(search.next().as_deref(), Some("report (2).pdf"));
    let mut seen = std::collections::HashSet::new();
    seen.insert("report (1).pdf".to_string());
    seen.insert("report (2).pdf".to_string());
    let mut count = 2u32;
    while let Some(name) = search.next() {
        assert!(seen.insert(name), "a name was proposed twice");
        count += 1;
    }
    assert_eq!(count, MAX_NUMBERED_TRIES);
    assert!(!seen.contains("report.pdf"));
    assert!(seen.contains("report (9999).pdf"));
    assert_eq!(search.next(), None);
}

#[test]
fn refusals_name_the_path_as_it_would_be_displayed() {
    let root = parts(&["/", "tmp", "inbox"]);
    let relative = safe_relative_path("sub/file.txt").unwrap();
    match resolve_within(&root, &relative, &root, None) {
        Err(Error::UnsafePath(m)) => assert_eq!(m, "\"/tmp/inbox/sub/file.txt\" has no parent"),
        other => panic!("unexpected {other:?}"),
    }
    let outside = parts(&["/", "etc"]);
    match resolve_within(&root, &relative, &root, Some(&outside)) {
        Err(Error::UnsafePath(m)) => {
            assert_eq!(m, "\"sub/file.txt\" would write outside the receive folder")
        }
        other => panic!("unexpected {other:?}"),
    }
}

#[test]
fn a_cut_name_never_ends_in_a_dot_or_space() {
    let segment = format!("{} {}", "a".repeat(199), "b".repeat(10));
    let safe = sanitize_component(&segment).unwrap();
    assert_eq!(safe, "a".repeat(199));
    let dotted = format!("{}.{}", "c".repeat(199), "d".repeat(20));
    let safe = sanitize_component(&dotted).unwrap();
    assert!(!safe.ends_with('.') && !safe.ends_with(' '));
    assert!(safe.len() <= MAX_COMPONENT_LEN);
}

#[test]
fn a_cut_that_leaves_nothing_or_a_device_name_is_handled() {
    let blank = format!("{}x", " ".repeat(300));
    assert!(matches!(sanitize_component(&blank), Err(Error::UnsafePath(_))));
    let device = format!("CON{}x", " ".repeat(300));
    assert_eq!(sanitize_component(&device).unwrap(), "_CON");
}

#[test]
fn refusals_quote_the_path_and_name_the_reason() {
    match safe_relative_path("a/../b") {
        Err(Error::UnsafePath(m)) => {
            assert_eq!(m, "\"a/../b\": contains a parent-directory traversal")
        }
        other => panic!("unexpected {other:?}"),
    }
    match safe_relative_path("/etc/passwd") {
        Err(Error::UnsafePath(m)) => assert_eq!(m, "\"/etc/passwd\": absolute path"),
        other => panic!("unexpected {other:?}"),
    }
    match safe_relative_path("ok/ . ") {
        Err(Error::UnsafePath(m)) => {
            assert_eq!(m, "component \" . \" sanitizes to nothing usable")
        }
        other => panic!("unexpected {other:?}"),
    }
    match sanitize_component("") {
        Err(Error::UnsafePath(m)) => assert_eq!(m, "empty path component"),
        other => panic!("unexpected {other:?}"),
    }
}
