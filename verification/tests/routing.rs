use codex_ide::path::{absolute, join, parse_path, resolve_text, Component, PathStyle, Prefix};
use codex_ide::routing::{normalize, select, Location};

fn at(path: &str) -> Location {
    Location {
        path: path.as_bytes().to_vec(),
        resolved: None,
    }
}

fn normal(style: PathStyle, path: &str) -> Option<String> {
    normalize(style, &at(path)).map(|text| String::from_utf8(text).unwrap())
}

#[test]
fn nested_distinct_duplicate_and_component_boundaries() {
    let style = PathStyle::Unix;
    let base = "/tmp/codex-routing-test";
    let below = |name: &str| at(&format!("{base}/{name}"));
    let roots = vec![
        vec![at(base), at(base)],
        vec![below("nested")],
        vec![below("other")],
    ];
    assert_eq!(select(style, &below("nested/src"), &roots).ok().unwrap().0, 1);
    assert_eq!(select(style, &below("other"), &roots).ok().unwrap().0, 2);
    assert_eq!(select(style, &below("nested/../src"), &roots).ok().unwrap().0, 0);
    assert!(select(style, &at(&format!("{base}.different")), &roots).is_err());
    assert!(select(style, &at("relative"), &roots).is_err());
    let duplicate = vec![vec![at(base)], vec![at(base)]];
    assert_eq!(
        select(style, &at(base), &duplicate).err().unwrap(),
        "ambiguous-workspace"
    );
    assert!(select(style, &at(base), &[]).is_err());
}

#[test]
fn drive_case_separators_and_verbatim_paths() {
    let style = PathStyle::Windows;
    let roots = vec![vec![at(r"C:\ZedRoutingTest\Repo")]];
    for directory in [
        r"c:/zedroutingtest/repo/src",
        r"\\?\C:\ZedRoutingTest\Repo\src",
    ] {
        assert_eq!(select(style, &at(directory), &roots).ok().unwrap().0, 0);
    }
    assert!(select(style, &at(r"C:\ZedRoutingTest\Repository"), &roots).is_err());
    assert_eq!(
        normalize(style, &at(r"\\?\UNC\server\share\folder")),
        normalize(style, &at(r"\\server\share\folder"))
    );
}

#[test]
fn every_refusal_has_its_directory() {
    let style = PathStyle::Unix;
    let roots = vec![vec![at("/a")], vec![at("/a/b"), at("rel")], vec![at("/a/b")]];
    assert_eq!(
        select(style, &at("a"), &roots).err().unwrap(),
        "invalid-workspace-root"
    );
    assert_eq!(
        select(style, &at("/c"), &roots).err().unwrap(),
        "no-client-found"
    );
    assert_eq!(
        select(style, &at("/a/b/c"), &roots).err().unwrap(),
        "ambiguous-workspace"
    );
    let (window, root) = select(style, &at("/a/c"), &roots).ok().unwrap();
    assert_eq!(window, 0);
    assert_eq!(root.path, b"/a");
    // A deeper root ends the doubt about a shallower one.
    let roots = vec![vec![at("/a")], vec![at("/a")], vec![at("/a/b/"), at("/a//b")]];
    let (window, root) = select(style, &at("/a/b/c"), &roots).ok().unwrap();
    assert_eq!(window, 2);
    assert_eq!(root.path, b"/a/b/");
}

#[test]
fn what_the_file_system_says_counts() {
    let style = PathStyle::Unix;
    let linked = Location {
        path: b"/link/repo".to_vec(),
        resolved: Some(b"/real/repo".to_vec()),
    };
    assert_eq!(normalize(style, &linked).unwrap(), b"/real/repo");
    let roots = vec![vec![at("/real")]];
    assert_eq!(select(style, &linked, &roots).ok().unwrap().0, 0);
    let relative = Location {
        path: b"repo".to_vec(),
        resolved: Some(b"/real/repo".to_vec()),
    };
    assert!(normalize(style, &relative).is_none());
}

#[test]
fn unix_paths_are_normalized() {
    let style = PathStyle::Unix;
    for (path, expected) in [
        ("/", Some("/")),
        ("//a///b/", Some("/a/b")),
        ("/a/./b/..", Some("/a")),
        ("/../..", Some("/")),
        ("/a/../../b", Some("/b")),
        (r"/a\b/C:", Some(r"/a\b/C:")),
        ("/A", Some("/A")),
        ("", None),
        ("a/b", None),
        ("./a", None),
    ] {
        assert_eq!(normal(style, path).as_deref(), expected, "{path}");
        if let Some(text) = expected {
            assert_eq!(normal(style, text).as_deref(), expected);
        }
    }
    assert_eq!(
        normalize(style, &Location { path: vec![b'/', 0xff], resolved: None }).unwrap(),
        vec![b'/', 0xff]
    );
}

#[test]
fn windows_paths_are_normalized() {
    let style = PathStyle::Windows;
    for (path, expected) in [
        (r"C:\", Some(r"c:\")),
        (r"C:/A\b//C", Some(r"c:\a\b\c")),
        (r"c:\a\..\..\b\.", Some(r"c:\b")),
        (r"\\?\C:\A\b", Some(r"c:\a\b")),
        (r"\\?\C:\a\.\..\B", Some(r"c:\b")),
        (r"\\Server\Share", Some(r"\\server\share\")),
        (r"//Server/Share/X", Some(r"//server/share\x")),
        (r"\\?\UNC\Server\Share\X", Some(r"\\server\share\x")),
        (r"\\.\PIPE\x", Some(r"\\.\pipe\x")),
        (r"\\?\Volume{1}\x", Some(r"volume{1}\x")),
        ("C:\\\u{c9}T\u{c9}", Some("c:\\\u{e9}t\u{e9}")),
        (r"C:a", None),
        (r"\a", None),
        (r"a\b", None),
        (r"\\server", None),
        ("/", None),
        ("", None),
    ] {
        assert_eq!(normal(style, path).as_deref(), expected, "{path}");
    }
    // A surrogate that stands alone gives way to one replacement character.
    let lone = Location {
        path: vec![b'C', b':', b'\\', 0xed, 0xa0, 0x80, b'X'],
        resolved: None,
    };
    assert_eq!(
        normalize(style, &lone).unwrap(),
        "c:\\\u{fffd}x".as_bytes()
    );
}

#[test]
fn a_name_with_a_drive_starts_anew() {
    assert_eq!(
        resolve_text(PathStyle::Windows, br"C:\a\D:b\c"),
        br"D:b\c"
    );
    assert_eq!(
        resolve_text(PathStyle::Windows, br"\\?\C:\a/../b\c"),
        br"\\?\C:\b\c"
    );
}

#[test]
fn prefixes_are_told_apart() {
    let prefix = |path: &str| match parse_path(PathStyle::Windows, path.as_bytes()).into_iter().next() {
        Some(Component::Prefix(prefix)) => Some(match prefix {
            Prefix::Verbatim(name) => format!("verbatim {}", String::from_utf8(name).unwrap()),
            Prefix::VerbatimShare(server, share) => format!(
                "verbatim share {} {}",
                String::from_utf8(server).unwrap(),
                String::from_utf8(share).unwrap()
            ),
            Prefix::VerbatimDrive(letter) => format!("verbatim drive {}", letter as char),
            Prefix::Device(name) => format!("device {}", String::from_utf8(name).unwrap()),
            Prefix::Share(server, share) => format!(
                "share {} {}",
                String::from_utf8(server).unwrap(),
                String::from_utf8(share).unwrap()
            ),
            Prefix::Drive(letter) => format!("drive {}", letter as char),
        }),
        _ => None,
    };
    for (path, expected) in [
        (r"c:", Some("drive C")),
        (r"c:foo", Some("drive C")),
        (r"\\?\c:\foo", Some("verbatim drive C")),
        (r"\\?\c:foo", Some("verbatim c:foo")),
        (r"\\?\name\foo", Some("verbatim name")),
        (r"\\?\UNC\a\b\c", Some("verbatim share a b")),
        (r"\\?\unc\a", Some("verbatim unc")),
        (r"\\.\COM1", Some("device COM1")),
        (r"\\a\b\c", Some("share a b")),
        (r"//?/c:/foo", Some("share ? c:")),
        (r"\\a", None),
        (r"\a", None),
        (r"a", None),
        (r"1:", None),
    ] {
        assert_eq!(prefix(path).as_deref(), expected, "{path}");
    }
    assert!(absolute(PathStyle::Windows, br"\\?\c:foo"));
    assert!(!absolute(PathStyle::Windows, br"c:foo"));
    assert!(absolute(PathStyle::Unix, b"/c:foo"));
}

#[test]
fn paths_are_joined() {
    let unix = |directory: &[u8], name| join(PathStyle::Unix, directory, name);
    assert_eq!(unix(b"/a", "b/c"), b"/a/b/c");
    assert_eq!(unix(b"/a/", "b"), b"/a/b");
    assert_eq!(unix(b"", "b"), b"b");
    assert_eq!(unix(b"/a", "/b"), b"/b");
    let windows = |directory: &[u8], name| join(PathStyle::Windows, directory, name);
    assert_eq!(windows(br"C:\a", "b/c"), br"C:\a\b/c");
    assert_eq!(windows(br"C:\a", r"\b"), br"C:\b");
    assert_eq!(windows(br"C:\a", r"D:b"), br"D:b");
    assert_eq!(windows(br"C:\a", r"D:\b"), br"D:\b");
    assert_eq!(windows(br"\\?\C:\a", "b/./../c"), br"\\?\C:\a\c");
    assert_eq!(windows(br"\\?\C:\a", r"\b"), br"\\?\C:\b");
    assert_eq!(windows(br"\\?\C:\a", ""), br"\\?\C:\a\");
}

#[test]
fn a_prefix_stays_as_it_is_written() {
    let style = PathStyle::Windows;
    let normal = |path: &[u8]| {
        let location = Location { path: path.to_vec(), resolved: None };
        String::from_utf8(normalize(style, &location).unwrap()).unwrap()
    };
    // Only in just this spelling is a path verbatim.
    assert_eq!(normal(br"\\?\C:\r"), r"c:\r");
    assert_eq!(normal(b"//?/C:/r"), r"//?/c:\r");
    assert_eq!(normal(br"\\?/C:\r"), r"\\?/c:\r");
    let roots = vec![vec![at(r"C:\r")]];
    assert_eq!(select(style, &at(r"\\?\C:\r"), &roots).ok().unwrap().0, 0);
    assert_eq!(select(style, &at("//?/C:/r"), &roots).err(), Some("no-client-found"));
    assert_eq!(normal(br"\\?\UNC\server\share\x"), r"\\server\share\x");
    assert_eq!(normal(br"\\?\UNC/server\share\x"), r"unc/server\share\x");
    assert_eq!(normal(b"//Server/Share/x/../y"), r"//server/share\y");
    assert_eq!(normal(br"\\?\C:\a/../b\c"), r"c:\b\c");
    // Once a name has become a part of the prefix, no step goes back over it.
    assert_eq!(normal(br"\\?\UNC\server\\x\..\y"), r"\\server\x\y");
    assert_eq!(normal(br"C:\a\.\\b\..\..\..\c"), r"c:\c");
    assert_eq!(normal(br"\\server\share\..\.."), r"\\server\share\");
    // Shares that differ in nothing but their separators are one place.
    let roots = vec![vec![at(r"\\server\share\r")]];
    assert_eq!(select(style, &at("//server/share/r/s"), &roots).ok().unwrap().0, 0);
}
