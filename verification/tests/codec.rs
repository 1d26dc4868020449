use rustix::fs::Mode;
use tmpfiles::entry::{tmpfiles_entry_get_path, translate_to_tmpfiles_d, FileMeta, FsObject};
use tmpfiles::error::Error;
use tmpfiles::escape::{canonicalize_escape_path, escape_path};
use tmpfiles::unescape::{impl_unescape_path_until, unescape_path};

#[test]
fn test_tmpfiles_entry_get_path() {
    let cases = [
        ("z /dev/kvm          0666 - kvm -", "/dev/kvm"),
        ("d /run/lock/lvm 0700 root root -", "/run/lock/lvm"),
        ("a+      /var/lib/tpm2-tss/system/keystore   -    -    -     -           default:group:tss:rwx", "/var/lib/tpm2-tss/system/keystore"),
        ("d \"/run/file with spaces/foo\" 0700 root root -", "/run/file with spaces/foo"),
        (
            r#"d /spaces\x20\x20here/foo 0700 root root -"#,
            "/spaces  here/foo",
        ),
    ];
    for (input, expected) in cases {
        let path = tmpfiles_entry_get_path(input).unwrap();
        assert_eq!(path, expected.as_bytes(), "Input: {input}");
    }
}

#[test]
fn test_canonicalize_escape_path() {
    let intact_cases = vec!["/", "/var", "/var/foo", "/run/foo"];
    for entry in intact_cases {
        let mut s = String::new();
        canonicalize_escape_path(entry.as_bytes(), &mut s).unwrap();
        assert_eq!(&s, entry);
    }

    let quoting_cases = &[
        ("/var/foo bar", r#"/var/foo\x20bar"#),
        ("/var/run", "/run"),
        ("/var/run/foo bar", r#"/run/foo\x20bar"#),
    ];
    for (input, expected) in quoting_cases {
        let mut s = String::new();
        canonicalize_escape_path(input.as_bytes(), &mut s).unwrap();
        assert_eq!(&s, expected);
    }
}

#[test]
fn test_translate_to_tmpfiles_d() {
    let path = r#"/var/foo bar"#.as_bytes();
    let username = "testuser";
    let groupname = "testgroup";
    {
        // Directory
        let meta = FileMeta::Directory(Mode::from_raw_mode(0o721).bits());
        let out = translate_to_tmpfiles_d(path, meta, username, groupname).unwrap();
        let expected = r#"d /var/foo\x20bar 0721 testuser testgroup - -"#;
        assert_eq!(out, expected);
    }
    {
        // Symlink
        let meta = FileMeta::Symlink("/mytarget".into());
        let out = translate_to_tmpfiles_d(path, meta, username, groupname).unwrap();
        let expected = r#"L /var/foo\x20bar - - - - /mytarget"#;
        assert_eq!(out, expected);
    }
}

fn escaped(path: &[u8]) -> String {
    let mut s = String::new();
    escape_path(path, &mut s).unwrap();
    s
}

#[test]
fn escape_rejects_the_empty_path() {
    let mut s = String::from("kept");
    assert_eq!(escape_path(b"", &mut s), Err(Error::Fmt));
    assert_eq!(s, "kept");
    assert_eq!(canonicalize_escape_path(b"", &mut s), Err(Error::Fmt));
    assert_eq!(s, "kept");
}

#[test]
fn escape_appends_to_what_is_there() {
    let mut s = String::from("d ");
    escape_path(b"/a b", &mut s).unwrap();
    assert_eq!(s, r"d /a\x20b");
}

#[test]
fn escape_writes_each_kind_of_byte() {
    assert_eq!(escaped(b"/usr/lib64/Az09"), "/usr/lib64/Az09");
    assert_eq!(escaped(b"a\\b"), r"a\\b");
    assert_eq!(escaped(b"a\nb\tc\rd"), r"a\nb\tc\rd");
    assert_eq!(escaped(b"!\"#$%&'()*+,-./:;<=>?@[]^_`{|}~"), "!\"#$%&'()*+,-./:;<=>?@[]^_`{|}~");
    assert_eq!(escaped(b" "), r"\x20");
    assert_eq!(escaped(&[0x00, 0x0b, 0x0c, 0x1f, 0x7f, 0x80, 0xab, 0xff]), r"\x00\x0b\x0c\x1f\x7f\x80\xab\xff");
    assert_eq!(escaped("é".as_bytes()), r"\xc3\xa9");
}

#[test]
fn escape_round_trips_printable_ascii() {
    let mut path = Vec::new();
    for b in 0x20u8..0x7f {
        if b != b'"' {
            path.push(b);
        }
    }
    path.push(b'"');
    let text = escaped(&path);
    assert_eq!(unescape_path(text.as_bytes(), 0), Ok(path));
}

#[test]
fn escape_round_trips_control_bytes() {
    let path = b"/a\nb\tc\rd\\e f".to_vec();
    let text = escaped(&path);
    assert_eq!(text, r"/a\nb\tc\rd\\e\x20f");
    assert_eq!(unescape_path(text.as_bytes(), 0), Ok(path));
}

#[test]
fn escape_round_trips_every_byte() {
    for first in 0u8..=255 {
        if first == b'"' {
            continue;
        }
        let path: Vec<u8> = std::iter::once(first).chain(0u8..=255).collect();
        let text = escaped(&path);
        assert!(text.is_ascii());
        assert_eq!(unescape_path(text.as_bytes(), 0), Ok(path));
    }
}

#[test]
fn a_leading_quote_does_not_round_trip() {
    let text = escaped(b"\"a");
    assert_eq!(text, "\"a");
    assert_eq!(unescape_path(text.as_bytes(), 0), Err(Error::MalformedTmpfilesPath));
    let text = escaped(b"\"a\"b");
    assert_eq!(unescape_path(text.as_bytes(), 0), Ok(b"a".to_vec()));
}

#[test]
fn canonicalization_of_var_run() {
    let mut long = String::new();
    canonicalize_escape_path(b"/var/run/x", &mut long).unwrap();
    let mut short = String::new();
    canonicalize_escape_path(b"/run/x", &mut short).unwrap();
    assert_eq!(long, short);
    assert_eq!(long, escaped(b"/run/x"));
    assert_eq!(long, "/run/x");
}

#[test]
fn canonicalization_takes_whole_components() {
    for path in ["/var/runner", "/var/run.d/x", "/var/ru", "var/run/x", "/usr/var/run"] {
        let mut s = String::new();
        canonicalize_escape_path(path.as_bytes(), &mut s).unwrap();
        assert_eq!(s, path);
    }
    let mut s = String::new();
    canonicalize_escape_path(b"/var/run/", &mut s).unwrap();
    assert_eq!(s, "/run/");
}

#[test]
fn unescape_reads_each_escape() {
    assert_eq!(unescape_path(br"a\\b\nc\rd\te\x41\x6a\x6A\xff", 0), Ok(b"a\\b\nc\rd\teAjj\xff".to_vec()));
    assert_eq!(unescape_path(br"\x0a\x0A", 0), Ok(b"\n\n".to_vec()));
}

#[test]
fn unescape_stops_at_whitespace_or_quote() {
    assert_eq!(unescape_path(b"/a/b c", 0), Ok(b"/a/b".to_vec()));
    assert_eq!(unescape_path(b"/a/b\tc", 0), Ok(b"/a/b".to_vec()));
    assert_eq!(unescape_path(b"/a/b\nc", 0), Ok(b"/a/b".to_vec()));
    assert_eq!(unescape_path(b"/a/b\x0cc", 0), Ok(b"/a/b".to_vec()));
    assert_eq!(unescape_path(b"/a/b\rc", 0), Ok(b"/a/b".to_vec()));
    assert_eq!(unescape_path(b"/a/b\x0bc", 0), Ok(b"/a/b\x0bc".to_vec()));
    assert_eq!(unescape_path(b"/a\"b c", 0), Ok(b"/a\"b".to_vec()));
    assert_eq!(unescape_path(b"\"/a b\tc\" d", 0), Ok(b"/a b\tc".to_vec()));
    assert_eq!(unescape_path(b"\"\"", 0), Ok(Vec::new()));
    assert_eq!(unescape_path(b"", 0), Ok(Vec::new()));
    assert_eq!(unescape_path(b" x", 0), Ok(Vec::new()));
}

#[test]
fn unescape_starts_where_it_is_told() {
    assert_eq!(unescape_path(b"d /a/b 0755", 2), Ok(b"/a/b".to_vec()));
    assert_eq!(unescape_path(b"d /a/b", 6), Ok(Vec::new()));
    assert_eq!(unescape_path(b"d /a/b", 100), Ok(Vec::new()));
}

#[test]
fn unescape_rejects_malformed_escapes() {
    for bad in [
        &br"a\"[..],
        br"\q",
        br"\0",
        br"\ ",
        br"\x",
        br"\x4",
        br"\x4g",
        br"\xg4",
        br"\x+f",
        br"\x 41",
        b"\"\\\"\"",
        b"\"unterminated",
        b"\"",
    ] {
        assert_eq!(unescape_path(bad, 0), Err(Error::MalformedTmpfilesPath), "{bad:?}");
    }
}

#[test]
fn unescape_until_reports_where_the_record_ends() {
    assert_eq!(impl_unescape_path_until(b"ab cd", 0, false), Ok((b"ab".to_vec(), 2)));
    assert_eq!(impl_unescape_path_until(b"ab cd", 1, false), Ok((b"b".to_vec(), 2)));
    assert_eq!(impl_unescape_path_until(b"ab cd", 2, false), Ok((Vec::new(), 2)));
    assert_eq!(impl_unescape_path_until(b"ab cd", 3, false), Ok((b"cd".to_vec(), 5)));
    assert_eq!(impl_unescape_path_until(b"ab cd", 9, false), Ok((Vec::new(), 9)));
    assert_eq!(impl_unescape_path_until(b"ab cd\"e", 0, true), Ok((b"ab cd".to_vec(), 5)));
    assert_eq!(impl_unescape_path_until(b"ab cd", 0, true), Ok((b"ab cd".to_vec(), 5)));
    assert_eq!(impl_unescape_path_until(br"a\x20b c", 0, false), Ok((b"a b".to_vec(), 6)));
    assert_eq!(impl_unescape_path_until(br"a\x2", 0, false), Err(Error::MalformedTmpfilesPath));
    assert_eq!(impl_unescape_path_until(b"a\\\"b\"", 0, true), Err(Error::MalformedTmpfilesPath));
}

#[test]
fn entry_path_tolerates_extra_whitespace() {
    assert_eq!(tmpfiles_entry_get_path("  \t d   /a/b   "), Ok(b"/a/b".to_vec()));
    assert_eq!(tmpfiles_entry_get_path("d\t/a/b"), Ok(b"/a/b".to_vec()));
    assert_eq!(tmpfiles_entry_get_path("a+ /a/b"), Ok(b"/a/b".to_vec()));
    assert_eq!(tmpfiles_entry_get_path("d"), Ok(Vec::new()));
    assert_eq!(tmpfiles_entry_get_path("d  "), Ok(Vec::new()));
    assert_eq!(tmpfiles_entry_get_path("d /h\u{e9}"), Ok("/h\u{e9}".as_bytes().to_vec()));
}

#[test]
fn entry_path_rejects_malformed_lines() {
    for bad in ["", "   ", "\t", r"d /a\qb 0755", "d \"/a b 0755 - - -", r"d /a\x2"] {
        assert_eq!(
            tmpfiles_entry_get_path(bad),
            Err(Error::MalformedTmpfilesEntry(bad.to_string())),
            "{bad:?}"
        );
    }
}

#[test]
fn translate_rejects_empty_paths() {
    assert_eq!(translate_to_tmpfiles_d(b"", FileMeta::Directory(0o755), "u", "g"), Err(Error::Fmt));
    assert_eq!(translate_to_tmpfiles_d(b"", FileMeta::Symlink(b"/x".to_vec()), "u", "g"), Err(Error::Fmt));
    assert_eq!(translate_to_tmpfiles_d(b"/x", FileMeta::Symlink(Vec::new()), "u", "g"), Err(Error::Fmt));
}

#[test]
fn translate_writes_the_mode_in_octal() {
    let line = |mode: u32| translate_to_tmpfiles_d(b"/d", FileMeta::Directory(mode), "u", "g").unwrap();
    assert_eq!(line(0), "d /d 0000 u g - -");
    assert_eq!(line(0o7), "d /d 0007 u g - -");
    assert_eq!(line(0o755), "d /d 0755 u g - -");
    assert_eq!(line(0o1777), "d /d 1777 u g - -");
    assert_eq!(line(0o7777), "d /d 7777 u g - -");
    assert_eq!(line(0o207777), "d /d 207777 u g - -");
    assert_eq!(line(u32::MAX), format!("d /d {:04o} u g - -", u32::MAX));
}

#[test]
fn translate_canonicalizes_path_and_target() {
    assert_eq!(
        translate_to_tmpfiles_d(b"/var/run/a b", FileMeta::Symlink(b"/var/run/c\td".to_vec()), "u", "g").unwrap(),
        r"L /run/a\x20b - - - - /run/c\td"
    );
    assert_eq!(
        translate_to_tmpfiles_d(b"/var/run", FileMeta::Directory(0o755), "root", "root").unwrap(),
        "d /run 0755 root root - -"
    );
}

#[test]
fn translated_lines_declare_their_path() {
    for path in ["/var/lib/a b", "/var/lib/tab\there", "/var/lib/back\\slash", "/var/lib/h\u{e9}", "/var/run/x"] {
        for meta in [FileMeta::Directory(0o700), FileMeta::Symlink(b"../t".to_vec())] {
            let line = translate_to_tmpfiles_d(path.as_bytes(), meta, "us\u{e9}r", "group").unwrap();
            let expected = path.strip_prefix("/var/run").map(|rest| format!("/run{rest}")).unwrap_or(path.to_string());
            assert_eq!(tmpfiles_entry_get_path(&line), Ok(expected.into_bytes()));
        }
    }
}

#[test]
fn from_fs_keeps_the_permission_bits() {
    assert_eq!(FileMeta::from_fs(FsObject::Directory { st_mode: 0o40755 }), Some(FileMeta::Directory(0o755)));
    assert_eq!(FileMeta::from_fs(FsObject::Directory { st_mode: 0o41777 }), Some(FileMeta::Directory(0o1777)));
    assert_eq!(FileMeta::from_fs(FsObject::Directory { st_mode: 0o170000 }), Some(FileMeta::Directory(0)));
    assert_eq!(
        FileMeta::from_fs(FsObject::Directory { st_mode: u32::MAX }),
        Some(FileMeta::Directory(u32::MAX & !0o170000))
    );
    assert_eq!(
        FileMeta::from_fs(FsObject::Symlink { target: b"../x".to_vec() }),
        Some(FileMeta::Symlink(b"../x".to_vec()))
    );
    assert_eq!(FileMeta::from_fs(FsObject::Other), None);
}
