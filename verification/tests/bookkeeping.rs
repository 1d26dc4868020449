use tmpfiles::error::Error;
use tmpfiles::existing::ExistingEntries;
use tmpfiles::scan::TmpfilesScan;
use tmpfiles::generation::{
    is_conf_name, is_generated_name, BootcTmpfilesGeneration, BOOTC_GENERATED_PREFIX, TMPFILESD,
};
use tmpfiles::lines::{order_of, EntrySet, Order};
use tmpfiles::path::{key_of, push_component};
use tmpfiles::run::{
    check_tmpfiles_dir, check_var_run, render_tmpfiles, summarize, TmpfilesWrittenResult, MAX_SAMPLES,
};
use tmpfiles::text::{is_alphanumeric, is_punctuation, is_whitespace, push_numeral, push_padded_numeral};
use tmpfiles::walk::TmpfilesResult;

fn set_of(lines: &[&str]) -> EntrySet {
    let mut set = EntrySet::new();
    for line in lines {
        set.insert(line.to_string());
    }
    set
}

fn held(set: &EntrySet) -> Vec<&str> {
    (0..set.len()).map(|i| set.get(i).as_str()).collect()
}

#[test]
fn byte_classes_are_those_of_ascii() {
    for b in 0u8..=255 {
        assert_eq!(is_alphanumeric(b), b.is_ascii_alphanumeric(), "{b}");
        assert_eq!(is_punctuation(b), b.is_ascii_punctuation(), "{b}");
        assert_eq!(is_whitespace(b), b.is_ascii_whitespace(), "{b}");
    }
}

#[test]
fn numerals_are_written_like_the_standard_ones() {
    for n in [0u64, 1, 7, 8, 9, 10, 99, 100, 511, 512, 4095, 4096, 65535, u32::MAX as u64, u64::MAX] {
        let mut s = String::from(">");
        push_numeral(&mut s, n, 10);
        assert_eq!(s, format!(">{n}"));
        let mut s = String::new();
        push_numeral(&mut s, n, 8);
        assert_eq!(s, format!("{n:o}"));
        let mut s = String::new();
        push_numeral(&mut s, n, 16);
        assert_eq!(s, format!("{n:x}"));
        let mut s = String::from(">");
        push_padded_numeral(&mut s, n, 8, 4);
        assert_eq!(s, format!(">{n:04o}"));
        let mut s = String::new();
        push_padded_numeral(&mut s, n, 10, 0);
        assert_eq!(s, format!("{n}"));
    }
}

#[test]
fn order_is_that_of_byte_strings() {
    let samples: [&[u8]; 8] = [b"", b"a", b"a/", b"a/b", b"aa", b"b", b"\xff", b"L /x"];
    for a in samples {
        for b in samples {
            let expected = match a.cmp(b) {
                std::cmp::Ordering::Less => Order::Before,
                std::cmp::Ordering::Equal => Order::Same,
                std::cmp::Ordering::Greater => Order::After,
            };
            assert_eq!(order_of(a, b), expected, "{a:?} {b:?}");
        }
    }
}

#[test]
fn entries_are_sorted_and_unique() {
    let mut set = EntrySet::new();
    assert!(set.is_empty());
    assert!(set.insert("d /var/lib/test 0777 u g - -".to_string()));
    assert!(set.insert("L /var/lib/x - - - - ../".to_string()));
    assert!(set.insert("d /var/lib/nfs 0755 u g - -".to_string()));
    assert!(!set.insert("d /var/lib/test 0777 u g - -".to_string()));
    assert!(set.insert("d /var/lib/test/nested 0777 u g - -".to_string()));
    assert!(set.insert("d /var/lib/\u{e9} 0777 u g - -".to_string()));
    assert!(!set.is_empty());
    assert_eq!(set.len(), 5);
    assert_eq!(
        held(&set),
        [
            "L /var/lib/x - - - - ../",
            "d /var/lib/nfs 0755 u g - -",
            "d /var/lib/test 0777 u g - -",
            "d /var/lib/test/nested 0777 u g - -",
            "d /var/lib/\u{e9} 0777 u g - -",
        ]
    );
    assert!(set.contains("d /var/lib/nfs 0755 u g - -"));
    assert!(!set.contains("d /var/lib/nfs 0755 u g - - "));
    assert!(!set.contains(""));
}

#[test]
fn entries_come_out_in_the_order_of_a_sorted_set() {
    let lines = ["b", "a", "", "ab", "B", "a b", "~", "b", "aa", "a", "\u{7f}", "\u{80}", "\u{10000}", "\u{ffff}"];
    let set = set_of(&lines);
    let expected: std::collections::BTreeSet<&str> = lines.iter().copied().collect();
    assert_eq!(held(&set), expected.into_iter().collect::<Vec<_>>());
}

#[test]
fn path_keys_keep_the_components() {
    let cases = [
        ("", ""),
        ("/", "/"),
        ("//", "/"),
        ("/.", "/"),
        ("/var/lib", "/var/lib"),
        ("/var/lib/", "/var/lib"),
        ("/var//lib", "/var/lib"),
        ("//var/lib", "/var/lib"),
        ("/var/./lib/.", "/var/lib"),
        ("/./var/lib", "/var/lib"),
        ("/var/../lib", "/var/../lib"),
        ("/var/.lib", "/var/.lib"),
        ("/var/lib.", "/var/lib."),
        ("/var/...", "/var/..."),
        ("var/lib/", "var/lib"),
        (".", "."),
        ("./", "."),
        ("./.", "."),
        ("./var//lib", "./var/lib"),
        ("var/./lib", "var/lib"),
        ("..", ".."),
        (".var", ".var"),
    ];
    for (path, key) in cases {
        assert_eq!(String::from_utf8(key_of(path.as_bytes())).unwrap(), key, "{path:?}");
        // Two paths have one key exactly when they are equal as paths.
        for (other, other_key) in cases {
            assert_eq!(
                std::path::Path::new(path) == std::path::Path::new(other),
                key == other_key,
                "{path:?} {other:?}"
            );
        }
    }
}

#[test]
fn components_are_pushed_with_one_separator() {
    for (path, name, expected) in
        [("/var", "lib", "/var/lib"), ("/var/", "lib", "/var/lib"), ("", "lib", "lib"), ("/", "var", "/var"), ("a", "", "a/")]
    {
        let mut dir = path.as_bytes().to_vec();
        push_component(&mut dir, name.as_bytes());
        assert_eq!(String::from_utf8(dir).unwrap(), expected);
        let mut same = std::path::PathBuf::from(path);
        same.push(name);
        assert_eq!(same.as_os_str().to_str().unwrap(), expected);
    }
}

#[test]
fn existing_entries_are_found_under_any_spelling() {
    let mut map = ExistingEntries::new();
    assert!(!map.contains_key(b"/var/lib"));
    map.insert(b"/var/lib/", "d /var/lib/ 0755 - - -".to_string());
    map.insert(b"/var/log", "d /var/log 0755 - - -".to_string());
    map.insert(b"/var/a", "d /var/a 0755 - - -".to_string());
    map.insert(b"/var//log", "d /var//log 0700 - - -".to_string());
    assert!(map.contains_key(b"/var/lib"));
    assert!(map.contains_key(b"/var/lib/"));
    assert!(map.contains_key(b"/var/./lib"));
    assert!(map.contains_key(b"/var/log"));
    assert!(map.contains_key(b"/var/a"));
    assert!(!map.contains_key(b"/var/li"));
    assert!(!map.contains_key(b"/var/lib/x"));
    assert!(!map.contains_key(b"var/lib"));
    assert!(!map.contains_key(b"/var"));
    assert_eq!(map.get(b"/var/lib").unwrap(), "d /var/lib/ 0755 - - -");
    assert_eq!(map.get(b"/var/log/").unwrap(), "d /var//log 0700 - - -");
    assert_eq!(map.get(b"/var/a").unwrap(), "d /var/a 0755 - - -");
    assert_eq!(map.get(b"/var/b"), None);
    let mut twice = ExistingEntries::new();
    twice.insert(b"/var/log", "d /var//log 0700 - - -".to_string());
    twice.insert(b"/var/a", "d /var/a 0755 - - -".to_string());
    twice.insert(b"/var/lib", "d /var/lib/ 0755 - - -".to_string());
    assert_eq!(map, twice);
}

#[test]
fn names_of_configuration_files() {
    for (name, conf, generated) in [
        ("systemd.conf", true, false),
        ("bootc-autogenerated-var-0.conf", true, true),
        ("bootc-autogenerated-var-12.conf", true, true),
        ("bootc-autogenerated-var.conf", true, true),
        ("bootc-autogenerated-variety.conf", true, true),
        ("bootc-autogenerated-va.conf", true, false),
        ("xbootc-autogenerated-var-0.conf", true, false),
        ("bootc-autogenerated-var-0.conf.bak", false, false),
        ("bootc-autogenerated-var-0", false, false),
        ("bootc-autogenerated-var-0.CONF", false, false),
        ("README", false, false),
        ("conf", false, false),
        ("a.conf", true, false),
        (".conf", true, false),
        ("", false, false),
    ] {
        assert_eq!(is_conf_name(name.as_bytes()), conf, "{name}");
        assert_eq!(is_generated_name(name.as_bytes()), generated, "{name}");
    }
    assert!(is_generated_name(b"bootc-autogenerated-var-\xff.conf"));
}

#[test]
fn generations_are_counted_and_named() {
    assert_eq!(TMPFILESD, "usr/lib/tmpfiles.d");
    assert_eq!(BOOTC_GENERATED_PREFIX, "bootc-autogenerated-var");
    let mut generation = BootcTmpfilesGeneration::default();
    assert_eq!(generation, BootcTmpfilesGeneration(0));
    assert_eq!(generation.path(), "usr/lib/tmpfiles.d/bootc-autogenerated-var-0.conf");
    generation.increment();
    assert_eq!(generation, BootcTmpfilesGeneration(1));
    assert_eq!(generation.path(), "usr/lib/tmpfiles.d/bootc-autogenerated-var-1.conf");
    assert_eq!(
        BootcTmpfilesGeneration(u32::MAX).path(),
        "usr/lib/tmpfiles.d/bootc-autogenerated-var-4294967295.conf"
    );
    for n in [0, 9, 10, 123456] {
        let path = BootcTmpfilesGeneration(n).path();
        let name = path.strip_prefix("usr/lib/tmpfiles.d/").unwrap();
        assert!(is_generated_name(name.as_bytes()));
    }
}

#[test]
fn a_scan_counts_generations_and_collects_paths() {
    let mut found = TmpfilesScan::new();
    assert_eq!(found.generation, BootcTmpfilesGeneration(0));
    assert!(!found.note_file(b"README"));
    assert!(found.note_file(b"systemd.conf"));
    assert_eq!(found.generation, BootcTmpfilesGeneration(0));
    assert_eq!(found.note_line(""), Ok(()));
    assert_eq!(found.note_line("# d /var/commented 0755 - - -"), Ok(()));
    assert_eq!(found.note_line("#"), Ok(()));
    assert_eq!(found.note_line("d /var/lib 0755 - - -"), Ok(()));
    assert_eq!(found.note_line("a+ \"/var/with space\" - - - - x"), Ok(()));
    assert!(found.note_file(b"bootc-autogenerated-var-0.conf"));
    assert_eq!(found.generation, BootcTmpfilesGeneration(1));
    assert_eq!(found.note_line("d /var/lib/\\x41 0755 - - -"), Ok(()));
    assert!(found.note_file(b"bootc-autogenerated-var-1.conf"));
    assert_eq!(found.generation, BootcTmpfilesGeneration(2));
    assert_eq!(found.generation.path(), "usr/lib/tmpfiles.d/bootc-autogenerated-var-2.conf");
    assert!(found.existing.contains_key(b"/var/lib"));
    assert!(found.existing.contains_key(b"/var/with space"));
    assert!(found.existing.contains_key(b"/var/lib/A"));
    assert!(!found.existing.contains_key(b"/var/commented"));

    let before = TmpfilesScan { existing: ExistingEntries::new(), generation: BootcTmpfilesGeneration(0) };
    for bad in [" ", "d /var/x\\", "d \"/var/x"] {
        let mut found = TmpfilesScan::new();
        assert_eq!(found.note_line(bad), Err(Error::MalformedTmpfilesEntry(bad.to_string())), "{bad:?}");
        assert_eq!(found, before);
    }
    let mut found = TmpfilesScan::new();
    assert_eq!(found.note_line(" #x y"), Ok(()));
    assert!(found.existing.contains_key(b"y"));
}

#[test]
fn later_lines_replace_earlier_ones() {
    let mut one = TmpfilesScan::new();
    one.note_line("d /var/lib 0755 - - -").unwrap();
    one.note_line("d /var/lib/ 0700 - - -").unwrap();
    let mut other = TmpfilesScan::new();
    other.note_line("d /var/lib/ 0700 - - -").unwrap();
    assert_eq!(one, other);
}

#[test]
fn preconditions() {
    assert_eq!(check_var_run(None), Ok(()));
    assert_eq!(check_var_run(Some(true)), Ok(()));
    assert_eq!(check_var_run(Some(false)), Err(Error::FoundVarRunNonSymlink));
    assert_eq!(check_tmpfiles_dir(true), Ok(()));
    assert_eq!(check_tmpfiles_dir(false), Err(Error::MissingTmpfilesDir));
}

fn result_of(lines: &[&str], unsupported: &[&str]) -> TmpfilesResult {
    TmpfilesResult {
        tmpfiles: set_of(lines),
        unsupported: unsupported.iter().map(|path| path.as_bytes().to_vec()).collect(),
    }
}

#[test]
fn summaries() {
    assert_eq!(TmpfilesWrittenResult::default(), TmpfilesWrittenResult { generated: None, unsupported: 0 });
    let nothing = result_of(&[], &["var/a", "var/b"]);
    assert_eq!(summarize(&nothing, &BootcTmpfilesGeneration(3)), TmpfilesWrittenResult::default());
    let something = result_of(&["d /var/b 0755 u g - -", "d /var/a 0755 u g - -"], &["var/c"]);
    assert_eq!(
        summarize(&something, &BootcTmpfilesGeneration(3)),
        TmpfilesWrittenResult {
            generated: Some((2, "usr/lib/tmpfiles.d/bootc-autogenerated-var-3.conf".to_string())),
            unsupported: 1,
        }
    );
}

#[test]
fn the_file_holds_entries_then_comments() {
    assert_eq!(MAX_SAMPLES, 5);
    let entries = set_of(&["d /var/b 0755 u g - -", "L /var/a - - - - b"]);
    let ignored = |n: usize| -> Vec<String> { (0..n).map(|i| format!("\"var/f{i}\"")).collect() };
    assert_eq!(render_tmpfiles(&entries, &ignored(0)), "L /var/a - - - - b\nd /var/b 0755 u g - -\n");
    assert_eq!(render_tmpfiles(&EntrySet::new(), &ignored(0)), "");
    assert_eq!(
        render_tmpfiles(&entries, &ignored(2)),
        "L /var/a - - - - b\nd /var/b 0755 u g - -\n# bootc ignored: \"var/f0\"\n# bootc ignored: \"var/f1\"\n"
    );
    let five = "# bootc ignored: \"var/f0\"\n# bootc ignored: \"var/f1\"\n# bootc ignored: \"var/f2\"\n# bootc ignored: \"var/f3\"\n# bootc ignored: \"var/f4\"\n";
    assert_eq!(render_tmpfiles(&EntrySet::new(), &ignored(5)), five);
    assert_eq!(
        render_tmpfiles(&EntrySet::new(), &ignored(6)),
        format!("{five}# bootc ignored: ...and 1 more\n")
    );
    assert_eq!(
        render_tmpfiles(&entries, &ignored(128)),
        format!("L /var/a - - - - b\nd /var/b 0755 u g - -\n{five}# bootc ignored: ...and 123 more\n")
    );
}
