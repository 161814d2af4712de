use rmskin_installer::classify::parse_zip_item;
use rmskin_installer::engine::run_install;
use rmskin_installer::engine::ArchiveEntry;
use rmskin_installer::engine::create_backup;
use rmskin_installer::engine::keep_variables;
use rmskin_installer::engine::move_skins;
use rmskin_installer::engine::stage_entries;
use rmskin_installer::errors::InstallError;
use rmskin_installer::fstree::FsTree;
use rmskin_installer::inireader::parse_config;
use rmskin_installer::inireader::read_manifest;
use rmskin_installer::inireader::resolve_skins_path;
use rmskin_installer::manifest::manifest_from_values;
use rmskin_installer::plan::build_plan;
use rmskin_installer::variables::pair_section;
use rmskin_installer::variables::preserve_variables;
use rmskin_installer::winini::scan_section;

fn segs(parts: &[&str]) -> Vec<String> {
    parts.iter().map(|p| p.to_string()).collect()
}

fn units(s: &str) -> Vec<u16> {
    s.encode_utf16().collect()
}

fn unitsz(s: &str) -> Vec<u16> {
    let mut v = units(s);
    v.push(0);
    v
}

fn utf16le_with_bom(s: &str) -> Vec<u8> {
    let mut v = vec![0xffu8, 0xfeu8];
    for u in s.encode_utf16() {
        v.push((u & 0xff) as u8);
        v.push((u >> 8) as u8);
    }
    v
}

#[test]
fn classifier_deep_paths() {
    let (c, n, e) = parse_zip_item("Skins/Demo/sub/file.ini");
    assert_eq!(c, "Skins");
    assert_eq!(n, "Demo");
    assert_eq!(e, "ini");
    let (c, n, e) = parse_zip_item("Plugins/64bit/Foo.dll");
    assert_eq!(c, "Plugins");
    assert_eq!(n, "64bit");
    assert_eq!(e, "dll");
}

#[test]
fn classifier_flat_paths() {
    let (c, n, e) = parse_zip_item("RMSKIN.ini");
    assert_eq!(c, "");
    assert_eq!(n, "RMSKIN.ini");
    assert_eq!(e, "");
    let (c, n, e) = parse_zip_item("folder/file.txt");
    assert_eq!(c, "");
    assert_eq!(n, "folder");
    assert_eq!(e, "txt");
}

#[test]
fn classifier_extension_edges() {
    let (_, _, e) = parse_zip_item("a/b/.gitignore");
    assert_eq!(e, "");
    let (_, _, e) = parse_zip_item("a/b/name.");
    assert_eq!(e, "");
    let (_, _, e) = parse_zip_item("a/b/archive.tar.gz");
    assert_eq!(e, "gz");
}

#[test]
fn plan_deduplicates_names() {
    let paths = segs(&[
        "RMSKIN.ini",
        "Skins/Demo/a.ini",
        "Skins/Demo/b.ini",
        "Skins/Other/x.ini",
        "Layouts/L1/layout.ini",
        "Layouts/L1/more.ini",
        "Plugins/64bit/Foo.dll",
        "Plugins/64bit/Foo.dll",
    ]);
    let plan = build_plan(&paths).unwrap();
    assert_eq!(plan.skins, vec!["Demo".to_string(), "Other".to_string()]);
    assert_eq!(plan.layouts, vec!["L1".to_string()]);
    assert_eq!(plan.plugins, vec!["Foo.dll".to_string()]);
}

#[test]
fn plan_sorts_names() {
    let paths = segs(&[
        "RMSKIN.ini",
        "Skins/Zeta/a.ini",
        "Skins/Alpha/a.ini",
        "Skins/Middle/a.ini",
        "Skins/Alpha/b.ini",
    ]);
    let plan = build_plan(&paths).unwrap();
    assert_eq!(
        plan.skins,
        vec!["Alpha".to_string(), "Middle".to_string(), "Zeta".to_string()]
    );
}

#[test]
fn plan_skips_32bit_plugins() {
    let paths = segs(&["RMSKIN.ini", "Plugins/32bit/Foo.dll", "Plugins/64bit/Bar.dll"]);
    let plan = build_plan(&paths).unwrap();
    assert_eq!(plan.plugins, vec!["Bar.dll".to_string()]);
}

#[test]
fn plan_reports_missing_manifest() {
    let paths = segs(&["Skins/Demo/a.ini"]);
    assert_eq!(build_plan(&paths).unwrap_err(), InstallError::ManifestMissing);
}

#[test]
fn scan_section_splits_keys_and_values() {
    let mut buf = units("A=1");
    buf.push(0);
    buf.extend(units("B=two"));
    buf.push(0);
    buf.push(0);
    let (keys, values) = scan_section(&buf);
    assert_eq!(keys, vec![unitsz("A"), unitsz("B")]);
    assert_eq!(values, vec![unitsz("1"), unitsz("two")]);
}

#[test]
fn scan_section_tolerates_absent_section() {
    let buf = vec![0u16, 0u16];
    let (keys, values) = scan_section(&buf);
    assert!(keys.is_empty());
    assert!(values.is_empty());
}

#[test]
fn scan_section_keeps_equals_inside_value() {
    let mut buf = units("A=x=y");
    buf.push(0);
    buf.push(0);
    let (keys, values) = scan_section(&buf);
    assert_eq!(keys, vec![unitsz("A")]);
    assert_eq!(values, vec![unitsz("x=y")]);
}

#[test]
fn scan_section_drops_line_without_equals() {
    let mut buf = units("stray");
    buf.push(0);
    buf.extend(units("A=1"));
    buf.push(0);
    buf.push(0);
    let (keys, values) = scan_section(&buf);
    assert_eq!(keys, vec![unitsz("A")]);
    assert_eq!(values, vec![unitsz("1")]);
}

#[test]
fn scan_section_value_with_special_characters() {
    let mut buf = units("K=a;b\"c");
    buf.push(0);
    buf.push(0);
    let (keys, values) = scan_section(&buf);
    assert_eq!(keys, vec![unitsz("K")]);
    assert_eq!(values, vec![unitsz("a;b\"c")]);
}

#[test]
fn variable_preservation_round_trip() {
    let new_pairs = vec![
        (unitsz("A"), unitsz("default")),
        (unitsz("C"), unitsz("three")),
    ];
    let old_pairs = vec![(unitsz("A"), unitsz("1")), (unitsz("B"), unitsz("two"))];
    let merged = preserve_variables(new_pairs, &old_pairs);
    assert_eq!(
        merged,
        vec![
            (unitsz("A"), unitsz("1")),
            (unitsz("C"), unitsz("three")),
            (unitsz("B"), unitsz("two")),
        ]
    );
}

#[test]
fn pair_section_zips_to_shorter_list() {
    let keys = vec![unitsz("A"), unitsz("B")];
    let values = vec![unitsz("1")];
    let pairs = pair_section(&keys, &values);
    assert_eq!(pairs, vec![(unitsz("A"), unitsz("1"))]);
}

#[test]
fn manifest_values_parse() {
    let m = manifest_from_values(
        Some("Skin".to_string()),
        Some("Demo/Demo.ini".to_string()),
        Some("Demo/vars.ini | Other/v.ini".to_string()),
        Some("1".to_string()),
    );
    assert_eq!(m.load_type.as_deref(), Some("Skin"));
    assert_eq!(m.load.as_deref(), Some("Demo/Demo.ini"));
    assert_eq!(
        m.variable_files,
        vec!["Demo/vars.ini".to_string(), "Other/v.ini".to_string()]
    );
    assert!(m.merge_skins);
    let m2 = manifest_from_values(None, None, None, Some("0".to_string()));
    assert!(!m2.merge_skins);
    assert!(m2.variable_files.is_empty());
}

#[test]
fn merge_copy_reports_missing_source() {
    let mut t = FsTree::new();
    let r = t.merge_copy(&segs(&["nowhere"]), &segs(&["dest"]));
    assert_eq!(r.unwrap_err(), InstallError::SourceNotDirectory);
}

#[test]
fn merge_copy_reports_file_destination() {
    let mut t = FsTree::new();
    t.create_dir_all(&segs(&["src"])).unwrap();
    t.insert_file(&segs(&["dest"]), b"x".to_vec()).unwrap();
    let r = t.merge_copy(&segs(&["src"]), &segs(&["dest"]));
    assert_eq!(r.unwrap_err(), InstallError::DestinationIsFile);
}

#[test]
fn create_dir_all_reports_file_in_the_way() {
    let mut t = FsTree::new();
    t.insert_file(&segs(&["a"]), b"x".to_vec()).unwrap();
    let r = t.create_dir_all(&segs(&["a", "b"]));
    assert_eq!(r.unwrap_err(), InstallError::IoFailure);
}

#[test]
fn merge_copy_overwrites_and_keeps() {
    let mut t = FsTree::new();
    t.insert_file(&segs(&["src", "a.txt"]), b"new".to_vec()).unwrap();
    t.insert_file(&segs(&["dest", "a.txt"]), b"old".to_vec()).unwrap();
    t.insert_file(&segs(&["dest", "keep.txt"]), b"keep".to_vec()).unwrap();
    t.merge_copy(&segs(&["src"]), &segs(&["dest"])).unwrap();
    assert_eq!(t.read_file(&segs(&["dest", "a.txt"])), Some(b"new".to_vec()));
    assert_eq!(t.read_file(&segs(&["dest", "keep.txt"])), Some(b"keep".to_vec()));
}

#[test]
fn merge_copy_twice_equals_once() {
    let mut once = FsTree::new();
    once.insert_file(&segs(&["src", "d", "a.txt"]), b"v".to_vec()).unwrap();
    once.insert_file(&segs(&["dest", "b.txt"]), b"w".to_vec()).unwrap();
    let mut twice = FsTree::new();
    twice.insert_file(&segs(&["src", "d", "a.txt"]), b"v".to_vec()).unwrap();
    twice.insert_file(&segs(&["dest", "b.txt"]), b"w".to_vec()).unwrap();
    once.merge_copy(&segs(&["src"]), &segs(&["dest"])).unwrap();
    twice.merge_copy(&segs(&["src"]), &segs(&["dest"])).unwrap();
    twice.merge_copy(&segs(&["src"]), &segs(&["dest"])).unwrap();
    for p in [
        segs(&["dest", "d", "a.txt"]),
        segs(&["dest", "b.txt"]),
        segs(&["src", "d", "a.txt"]),
    ] {
        assert_eq!(once.read_file(&p), twice.read_file(&p));
    }
    assert_eq!(once.is_dir(&segs(&["dest", "d"])), twice.is_dir(&segs(&["dest", "d"])));
}

#[test]
fn backup_keeps_replaced_files() {
    let mut t = FsTree::new();
    t.insert_file(&segs(&["home", "Skins", "Demo", "old.ini"]), b"mine".to_vec()).unwrap();
    t.insert_file(&segs(&["tmp", "Skins", "Demo", "Demo.ini"]), b"fresh".to_vec()).unwrap();
    let plan = build_plan(&segs(&["RMSKIN.ini", "Skins/Demo/Demo.ini"])).unwrap();
    create_backup(&mut t, &plan, &segs(&["home", "Skins"])).unwrap();
    move_skins(&mut t, &plan, &segs(&["tmp"]), &segs(&["home", "Skins"])).unwrap();
    assert_eq!(
        t.read_file(&segs(&["home", "Skins", "@Backup", "Demo", "old.ini"])),
        Some(b"mine".to_vec())
    );
    assert_eq!(
        t.read_file(&segs(&["home", "Skins", "Demo", "Demo.ini"])),
        Some(b"fresh".to_vec())
    );
    assert_eq!(t.read_file(&segs(&["home", "Skins", "Demo", "old.ini"])), None);
}

#[test]
fn stage_entries_skips_unloadable_plugins() {
    let entries = vec![
        ArchiveEntry { path: "Plugins/32bit/Foo.dll".to_string(), data: b"x".to_vec() },
        ArchiveEntry { path: "Plugins/64bit/Foo.dll".to_string(), data: b"y".to_vec() },
    ];
    let st = stage_entries(&entries).unwrap();
    assert!(st.read_file(&segs(&["Plugins", "32bit", "Foo.dll"])).is_none());
    assert_eq!(st.read_file(&segs(&["Plugins", "64bit", "Foo.dll"])), Some(b"y".to_vec()));
}

#[test]
fn parse_config_reads_utf8() {
    let bytes = b"[Rainmeter]\nSkinPath=C:\\Skins\n".to_vec();
    let doc = parse_config(&bytes).unwrap();
    assert_eq!(resolve_skins_path(&doc, "C:\\Users\\me"), "C:\\Skins");
}

#[test]
fn parse_config_falls_back_to_utf16() {
    let bytes = utf16le_with_bom("[Rainmeter]\r\nSkinPath=D:\\Skins\r\n");
    assert!(std::str::from_utf8(&bytes).is_err());
    let doc = parse_config(&bytes).unwrap();
    assert_eq!(resolve_skins_path(&doc, "C:\\Users\\me"), "D:\\Skins");
}

#[test]
fn parse_config_rejects_garbage() {
    let bytes = vec![0xffu8, 0xfe, 0x00, 0xd8];
    assert_eq!(parse_config(&bytes).unwrap_err(), InstallError::ConfigParseError);
}

#[test]
fn skins_path_falls_back_to_default() {
    let bytes = b"[Rainmeter]\nOther=1\n".to_vec();
    let doc = parse_config(&bytes).unwrap();
    assert_eq!(
        resolve_skins_path(&doc, "C:\\Users\\me"),
        "C:\\Users\\me\\Documents\\Rainmeter\\Skins\\"
    );
}

#[test]
fn manifest_is_read_from_config() {
    let bytes = b"[rmskin]\nLoadType=Skin\nLoad=Demo\\Demo.ini\nVariableFiles=Demo/v.ini | O/w.ini\nMergeSkins=1\n"
        .to_vec();
    let doc = parse_config(&bytes).unwrap();
    let m = read_manifest(&doc);
    assert_eq!(m.load_type.as_deref(), Some("Skin"));
    assert_eq!(m.load.as_deref(), Some("Demo\\Demo.ini"));
    assert_eq!(m.variable_files, vec!["Demo/v.ini".to_string(), "O/w.ini".to_string()]);
    assert!(m.merge_skins);
}

#[test]
fn keep_variables_selects_existing_files() {
    let mut t = FsTree::new();
    t.insert_file(&segs(&["home", "Skins", "Demo", "vars.ini"]), b"v".to_vec()).unwrap();
    let m = manifest_from_values(
        None,
        None,
        Some("Demo/vars.ini | Missing/v.ini".to_string()),
        None,
    );
    let pairs = keep_variables(&t, &m, &segs(&["tmp"]), &segs(&["home", "Skins"]));
    assert_eq!(pairs.len(), 1);
    assert_eq!(pairs[0].0, segs(&["home", "Skins", "Demo", "vars.ini"]));
    assert_eq!(pairs[0].1, segs(&["tmp", "Skins", "Demo", "vars.ini"]));
}

#[test]
fn install_end_to_end() {
    let mut t = FsTree::new();
    t.insert_file(&segs(&["home", "Skins", "Demo", "old.ini"]), b"mine".to_vec()).unwrap();
    let entries = vec![
        ArchiveEntry {
            path: "RMSKIN.ini".to_string(),
            data: b"[rmskin]\nMergeSkins=0\n".to_vec(),
        },
        ArchiveEntry { path: "Skins/Demo/Demo.ini".to_string(), data: b"demo".to_vec() },
        ArchiveEntry { path: "Plugins/64bit/Foo.dll".to_string(), data: b"dll".to_vec() },
        ArchiveEntry {
            path: "Layouts/MyLayout/Layout.ini".to_string(),
            data: b"layout".to_vec(),
        },
    ];
    let plan = run_install(
        &mut t,
        &entries,
        &segs(&["tmp", "stage"]),
        &segs(&["home", "Skins"]),
        &segs(&["home", "Rainmeter"]),
        false,
    )
    .unwrap();
    assert_eq!(plan.skins, vec!["Demo".to_string()]);
    assert_eq!(
        t.read_file(&segs(&["home", "Rainmeter", "Plugins", "Foo.dll"])),
        Some(b"dll".to_vec())
    );
    assert_eq!(
        t.read_file(&segs(&["home", "Rainmeter", "Layouts", "MyLayout", "Layout.ini"])),
        Some(b"layout".to_vec())
    );
    assert_eq!(
        t.read_file(&segs(&["home", "Skins", "Demo", "Demo.ini"])),
        Some(b"demo".to_vec())
    );
    assert_eq!(
        t.read_file(&segs(&["home", "Skins", "@Backup", "Demo", "old.ini"])),
        Some(b"mine".to_vec())
    );
    assert!(!t.is_dir(&segs(&["tmp", "stage"])));
}

#[test]
fn install_aborts_without_manifest() {
    let mut t = FsTree::new();
    t.insert_file(&segs(&["home", "Skins", "Demo", "old.ini"]), b"mine".to_vec()).unwrap();
    let entries = vec![ArchiveEntry {
        path: "Skins/Demo/Demo.ini".to_string(),
        data: b"demo".to_vec(),
    }];
    let r = run_install(
        &mut t,
        &entries,
        &segs(&["tmp", "stage"]),
        &segs(&["home", "Skins"]),
        &segs(&["home", "Rainmeter"]),
        false,
    );
    assert_eq!(r.unwrap_err(), InstallError::ManifestMissing);
    assert_eq!(
        t.read_file(&segs(&["home", "Skins", "Demo", "old.ini"])),
        Some(b"mine".to_vec())
    );
    assert!(!t.is_dir(&segs(&["tmp"])));
    assert!(!t.is_dir(&segs(&["home", "Rainmeter"])));
}

#[test]
fn install_merge_keeps_unrelated_files() {
    let mut t = FsTree::new();
    t.insert_file(&segs(&["home", "Skins", "Demo", "old.ini"]), b"mine".to_vec()).unwrap();
    let entries = vec![
        ArchiveEntry {
            path: "RMSKIN.ini".to_string(),
            data: b"[rmskin]\nMergeSkins=1\n".to_vec(),
        },
        ArchiveEntry { path: "Skins/Demo/Demo.ini".to_string(), data: b"demo".to_vec() },
        ArchiveEntry { path: "Plugins/64bit/Foo.dll".to_string(), data: b"dll".to_vec() },
        ArchiveEntry {
            path: "Layouts/MyLayout/Layout.ini".to_string(),
            data: b"layout".to_vec(),
        },
    ];
    run_install(
        &mut t,
        &entries,
        &segs(&["tmp", "stage"]),
        &segs(&["home", "Skins"]),
        &segs(&["home", "Rainmeter"]),
        false,
    )
    .unwrap();
    assert_eq!(
        t.read_file(&segs(&["home", "Skins", "Demo", "old.ini"])),
        Some(b"mine".to_vec())
    );
    assert_eq!(
        t.read_file(&segs(&["home", "Skins", "Demo", "Demo.ini"])),
        Some(b"demo".to_vec())
    );
    assert!(!t.is_dir(&segs(&["home", "Skins", "@Backup"])));
}

#[test]
fn install_reports_unreadable_manifest_location() {
    let mut t = FsTree::new();
    let entries = vec![ArchiveEntry {
        path: "RMSKIN.ini/x".to_string(),
        data: b"zzz".to_vec(),
    }];
    let r = run_install(
        &mut t,
        &entries,
        &segs(&["tmp", "stage"]),
        &segs(&["home", "Skins"]),
        &segs(&["home", "Rainmeter"]),
        false,
    );
    assert_eq!(r.unwrap_err(), InstallError::ConfigNotFound);
}

#[test]
fn install_succeeds_without_plugins_or_layouts() {
    let mut t = FsTree::new();
    let entries = vec![
        ArchiveEntry {
            path: "RMSKIN.ini".to_string(),
            data: b"[rmskin]\nMergeSkins=0\n".to_vec(),
        },
        ArchiveEntry { path: "Skins/Demo/Demo.ini".to_string(), data: b"demo".to_vec() },
    ];
    run_install(
        &mut t,
        &entries,
        &segs(&["tmp", "stage"]),
        &segs(&["home", "Skins"]),
        &segs(&["home", "Rainmeter"]),
        false,
    )
    .unwrap();
    assert_eq!(
        t.read_file(&segs(&["home", "Skins", "Demo", "Demo.ini"])),
        Some(b"demo".to_vec())
    );
    assert!(!t.is_dir(&segs(&["home", "Rainmeter", "Plugins"])));
    assert!(!t.is_dir(&segs(&["home", "Rainmeter", "Layouts"])));
    assert!(!t.is_dir(&segs(&["tmp", "stage"])));
}

#[test]
fn node_kinds_are_queryable() {
    let mut t = FsTree::new();
    t.insert_file(&segs(&["d", "f.txt"]), b"x".to_vec()).unwrap();
    assert!(t.is_dir(&segs(&["d"])));
    assert!(t.is_file(&segs(&["d", "f.txt"])));
    assert!(!t.is_file(&segs(&["d"])));
    assert!(!t.is_dir(&segs(&["d", "f.txt"])));
    t.remove_subtree(&segs(&["d"]));
    assert!(!t.is_dir(&segs(&["d"])));
}
