use std::io::Read;

use xrnx_release::archive::{build_archive, ArchiveEntry, ENTRY_MODE};
use xrnx_release::collect::select_scripts;
use xrnx_release::manifest::{Manifest, ManifestError, RequiredField};
use xrnx_release::patch::{patch_manifest, PatchError};
use xrnx_release::release::{
    archive_name, manifest_source, prepare_release, readme_source, release_entries, release_files,
    Layout, ReleaseError, SourceFile,
};
use xrnx_release::version::{bump_version, normalize_version, parse_version, BumpError};

fn names(v: &[&str]) -> Vec<String> {
    v.iter().map(|s| s.to_string()).collect()
}

fn manifest(id: Option<&str>, version: Option<&str>) -> Manifest {
    Manifest {
        id: id.map(|s| s.to_string()),
        version: version.map(|s| s.to_string()),
        ..Manifest::default()
    }
}

fn bumped(s: &str) -> String {
    bump_version(s).unwrap()
}

#[test]
fn bump_single_component() {
    assert_eq!(bumped("2"), "2.1.0");
}

#[test]
fn bump_two_components() {
    assert_eq!(bumped("1.4"), "1.5.0");
}

#[test]
fn bump_keeps_patch_with_prerelease() {
    assert_eq!(bumped("1.2.3-beta"), "1.3.3-beta");
}

#[test]
fn bump_keeps_patch_with_build() {
    assert_eq!(bumped("1.2.3+build5"), "1.3.3+build5");
}

#[test]
fn bump_resets_patch_without_suffix() {
    assert_eq!(bumped("1.2.3"), "1.3.0");
    assert_eq!(bumped("10.99.7"), "10.100.0");
}

#[test]
fn bump_release_candidate() {
    assert_eq!(bumped("3.4.5-rc1"), "3.5.5-rc1");
}

#[test]
fn bump_minor_past_nine() {
    assert_eq!(bumped("0.9"), "0.10.0");
}

#[test]
fn bump_padding_matches_full_form() {
    assert_eq!(bumped("1"), bumped("1.0.0"));
    assert_eq!(bumped("1.2"), bumped("1.2.0"));
    assert_eq!(bumped("1.2"), "1.3.0");
}

#[test]
fn bump_padded_with_suffix() {
    assert_eq!(bumped("1-alpha"), "1.1.0-alpha");
    assert_eq!(bumped("1.2+b7"), "1.3.0+b7");
}

#[test]
fn bump_trailing_dot() {
    assert_eq!(bumped("1."), "1.1.0");
}

#[test]
fn bump_rejects_four_components() {
    assert!(matches!(bump_version("1.2.3.4"), Err(BumpError::InvalidVersion(_))));
}

#[test]
fn bump_rejects_non_numeric() {
    assert!(matches!(bump_version("a.b"), Err(BumpError::InvalidVersion(_))));
    assert!(matches!(bump_version(""), Err(BumpError::InvalidVersion(_))));
    assert!(matches!(bump_version("01.2"), Err(BumpError::InvalidVersion(_))));
}

#[test]
fn bump_minor_overflow() {
    assert!(matches!(
        bump_version("1.18446744073709551615.0"),
        Err(BumpError::MinorOverflow)
    ));
}

#[test]
fn normalize_pads_and_keeps_suffix() {
    assert_eq!(normalize_version("1-rc").unwrap(), "1.0.0-rc");
    assert_eq!(normalize_version("1.2..").unwrap(), "1.2.0");
    assert_eq!(normalize_version("7").unwrap(), "7.0.0");
    assert!(normalize_version("1.2.3").is_none());
    assert!(normalize_version("").is_none());
}

#[test]
fn parse_version_fields() {
    let v = parse_version("4.5-pre.1+meta").unwrap();
    assert_eq!((v.major, v.minor, v.patch), (4, 5, 0));
    assert_eq!(v.pre, "pre.1");
    assert_eq!(v.build, "meta");
}

const TEXT: &str = "<?xml version=\"1.0\"?>\n<!-- keep -->\n<RenoiseScriptingTool doc_version=\"0\">\n  <Id>MyTool</Id>\n  <Version>0.9</Version>\n  <Name>My  Tool</Name>\n</RenoiseScriptingTool>\n";

#[test]
fn patch_replaces_only_version_field() {
    let out = patch_manifest(TEXT, "0.9", "0.10.0").unwrap();
    assert_eq!(out, TEXT.replace("<Version>0.9</Version>", "<Version>0.10.0</Version>"));
}

#[test]
fn patch_replaces_first_occurrence_only() {
    let text = "<Version>1</Version> x <Version>1</Version>";
    let out = patch_manifest(text, "1", "1.1.0").unwrap();
    assert_eq!(out, "<Version>1.1.0</Version> x <Version>1</Version>");
}

#[test]
fn patch_keeps_non_ascii_text() {
    let text = "<Name>Ünïcødé ✓</Name><Version>2</Version>é";
    let out = patch_manifest(text, "2", "2.1.0").unwrap();
    assert_eq!(out, "<Name>Ünïcødé ✓</Name><Version>2.1.0</Version>é");
}

#[test]
fn patch_mismatch_is_an_error() {
    let text = "<Version> 0.9 </Version>";
    assert_eq!(patch_manifest(text, "0.9", "0.10.0"), Err(PatchError::PatchMismatch));
}

#[test]
fn required_fields_present() {
    let m = manifest(Some("MyTool"), Some("0.9"));
    let (id, v) = m.required_fields().unwrap();
    assert_eq!(id, "MyTool");
    assert_eq!(v, "0.9");
}

#[test]
fn required_fields_missing_id() {
    let m = manifest(None, Some("0.9"));
    assert!(matches!(
        m.required_fields(),
        Err(ManifestError::MissingField(RequiredField::Id))
    ));
    assert_eq!(RequiredField::Id.name(), "Id");
}

#[test]
fn required_fields_blank_version() {
    let m = manifest(Some("MyTool"), Some(" \n\t"));
    assert!(matches!(
        m.required_fields(),
        Err(ManifestError::MissingField(RequiredField::Version))
    ));
    let m = manifest(Some(""), None);
    assert!(matches!(
        m.required_fields(),
        Err(ManifestError::MissingField(RequiredField::Id))
    ));
    assert_eq!(RequiredField::Version.name(), "Version");
}

#[test]
fn scripts_sorted_and_filtered() {
    let got = select_scripts(&names(&[
        "main.lua", "b.lua", ".lua", "a.lua", "x.luac", "README.md", "b.lua", "Z.lua",
    ]));
    assert_eq!(got, names(&["Z.lua", "a.lua", "b.lua", "main.lua"]));
}

#[test]
fn scripts_ignore_listing_order() {
    let a = select_scripts(&names(&["c.lua", "a.lua", "b.lua"]));
    let b = select_scripts(&names(&["b.lua", "c.lua", "a.lua"]));
    assert_eq!(a, b);
    assert!(select_scripts(&names(&[])).is_empty());
}

#[test]
fn readme_prefers_lower_case() {
    assert_eq!(readme_source(&names(&["README.md", "readme.md"])).unwrap(), "readme.md");
    assert_eq!(readme_source(&names(&["README.md"])).unwrap(), "README.md");
    assert!(readme_source(&names(&["Readme.md", "a.lua"])).is_none());
}

#[test]
fn release_files_scenario() {
    let files = release_files(&names(&["manifest.xml", "b.lua", "README.md", "a.lua"]));
    let pairs: Vec<(String, String)> = files.into_iter().map(|f| (f.source, f.name)).collect();
    let want: Vec<(String, String)> = [
        ("a.lua", "a.lua"),
        ("b.lua", "b.lua"),
        ("README.md", "README.md"),
        ("manifest.xml", "manifest.xml"),
    ]
    .iter()
    .map(|(a, b)| (a.to_string(), b.to_string()))
    .collect();
    assert_eq!(pairs, want);
}

#[test]
fn release_files_without_sources() {
    let files = release_files(&names(&["readme.md"]));
    assert_eq!(files.len(), 2);
    assert_eq!(files[0].source, "readme.md");
    assert_eq!(files[0].name, "README.md");
    assert_eq!(files[1].name, "manifest.xml");
}

#[test]
fn archive_name_has_extension() {
    assert_eq!(archive_name("MyTool"), "MyTool.xrnx");
}

fn sample_files() -> Vec<SourceFile> {
    vec![
        SourceFile { name: "a.lua".to_string(), data: b"print('a')".to_vec() },
        SourceFile { name: "b.lua".to_string(), data: Vec::new() },
    ]
}

#[test]
fn entries_flat_layout() {
    let es = release_entries("MyTool", Layout::Flat, &sample_files());
    assert_eq!(es.len(), 2);
    assert_eq!(es[0].path, "a.lua");
    assert_eq!(es[0].data, b"print('a')".to_vec());
    assert!(!es[0].is_dir);
    assert_eq!(es[1].mode, ENTRY_MODE);
}

#[test]
fn entries_wrapped_layout() {
    let es = release_entries("MyTool", Layout::Wrapped, &sample_files());
    assert_eq!(es.len(), 3);
    assert_eq!(es[0].path, "MyTool.xrnx/");
    assert!(es[0].is_dir);
    assert_eq!(es[1].path, "MyTool.xrnx/a.lua");
    assert_eq!(es[2].path, "MyTool.xrnx/b.lua");
}

fn read_back(bytes: &[u8]) -> Vec<(String, bool, Vec<u8>)> {
    let mut z = zip::ZipArchive::new(std::io::Cursor::new(bytes.to_vec())).unwrap();
    let mut out = Vec::new();
    for i in 0..z.len() {
        let mut f = z.by_index(i).unwrap();
        let mut data = Vec::new();
        f.read_to_end(&mut data).unwrap();
        out.push((f.name().to_string(), f.is_dir(), data));
    }
    out
}

#[test]
fn archive_round_trip() {
    let es = release_entries("MyTool", Layout::Wrapped, &sample_files());
    let bytes = build_archive(&es).unwrap();
    let got = read_back(&bytes);
    assert_eq!(got.len(), 3);
    assert_eq!(got[0], ("MyTool.xrnx/".to_string(), true, Vec::new()));
    assert_eq!(got[1], ("MyTool.xrnx/a.lua".to_string(), false, b"print('a')".to_vec()));
    assert_eq!(got[2], ("MyTool.xrnx/b.lua".to_string(), false, Vec::new()));
}

#[test]
fn archive_directory_name_gets_slash() {
    let es = vec![ArchiveEntry { path: "d".to_string(), is_dir: true, data: Vec::new(), mode: ENTRY_MODE }];
    let got = read_back(&build_archive(&es).unwrap());
    assert_eq!(got[0].0, "d/");
}

#[test]
fn archive_is_reproducible() {
    let a = build_archive(&release_entries("T", Layout::Flat, &sample_files())).unwrap();
    let b = build_archive(&release_entries("T", Layout::Flat, &sample_files())).unwrap();
    assert_eq!(a, b);
}

#[test]
fn prepare_release_scenario() {
    let m = manifest(Some("MyTool"), Some("0.9"));
    let p = prepare_release(TEXT, &m).unwrap();
    assert_eq!(p.new_version, "0.10.0");
    assert_eq!(p.old_version, "0.9");
    assert_eq!(p.archive_name, "MyTool.xrnx");
    assert!(p.manifest_text.contains("<Version>0.10.0</Version>"));
    assert!(!p.manifest_text.contains("<Version>0.9</Version>"));
    let mf = manifest_source(&p);
    assert_eq!(mf.name, "manifest.xml");
    assert_eq!(mf.data, p.manifest_text.as_bytes().to_vec());

    let mut files: Vec<SourceFile> = vec![
        SourceFile { name: "a.lua".to_string(), data: b"-- a".to_vec() },
        SourceFile { name: "b.lua".to_string(), data: b"-- b".to_vec() },
        SourceFile { name: "README.md".to_string(), data: b"# readme".to_vec() },
    ];
    files.push(mf);
    let bytes = build_archive(&release_entries(&p.id, Layout::Flat, &files)).unwrap();
    let got = read_back(&bytes);
    let got_names: Vec<&str> = got.iter().map(|e| e.0.as_str()).collect();
    assert_eq!(got_names, vec!["a.lua", "b.lua", "README.md", "manifest.xml"]);
    assert_eq!(got[3].2, p.manifest_text.as_bytes().to_vec());
}

#[test]
fn prepare_release_prerelease_scenario() {
    let text = "<X><Id>T</Id><Version>3.4.5-rc1</Version></X>";
    let p = prepare_release(text, &manifest(Some("T"), Some("3.4.5-rc1"))).unwrap();
    assert_eq!(p.new_version, "3.5.5-rc1");
    assert_eq!(p.manifest_text, "<X><Id>T</Id><Version>3.5.5-rc1</Version></X>");
}

#[test]
fn prepare_release_missing_id() {
    let r = prepare_release(TEXT, &manifest(None, Some("0.9")));
    assert!(matches!(
        r,
        Err(ReleaseError::Manifest(ManifestError::MissingField(RequiredField::Id)))
    ));
}

#[test]
fn prepare_release_invalid_version() {
    let r = prepare_release("<Version>1.2.3.4</Version>", &manifest(Some("T"), Some("1.2.3.4")));
    assert!(matches!(r, Err(ReleaseError::Version(BumpError::InvalidVersion(_)))));
}

#[test]
fn prepare_release_patch_mismatch() {
    let r = prepare_release("<Version>\n0.9\n</Version>", &manifest(Some("T"), Some("0.9")));
    assert!(matches!(r, Err(ReleaseError::Patch(PatchError::PatchMismatch))));
}

#[test]
fn required_fields_unicode_blank_id() {
    let m = manifest(Some("\u{a0}\u{3000}"), Some("1.0.0"));
    assert!(matches!(
        m.required_fields(),
        Err(ManifestError::MissingField(RequiredField::Id))
    ));
}

#[test]
fn optional_fields_are_text() {
    let m = Manifest {
        api_version: Some("six".to_string()),
        doc_version: Some("0".to_string()),
        ..manifest(Some("T"), Some("1"))
    };
    assert!(m.required_fields().is_ok());
}

#[test]
fn archive_without_scripts() {
    let m = manifest(Some("MyTool"), Some("1.0"));
    let p = prepare_release("<Version>1.0</Version>", &m).unwrap();
    let files = vec![manifest_source(&p)];
    let es = release_entries(&p.id, Layout::Wrapped, &files);
    let got = read_back(&build_archive(&es).unwrap());
    assert_eq!(got.len(), 2);
    assert_eq!(got[0].0, "MyTool.xrnx/");
    assert_eq!(got[1].0, "MyTool.xrnx/manifest.xml");
    assert_eq!(got[1].2, b"<Version>1.1.0</Version>".to_vec());
}

#[test]
fn archive_empty_first_file() {
    let es = vec![
        ArchiveEntry { path: "e.lua".to_string(), is_dir: false, data: Vec::new(), mode: ENTRY_MODE },
        ArchiveEntry { path: "f.lua".to_string(), is_dir: false, data: b"x".to_vec(), mode: ENTRY_MODE },
    ];
    let got = read_back(&build_archive(&es).unwrap());
    assert_eq!(got[0], ("e.lua".to_string(), false, Vec::new()));
    assert_eq!(got[1], ("f.lua".to_string(), false, b"x".to_vec()));
}

#[test]
fn archive_of_nothing_is_valid() {
    let got = read_back(&build_archive(&Vec::new()).unwrap());
    assert!(got.is_empty());
}
