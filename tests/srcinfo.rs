use aur_mirror_meta::srcinfo_parse::{merge_props, ParsedSrcInfo};

fn props(p: &ParsedSrcInfo, k: &str) -> Option<Vec<String>> {
    p.properties.iter().find(|e| e.0 == k).map(|e| e.1.clone())
}

fn pkg_with(entries: &[(&str, &[&str])]) -> ParsedSrcInfo {
    ParsedSrcInfo {
        pkgbase: "base".to_string(),
        pkgname: "base".to_string(),
        properties: entries
            .iter()
            .map(|(k, vs)| (k.to_string(), vs.iter().map(|v| v.to_string()).collect()))
            .collect(),
    }
}

#[test]
fn sub_package_value_wins_over_base() {
    let text = "pkgbase = foo\n\tpkgdesc = base description\n\turl = https://example.org\n\npkgname = foo-bin\n\tpkgdesc = binary build\n";
    let pkgs = ParsedSrcInfo::parse(text);
    assert_eq!(pkgs.len(), 1);
    let p = &pkgs[0];
    assert_eq!(p.pkgbase, "foo");
    assert_eq!(p.pkgname, "foo-bin");
    assert_eq!(p.first_prop("pkgdesc"), Some("binary build"));
    assert_eq!(p.first_prop("url"), Some("https://example.org"));
}

#[test]
fn base_values_fill_only_missing_keys() {
    let text = "pkgbase = multi\npkgver = 2.0\ndepends = a\npkgname = multi-one\ndepends = b\npkgname = multi-two\n";
    let pkgs = ParsedSrcInfo::parse(text);
    assert_eq!(pkgs.len(), 2);
    assert_eq!(pkgs[0].pkgname, "multi-one");
    assert_eq!(pkgs[0].prop("depends"), vec!["b".to_string()]);
    assert_eq!(pkgs[0].first_prop("pkgver"), Some("2.0"));
    assert_eq!(pkgs[1].pkgname, "multi-two");
    assert_eq!(pkgs[1].prop("depends"), vec!["a".to_string()]);
    assert_eq!(pkgs[1].pkgbase, "multi");
}

#[test]
fn empty_value_keeps_key_without_values() {
    let text = "pkgbase = x\npkgname = x\ndepends =\n";
    let pkgs = ParsedSrcInfo::parse(text);
    assert_eq!(pkgs.len(), 1);
    assert_eq!(props(&pkgs[0], "depends"), Some(vec![]));
    assert_eq!(pkgs[0].first_prop("depends"), None);
}

#[test]
fn empty_and_blank_input_give_no_package() {
    assert!(ParsedSrcInfo::parse("").is_empty());
    assert!(ParsedSrcInfo::parse("  \n\t\n   ").is_empty());
}

#[test]
fn lines_before_any_base_are_ignored() {
    let text = "pkgname = orphan\npkgdesc = nothing\n";
    assert!(ParsedSrcInfo::parse(text).is_empty());
}

#[test]
fn base_without_package_stands_for_one() {
    let text = "pkgbase = lonely\npkgver = 1.2\n";
    let pkgs = ParsedSrcInfo::parse(text);
    assert_eq!(pkgs.len(), 1);
    assert_eq!(pkgs[0].pkgbase, "lonely");
    assert_eq!(pkgs[0].pkgname, "lonely");
    assert_eq!(pkgs[0].first_prop("pkgver"), Some("1.2"));
}

#[test]
fn lines_without_equals_and_spacing_are_handled() {
    let text = "# comment line\r\n  pkgbase=tight  \r\npkgname =  spaced name \r\nkey = a = b\r\n";
    let pkgs = ParsedSrcInfo::parse(text);
    assert_eq!(pkgs.len(), 1);
    assert_eq!(pkgs[0].pkgbase, "tight");
    assert_eq!(pkgs[0].pkgname, "spaced name");
    assert_eq!(pkgs[0].first_prop("key"), Some("a = b"));
}

#[test]
fn flatten_arch_prop_unions_and_dedups() {
    let p = pkg_with(&[("depends", &["a"]), ("depends_x86_64", &["b"]), ("depends_i686", &["a"])]);
    assert_eq!(p.flatten_arch_prop("depends"), vec!["a".to_string(), "b".to_string()]);
}

#[test]
fn flatten_arch_prop_ignores_other_keys() {
    let p = pkg_with(&[
        ("depends", &["zlib", "glibc"]),
        ("dependsx", &["no"]),
        ("makedepends", &["cmake"]),
        ("depends_aarch64", &["glibc", "libfoo"]),
    ]);
    assert_eq!(
        p.flatten_arch_prop("depends"),
        vec!["glibc".to_string(), "libfoo".to_string(), "zlib".to_string()]
    );
    assert!(p.flatten_arch_prop("conflicts").is_empty());
}

#[test]
fn version_with_epoch() {
    let p = pkg_with(&[("epoch", &["2"]), ("pkgver", &["1.0"]), ("pkgrel", &["3"])]);
    assert_eq!(p.version(), "2:1.0-3");
}

#[test]
fn version_without_epoch() {
    let p = pkg_with(&[("pkgver", &["1.0"]), ("pkgrel", &["3"])]);
    assert_eq!(p.version(), "1.0-3");
}

#[test]
fn version_defaults() {
    let p = pkg_with(&[]);
    assert_eq!(p.version(), "0.0.1-1");
}

#[test]
fn prop_and_first_prop_of_missing_key() {
    let p = pkg_with(&[("groups", &["g1", "g2"])]);
    assert_eq!(p.prop("groups"), vec!["g1".to_string(), "g2".to_string()]);
    assert!(p.prop("nothing").is_empty());
    assert_eq!(p.first_prop("nothing"), None);
    assert_eq!(p.first_prop("groups"), Some("g1"));
}

#[test]
fn merge_props_keeps_existing_entries() {
    let mut dst = vec![("a".to_string(), vec!["1".to_string()])];
    let src = vec![
        ("a".to_string(), vec!["base".to_string()]),
        ("b".to_string(), vec!["2".to_string()]),
    ];
    merge_props(&mut dst, &src);
    assert_eq!(
        dst,
        vec![
            ("a".to_string(), vec!["1".to_string()]),
            ("b".to_string(), vec!["2".to_string()]),
        ]
    );
}

#[test]
fn repeated_keys_collect_under_one_entry() {
    let text = "pkgbase = r\nsource = a\nsource = b\npkgname = r\nsource = c\nsource = d\n";
    let pkgs = ParsedSrcInfo::parse(text);
    assert_eq!(pkgs.len(), 1);
    let entries: Vec<&String> = pkgs[0].properties.iter().map(|e| &e.0).collect();
    assert_eq!(entries, vec![&"source".to_string()]);
    assert_eq!(pkgs[0].prop("source"), vec!["c".to_string(), "d".to_string()]);
}
