use tplgen::config::{Logged, Opt};
use tplgen::discover::{base_name, canonical_name, ends_with, file_stem, keep_entry};
use tplgen::value::{build_context, detect_format, merge, Val, ValueFormat};

fn opt_with_ext(ext: &str) -> Opt {
    Opt {
        verbose: false,
        output: ".".to_string(),
        values: vec![],
        no_env: false,
        extension: ext.to_string(),
        prefer_env: false,
        input: vec![],
    }
}

#[test]
fn suffix_gets_leading_dot() {
    assert_eq!(opt_with_ext("hbs").get_ext(), ".hbs");
}

#[test]
fn suffix_with_dot_unchanged() {
    assert_eq!(opt_with_ext(".hbs").get_ext(), ".hbs");
}

#[test]
fn empty_suffix_becomes_dot() {
    assert_eq!(opt_with_ext("").get_ext(), ".");
}

#[test]
fn logged_hands_value_back() {
    let ok: Result<i32, String> = Ok(3);
    assert_eq!(ok.log(), Ok(3));
    let err: Result<i32, String> = Err("boom".to_string());
    assert_eq!(err.log(), Err("boom".to_string()));
}

#[test]
fn tilde_and_hash_names_are_skipped() {
    assert!(!keep_entry("~draft.hbs", ".hbs"));
    assert!(!keep_entry("#buffer.hbs", ".hbs"));
    assert!(keep_entry("draft.hbs", ".hbs"));
}

#[test]
fn wrong_suffix_is_skipped() {
    assert!(!keep_entry("notes.txt", ".hbs"));
    assert!(!keep_entry("notes.HBS", ".hbs"));
}

#[test]
fn ends_with_is_exact() {
    assert!(ends_with("a/b.hbs", ".hbs"));
    assert!(!ends_with("hb", ".hbs"));
    assert!(!ends_with("a/b.hbs ", ".hbs"));
}

#[test]
fn base_name_and_stem() {
    assert_eq!(base_name("a/b/c.txt", '/'), "c.txt");
    assert_eq!(base_name("c.txt", '/'), "c.txt");
    assert_eq!(file_stem("a/b/c.tar.gz", '/'), "c.tar");
    assert_eq!(file_stem("a/.hidden", '/'), ".hidden");
    assert_eq!(file_stem("a/plain", '/'), "plain");
}

#[test]
fn canonical_name_strips_root_and_suffix() {
    assert_eq!(canonical_name("root", "root/a/b.txt.hbs", ".hbs", '/'), "a/b.txt");
}

#[test]
fn canonical_name_platform_independent() {
    assert_eq!(canonical_name("root", "root\\a\\b.txt.hbs", ".hbs", '\\'), "a/b.txt");
    assert_eq!(canonical_name("root", "root/a/b.txt.hbs", ".hbs", '/'), "a/b.txt");
}

#[test]
fn canonical_name_root_with_trailing_separator() {
    assert_eq!(canonical_name("root/", "root/a.hbs", ".hbs", '/'), "a");
}

fn obj(pairs: Vec<(&str, Val)>) -> Val {
    Val::Obj(pairs.into_iter().map(|(k, v)| (k.to_string(), v)).collect())
}

fn num(n: &str) -> Val {
    Val::Num(n.to_string())
}

#[test]
fn deep_merge_unions_nested_keys() {
    let a = obj(vec![("a", obj(vec![("x", num("1"))]))]);
    let b = obj(vec![("a", obj(vec![("y", num("2"))]))]);
    let empty = Val::Obj(vec![]);
    let step1 = merge(empty, &a);
    let step2 = merge(step1, &b);
    let want = obj(vec![("a", obj(vec![("x", num("1")), ("y", num("2"))]))]);
    assert_eq!(step2, want);
}

#[test]
fn deep_merge_replaces_across_type_mismatch() {
    let a = obj(vec![("a", num("1"))]);
    let b = obj(vec![("a", obj(vec![("x", num("1"))]))]);
    let empty = Val::Obj(vec![]);
    let step1 = merge(empty, &a);
    let step2 = merge(step1, &b);
    let want = obj(vec![("a", obj(vec![("x", num("1"))]))]);
    assert_eq!(step2, want);
}

#[test]
fn deep_merge_sequences_replaced_wholly() {
    let a = obj(vec![("s", Val::Arr(vec![num("1"), num("2")]))]);
    let b = obj(vec![("s", Val::Arr(vec![num("3")]))]);
    let merged = merge(a, &b);
    assert_eq!(merged, obj(vec![("s", Val::Arr(vec![num("3")]))]));
}

fn env_foo() -> Vec<(String, String)> {
    vec![("FOO".to_string(), "env".to_string())]
}

fn file_foo() -> Vec<Option<Val>> {
    vec![Some(obj(vec![("FOO", Val::Str("file".to_string()))]))]
}

fn lookup<'a>(ctx: &'a Val, key: &str) -> Option<&'a Val> {
    match ctx {
        Val::Obj(fields) => fields.iter().find(|(k, _)| k == key).map(|(_, v)| v),
        _ => None,
    }
}

#[test]
fn file_wins_when_env_seeds_first() {
    let (ctx, warns) = build_context(&env_foo(), &file_foo(), false, false);
    assert_eq!(lookup(&ctx, "FOO"), Some(&Val::Str("file".to_string())));
    assert_eq!(warns, vec![false]);
}

#[test]
fn env_wins_when_preferred() {
    let (ctx, _) = build_context(&env_foo(), &file_foo(), false, true);
    assert_eq!(lookup(&ctx, "FOO"), Some(&Val::Str("env".to_string())));
}

#[test]
fn suppressed_env_never_appears() {
    let (ctx, _) = build_context(&env_foo(), &vec![], true, true);
    assert_eq!(lookup(&ctx, "FOO"), None);
    let (ctx2, _) = build_context(&env_foo(), &file_foo(), true, true);
    assert_eq!(lookup(&ctx2, "FOO"), Some(&Val::Str("file".to_string())));
}

#[test]
fn failed_value_file_contributes_nothing() {
    let files = vec![
        None,
        Some(obj(vec![("k", Val::Str("v".to_string()))])),
    ];
    let (ctx, warns) = build_context(&vec![], &files, true, false);
    assert_eq!(lookup(&ctx, "k"), Some(&Val::Str("v".to_string())));
    assert_eq!(warns, vec![false, false]);
}

#[test]
fn non_map_document_is_flagged_and_ignored() {
    let files = vec![Some(num("5")), Some(obj(vec![("k", num("1"))]))];
    let (ctx, warns) = build_context(&vec![], &files, true, false);
    assert_eq!(warns, vec![true, false]);
    assert_eq!(lookup(&ctx, "k"), Some(&num("1")));
    match &ctx {
        Val::Obj(fields) => assert_eq!(fields.len(), 1),
        _ => panic!("context root must be a mapping"),
    }
}

#[test]
fn format_detected_by_extension() {
    assert_eq!(detect_format("v.yaml", '/'), (ValueFormat::Yaml, false));
    assert_eq!(detect_format("v.YML", '/'), (ValueFormat::Yaml, false));
    assert_eq!(detect_format("v.json", '/'), (ValueFormat::Json, false));
    assert_eq!(detect_format("v.txt", '/'), (ValueFormat::Json, true));
    assert_eq!(detect_format("values", '/'), (ValueFormat::Json, true));
}
