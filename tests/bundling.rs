use bundler::bundle::{target_leaves, Bundle, BundleError, SourceFile};
use bundler::module::{Item, ItemKind, Module};
use bundler::output::{compose_output, replace_all, rewrite_self_refs, start, submit_url, Start};
use bundler::paths::{collect_leaves, UseTree};
use bundler::resolve::lib_file;
use bundler::utf16::utf8_to_utf16le_bytes;
use quote::ToTokens;

fn s(x: &str) -> String {
    x.to_string()
}

fn path(xs: &[&str]) -> Vec<String> {
    xs.iter().map(|x| x.to_string()).collect()
}

fn name(x: &str) -> UseTree {
    UseTree::Name(s(x))
}

fn seg(x: &str, t: UseTree) -> UseTree {
    UseTree::Path(s(x), Box::new(t))
}

fn other(text: &str) -> Item {
    Item { text: s(text), kind: ItemKind::Other }
}

fn decl(n: &str) -> Item {
    Item { text: format!("mod {n};"), kind: ItemKind::ModDecl(s(n)) }
}

fn file(items: Vec<Item>, uses: Vec<UseTree>) -> SourceFile {
    SourceFile { items, uses }
}

/// A small library held in memory: module key, items, imports.
fn fixture(key: &[String]) -> Option<SourceFile> {
    let k: Vec<&str> = key.iter().map(|x| x.as_str()).collect();
    match k.as_slice() {
        ["library", "hash", "fenwick"] => Some(file(
            vec![other("use crate::util::ops::Add;"), other("pub struct Fenwick;")],
            vec![seg("crate", seg("util", seg("ops", name("Add"))))],
        )),
        ["library", "util", "ops"] => Some(file(
            vec![other("use super::num::Zero;"), other("pub trait Add {}")],
            vec![seg("super", seg("num", name("Zero")))],
        )),
        ["library", "util", "num"] => Some(file(vec![other("pub trait Zero {}")], vec![])),
        ["library", "graph", "dfs"] => Some(file(vec![other("pub fn dfs() {}")], vec![])),
        _ => None,
    }
}

/// Drives a whole run against the in-memory library, as the program does
/// against the disk; returns the keys read and the rendered library.
fn run(target: &SourceFile, strict: bool) -> Result<(Vec<Vec<String>>, String), BundleError> {
    let leaves = target_leaves(target, &s("library"));
    let mut b = Bundle::new(s("library"), strict, leaves);
    let mut read = Vec::new();
    while let Some(key) = b.next_key() {
        match fixture(&key) {
            Some(f) => {
                read.push(key.clone());
                b.deliver(&key, f);
            }
            None => b.missing()?,
        }
    }
    Ok((read, b.finish()))
}

fn fenwick_target() -> SourceFile {
    file(vec![], vec![seg("library", seg("hash", seg("fenwick", name("Fenwick"))))])
}

#[test]
fn leaves_of_groups_renames_and_globs() {
    let t = seg(
        "library",
        UseTree::Group(vec![
            seg("a", name("X")),
            UseTree::Rename(s("Y"), s("Z")),
            seg("b", UseTree::Glob),
            seg("c", UseTree::Group(vec![name("P"), name("Q")])),
        ]),
    );
    let mut prefix = Vec::new();
    let mut out = Vec::new();
    collect_leaves(&t, &mut prefix, &mut out);
    assert!(prefix.is_empty());
    assert_eq!(
        out,
        vec![
            path(&["library", "a", "X"]),
            path(&["library", "Y"]),
            path(&["library", "c", "P"]),
            path(&["library", "c", "Q"]),
        ]
    );
}

#[test]
fn file_locations() {
    let key = path(&["library", "hash", "fenwick"]);
    assert_eq!(lib_file(&key, true), path(&["hash", "fenwick.rs"]));
    assert_eq!(lib_file(&key, false), path(&["hash", "fenwick", "mod.rs"]));
}

#[test]
fn insert_updates_existing_child() {
    let mut m = Module::new();
    m.insert(&path(&["library", "b"]), vec![other("fn b1() {}")]);
    m.insert(&path(&["library", "a"]), vec![other("fn a() {}")]);
    m.insert(&path(&["library", "b"]), vec![other("fn b2() {}")]);
    assert_eq!(m.names, path(&["library"]));
    let lib = &m.kids[0];
    assert_eq!(lib.names, path(&["a", "b"]));
    assert_eq!(lib.kids[1].code.as_ref().unwrap()[0].text, "fn b2() {}");
    m.insert(&[], vec![other("ignored")]);
    assert!(m.code.is_none());
}

#[test]
fn forwarding_declaration_is_dropped() {
    let mut m = Module::new();
    m.insert(&path(&["library", "a"]), vec![decl("b"), decl("c"), other("fn f() {}")]);
    m.insert(&path(&["library", "a", "b"]), vec![other("fn g() {}")]);
    let mut out = String::new();
    m.to_tokens(None, &mut out);
    assert_eq!(
        out,
        "pub mod library {\npub mod a {\nmod c;\nfn f() {}\npub mod b {\nfn g() {}\n}\n}\n}\n"
    );
    assert_eq!(out.matches("mod b").count(), 1);
}

#[test]
fn strip_keeps_order_and_unknown_modules() {
    let mut m = Module::new();
    m.insert(&path(&["x"]), vec![]);
    let kept = m.strip_decls(&vec![other("fn a() {}"), decl("x"), decl("y"), other("fn b() {}")]);
    assert_eq!(kept, vec![s("fn a() {}"), s("mod y;"), s("fn b() {}")]);
}

#[test]
fn self_reference_rewrite() {
    let r = rewrite_self_refs("use crate::a::b;\nfn f() {}\n", &s("library"));
    assert_eq!(r, "use crate::library::a::b;\nfn f() {}\n");
}

#[test]
fn self_reference_rewrite_token_spacing_and_paths() {
    let lib = s("library");
    assert_eq!(rewrite_self_refs("use crate :: a :: b ;", &lib), "use crate :: library :: a :: b ;");
    assert_eq!(rewrite_self_refs("fn g() { crate::a::f() }", &lib), "fn g() { crate::library::a::f() }");
    assert_eq!(rewrite_self_refs("use my_crate::x; pub(crate) fn h() {}", &lib), "use my_crate::x; pub(crate) fn h() {}");
    assert_eq!(rewrite_self_refs("use crate::{a, b};", &lib), "use crate::library::{a, b};");
}

#[test]
fn fallback_text_from_token_streams_is_rewritten() {
    let item: syn::Item = syn::parse_str("use crate::util::ops::Add;").unwrap();
    let text = item.to_token_stream().to_string();
    let mut m = Module::new();
    m.insert(&path(&["library", "a"]), vec![other(&text), other("@@@")]);
    let mut raw = String::new();
    m.to_tokens(None, &mut raw);
    assert!(syn::parse_file(&raw).is_err());
    let out = compose_output(&s("fn main() {}"), None, &raw, &s("library"));
    assert!(out.contains("crate :: library :: util :: ops :: Add"));
    assert!(!out.contains("crate :: util"));
    assert!(out.contains("@@@"));
}

#[test]
fn root_level_keys() {
    assert_eq!(lib_file(&path(&["library"]), true), path(&["lib.rs"]));
    assert_eq!(lib_file(&path(&["library"]), false), path(&["mod.rs"]));
    assert_eq!(lib_file(&path(&["other", "x"]), true), lib_file(&path(&["library", "x"]), true));
    let target = file(vec![], vec![seg("library", name("Top"))]);
    assert_eq!(run(&target, true).unwrap_err(), BundleError::MissingDependency);
}

#[test]
fn one_insert_builds_exactly_the_path() {
    let mut m = Module::new();
    m.insert(&path(&["library", "a"]), vec![other("pub fn f() {}")]);
    assert!(m.code.is_none());
    assert_eq!(m.names, path(&["library"]));
    assert!(m.kids[0].code.is_none());
    assert_eq!(m.kids[0].names, path(&["a"]));
    assert!(m.kids[0].kids[0].names.is_empty());
    let mut out = String::new();
    m.to_tokens(None, &mut out);
    assert_eq!(out, "pub mod library {\npub mod a {\npub fn f() {}\n}\n}\n");
}

#[test]
fn replace_without_overlap() {
    assert_eq!(replace_all("aaa", "aa", "b"), "ba");
    assert_eq!(replace_all("", "x", "y"), "");
    assert_eq!(replace_all("abc", "", "y"), "abc");
}

#[test]
fn passthrough_without_library_references() {
    let target = file(vec![], vec![seg("std", seg("io", name("Read"))), seg("library", UseTree::Glob)]);
    let text = s("use std::io::Read;\nfn main() {}");
    match start(text.clone(), &target, s("library"), true) {
        Start::Passthrough(t) => assert_eq!(t, text),
        Start::Run(_) => panic!("expected passthrough"),
    }
}

#[test]
fn closure_reads_exactly_the_reachable_files() {
    let (read, _) = run(&fenwick_target(), true).unwrap();
    let mut read = read;
    read.sort();
    assert_eq!(
        read,
        vec![
            path(&["library", "hash", "fenwick"]),
            path(&["library", "util", "num"]),
            path(&["library", "util", "ops"]),
        ]
    );
}

#[test]
fn shared_dependency_read_once() {
    let target = file(
        vec![],
        vec![seg(
            "library",
            UseTree::Group(vec![seg("util", seg("ops", name("Add"))), seg("hash", seg("fenwick", name("Fenwick")))]),
        )],
    );
    let (read, _) = run(&target, true).unwrap();
    assert_eq!(read.len(), 3);
}

#[test]
fn runs_are_deterministic() {
    let a = run(&fenwick_target(), true).unwrap().1;
    let b = run(&fenwick_target(), true).unwrap().1;
    assert_eq!(a, b);
    let hash = a.find("pub mod hash").unwrap();
    let util = a.find("pub mod util").unwrap();
    assert!(hash < util);
}

#[test]
fn missing_dependency_strict_and_lenient() {
    let target = file(vec![], vec![seg("library", seg("nothing", name("Here")))]);
    assert_eq!(run(&target, true).unwrap_err(), BundleError::MissingDependency);
    let (read, text) = run(&target, false).unwrap();
    assert!(read.is_empty());
    assert_eq!(text, "");
}

#[test]
fn merged_output_and_fallback() {
    let raw = s("pub mod library {\nuse crate::x;\n@@@\n}\n");
    assert!(syn::parse_file(&raw).is_err());
    let out = compose_output(&s("fn main() {}"), None, &raw, &s("library"));
    assert_eq!(
        out,
        "fn main() {}\n\n// ===== bundled library =====\n\npub mod library {\nuse crate::library::x;\n@@@\n}\n\n"
    );
    let out = compose_output(&s("T"), Some(s("P")), &raw, &s("library"));
    assert_eq!(out, "T\n\n// ===== bundled library =====\n\nP\n");
}

#[test]
fn clipboard_encoding() {
    assert_eq!(utf8_to_utf16le_bytes(""), vec![0xFF, 0xFE, 0, 0]);
    assert_eq!(utf8_to_utf16le_bytes("Aé"), vec![0xFF, 0xFE, 0x41, 0, 0xE9, 0, 0, 0]);
    assert_eq!(utf8_to_utf16le_bytes("😀"), vec![0xFF, 0xFE, 0x3D, 0xD8, 0x00, 0xDE, 0, 0]);
    assert_eq!(utf8_to_utf16le_bytes("あ"), vec![0xFF, 0xFE, 0x42, 0x30, 0, 0]);
}

#[test]
fn submission_address() {
    assert_eq!(
        submit_url("https://atcoder.jp/contests/abc/tasks/{problem_id}", "abc100_a"),
        "https://atcoder.jp/contests/abc/tasks/abc100_a"
    );
    assert_eq!(submit_url("no placeholder", "x"), "no placeholder");
}
