use move_parser::diagnostics::{CompilationEnv, Diagnostic, Diagnostics, Loc, Severity};
use move_parser::file_table::FileTable;
use move_parser::hash::FileHash;
use move_parser::parser::{
    assemble_program, derive_attributes, pair_sources, parse_files, parse_source, verify_string,
    parse_source_program, ParseOutcome, ParsedFile, SourceCountMismatch, SourceUnit, INVALID_CHARACTER,
};
use move_parser::paths::{path_le_exec, resolve_file_sets, FileEntry, IndexedPackagePath};
use move_parser::program::{
    Comment, CommentMap, NamedAddressMap, NamedAddressMaps, PackageDefinition, Program,
};

fn hex(bytes: &[u8]) -> String {
    bytes.iter().map(|b| format!("{:02x}", b)).collect()
}

/// A small grammar for the tests: `module NAME {}` gives one definition named
/// NAME and a comment for each `//` line; anything else is a blocking error.
fn toy_grammar(text: &str) -> ParseOutcome<String> {
    let hash = FileHash::new(text);
    let mut comments = Vec::new();
    let mut code = String::new();
    let mut offset = 0usize;
    for line in text.split_inclusive('\n') {
        let trimmed = line.trim();
        if let Some(c) = trimmed.strip_prefix("//") {
            comments.push(Comment { start: offset, end: offset + line.len(), text: c.trim().to_string() });
        } else {
            code.push_str(line);
        }
        offset += line.len();
    }
    let words: Vec<&str> = code.split_whitespace().collect();
    if words.len() == 3 && words[0] == "module" && words[2] == "{}" {
        return Ok((vec![words[1].to_string()], comments));
    }
    if words.len() == 4 && words[0] == "module" && words[2] == "{" && words[3] == "}" {
        return Ok((vec![words[1].to_string()], comments));
    }
    let mut ds = Diagnostics::new();
    ds.add(Diagnostic {
        severity: Severity::BlockingError,
        loc: Loc { file_hash: hash, start: 0, end: text.len() },
        message: "unexpected end of module".to_string(),
    });
    Err(ds)
}

fn warning_grammar(text: &str) -> ParseOutcome<String> {
    let mut ds = Diagnostics::new();
    ds.add(Diagnostic {
        severity: Severity::NonblockingError,
        loc: Loc { file_hash: FileHash::new(text), start: 0, end: 0 },
        message: "recoverable".to_string(),
    });
    Err(ds)
}

fn ipp(path: &str, map: usize) -> IndexedPackagePath {
    IndexedPackagePath { package: None, path: path.to_string(), named_address_map: map }
}

fn entry(path: &str) -> FileEntry<()> {
    FileEntry { path: ipp(path, 0), canonical: path.to_string(), source: () }
}

fn unit(path: &str, text: &str) -> FileEntry<SourceUnit<String>> {
    FileEntry {
        path: ipp(path, 0),
        canonical: path.to_string(),
        source: SourceUnit { text: text.to_string(), parsed: toy_grammar(text) },
    }
}

fn one_map() -> NamedAddressMaps {
    let mut maps = NamedAddressMaps::new();
    maps.insert(NamedAddressMap { entries: vec![("std".to_string(), vec![1])] });
    maps
}

fn keep(_m: &NamedAddressMap, d: String) -> String {
    d
}

type Run = Result<(Program<String>, CommentMap, Diagnostics), Diagnostics>;

/// Parses in-memory files end to end: pairs, resolves, parses, assembles.
fn run(
    env: &mut CompilationEnv,
    targets: Vec<(&str, &str)>,
    deps: Vec<(&str, &str)>,
    grammar: fn(&str) -> ParseOutcome<String>,
) -> (FileTable<(String, String)>, Run) {
    let t = pair_sources(
        targets.iter().map(|(p, _)| ipp(p, 0)).collect(),
        targets.iter().map(|(_, s)| s.to_string()).collect(),
    )
    .unwrap();
    let d = pair_sources(
        deps.iter().map(|(p, _)| ipp(p, 0)).collect(),
        deps.iter().map(|(_, s)| s.to_string()).collect(),
    )
    .unwrap();
    let attach = |v: Vec<FileEntry<String>>| -> Vec<FileEntry<SourceUnit<String>>> {
        v.into_iter()
            .map(|e| {
                let parsed = grammar(&e.source);
                FileEntry { path: e.path, canonical: e.canonical, source: SourceUnit { text: e.source, parsed } }
            })
            .collect()
    };
    match parse_source_program(env, one_map(), attach(t), attach(d), keep) {
        Ok(out) => out,
        Err(e) => panic!("conflicting paths: {:?}", e.paths),
    }
}

fn failed(r: Run) -> Diagnostics {
    match r {
        Err(ds) => ds,
        Ok(_) => panic!("expected the run to fail"),
    }
}

#[test]
fn file_hash_is_sha256_of_text() {
    let h = FileHash::new("abc");
    assert_eq!(hex(h.as_bytes()), "ba7816bf8f01cfea414140de5dae2223b00361a396177a9cb410ff61f20015ad");
    let e = FileHash::new("");
    assert_eq!(hex(e.as_bytes()), "e3b0c44298fc1c149afbf4c8996fb92427ae41e4649b934ca495991b7852b855");
}

#[test]
fn same_text_same_hash() {
    let a = FileHash::new("module M {}");
    let b = FileHash::new("module M {}");
    let c = FileHash::new("module N {}");
    assert!(a.same_as(&b));
    assert!(!a.same_as(&c));
}

#[test]
fn verify_string_accepts_printable_text() {
    let text = "module M {\n\t// ok\r\n}";
    assert!(verify_string(&FileHash::new(text), text).is_ok());
    assert!(verify_string(&FileHash::new(""), "").is_ok());
}

#[test]
fn verify_string_rejects_control_character() {
    let text = "ab\u{1}c";
    let h = FileHash::new(text);
    let ds = verify_string(&h, text).unwrap_err();
    assert_eq!(ds.len(), 1);
    let d = &ds.entries()[0];
    assert_eq!(d.severity, Severity::BlockingError);
    assert_eq!(d.loc, Loc { file_hash: h, start: 2, end: 2 });
    assert_eq!(d.message, INVALID_CHARACTER);
}

#[test]
fn verify_string_rejects_non_ascii() {
    let text = "x\u{e9}y";
    let ds = verify_string(&FileHash::new(text), text).unwrap_err();
    assert_eq!(ds.entries()[0].loc.start, 1);
}

#[test]
fn parse_source_takes_grammar_outcome() {
    let mut files = FileTable::new();
    let text = "// doc\nmodule M {}";
    let pf: ParsedFile<String> = parse_source(&mut files, "a.mv".to_string(), text.to_string(), toy_grammar(text));
    assert_eq!(pf.defs, vec!["M".to_string()]);
    assert_eq!(pf.comments.len(), 1);
    assert_eq!(pf.comments[0].text, "doc");
    assert!(pf.diags.is_empty());
    assert!(pf.file_hash.same_as(&FileHash::new(text)));
    assert_eq!(files.get(&pf.file_hash), Some(&("a.mv".to_string(), text.to_string())));
}

#[test]
fn parse_source_registers_rejected_text() {
    let mut files = FileTable::new();
    let text = "module M {}\u{7}";
    let pf: ParsedFile<String> = parse_source(&mut files, "bad.mv".to_string(), text.to_string(), toy_grammar(text));
    assert!(pf.defs.is_empty());
    assert!(pf.comments.is_empty());
    assert_eq!(pf.diags.len(), 1);
    assert_eq!(pf.diags.entries()[0].loc.start, 11);
    assert_eq!(files.get(&FileHash::new(text)), Some(&("bad.mv".to_string(), text.to_string())));
}

#[test]
fn parse_source_keeps_grammar_diagnostics() {
    let mut files = FileTable::new();
    let text = "module {";
    let pf: ParsedFile<String> = parse_source(&mut files, "a.mv".to_string(), text.to_string(), toy_grammar(text));
    assert!(pf.defs.is_empty());
    assert_eq!(pf.diags.entries()[0].severity, Severity::BlockingError);
    assert!(files.contains(&FileHash::new(text)));
}

#[test]
fn path_order_is_bytewise() {
    assert!(path_le_exec(&"a/b.mv".to_string(), &"a/c.mv".to_string()));
    assert!(path_le_exec(&"a".to_string(), &"a/b".to_string()));
    assert!(!path_le_exec(&"b".to_string(), &"a/z".to_string()));
    assert!(path_le_exec(&"Z".to_string(), &"a".to_string()));
    assert!(path_le_exec(&"same".to_string(), &"same".to_string()));
}

#[test]
fn resolve_sorts_independent_of_input_order() {
    let env = CompilationEnv::new(false);
    let (t1, d1) = resolve_file_sets(&env, vec![entry("c.mv"), entry("a.mv"), entry("b.mv")], vec![entry("z.mv"), entry("y.mv")]).unwrap();
    let (t2, d2) = resolve_file_sets(&env, vec![entry("b.mv"), entry("c.mv"), entry("a.mv")], vec![entry("y.mv"), entry("z.mv")]).unwrap();
    let names: Vec<String> = t1.iter().map(|e| e.canonical.clone()).collect();
    assert_eq!(names, vec!["a.mv", "b.mv", "c.mv"]);
    assert_eq!(t1, t2);
    assert_eq!(d1, d2);
    assert_eq!(d1[0].canonical, "y.mv");
}

#[test]
fn resolve_refuses_shared_path_without_shadowing() {
    let env = CompilationEnv::new(false);
    let r = resolve_file_sets(&env, vec![entry("p.mv"), entry("a.mv")], vec![entry("q.mv"), entry("p.mv"), entry("p.mv")]);
    let e = r.unwrap_err();
    assert_eq!(e.paths, vec!["p.mv".to_string()]);
}

#[test]
fn resolve_names_every_shared_path_in_order() {
    let env = CompilationEnv::new(false);
    let r = resolve_file_sets(&env, vec![entry("y"), entry("x"), entry("w")], vec![entry("x"), entry("y"), entry("v")]);
    assert_eq!(r.unwrap_err().paths, vec!["x".to_string(), "y".to_string()]);
}

#[test]
fn program_refuses_shared_path_before_recording_files() {
    let mut env = CompilationEnv::new(false);
    let r = parse_source_program(&mut env, one_map(), vec![unit("p.mv", "module P {}")], vec![unit("p.mv", "module Q {}")], keep);
    match r {
        Err(e) => assert_eq!(e.paths, vec!["p.mv".to_string()]),
        Ok(_) => panic!("expected a conflict"),
    }
}

#[test]
fn resolve_shadows_shared_path() {
    let env = CompilationEnv::new(true);
    let (t, d) = resolve_file_sets(&env, vec![entry("p.mv")], vec![entry("q.mv"), entry("p.mv")]).unwrap();
    assert_eq!(t, vec![entry("p.mv")]);
    assert_eq!(d, vec![entry("q.mv")]);
}

#[test]
fn shadowed_dependency_is_parsed_from_target_only() {
    let mut env = CompilationEnv::new(true);
    let (files, r) = run(&mut env, vec![("p.mv", "module P {}")], vec![("p.mv", "module Q {}"), ("d.mv", "module D {}")], toy_grammar);
    let (prog, _, ds) = r.unwrap();
    assert!(ds.is_empty());
    assert_eq!(prog.source_definitions.iter().map(|d| d.def.clone()).collect::<Vec<_>>(), vec!["P"]);
    assert_eq!(prog.lib_definitions.iter().map(|d| d.def.clone()).collect::<Vec<_>>(), vec!["D"]);
    assert!(!files.contains(&FileHash::new("module Q {}")));
}

#[test]
fn end_to_end_single_module() {
    let mut env = CompilationEnv::new(false);
    let (files, r) = run(&mut env, vec![("a.mv", "module M {}")], vec![], toy_grammar);
    let (prog, comments, ds) = r.unwrap();
    assert!(ds.is_empty());
    assert_eq!(
        prog.source_definitions,
        vec![PackageDefinition { package: None, named_address_map: 0, def: "M".to_string() }]
    );
    assert!(prog.lib_definitions.is_empty());
    assert_eq!(prog.named_address_maps, one_map());
    assert_eq!(comments.get(&FileHash::new("module M {}")), Some(&vec![]));
    assert_eq!(files.get(&FileHash::new("module M {}")), Some(&("a.mv".to_string(), "module M {}".to_string())));
}

#[test]
fn end_to_end_unterminated_module() {
    let mut env = CompilationEnv::new(false);
    let (files, r) = run(&mut env, vec![("a.mv", "module {")], vec![], toy_grammar);
    let ds = failed(r);
    assert!(ds.has_at_or_above(Severity::BlockingError));
    assert!(files.contains(&FileHash::new("module {")));
}

#[test]
fn definitions_follow_canonical_order() {
    let mut env = CompilationEnv::new(false);
    let (_, r) = run(&mut env, vec![("c.mv", "module C {}"), ("a.mv", "module A {}"), ("b.mv", "module B {}")], vec![], toy_grammar);
    let (prog, _, _) = r.unwrap();
    let defs: Vec<String> = prog.source_definitions.iter().map(|d| d.def.clone()).collect();
    assert_eq!(defs, vec!["A", "B", "C"]);
}

#[test]
fn nonblocking_error_keeps_other_files() {
    let mut env = CompilationEnv::new(false);
    let mut files = FileTable::new();
    let good = "module G {}";
    let bad = "module W {";
    let units = vec![
        FileEntry { path: ipp("g.mv", 0), canonical: "g.mv".to_string(), source: SourceUnit { text: good.to_string(), parsed: toy_grammar(good) } },
        FileEntry { path: ipp("w.mv", 0), canonical: "w.mv".to_string(), source: SourceUnit { text: bad.to_string(), parsed: warning_grammar(bad) } },
    ];
    let parsed = parse_files(&mut files, units);
    let (prog, _, ds) = assemble_program(&mut env, one_map(), parsed, vec![], keep).unwrap();
    assert_eq!(prog.source_definitions.len(), 1);
    assert_eq!(prog.source_definitions[0].def, "G");
    assert_eq!(ds.len(), 1);
    assert_eq!(ds.entries()[0].severity, Severity::NonblockingError);
}

#[test]
fn blocking_error_stops_the_program() {
    let mut env = CompilationEnv::new(false);
    let (_, r) = run(&mut env, vec![("g.mv", "module G {}"), ("w.mv", "module {")], vec![], toy_grammar);
    let ds = failed(r);
    assert_eq!(ds.len(), 1);
    assert_eq!(ds.entries()[0].message, "unexpected end of module");
}

#[test]
fn identical_files_share_one_comment_entry() {
    let mut env = CompilationEnv::new(false);
    let mut files = FileTable::new();
    let text = "// note\nmodule M {}";
    let mk = |p: &str, c: &str| FileEntry {
        path: ipp(p, 0),
        canonical: p.to_string(),
        source: SourceUnit {
            text: text.to_string(),
            parsed: Ok((vec!["M".to_string()], vec![Comment { start: 0, end: 7, text: c.to_string() }])),
        },
    };
    let parsed = parse_files(&mut files, vec![mk("a.mv", "first"), mk("b.mv", "second")]);
    assert!(parsed[0].1.file_hash.same_as(&parsed[1].1.file_hash));
    let (prog, comments, _) = assemble_program(&mut env, one_map(), parsed, vec![], keep).unwrap();
    assert_eq!(prog.source_definitions.len(), 2);
    assert_eq!(comments.entries().len(), 1);
    assert_eq!(comments.get(&FileHash::new(text)).unwrap()[0].text, "second");
    assert_eq!(files.get(&FileHash::new(text)).unwrap().0, "b.mv");
}

#[test]
fn library_comments_are_dropped() {
    let mut env = CompilationEnv::new(false);
    let (_, r) = run(&mut env, vec![("a.mv", "module A {}")], vec![("d.mv", "// lib\nmodule D {}")], toy_grammar);
    let (prog, comments, _) = r.unwrap();
    assert_eq!(prog.lib_definitions[0].def, "D");
    assert!(!comments.contains(&FileHash::new("// lib\nmodule D {}")));
}

#[test]
fn environment_blocking_diagnostics_fail_the_run() {
    let mut env = CompilationEnv::new(false);
    let mut earlier = Diagnostics::new();
    earlier.add(Diagnostic {
        severity: Severity::Bug,
        loc: Loc { file_hash: FileHash::new(""), start: 0, end: 0 },
        message: "earlier".to_string(),
    });
    env.add_diags(earlier);
    let (_, r) = run(&mut env, vec![("a.mv", "module A {}")], vec![], toy_grammar);
    let ds = failed(r);
    assert_eq!(ds.entries()[0].message, "earlier");
    assert!(env.diags().is_empty());
}

#[test]
fn environment_warnings_stay_in_environment() {
    let mut env = CompilationEnv::new(false);
    let mut earlier = Diagnostics::new();
    earlier.add(Diagnostic {
        severity: Severity::Warning,
        loc: Loc { file_hash: FileHash::new(""), start: 0, end: 0 },
        message: "note".to_string(),
    });
    env.add_diags(earlier);
    assert!(env.check_diags_at_or_above_severity(Severity::BlockingError).is_ok());
    let (_, r) = run(&mut env, vec![("a.mv", "module A {}")], vec![], toy_grammar);
    assert!(r.is_ok());
    assert_eq!(env.diags().len(), 1);
}

#[test]
fn derivation_applies_to_source_definitions_only() {
    let mut env = CompilationEnv::new(false);
    let mut files = FileTable::new();
    let t = parse_files(&mut files, vec![unit("a.mv", "module a {}")]);
    let d = parse_files(&mut files, vec![unit("d.mv", "module d {}")]);
    let upper = |m: &NamedAddressMap, d: String| format!("{}@{}", d.to_uppercase(), m.entries.len());
    let (prog, _, _) = assemble_program(&mut env, one_map(), t, d, upper).unwrap();
    assert_eq!(prog.source_definitions[0].def, "A@1");
    assert_eq!(prog.lib_definitions[0].def, "d");
}

#[test]
fn derivation_twice_is_derivation_once() {
    let maps = one_map();
    let defs = vec![
        PackageDefinition { package: Some("p".to_string()), named_address_map: 0, def: "m".to_string() },
        PackageDefinition { package: None, named_address_map: 0, def: "N".to_string() },
    ];
    let upper = |_m: &NamedAddressMap, d: String| d.to_uppercase();
    let once = derive_attributes(&maps, defs, upper);
    let twice = derive_attributes(&maps, once.clone(), upper);
    assert_eq!(once, twice);
    assert_eq!(once[0].def, "M");
    assert_eq!(once[0].package, Some("p".to_string()));
}

#[test]
fn pair_sources_refuses_count_mismatch() {
    let r = pair_sources(vec![ipp("a.mv", 0), ipp("b.mv", 0)], vec!["x".to_string()]);
    assert_eq!(r.unwrap_err(), SourceCountMismatch { paths: 2, sources: 1 });
    let ok = pair_sources(vec![ipp("a.mv", 0)], vec!["x".to_string()]).unwrap();
    assert_eq!(ok[0].canonical, "a.mv");
    assert_eq!(ok[0].source, "x");
}

#[test]
fn file_table_replaces_on_same_hash() {
    let mut t: FileTable<u32> = FileTable::new();
    let a = FileHash::new("a");
    let b = FileHash::new("b");
    t.insert(a, 1);
    t.insert(b, 2);
    t.insert(a, 3);
    assert_eq!(t.get(&a), Some(&3));
    assert_eq!(t.get(&b), Some(&2));
    assert_eq!(t.entries().len(), 2);
    assert_eq!(t.get(&FileHash::new("c")), None);
}

#[test]
fn severity_order() {
    assert!(Severity::Bug.is_at_or_above(Severity::BlockingError));
    assert!(Severity::BlockingError.is_at_or_above(Severity::BlockingError));
    assert!(!Severity::NonblockingError.is_at_or_above(Severity::BlockingError));
    assert!(Severity::Warning.is_at_or_above(Severity::Warning));
}

#[test]
fn diagnostics_extend_keeps_order() {
    let h = FileHash::new("");
    let mk = |s: Severity, m: &str| Diagnostic { severity: s, loc: Loc { file_hash: h, start: 0, end: 0 }, message: m.to_string() };
    let mut a = Diagnostics::from_vec(vec![mk(Severity::Warning, "one")]);
    a.extend(Diagnostics::from_vec(vec![mk(Severity::NonblockingError, "two"), mk(Severity::Warning, "three")]));
    let msgs: Vec<&str> = a.entries().iter().map(|d| d.message.as_str()).collect();
    assert_eq!(msgs, vec!["one", "two", "three"]);
    assert!(a.has_at_or_above(Severity::NonblockingError));
    assert!(!a.has_at_or_above(Severity::BlockingError));
}

#[test]
fn named_address_maps_index() {
    let mut maps = NamedAddressMaps::new();
    let i = maps.insert(NamedAddressMap { entries: vec![] });
    let j = maps.insert(NamedAddressMap { entries: vec![("x".to_string(), vec![2])] });
    assert_eq!((i, j), (0, 1));
    assert_eq!(maps.len(), 2);
    assert_eq!(maps.get(1).entries[0].0, "x");
}
