//! The driver of the front end: the per-file precheck, the handling of each
//! file's parse, the assembly of the program with its diagnostics gate, and
//! the attribute-derivation pass.
use crate::diagnostics::{any_at_or_above, CompilationEnv, Diagnostic, Diagnostics, Loc, Severity};
use crate::file_table::FileTable;
use crate::hash::{sha256_of, FileHash};
use crate::paths::{
    conflicts, in_canonical_order, names_path, resolve_file_sets, shadowed_in_order,
    strictly_increasing, FileEntry, IndexedPackagePath, TargetDependencyConflict,
};
use crate::program::{
    Comment, CommentMap, FilesSourceText, NamedAddressMap, NamedAddressMaps, PackageDefinition,
    Program,
};
use vstd::prelude::*;
use vstd::utf8::encode_utf8;

verus! {

/// The message of the precheck's diagnostic.
pub const INVALID_CHARACTER: &'static str = "Invalid character found when reading file. Only ASCII printable characters, tabs (\\t), and line endings (\\n) are permitted.";

/// What the grammar makes of one file: its definitions and comments, or the
/// diagnostics that explain why it could not parse it.
pub type ParseOutcome<D> = Result<(Vec<D>, Vec<Comment>), Diagnostics>;

/// A byte that source text may hold: printable ASCII, a tab, a line feed or
/// a carriage return.
pub open spec fn permitted_byte(b: u8) -> bool {
    b == 9 || b == 10 || b == 13 || (0x20 <= b && b <= 0x7e)
}

/// Every byte of the text's UTF-8 encoding is permitted.
pub open spec fn permitted_text(text: Seq<char>) -> bool {
    forall|i: int| 0 <= i < encode_utf8(text).len() ==> permitted_byte(#[trigger] encode_utf8(text)[i])
}

/// Byte `i` of the text is the first one that is not permitted.
pub open spec fn first_invalid_at(text: Seq<char>, i: int) -> bool {
    &&& 0 <= i < encode_utf8(text).len()
    &&& !permitted_byte(encode_utf8(text)[i])
    &&& forall|j: int| 0 <= j < i ==> permitted_byte(#[trigger] encode_utf8(text)[j])
}

/// `d` is the precheck's diagnostic for an invalid byte at `i` of the file
/// with hash `h`.
pub open spec fn invalid_character_at(d: Diagnostic, h: Seq<u8>, i: int) -> bool {
    &&& d.severity == Severity::BlockingError
    &&& d.loc.file_hash@ == h
    &&& d.loc.start == i
    &&& d.loc.end == i
    &&& d.message@ == INVALID_CHARACTER@
}

/// Rejects text that holds a byte other than printable ASCII, tab, line feed
/// and carriage return, with one blocking diagnostic at the first such byte.
pub fn verify_string(file_hash: &FileHash, text: &str) -> (r: Result<(), Diagnostics>)
    ensures
        r is Ok <==> permitted_text(text@),
        r matches Err(ds) ==> ds@.len() == 1 && exists|i: int|
            first_invalid_at(text@, i) && invalid_character_at(#[trigger] ds@[0], file_hash@, i),
{
    let bytes = text.as_bytes();
    let mut i: usize = 0;
    while i < bytes.len()
        invariant
            bytes@ == encode_utf8(text@),
            0 <= i <= bytes@.len(),
            forall|j: int| 0 <= j < i ==> permitted_byte(#[trigger] bytes@[j]),
        decreases bytes@.len() - i,
    {
        let b = bytes[i];
        if !(b == 9 || b == 10 || b == 13 || (0x20 <= b && b <= 0x7e)) {
            let message = INVALID_CHARACTER.to_string();
            proof {
                vstd::string::to_string_from_display_ensures_for_str(INVALID_CHARACTER, message);
            }
            let d = Diagnostic {
                severity: Severity::BlockingError,
                loc: Loc { file_hash: *file_hash, start: i, end: i },
                message,
            };
            let mut ds = Diagnostics::new();
            ds.add(d);
            assert(first_invalid_at(text@, i as int));
            assert(ds@[0] == d);
            return Err(ds);
        }
        i = i + 1;
    }
    Ok(())
}

/// One file after its parse: its definitions, its comments, the diagnostics
/// it produced, and its hash.
pub struct ParsedFile<D> {
    pub defs: Vec<D>,
    pub comments: Vec<Comment>,
    pub diags: Diagnostics,
    pub file_hash: FileHash,
}

/// What a file with text `text` and grammar outcome `parsed` contributes:
/// nothing but the precheck's diagnostic when the text is refused; else the
/// grammar's definitions and comments, or its diagnostics.
pub open spec fn parsed_file_matches<D>(r: ParsedFile<D>, text: Seq<char>, parsed: ParseOutcome<D>) -> bool {
    &&& r.file_hash@ == sha256_of(text)
    &&& if !permitted_text(text) {
        &&& r.defs@.len() == 0
        &&& r.comments@.len() == 0
        &&& r.diags@.len() == 1
        &&& exists|i: int| first_invalid_at(text, i) && invalid_character_at(#[trigger] r.diags@[0], r.file_hash@, i)
    } else {
        match parsed {
            Ok((defs, comments)) => r.defs@ == defs@ && r.comments@ == comments@ && r.diags@.len() == 0,
            Err(ds) => r.defs@.len() == 0 && r.comments@.len() == 0 && r.diags@ == ds@,
        }
    }
}

/// Handles one file: hashes its text, runs the precheck, takes the grammar's
/// outcome `parsed` when the precheck passes (it is not looked at otherwise),
/// and records the file's name and text in `files` in any case.
pub fn parse_source<D>(
    files: &mut FilesSourceText,
    fname: String,
    text: String,
    parsed: ParseOutcome<D>,
) -> (r: ParsedFile<D>)
    requires
        old(files).wf(),
    ensures
        final(files).wf(),
        final(files)@ == old(files)@.insert(r.file_hash@, (fname, text)),
        parsed_file_matches(r, text@, parsed),
{
    let file_hash = FileHash::new(text.as_str());
    match verify_string(&file_hash, text.as_str()) {
        Err(ds) => {
            files.insert(file_hash, (fname, text));
            ParsedFile { defs: Vec::new(), comments: Vec::new(), diags: ds, file_hash }
        },
        Ok(()) => {
            let r = match parsed {
                Ok((defs, comments)) => ParsedFile { defs, comments, diags: Diagnostics::new(), file_hash },
                Err(ds) => ParsedFile { defs: Vec::new(), comments: Vec::new(), diags: ds, file_hash },
            };
            files.insert(file_hash, (fname, text));
            r
        },
    }
}

/// `defs`, each tagged with the package and address-table index of `p`.
pub open spec fn tag_defs<D>(p: IndexedPackagePath, defs: Seq<D>) -> Seq<PackageDefinition<D>> {
    defs.map_values(
        |d: D| PackageDefinition { package: p.package, named_address_map: p.named_address_map, def: d },
    )
}

/// The tagged definitions of the files, file after file.
pub open spec fn collect_defs<D>(files: Seq<(IndexedPackagePath, ParsedFile<D>)>) -> Seq<PackageDefinition<D>>
    decreases files.len(),
{
    if files.len() == 0 {
        Seq::empty()
    } else {
        collect_defs(files.drop_last()) + tag_defs(files.last().0, files.last().1.defs@)
    }
}

/// The diagnostics of the files, file after file.
pub open spec fn collect_diags<D>(files: Seq<(IndexedPackagePath, ParsedFile<D>)>) -> Seq<Diagnostic>
    decreases files.len(),
{
    if files.len() == 0 {
        Seq::empty()
    } else {
        collect_diags(files.drop_last()) + files.last().1.diags@
    }
}

/// The comments of the files by hash; of files with the same hash, the last
/// one's comments stand.
pub open spec fn collect_comments<D>(files: Seq<(IndexedPackagePath, ParsedFile<D>)>) -> Map<Seq<u8>, Vec<Comment>>
    decreases files.len(),
{
    if files.len() == 0 {
        Map::empty()
    } else {
        collect_comments(files.drop_last()).insert(files.last().1.file_hash@, files.last().1.comments)
    }
}

/// Every file refers to a table of the pool.
pub open spec fn indices_resolve<D>(files: Seq<(IndexedPackagePath, ParsedFile<D>)>, maps: Seq<NamedAddressMap>) -> bool {
    forall|i: int| 0 <= i < files.len() ==> (#[trigger] files[i]).0.named_address_map < maps.len()
}

/// `after` is `before` with each definition passed through `derive`, given
/// the table its index refers to; packages and indices are kept.
pub open spec fn derived_from<D, F: Fn(&NamedAddressMap, D) -> D>(
    maps: Seq<NamedAddressMap>,
    derive: F,
    before: Seq<PackageDefinition<D>>,
    after: Seq<PackageDefinition<D>>,
) -> bool {
    &&& after.len() == before.len()
    &&& forall|i: int|
        0 <= i < before.len() ==> {
            &&& (#[trigger] after[i]).package == before[i].package
            &&& after[i].named_address_map == before[i].named_address_map
            &&& call_ensures(derive, (&maps[before[i].named_address_map as int], before[i].def), after[i].def)
        }
}

fn clone_package(p: &Option<String>) -> (r: Option<String>)
    ensures
        r == *p,
{
    match p {
        Some(s) => Some(s.clone()),
        None => None,
    }
}

/// Appends `defs` to `out`, each tagged with the package and index of `p`.
fn append_tagged<D>(out: &mut Vec<PackageDefinition<D>>, p: &IndexedPackagePath, defs: Vec<D>)
    ensures
        final(out)@ == old(out)@ + tag_defs(*p, defs@),
{
    let ghost start = out@;
    let ghost all = defs@;
    let mut rest = defs;
    let ghost mut k: int = 0;
    assert(all.skip(0) =~= all);
    assert(tag_defs(*p, all.take(0)) =~= Seq::<PackageDefinition<D>>::empty());
    assert(start + tag_defs(*p, all.take(0)) =~= start);
    while rest.len() > 0
        invariant
            0 <= k <= all.len(),
            rest@ == all.skip(k),
            out@ == start + tag_defs(*p, all.take(k)),
        decreases rest@.len(),
    {
        let d = rest.remove(0);
        assert(d == all[k]);
        out.push(PackageDefinition { package: clone_package(&p.package), named_address_map: p.named_address_map, def: d });
        proof {
            assert(all.take(k + 1) =~= all.take(k).push(d));
            assert(tag_defs(*p, all.take(k + 1)) =~= tag_defs(*p, all.take(k)).push(
                PackageDefinition { package: p.package, named_address_map: p.named_address_map, def: d },
            ));
            assert(rest@ =~= all.skip(k + 1));
            k = k + 1;
        }
    }
    assert(all.take(k) =~= all);
}

/// Runs the attribute-derivation pass: each definition goes through `derive`
/// with the table its index refers to.
pub fn derive_attributes<D, F: Fn(&NamedAddressMap, D) -> D>(
    maps: &NamedAddressMaps,
    defs: Vec<PackageDefinition<D>>,
    derive: F,
) -> (r: Vec<PackageDefinition<D>>)
    requires
        forall|i: int| 0 <= i < defs@.len() ==> (#[trigger] defs@[i]).named_address_map < maps@.len(),
        forall|m: &NamedAddressMap, d: D| call_requires(derive, (m, d)),
    ensures
        derived_from(maps@, derive, defs@, r@),
{
    let ghost all = defs@;
    let mut rest = defs;
    let mut out: Vec<PackageDefinition<D>> = Vec::new();
    let ghost mut k: int = 0;
    assert(all.skip(0) =~= all);
    while rest.len() > 0
        invariant
            0 <= k <= all.len(),
            rest@ == all.skip(k),
            out@.len() == k,
            forall|i: int| 0 <= i < all.len() ==> (#[trigger] all[i]).named_address_map < maps@.len(),
            forall|m: &NamedAddressMap, d: D| call_requires(derive, (m, d)),
            forall|i: int|
                0 <= i < k ==> {
                    &&& (#[trigger] out@[i]).package == all[i].package
                    &&& out@[i].named_address_map == all[i].named_address_map
                    &&& call_ensures(derive, (&maps@[all[i].named_address_map as int], all[i].def), out@[i].def)
                },
        decreases rest@.len(),
    {
        let pd = rest.remove(0);
        assert(pd == all[k]);
        let PackageDefinition { package, named_address_map, def } = pd;
        let table = maps.get(named_address_map);
        let derived = derive(table, def);
        out.push(PackageDefinition { package, named_address_map, def: derived });
        proof {
            assert(rest@ =~= all.skip(k + 1));
            k = k + 1;
        }
    }
    out
}

/// Folds the files into tagged definitions, comments (when `comments` is
/// given) and diagnostics, in the order of the files.
fn fold_files<D>(
    files: Vec<(IndexedPackagePath, ParsedFile<D>)>,
    defs: &mut Vec<PackageDefinition<D>>,
    comments: &mut Option<CommentMap>,
    diags: &mut Diagnostics,
)
    requires
        *old(comments) matches Some(c) ==> c.wf(),
    ensures
        final(defs)@ == old(defs)@ + collect_defs(files@),
        final(diags)@ == old(diags)@ + collect_diags(files@),
        *old(comments) is None ==> *final(comments) is None,
        *old(comments) matches Some(c0) ==> (*final(comments) matches Some(c1) && c1.wf() && c1@
            == c0@.union_prefer_right(collect_comments(files@))),
{
    let ghost all = files@;
    let ghost defs0 = defs@;
    let ghost diags0 = diags@;
    let ghost comments0 = *comments;
    let mut rest = files;
    let ghost mut k: int = 0;
    assert(all.skip(0) =~= all);
    assert(all.take(0) =~= Seq::<(IndexedPackagePath, ParsedFile<D>)>::empty());
    assert(defs@ =~= defs0 + collect_defs(all.take(0)));
    assert(diags@ =~= diags0 + collect_diags(all.take(0)));
    proof {
        if let Some(c0) = comments0 {
            assert(c0@ =~= c0@.union_prefer_right(collect_comments(all.take(0))));
        }
    }
    while rest.len() > 0
        invariant
            0 <= k <= all.len(),
            rest@ == all.skip(k),
            defs@ == defs0 + collect_defs(all.take(k)),
            diags@ == diags0 + collect_diags(all.take(k)),
            comments0 is None ==> *comments is None,
            comments0 matches Some(c0) ==> (*comments matches Some(c1) && c1.wf() && c1@
                == c0@.union_prefer_right(collect_comments(all.take(k)))),
        decreases rest@.len(),
    {
        let (p, f) = rest.remove(0);
        proof {
            assert((p, f) == all[k]);
            assert(all.take(k + 1).drop_last() =~= all.take(k));
            assert(all.take(k + 1).last() == all[k]);
        }
        let ParsedFile { defs: fdefs, comments: fcomments, diags: fdiags, file_hash } = f;
        append_tagged(defs, &p, fdefs);
        diags.extend(fdiags);
        match comments {
            Some(c) => {
                c.insert(file_hash, fcomments);
                proof {
                    let c0 = comments0->Some_0;
                    assert(c@ =~= c0@.union_prefer_right(collect_comments(all.take(k + 1))));
                }
            },
            None => {},
        }
        proof {
            assert(defs@ =~= defs0 + collect_defs(all.take(k + 1)));
            assert(diags@ =~= diags0 + collect_diags(all.take(k + 1)));
            assert(rest@ =~= all.skip(k + 1));
            k = k + 1;
        }
    }
    assert(all.take(k) =~= all);
}

/// The diagnostics a run reports: those of the files, then, when the
/// environment holds a blocking one, all of the environment's.
pub open spec fn run_diags<D>(
    env_diags: Seq<Diagnostic>,
    targets: Seq<(IndexedPackagePath, ParsedFile<D>)>,
    deps: Seq<(IndexedPackagePath, ParsedFile<D>)>,
) -> Seq<Diagnostic> {
    let files = collect_diags(targets) + collect_diags(deps);
    if any_at_or_above(env_diags, Severity::BlockingError) {
        files + env_diags
    } else {
        files
    }
}

/// What assembling `targets` and `deps` gives, with the environment's
/// diagnostics going from `env_before` to `env_after`: the run's diagnostics
/// as the failure when one of them is blocking (the environment then gives
/// up its own, which are among them); else the program, whose source
/// definitions have been through `derive`, with the targets' comments and
/// the run's diagnostics.
pub open spec fn assembly_result<D, F: Fn(&NamedAddressMap, D) -> D>(
    env_before: Seq<Diagnostic>,
    env_after: Seq<Diagnostic>,
    maps: Seq<NamedAddressMap>,
    targets: Seq<(IndexedPackagePath, ParsedFile<D>)>,
    deps: Seq<(IndexedPackagePath, ParsedFile<D>)>,
    derive: F,
    r: Result<(Program<D>, CommentMap, Diagnostics), Diagnostics>,
) -> bool {
    let all = run_diags(env_before, targets, deps);
    &&& env_after == if any_at_or_above(env_before, Severity::BlockingError) {
        Seq::empty()
    } else {
        env_before
    }
    &&& any_at_or_above(all, Severity::BlockingError) ==> (r matches Err(ds) && ds@ == all)
    &&& !any_at_or_above(all, Severity::BlockingError) ==> (r matches Ok((prog, comments, ds)) && ds@ == all
        && comments.wf() && comments@ == collect_comments(targets) && prog.named_address_maps@ == maps
        && prog.lib_definitions@ == collect_defs(deps) && derived_from(
        maps,
        derive,
        collect_defs(targets),
        prog.source_definitions@,
    ))
}

/// Assembles the program from the parsed targets and dependencies, each in
/// the order given. The targets' definitions become the source definitions,
/// the dependencies' the library definitions; only the targets' comments are
/// kept. When some diagnostic of the run is blocking, the run fails with all
/// of them and no program is made. Else the source definitions go through
/// the attribute-derivation pass, and the program comes with the comment map
/// and the run's (non-blocking) diagnostics.
pub fn assemble_program<D, F: Fn(&NamedAddressMap, D) -> D>(
    env: &mut CompilationEnv,
    named_address_maps: NamedAddressMaps,
    targets: Vec<(IndexedPackagePath, ParsedFile<D>)>,
    deps: Vec<(IndexedPackagePath, ParsedFile<D>)>,
    derive: F,
) -> (r: Result<(Program<D>, CommentMap, Diagnostics), Diagnostics>)
    requires
        indices_resolve(targets@, named_address_maps@),
        indices_resolve(deps@, named_address_maps@),
        forall|m: &NamedAddressMap, d: D| call_requires(derive, (m, d)),
    ensures
        final(env).spec_sources_shadow_deps() == old(env).spec_sources_shadow_deps(),
        assembly_result(old(env).spec_diags(), final(env).spec_diags(), named_address_maps@, targets@, deps@, derive, r),
{
    let ghost t0 = targets@;
    let ghost d0 = deps@;
    let mut source_definitions: Vec<PackageDefinition<D>> = Vec::new();
    let mut lib_definitions: Vec<PackageDefinition<D>> = Vec::new();
    let mut diags = Diagnostics::new();
    let mut source_comments: Option<CommentMap> = Some(FileTable::new());
    let mut no_comments: Option<CommentMap> = None;
    proof {
        lemma_collected_indices_resolve(t0, named_address_maps@);
    }
    fold_files(targets, &mut source_definitions, &mut source_comments, &mut diags);
    fold_files(deps, &mut lib_definitions, &mut no_comments, &mut diags);
    assert(source_definitions@ =~= collect_defs(t0));
    assert(lib_definitions@ =~= collect_defs(d0));
    assert(diags@ =~= collect_diags(t0) + collect_diags(d0));
    match env.check_diags_at_or_above_severity(Severity::BlockingError) {
        Err(env_diags) => diags.extend(env_diags),
        Ok(()) => {},
    }
    if diags.has_at_or_above(Severity::BlockingError) {
        return Err(diags);
    }
    let comments = match source_comments {
        Some(c) => c,
        None => FileTable::new(),
    };
    assert(comments@ =~= collect_comments(t0));
    let derived = derive_attributes(&named_address_maps, source_definitions, derive);
    let prog = Program { named_address_maps, source_definitions: derived, lib_definitions };
    Ok((prog, comments, diags))
}

/// Every definition collected from files whose indices resolve has an index
/// that resolves.
pub proof fn lemma_collected_indices_resolve<D>(
    files: Seq<(IndexedPackagePath, ParsedFile<D>)>,
    maps: Seq<NamedAddressMap>,
)
    requires
        indices_resolve(files, maps),
    ensures
        forall|i: int|
            0 <= i < collect_defs(files).len() ==> (#[trigger] collect_defs(files)[i]).named_address_map
                < maps.len(),
    decreases files.len(),
{
    if files.len() > 0 {
        let init = files.drop_last();
        assert forall|i: int| 0 <= i < init.len() implies (#[trigger] init[i]).0.named_address_map < maps.len() by {
            assert(init[i] == files[i]);
        }
        lemma_collected_indices_resolve(init, maps);
        assert(files.last() == files[files.len() - 1]);
    }
}

/// A file's text and the grammar's outcome on it.
pub struct SourceUnit<D> {
    pub text: String,
    pub parsed: ParseOutcome<D>,
}

/// The registry `m` after recording each file of `units`, in order.
pub open spec fn register_all<D>(m: Map<Seq<u8>, (String, String)>, units: Seq<FileEntry<SourceUnit<D>>>) -> Map<
    Seq<u8>,
    (String, String),
>
    decreases units.len(),
{
    if units.len() == 0 {
        m
    } else {
        register_all(m, units.drop_last()).insert(
            sha256_of(units.last().source.text@),
            (units.last().path.path, units.last().source.text),
        )
    }
}

/// Handles each file in order (see `parse_source`), keeping its package path.
pub fn parse_files<D>(files: &mut FilesSourceText, units: Vec<FileEntry<SourceUnit<D>>>) -> (r: Vec<
    (IndexedPackagePath, ParsedFile<D>),
>)
    requires
        old(files).wf(),
    ensures
        final(files).wf(),
        final(files)@ == register_all(old(files)@, units@),
        r@.len() == units@.len(),
        forall|i: int|
            0 <= i < units@.len() ==> (#[trigger] r@[i]).0 == units@[i].path && parsed_file_matches(
                r@[i].1,
                units@[i].source.text@,
                units@[i].source.parsed,
            ),
{
    let ghost all = units@;
    let ghost files0 = files@;
    let mut rest = units;
    let mut out: Vec<(IndexedPackagePath, ParsedFile<D>)> = Vec::new();
    let ghost mut k: int = 0;
    assert(all.skip(0) =~= all);
    assert(all.take(0) =~= Seq::<FileEntry<SourceUnit<D>>>::empty());
    while rest.len() > 0
        invariant
            0 <= k <= all.len(),
            rest@ == all.skip(k),
            files.wf(),
            files@ == register_all(files0, all.take(k)),
            out@.len() == k,
            forall|i: int|
                0 <= i < k ==> (#[trigger] out@[i]).0 == all[i].path && parsed_file_matches(
                    out@[i].1,
                    all[i].source.text@,
                    all[i].source.parsed,
                ),
        decreases rest@.len(),
    {
        let e = rest.remove(0);
        assert(e == all[k]);
        let FileEntry { path, canonical: _, source } = e;
        let SourceUnit { text, parsed } = source;
        let fname = path.path.clone();
        let pf = parse_source(files, fname, text, parsed);
        out.push((path, pf));
        proof {
            assert(all.take(k + 1).drop_last() =~= all.take(k));
            assert(all.take(k + 1).last() == all[k]);
            assert(rest@ =~= all.skip(k + 1));
            k = k + 1;
        }
    }
    assert(all.take(k) =~= all);
    out
}

/// The sources handed in do not pair one for one with the paths.
#[derive(Clone, Debug, PartialEq, Eq)]
pub struct SourceCountMismatch {
    pub paths: usize,
    pub sources: usize,
}

/// Pairs each path with the text at the same position; the canonical path
/// of an in-memory file is its name as given. Fails when the counts differ.
pub fn pair_sources(paths: Vec<IndexedPackagePath>, sources: Vec<String>) -> (r: Result<
    Vec<FileEntry<String>>,
    SourceCountMismatch,
>)
    ensures
        paths@.len() != sources@.len() <==> r is Err,
        r matches Err(e) ==> e.paths == paths@.len() && e.sources == sources@.len(),
        r matches Ok(v) ==> v@.len() == paths@.len() && forall|i: int|
            0 <= i < v@.len() ==> (#[trigger] v@[i]).path == paths@[i] && v@[i].canonical@
                == paths@[i].path@ && v@[i].source == sources@[i],
{
    if paths.len() != sources.len() {
        return Err(SourceCountMismatch { paths: paths.len(), sources: sources.len() });
    }
    let ghost ps = paths@;
    let ghost ss = sources@;
    let mut prest = paths;
    let mut srest = sources;
    let mut out: Vec<FileEntry<String>> = Vec::new();
    let ghost mut k: int = 0;
    assert(ps.skip(0) =~= ps);
    assert(ss.skip(0) =~= ss);
    while prest.len() > 0
        invariant
            ps.len() == ss.len(),
            0 <= k <= ps.len(),
            prest@ == ps.skip(k),
            srest@ == ss.skip(k),
            out@.len() == k,
            forall|i: int|
                0 <= i < k ==> (#[trigger] out@[i]).path == ps[i] && out@[i].canonical@ == ps[i].path@
                    && out@[i].source == ss[i],
        decreases prest@.len(),
    {
        let p = prest.remove(0);
        let s = srest.remove(0);
        assert(p == ps[k] && s == ss[k]);
        let canonical = p.path.clone();
        out.push(FileEntry { path: p, canonical, source: s });
        proof {
            assert(prest@ =~= ps.skip(k + 1));
            assert(srest@ =~= ss.skip(k + 1));
            k = k + 1;
        }
    }
    Ok(out)
}

/// Running the derivation pass again on its own output changes nothing,
/// given a transform that leaves what it produced as it is.
pub proof fn lemma_derivation_idempotent<D, F: Fn(&NamedAddressMap, D) -> D>(
    maps: Seq<NamedAddressMap>,
    derive: F,
    before: Seq<PackageDefinition<D>>,
    once: Seq<PackageDefinition<D>>,
    twice: Seq<PackageDefinition<D>>,
)
    requires
        forall|m: &NamedAddressMap, d: D, d1: D, d2: D|
            #[trigger] call_ensures(derive, (m, d), d1) && #[trigger] call_ensures(derive, (m, d1), d2) ==> d2 == d1,
        derived_from(maps, derive, before, once),
        derived_from(maps, derive, once, twice),
    ensures
        twice == once,
{
    assert forall|i: int| 0 <= i < once.len() implies #[trigger] twice[i] == once[i] by {
        let m = &maps[before[i].named_address_map as int];
        assert(call_ensures(derive, (m, before[i].def), once[i].def));
        assert(call_ensures(derive, (m, once[i].def), twice[i].def));
    }
    assert(twice =~= once);
}

/// Each file's diagnostics join the run's, and each file's definitions stand
/// among the collected ones, whatever the other files reported: a file that
/// failed to parse keeps no other file from contributing its definitions.
pub proof fn lemma_each_file_contributes<D>(files: Seq<(IndexedPackagePath, ParsedFile<D>)>, i: int)
    requires
        0 <= i < files.len(),
    ensures
        exists|off: int|
            0 <= off && off + files[i].1.diags@.len() <= collect_diags(files).len() && #[trigger] collect_diags(
                files,
            ).subrange(off, off + files[i].1.diags@.len()) == files[i].1.diags@,
        exists|off: int|
            0 <= off && off + files[i].1.defs@.len() <= collect_defs(files).len() && #[trigger] collect_defs(
                files,
            ).subrange(off, off + files[i].1.defs@.len()) == tag_defs(files[i].0, files[i].1.defs@),
    decreases files.len(),
{
    let init = files.drop_last();
    let ds = collect_diags(files);
    let fs = collect_defs(files);
    if i == files.len() - 1 {
        let off = collect_diags(init).len() as int;
        assert(ds.subrange(off, off + files[i].1.diags@.len()) =~= files[i].1.diags@);
        let off2 = collect_defs(init).len() as int;
        assert(tag_defs(files[i].0, files[i].1.defs@).len() == files[i].1.defs@.len());
        assert(fs.subrange(off2, off2 + files[i].1.defs@.len()) =~= tag_defs(files[i].0, files[i].1.defs@));
    } else {
        lemma_each_file_contributes(init, i);
        assert(init[i] == files[i]);
        let off = choose|off: int|
            0 <= off && off + files[i].1.diags@.len() <= collect_diags(init).len() && #[trigger] collect_diags(
                init,
            ).subrange(off, off + files[i].1.diags@.len()) == files[i].1.diags@;
        assert(ds.subrange(off, off + files[i].1.diags@.len()) =~= collect_diags(init).subrange(
            off,
            off + files[i].1.diags@.len(),
        ));
        let off2 = choose|off: int|
            0 <= off && off + files[i].1.defs@.len() <= collect_defs(init).len() && #[trigger] collect_defs(
                init,
            ).subrange(off, off + files[i].1.defs@.len()) == tag_defs(files[i].0, files[i].1.defs@);
        assert(fs.subrange(off2, off2 + files[i].1.defs@.len()) =~= collect_defs(init).subrange(
            off2,
            off2 + files[i].1.defs@.len(),
        ));
    }
}

proof fn lemma_comment_map_last_wins<D>(files: Seq<(IndexedPackagePath, ParsedFile<D>)>, j: int)
    requires
        0 <= j < files.len(),
        forall|k: int| j < k < files.len() ==> (#[trigger] files[k]).1.file_hash@ != files[j].1.file_hash@,
    ensures
        collect_comments(files).contains_key(files[j].1.file_hash@),
        collect_comments(files)[files[j].1.file_hash@] == files[j].1.comments,
    decreases files.len(),
{
    let init = files.drop_last();
    if j < files.len() - 1 {
        assert forall|k: int| j < k < init.len() implies (#[trigger] init[k]).1.file_hash@ != init[j].1.file_hash@ by {
            assert(init[k] == files[k]);
        }
        lemma_comment_map_last_wins(init, j);
        assert(init[j] == files[j]);
        assert(files.last() == files[files.len() - 1]);
    }
}

/// Two target files with the same text share a hash, so their comments fall
/// under one entry of the comment map, and the entry holds the comments of
/// the later one when no file after it has that hash.
pub proof fn lemma_same_text_one_comment_entry<D>(
    files: Seq<(IndexedPackagePath, ParsedFile<D>)>,
    i: int,
    j: int,
    text_i: Seq<char>,
    text_j: Seq<char>,
)
    requires
        0 <= i < j < files.len(),
        files[i].1.file_hash@ == sha256_of(text_i),
        files[j].1.file_hash@ == sha256_of(text_j),
        text_i == text_j,
        forall|k: int| j < k < files.len() ==> (#[trigger] files[k]).1.file_hash@ != files[j].1.file_hash@,
    ensures
        files[i].1.file_hash@ == files[j].1.file_hash@,
        collect_comments(files).contains_key(files[j].1.file_hash@),
        collect_comments(files)[files[i].1.file_hash@] == files[j].1.comments,
{
    lemma_comment_map_last_wins(files, j);
}

/// `parsed` is `units` handled file by file, in order (see `parse_source`).
pub open spec fn parsed_in_order<D>(
    units: Seq<FileEntry<SourceUnit<D>>>,
    parsed: Seq<(IndexedPackagePath, ParsedFile<D>)>,
) -> bool {
    &&& parsed.len() == units.len()
    &&& forall|i: int|
        0 <= i < units.len() ==> (#[trigger] parsed[i]).0 == units[i].path && parsed_file_matches(
            parsed[i].1,
            units[i].source.text@,
            units[i].source.parsed,
        )
}

/// Every file refers to a table of the pool.
pub open spec fn units_resolve<D>(units: Seq<FileEntry<SourceUnit<D>>>, maps: Seq<NamedAddressMap>) -> bool {
    forall|i: int| 0 <= i < units.len() ==> (#[trigger] units[i]).path.named_address_map < maps.len()
}

proof fn lemma_units_resolve_after_parse<D>(
    units: Seq<FileEntry<SourceUnit<D>>>,
    parsed: Seq<(IndexedPackagePath, ParsedFile<D>)>,
    maps: Seq<NamedAddressMap>,
)
    requires
        units_resolve(units, maps),
        parsed_in_order(units, parsed),
    ensures
        indices_resolve(parsed, maps),
{
    assert forall|i: int| 0 <= i < parsed.len() implies (#[trigger] parsed[i]).0.named_address_map < maps.len() by {
        assert(units[i].path == parsed[i].0);
    }
}

proof fn lemma_units_resolve_sub<D>(
    from: Seq<FileEntry<SourceUnit<D>>>,
    to: Seq<FileEntry<SourceUnit<D>>>,
    maps: Seq<NamedAddressMap>,
)
    requires
        units_resolve(from, maps),
        forall|x: FileEntry<SourceUnit<D>>| #[trigger] to.to_multiset().count(x) > 0 ==> from.to_multiset().count(x) > 0,
    ensures
        units_resolve(to, maps),
{
    broadcast use vstd::seq_lib::group_to_multiset_ensures;

    assert forall|i: int| 0 <= i < to.len() implies (#[trigger] to[i]).path.named_address_map < maps.len() by {
        assert(to.contains(to[i]));
        assert(to.to_multiset().count(to[i]) > 0);
        assert(from.contains(to[i]));
        let j = choose|j: int| 0 <= j < from.len() && from[j] == to[i];
    }
}

/// Compiles in-memory files: each file comes with its text and the grammar's
/// outcome on it. The targets and the dependencies are put in canonical-path
/// order and the policy for files listed in both is applied (a refusal ends
/// the run before any file is recorded); then each file is handled in that
/// order, targets first, every text recorded in the returned registry; then
/// the program is assembled.
pub fn parse_source_program<D, F: Fn(&NamedAddressMap, D) -> D>(
    env: &mut CompilationEnv,
    named_address_maps: NamedAddressMaps,
    targets: Vec<FileEntry<SourceUnit<D>>>,
    deps: Vec<FileEntry<SourceUnit<D>>>,
    derive: F,
) -> (r: Result<(FilesSourceText, Result<(Program<D>, CommentMap, Diagnostics), Diagnostics>), TargetDependencyConflict>)
    requires
        units_resolve(targets@, named_address_maps@),
        units_resolve(deps@, named_address_maps@),
        forall|m: &NamedAddressMap, d: D| call_requires(derive, (m, d)),
    ensures
        final(env).spec_sources_shadow_deps() == old(env).spec_sources_shadow_deps(),
        r is Err <==> (!old(env).spec_sources_shadow_deps() && exists|c: Seq<char>|
            #[trigger] conflicts(targets@, deps@).contains(c)),
        r matches Err(e) ==> final(env).spec_diags() == old(env).spec_diags() && strictly_increasing(e.paths@)
            && forall|c: Seq<char>| #[trigger] names_path(e.paths@, c) <==> conflicts(targets@, deps@).contains(c),
        r matches Ok((files, res)) ==> exists|
            ts: Seq<FileEntry<SourceUnit<D>>>,
            ds: Seq<FileEntry<SourceUnit<D>>>,
            pts: Seq<(IndexedPackagePath, ParsedFile<D>)>,
            pds: Seq<(IndexedPackagePath, ParsedFile<D>)>,
        |
            #![trigger parsed_in_order(ts, pts), parsed_in_order(ds, pds)]
            in_canonical_order(targets@, ts) && shadowed_in_order(deps@, targets@, ds) && parsed_in_order(ts, pts)
                && parsed_in_order(ds, pds) && files.wf() && files@ == register_all(
                register_all(Map::empty(), ts),
                ds,
            ) && assembly_result(
                old(env).spec_diags(),
                final(env).spec_diags(),
                named_address_maps@,
                pts,
                pds,
                derive,
                res,
            ),
{
    let ghost tg = targets@;
    let ghost dg = deps@;
    let (ts, ds) = match resolve_file_sets(&*env, targets, deps) {
        Ok(p) => p,
        Err(e) => return Err(e),
    };
    let ghost tsv = ts@;
    let ghost dsv = ds@;
    proof {
        lemma_units_resolve_sub(tg, tsv, named_address_maps@);
        lemma_units_resolve_sub(dg, dsv, named_address_maps@);
    }
    let mut files: FilesSourceText = FileTable::new();
    let pts = parse_files(&mut files, ts);
    let pds = parse_files(&mut files, ds);
    proof {
        lemma_units_resolve_after_parse(tsv, pts@, named_address_maps@);
        lemma_units_resolve_after_parse(dsv, pds@, named_address_maps@);
    }
    let ghost ptv = pts@;
    let ghost pdv = pds@;
    let ghost maps = named_address_maps@;
    let ghost env0 = env.spec_diags();
    let res = assemble_program(env, named_address_maps, pts, pds, derive);
    assert(parsed_in_order(tsv, ptv) && parsed_in_order(dsv, pdv));
    assert(assembly_result(env0, env.spec_diags(), maps, ptv, pdv, derive, res));
    Ok((files, res))
}

} // verus!
