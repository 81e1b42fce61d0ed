//! Source paths, their canonical order, and the policy for files listed both
//! as targets and as dependencies.
use crate::diagnostics::CompilationEnv;
use vstd::multiset::Multiset;
use vstd::prelude::*;
use vstd::utf8::encode_utf8;

verus! {

broadcast use {vstd::seq_lib::group_to_multiset_ensures, vstd::multiset::group_multiset_axioms};

/// A file (or directory) of a package, with the index of the named-address
/// table that its code resolves addresses against.
#[derive(Clone, Debug, PartialEq, Eq, Hash)]
pub struct IndexedPackagePath {
    pub package: Option<String>,
    pub path: String,
    pub named_address_map: usize,
}

/// One concrete file to compile: its package path, its canonical path (the
/// resolved path, or the path as given where it cannot be resolved), and
/// what comes with it (its text, or nothing while it is still to be read).
#[derive(Clone, Debug, PartialEq, Eq)]
pub struct FileEntry<T> {
    pub path: IndexedPackagePath,
    pub canonical: String,
    pub source: T,
}

/// Files listed both as targets and as dependencies, which the run refuses.
#[derive(Clone, Debug, PartialEq, Eq)]
pub struct TargetDependencyConflict {
    pub paths: Vec<String>,
}

/// Lexicographic order on byte strings: `a` is at most `b`.
pub open spec fn bytes_le(a: Seq<u8>, b: Seq<u8>) -> bool
    decreases a.len(),
{
    if a.len() == 0 {
        true
    } else if b.len() == 0 {
        false
    } else if a[0] != b[0] {
        a[0] < b[0]
    } else {
        bytes_le(a.drop_first(), b.drop_first())
    }
}

/// Paths are ordered as their UTF-8 encodings are, byte by byte.
pub open spec fn path_le(a: Seq<char>, b: Seq<char>) -> bool {
    bytes_le(encode_utf8(a), encode_utf8(b))
}

pub open spec fn path_lt(a: Seq<char>, b: Seq<char>) -> bool {
    path_le(a, b) && a != b
}

/// The entries are in canonical-path order.
pub open spec fn sorted_by_canonical<T>(s: Seq<FileEntry<T>>) -> bool {
    forall|i: int, j: int|
        0 <= i < j < s.len() ==> path_le((#[trigger] s[i]).canonical@, (#[trigger] s[j]).canonical@)
}

/// The paths are in strictly increasing order, so each occurs once.
pub open spec fn strictly_increasing(s: Seq<String>) -> bool {
    forall|i: int, j: int| 0 <= i < j < s.len() ==> path_lt((#[trigger] s[i])@, (#[trigger] s[j])@)
}

/// Some entry of `s` has canonical path `c`.
pub open spec fn listed_in<T>(s: Seq<FileEntry<T>>, c: Seq<char>) -> bool {
    exists|i: int| 0 <= i < s.len() && (#[trigger] s[i]).canonical@ == c
}

/// The canonical paths listed both in `targets` and in `deps`.
pub open spec fn conflicts<T>(targets: Seq<FileEntry<T>>, deps: Seq<FileEntry<T>>) -> Set<Seq<char>> {
    Set::new(|c: Seq<char>| listed_in(targets, c) && listed_in(deps, c))
}

pub proof fn lemma_bytes_le_total(a: Seq<u8>, b: Seq<u8>)
    ensures
        bytes_le(a, b) || bytes_le(b, a),
    decreases a.len(),
{
    if a.len() > 0 && b.len() > 0 && a[0] == b[0] {
        lemma_bytes_le_total(a.drop_first(), b.drop_first());
    }
}

pub proof fn lemma_bytes_le_trans(a: Seq<u8>, b: Seq<u8>, c: Seq<u8>)
    requires
        bytes_le(a, b),
        bytes_le(b, c),
    ensures
        bytes_le(a, c),
    decreases a.len(),
{
    if a.len() > 0 && b.len() > 0 && c.len() > 0 && a[0] == b[0] && b[0] == c[0] {
        lemma_bytes_le_trans(a.drop_first(), b.drop_first(), c.drop_first());
    }
}

pub proof fn lemma_bytes_le_antisym(a: Seq<u8>, b: Seq<u8>)
    requires
        bytes_le(a, b),
        bytes_le(b, a),
    ensures
        a == b,
    decreases a.len(),
{
    if a.len() > 0 && b.len() > 0 {
        lemma_bytes_le_antisym(a.drop_first(), b.drop_first());
        assert(a =~= seq![a[0]] + a.drop_first());
        assert(b =~= seq![b[0]] + b.drop_first());
    }
}

pub proof fn lemma_path_le_total(a: Seq<char>, b: Seq<char>)
    ensures
        path_le(a, b) || path_le(b, a),
{
    lemma_bytes_le_total(encode_utf8(a), encode_utf8(b));
}

pub proof fn lemma_path_le_trans(a: Seq<char>, b: Seq<char>, c: Seq<char>)
    requires
        path_le(a, b),
        path_le(b, c),
    ensures
        path_le(a, c),
{
    lemma_bytes_le_trans(encode_utf8(a), encode_utf8(b), encode_utf8(c));
}

pub proof fn lemma_path_le_antisym(a: Seq<char>, b: Seq<char>)
    requires
        path_le(a, b),
        path_le(b, a),
    ensures
        a == b,
{
    lemma_bytes_le_antisym(encode_utf8(a), encode_utf8(b));
    vstd::utf8::encode_utf8_decode_utf8(a);
    vstd::utf8::encode_utf8_decode_utf8(b);
}

/// Whether path `a` comes at or before path `b`.
pub fn path_le_exec(a: &String, b: &String) -> (r: bool)
    ensures
        r == path_le(a@, b@),
{
    let x = a.as_str().as_bytes();
    let y = b.as_str().as_bytes();
    let mut i: usize = 0;
    assert(x@.skip(0) =~= x@ && y@.skip(0) =~= y@);
    while i < x.len()
        invariant
            x@ == encode_utf8(a@),
            y@ == encode_utf8(b@),
            0 <= i <= x@.len(),
            i <= y@.len(),
            bytes_le(x@, y@) == bytes_le(x@.skip(i as int), y@.skip(i as int)),
        decreases x@.len() - i,
    {
        if i >= y.len() {
            return false;
        }
        assert(x@.skip(i as int).drop_first() =~= x@.skip(i + 1));
        assert(y@.skip(i as int).drop_first() =~= y@.skip(i + 1));
        if x[i] != y[i] {
            return x[i] < y[i];
        }
        i = i + 1;
    }
    true
}

/// Where `c` goes in the sorted `out`: after every entry at or before it.
fn insert_position<T>(out: &Vec<FileEntry<T>>, c: &String) -> (j: usize)
    requires
        sorted_by_canonical(out@),
    ensures
        j <= out@.len(),
        forall|k: int| 0 <= k < j ==> path_le((#[trigger] out@[k]).canonical@, c@),
        forall|k: int| j <= k < out@.len() ==> !path_le((#[trigger] out@[k]).canonical@, c@),
{
    let mut j: usize = 0;
    while j < out.len()
        invariant
            sorted_by_canonical(out@),
            0 <= j <= out@.len(),
            forall|k: int| 0 <= k < j ==> path_le((#[trigger] out@[k]).canonical@, c@),
        decreases out@.len() - j,
    {
        if !path_le_exec(&out[j].canonical, c) {
            assert forall|k: int| j <= k < out@.len() implies !path_le((#[trigger] out@[k]).canonical@, c@) by {
                if k > j && path_le(out@[k].canonical@, c@) {
                    assert(path_le(out@[j as int].canonical@, out@[k].canonical@));
                    lemma_path_le_trans(out@[j as int].canonical@, out@[k].canonical@, c@);
                }
            }
            return j;
        }
        j = j + 1;
    }
    j
}

/// The entries in canonical-path order; entries with the same canonical path
/// may come in any order among themselves.
pub fn sort_by_canonical<T>(v: Vec<FileEntry<T>>) -> (r: Vec<FileEntry<T>>)
    ensures
        sorted_by_canonical(r@),
        r@.to_multiset() == v@.to_multiset(),
{
    let mut input = v;
    let mut out: Vec<FileEntry<T>> = Vec::new();
    assert(out@.to_multiset() =~= Multiset::empty());
    assert(out@.to_multiset().add(input@.to_multiset()) =~= v@.to_multiset());
    while input.len() > 0
        invariant
            sorted_by_canonical(out@),
            out@.to_multiset().add(input@.to_multiset()) == v@.to_multiset(),
        decreases input@.len(),
    {
        let ghost before = input@;
        let x = input.pop().unwrap();
        assert(before == input@.push(x));
        let j = insert_position(&out, &x.canonical);
        let ghost prev = out@;
        out.insert(j, x);
        assert(out@ == prev.insert(j as int, x));
        assert(out@.to_multiset().add(input@.to_multiset()) =~= v@.to_multiset());
        assert forall|a: int, b: int| 0 <= a < b < out@.len() implies path_le(
            (#[trigger] out@[a]).canonical@,
            (#[trigger] out@[b]).canonical@,
        ) by {
            if a < j && b == j {
            } else if a == j && b > j {
                assert(out@[b] == prev[b - 1]);
                lemma_path_le_total(prev[b - 1].canonical@, x.canonical@);
            } else if a < j && b > j {
                assert(out@[b] == prev[b - 1]);
                assert(path_le(prev[a].canonical@, prev[b - 1].canonical@));
            } else if a > j {
                assert(out@[a] == prev[a - 1] && out@[b] == prev[b - 1]);
                assert(path_le(prev[a - 1].canonical@, prev[b - 1].canonical@));
            } else {
                assert(out@[a] == prev[a] && out@[b] == prev[b]);
            }
        }
    }
    assert(input@.to_multiset() =~= Multiset::empty());
    assert(out@.to_multiset() =~= v@.to_multiset());
    out
}

/// `r` is `input` in canonical-path order.
pub open spec fn in_canonical_order<T>(input: Seq<FileEntry<T>>, r: Seq<FileEntry<T>>) -> bool {
    sorted_by_canonical(r) && r.to_multiset() == input.to_multiset()
}

/// `r` is `deps` in canonical-path order, less every entry whose canonical
/// path is listed in `targets`.
pub open spec fn shadowed_in_order<T>(
    deps: Seq<FileEntry<T>>,
    targets: Seq<FileEntry<T>>,
    r: Seq<FileEntry<T>>,
) -> bool {
    &&& sorted_by_canonical(r)
    &&& forall|x: FileEntry<T>|
        #[trigger] r.to_multiset().count(x) == if listed_in(targets, x.canonical@) {
            0
        } else {
            deps.to_multiset().count(x)
        }
}

proof fn lemma_listed_same_multiset<T>(a: Seq<FileEntry<T>>, b: Seq<FileEntry<T>>, c: Seq<char>)
    requires
        a.to_multiset() == b.to_multiset(),
    ensures
        listed_in(a, c) == listed_in(b, c),
{
    if listed_in(a, c) {
        let i = choose|i: int| 0 <= i < a.len() && (#[trigger] a[i]).canonical@ == c;
        assert(a.contains(a[i]));
        assert(a.to_multiset().count(a[i]) > 0);
        assert(b.to_multiset().count(a[i]) > 0);
        assert(b.contains(a[i]));
        let k = choose|k: int| 0 <= k < b.len() && b[k] == a[i];
        assert(b[k].canonical@ == c);
    }
    if listed_in(b, c) {
        let i = choose|i: int| 0 <= i < b.len() && (#[trigger] b[i]).canonical@ == c;
        assert(b.contains(b[i]));
        assert(b.to_multiset().count(b[i]) > 0);
        assert(a.to_multiset().count(b[i]) > 0);
        assert(a.contains(b[i]));
        let k = choose|k: int| 0 <= k < a.len() && a[k] == b[i];
        assert(a[k].canonical@ == c);
    }
}

/// Whether some entry of `s` has canonical path `c`.
fn is_listed<T>(s: &Vec<FileEntry<T>>, c: &String) -> (r: bool)
    ensures
        r == listed_in(s@, c@),
{
    let mut i: usize = 0;
    while i < s.len()
        invariant
            0 <= i <= s@.len(),
            forall|k: int| 0 <= k < i ==> (#[trigger] s@[k]).canonical@ != c@,
        decreases s@.len() - i,
    {
        if s[i].canonical == *c {
            return true;
        }
        i = i + 1;
    }
    false
}

/// The entries of `v` whose canonical path is not listed in `targets`.
fn drop_listed<T>(v: Vec<FileEntry<T>>, targets: &Vec<FileEntry<T>>) -> (r: Vec<FileEntry<T>>)
    ensures
        forall|x: FileEntry<T>|
            #[trigger] r@.to_multiset().count(x) == if listed_in(targets@, x.canonical@) {
                0
            } else {
                v@.to_multiset().count(x)
            },
{
    let mut input = v;
    let mut out: Vec<FileEntry<T>> = Vec::new();
    while input.len() > 0
        invariant
            forall|x: FileEntry<T>|
                #[trigger] out@.to_multiset().count(x) + (if listed_in(targets@, x.canonical@) {
                    0
                } else {
                    input@.to_multiset().count(x)
                }) == if listed_in(targets@, x.canonical@) {
                    0
                } else {
                    v@.to_multiset().count(x)
                },
        decreases input@.len(),
    {
        let ghost before = input@;
        let ghost prev = out@;
        let x = input.pop().unwrap();
        assert(before == input@.push(x));
        if !is_listed(targets, &x.canonical) {
            out.push(x);
        }
        assert forall|y: FileEntry<T>|
            #[trigger] out@.to_multiset().count(y) + (if listed_in(targets@, y.canonical@) {
                0
            } else {
                input@.to_multiset().count(y)
            }) == if listed_in(targets@, y.canonical@) {
                0
            } else {
                v@.to_multiset().count(y)
            } by {
            assert(before.to_multiset() == input@.to_multiset().insert(x));
            if listed_in(targets@, x.canonical@) {
                assert(out@ == prev);
            } else {
                assert(out@ == prev.push(x));
            }
        }
    }
    assert forall|x: FileEntry<T>| #[trigger] input@.to_multiset().count(x) == 0 by {
        assert(input@.to_multiset() =~= Multiset::empty());
    }
    out
}

/// Some path of `paths` is `c`.
pub open spec fn names_path(paths: Seq<String>, c: Seq<char>) -> bool {
    exists|k: int| 0 <= k < paths.len() && (#[trigger] paths[k])@ == c
}

/// Some of the first `n` entries of `s` has canonical path `c`.
spec fn listed_before<T>(s: Seq<FileEntry<T>>, n: int, c: Seq<char>) -> bool {
    exists|j: int| 0 <= j < n && (#[trigger] s[j]).canonical@ == c
}

/// Puts the targets and the dependencies each in canonical-path order, and
/// applies the policy for files listed in both: without `sources_shadow_deps`
/// the run is refused, naming every such path once, in order; with it they
/// are dropped from the dependencies.
pub fn resolve_file_sets<T>(
    env: &CompilationEnv,
    targets: Vec<FileEntry<T>>,
    deps: Vec<FileEntry<T>>,
) -> (r: Result<(Vec<FileEntry<T>>, Vec<FileEntry<T>>), TargetDependencyConflict>)
    ensures
        r is Err <==> (!env.spec_sources_shadow_deps() && exists|c: Seq<char>|
            #[trigger] conflicts(targets@, deps@).contains(c)),
        r matches Ok((ts, ds)) ==> in_canonical_order(targets@, ts@) && shadowed_in_order(
            deps@,
            targets@,
            ds@,
        ),
        r matches Err(e) ==> strictly_increasing(e.paths@) && forall|c: Seq<char>|
            #[trigger] names_path(e.paths@, c) <==> conflicts(targets@, deps@).contains(c),
{
    let ghost t0 = targets@;
    let ghost d0 = deps@;
    let ts = sort_by_canonical(targets);
    let ds = sort_by_canonical(deps);
    assert forall|c: Seq<char>| listed_in(ts@, c) == listed_in(t0, c) && listed_in(ds@, c) == listed_in(d0, c) by {
        lemma_listed_same_multiset(ts@, t0, c);
        lemma_listed_same_multiset(ds@, d0, c);
    }
    let mut paths: Vec<String> = Vec::new();
    let mut i: usize = 0;
    while i < ds.len()
        invariant
            sorted_by_canonical(ds@),
            0 <= i <= ds@.len(),
            strictly_increasing(paths@),
            paths@.len() > 0 ==> listed_before(ds@, i as int, paths@.last()@),
            forall|c: Seq<char>|
                #[trigger] names_path(paths@, c) <==> (listed_in(ts@, c) && listed_before(ds@, i as int, c)),
        decreases ds@.len() - i,
    {
        let ghost c = ds@[i as int].canonical@;
        let ghost prev = paths@;
        let listed = is_listed(&ts, &ds[i].canonical);
        if listed {
            let n = paths.len();
            if n == 0 || !(paths[n - 1] == ds[i].canonical) {
                proof {
                    if n > 0 {
                        let j = choose|j: int| 0 <= j < i && (#[trigger] ds@[j]).canonical@ == prev.last()@;
                        assert(path_le(ds@[j].canonical@, ds@[i as int].canonical@));
                        assert forall|k: int| 0 <= k < n implies path_lt((#[trigger] prev[k])@, c) by {
                            if k < n - 1 {
                                assert(path_lt(prev[k]@, prev[n - 1]@));
                                lemma_path_le_trans(prev[k]@, prev[n - 1]@, c);
                                if prev[k]@ == c {
                                    lemma_path_le_antisym(prev[k]@, prev[n - 1]@);
                                }
                            }
                        }
                    }
                }
                paths.push(ds[i].canonical.clone());
                proof {
                    assert(paths@[n as int]@ == c);
                    assert(listed_before(ds@, i + 1, c));
                    assert forall|c2: Seq<char>|
                        #[trigger] names_path(paths@, c2) <==> (listed_in(ts@, c2) && listed_before(ds@, i + 1, c2)) by {
                        assert(names_path(prev, c2) <==> (listed_in(ts@, c2) && listed_before(ds@, i as int, c2)));
                        if names_path(paths@, c2) {
                            let k = choose|k: int| 0 <= k < paths@.len() && (#[trigger] paths@[k])@ == c2;
                            if k < n {
                                assert(prev[k]@ == c2);
                                let j = choose|j: int| 0 <= j < i && (#[trigger] ds@[j]).canonical@ == c2;
                                assert(listed_before(ds@, i + 1, c2));
                            }
                        }
                        if listed_in(ts@, c2) && listed_before(ds@, i + 1, c2) {
                            let j = choose|j: int| 0 <= j < i + 1 && (#[trigger] ds@[j]).canonical@ == c2;
                            if j < i {
                                assert(listed_before(ds@, i as int, c2));
                                let k = choose|k: int| 0 <= k < prev.len() && (#[trigger] prev[k])@ == c2;
                                assert(paths@[k] == prev[k]);
                            } else {
                                assert(paths@[n as int]@ == c2);
                            }
                        }
                    }
                }
            } else {
                proof {
                    assert(paths@[n - 1]@ == c);
                    assert forall|c2: Seq<char>|
                        #[trigger] names_path(paths@, c2) <==> (listed_in(ts@, c2) && listed_before(ds@, i + 1, c2)) by {
                        assert(names_path(prev, c2) <==> (listed_in(ts@, c2) && listed_before(ds@, i as int, c2)));
                        if names_path(paths@, c2) {
                            let j = choose|j: int| 0 <= j < i && (#[trigger] ds@[j]).canonical@ == c2;
                            assert(listed_before(ds@, i + 1, c2));
                        }
                        if listed_in(ts@, c2) && listed_before(ds@, i + 1, c2) {
                            let j = choose|j: int| 0 <= j < i + 1 && (#[trigger] ds@[j]).canonical@ == c2;
                            if j == i {
                                assert(paths@[n - 1]@ == c2);
                            } else {
                                assert(listed_before(ds@, i as int, c2));
                            }
                        }
                    }
                    let j = choose|j: int| 0 <= j < i && (#[trigger] ds@[j]).canonical@ == prev.last()@;
                    assert(listed_before(ds@, i + 1, paths@.last()@));
                }
            }
        } else {
            proof {
                assert forall|c2: Seq<char>|
                    #[trigger] names_path(paths@, c2) <==> (listed_in(ts@, c2) && listed_before(ds@, i + 1, c2)) by {
                    assert(names_path(prev, c2) <==> (listed_in(ts@, c2) && listed_before(ds@, i as int, c2)));
                    if names_path(paths@, c2) {
                        let j = choose|j: int| 0 <= j < i && (#[trigger] ds@[j]).canonical@ == c2;
                        assert(listed_before(ds@, i + 1, c2));
                    }
                    if listed_in(ts@, c2) && listed_before(ds@, i + 1, c2) {
                        let j = choose|j: int| 0 <= j < i + 1 && (#[trigger] ds@[j]).canonical@ == c2;
                        if j == i {
                            assert(false);
                        } else {
                            assert(listed_before(ds@, i as int, c2));
                        }
                    }
                }
                if paths@.len() > 0 {
                    let j = choose|j: int| 0 <= j < i && (#[trigger] ds@[j]).canonical@ == prev.last()@;
                    assert(listed_before(ds@, i + 1, paths@.last()@));
                }
            }
        }
        i = i + 1;
    }
    assert forall|c: Seq<char>| #[trigger] names_path(paths@, c) <==> conflicts(t0, d0).contains(c) by {
        assert(names_path(paths@, c) <==> (listed_in(ts@, c) && listed_before(ds@, ds@.len() as int, c)));
        if listed_in(ds@, c) {
            let j = choose|j: int| 0 <= j < ds@.len() && (#[trigger] ds@[j]).canonical@ == c;
            assert(listed_before(ds@, ds@.len() as int, c));
        }
    }
    if paths.len() == 0 {
        proof {
            assert forall|x: FileEntry<T>|
                #[trigger] ds@.to_multiset().count(x) == if listed_in(t0, x.canonical@) {
                    0
                } else {
                    d0.to_multiset().count(x)
                } by {
                if listed_in(t0, x.canonical@) && ds@.to_multiset().count(x) > 0 {
                    assert(ds@.contains(x));
                    let j = choose|j: int| 0 <= j < ds@.len() && ds@[j] == x;
                    assert(listed_in(ds@, x.canonical@));
                    assert(conflicts(t0, d0).contains(x.canonical@));
                    assert(names_path(paths@, x.canonical@));
                }
            }
            if exists|c: Seq<char>| #[trigger] conflicts(t0, d0).contains(c) {
                let c = choose|c: Seq<char>| #[trigger] conflicts(t0, d0).contains(c);
                assert(names_path(paths@, c));
            }
        }
        Ok((ts, ds))
    } else if env.sources_shadow_deps() {
        let kept = drop_listed(ds, &ts);
        let sorted = sort_by_canonical(kept);
        assert forall|x: FileEntry<T>|
            #[trigger] sorted@.to_multiset().count(x) == if listed_in(t0, x.canonical@) {
                0
            } else {
                d0.to_multiset().count(x)
            } by {
            assert(kept@.to_multiset().count(x) == sorted@.to_multiset().count(x));
        }
        Ok((ts, sorted))
    } else {
        assert(names_path(paths@, paths@[0]@));
        assert(conflicts(t0, d0).contains(paths@[0]@));
        Err(TargetDependencyConflict { paths })
    }
}

/// No two entries share a canonical path.
pub open spec fn distinct_canonical<T>(s: Seq<FileEntry<T>>) -> bool {
    forall|i: int, j: int| 0 <= i < j < s.len() ==> (#[trigger] s[i]).canonical@ != (#[trigger] s[j]).canonical@
}

/// The entries are in strictly increasing canonical-path order.
pub open spec fn strictly_sorted_by_canonical<T>(s: Seq<FileEntry<T>>) -> bool {
    forall|i: int, j: int|
        0 <= i < j < s.len() ==> path_lt((#[trigger] s[i]).canonical@, (#[trigger] s[j]).canonical@)
}

/// Entries of the multiset that share a canonical path are the same entry.
spec fn key_unique<T>(m: Multiset<FileEntry<T>>) -> bool {
    forall|x: FileEntry<T>, y: FileEntry<T>|
        #[trigger] m.count(x) > 0 && #[trigger] m.count(y) > 0 && x.canonical@ == y.canonical@ ==> x == y
}

proof fn lemma_sorted_first_is_least<T>(s: Seq<FileEntry<T>>, x: FileEntry<T>)
    requires
        sorted_by_canonical(s),
        s.len() > 0,
        s.to_multiset().count(x) > 0,
    ensures
        path_le(s[0].canonical@, x.canonical@),
{
    assert(s.contains(x));
    let k = choose|k: int| 0 <= k < s.len() && s[k] == x;
    if k > 0 {
        assert(path_le(s[0].canonical@, s[k].canonical@));
    } else {
        lemma_path_le_total(x.canonical@, x.canonical@);
    }
}

proof fn lemma_sorted_same_multiset_equal<T>(ra: Seq<FileEntry<T>>, rb: Seq<FileEntry<T>>)
    requires
        sorted_by_canonical(ra),
        sorted_by_canonical(rb),
        ra.to_multiset() == rb.to_multiset(),
        key_unique(ra.to_multiset()),
    ensures
        ra == rb,
    decreases ra.len(),
{
    assert(ra.len() == ra.to_multiset().len());
    assert(rb.len() == rb.to_multiset().len());
    if ra.len() > 0 {
        let x = ra[0];
        let y = rb[0];
        assert(ra.contains(x));
        assert(rb.contains(y));
        lemma_sorted_first_is_least(rb, x);
        lemma_sorted_first_is_least(ra, y);
        lemma_path_le_antisym(x.canonical@, y.canonical@);
        assert(x == y);
        let ta = ra.remove(0);
        let tb = rb.remove(0);
        assert(ta.to_multiset() == ra.to_multiset().remove(x));
        assert(tb.to_multiset() == rb.to_multiset().remove(y));
        assert forall|i: int, j: int| 0 <= i < j < ta.len() implies path_le(
            (#[trigger] ta[i]).canonical@,
            (#[trigger] ta[j]).canonical@,
        ) by {
            assert(ta[i] == ra[i + 1] && ta[j] == ra[j + 1]);
        }
        assert forall|i: int, j: int| 0 <= i < j < tb.len() implies path_le(
            (#[trigger] tb[i]).canonical@,
            (#[trigger] tb[j]).canonical@,
        ) by {
            assert(tb[i] == rb[i + 1] && tb[j] == rb[j + 1]);
        }
        assert forall|u: FileEntry<T>, v: FileEntry<T>|
            #[trigger] ta.to_multiset().count(u) > 0 && #[trigger] ta.to_multiset().count(v) > 0
                && u.canonical@ == v.canonical@ implies u == v by {
            assert(ra.to_multiset().count(u) > 0 && ra.to_multiset().count(v) > 0);
        }
        lemma_sorted_same_multiset_equal(ta, tb);
        assert(ra =~= seq![x] + ta);
        assert(rb =~= seq![y] + tb);
    }
}

/// The canonical order of a set of files does not depend on the order in
/// which they were given: two orderings of the same entries, no two of which
/// share a canonical path, come out as the same list, and that list is in
/// strictly increasing canonical-path order.
pub proof fn lemma_canonical_order_independent<T>(
    a: Seq<FileEntry<T>>,
    b: Seq<FileEntry<T>>,
    ra: Seq<FileEntry<T>>,
    rb: Seq<FileEntry<T>>,
)
    requires
        a.to_multiset() == b.to_multiset(),
        distinct_canonical(a),
        in_canonical_order(a, ra),
        in_canonical_order(b, rb),
    ensures
        ra == rb,
        strictly_sorted_by_canonical(ra),
{
    assert forall|x: FileEntry<T>, y: FileEntry<T>|
        #[trigger] ra.to_multiset().count(x) > 0 && #[trigger] ra.to_multiset().count(y) > 0
            && x.canonical@ == y.canonical@ implies x == y by {
        assert(a.to_multiset().count(x) > 0 && a.to_multiset().count(y) > 0);
        assert(a.contains(x) && a.contains(y));
        let i = choose|i: int| 0 <= i < a.len() && a[i] == x;
        let j = choose|j: int| 0 <= j < a.len() && a[j] == y;
        if i < j {
            assert(a[i].canonical@ != a[j].canonical@);
        } else if j < i {
            assert(a[j].canonical@ != a[i].canonical@);
        }
    }
    lemma_sorted_same_multiset_equal(ra, rb);
    assert forall|i: int, j: int| 0 <= i < j < ra.len() implies path_lt(
        (#[trigger] ra[i]).canonical@,
        (#[trigger] ra[j]).canonical@,
    ) by {
        assert(path_le(ra[i].canonical@, ra[j].canonical@));
        if ra[i].canonical@ == ra[j].canonical@ {
            let x = ra[i];
            assert(ra.contains(ra[i]) && ra.contains(ra[j]));
            assert(ra.to_multiset().count(ra[i]) > 0 && ra.to_multiset().count(ra[j]) > 0);
            assert(ra[j] == x);
            // x occurs twice in ra, hence twice in a.
            let rj = ra.remove(j);
            assert(rj[i] == x);
            assert(rj.contains(x));
            assert(rj.to_multiset() == ra.to_multiset().remove(x));
            assert(rj.to_multiset().count(x) > 0);
            assert(a.to_multiset().count(x) >= 2);
            assert(a.contains(x));
            let p = choose|p: int| 0 <= p < a.len() && a[p] == x;
            let ap = a.remove(p);
            assert(ap.to_multiset() == a.to_multiset().remove(x));
            assert(ap.to_multiset().count(x) > 0);
            assert(ap.contains(x));
            let q = choose|q: int| 0 <= q < ap.len() && ap[q] == x;
            if q < p {
                assert(a[q] == x);
                assert(a[q].canonical@ != a[p].canonical@);
            } else {
                assert(a[q + 1] == x);
                assert(a[p].canonical@ != a[q + 1].canonical@);
            }
        }
    }
}

} // verus!
