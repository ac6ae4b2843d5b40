//! Import resolution: mapping each directive's literal path to a canonical
//! file, building the dependency graph over resolved imports, detecting
//! cycles, and bounded recursive textual expansion.
//!
//! The file system enters as data: a scan hands over the set of existing
//! files, each with its canonical path. Resolution is then a pure choice
//! among candidates, the same on every run.

use vstd::prelude::*;
use crate::bytes::{bytes_match_at, push_all, seq_eq, subvec};
use crate::memory::{Import, MemoryFile, MemoryFileV, files_view};

verus! {

/// One existing regular file, as discovery saw it: its path and the
/// canonical path it resolves to once symbolic links are followed.
#[derive(Debug, Clone)]
pub struct FsEntry {
    pub path: Vec<u8>,
    pub canonical: Vec<u8>,
}

/// The mathematical value of an [`FsEntry`].
pub struct FsEntryV {
    pub path: Seq<u8>,
    pub canonical: Seq<u8>,
}

impl View for FsEntry {
    type V = FsEntryV;

    open spec fn view(&self) -> FsEntryV {
        FsEntryV { path: self.path@, canonical: self.canonical@ }
    }
}

/// The views of a file-set.
pub open spec fn fs_view(fs: Seq<FsEntry>) -> Seq<FsEntryV> {
    Seq::new(fs.len(), |i: int| fs[i]@)
}

/// Copies a byte vector.
fn copy_bytes(v: &Vec<u8>) -> (r: Vec<u8>)
    ensures
        r@ == v@,
{
    let r = subvec(v, 0, v.len());
    proof {
        assert(v@.subrange(0, v@.len() as int) =~= v@);
    }
    r
}

/// Joining a directory and a path: an absolute path (leading slash)
/// replaces the directory; otherwise the two are joined with a slash
/// unless the directory is empty or already ends in one.
pub open spec fn spec_join(d: Seq<u8>, p: Seq<u8>) -> Seq<u8> {
    if p.len() > 0 && p[0] == 47 {
        p
    } else if d.len() == 0 {
        p
    } else if d[d.len() - 1] == 47 {
        d + p
    } else {
        d + seq![47u8] + p
    }
}

/// Joins a directory and a path, as [`spec_join`] describes.
pub fn join_path(d: &Vec<u8>, p: &Vec<u8>) -> (r: Vec<u8>)
    ensures
        r@ == spec_join(d@, p@),
{
    if p.len() > 0 && p[0] == 47 {
        return copy_bytes(p);
    }
    if d.len() == 0 {
        return copy_bytes(p);
    }
    let mut r = copy_bytes(d);
    if d[d.len() - 1] != 47 {
        r.push(47);
    }
    push_all(&mut r, p);
    r
}

/// The bytes of the suffix `.md`.
pub open spec fn md_suffix() -> Seq<u8> {
    seq![46u8, 109u8, 100u8]
}

/// A path with `.md` appended.
pub open spec fn spec_with_md(p: Seq<u8>) -> Seq<u8> {
    p + md_suffix()
}

fn with_md(p: &Vec<u8>) -> (r: Vec<u8>)
    ensures
        r@ == spec_with_md(p@),
{
    let mut r = copy_bytes(p);
    r.push(46);
    r.push(109);
    r.push(100);
    proof {
        assert(r@ =~= p@ + md_suffix());
    }
    r
}

/// The index of the last slash in a path, or a negative value if there is
/// none.
pub open spec fn last_slash(p: Seq<u8>) -> int
    decreases p.len(),
{
    if p.len() == 0 {
        -1
    } else if p[p.len() - 1] == 47 {
        p.len() - 1
    } else {
        last_slash(p.take(p.len() - 1))
    }
}

/// The directory of a file path: the bytes before the last slash, the
/// root slash kept, and empty when the path has no slash.
pub open spec fn spec_dir_of(p: Seq<u8>) -> Seq<u8> {
    let s = last_slash(p);
    if s < 0 {
        Seq::empty()
    } else if s == 0 {
        seq![47u8]
    } else {
        p.take(s)
    }
}

proof fn lemma_last_slash_bounds(p: Seq<u8>)
    ensures
        -1 <= last_slash(p) < p.len(),
        last_slash(p) >= 0 ==> p[last_slash(p)] == 47,
        forall|t: int| last_slash(p) < t < p.len() ==> p[t] != 47,
    decreases p.len(),
{
    if p.len() > 0 && p[p.len() - 1] != 47 {
        lemma_last_slash_bounds(p.take(p.len() - 1));
        let q = p.take(p.len() - 1);
        assert(forall|t: int| 0 <= t < q.len() ==> q[t] == p[t]);
    }
}

/// The directory of a file path, as [`spec_dir_of`] describes.
pub fn dir_of(p: &Vec<u8>) -> (r: Vec<u8>)
    ensures
        r@ == spec_dir_of(p@),
{
    let n = p.len();
    proof {
        lemma_last_slash_bounds(p@);
    }
    let mut j: usize = n;
    while j > 0 && p[j - 1] != 47
        invariant
            0 <= j <= n == p@.len(),
            forall|t: int| j <= t < n ==> p@[t] != 47,
        decreases j,
    {
        j = j - 1;
    }
    proof {
        let s = last_slash(p@);
        if j > 0 {
            assert(p@[j as int - 1] == 47);
            if s > j - 1 {
                assert(p@[s] != 47 && p@[s] == 47);
            }
            if s < j - 1 {
                assert(p@[j as int - 1] != 47 && p@[j as int - 1] == 47);
            }
            assert(s == j - 1);
        } else {
            if s >= 0 {
                assert(p@[s] != 47 && p@[s] == 47);
            }
        }
    }
    if j == 0 {
        Vec::new()
    } else if j == 1 {
        let mut r: Vec<u8> = Vec::new();
        r.push(47);
        proof {
            assert(r@ =~= seq![47u8]);
        }
        r
    } else {
        let r = subvec(p, 0, j - 1);
        proof {
            assert(p@.subrange(0, j as int - 1) =~= p@.take(j as int - 1));
        }
        r
    }
}

/// The canonical path of the first file-set entry, at or after index `k`,
/// whose path equals `path`.
pub open spec fn fs_lookup_from(fs: Seq<FsEntryV>, path: Seq<u8>, k: int) -> Option<Seq<u8>>
    decreases fs.len() - k,
{
    if k < 0 || k >= fs.len() {
        None
    } else if fs[k].path == path {
        Some(fs[k].canonical)
    } else {
        fs_lookup_from(fs, path, k + 1)
    }
}

/// The canonical path an existing path maps to, if it is in the file-set.
pub open spec fn spec_fs_lookup(fs: Seq<FsEntryV>, path: Seq<u8>) -> Option<Seq<u8>> {
    fs_lookup_from(fs, path, 0)
}

/// Looks a path up in the file-set, as [`spec_fs_lookup`] describes.
pub fn fs_lookup(fs: &Vec<FsEntry>, path: &Vec<u8>) -> (r: Option<Vec<u8>>)
    ensures
        match r {
            Some(c) => spec_fs_lookup(fs_view(fs@), path@) == Some(c@),
            None => spec_fs_lookup(fs_view(fs@), path@) is None,
        },
{
    let ghost fsv = fs_view(fs@);
    let n = fs.len();
    let mut k: usize = 0;
    while k < n
        invariant
            0 <= k <= n == fsv.len(),
            fsv == fs_view(fs@),
            n == fs@.len(),
            fs_lookup_from(fsv, path@, k as int) == spec_fs_lookup(fsv, path@),
        decreases n - k,
    {
        proof {
            assert(fs@[k as int]@ == fsv[k as int]);
        }
        if seq_eq(&fs[k].path, path) {
            return Some(copy_bytes(&fs[k].canonical));
        }
        k = k + 1;
    }
    None
}

/// Resolution tries five candidates in a fixed order, first hit wins:
/// the path relative to the importing file's directory, relative to the
/// base root, as written, and the first two again with `.md` appended.
pub open spec fn spec_resolve(
    base: Seq<u8>,
    dir: Seq<u8>,
    p: Seq<u8>,
    fs: Seq<FsEntryV>,
) -> Option<Seq<u8>> {
    if spec_fs_lookup(fs, spec_join(dir, p)) is Some {
        spec_fs_lookup(fs, spec_join(dir, p))
    } else if spec_fs_lookup(fs, spec_join(base, p)) is Some {
        spec_fs_lookup(fs, spec_join(base, p))
    } else if spec_fs_lookup(fs, p) is Some {
        spec_fs_lookup(fs, p)
    } else if spec_fs_lookup(fs, spec_join(dir, spec_with_md(p))) is Some {
        spec_fs_lookup(fs, spec_join(dir, spec_with_md(p)))
    } else if spec_fs_lookup(fs, spec_join(base, spec_with_md(p))) is Some {
        spec_fs_lookup(fs, spec_join(base, spec_with_md(p)))
    } else {
        None
    }
}

/// Local wins over root: whenever the candidate relative to the importing
/// file's directory exists, resolution selects it — whatever else exists,
/// the root-relative candidate included. Together with the contract of
/// [`ImportResolver::resolve_imports`], which writes exactly this
/// selection into every import that is still unresolved, this pins what
/// an unresolved import's target becomes when its local candidate exists.
pub proof fn lemma_local_wins(base: Seq<u8>, dir: Seq<u8>, p: Seq<u8>, fs: Seq<FsEntryV>)
    requires
        (spec_fs_lookup(fs, spec_join(dir, p)) is Some),
    ensures
        spec_resolve(base, dir, p, fs) == spec_fs_lookup(fs, spec_join(dir, p)),
{
}

/// A nonexistent import resolves to nothing, and to nothing worse: the
/// result is `None` exactly when no candidate names an existing file.
pub proof fn lemma_unresolvable_is_none(base: Seq<u8>, dir: Seq<u8>, p: Seq<u8>, fs: Seq<FsEntryV>)
    ensures
        (spec_resolve(base, dir, p, fs) is None) == {
            &&& spec_fs_lookup(fs, spec_join(dir, p)) is None
            &&& spec_fs_lookup(fs, spec_join(base, p)) is None
            &&& spec_fs_lookup(fs, p) is None
            &&& spec_fs_lookup(fs, spec_join(dir, spec_with_md(p))) is None
            &&& spec_fs_lookup(fs, spec_join(base, spec_with_md(p))) is None
        },
{
}

/// The resolver: the fixed base root that root-relative candidates are
/// joined to.
#[derive(Debug, Clone)]
pub struct ImportResolver {
    pub base_path: Vec<u8>,
}

impl ImportResolver {
    /// A resolver rooted at `base_path`.
    pub fn new(base_path: Vec<u8>) -> (r: Self)
        ensures
            r.base_path@ == base_path@,
    {
        ImportResolver { base_path }
    }

    /// Resolves one literal import path against the file-set, as
    /// [`spec_resolve`] describes; a miss is `None`, never an error.
    pub fn resolve_import_path(
        &self,
        import_path: &Vec<u8>,
        base_dir: &Vec<u8>,
        fs: &Vec<FsEntry>,
    ) -> (r: Option<Vec<u8>>)
        ensures
            match r {
                Some(c) => spec_resolve(self.base_path@, base_dir@, import_path@, fs_view(fs@))
                    == Some(c@),
                None => spec_resolve(self.base_path@, base_dir@, import_path@, fs_view(fs@))
                    is None,
            },
    {
        let c1 = join_path(base_dir, import_path);
        if let Some(r) = fs_lookup(fs, &c1) {
            return Some(r);
        }
        let c2 = join_path(&self.base_path, import_path);
        if let Some(r) = fs_lookup(fs, &c2) {
            return Some(r);
        }
        if let Some(r) = fs_lookup(fs, import_path) {
            return Some(r);
        }
        let pmd = with_md(import_path);
        let c4 = join_path(base_dir, &pmd);
        if let Some(r) = fs_lookup(fs, &c4) {
            return Some(r);
        }
        let c5 = join_path(&self.base_path, &pmd);
        if let Some(r) = fs_lookup(fs, &c5) {
            return Some(r);
        }
        None
    }

    /// Resolves a file's unresolved imports in place: each one either
    /// gains the canonical path [`spec_resolve`] picks for it, relative to
    /// the file's own directory, or stays unresolved; imports already
    /// resolved, and everything else about the file, are untouched.
    pub fn resolve_imports(&self, file: &mut MemoryFile, fs: &Vec<FsEntry>)
        ensures
            final(file).path@ == old(file).path@,
            final(file).file_type == old(file).file_type,
            final(file).content@ == old(file).content@,
            final(file).metadata@ == old(file).metadata@,
            final(file).imports@.len() == old(file).imports@.len(),
            forall|k: int|
                0 <= k < old(file).imports@.len() ==> {
                    let oldi = #[trigger] old(file).imports@[k]@;
                    let newi = final(file).imports@[k]@;
                    &&& newi.path == oldi.path
                    &&& newi.line_number == oldi.line_number
                    &&& newi.resolved_path == (if oldi.resolved_path is Some {
                        oldi.resolved_path
                    } else {
                        spec_resolve(
                            self.base_path@,
                            spec_dir_of(old(file).path@),
                            oldi.path,
                            fs_view(fs@),
                        )
                    })
                },
    {
        let dir = dir_of(&file.path);
        let n = file.imports.len();
        let mut imports: Vec<Import> = Vec::new();
        let mut k: usize = 0;
        while k < n
            invariant
                0 <= k <= n == file.imports@.len(),
                imports@.len() == k,
                dir@ == spec_dir_of(file.path@),
                forall|t: int|
                    0 <= t < k ==> {
                        let oldi = #[trigger] file.imports@[t]@;
                        let newi = imports@[t]@;
                        &&& newi.path == oldi.path
                        &&& newi.line_number == oldi.line_number
                        &&& newi.resolved_path == (if oldi.resolved_path is Some {
                            oldi.resolved_path
                        } else {
                            spec_resolve(
                                self.base_path@,
                                spec_dir_of(file.path@),
                                oldi.path,
                                fs_view(fs@),
                            )
                        })
                    },
            decreases n - k,
        {
            let imp = &file.imports[k];
            let path = copy_bytes(&imp.path);
            let resolved: Option<Vec<u8>> = match &imp.resolved_path {
                Option::Some(r) => Some(copy_bytes(r)),
                Option::None => self.resolve_import_path(&imp.path, &dir, fs),
            };
            imports.push(Import { path, line_number: imp.line_number, resolved_path: resolved });
            k = k + 1;
        }
        file.imports = imports;
    }

    /// Resolves every file's imports, as [`resolve_imports`] does for one.
    pub fn resolve_all(&self, files: &mut Vec<MemoryFile>, fs: &Vec<FsEntry>)
        ensures
            final(files)@.len() == old(files)@.len(),
            forall|i: int|
                0 <= i < old(files)@.len() ==> {
                    let oldf = #[trigger] old(files)@[i]@;
                    let newf = final(files)@[i]@;
                    &&& newf.path == oldf.path
                    &&& newf.file_type == oldf.file_type
                    &&& newf.content == oldf.content
                    &&& newf.metadata == oldf.metadata
                    &&& newf.imports.len() == oldf.imports.len()
                    &&& forall|k: int|
                        0 <= k < oldf.imports.len() ==> {
                            let oldi = #[trigger] oldf.imports[k];
                            let newi = newf.imports[k];
                            &&& newi.path == oldi.path
                            &&& newi.line_number == oldi.line_number
                            &&& newi.resolved_path == (if oldi.resolved_path is Some {
                                oldi.resolved_path
                            } else {
                                spec_resolve(
                                    self.base_path@,
                                    spec_dir_of(oldf.path),
                                    oldi.path,
                                    fs_view(fs@),
                                )
                            })
                        }
                },
    {
        let n = files.len();
        let mut i: usize = 0;
        while i < n
            invariant
                0 <= i <= n == files@.len(),
                forall|t: int|
                    i <= t < n ==> #[trigger] files@[t]@ == old(files)@[t]@,
                forall|t: int|
                    0 <= t < i ==> {
                        let oldf = #[trigger] old(files)@[t]@;
                        let newf = files@[t]@;
                        &&& newf.path == oldf.path
                        &&& newf.file_type == oldf.file_type
                        &&& newf.content == oldf.content
                        &&& newf.metadata == oldf.metadata
                        &&& newf.imports.len() == oldf.imports.len()
                        &&& forall|k: int|
                            0 <= k < oldf.imports.len() ==> {
                                let oldi = #[trigger] oldf.imports[k];
                                let newi = newf.imports[k];
                                &&& newi.path == oldi.path
                                &&& newi.line_number == oldi.line_number
                                &&& newi.resolved_path == (if oldi.resolved_path is Some {
                                    oldi.resolved_path
                                } else {
                                    spec_resolve(
                                        self.base_path@,
                                        spec_dir_of(oldf.path),
                                        oldi.path,
                                        fs_view(fs@),
                                    )
                                })
                            }
                    },
            decreases n - i,
        {
            let mut f = files.remove(i);
            self.resolve_imports(&mut f, fs);
            files.insert(i, f);
            i = i + 1;
        }
    }
}

// ----- cycle detection -----
//
// The graph has one node per file, and an edge from file `a` to file `b`
// when some resolved import of `a` names `b`'s path; a resolved target
// that is no scanned file is a dead end and can lie on no cycle. From
// every file a depth-first search runs with its own visited set and an
// explicit path stack; meeting a node already on the path reports the
// stack from that node's occurrence as one cycle.

/// The first file whose path is `path`, if any.
pub open spec fn file_index_from(files: Seq<MemoryFileV>, path: Seq<u8>, k: int) -> Option<int>
    decreases files.len() - k,
{
    if k < 0 || k >= files.len() {
        None
    } else if files[k].path == path {
        Some(k)
    } else {
        file_index_from(files, path, k + 1)
    }
}

/// The node a resolved path leads to: the first file with that path.
pub open spec fn spec_file_index(files: Seq<MemoryFileV>, path: Seq<u8>) -> Option<int> {
    file_index_from(files, path, 0)
}

/// Finds the first file with the given path.
fn find_file_index(files: &Vec<MemoryFile>, path: &Vec<u8>) -> (r: Option<usize>)
    ensures
        match r {
            Some(j) => spec_file_index(files_view(files@), path@) == Some(j as int) && j
                < files@.len(),
            None => spec_file_index(files_view(files@), path@) is None,
        },
{
    let ghost fv = files_view(files@);
    let n = files.len();
    let mut k: usize = 0;
    while k < n
        invariant
            0 <= k <= n == fv.len(),
            fv == files_view(files@),
            n == files@.len(),
            file_index_from(fv, path@, k as int) == spec_file_index(fv, path@),
        decreases n - k,
    {
        proof {
            assert(files@[k as int]@ == fv[k as int]);
        }
        if seq_eq(&files[k].path, path) {
            return Some(k);
        }
        k = k + 1;
    }
    None
}

/// An edge of the import graph: some resolved import of file `a` names
/// file `b`'s path, and `b` is the node for that path.
pub open spec fn spec_edge(files: Seq<MemoryFileV>, a: int, b: int) -> bool {
    &&& 0 <= a < files.len()
    &&& 0 <= b < files.len()
    &&& exists|k: int|
        0 <= k < files[a].imports.len() && (#[trigger] files[a].imports[k]).resolved_path
            == Some(files[b].path) && spec_file_index(files, files[b].path) == Some(b)
}

/// A sequence of node indices that forms a cycle in the import graph.
pub open spec fn is_index_cycle(files: Seq<MemoryFileV>, idx: Seq<int>) -> bool {
    &&& idx.len() > 0
    &&& forall|t: int| 0 <= t < idx.len() - 1 ==> spec_edge(files, #[trigger] idx[t], idx[t + 1])
    &&& spec_edge(files, idx[idx.len() - 1], idx[0])
}

/// A reported cycle is sound: some sequence of nodes forms a cycle in the
/// import graph and the reported paths are exactly those nodes' paths.
pub open spec fn is_path_cycle(files: Seq<MemoryFileV>, cyc: Seq<Seq<u8>>) -> bool {
    exists|idx: Seq<int>|
        {
            &&& #[trigger] is_index_cycle(files, idx)
            &&& idx.len() == cyc.len()
            &&& forall|t: int| 0 <= t < idx.len() ==> cyc[t] == files[idx[t]].path
        }
}

/// The indices as mathematical integers.
pub open spec fn idx_view(v: Seq<usize>) -> Seq<int> {
    Seq::new(v.len(), |i: int| v[i] as int)
}

/// One cycle of resolved imports, as a sequence of file paths that leads
/// back to its first element.
#[derive(Debug, Clone)]
pub struct CircularImport {
    pub cycle: Vec<Vec<u8>>,
}

/// The report line for a cycle: `Circular import: ` and the member paths
/// joined by arrows.
pub open spec fn spec_cycle_text(cycle: Seq<Seq<u8>>, k: int) -> Seq<u8>
    decreases cycle.len() - k,
{
    if k < 0 || k >= cycle.len() {
        Seq::empty()
    } else if k == 0 {
        cycle[0] + spec_cycle_text(cycle, 1)
    } else {
        seq![32u8, 45u8, 62u8, 32u8] + cycle[k] + spec_cycle_text(cycle, k + 1)
    }
}

/// The prefix `Circular import: `.
pub open spec fn cycle_prefix() -> Seq<u8> {
    seq![
        67u8, 105u8, 114u8, 99u8, 117u8, 108u8, 97u8, 114u8, 32u8, 105u8, 109u8, 112u8, 111u8,
        114u8, 116u8, 58u8, 32u8,
    ]
}

impl CircularImport {
    /// Renders the cycle for a report: the prefix, then the member paths
    /// joined by ` -> `.
    pub fn describe(&self) -> (r: Vec<u8>)
        ensures
            r@ == cycle_prefix() + spec_cycle_text(crate::bytes::views_of(self.cycle@), 0),
    {
        let ghost cv = crate::bytes::views_of(self.cycle@);
        let mut r: Vec<u8> = vec![
            67u8, 105u8, 114u8, 99u8, 117u8, 108u8, 97u8, 114u8, 32u8, 105u8, 109u8, 112u8,
            111u8, 114u8, 116u8, 58u8, 32u8,
        ];
        proof {
            assert(r@ =~= cycle_prefix());
        }
        let n = self.cycle.len();
        let mut k: usize = n;
        let mut tail: Vec<u8> = Vec::new();
        while k > 0
            invariant
                0 <= k <= n == cv.len(),
                n == self.cycle@.len(),
                cv == crate::bytes::views_of(self.cycle@),
                tail@ =~= spec_cycle_text(cv, k as int),
            decreases k,
        {
            k = k - 1;
            let mut piece: Vec<u8> = if k == 0 {
                Vec::new()
            } else {
                vec![32u8, 45u8, 62u8, 32u8]
            };
            push_all(&mut piece, &self.cycle[k]);
            push_all(&mut piece, &tail);
            proof {
                assert(self.cycle@[k as int]@ == cv[k as int]);
                if k == 0 {
                    assert(piece@ =~= cv[0] + spec_cycle_text(cv, 1));
                } else {
                    assert(piece@ =~= seq![32u8, 45u8, 62u8, 32u8] + cv[k as int]
                        + spec_cycle_text(cv, k as int + 1));
                }
                assert(piece@ =~= spec_cycle_text(cv, k as int));
            }
            tail = piece;
        }
        push_all(&mut r, &tail);
        r
    }
}

/// Whether every dependency list entry is a real edge of the graph.
spec fn deps_wf(files: Seq<MemoryFileV>, deps: Seq<Vec<usize>>) -> bool {
    &&& deps.len() == files.len()
    &&& forall|a: int, x: int|
        0 <= a < deps.len() && 0 <= x < deps[a]@.len() ==> spec_edge(
            files,
            a,
            #[trigger] deps[a]@[x] as int,
        )
}

/// How many nodes a search has not visited yet.
spec fn count_unvisited(v: Seq<bool>) -> int
    decreases v.len(),
{
    if v.len() == 0 {
        0
    } else {
        count_unvisited(v.drop_last()) + (if v.last() {
            0int
        } else {
            1int
        })
    }
}

proof fn lemma_count_unvisited_nonneg(v: Seq<bool>)
    ensures
        count_unvisited(v) >= 0,
    decreases v.len(),
{
    if v.len() > 0 {
        lemma_count_unvisited_nonneg(v.drop_last());
    }
}

proof fn lemma_count_unvisited_update(v: Seq<bool>, i: int)
    requires
        0 <= i < v.len(),
        !v[i],
    ensures
        count_unvisited(v.update(i, true)) == count_unvisited(v) - 1,
    decreases v.len(),
{
    let w = v.update(i, true);
    if i == v.len() - 1 {
        assert(w.drop_last() =~= v.drop_last());
    } else {
        assert(w.drop_last() =~= v.drop_last().update(i, true));
        lemma_count_unvisited_update(v.drop_last(), i);
        assert(w.last() == v.last());
    }
}

/// What work the stack still holds: for each frame, the dependencies its
/// iterator has not handed out yet.
spec fn rem_work(deps: Seq<Vec<usize>>, sn: Seq<usize>, si: Seq<usize>) -> int
    decreases sn.len(),
{
    if sn.len() == 0 || si.len() != sn.len() {
        0
    } else {
        rem_work(deps, sn.drop_last(), si.drop_last()) + (if 0 <= sn.last()
            < deps.len() {
            deps[sn.last() as int]@.len() - si.last()
        } else {
            0int
        })
    }
}

proof fn lemma_rem_work_nonneg(deps: Seq<Vec<usize>>, sn: Seq<usize>, si: Seq<usize>)
    requires
        sn.len() == si.len(),
        forall|t: int| 0 <= t < sn.len() ==> #[trigger] sn[t] < deps.len(),
        forall|t: int|
            0 <= t < sn.len() ==> #[trigger] si[t] <= deps[sn[t] as int]@.len(),
    ensures
        rem_work(deps, sn, si) >= 0,
    decreases sn.len(),
{
    if sn.len() > 0 {
        lemma_rem_work_nonneg(deps, sn.drop_last(), si.drop_last());
    }
}

/// A cycle in the dependency lists themselves: every entry is a node,
/// consecutive entries are edges, and the last entry leads back to the
/// first.
spec fn is_deps_cycle(deps: Seq<Vec<usize>>, c: Seq<usize>) -> bool {
    &&& c.len() > 0
    &&& forall|t: int| 0 <= t < c.len() ==> (#[trigger] c[t]) < deps.len()
    &&& forall|t: int| 0 <= t < c.len() - 1 ==> deps[#[trigger] c[t] as int]@.contains(c[t + 1])
    &&& deps[c[c.len() - 1] as int]@.contains(c[0])
}

/// The finish order a completed search leaves is topological: every edge
/// out of a finished node leads to a node finished earlier. Walking a
/// cycle from a finished node would then lower the finish index once per
/// step and still return to where it began.
proof fn lemma_cycle_fin_chain(deps: Seq<Vec<usize>>, fin: Seq<int>, c: Seq<usize>, k: int)
    requires
        fin.len() == deps.len(),
        forall|a: int, x: int|
            0 <= a < deps.len() && 0 <= x < deps[a]@.len() ==> #[trigger] deps[a]@[x]
                < deps.len(),
        forall|u: int, x: int|
            0 <= u < deps.len() && fin[u] >= 0 && 0 <= x < deps[u]@.len() ==> 0 <= fin[
                #[trigger] deps[u]@[x] as int
            ] < fin[u],
        is_deps_cycle(deps, c),
        fin[c[0] as int] >= 0,
        0 <= k < c.len(),
    ensures
        0 <= fin[c[k] as int] <= fin[c[0] as int] - k,
    decreases k,
{
    if k > 0 {
        lemma_cycle_fin_chain(deps, fin, c, k - 1);
        assert(deps[c[k - 1] as int]@.contains(c[k]));
        let x = choose|x: int|
            0 <= x < deps[c[k - 1] as int]@.len()
                && #[trigger] deps[c[k - 1] as int]@[x] == c[k];
        assert(0 <= fin[deps[c[k - 1] as int]@[x] as int] < fin[c[k - 1] as int]);
    }
}

/// No cycle passes through a node a closed finish order covers.
proof fn lemma_no_finished_cycle(deps: Seq<Vec<usize>>, fin: Seq<int>, c: Seq<usize>)
    requires
        fin.len() == deps.len(),
        forall|a: int, x: int|
            0 <= a < deps.len() && 0 <= x < deps[a]@.len() ==> #[trigger] deps[a]@[x]
                < deps.len(),
        forall|u: int, x: int|
            0 <= u < deps.len() && fin[u] >= 0 && 0 <= x < deps[u]@.len() ==> 0 <= fin[
                #[trigger] deps[u]@[x] as int
            ] < fin[u],
    ensures
        !(is_deps_cycle(deps, c) && fin[c[0] as int] >= 0),
{
    if is_deps_cycle(deps, c) && fin[c[0] as int] >= 0 {
        let last = c.len() - 1;
        lemma_cycle_fin_chain(deps, fin, c, last);
        assert(deps[c[last] as int]@.contains(c[0]));
        let x = choose|x: int|
            0 <= x < deps[c[last] as int]@.len() && #[trigger] deps[c[last] as int]@[x] == c[0];
        assert(0 <= fin[deps[c[last] as int]@[x] as int] < fin[c[last] as int]);
    }
}

/// A depth-first search from `start` over the dependency lists. A node met
/// again while on the current path yields the path from its occurrence, a
/// genuine cycle; `None` means no cycle starts at `start`. The ghost
/// finish order records, for each fully explored node, that all its
/// dependencies finished before it.
#[verifier::rlimit(60)]
fn find_cycle(deps: &Vec<Vec<usize>>, start: usize) -> (r: Option<Vec<usize>>)
    requires
        start < deps@.len(),
        forall|a: int, x: int|
            0 <= a < deps@.len() && 0 <= x < deps@[a]@.len() ==> #[trigger] deps@[a]@[x]
                < deps@.len(),
    ensures
        match r {
            Some(cyc) => {
                &&& cyc@.len() > 0
                &&& forall|t: int| 0 <= t < cyc@.len() ==> #[trigger] cyc@[t] < deps@.len()
                &&& forall|t: int|
                    0 <= t < cyc@.len() - 1 ==> deps@[cyc@[t] as int]@.contains(cyc@[t + 1])
                &&& deps@[cyc@[cyc@.len() - 1] as int]@.contains(cyc@[0])
            },
            None => forall|c: Seq<usize>| #[trigger] is_deps_cycle(deps@, c) ==> c[0] != start,
        },
{
    let n = deps.len();
    let mut visited: Vec<bool> = Vec::new();
    let mut z: usize = 0;
    while z < n
        invariant
            visited@.len() == z <= n,
            forall|v: int| 0 <= v < z ==> !visited@[v],
        decreases n - z,
    {
        visited.push(false);
        z = z + 1;
    }
    let ghost mut fin: Seq<int> = Seq::new(n as nat, |v: int| -1);
    let ghost mut fcount: int = 0;
    let mut snodes: Vec<usize> = Vec::new();
    let mut siters: Vec<usize> = Vec::new();
    visited[start] = true;
    snodes.push(start);
    siters.push(0);
    proof {
        assert(snodes@[0] == start);
        assert(snodes@.contains(start));
        assert(forall|v: int| 0 <= v < n && v != start as int ==> !visited@[v]);
    }
    // the search terminates: every node enters the stack at most once,
    // every frame hands each of its dependencies out once, and a frame
    // with nothing left is popped
    while snodes.len() > 0
        invariant
            n == deps@.len(),
            visited@.len() == n,
            fin.len() == n,
            0 <= fcount,
            snodes@.len() == siters@.len(),
            start < n,
            visited@[start as int],
            forall|a: int, x: int|
                0 <= a < deps@.len() && 0 <= x < deps@[a]@.len() ==> #[trigger] deps@[a]@[x]
                    < deps@.len(),
            forall|t: int| 0 <= t < snodes@.len() ==> #[trigger] snodes@[t] < n,
            forall|t: int|
                0 <= t < snodes@.len() ==> #[trigger] siters@[t] <= deps@[snodes@[t] as int]@.len(),
            forall|t: int|
                0 <= t < snodes@.len() - 1 ==> deps@[#[trigger] snodes@[t] as int]@.contains(
                    snodes@[t + 1],
                ),
            forall|v: int| 0 <= v < n ==> #[trigger] fin[v] < fcount,
            forall|v: int| 0 <= v < n && #[trigger] fin[v] >= 0 ==> visited@[v],
            forall|v: int|
                0 <= v < n && #[trigger] visited@[v] ==> fin[v] >= 0 || snodes@.contains(
                    v as usize,
                ),
            forall|t: int| 0 <= t < snodes@.len() ==> fin[#[trigger] snodes@[t] as int] < 0,
            forall|t: int| 0 <= t < snodes@.len() ==> visited@[#[trigger] snodes@[t] as int],
            forall|t: int, u: int| 0 <= t < u < snodes@.len() ==> snodes@[t] != snodes@[u],
            forall|u: int, x: int|
                0 <= u < n && fin[u] >= 0 && 0 <= x < deps@[u]@.len() ==> 0 <= fin[
                    #[trigger] deps@[u]@[x] as int
                ] < fin[u],
            forall|t: int, x: int|
                0 <= t < snodes@.len() && 0 <= x < siters@[t] ==> {
                    let v = #[trigger] deps@[snodes@[t] as int]@[x];
                    visited@[v as int] && (fin[v as int] >= 0 || exists|t2: int|
                        t < t2 < snodes@.len() && snodes@[t2] == v)
                },
        decreases
            count_unvisited(visited@),
            rem_work(deps@, snodes@, siters@),
            snodes@.len(),
    {
        proof {
            lemma_count_unvisited_nonneg(visited@);
            lemma_rem_work_nonneg(deps@, snodes@, siters@);
        }
        let ghost vis0 = visited@;
        let ghost sn0 = snodes@;
        let ghost si0 = siters@;
        let ghost fin0 = fin;
        let top = snodes[snodes.len() - 1];
        let ki = match siters.pop() {
            Some(v) => v,
            None => 0,
        };
        proof {
            assert(siters@ =~= si0.drop_last());
            assert(sn0.drop_last().len() == siters@.len());
        }
        if ki >= deps[top].len() {
            let _ = snodes.pop();
            proof {
                assert(snodes@ =~= sn0.drop_last());
                assert(rem_work(deps@, sn0, si0) == rem_work(deps@, snodes@, siters@) + (
                deps@[top as int]@.len() - ki));
                lemma_rem_work_nonneg(deps@, snodes@, siters@);
                // the popped frame had handed out every dependency, and
                // each of those is finished, so `top` may finish above them
                assert forall|x: int|
                    0 <= x < deps@[top as int]@.len() implies 0 <= fin0[#[trigger] deps@[top
                    as int]@[x] as int] < fcount by {
                    let v = deps@[top as int]@[x];
                    assert(sn0[sn0.len() - 1] == top && si0[sn0.len() - 1] == ki);
                    assert(vis0[v as int]);
                    if fin0[v as int] < 0 {
                        let t2 = choose|t2: int| sn0.len() - 1 < t2 < sn0.len() && sn0[t2] == v;
                        assert(false);
                    }
                };
                fin = fin0.update(top as int, fcount);
                fcount = fcount + 1;
                assert forall|v: int|
                    0 <= v < n && #[trigger] visited@[v] implies fin[v] >= 0 || snodes@.contains(
                    v as usize) by {
                    if fin0[v] < 0 && v != top as int {
                        let t2 = choose|t2: int| 0 <= t2 < sn0.len() && sn0[t2] == (v as usize);
                        assert(t2 < sn0.len() - 1);
                        assert(snodes@[t2] == sn0[t2]);
                    }
                };
                assert forall|u: int, x: int|
                    0 <= u < n && fin[u] >= 0 && 0 <= x < deps@[u]@.len() implies 0 <= fin[
                    #[trigger] deps@[u]@[x] as int
                ] < fin[u] by {
                    let v = deps@[u]@[x] as int;
                    if u == top as int {
                        assert(0 <= fin0[v] < fcount - 1);
                        assert(v != top as int);
                    } else {
                        assert(fin0[u] >= 0);
                        assert(0 <= fin0[v] < fin0[u]);
                        assert(v != top as int);
                    }
                };
                assert forall|t: int, x: int|
                    0 <= t < snodes@.len() && 0 <= x < siters@[t] implies ({
                        let v = #[trigger] deps@[snodes@[t] as int]@[x];
                        visited@[v as int] && (fin[v as int] >= 0 || exists|t2: int|
                            t < t2 < snodes@.len() && snodes@[t2] == v)
                    }) by {
                    let v = deps@[snodes@[t] as int]@[x];
                    assert(snodes@[t] == sn0[t] && siters@[t] == si0[t]);
                    assert(deps@[sn0[t] as int]@[x] == v);
                    assert(vis0[v as int]);
                    if fin0[v as int] < 0 {
                        let t2 = choose|t2: int| t < t2 < sn0.len() && sn0[t2] == v;
                        if t2 == sn0.len() - 1 {
                            assert(v == top);
                        } else {
                            assert(snodes@[t2] == sn0[t2]);
                        }
                    }
                };
                assert forall|t: int|
                    0 <= t < snodes@.len() implies fin[#[trigger] snodes@[t] as int] < 0 by {
                    assert(sn0[t] != sn0[sn0.len() - 1]);
                };
            }
        } else {
            siters.push(ki + 1);
            let d = deps[top][ki];
            proof {
                assert(siters@ =~= si0.drop_last().push((ki + 1) as usize));
                assert(snodes@.drop_last() =~= sn0.drop_last());
                assert(siters@.drop_last() =~= si0.drop_last());
                assert(rem_work(deps@, sn0, si0) == rem_work(deps@, sn0.drop_last(),
                si0.drop_last()) + (deps@[top as int]@.len() - ki));
                assert(rem_work(deps@, snodes@, siters@) == rem_work(deps@, sn0.drop_last(),
                si0.drop_last()) + (deps@[top as int]@.len() - ki - 1));
                assert(deps@[top as int]@.contains(d));
            }
            // is d already on the current path?
            let mut pos: usize = 0;
            let mut found = false;
            while pos < snodes.len() && !found
                invariant
                    0 <= pos <= snodes@.len(),
                    found ==> pos < snodes@.len() && snodes@[pos as int] == d,
                    !found ==> forall|u: int| 0 <= u < pos ==> snodes@[u] != d,
                decreases snodes@.len() - pos, (if found {
                    0int
                } else {
                    1int
                }),
            {
                if snodes[pos] == d {
                    found = true;
                } else {
                    pos = pos + 1;
                }
            }
            if found {
                // the path from d's occurrence through the top closes a cycle
                let mut cyc: Vec<usize> = Vec::new();
                let mut q: usize = pos;
                while q < snodes.len()
                    invariant
                        pos <= q <= snodes@.len(),
                        cyc@ =~= snodes@.subrange(pos as int, q as int),
                    decreases snodes@.len() - q,
                {
                    cyc.push(snodes[q]);
                    q = q + 1;
                }
                proof {
                    assert(cyc@ =~= snodes@.subrange(pos as int, snodes@.len() as int));
                    assert(cyc@[0] == snodes@[pos as int]);
                    assert(cyc@[cyc@.len() - 1] == snodes@[snodes@.len() - 1]);
                    assert(deps@[cyc@[cyc@.len() - 1] as int]@.contains(cyc@[0]));
                }
                return Some(cyc);
            }
            proof {
                assert(!snodes@.contains(d));
            }
            if !visited[d] {
                proof {
                    lemma_count_unvisited_update(vis0, d as int);
                }
                visited[d] = true;
                snodes.push(d);
                siters.push(0);
                proof {
                    assert(snodes@[snodes@.len() - 1] == d);
                    assert(fin[d as int] < 0);
                    assert forall|v: int|
                        0 <= v < n && #[trigger] visited@[v] implies fin[v] >= 0
                        || snodes@.contains(v as usize) by {
                        if v == d as int {
                            assert(snodes@[snodes@.len() - 1] == (v as usize));
                        } else {
                            assert(vis0[v]);
                            if fin[v] < 0 {
                                let t2 = choose|t2: int|
                                    0 <= t2 < sn0.len() && sn0[t2] == (v as usize);
                                assert(snodes@[t2] == sn0[t2]);
                            }
                        }
                    };
                    assert forall|t: int, x: int|
                        0 <= t < snodes@.len() && 0 <= x < siters@[t] implies ({
                            let v = #[trigger] deps@[snodes@[t] as int]@[x];
                            visited@[v as int] && (fin[v as int] >= 0 || exists|t2: int|
                                t < t2 < snodes@.len() && snodes@[t2] == v)
                        }) by {
                        let v = deps@[snodes@[t] as int]@[x];
                        if t < snodes@.len() - 1 {
                            assert(snodes@[t] == sn0[t]);
                            if t == sn0.len() - 1 && x == ki {
                                assert(v == d);
                                assert(snodes@[snodes@.len() - 1] == v);
                            } else {
                                assert(x < si0[t]);
                                assert(vis0[v as int]);
                                if fin[v as int] < 0 {
                                    let t2 = choose|t2: int| t < t2 < sn0.len() && sn0[t2] == v;
                                    assert(snodes@[t2] == sn0[t2]);
                                }
                            }
                        }
                    };
                }
            } else {
                proof {
                    assert(visited@ == vis0);
                    assert(fin[d as int] >= 0);
                    assert forall|t: int, x: int|
                        0 <= t < snodes@.len() && 0 <= x < siters@[t] implies ({
                            let v = #[trigger] deps@[snodes@[t] as int]@[x];
                            visited@[v as int] && (fin[v as int] >= 0 || exists|t2: int|
                                t < t2 < snodes@.len() && snodes@[t2] == v)
                        }) by {
                        let v = deps@[snodes@[t] as int]@[x];
                        assert(snodes@[t] == sn0[t]);
                        if t == sn0.len() - 1 && x == ki {
                            assert(v == d);
                        } else {
                            assert(x < si0[t]);
                        }
                    };
                }
            }
        }
        proof {
            lemma_count_unvisited_nonneg(visited@);
            lemma_rem_work_nonneg(deps@, snodes@, siters@);
        }
    }
    proof {
        // the stack is empty, so every visited node is finished; a cycle
        // starting here would contradict the finish order
        assert(fin[start as int] >= 0);
        assert forall|c: Seq<usize>| #[trigger] is_deps_cycle(deps@, c) implies c[0] != start by {
            if c[0] == start {
                lemma_no_finished_cycle(deps@, fin, c);
            }
        };
    }
    None
}

impl ImportResolver {
    /// Builds the import graph over the files' resolved imports and runs a
    /// depth-first search from every file. Every reported cycle is a real
    /// cycle of the graph, its entries the member files' paths in order;
    /// and whenever the graph holds any cycle at all, at least one is
    /// reported.
    pub fn check_circular_imports(&self, files: &Vec<MemoryFile>) -> (r: Vec<CircularImport>)
        ensures
            forall|c: int|
                0 <= c < r@.len() ==> is_path_cycle(
                    files_view(files@),
                    crate::bytes::views_of(#[trigger] r@[c].cycle@),
                ),
            (exists|idx: Seq<int>| is_index_cycle(files_view(files@), idx)) ==> r@.len() > 0,
    {
        let ghost fv = files_view(files@);
        let n = files.len();
        // one dependency list per file
        let mut deps: Vec<Vec<usize>> = Vec::new();
        let mut a: usize = 0;
        while a < n
            invariant
                0 <= a <= n == fv.len(),
                fv == files_view(files@),
                n == files@.len(),
                deps@.len() == a,
                forall|t: int, x: int|
                    0 <= t < deps@.len() && 0 <= x < deps@[t]@.len() ==> spec_edge(
                        fv,
                        t,
                        #[trigger] deps@[t]@[x] as int,
                    ),
                forall|t: int, x: int|
                    0 <= t < deps@.len() && 0 <= x < deps@[t]@.len() ==> #[trigger] deps@[t]@[x]
                        < n,
                forall|a2: int, b: int|
                    0 <= a2 < deps@.len() && #[trigger] spec_edge(fv, a2, b) ==> deps@[
                        a2
                    ]@.contains(b as usize),
            decreases n - a,
        {
            let m = files[a].imports.len();
            let mut ds: Vec<usize> = Vec::new();
            let mut k: usize = 0;
            while k < m
                invariant
                    0 <= k <= m,
                    0 <= a < n == fv.len(),
                    fv == files_view(files@),
                    n == files@.len(),
                    m == files@[a as int].imports@.len(),
                    forall|x: int|
                        0 <= x < ds@.len() ==> spec_edge(fv, a as int, #[trigger] ds@[x] as int),
                    forall|x: int| 0 <= x < ds@.len() ==> #[trigger] ds@[x] < n,
                    forall|k2: int, b: int|
                        #![trigger fv[a as int].imports[k2], fv[b]]
                        0 <= k2 < k && 0 <= b < n && fv[a as int].imports[k2].resolved_path
                            == Some(fv[b].path) && spec_file_index(fv, fv[b].path) == Some(b)
                            ==> ds@.contains(b as usize),
                decreases m - k,
            {
                proof {
                    assert(files@[a as int]@ == fv[a as int]);
                    assert(files@[a as int].imports@[k as int]@ == fv[a as int].imports[k as int]);
                }
                let ghost ds0 = ds@;
                match &files[a].imports[k].resolved_path {
                    Option::Some(rp) => {
                        match find_file_index(files, rp) {
                            Some(j) => {
                                proof {
                                    assert(fv[j as int].path == rp@) by {
                                        lemma_file_index_path(fv, rp@, 0);
                                    }
                                    assert(spec_edge(fv, a as int, j as int));
                                }
                                ds.push(j);
                                proof {
                                    assert forall|x: int|
                                        0 <= x < ds0.len() implies ds@.contains(
                                        #[trigger] ds0[x]) by {
                                        assert(ds@[x] == ds0[x]);
                                    };
                                    assert(ds@[ds@.len() - 1] == j);
                                    assert(ds@.contains(j));
                                }
                            },
                            None => {},
                        }
                    },
                    Option::None => {},
                }
                proof {
                    // the one import handled this round either became a
                    // dependency entry or led to no node at all
                    assert forall|k2: int, b: int|
                        #![trigger fv[a as int].imports[k2], fv[b]]
                        0 <= k2 < k + 1 && 0 <= b < n && fv[a as int].imports[k2].resolved_path
                            == Some(fv[b].path) && spec_file_index(fv, fv[b].path) == Some(b)
                            implies ds@.contains(b as usize) by {
                        if k2 < k {
                            assert(ds0.contains(b as usize));
                            let x = choose|x: int|
                                0 <= x < ds0.len() && #[trigger] ds0[x] == (b as usize);
                            assert(ds@[x] == ds0[x]);
                        }
                    };
                }
                k = k + 1;
            }
            let ghost deps0 = deps@;
            deps.push(ds);
            proof {
                assert forall|a2: int, b: int|
                    0 <= a2 < deps@.len() && #[trigger] spec_edge(fv, a2, b) implies deps@[
                    a2]@.contains(b as usize) by {
                    if a2 < deps0.len() {
                        assert(deps@[a2] == deps0[a2]);
                    } else {
                        assert(deps@[a2]@ == ds@);
                        let k2 = choose|k2: int|
                            0 <= k2 < fv[a2].imports.len() && (#[trigger] fv[a2].imports[
                            k2]).resolved_path == Some(fv[b].path) && spec_file_index(
                            fv,
                            fv[b].path,
                        ) == Some(b);
                        assert(fv[a as int].imports[k2].resolved_path == Some(fv[b].path));
                    }
                };
            }
            a = a + 1;
        }
        // one search per start node
        let mut r: Vec<CircularImport> = Vec::new();
        let mut s: usize = 0;
        while s < n
            invariant
                0 <= s <= n == fv.len(),
                fv == files_view(files@),
                n == files@.len(),
                deps@.len() == n,
                forall|t: int, x: int|
                    0 <= t < deps@.len() && 0 <= x < deps@[t]@.len() ==> spec_edge(
                        fv,
                        t,
                        #[trigger] deps@[t]@[x] as int,
                    ),
                forall|t: int, x: int|
                    0 <= t < deps@.len() && 0 <= x < deps@[t]@.len() ==> #[trigger] deps@[t]@[x]
                        < n,
                forall|a2: int, b: int|
                    0 <= a2 < deps@.len() && #[trigger] spec_edge(fv, a2, b) ==> deps@[
                        a2
                    ]@.contains(b as usize),
                forall|c: int|
                    0 <= c < r@.len() ==> is_path_cycle(
                        fv,
                        crate::bytes::views_of(#[trigger] r@[c].cycle@),
                    ),
                r@.len() == 0 ==> forall|c: Seq<usize>| #[trigger] is_deps_cycle(deps@, c)
                    ==> c[0] >= s,
            decreases n - s,
        {
            match find_cycle(&deps, s) {
                Some(cyc) => {
                    let mut paths: Vec<Vec<u8>> = Vec::new();
                    let mut q: usize = 0;
                    while q < cyc.len()
                        invariant
                            0 <= q <= cyc@.len(),
                            fv == files_view(files@),
                            n == files@.len() == fv.len(),
                            forall|t: int| 0 <= t < cyc@.len() ==> #[trigger] cyc@[t] < n,
                            paths@.len() == q,
                            forall|t: int|
                                0 <= t < q ==> #[trigger] paths@[t]@ == fv[cyc@[t] as int].path,
                        decreases cyc@.len() - q,
                    {
                        proof {
                            assert(files@[cyc@[q as int] as int]@ == fv[cyc@[q as int] as int]);
                        }
                        paths.push(copy_bytes(&files[cyc[q]].path));
                        q = q + 1;
                    }
                    let ghost witness = idx_view(cyc@);
                    proof {
                        assert(is_index_cycle(fv, witness)) by {
                            assert(forall|t: int|
                                0 <= t < witness.len() - 1 ==> spec_edge(
                                    fv,
                                    #[trigger] witness[t],
                                    witness[t + 1],
                                )) by {
                                assert forall|t: int| 0 <= t < witness.len() - 1 implies spec_edge(
                                    fv,
                                    #[trigger] witness[t],
                                    witness[t + 1],
                                ) by {
                                    assert(deps@[cyc@[t] as int]@.contains(cyc@[t + 1]));
                                    let x = choose|x: int|
                                        0 <= x < deps@[cyc@[t] as int]@.len() && deps@[cyc@[t]
                                            as int]@[x] == cyc@[t + 1];
                                    assert(spec_edge(fv, cyc@[t] as int, deps@[cyc@[t]
                                        as int]@[x] as int));
                                };
                            };
                            let last = witness.len() - 1;
                            assert(deps@[cyc@[last] as int]@.contains(cyc@[0]));
                            let x = choose|x: int|
                                0 <= x < deps@[cyc@[last] as int]@.len() && deps@[cyc@[last]
                                    as int]@[x] == cyc@[0];
                            assert(spec_edge(fv, cyc@[last] as int, deps@[cyc@[last]
                                as int]@[x] as int));
                        };
                        assert(witness.len() == crate::bytes::views_of(paths@).len());
                        assert(forall|t: int|
                            0 <= t < witness.len() ==> crate::bytes::views_of(paths@)[t] == fv[
                                #[trigger] witness[t]].path);
                        assert(is_path_cycle(fv, crate::bytes::views_of(paths@)));
                    }
                    let ghost prev = r@;
                    r.push(CircularImport { cycle: paths });
                },
                None => {
                    proof {
                        if r@.len() == 0 {
                            assert forall|c: Seq<usize>|
                                #[trigger] is_deps_cycle(deps@, c) implies c[0] >= s + 1 by {
                                assert(c[0] >= s);
                                assert(c[0] != s);
                            };
                        }
                    }
                },
            }
            s = s + 1;
        }
        proof {
            // if nothing was reported, no cycle starts anywhere, so the
            // graph holds no cycle at all
            if r@.len() == 0 {
                assert forall|idx: Seq<int>| !(#[trigger] is_index_cycle(fv, idx)) by {
                    if is_index_cycle(fv, idx) {
                        let c = Seq::new(idx.len(), |t: int| idx[t] as usize);
                        assert forall|t: int|
                            0 <= t < idx.len() implies 0 <= idx[t] < n && (#[trigger] c[
                            t]) as int == idx[t] by {
                            if t < idx.len() - 1 {
                                assert(spec_edge(fv, idx[t], idx[t + 1]));
                            } else {
                                assert(spec_edge(fv, idx[idx.len() - 1], idx[0]));
                            }
                        };
                        assert(is_deps_cycle(deps@, c)) by {
                            assert forall|t: int|
                                0 <= t < c.len() - 1 implies deps@[#[trigger] c[t]
                                as int]@.contains(c[t + 1]) by {
                                assert(spec_edge(fv, idx[t], idx[t + 1]));
                                assert(deps@[idx[t]]@.contains((idx[t + 1]) as usize));
                            };
                            assert(spec_edge(fv, idx[idx.len() - 1], idx[0]));
                            assert(deps@[idx[idx.len() - 1]]@.contains((idx[0]) as usize));
                            assert(c[c.len() - 1] as int == idx[idx.len() - 1]);
                        };
                        assert(c[0] >= n);
                        assert(c[0] as int == idx[0] < n);
                    }
                };
            }
        }
        r
    }
}

// ----- bounded recursive expansion -----
//
// Expansion replaces each `{{import P}}` directive, written with a single
// space and the path exactly as recorded, by the resolved target's
// expanded content between begin/end marker comments, recursing through
// the import tree to the given depth. Meeting a path already on the
// current expansion chain is a hard failure naming that path; a resolved
// target that is no known file leaves its directive as it stands.

/// All occurrences of `from` in `s` replaced by `to`, scanning left to
/// right and skipping over each replacement.
pub open spec fn spec_replace(s: Seq<u8>, from: Seq<u8>, to: Seq<u8>) -> Seq<u8>
    decreases s.len(),
    when from.len() > 0
{
    if s.len() < from.len() {
        s
    } else if s.take(from.len() as int) == from {
        to + spec_replace(s.skip(from.len() as int), from, to)
    } else {
        seq![s[0]] + spec_replace(s.skip(1), from, to)
    }
}

/// Replaces every occurrence of `from` in `s` by `to`, as
/// [`spec_replace`] describes.
pub fn replace_all(s: &Vec<u8>, from: &Vec<u8>, to: &Vec<u8>) -> (r: Vec<u8>)
    requires
        from@.len() > 0,
    ensures
        r@ == spec_replace(s@, from@, to@),
{
    let n = s.len();
    let m = from.len();
    let mut out: Vec<u8> = Vec::new();
    let mut i: usize = 0;
    proof {
        assert(s@.skip(0) =~= s@);
    }
    while i < n
        invariant
            0 <= i <= n == s@.len(),
            m == from@.len() > 0,
            out@ + spec_replace(s@.skip(i as int), from@, to@) =~= spec_replace(s@, from@, to@),
        decreases n - i,
    {
        let ghost rest = s@.skip(i as int);
        if n - i >= m && bytes_match_at(s, i, from) {
            push_all(&mut out, to);
            proof {
                assert(rest.take(m as int) =~= s@.subrange(i as int, i + m));
                assert(rest.skip(m as int) =~= s@.skip(i + m));
                assert(spec_replace(rest, from@, to@) == to@ + spec_replace(
                    s@.skip(i + m),
                    from@,
                    to@,
                ));
            }
            i = i + m;
        } else {
            out.push(s[i]);
            proof {
                assert(rest[0] == s@[i as int]);
                assert(rest.skip(1) =~= s@.skip(i as int + 1));
                if rest.len() >= m {
                    assert(rest.take(m as int) =~= s@.subrange(i as int, i + m));
                    assert(rest.take(m as int) != from@);
                    assert(spec_replace(rest, from@, to@) == seq![rest[0]] + spec_replace(
                        s@.skip(i as int + 1),
                        from@,
                        to@,
                    ));
                } else {
                    assert(rest.len() < m);
                    assert(spec_replace(rest, from@, to@) == rest);
                    assert(spec_replace(s@.skip(i as int + 1), from@, to@) == s@.skip(
                        i as int + 1,
                    ));
                    assert(rest =~= seq![rest[0]] + s@.skip(i as int + 1));
                }
            }
            i = i + 1;
        }
    }
    proof {
        assert(s@.skip(i as int) =~= Seq::<u8>::empty());
        assert(spec_replace(Seq::<u8>::empty(), from@, to@) == Seq::<u8>::empty());
        assert(out@ =~= spec_replace(s@, from@, to@));
    }
    out
}

/// The literal text replaced for an import: `{{import `, the path as
/// recorded, `}}`.
pub open spec fn spec_needle(p: Seq<u8>) -> Seq<u8> {
    seq![123u8, 123u8, 105u8, 109u8, 112u8, 111u8, 114u8, 116u8, 32u8] + p + seq![125u8, 125u8]
}

/// The replacement: a begin marker naming the canonical target, the
/// target's (expanded) content, an end marker.
pub open spec fn spec_marker(canonical: Seq<u8>, body: Seq<u8>) -> Seq<u8> {
    seq![
        60u8, 33u8, 45u8, 45u8, 32u8, 73u8, 109u8, 112u8, 111u8, 114u8, 116u8, 32u8, 102u8,
        114u8, 111u8, 109u8, 58u8, 32u8,
    ] + canonical + seq![32u8, 45u8, 45u8, 62u8, 10u8] + body + seq![
        10u8, 60u8, 33u8, 45u8, 45u8, 32u8, 69u8, 110u8, 100u8, 32u8, 105u8, 109u8, 112u8,
        111u8, 114u8, 116u8, 32u8, 45u8, 45u8, 62u8,
    ]
}

/// What expanding a file yields: its content with every resolvable import
/// substituted, or the path at which the expansion chain came back on
/// itself.
pub open spec fn spec_expand(
    files: Seq<MemoryFileV>,
    f: MemoryFileV,
    depth: int,
    max_depth: int,
    chain: Seq<Seq<u8>>,
) -> Result<Seq<u8>, Seq<u8>>
    decreases max_depth - depth, 1int, 0int,
{
    if depth >= max_depth {
        Ok(f.content)
    } else if chain.contains(f.path) {
        Err(f.path)
    } else {
        spec_expand_imports(files, f, 0, f.content, depth, max_depth, chain.push(f.path))
    }
}

/// Folds a file's imports, in order, over the accumulated text: each
/// import that resolves to a known file has its directive text replaced
/// by that file's expansion between markers; a failure below propagates.
pub open spec fn spec_expand_imports(
    files: Seq<MemoryFileV>,
    f: MemoryFileV,
    k: int,
    acc: Seq<u8>,
    depth: int,
    max_depth: int,
    chain: Seq<Seq<u8>>,
) -> Result<Seq<u8>, Seq<u8>>
    decreases max_depth - depth, 0int, f.imports.len() - k,
    when depth < max_depth
{
    if k < 0 || k >= f.imports.len() {
        Ok(acc)
    } else {
        let imp = f.imports[k];
        match imp.resolved_path {
            Some(rp) => match spec_file_index(files, rp) {
                Some(j) => match spec_expand(files, files[j], depth + 1, max_depth, chain) {
                    Ok(body) => spec_expand_imports(
                        files,
                        f,
                        k + 1,
                        spec_replace(acc, spec_needle(imp.path), spec_marker(rp, body)),
                        depth,
                        max_depth,
                        chain,
                    ),
                    Err(e) => Err(e),
                },
                None => spec_expand_imports(files, f, k + 1, acc, depth, max_depth, chain),
            },
            None => spec_expand_imports(files, f, k + 1, acc, depth, max_depth, chain),
        }
    }
}

/// Why an expansion failed.
#[derive(Debug, Clone)]
pub enum ExpandError {
    /// The expansion chain met this path a second time.
    Circular { path: Vec<u8> },
}

impl ImportResolver {
    /// Expands a file against the known set, recursing through resolved
    /// imports to `max_depth`, as [`spec_expand`] describes from an empty
    /// chain.
    pub fn expand_imports(
        &self,
        files: &Vec<MemoryFile>,
        file: &MemoryFile,
        max_depth: usize,
    ) -> (r: Result<Vec<u8>, ExpandError>)
        ensures
            match r {
                Ok(v) => spec_expand(
                    files_view(files@),
                    file@,
                    0,
                    max_depth as int,
                    Seq::empty(),
                ) == Ok::<Seq<u8>, Seq<u8>>(v@),
                Err(e) => match e {
                    ExpandError::Circular { path } => spec_expand(
                        files_view(files@),
                        file@,
                        0,
                        max_depth as int,
                        Seq::empty(),
                    ) == Err::<Seq<u8>, Seq<u8>>(path@),
                },
            },
    {
        let mut chain: Vec<Vec<u8>> = Vec::new();
        proof {
            assert(crate::bytes::views_of(chain@) =~= Seq::<Seq<u8>>::empty());
        }
        self.expand_rec(files, file, 0, max_depth, &mut chain)
    }

    /// One level of the expansion; the chain holds the paths currently
    /// being expanded and is restored on success.
    fn expand_rec(
        &self,
        files: &Vec<MemoryFile>,
        file: &MemoryFile,
        depth: usize,
        max_depth: usize,
        chain: &mut Vec<Vec<u8>>,
    ) -> (r: Result<Vec<u8>, ExpandError>)
        requires
            depth <= max_depth,
        ensures
            match r {
                Ok(v) => crate::bytes::views_of(final(chain)@) == crate::bytes::views_of(
                    old(chain)@,
                ) && spec_expand(
                    files_view(files@),
                    file@,
                    depth as int,
                    max_depth as int,
                    crate::bytes::views_of(old(chain)@),
                ) == Ok::<Seq<u8>, Seq<u8>>(v@),
                Err(e) => match e {
                    ExpandError::Circular { path } => spec_expand(
                        files_view(files@),
                        file@,
                        depth as int,
                        max_depth as int,
                        crate::bytes::views_of(old(chain)@),
                    ) == Err::<Seq<u8>, Seq<u8>>(path@),
                },
            },
        decreases max_depth - depth,
    {
        let ghost fv = files_view(files@);
        let ghost chain0 = crate::bytes::views_of(chain@);
        if depth >= max_depth {
            return Ok(copy_bytes(&file.content));
        }
        // a path already being expanded means the imports come back around
        let cn = chain.len();
        let mut t: usize = 0;
        while t < cn
            invariant
                0 <= t <= cn == chain@.len(),
                depth < max_depth,
                fv == files_view(files@),
                chain0 == crate::bytes::views_of(chain@),
                chain0 == crate::bytes::views_of(old(chain)@),
                forall|u: int| 0 <= u < t ==> chain0[u] != file@.path,
            decreases cn - t,
        {
            proof {
                assert(chain@[t as int]@ == chain0[t as int]);
            }
            if seq_eq(&chain[t], &file.path) {
                proof {
                    assert(chain0.contains(file@.path));
                    assert(spec_expand(fv, file@, depth as int, max_depth as int, chain0)
                        == Err::<Seq<u8>, Seq<u8>>(file@.path));
                }
                return Err(ExpandError::Circular { path: copy_bytes(&file.path) });
            }
            t = t + 1;
        }
        proof {
            assert(!chain0.contains(file@.path));
        }
        let ghost chain1 = chain0.push(file@.path);
        chain.push(copy_bytes(&file.path));
        proof {
            assert(crate::bytes::views_of(chain@) =~= chain1);
        }
        let mut acc = copy_bytes(&file.content);
        let m = file.imports.len();
        let mut k: usize = 0;
        while k < m
            invariant
                0 <= k <= m == file@.imports.len(),
                m == file.imports@.len(),
                fv == files_view(files@),
                depth < max_depth,
                !chain0.contains(file@.path),
                crate::bytes::views_of(chain@) == chain1,
                chain1 == chain0.push(file@.path),
                chain0 == crate::bytes::views_of(old(chain)@),
                spec_expand_imports(
                    fv,
                    file@,
                    k as int,
                    acc@,
                    depth as int,
                    max_depth as int,
                    chain1,
                ) == spec_expand_imports(
                    fv,
                    file@,
                    0,
                    file@.content,
                    depth as int,
                    max_depth as int,
                    chain1,
                ),
            decreases m - k,
        {
            proof {
                assert(file.imports@[k as int]@ == file@.imports[k as int]);
            }
            let imp = &file.imports[k];
            match &imp.resolved_path {
                Option::Some(rp) => {
                    match find_file_index(files, rp) {
                        Some(j) => {
                            proof {
                                assert(files@[j as int]@ == fv[j as int]);
                            }
                            match self.expand_rec(files, &files[j], depth + 1, max_depth, chain) {
                                Ok(body) => {
                                    let mut needle: Vec<u8> = vec![
                                        123u8, 123u8, 105u8, 109u8, 112u8, 111u8, 114u8, 116u8,
                                        32u8,
                                    ];
                                    push_all(&mut needle, &imp.path);
                                    needle.push(125);
                                    needle.push(125);
                                    let mut marker: Vec<u8> = vec![
                                        60u8, 33u8, 45u8, 45u8, 32u8, 73u8, 109u8, 112u8, 111u8,
                                        114u8, 116u8, 32u8, 102u8, 114u8, 111u8, 109u8, 58u8,
                                        32u8,
                                    ];
                                    push_all(&mut marker, rp);
                                    marker.push(32);
                                    marker.push(45);
                                    marker.push(45);
                                    marker.push(62);
                                    marker.push(10);
                                    push_all(&mut marker, &body);
                                    let tail: Vec<u8> = vec![
                                        10u8, 60u8, 33u8, 45u8, 45u8, 32u8, 69u8, 110u8, 100u8,
                                        32u8, 105u8, 109u8, 112u8, 111u8, 114u8, 116u8, 32u8,
                                        45u8, 45u8, 62u8,
                                    ];
                                    push_all(&mut marker, &tail);
                                    proof {
                                        assert(needle@ =~= spec_needle(file@.imports[k as int]
                                            .path));
                                        assert(marker@ =~= spec_marker(rp@, body@));
                                    }
                                    let newacc = replace_all(&acc, &needle, &marker);
                                    acc = newacc;
                                },
                                Err(e) => {
                                    proof {
                                        let ce = spec_expand(
                                            fv,
                                            fv[j as int],
                                            depth as int + 1,
                                            max_depth as int,
                                            chain1,
                                        );
                                        assert(spec_expand_imports(
                                            fv,
                                            file@,
                                            k as int,
                                            acc@,
                                            depth as int,
                                            max_depth as int,
                                            chain1,
                                        ) == ce);
                                        assert(spec_expand(
                                            fv,
                                            file@,
                                            depth as int,
                                            max_depth as int,
                                            chain0,
                                        ) == ce);
                                        assert(match e {
                                            ExpandError::Circular { path } => ce
                                                == Err::<Seq<u8>, Seq<u8>>(path@),
                                        });
                                    }
                                    return Err(e);
                                },
                            }
                        },
                        None => {},
                    }
                },
                Option::None => {},
            }
            k = k + 1;
        }
        proof {
            assert(forall|t: int|
                0 <= t < chain@.len() ==> #[trigger] crate::bytes::views_of(chain@)[t]
                    == chain@[t]@);
        }
        let ghost pre = chain@;
        let _ = chain.pop();
        proof {
            assert(chain@ =~= pre.subrange(0, pre.len() - 1));
            assert(forall|t: int| 0 <= t < chain@.len() ==> chain@[t] == pre[t]);
            assert(forall|t: int|
                0 <= t < chain@.len() ==> #[trigger] crate::bytes::views_of(chain@)[t]
                    == chain@[t]@);
            assert(forall|t: int| 0 <= t < chain0.len() ==> chain1[t] == chain0[t]);
            assert(crate::bytes::views_of(chain@) =~= chain0);
            assert(spec_expand_imports(
                fv,
                file@,
                m as int,
                acc@,
                depth as int,
                max_depth as int,
                chain1,
            ) == Ok::<Seq<u8>, Seq<u8>>(acc@));
        }
        Ok(acc)
    }
}

proof fn lemma_file_index_path(files: Seq<MemoryFileV>, path: Seq<u8>, k: int)
    requires
        0 <= k,
        (file_index_from(files, path, k) is Some),
    ensures
        k <= file_index_from(files, path, k)->Some_0 < files.len(),
        files[file_index_from(files, path, k)->Some_0].path == path,
    decreases files.len() - k,
{
    if k < files.len() && files[k].path != path {
        lemma_file_index_path(files, path, k + 1);
    }
}

} // verus!
