//! Discovery configuration and the per-file work of a scan.
//!
//! Walking directories and reading files is I/O and stays outside the
//! library; given a file's raw content and stat data, the functions here
//! build the [`MemoryFile`] record: metadata with content digest and line
//! count, and a shallow per-line extraction of import directives.

use vstd::prelude::*;
use crate::bytes::{
    bytes_match_at, count_lines, spec_lines, spec_trim, split_lines, subvec, trim_ascii,
};
use crate::hashing::{content_hash, spec_content_hash};
use crate::memory::{FileMetadata, Import, ImportV, MemoryFile, MemoryType, imports_view};

verus! {

/// The bytes of the directive keyword `{{import`.
pub open spec fn import_kw() -> Seq<u8> {
    seq![123u8, 123u8, 105u8, 109u8, 112u8, 111u8, 114u8, 116u8]
}

/// What the shallow scan makes of one line: the trimmed line must start
/// with `{{import` and end with `}}`; the path is the trimmed text between.
pub open spec fn spec_parse_import_line(l: Seq<u8>) -> Option<Seq<u8>> {
    let t = spec_trim(l);
    if t.len() >= 10 && t.take(8) == import_kw() && t[t.len() - 2] == 125 && t[t.len() - 1]
        == 125 {
        Some(spec_trim(t.subrange(8, t.len() - 2)))
    } else {
        None
    }
}

/// The import records of the lines at and after index `k`.
pub open spec fn spec_imports_from(lines: Seq<Seq<u8>>, k: int) -> Seq<ImportV>
    decreases lines.len() - k,
{
    if k < 0 || k >= lines.len() {
        Seq::empty()
    } else {
        let head = match spec_parse_import_line(lines[k]) {
            Some(p) => seq![
                ImportV { path: p, line_number: k + 1, resolved_path: None::<Seq<u8>> },
            ],
            None => Seq::empty(),
        };
        head + spec_imports_from(lines, k + 1)
    }
}

/// The import records that a shallow scan of `lines` yields, one per
/// directive line, with 1-based line numbers in source order.
pub open spec fn spec_extract_imports(lines: Seq<Seq<u8>>) -> Seq<ImportV> {
    spec_imports_from(lines, 0)
}

/// Every extracted import is unresolved, and line numbers are 1-based,
/// bounded by the line count, and strictly increasing in source order.
pub proof fn lemma_extract_imports_lines(lines: Seq<Seq<u8>>, k: int)
    requires
        0 <= k <= lines.len(),
    ensures
        forall|t: int|
            0 <= t < spec_imports_from(lines, k).len() ==> {
                let imp = #[trigger] spec_imports_from(lines, k)[t];
                k + 1 <= imp.line_number <= lines.len() && imp.resolved_path.is_none()
            },
        forall|t: int, u: int|
            0 <= t < u < spec_imports_from(lines, k).len() ==> #[trigger] spec_imports_from(
                lines,
                k,
            )[t].line_number < #[trigger] spec_imports_from(lines, k)[u].line_number,
    decreases lines.len() - k,
{
    if k < lines.len() {
        lemma_extract_imports_lines(lines, k + 1);
    }
}

/// Discovery options: whether to walk subdirectories, how deep, and whether
/// the walk follows symbolic links.
#[derive(Debug, Clone)]
pub struct Scanner {
    pub include_subdirs: bool,
    pub max_depth: Option<usize>,
    pub follow_symlinks: bool,
}

impl Scanner {
    /// The default configuration: no subdirectory walk, unbounded depth,
    /// symbolic links not followed.
    pub fn new() -> (r: Self)
        ensures
            !r.include_subdirs,
            r.max_depth.is_none(),
            !r.follow_symlinks,
    {
        Scanner { include_subdirs: false, max_depth: None, follow_symlinks: false }
    }

    /// Sets whether subdirectories are walked.
    pub fn with_subdirs(self, enabled: bool) -> (r: Self)
        ensures
            r.include_subdirs == enabled,
            r.max_depth == self.max_depth,
            r.follow_symlinks == self.follow_symlinks,
    {
        Scanner { include_subdirs: enabled, ..self }
    }

    /// Bounds the subdirectory walk's depth; `None` leaves it unbounded.
    pub fn with_max_depth(self, depth: Option<usize>) -> (r: Self)
        ensures
            r.include_subdirs == self.include_subdirs,
            r.max_depth == depth,
            r.follow_symlinks == self.follow_symlinks,
    {
        Scanner { max_depth: depth, ..self }
    }

    /// Sets whether the walk follows symbolic links.
    pub fn with_follow_symlinks(self, follow: bool) -> (r: Self)
        ensures
            r.include_subdirs == self.include_subdirs,
            r.max_depth == self.max_depth,
            r.follow_symlinks == follow,
    {
        Scanner { follow_symlinks: follow, ..self }
    }

    /// What the shallow scan makes of one line, as
    /// [`spec_parse_import_line`] describes.
    pub fn parse_import_line(&self, line: &Vec<u8>) -> (r: Option<Vec<u8>>)
        ensures
            match r {
                Some(p) => spec_parse_import_line(line@) == Some(p@),
                None => spec_parse_import_line(line@) is None,
            },
    {
        let t = trim_ascii(line);
        let n = t.len();
        if n < 10 {
            return None;
        }
        let kw: Vec<u8> = vec![123u8, 123u8, 105u8, 109u8, 112u8, 111u8, 114u8, 116u8];
        proof {
            assert(kw@ =~= import_kw());
        }
        if !bytes_match_at(&t, 0, &kw) {
            proof {
                assert(t@.take(8) =~= t@.subrange(0, 8));
            }
            return None;
        }
        proof {
            assert(t@.take(8) =~= t@.subrange(0, 8));
        }
        if t[n - 2] != 125 || t[n - 1] != 125 {
            return None;
        }
        let inner = subvec(&t, 8, n - 2);
        Some(trim_ascii(&inner))
    }

    /// Scans content line by line for import directives, as
    /// [`spec_extract_imports`] describes.
    pub fn extract_imports(&self, content: &Vec<u8>) -> (r: Vec<Import>)
        ensures
            imports_view(r@) == spec_extract_imports(spec_lines(content@)),
    {
        let lines = split_lines(content);
        let ghost lv = spec_lines(content@);
        let mut r: Vec<Import> = Vec::new();
        let mut i: usize = 0;
        while i < lines.len()
            invariant
                0 <= i <= lines@.len(),
                crate::bytes::views_of(lines@) == lv,
                lv == spec_lines(content@),
                imports_view(r@) + spec_imports_from(lv, i as int) =~= spec_extract_imports(lv),
            decreases lines.len() - i,
        {
            let ghost prev = imports_view(r@);
            proof {
                assert(lines@[i as int]@ == lv[i as int]);
            }
            match self.parse_import_line(&lines[i]) {
                Some(path) => {
                    let imp = Import { path, line_number: i + 1, resolved_path: None };
                    let ghost impv = imp@;
                    r.push(imp);
                    proof {
                        assert(imports_view(r@) =~= prev.push(impv));
                        assert(spec_imports_from(lv, i as int) =~= seq![impv]
                            + spec_imports_from(lv, i as int + 1));
                        assert(prev.push(impv) =~= prev + seq![impv]);
                    }
                },
                None => {
                    proof {
                        assert(spec_imports_from(lv, i as int) =~= spec_imports_from(
                            lv,
                            i as int + 1,
                        ));
                    }
                },
            }
            i = i + 1;
            proof {
                assert(imports_view(r@) + spec_imports_from(lv, i as int) =~= spec_extract_imports(
                    lv,
                ));
            }
        }
        proof {
            assert(spec_imports_from(lv, i as int) =~= Seq::<ImportV>::empty());
            assert(imports_view(r@) =~= spec_extract_imports(lv));
        }
        r
    }

    /// Builds a file's metadata from its content and stat data: the hash is
    /// the lowercase hex SHA-256 digest of the full content, the line count
    /// counts the content's lines.
    pub fn get_file_metadata(&self, content: &Vec<u8>, size: u64, modified: i64) -> (m:
        FileMetadata)
        ensures
            m@.size == size,
            m@.modified == modified,
            m@.hash == spec_content_hash(content@),
            m@.line_count == spec_lines(content@).len(),
    {
        let hash = content_hash(content);
        let line_count = count_lines(content);
        FileMetadata { size, modified, hash, line_count }
    }

    /// Assembles the record of one discovered file from its path, kind, raw
    /// content and stat data; imports come from the shallow per-line scan.
    pub fn scan_file(
        &self,
        path: Vec<u8>,
        file_type: MemoryType,
        content: Vec<u8>,
        size: u64,
        modified: i64,
    ) -> (f: MemoryFile)
        ensures
            f@.path == path@,
            f@.file_type == file_type,
            f@.content == content@,
            f@.imports == spec_extract_imports(spec_lines(content@)),
            f@.metadata.size == size,
            f@.metadata.modified == modified,
            f@.metadata.hash == spec_content_hash(content@),
            f@.metadata.line_count == spec_lines(content@).len(),
    {
        let metadata = self.get_file_metadata(&content, size, modified);
        let imports = self.extract_imports(&content);
        let f = MemoryFile { path, file_type, content, imports, metadata };
        proof {
            assert(f@.imports =~= imports_view(imports@));
        }
        f
    }
}

impl Default for Scanner {
    /// The same configuration as [`Scanner::new`].
    fn default() -> (r: Self)
        ensures
            !r.include_subdirs,
            r.max_depth.is_none(),
            !r.follow_symlinks,
    {
        Scanner::new()
    }
}

} // verus!
