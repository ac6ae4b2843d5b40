//! Diagnostics over a set of discovered files: over-large files and
//! unresolved imports, with aggregate metrics.

use vstd::prelude::*;
use crate::bytes::push_all;
use crate::memory::{ImportV, MemoryFile, MemoryFileV, files_view};

verus! {

/// How severe a diagnostic is.
#[derive(Debug, Clone, Copy, PartialEq, Eq, Structural)]
pub enum DiagnosticLevel {
    Error,
    Warning,
    Info,
}

/// One finding: severity, message, the file and line it concerns, and a
/// stable code naming the rule.
#[derive(Debug, Clone)]
pub struct Diagnostic {
    pub level: DiagnosticLevel,
    pub message: Vec<u8>,
    pub file: Option<Vec<u8>>,
    pub line: Option<usize>,
    pub code: Vec<u8>,
}

/// The mathematical value of a [`Diagnostic`].
#[verifier::ext_equal]
pub struct DiagnosticV {
    pub level: DiagnosticLevel,
    pub message: Seq<u8>,
    pub file: Option<Seq<u8>>,
    pub line: Option<int>,
    pub code: Seq<u8>,
}

impl View for Diagnostic {
    type V = DiagnosticV;

    open spec fn view(&self) -> DiagnosticV {
        DiagnosticV {
            level: self.level,
            message: self.message@,
            file: match self.file {
                Some(f) => Some(f@),
                None => None,
            },
            line: match self.line {
                Some(l) => Some(l as int),
                None => None,
            },
            code: self.code@,
        }
    }
}

/// The views of a sequence of diagnostics.
pub open spec fn diags_view(ds: Seq<Diagnostic>) -> Seq<DiagnosticV> {
    Seq::new(ds.len(), |i: int| ds[i]@)
}

/// A proposed improvement; the checks here raise none.
#[derive(Debug, Clone)]
pub struct Suggestion {
    pub message: Vec<u8>,
    pub fix: Option<Vec<u8>>,
}

/// Aggregate counts over the checked set.
#[derive(Debug, Clone, Copy, PartialEq, Eq, Structural)]
pub struct PerformanceMetrics {
    pub total_files: usize,
    pub total_size: u64,
    pub import_depth: usize,
    pub circular_imports: usize,
}

/// Everything one diagnostics run yields.
#[derive(Debug)]
pub struct DiagnosticResult {
    pub errors: Vec<Diagnostic>,
    pub warnings: Vec<Diagnostic>,
    pub suggestions: Vec<Suggestion>,
    pub metrics: PerformanceMetrics,
}

/// The size above which a file draws a warning.
pub open spec fn large_file_limit() -> int {
    1000000
}

/// The message prefix `File is larger than 1MB: `.
pub open spec fn large_file_prefix() -> Seq<u8> {
    seq![
        70u8, 105u8, 108u8, 101u8, 32u8, 105u8, 115u8, 32u8, 108u8, 97u8, 114u8, 103u8, 101u8,
        114u8, 32u8, 116u8, 104u8, 97u8, 110u8, 32u8, 49u8, 77u8, 66u8, 58u8, 32u8,
    ]
}

/// The message prefix `Unresolved import: `.
pub open spec fn unresolved_prefix() -> Seq<u8> {
    seq![
        85u8, 110u8, 114u8, 101u8, 115u8, 111u8, 108u8, 118u8, 101u8, 100u8, 32u8, 105u8, 109u8,
        112u8, 111u8, 114u8, 116u8, 58u8, 32u8,
    ]
}

/// The code `large-file`.
pub open spec fn large_file_code() -> Seq<u8> {
    seq![108u8, 97u8, 114u8, 103u8, 101u8, 45u8, 102u8, 105u8, 108u8, 101u8]
}

/// The code `missing-import`.
pub open spec fn missing_import_code() -> Seq<u8> {
    seq![
        109u8, 105u8, 115u8, 115u8, 105u8, 110u8, 103u8, 45u8, 105u8, 109u8, 112u8, 111u8, 114u8,
        116u8,
    ]
}

/// The warning an over-large file draws.
pub open spec fn large_file_warning(f: MemoryFileV) -> DiagnosticV {
    DiagnosticV {
        level: DiagnosticLevel::Warning,
        message: large_file_prefix() + f.path,
        file: Some(f.path),
        line: None,
        code: large_file_code(),
    }
}

/// The error an unresolved import draws.
pub open spec fn unresolved_error(f: MemoryFileV, imp: ImportV) -> DiagnosticV {
    DiagnosticV {
        level: DiagnosticLevel::Error,
        message: unresolved_prefix() + imp.path,
        file: Some(f.path),
        line: Some(imp.line_number),
        code: missing_import_code(),
    }
}

/// The errors of one file's imports at and after index `k`: one per
/// unresolved import, in order.
pub open spec fn file_errors_from(f: MemoryFileV, k: int) -> Seq<DiagnosticV>
    decreases f.imports.len() - k,
{
    if k < 0 || k >= f.imports.len() {
        Seq::empty()
    } else {
        let head: Seq<DiagnosticV> = if f.imports[k].resolved_path is None {
            seq![unresolved_error(f, f.imports[k])]
        } else {
            Seq::empty()
        };
        head + file_errors_from(f, k + 1)
    }
}

/// All errors of the files at and after index `i`, in file order.
pub open spec fn errors_from(files: Seq<MemoryFileV>, i: int) -> Seq<DiagnosticV>
    decreases files.len() - i,
{
    if i < 0 || i >= files.len() {
        Seq::empty()
    } else {
        file_errors_from(files[i], 0) + errors_from(files, i + 1)
    }
}

/// All warnings of the files at and after index `i`: one per over-large
/// file, in file order.
pub open spec fn warnings_from(files: Seq<MemoryFileV>, i: int) -> Seq<DiagnosticV>
    decreases files.len() - i,
{
    if i < 0 || i >= files.len() {
        Seq::empty()
    } else {
        let head: Seq<DiagnosticV> = if files[i].metadata.size > large_file_limit() {
            seq![large_file_warning(files[i])]
        } else {
            Seq::empty()
        };
        head + warnings_from(files, i + 1)
    }
}

/// The total size of the files at and after index `i`.
pub open spec fn sizes_from(files: Seq<MemoryFileV>, i: int) -> int
    decreases files.len() - i,
{
    if i < 0 || i >= files.len() {
        0
    } else {
        files[i].metadata.size + sizes_from(files, i + 1)
    }
}

pub proof fn lemma_sizes_nonneg(files: Seq<MemoryFileV>, i: int)
    ensures
        sizes_from(files, i) >= 0,
    decreases files.len() - i,
{
    if 0 <= i < files.len() {
        lemma_sizes_nonneg(files, i + 1);
    }
}

/// The diagnostics pass; `strict` is carried for callers but changes no
/// check here.
#[derive(Debug, Clone)]
pub struct Diagnostics {
    pub strict: bool,
}

impl Diagnostics {
    /// A non-strict diagnostics pass.
    pub fn new() -> (r: Self)
        ensures
            !r.strict,
    {
        Diagnostics { strict: false }
    }

    /// Sets the strict flag.
    pub fn with_strict(self, strict: bool) -> (r: Self)
        ensures
            r.strict == strict,
    {
        Diagnostics { strict }
    }

    /// Checks the files: a warning for each file above the size limit, an
    /// error for each unresolved import, and aggregate metrics. Import
    /// depth and cycle counts are not computed here and are reported as
    /// zero.
    pub fn check(&self, files: &Vec<MemoryFile>) -> (r: DiagnosticResult)
        requires
            sizes_from(files_view(files@), 0) <= u64::MAX,
        ensures
            diags_view(r.errors@) == errors_from(files_view(files@), 0),
            diags_view(r.warnings@) == warnings_from(files_view(files@), 0),
            r.suggestions@.len() == 0,
            r.metrics.total_files == files@.len(),
            r.metrics.total_size == sizes_from(files_view(files@), 0),
            r.metrics.import_depth == 0,
            r.metrics.circular_imports == 0,
    {
        let ghost fv = files_view(files@);
        let mut errors: Vec<Diagnostic> = Vec::new();
        let mut warnings: Vec<Diagnostic> = Vec::new();
        let mut total_size: u64 = 0;
        let n = files.len();
        let mut i: usize = 0;
        while i < n
            invariant
                0 <= i <= n == files@.len(),
                fv == files_view(files@),
                sizes_from(fv, 0) <= u64::MAX,
                diags_view(errors@) + errors_from(fv, i as int) =~= errors_from(fv, 0),
                diags_view(warnings@) + warnings_from(fv, i as int) =~= warnings_from(fv, 0),
                total_size + sizes_from(fv, i as int) == sizes_from(fv, 0),
                total_size >= 0,
            decreases n - i,
        {
            let file = &files[i];
            proof {
                assert(file@ == fv[i as int]);
                lemma_sizes_nonneg(fv, i as int + 1);
                assert(sizes_from(fv, i as int) == fv[i as int].metadata.size + sizes_from(
                    fv,
                    i as int + 1,
                ));
                assert(errors_from(fv, i as int) =~= file_errors_from(fv[i as int], 0)
                    + errors_from(fv, i as int + 1));
            }
            if file.metadata.size > 1000000 {
                let mut message: Vec<u8> = vec![
                    70u8, 105u8, 108u8, 101u8, 32u8, 105u8, 115u8, 32u8, 108u8, 97u8, 114u8,
                    103u8, 101u8, 114u8, 32u8, 116u8, 104u8, 97u8, 110u8, 32u8, 49u8, 77u8, 66u8,
                    58u8, 32u8,
                ];
                proof {
                    assert(message@ =~= large_file_prefix());
                }
                push_all(&mut message, &file.path);
                let code: Vec<u8> = vec![
                    108u8, 97u8, 114u8, 103u8, 101u8, 45u8, 102u8, 105u8, 108u8, 101u8,
                ];
                proof {
                    assert(code@ =~= large_file_code());
                }
                let d = Diagnostic {
                    level: DiagnosticLevel::Warning,
                    message,
                    file: Some(file.path.clone()),
                    line: None,
                    code,
                };
                let ghost dv = d@;
                let ghost prev = diags_view(warnings@);
                warnings.push(d);
                proof {
                    assert(dv =~= large_file_warning(fv[i as int]));
                    assert(diags_view(warnings@) =~= prev.push(dv));
                    assert(prev.push(dv) =~= prev + seq![dv]);
                    assert(warnings_from(fv, i as int) =~= seq![dv] + warnings_from(
                        fv,
                        i as int + 1,
                    ));
                }
            } else {
                proof {
                    assert(warnings_from(fv, i as int) =~= warnings_from(fv, i as int + 1));
                }
            }
            let m = files[i].imports.len();
            let mut k: usize = 0;
            while k < m
                invariant
                    0 <= k <= m == fv[i as int].imports.len(),
                    0 <= i < n == files@.len(),
                    fv == files_view(files@),
                    m == files@[i as int].imports@.len(),
                    files@[i as int]@ == fv[i as int],
                    diags_view(errors@) + file_errors_from(fv[i as int], k as int) + errors_from(
                        fv,
                        i as int + 1,
                    ) =~= errors_from(fv, 0),
                decreases m - k,
            {
                let imp = &files[i].imports[k];
                proof {
                    assert(imp@ == fv[i as int].imports[k as int]);
                }
                match &imp.resolved_path {
                    Option::None => {
                        let mut message: Vec<u8> = vec![
                            85u8, 110u8, 114u8, 101u8, 115u8, 111u8, 108u8, 118u8, 101u8, 100u8,
                            32u8, 105u8, 109u8, 112u8, 111u8, 114u8, 116u8, 58u8, 32u8,
                        ];
                        proof {
                            assert(message@ =~= unresolved_prefix());
                        }
                        push_all(&mut message, &imp.path);
                        let code: Vec<u8> = vec![
                            109u8, 105u8, 115u8, 115u8, 105u8, 110u8, 103u8, 45u8, 105u8, 109u8,
                            112u8, 111u8, 114u8, 116u8,
                        ];
                        proof {
                            assert(code@ =~= missing_import_code());
                        }
                        let d = Diagnostic {
                            level: DiagnosticLevel::Error,
                            message,
                            file: Some(files[i].path.clone()),
                            line: Some(imp.line_number),
                            code,
                        };
                        let ghost dv = d@;
                        let ghost prev = diags_view(errors@);
                        errors.push(d);
                        proof {
                            assert(dv =~= unresolved_error(
                                fv[i as int],
                                fv[i as int].imports[k as int],
                            ));
                            assert(diags_view(errors@) =~= prev.push(dv));
                            assert(prev.push(dv) =~= prev + seq![dv]);
                            assert(file_errors_from(fv[i as int], k as int) =~= seq![dv]
                                + file_errors_from(fv[i as int], k as int + 1));
                        }
                    },
                    Option::Some(_) => {
                        proof {
                            assert(file_errors_from(fv[i as int], k as int) =~= file_errors_from(
                                fv[i as int],
                                k as int + 1,
                            ));
                        }
                    },
                }
                k = k + 1;
            }
            proof {
                assert(file_errors_from(fv[i as int], m as int) =~= Seq::<DiagnosticV>::empty());
                assert(errors_from(fv, i as int) =~= file_errors_from(fv[i as int], 0)
                    + errors_from(fv, i as int + 1));
                assert(diags_view(errors@) + errors_from(fv, i as int + 1) =~= errors_from(fv, 0));
            }
            total_size = total_size + file.metadata.size;
            i = i + 1;
        }
        proof {
            assert(errors_from(fv, n as int) =~= Seq::<DiagnosticV>::empty());
            assert(warnings_from(fv, n as int) =~= Seq::<DiagnosticV>::empty());
            assert(diags_view(errors@) =~= errors_from(fv, 0));
            assert(diags_view(warnings@) =~= warnings_from(fv, 0));
            assert(sizes_from(fv, n as int) == 0);
        }
        let metrics = PerformanceMetrics {
            total_files: n,
            total_size,
            import_depth: 0,
            circular_imports: 0,
        };
        DiagnosticResult { errors, warnings, suggestions: Vec::new(), metrics }
    }
}

} // verus!
