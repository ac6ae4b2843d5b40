use ccat::analyzer::DiagnosticLevel;
use ccat::{Diagnostics, FileMetadata, Import, MemoryFile, MemoryType};

fn file_with(size: u64, imports: Vec<Import>) -> MemoryFile {
    MemoryFile {
        path: b"proj/memory.md".to_vec(),
        file_type: MemoryType::ProjectMemory,
        content: Vec::new(),
        imports,
        metadata: FileMetadata { size, modified: 0, hash: Vec::new(), line_count: 0 },
    }
}

#[test]
fn oversized_file_draws_a_warning() {
    let d = Diagnostics::new();
    let r = d.check(&vec![file_with(2_000_000, Vec::new())]);
    assert_eq!(r.warnings.len(), 1);
    assert_eq!(r.errors.len(), 0);
    assert!(matches!(r.warnings[0].level, DiagnosticLevel::Warning));
    assert_eq!(r.warnings[0].code, b"large-file".to_vec());
    assert_eq!(
        r.warnings[0].message,
        b"File is larger than 1MB: proj/memory.md".to_vec()
    );
    assert_eq!(r.warnings[0].file, Some(b"proj/memory.md".to_vec()));
    assert!(r.warnings[0].line.is_none());
}

#[test]
fn size_at_the_limit_draws_no_warning() {
    let d = Diagnostics::new();
    let r = d.check(&vec![file_with(1_000_000, Vec::new())]);
    assert_eq!(r.warnings.len(), 0);
}

#[test]
fn unresolved_import_draws_an_error_with_its_line() {
    let d = Diagnostics::new();
    let unresolved = Import { path: b"gone.md".to_vec(), line_number: 7, resolved_path: None };
    let resolved = Import {
        path: b"here.md".to_vec(),
        line_number: 2,
        resolved_path: Some(b"/abs/here.md".to_vec()),
    };
    let r = d.check(&vec![file_with(10, vec![resolved, unresolved])]);
    assert_eq!(r.errors.len(), 1);
    assert!(matches!(r.errors[0].level, DiagnosticLevel::Error));
    assert_eq!(r.errors[0].code, b"missing-import".to_vec());
    assert_eq!(r.errors[0].message, b"Unresolved import: gone.md".to_vec());
    assert_eq!(r.errors[0].line, Some(7));
}

#[test]
fn metrics_aggregate_the_set() {
    let d = Diagnostics::new();
    let r = d.check(&vec![file_with(100, Vec::new()), file_with(250, Vec::new())]);
    assert_eq!(r.metrics.total_files, 2);
    assert_eq!(r.metrics.total_size, 350);
    assert_eq!(r.metrics.import_depth, 0);
    assert_eq!(r.metrics.circular_imports, 0);
    assert!(r.suggestions.is_empty());
}

#[test]
fn strict_flag_builder() {
    let d = Diagnostics::new();
    assert!(!d.strict);
    let d = d.with_strict(true);
    assert!(d.strict);
}
