use ccat::resolver::{ExpandError, FsEntry, ImportResolver};
use ccat::{FileMetadata, Import, MemoryFile, MemoryType};

fn entry(path: &str, canonical: &str) -> FsEntry {
    FsEntry { path: path.as_bytes().to_vec(), canonical: canonical.as_bytes().to_vec() }
}

fn file_at(path: &str, content: &str, imports: Vec<Import>) -> MemoryFile {
    MemoryFile {
        path: path.as_bytes().to_vec(),
        file_type: MemoryType::SubdirMemory,
        content: content.as_bytes().to_vec(),
        imports,
        metadata: FileMetadata {
            size: content.len() as u64,
            modified: 0,
            hash: Vec::new(),
            line_count: content.lines().count(),
        },
    }
}

fn import_of(path: &str, line: usize) -> Import {
    Import { path: path.as_bytes().to_vec(), line_number: line, resolved_path: None }
}

fn resolved_import(path: &str, line: usize, target: &str) -> Import {
    Import {
        path: path.as_bytes().to_vec(),
        line_number: line,
        resolved_path: Some(target.as_bytes().to_vec()),
    }
}

#[test]
fn local_candidate_wins_over_root() {
    // both docs/base.md (beside the importing file) and base.md (at the
    // root) exist; the local one is selected
    let fs = vec![
        entry("proj/docs/base.md", "/abs/proj/docs/base.md"),
        entry("proj/base.md", "/abs/proj/base.md"),
    ];
    let resolver = ImportResolver::new(b"proj".to_vec());
    let mut f = file_at("proj/docs/file.md", "{{import base.md}}\n", vec![import_of(
        "base.md",
        1,
    )]);
    resolver.resolve_imports(&mut f, &fs);
    assert_eq!(f.imports[0].resolved_path, Some(b"/abs/proj/docs/base.md".to_vec()));
}

#[test]
fn root_candidate_used_when_no_local_exists() {
    let fs = vec![entry("proj/base.md", "/abs/proj/base.md")];
    let resolver = ImportResolver::new(b"proj".to_vec());
    let mut f = file_at("proj/docs/file.md", "{{import base.md}}\n", vec![import_of(
        "base.md",
        1,
    )]);
    resolver.resolve_imports(&mut f, &fs);
    assert_eq!(f.imports[0].resolved_path, Some(b"/abs/proj/base.md".to_vec()));
}

#[test]
fn md_suffix_candidates_are_tried_last() {
    let fs = vec![entry("proj/docs/base.md", "/abs/proj/docs/base.md")];
    let resolver = ImportResolver::new(b"proj".to_vec());
    let mut f = file_at("proj/docs/file.md", "{{import base}}\n", vec![import_of("base", 1)]);
    resolver.resolve_imports(&mut f, &fs);
    assert_eq!(f.imports[0].resolved_path, Some(b"/abs/proj/docs/base.md".to_vec()));
}

#[test]
fn absolute_import_path_is_taken_literally() {
    let fs = vec![entry("/etc/shared.md", "/etc/shared.md")];
    let resolver = ImportResolver::new(b"proj".to_vec());
    let mut f = file_at("proj/file.md", "{{import /etc/shared.md}}\n", vec![import_of(
        "/etc/shared.md",
        1,
    )]);
    resolver.resolve_imports(&mut f, &fs);
    assert_eq!(f.imports[0].resolved_path, Some(b"/etc/shared.md".to_vec()));
}

#[test]
fn nonexistent_import_stays_unresolved() {
    let fs: Vec<FsEntry> = Vec::new();
    let resolver = ImportResolver::new(b"proj".to_vec());
    let mut f = file_at("proj/file.md", "{{import missing.md}}\n", vec![import_of(
        "missing.md",
        1,
    )]);
    resolver.resolve_imports(&mut f, &fs);
    assert!(f.imports[0].resolved_path.is_none());
}

#[test]
fn already_resolved_import_is_untouched() {
    let fs = vec![entry("proj/other.md", "/abs/proj/other.md")];
    let resolver = ImportResolver::new(b"proj".to_vec());
    let mut f = file_at("proj/file.md", "{{import other.md}}\n", vec![resolved_import(
        "other.md",
        1,
        "/pinned/earlier.md",
    )]);
    resolver.resolve_imports(&mut f, &fs);
    assert_eq!(f.imports[0].resolved_path, Some(b"/pinned/earlier.md".to_vec()));
}

#[test]
fn two_files_importing_each_other_report_a_cycle() {
    let a = file_at("a.md", "{{import b.md}}\n", vec![resolved_import("b.md", 1, "b.md")]);
    let b = file_at("b.md", "{{import a.md}}\n", vec![resolved_import("a.md", 1, "a.md")]);
    let resolver = ImportResolver::new(b".".to_vec());
    let cycles = resolver.check_circular_imports(&vec![a, b]);
    assert!(!cycles.is_empty());
    let found = cycles.iter().any(|c| {
        c.cycle.contains(&b"a.md".to_vec()) && c.cycle.contains(&b"b.md".to_vec())
    });
    assert!(found);
}

#[test]
fn chain_with_unresolvable_tail_yields_no_cycle() {
    let a = file_at("a.md", "{{import b.md}}\n", vec![resolved_import("b.md", 1, "b.md")]);
    let b = file_at("b.md", "{{import c.md}}\n", vec![import_of("c.md", 1)]);
    let resolver = ImportResolver::new(b".".to_vec());
    let cycles = resolver.check_circular_imports(&vec![a, b]);
    assert!(cycles.is_empty());
}

#[test]
fn expansion_substitutes_resolved_import_between_markers() {
    let a = file_at("a.md", "top\n{{import b.md}}\nbottom\n", vec![resolved_import(
        "b.md",
        2,
        "b.md",
    )]);
    let b = file_at("b.md", "inner text", Vec::new());
    let files = vec![a.clone(), b];
    let resolver = ImportResolver::new(b".".to_vec());
    let out = resolver.expand_imports(&files, &a, 5).expect("expansion succeeds");
    let expected =
        "top\n<!-- Import from: b.md -->\ninner text\n<!-- End import -->\nbottom\n";
    assert_eq!(out, expected.as_bytes().to_vec());
}

#[test]
fn expansion_recurses_through_nested_imports() {
    let a = file_at("a.md", "{{import b.md}}", vec![resolved_import("b.md", 1, "b.md")]);
    let b = file_at("b.md", "b[{{import c.md}}]b", vec![resolved_import("c.md", 1, "c.md")]);
    let c = file_at("c.md", "core", Vec::new());
    let files = vec![a.clone(), b, c];
    let resolver = ImportResolver::new(b".".to_vec());
    let out = resolver.expand_imports(&files, &a, 5).expect("expansion succeeds");
    let expected = "<!-- Import from: b.md -->\nb[<!-- Import from: c.md -->\ncore\n<!-- End import -->]b\n<!-- End import -->";
    assert_eq!(out, expected.as_bytes().to_vec());
}

#[test]
fn expansion_depth_zero_leaves_content_untouched() {
    let a = file_at("a.md", "{{import b.md}}", vec![resolved_import("b.md", 1, "b.md")]);
    let b = file_at("b.md", "inner", Vec::new());
    let files = vec![a.clone(), b];
    let resolver = ImportResolver::new(b".".to_vec());
    let out = resolver.expand_imports(&files, &a, 0).expect("depth zero succeeds");
    assert_eq!(out, b"{{import b.md}}".to_vec());
}

#[test]
fn circular_expansion_fails_naming_the_path() {
    let a = file_at("a.md", "{{import b.md}}", vec![resolved_import("b.md", 1, "b.md")]);
    let b = file_at("b.md", "{{import a.md}}", vec![resolved_import("a.md", 1, "a.md")]);
    let files = vec![a.clone(), b];
    let resolver = ImportResolver::new(b".".to_vec());
    match resolver.expand_imports(&files, &a, 10) {
        Err(ExpandError::Circular { path }) => {
            assert_eq!(path, b"a.md".to_vec());
        },
        Ok(_) => panic!("expansion of a cycle must fail"),
    }
}

#[test]
fn resolve_all_covers_every_file() {
    let fs = vec![entry("proj/base.md", "/abs/proj/base.md")];
    let resolver = ImportResolver::new(b"proj".to_vec());
    let mut files = vec![
        file_at("proj/one.md", "{{import base.md}}\n", vec![import_of("base.md", 1)]),
        file_at("proj/two.md", "{{import nope.md}}\n", vec![import_of("nope.md", 1)]),
    ];
    resolver.resolve_all(&mut files, &fs);
    assert_eq!(files[0].imports[0].resolved_path, Some(b"/abs/proj/base.md".to_vec()));
    assert!(files[1].imports[0].resolved_path.is_none());
}

#[test]
fn cycle_description_joins_paths_with_arrows() {
    let c = ccat::resolver::CircularImport {
        cycle: vec![b"a.md".to_vec(), b"b.md".to_vec()],
    };
    assert_eq!(c.describe(), b"Circular import: a.md -> b.md".to_vec());
}

#[test]
fn directory_of_a_path() {
    assert_eq!(ccat::resolver::dir_of(&b"a/b/c.md".to_vec()), b"a/b".to_vec());
    assert_eq!(ccat::resolver::dir_of(&b"c.md".to_vec()), b"".to_vec());
    assert_eq!(ccat::resolver::dir_of(&b"/c.md".to_vec()), b"/".to_vec());
}

#[test]
fn join_keeps_absolute_paths_literal() {
    assert_eq!(ccat::resolver::join_path(&b"dir".to_vec(), &b"x.md".to_vec()), b"dir/x.md".to_vec());
    assert_eq!(ccat::resolver::join_path(&b"dir/".to_vec(), &b"x.md".to_vec()), b"dir/x.md".to_vec());
    assert_eq!(ccat::resolver::join_path(&b"dir".to_vec(), &b"/abs.md".to_vec()), b"/abs.md".to_vec());
    assert_eq!(ccat::resolver::join_path(&b"".to_vec(), &b"x.md".to_vec()), b"x.md".to_vec());
}
