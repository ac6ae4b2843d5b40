use ccat::Scanner;
use ccat::MemoryType;

#[test]
fn scanner_defaults_and_builders() {
    let s = Scanner::new();
    assert!(!s.include_subdirs);
    assert!(s.max_depth.is_none());
    assert!(!s.follow_symlinks);
    let s = Scanner::new().with_subdirs(true).with_max_depth(Some(3)).with_follow_symlinks(true);
    assert!(s.include_subdirs);
    assert_eq!(s.max_depth, Some(3));
    assert!(s.follow_symlinks);
    let d = Scanner::default();
    assert!(!d.include_subdirs);
}

#[test]
fn shallow_scan_extracts_directive_lines() {
    let s = Scanner::new();
    let content = b"{{import a.md}}\nplain\n   {{import  b.md }}\nalmost {{import c.md}}\n"
        .to_vec();
    let imports = s.extract_imports(&content);
    // the shallow scan takes only lines that are a directive after trimming
    assert_eq!(imports.len(), 2);
    assert_eq!(imports[0].path, b"a.md".to_vec());
    assert_eq!(imports[0].line_number, 1);
    assert_eq!(imports[1].path, b"b.md".to_vec());
    assert_eq!(imports[1].line_number, 3);
    assert!(imports.iter().all(|i| i.resolved_path.is_none()));
}

#[test]
fn parse_import_line_accepts_only_full_directives() {
    let s = Scanner::new();
    assert_eq!(s.parse_import_line(&b"{{import x.md}}".to_vec()), Some(b"x.md".to_vec()));
    assert_eq!(s.parse_import_line(&b"  {{import x.md}}  ".to_vec()), Some(b"x.md".to_vec()));
    assert_eq!(s.parse_import_line(&b"pre {{import x.md}}".to_vec()), None);
    assert_eq!(s.parse_import_line(&b"{{import x.md}} post".to_vec()), None);
    assert_eq!(s.parse_import_line(&b"{{import}}".to_vec()), Some(b"".to_vec()));
    assert_eq!(s.parse_import_line(&b"{{import x.md".to_vec()), None);
}

#[test]
fn metadata_digest_matches_sha256() {
    let s = Scanner::new();
    let m = s.get_file_metadata(&b"abc".to_vec(), 3, 1700000000);
    assert_eq!(m.size, 3);
    assert_eq!(m.modified, 1700000000);
    assert_eq!(m.line_count, 1);
    assert_eq!(
        m.hash,
        b"ba7816bf8f01cfea414140de5dae2223b00361a396177a9cb410ff61f20015ad".to_vec()
    );
}

#[test]
fn metadata_of_empty_content() {
    let s = Scanner::new();
    let m = s.get_file_metadata(&Vec::new(), 0, 0);
    assert_eq!(m.line_count, 0);
    assert_eq!(
        m.hash,
        b"e3b0c44298fc1c149afbf4c8996fb92427ae41e4649b934ca495991b7852b855".to_vec()
    );
}

#[test]
fn line_count_ignores_a_trailing_newline() {
    let s = Scanner::new();
    assert_eq!(s.get_file_metadata(&b"a\nb\n".to_vec(), 4, 0).line_count, 2);
    assert_eq!(s.get_file_metadata(&b"a\nb".to_vec(), 3, 0).line_count, 2);
    assert_eq!(s.get_file_metadata(&b"a\r\nb\r\n".to_vec(), 6, 0).line_count, 2);
}

#[test]
fn scan_file_assembles_the_record() {
    let s = Scanner::new();
    let f = s.scan_file(
        b"proj/memory.md".to_vec(),
        MemoryType::ProjectMemory,
        b"{{import x.md}}\nrest\n".to_vec(),
        21,
        42,
    );
    assert_eq!(f.path, b"proj/memory.md".to_vec());
    assert_eq!(f.file_type, MemoryType::ProjectMemory);
    assert_eq!(f.content, b"{{import x.md}}\nrest\n".to_vec());
    assert_eq!(f.imports.len(), 1);
    assert_eq!(f.imports[0].path, b"x.md".to_vec());
    assert_eq!(f.metadata.size, 21);
    assert_eq!(f.metadata.modified, 42);
    assert_eq!(f.metadata.line_count, 2);
}
