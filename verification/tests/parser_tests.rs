use ccat::parser::{ParsedContent, Parser};
use ccat::{FileMetadata, MemoryFile, MemoryType};

fn file_of(content: &str) -> MemoryFile {
    MemoryFile {
        path: b"proj/memory.md".to_vec(),
        file_type: MemoryType::ProjectMemory,
        content: content.as_bytes().to_vec(),
        imports: Vec::new(),
        metadata: FileMetadata {
            size: content.len() as u64,
            modified: 0,
            hash: Vec::new(),
            line_count: content.lines().count(),
        },
    }
}

fn parse(content: &str) -> ParsedContent {
    Parser::new().parse(&file_of(content))
}

#[test]
fn import_records_are_one_per_directive_line() {
    let r = parse("{{import a.md}}\nplain text\n{{import b.md}}\n");
    assert_eq!(r.imports.len(), 2);
    assert_eq!(r.imports[0].path, b"a.md".to_vec());
    assert_eq!(r.imports[0].line_number, 1);
    assert!(r.imports[0].resolved_path.is_none());
    assert_eq!(r.imports[1].path, b"b.md".to_vec());
    assert_eq!(r.imports[1].line_number, 3);
    assert!(r.imports[1].resolved_path.is_none());
    assert!(r.metadata.has_imports);
}

#[test]
fn import_directive_mid_line_and_trimming() {
    let r = parse("before {{import   spaced.md  }} after\n");
    assert_eq!(r.imports.len(), 1);
    assert_eq!(r.imports[0].path, b"spaced.md".to_vec());
}

#[test]
fn malformed_directive_yields_no_record() {
    let r = parse("{{importx}}\n{{import a}b}}\n{{import a.md\n");
    assert_eq!(r.imports.len(), 0);
    assert!(!r.metadata.has_imports);
}

#[test]
fn sections_are_ordered_and_trailing_section_is_flushed() {
    let r = parse("# One\nbody a\n## Two\nbody b\nbody c");
    assert_eq!(r.sections.len(), 2);
    assert_eq!(r.sections[0].title, b"One".to_vec());
    assert_eq!(r.sections[0].level, 1);
    assert_eq!(r.sections[0].line_start, 1);
    assert_eq!(r.sections[0].line_end, 2);
    assert_eq!(r.sections[0].content, b"body a".to_vec());
    assert_eq!(r.sections[1].title, b"Two".to_vec());
    assert_eq!(r.sections[1].level, 2);
    assert_eq!(r.sections[1].line_start, 3);
    // the trailing open section runs to the last line
    assert_eq!(r.sections[1].line_end, 5);
    assert_eq!(r.sections[1].content, b"body b\nbody c".to_vec());
    // non-overlapping and ordered by start line
    for w in r.sections.windows(2) {
        assert!(w[0].line_end < w[1].line_start);
    }
}

#[test]
fn heading_inside_code_fence_is_not_a_section() {
    let r = parse("```\n# not a heading\n```\n# Real\nbody\n");
    assert_eq!(r.sections.len(), 1);
    assert_eq!(r.sections[0].title, b"Real".to_vec());
    assert_eq!(r.metadata.code_block_count, 1);
}

#[test]
fn import_inside_code_fence_is_still_matched() {
    let r = parse("```\n{{import fenced.md}}\n```\n");
    assert_eq!(r.imports.len(), 1);
    assert_eq!(r.imports[0].path, b"fenced.md".to_vec());
    assert_eq!(r.imports[0].line_number, 2);
}

#[test]
fn seven_hashes_are_not_a_heading() {
    let r = parse("####### too deep\n###### deep enough\n");
    assert_eq!(r.sections.len(), 1);
    assert_eq!(r.sections[0].level, 6);
    assert_eq!(r.sections[0].title, b"deep enough".to_vec());
}

#[test]
fn link_counting_brackets_and_bare_urls() {
    assert_eq!(parse("[a](b)\n").metadata.link_count, 1);
    assert_eq!(parse("see https://x.example now\n").metadata.link_count, 1);
    assert_eq!(parse("[a](b) and http://y.example\n").metadata.link_count, 2);
    assert_eq!(parse("no links here\n").metadata.link_count, 0);
    // a bracketed link whose target is itself a bare URL counts once
    assert_eq!(parse("[docs](https://example.com)\n").metadata.link_count, 1);
}

#[test]
fn example_file_parses_as_documented() {
    let r = parse("# Setup\n{{import ./base.md}}\nSee [docs](https://example.com).\n");
    assert_eq!(r.sections.len(), 1);
    assert_eq!(r.sections[0].title, b"Setup".to_vec());
    assert_eq!(r.sections[0].level, 1);
    assert_eq!(r.imports.len(), 1);
    assert_eq!(r.imports[0].path, b"./base.md".to_vec());
    assert_eq!(r.imports[0].line_number, 2);
    assert_eq!(r.metadata.link_count, 1);
    assert_eq!(r.metadata.section_count, 1);
    assert!(r.metadata.has_imports);
}

#[test]
fn carriage_return_stripped_only_before_a_line_feed() {
    // closed by a line feed: the carriage return goes
    let r = parse("# One\r\nbody\r\n");
    assert_eq!(r.sections[0].title, b"One".to_vec());
    assert_eq!(r.sections[0].content, b"body".to_vec());
    // at end of input without a line feed: the carriage return stays
    let r = parse("# One\r");
    assert_eq!(r.sections[0].title, b"One\r".to_vec());
}

#[test]
fn empty_content_parses_to_nothing() {
    let r = parse("");
    assert_eq!(r.sections.len(), 0);
    assert_eq!(r.imports.len(), 0);
    assert_eq!(r.metadata.section_count, 0);
    assert_eq!(r.metadata.code_block_count, 0);
    assert_eq!(r.metadata.link_count, 0);
    assert!(!r.metadata.has_imports);
}

#[test]
fn frontmatter_pairs_are_extracted() {
    let p = Parser::new();
    let fm = p
        .extract_frontmatter(&b"---\ntitle: My Doc\nauthor:  someone \n---\nbody\n".to_vec())
        .expect("front matter expected");
    assert_eq!(fm.len(), 2);
    assert_eq!(fm[0].0, b"title".to_vec());
    assert_eq!(fm[0].1, b"My Doc".to_vec());
    assert_eq!(fm[1].0, b"author".to_vec());
    assert_eq!(fm[1].1, b"someone".to_vec());
}

#[test]
fn frontmatter_repeated_key_keeps_the_last_value() {
    let p = Parser::new();
    let fm = p
        .extract_frontmatter(&b"---\nk: one\nother: x\nk: two\n---\n".to_vec())
        .expect("front matter expected");
    assert_eq!(fm.len(), 2);
    assert_eq!(fm[0].0, b"other".to_vec());
    assert_eq!(fm[0].1, b"x".to_vec());
    assert_eq!(fm[1].0, b"k".to_vec());
    assert_eq!(fm[1].1, b"two".to_vec());
}

#[test]
fn frontmatter_requires_leading_delimiter_and_pairs() {
    let p = Parser::new();
    assert!(p.extract_frontmatter(&b"title: x\n---\n".to_vec()).is_none());
    assert!(p.extract_frontmatter(&b"---\n---\n".to_vec()).is_none());
    assert!(p.extract_frontmatter(&b"".to_vec()).is_none());
    assert!(p.extract_frontmatter(&b"---\nno colon line\n---\n".to_vec()).is_none());
}

#[test]
fn parser_defaults() {
    let p = Parser::new();
    assert!(p.extract_sections);
    assert!(p.resolve_imports);
    let d = Parser::default();
    assert!(d.extract_sections);
}
