//! The structural parser: one linear pass over a file's lines extracts a
//! section tree, the import directives, and aggregate content metadata,
//! plus a separate front-matter extractor.

use vstd::prelude::*;
use crate::bytes::{
    bytes_match_at, contains_at, find_byte_from, find_non_ws_from, find_not_byte_from,
    find_ws_from, first_byte_from, first_non_ws_from, first_not_byte_from, first_ws_from, is_ws,
    is_ws_byte, contains_seq, seq_eq, spec_contains, spec_trim, subvec, trim_ascii, views_of,
    spec_join_nl, join_nl, split_lines, spec_lines, sum_lens, lemma_sum_lens_nonneg,
    lemma_lines_sum,
};
use crate::memory::{Import, ImportV, MemoryFile, imports_view};
use crate::scanner::import_kw;

verus! {

// ----- the import directive, matched anywhere in a line -----
//
// A directive is `{{import`, at least one whitespace byte, a non-empty run
// of bytes without `}`, then `}}`. The leftmost match wins and its captured
// run, trimmed, is the path. Matching pays no attention to code fences.

/// Whether the directive pattern matches `l` at position `p`.
pub open spec fn import_match_at(l: Seq<u8>, p: int) -> bool {
    &&& 0 <= p
    &&& p + 8 < l.len()
    &&& l.subrange(p, p + 8) == import_kw()
    &&& is_ws(l[p + 8])
    &&& {
        let j = first_byte_from(l, 125, p + 8);
        &&& j < l.len()
        &&& j >= p + 10
        &&& j + 1 < l.len()
        &&& l[j + 1] == 125
    }
}

/// The path the directive match at `p` captures: the run from the end of
/// the whitespace (giving one byte back if the run would be empty) to the
/// first `}`, trimmed.
pub open spec fn import_path_at(l: Seq<u8>, p: int) -> Seq<u8> {
    let j = first_byte_from(l, 125, p + 8);
    let e = first_non_ws_from(l, p + 8);
    let g = if e <= j - 1 {
        e
    } else {
        j - 1
    };
    spec_trim(l.subrange(g, j))
}

/// The first directive match at or after `p`.
pub open spec fn first_import_from(l: Seq<u8>, p: int) -> Option<int>
    decreases l.len() - p,
{
    if p < 0 || p >= l.len() {
        None
    } else if import_match_at(l, p) {
        Some(p)
    } else {
        first_import_from(l, p + 1)
    }
}

/// The path of a line's import directive, if the line has one.
pub open spec fn line_import(l: Seq<u8>) -> Option<Seq<u8>> {
    match first_import_from(l, 0) {
        Some(p) => Some(import_path_at(l, p)),
        None => None,
    }
}

proof fn lemma_first_import_found(l: Seq<u8>, a: int, p: int)
    requires
        0 <= a <= p,
        forall|q: int| a <= q < p ==> !import_match_at(l, q),
        import_match_at(l, p),
    ensures
        first_import_from(l, a) == Some(p),
    decreases p - a,
{
    if a < p {
        lemma_first_import_found(l, a + 1, p);
    }
}

proof fn lemma_first_import_none(l: Seq<u8>, a: int)
    requires
        0 <= a,
        forall|q: int| !import_match_at(l, q),
    ensures
        first_import_from(l, a) is None,
    decreases l.len() - a,
{
    if a < l.len() {
        lemma_first_import_none(l, a + 1);
    }
}

/// Finds a line's import directive, as [`line_import`] describes.
fn find_line_import(line: &Vec<u8>) -> (r: Option<Vec<u8>>)
    ensures
        match r {
            Some(p) => line_import(line@) == Some(p@),
            None => line_import(line@) is None,
        },
{
    let n = line.len();
    let kw: Vec<u8> = vec![123u8, 123u8, 105u8, 109u8, 112u8, 111u8, 114u8, 116u8];
    proof {
        assert(kw@ =~= import_kw());
    }
    let mut p: usize = 0;
    while p < n
        invariant
            0 <= p <= n == line@.len(),
            kw@ == import_kw(),
            forall|q: int| 0 <= q < p ==> !import_match_at(line@, q),
        decreases n - p,
    {
        if n - p >= 9 {
            if bytes_match_at(line, p, &kw) && is_ws_byte(line[p + 8]) {
                let j = find_byte_from(line, 125, p + 8);
                if j < n && j - p >= 10 && j + 1 < n && line[j + 1] == 125 {
                    proof {
                        assert(import_match_at(line@, p as int));
                        lemma_first_import_found(line@, 0, p as int);
                    }
                    let e = find_non_ws_from(line, p + 8);
                    let g: usize = if e <= j - 1 {
                        e
                    } else {
                        j - 1
                    };
                    proof {
                        lemma_first_non_ws_from_g(line@, p as int, j as int, g as int);
                    }
                    let grp = subvec(line, g, j);
                    return Some(trim_ascii(&grp));
                }
            }
        }
        proof {
            assert(!import_match_at(line@, p as int));
        }
        p = p + 1;
    }
    proof {
        lemma_first_import_none(line@, 0);
    }
    None
}

proof fn lemma_first_non_ws_from_g(l: Seq<u8>, p: int, j: int, g: int)
    requires
        import_match_at(l, p),
        j == first_byte_from(l, 125, p + 8),
        g == if first_non_ws_from(l, p + 8) <= j - 1 {
            first_non_ws_from(l, p + 8)
        } else {
            j - 1
        },
    ensures
        0 <= g < j <= l.len(),
        p + 8 <= g,
{
    crate::bytes::lemma_first_byte_from_bounds(l, 125, p + 8);
    crate::bytes::lemma_first_non_ws_from_bounds(l, p + 8);
}

// ----- section headings -----
//
// A heading is one to six `#` bytes, at least one whitespace byte, and a
// non-empty rest; the level is the number of `#` bytes and the title is the
// rest after the whitespace (giving one byte back if the rest would be
// empty). Headings are recognized only outside fenced code blocks.

/// The heading of a line, if the line is one: its level and title.
pub open spec fn spec_heading(l: Seq<u8>) -> Option<(int, Seq<u8>)> {
    let k = first_not_byte_from(l, 35, 0);
    if 1 <= k <= 6 && k < l.len() && is_ws(l[k]) && l.len() >= k + 2 {
        let e = first_non_ws_from(l, k);
        let g = if e < l.len() {
            e
        } else {
            l.len() - 1
        };
        Some((k, l.subrange(g, l.len() as int)))
    } else {
        None
    }
}

/// Recognizes a heading line, as [`spec_heading`] describes.
fn find_heading(line: &Vec<u8>) -> (r: Option<(usize, Vec<u8>)>)
    ensures
        match r {
            Some((k, t)) => spec_heading(line@) == Some((k as int, t@)),
            None => spec_heading(line@) is None,
        },
{
    let n = line.len();
    let k = find_not_byte_from(line, 35, 0);
    if 1 <= k && k <= 6 && k < n && is_ws_byte(line[k]) && n >= k + 2 {
        let e = find_non_ws_from(line, k);
        let g: usize = if e < n {
            e
        } else {
            n - 1
        };
        let title = subvec(line, g, n);
        Some((k, title))
    } else {
        None
    }
}

// ----- links -----
//
// Two counts are summed per line. A bracket link is `[`, a non-empty run
// without `]`, `]`, `(`, a non-empty run without `)`, `)`; one whose target
// holds a bare URL scheme is counted once, by the URL count, not twice. A
// bare URL is `http://` or `https://` followed by a non-empty run of
// non-whitespace bytes. Each count scans left to right, skipping past each
// match.

/// The bytes of `http://`.
pub open spec fn scheme_http() -> Seq<u8> {
    seq![104u8, 116u8, 116u8, 112u8, 58u8, 47u8, 47u8]
}

/// The bytes of `https://`.
pub open spec fn scheme_https() -> Seq<u8> {
    seq![104u8, 116u8, 116u8, 112u8, 115u8, 58u8, 47u8, 47u8]
}

/// Whether a bracket link's target holds a bare URL scheme.
pub open spec fn has_url_scheme(t: Seq<u8>) -> bool {
    spec_contains(t, scheme_http()) || spec_contains(t, scheme_https())
}

/// Where the bracket-link pattern matching at `i` ends, if it matches.
pub open spec fn md_match_end(l: Seq<u8>, i: int) -> Option<int> {
    if !(0 <= i < l.len() && l[i] == 91) {
        None
    } else {
        let t = first_byte_from(l, 93, i + 1);
        if t < l.len() && t > i + 1 && t + 1 < l.len() && l[t + 1] == 40 {
            let u = first_byte_from(l, 41, t + 2);
            if u < l.len() && u > t + 2 {
                Some(u + 1)
            } else {
                None
            }
        } else {
            None
        }
    }
}

/// The target of the bracket link matching at `i`.
pub open spec fn md_target(l: Seq<u8>, i: int) -> Seq<u8> {
    let t = first_byte_from(l, 93, i + 1);
    let u = first_byte_from(l, 41, t + 2);
    l.subrange(t + 2, u)
}

/// Where the bare-URL pattern matching at `i` ends, if it matches.
pub open spec fn url_match_end(l: Seq<u8>, i: int) -> Option<int> {
    let sch: int = if contains_at(l, scheme_https(), i) {
        8
    } else if contains_at(l, scheme_http(), i) {
        7
    } else {
        0
    };
    if sch == 0 {
        None
    } else {
        let v = first_ws_from(l, i + sch);
        if v > i + sch {
            Some(v)
        } else {
            None
        }
    }
}

/// The number of counted bracket links at or after `i`.
pub open spec fn count_md_from(l: Seq<u8>, i: int) -> int
    decreases l.len() - i,
    via count_md_dec
{
    if i < 0 || i >= l.len() {
        0
    } else {
        match md_match_end(l, i) {
            Some(end) => (if has_url_scheme(md_target(l, i)) {
                0int
            } else {
                1int
            }) + count_md_from(l, end),
            None => count_md_from(l, i + 1),
        }
    }
}

#[via_fn]
proof fn count_md_dec(l: Seq<u8>, i: int) {
    if 0 <= i < l.len() {
        if md_match_end(l, i) is Some {
            crate::bytes::lemma_first_byte_from_bounds(l, 93, i + 1);
            let t = first_byte_from(l, 93, i + 1);
            crate::bytes::lemma_first_byte_from_bounds(l, 41, t + 2);
        }
    }
}

/// The number of bare URLs at or after `i`.
pub open spec fn count_url_from(l: Seq<u8>, i: int) -> int
    decreases l.len() - i,
    via count_url_dec
{
    if i < 0 || i >= l.len() {
        0
    } else {
        match url_match_end(l, i) {
            Some(end) => 1 + count_url_from(l, end),
            None => count_url_from(l, i + 1),
        }
    }
}

#[via_fn]
proof fn count_url_dec(l: Seq<u8>, i: int) {
    if 0 <= i < l.len() {
        if url_match_end(l, i) is Some {
            let sch: int = if contains_at(l, scheme_https(), i) {
                8
            } else {
                7
            };
            crate::bytes::lemma_first_ws_from_bounds(l, i + sch);
        }
    }
}

/// A line's link count: counted bracket links plus bare URLs.
pub open spec fn spec_count_links(l: Seq<u8>) -> int {
    count_md_from(l, 0) + count_url_from(l, 0)
}

/// Six bytes at least per counted bracket link.
proof fn lemma_count_md_bound(l: Seq<u8>, i: int)
    requires
        0 <= i <= l.len(),
    ensures
        0 <= 6 * count_md_from(l, i) <= l.len() - i,
    decreases l.len() - i,
{
    if i < l.len() {
        match md_match_end(l, i) {
            Some(end) => {
                crate::bytes::lemma_first_byte_from_bounds(l, 93, i + 1);
                let t = first_byte_from(l, 93, i + 1);
                crate::bytes::lemma_first_byte_from_bounds(l, 41, t + 2);
                lemma_count_md_bound(l, end);
            },
            None => {
                lemma_count_md_bound(l, i + 1);
            },
        }
    }
}

/// Eight bytes at least per counted bare URL.
proof fn lemma_count_url_bound(l: Seq<u8>, i: int)
    requires
        0 <= i <= l.len(),
    ensures
        0 <= 8 * count_url_from(l, i) <= l.len() - i,
    decreases l.len() - i,
{
    if i < l.len() {
        match url_match_end(l, i) {
            Some(end) => {
                let sch: int = if contains_at(l, scheme_https(), i) {
                    8
                } else {
                    7
                };
                crate::bytes::lemma_first_ws_from_bounds(l, i + sch);
                lemma_count_url_bound(l, end);
            },
            None => {
                lemma_count_url_bound(l, i + 1);
            },
        }
    }
}

/// A line's link count never exceeds its length.
pub proof fn lemma_count_links_bound(l: Seq<u8>)
    ensures
        0 <= spec_count_links(l) <= l.len(),
{
    lemma_count_md_bound(l, 0);
    lemma_count_url_bound(l, 0);
}

/// Counts a line's bracket links, as [`count_md_from`] describes.
fn count_md_links(line: &Vec<u8>) -> (r: usize)
    ensures
        r == count_md_from(line@, 0),
{
    let n = line.len();
    let mut c: usize = 0;
    let mut i: usize = 0;
    proof {
        lemma_count_md_bound(line@, 0);
    }
    while i < n
        invariant
            0 <= i <= n == line@.len(),
            c + count_md_from(line@, i as int) == count_md_from(line@, 0),
            6 * count_md_from(line@, 0) <= n,
            0 <= c <= n,
            0 <= count_md_from(line@, i as int),
        decreases n - i,
    {
        let ghost iold = i as int;
        let mut adv: usize = 1;
        let mut delta: usize = 0;
        if line[i] == 91 {
            let t = find_byte_from(line, 93, i + 1);
            if t < n && t - i >= 2 && t + 1 < n && line[t + 1] == 40 {
                let u = find_byte_from(line, 41, t + 2);
                if u < n && u - t >= 3 {
                    let target = subvec(line, t + 2, u);
                    let http: Vec<u8> = vec![104u8, 116u8, 116u8, 112u8, 58u8, 47u8, 47u8];
                    let https: Vec<u8> = vec![
                        104u8,
                        116u8,
                        116u8,
                        112u8,
                        115u8,
                        58u8,
                        47u8,
                        47u8,
                    ];
                    proof {
                        assert(http@ =~= scheme_http());
                        assert(https@ =~= scheme_https());
                    }
                    let url_in_target = contains_seq(&target, &http) || contains_seq(
                        &target,
                        &https,
                    );
                    if !url_in_target {
                        delta = 1;
                    }
                    adv = u + 1 - i;
                    proof {
                        assert(md_match_end(line@, iold) == Some(u as int + 1));
                        assert(md_target(line@, iold) == target@);
                        assert(url_in_target == has_url_scheme(md_target(line@, iold)));
                        assert(count_md_from(line@, iold) == delta + count_md_from(
                            line@,
                            iold + adv,
                        ));
                    }
                } else {
                    proof {
                        assert(md_match_end(line@, iold) is None);
                    }
                }
            } else {
                proof {
                    assert(md_match_end(line@, iold) is None);
                }
            }
        } else {
            proof {
                assert(md_match_end(line@, iold) is None);
            }
        }
        proof {
            if adv == 1 && delta == 0 && md_match_end(line@, iold) is None {
                assert(count_md_from(line@, iold) == count_md_from(line@, iold + 1));
            }
            lemma_count_md_bound(line@, iold + adv);
        }
        c = c + delta;
        i = i + adv;
    }
    c
}

/// Counts a line's bare URLs, as [`count_url_from`] describes.
fn count_bare_urls(line: &Vec<u8>) -> (r: usize)
    ensures
        r == count_url_from(line@, 0),
{
    let n = line.len();
    let http: Vec<u8> = vec![104u8, 116u8, 116u8, 112u8, 58u8, 47u8, 47u8];
    let https: Vec<u8> = vec![104u8, 116u8, 116u8, 112u8, 115u8, 58u8, 47u8, 47u8];
    proof {
        assert(http@ =~= scheme_http());
        assert(https@ =~= scheme_https());
    }
    let mut c: usize = 0;
    let mut i: usize = 0;
    proof {
        lemma_count_url_bound(line@, 0);
    }
    while i < n
        invariant
            0 <= i <= n == line@.len(),
            http@ == scheme_http(),
            https@ == scheme_https(),
            c + count_url_from(line@, i as int) == count_url_from(line@, 0),
            8 * count_url_from(line@, 0) <= n,
            0 <= c <= n,
            0 <= count_url_from(line@, i as int),
        decreases n - i,
    {
        let ghost iold = i as int;
        let mut adv: usize = 1;
        let mut delta: usize = 0;
        let sch: usize = if n - i >= 8 && bytes_match_at(line, i, &https) {
            8
        } else if n - i >= 7 && bytes_match_at(line, i, &http) {
            7
        } else {
            0
        };
        proof {
            if sch == 8 {
                assert(contains_at(line@, scheme_https(), iold));
            } else if sch == 7 {
                assert(!contains_at(line@, scheme_https(), iold));
                assert(contains_at(line@, scheme_http(), iold));
            } else {
                assert(!contains_at(line@, scheme_https(), iold));
                assert(!contains_at(line@, scheme_http(), iold));
                assert(url_match_end(line@, iold) is None);
            }
        }
        if sch > 0 {
            let v = find_ws_from(line, i + sch);
            if v - i > sch {
                proof {
                    assert(url_match_end(line@, iold) == Some(v as int));
                    assert(count_url_from(line@, iold) == 1 + count_url_from(line@, v as int));
                }
                delta = 1;
                adv = v - i;
            } else {
                proof {
                    assert(url_match_end(line@, iold) is None);
                }
            }
        }
        proof {
            if delta == 0 {
                assert(url_match_end(line@, iold) is None);
                assert(count_url_from(line@, iold) == count_url_from(line@, iold + 1));
            }
            lemma_count_url_bound(line@, iold + adv);
        }
        c = c + delta;
        i = i + adv;
    }
    c
}

// ----- the parse pass -----

/// Whether a line toggles the fenced-code-block flag: its trimmed text
/// starts with three backticks.
pub open spec fn is_fence(l: Seq<u8>) -> bool {
    let t = spec_trim(l);
    t.len() >= 3 && t[0] == 96 && t[1] == 96 && t[2] == 96
}

/// Whether a line toggles the fenced-code-block flag.
fn is_fence_line(line: &Vec<u8>) -> (r: bool)
    ensures
        r == is_fence(line@),
{
    let t = trim_ascii(line);
    t.len() >= 3 && t[0] == 96 && t[1] == 96 && t[2] == 96
}

/// A heading-delimited span: title, level, body text, and the 1-based
/// first and last line of the span.
#[derive(Debug, Clone)]
pub struct Section {
    pub title: Vec<u8>,
    pub level: usize,
    pub content: Vec<u8>,
    pub line_start: usize,
    pub line_end: usize,
}

/// The mathematical value of a [`Section`].
#[verifier::ext_equal]
pub struct SectionV {
    pub title: Seq<u8>,
    pub level: int,
    pub content: Seq<u8>,
    pub line_start: int,
    pub line_end: int,
}

impl View for Section {
    type V = SectionV;

    open spec fn view(&self) -> SectionV {
        SectionV {
            title: self.title@,
            level: self.level as int,
            content: self.content@,
            line_start: self.line_start as int,
            line_end: self.line_end as int,
        }
    }
}

/// The views of a sequence of sections.
pub open spec fn sections_view(secs: Seq<Section>) -> Seq<SectionV> {
    Seq::new(secs.len(), |i: int| secs[i]@)
}

/// Aggregate counts over one file's content.
#[derive(Debug, Clone, PartialEq, Eq, Structural)]
pub struct ContentMetadata {
    pub has_imports: bool,
    pub section_count: usize,
    pub code_block_count: usize,
    pub link_count: usize,
}

/// What one parse pass yields: the section tree, the import directives,
/// and aggregate content metadata.
#[derive(Debug, Clone)]
pub struct ParsedContent {
    pub sections: Vec<Section>,
    pub imports: Vec<Import>,
    pub metadata: ContentMetadata,
}

/// A section still open while the pass runs.
struct CurSection {
    title: Vec<u8>,
    level: usize,
    start: usize,
    body: Vec<Vec<u8>>,
}

/// The mathematical value of an open section.
#[verifier::ext_equal]
pub struct CurSectionV {
    pub title: Seq<u8>,
    pub level: int,
    pub start: int,
    pub body: Seq<Seq<u8>>,
}

impl View for CurSection {
    type V = CurSectionV;

    closed spec fn view(&self) -> CurSectionV {
        CurSectionV {
            title: self.title@,
            level: self.level as int,
            start: self.start as int,
            body: views_of(self.body@),
        }
    }
}

spec fn cur_view(c: Option<CurSection>) -> Option<CurSectionV> {
    match c {
        Some(c) => Some(c@),
        None => None,
    }
}

/// The whole state of the pass after some prefix of the lines.
#[verifier::ext_equal]
pub struct ParseState {
    pub in_code: bool,
    pub code_blocks: int,
    pub links: int,
    pub imports: Seq<ImportV>,
    pub cur: Option<CurSectionV>,
    pub sections: Seq<SectionV>,
}

/// The state before any line is read.
pub open spec fn init_state() -> ParseState {
    ParseState {
        in_code: false,
        code_blocks: 0,
        links: 0,
        imports: Seq::empty(),
        cur: None,
        sections: Seq::empty(),
    }
}

/// Closing an open section records its accumulated body and its span.
pub open spec fn close_section(c: CurSectionV, end: int) -> SectionV {
    SectionV {
        title: c.title,
        level: c.level,
        content: spec_join_nl(c.body),
        line_start: c.start,
        line_end: end,
    }
}

/// One line of the pass. The fence flag toggles first; imports and links
/// are counted on every line; headings are recognized only outside code
/// (and only when section extraction is on), a heading closing the open
/// section at the previous line and opening a new one, while other lines
/// outside code accumulate into the open section's body.
pub open spec fn parse_step(st: ParseState, l: Seq<u8>, line_no: int, extract: bool) -> ParseState {
    let fence = is_fence(l);
    let in_code = if fence {
        !st.in_code
    } else {
        st.in_code
    };
    let code_blocks = if fence && !st.in_code {
        st.code_blocks + 1
    } else {
        st.code_blocks
    };
    let imports = match line_import(l) {
        Some(p) => st.imports.push(
            ImportV { path: p, line_number: line_no, resolved_path: None::<Seq<u8>> },
        ),
        None => st.imports,
    };
    let links = st.links + spec_count_links(l);
    if extract && !in_code {
        match spec_heading(l) {
            Some((k, title)) => {
                let sections = match st.cur {
                    Some(c) => st.sections.push(close_section(c, line_no - 1)),
                    None => st.sections,
                };
                ParseState {
                    in_code,
                    code_blocks,
                    links,
                    imports,
                    cur: Some(
                        CurSectionV { title, level: k, start: line_no, body: Seq::empty() },
                    ),
                    sections,
                }
            },
            None => {
                let cur = match st.cur {
                    Some(c) => Some(
                        CurSectionV {
                            title: c.title,
                            level: c.level,
                            start: c.start,
                            body: c.body.push(l),
                        },
                    ),
                    None => None::<CurSectionV>,
                };
                ParseState { in_code, code_blocks, links, imports, cur, sections: st.sections }
            },
        }
    } else {
        ParseState {
            in_code,
            code_blocks,
            links,
            imports,
            cur: st.cur,
            sections: st.sections,
        }
    }
}

/// The state after the first `i` lines.
pub open spec fn parse_upto(lines: Seq<Seq<u8>>, i: int, extract: bool) -> ParseState
    decreases i,
{
    if i <= 0 {
        init_state()
    } else {
        parse_step(parse_upto(lines, i - 1, extract), lines[i - 1], i, extract)
    }
}

/// The sections after the pass: a still-open section is flushed with the
/// last line as its end.
pub open spec fn final_sections(st: ParseState, total: int) -> Seq<SectionV> {
    match st.cur {
        Some(c) => st.sections.push(close_section(c, total)),
        None => st.sections,
    }
}

/// The structural parser. Section extraction can be switched off; import
/// extraction always runs.
#[derive(Debug, Clone)]
pub struct Parser {
    pub extract_sections: bool,
    pub resolve_imports: bool,
}

impl Parser {
    /// A parser with section extraction and import handling on.
    pub fn new() -> (r: Self)
        ensures
            r.extract_sections,
            r.resolve_imports,
    {
        Parser { extract_sections: true, resolve_imports: true }
    }

    /// One linear pass over the file's lines, as [`parse_step`] describes
    /// line by line: the sections (a trailing open section flushed at end
    /// of input), the imports in source order with 1-based line numbers,
    /// and the aggregate counts.
    pub fn parse(&self, file: &MemoryFile) -> (r: ParsedContent)
        ensures
            ({
                let lines = spec_lines(file@.content);
                let st = parse_upto(lines, lines.len() as int, self.extract_sections);
                &&& sections_view(r.sections@) == final_sections(st, lines.len() as int)
                &&& imports_view(r.imports@) == st.imports
                &&& r.metadata.has_imports == (st.imports.len() > 0)
                &&& r.metadata.section_count == final_sections(st, lines.len() as int).len()
                &&& r.metadata.code_block_count == st.code_blocks
                &&& r.metadata.link_count == st.links
            }),
    {
        let clen = file.content.len();
        let lines = split_lines(&file.content);
        let ghost lv = spec_lines(file@.content);
        let ghost ex = self.extract_sections;
        proof {
            lemma_lines_sum(file@.content);
            assert(lv.skip(0) =~= lv);
        }
        let n = lines.len();
        let mut sections: Vec<Section> = Vec::new();
        let mut imports: Vec<Import> = Vec::new();
        let mut cur: Option<CurSection> = None;
        let mut in_code = false;
        let mut code_blocks: usize = 0;
        let mut links: usize = 0;
        let mut i: usize = 0;
        while i < n
            invariant
                0 <= i <= n == lv.len(),
                views_of(lines@) == lv,
                n == lines@.len(),
                ex == self.extract_sections,
                lv == spec_lines(file@.content),
                clen == file@.content.len(),
                links + sum_lens(lv.skip(i as int)) <= clen,
                in_code == parse_upto(lv, i as int, ex).in_code,
                code_blocks == parse_upto(lv, i as int, ex).code_blocks,
                code_blocks <= i,
                links == parse_upto(lv, i as int, ex).links,
                imports_view(imports@) == parse_upto(lv, i as int, ex).imports,
                cur_view(cur) == parse_upto(lv, i as int, ex).cur,
                sections_view(sections@) == parse_upto(lv, i as int, ex).sections,
            decreases n - i,
        {
            let ghost st = parse_upto(lv, i as int, ex);
            let ghost stnext = parse_upto(lv, i as int + 1, ex);
            proof {
                assert(stnext == parse_step(st, lv[i as int], i as int + 1, ex));
                assert(lines@[i as int]@ == lv[i as int]);
            }
            let line = &lines[i];
            // fence toggle, before anything else
            let fence = is_fence_line(line);
            if fence {
                if in_code {
                    in_code = false;
                } else {
                    in_code = true;
                    code_blocks = code_blocks + 1;
                }
            }
            // imports, on every line
            let ghost prev_imports = imports_view(imports@);
            match find_line_import(line) {
                Some(path) => {
                    let imp = Import { path, line_number: i + 1, resolved_path: None };
                    let ghost impv = imp@;
                    imports.push(imp);
                    proof {
                        assert(imports_view(imports@) =~= prev_imports.push(impv));
                    }
                },
                None => {},
            }
            // links, on every line
            let c = count_line_links(line);
            proof {
                lemma_count_links_bound(lv[i as int]);
                lemma_sum_lens_nonneg(lv.skip(i as int + 1));
                assert(lv.skip(i as int)[0] == lv[i as int]);
                assert(lv.skip(i as int).skip(1) =~= lv.skip(i as int + 1));
                assert(sum_lens(lv.skip(i as int)) == lv[i as int].len() + sum_lens(
                    lv.skip(i as int + 1),
                ));
            }
            links = links + c;
            // sections, only outside code and when extraction is on
            if self.extract_sections && !in_code {
                match find_heading(line) {
                    Some((k, title)) => {
                        let prev = cur;
                        match prev {
                            Some(cs) => {
                                let ghost csv = cs@;
                                let ghost prev_sections = sections_view(sections@);
                                let content = join_nl(&cs.body);
                                let sec = Section {
                                    title: cs.title,
                                    level: cs.level,
                                    content,
                                    line_start: cs.start,
                                    line_end: i,
                                };
                                let ghost secv = sec@;
                                sections.push(sec);
                                proof {
                                    assert(secv =~= close_section(csv, i as int));
                                    assert(sections_view(sections@) =~= prev_sections.push(secv));
                                }
                            },
                            None => {},
                        }
                        cur = Some(
                            CurSection { title, level: k, start: i + 1, body: Vec::new() },
                        );
                        proof {
                            assert(views_of(Seq::<Vec<u8>>::empty()) =~= Seq::<Seq<u8>>::empty());
                            assert(cur_view(cur) =~~= stnext.cur);
                            assert(sections_view(sections@) =~= stnext.sections);
                        }
                    },
                    None => {
                        let line_copy = subvec(line, 0, line.len());
                        proof {
                            assert(line_copy@ =~= lv[i as int]);
                        }
                        match &mut cur {
                            Some(cs) => {
                                let ghost bodyv = views_of(cs.body@);
                                cs.body.push(line_copy);
                                proof {
                                    assert(views_of(cs.body@) =~= bodyv.push(lv[i as int]));
                                    assert(cur_view(cur) =~~= stnext.cur);
                                }
                            },
                            None => {},
                        }
                    },
                }
            }
            i = i + 1;
            proof {
                assert(imports_view(imports@) =~= stnext.imports);
                assert(cur_view(cur) =~~= stnext.cur);
                assert(sections_view(sections@) =~= stnext.sections);
            }
        }
        // flush a still-open trailing section
        let ghost stfin = parse_upto(lv, n as int, ex);
        match cur {
            Some(cs) => {
                let ghost csv = cs@;
                let ghost prev_sections = sections_view(sections@);
                let content = join_nl(&cs.body);
                let sec = Section {
                    title: cs.title,
                    level: cs.level,
                    content,
                    line_start: cs.start,
                    line_end: n,
                };
                let ghost secv = sec@;
                sections.push(sec);
                proof {
                    assert(secv =~= close_section(csv, n as int));
                    assert(sections_view(sections@) =~= prev_sections.push(secv));
                    assert(sections_view(sections@) =~= final_sections(stfin, n as int));
                }
            },
            None => {
                proof {
                    assert(sections_view(sections@) =~= final_sections(stfin, n as int));
                }
            },
        }
        let has_imports = imports.len() > 0;
        let section_count = sections.len();
        let metadata = ContentMetadata {
            has_imports,
            section_count,
            code_block_count: code_blocks,
            link_count: links,
        };
        ParsedContent { sections, imports, metadata }
    }
}

impl Default for Parser {
    /// The same configuration as [`Parser::new`].
    fn default() -> (r: Self)
        ensures
            r.extract_sections,
            r.resolve_imports,
    {
        Parser::new()
    }
}

/// Counts a line's links, as [`spec_count_links`] describes.
fn count_line_links(line: &Vec<u8>) -> (r: usize)
    ensures
        r == spec_count_links(line@),
{
    let n = line.len();
    proof {
        lemma_count_md_bound(line@, 0);
        lemma_count_url_bound(line@, 0);
    }
    let md = count_md_links(line);
    let url = count_bare_urls(line);
    proof {
        assert(6 * md as int <= n && 8 * url as int <= n);
        assert(md + url <= n);
    }
    md + url
}


// ----- laws of the parse pass -----

/// How many of the first `i` lines hold an import directive.
pub open spec fn count_directives(lines: Seq<Seq<u8>>, i: int) -> int
    decreases i,
{
    if i <= 0 {
        0
    } else {
        count_directives(lines, i - 1) + (if line_import(lines[i - 1]) is Some {
            1int
        } else {
            0int
        })
    }
}

/// Parsing a file with N import directives yields exactly N import
/// records: one per directive line, unresolved, its 1-based line number
/// naming that line, in source order.
pub proof fn lemma_parse_imports_per_line(lines: Seq<Seq<u8>>, i: int, extract: bool)
    requires
        0 <= i <= lines.len(),
    ensures
        parse_upto(lines, i, extract).imports.len() == count_directives(lines, i),
        forall|t: int|
            0 <= t < parse_upto(lines, i, extract).imports.len() ==> {
                let imp = #[trigger] parse_upto(lines, i, extract).imports[t];
                &&& 1 <= imp.line_number <= i
                &&& imp.resolved_path is None
                &&& line_import(lines[imp.line_number - 1]) == Some(imp.path)
            },
        forall|t: int, u: int|
            0 <= t < u < parse_upto(lines, i, extract).imports.len()
                ==> #[trigger] parse_upto(lines, i, extract).imports[t].line_number
                < #[trigger] parse_upto(lines, i, extract).imports[u].line_number,
    decreases i,
{
    if i > 0 {
        lemma_parse_imports_per_line(lines, i - 1, extract);
    }
}

/// The invariant the pass keeps about its sections: spans start at 1,
/// are ordered and non-overlapping, end by the current line, and an open
/// section starts after every closed span.
pub proof fn lemma_parse_sections_wf(lines: Seq<Seq<u8>>, i: int, extract: bool)
    requires
        0 <= i <= lines.len(),
    ensures
        forall|t: int|
            0 <= t < parse_upto(lines, i, extract).sections.len() ==> {
                let s = #[trigger] parse_upto(lines, i, extract).sections[t];
                1 <= s.line_start <= s.line_end <= i
            },
        forall|t: int, u: int|
            0 <= t < u < parse_upto(lines, i, extract).sections.len()
                ==> #[trigger] parse_upto(lines, i, extract).sections[t].line_end
                < #[trigger] parse_upto(lines, i, extract).sections[u].line_start,
        parse_upto(lines, i, extract).cur is Some ==> {
            let c = parse_upto(lines, i, extract).cur->Some_0;
            &&& 1 <= c.start <= i
            &&& forall|t: int|
                0 <= t < parse_upto(lines, i, extract).sections.len()
                    ==> (#[trigger] parse_upto(lines, i, extract).sections[t]).line_end < c.start
        },
    decreases i,
{
    if i > 0 {
        lemma_parse_sections_wf(lines, i - 1, extract);
    }
}

/// The sections a parse returns are non-overlapping and ordered by start
/// line, and every span lies within the file, a trailing open section
/// flushed at the last line.
pub proof fn lemma_sections_ordered(content: Seq<u8>, extract: bool)
    ensures
        ({
            let lines = spec_lines(content);
            let secs = final_sections(
                parse_upto(lines, lines.len() as int, extract),
                lines.len() as int,
            );
            &&& forall|t: int|
                0 <= t < secs.len() ==> {
                    let s = #[trigger] secs[t];
                    1 <= s.line_start <= s.line_end <= lines.len()
                }
            &&& forall|t: int, u: int|
                0 <= t < u < secs.len() ==> #[trigger] secs[t].line_end
                    < #[trigger] secs[u].line_start
        }),
{
    let lines = spec_lines(content);
    let n = lines.len() as int;
    lemma_parse_sections_wf(lines, n, extract);
    let st = parse_upto(lines, n, extract);
    let secs = final_sections(st, n);
    match st.cur {
        Some(c) => {
            assert(forall|t: int| 0 <= t < st.sections.len() ==> secs[t] == st.sections[t]);
            assert(secs[secs.len() - 1] == close_section(c, n));
        },
        None => {},
    }
}

// ----- front matter -----
//
// A leading `---` line opens a front-matter block; `key: value` lines
// follow until another `---` line or end of input. A line without a colon
// yields no pair. The extractor returns nothing when the first line is not
// the delimiter or no pairs were found.

/// The bytes of the front-matter delimiter `---`.
pub open spec fn fm_delim() -> Seq<u8> {
    seq![45u8, 45u8, 45u8]
}

/// The views of a sequence of key/value pairs.
pub open spec fn pairs_view(ps: Seq<(Vec<u8>, Vec<u8>)>) -> Seq<(Seq<u8>, Seq<u8>)> {
    Seq::new(ps.len(), |i: int| (ps[i].0@, ps[i].1@))
}

/// The key/value pairs of the lines at and after `k`, up to a closing
/// delimiter: each line with a colon yields its text before the first
/// colon and after it, both trimmed.
pub open spec fn fm_pairs_from(lines: Seq<Seq<u8>>, k: int) -> Seq<(Seq<u8>, Seq<u8>)>
    decreases lines.len() - k,
{
    if k < 0 || k >= lines.len() {
        Seq::empty()
    } else if spec_trim(lines[k]) == fm_delim() {
        Seq::empty()
    } else {
        let l = lines[k];
        let c = first_byte_from(l, 58, 0);
        let head: Seq<(Seq<u8>, Seq<u8>)> = if c < l.len() {
            seq![(spec_trim(l.take(c)), spec_trim(l.skip(c + 1)))]
        } else {
            Seq::empty()
        };
        head + fm_pairs_from(lines, k + 1)
    }
}

/// Whether some later pair repeats the key of the pair at `i`.
pub open spec fn fm_has_later(ps: Seq<(Seq<u8>, Seq<u8>)>, i: int) -> bool {
    exists|j: int| i < j < ps.len() && (#[trigger] ps[j]).0 == ps[i].0
}

/// The pairs with repeated keys dropped: the last occurrence of each key
/// keeps its place and value.
pub open spec fn fm_dedup_from(ps: Seq<(Seq<u8>, Seq<u8>)>, i: int) -> Seq<(Seq<u8>, Seq<u8>)>
    decreases ps.len() - i,
{
    if i < 0 || i >= ps.len() {
        Seq::empty()
    } else {
        let head: Seq<(Seq<u8>, Seq<u8>)> = if fm_has_later(ps, i) {
            Seq::empty()
        } else {
            seq![ps[i]]
        };
        head + fm_dedup_from(ps, i + 1)
    }
}

/// What front-matter extraction yields, if anything: the pairs between a
/// leading delimiter line and the next delimiter or end of input, a
/// repeated key keeping only its last value.
pub open spec fn spec_frontmatter(content: Seq<u8>) -> Option<Seq<(Seq<u8>, Seq<u8>)>> {
    let lines = spec_lines(content);
    if lines.len() == 0 || spec_trim(lines[0]) != fm_delim() {
        None
    } else {
        let ps = fm_pairs_from(lines, 1);
        if ps.len() == 0 {
            None
        } else {
            Some(fm_dedup_from(ps, 0))
        }
    }
}

impl Parser {
    /// Extracts a leading front-matter block, as [`spec_frontmatter`]
    /// describes: the key/value pairs in order of appearance, a repeated
    /// key keeping only its last value.
    pub fn extract_frontmatter(&self, content: &Vec<u8>) -> (r: Option<Vec<(Vec<u8>, Vec<u8>)>>)
        ensures
            match r {
                Some(ps) => spec_frontmatter(content@) == Some(pairs_view(ps@)),
                None => spec_frontmatter(content@) is None,
            },
    {
        let lines = split_lines(content);
        let ghost lv = spec_lines(content@);
        let n = lines.len();
        if n == 0 {
            return None;
        }
        let dl: Vec<u8> = vec![45u8, 45u8, 45u8];
        proof {
            assert(dl@ =~= fm_delim());
        }
        let t0 = trim_ascii(&lines[0]);
        proof {
            assert(lines@[0]@ == lv[0]);
        }
        if !seq_eq(&t0, &dl) {
            return None;
        }
        let mut ps: Vec<(Vec<u8>, Vec<u8>)> = Vec::new();
        let mut k: usize = 1;
        let mut closed = false;
        while k < n && !closed
            invariant
                1 <= k <= n == lv.len(),
                n == lines@.len(),
                views_of(lines@) == lv,
                dl@ == fm_delim(),
                !closed ==> pairs_view(ps@) + fm_pairs_from(lv, k as int) =~= fm_pairs_from(
                    lv,
                    1,
                ),
                closed ==> pairs_view(ps@) =~= fm_pairs_from(lv, 1),
            decreases n - k, (if closed { 0int } else { 1int }),
        {
            let line = &lines[k];
            proof {
                assert(line@ == lv[k as int]);
            }
            let t = trim_ascii(line);
            if seq_eq(&t, &dl) {
                closed = true;
                proof {
                    assert(fm_pairs_from(lv, k as int) =~= Seq::<(Seq<u8>, Seq<u8>)>::empty());
                }
            } else {
                let llen = line.len();
                let c = find_byte_from(line, 58, 0);
                if c < llen {
                    let keyraw = subvec(line, 0, c);
                    let valraw = subvec(line, c + 1, llen);
                    let key = trim_ascii(&keyraw);
                    let val = trim_ascii(&valraw);
                    let ghost prev = pairs_view(ps@);
                    let ghost pv = (key@, val@);
                    ps.push((key, val));
                    proof {
                        assert(lv[k as int].take(c as int) =~= line@.subrange(0, c as int));
                        assert(lv[k as int].skip(c as int + 1) =~= line@.subrange(
                            c as int + 1,
                            llen as int,
                        ));
                        assert(pairs_view(ps@) =~= prev.push(pv));
                        assert(fm_pairs_from(lv, k as int) =~= seq![pv] + fm_pairs_from(
                            lv,
                            k as int + 1,
                        ));
                        assert(prev.push(pv) =~= prev + seq![pv]);
                    }
                } else {
                    proof {
                        assert(fm_pairs_from(lv, k as int) =~= fm_pairs_from(lv, k as int + 1));
                    }
                }
                k = k + 1;
            }
        }
        proof {
            if !closed {
                assert(fm_pairs_from(lv, k as int) =~= Seq::<(Seq<u8>, Seq<u8>)>::empty());
            }
            assert(pairs_view(ps@) =~= fm_pairs_from(lv, 1));
        }
        if ps.len() == 0 {
            return None;
        }
        // a repeated key keeps only its last value
        let ghost pv = pairs_view(ps@);
        let mut out: Vec<(Vec<u8>, Vec<u8>)> = Vec::new();
        let np = ps.len();
        let mut i: usize = 0;
        while i < np
            invariant
                0 <= i <= np == ps@.len(),
                pv == pairs_view(ps@),
                pairs_view(out@) + fm_dedup_from(pv, i as int) =~= fm_dedup_from(pv, 0),
            decreases np - i,
        {
            let mut j: usize = i + 1;
            let mut dup = false;
            while j < np && !dup
                invariant
                    0 <= i < np == ps@.len(),
                    i + 1 <= j <= np,
                    pv == pairs_view(ps@),
                    dup ==> j < np && pv[j as int].0 == pv[i as int].0,
                    !dup ==> forall|u: int| i < u < j ==> pv[u].0 != pv[i as int].0,
                decreases np - j, (if dup {
                    0int
                } else {
                    1int
                }),
            {
                proof {
                    assert(ps@[j as int].0@ == pv[j as int].0);
                    assert(ps@[i as int].0@ == pv[i as int].0);
                }
                if seq_eq(&ps[j].0, &ps[i].0) {
                    dup = true;
                } else {
                    j = j + 1;
                }
            }
            if dup {
                proof {
                    assert(fm_has_later(pv, i as int));
                    assert(fm_dedup_from(pv, i as int) =~= fm_dedup_from(pv, i as int + 1));
                }
            } else {
                proof {
                    if fm_has_later(pv, i as int) {
                        let u = choose|u: int|
                            i < u < pv.len() && (#[trigger] pv[u]).0 == pv[i as int].0;
                        assert(false);
                    }
                }
                let keyc = subvec(&ps[i].0, 0, ps[i].0.len());
                let valc = subvec(&ps[i].1, 0, ps[i].1.len());
                let ghost prev = pairs_view(out@);
                proof {
                    assert(keyc@ =~= ps@[i as int].0@);
                    assert(valc@ =~= ps@[i as int].1@);
                }
                out.push((keyc, valc));
                proof {
                    assert(pairs_view(out@) =~= prev.push(pv[i as int]));
                    assert(prev.push(pv[i as int]) =~= prev + seq![pv[i as int]]);
                    assert(fm_dedup_from(pv, i as int) =~= seq![pv[i as int]] + fm_dedup_from(
                        pv,
                        i as int + 1,
                    ));
                }
            }
            i = i + 1;
        }
        proof {
            assert(fm_dedup_from(pv, np as int) =~= Seq::<(Seq<u8>, Seq<u8>)>::empty());
            assert(pairs_view(out@) =~= fm_dedup_from(pv, 0));
        }
        Some(out)
    }
}

} // verus!
