//! Output configuration. The formatters' rendering is terminal I/O and
//! lives outside the library; the builders here carry the options the
//! renderers honor.

use vstd::prelude::*;

verus! {

/// Plain-text output options.
#[derive(Debug, Clone, Copy, PartialEq, Eq, Structural)]
pub struct TextFormatter {
    pub content_only: bool,
    pub show_metadata: bool,
    pub expand_imports: bool,
}

impl TextFormatter {
    /// Headers and line numbers on, metadata off, imports expanded.
    pub fn new() -> (r: Self)
        ensures
            !r.content_only,
            !r.show_metadata,
            r.expand_imports,
    {
        TextFormatter { content_only: false, show_metadata: false, expand_imports: true }
    }

    /// Sets whether only raw content is printed.
    pub fn with_content_only(self, value: bool) -> (r: Self)
        ensures
            r.content_only == value,
            r.show_metadata == self.show_metadata,
            r.expand_imports == self.expand_imports,
    {
        TextFormatter { content_only: value, ..self }
    }

    /// Sets whether metadata lines are printed.
    pub fn with_show_metadata(self, value: bool) -> (r: Self)
        ensures
            r.content_only == self.content_only,
            r.show_metadata == value,
            r.expand_imports == self.expand_imports,
    {
        TextFormatter { show_metadata: value, ..self }
    }

    /// Sets whether imports are expanded in the output.
    pub fn with_expand_imports(self, value: bool) -> (r: Self)
        ensures
            r.content_only == self.content_only,
            r.show_metadata == self.show_metadata,
            r.expand_imports == value,
    {
        TextFormatter { expand_imports: value, ..self }
    }
}

/// JSON output options.
#[derive(Debug, Clone, Copy, PartialEq, Eq, Structural)]
pub struct JsonFormatter {
    pub pretty: bool,
}

impl JsonFormatter {
    /// Pretty-printed JSON.
    pub fn new() -> (r: Self)
        ensures
            r.pretty,
    {
        JsonFormatter { pretty: true }
    }

    /// Sets whether the JSON is pretty-printed.
    pub fn with_pretty(self, pretty: bool) -> (r: Self)
        ensures
            r.pretty == pretty,
    {
        JsonFormatter { pretty }
    }
}

/// Unified-diff output; it carries no options.
#[derive(Debug, Clone, Copy, PartialEq, Eq, Structural)]
pub struct DiffFormatter;

impl DiffFormatter {
    pub fn new() -> (r: Self) {
        DiffFormatter
    }
}

impl Default for DiffFormatter {
    fn default() -> (r: Self) {
        DiffFormatter::new()
    }
}

/// Grouped-tree output; it carries no options.
#[derive(Debug, Clone, Copy, PartialEq, Eq, Structural)]
pub struct TreeFormatter;

impl TreeFormatter {
    pub fn new() -> (r: Self) {
        TreeFormatter
    }
}

impl Default for TreeFormatter {
    fn default() -> (r: Self) {
        TreeFormatter::new()
    }
}

} // verus!
