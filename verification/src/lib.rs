//! Layered memory-document analysis: discovery metadata, Markdown structure
//! parsing, import resolution with cycle detection and bounded expansion, and
//! bounded least-recently-used caching keyed by file identity.
//!
//! Text is handled as byte strings (`Vec<u8>`); the surrounding application
//! performs all file and terminal I/O and hands the library plain values.

pub mod analyzer;
pub mod bytes;
pub mod cache;
pub mod formatter;
pub mod hashing;
pub mod memory;
pub mod parser;
pub mod resolver;
pub mod scanner;

pub use analyzer::{DiagnosticResult, Diagnostics};
pub use cache::{CacheKey, ContentHashCache, FileCache};
pub use memory::{FileMetadata, Import, MemoryFile, MemoryType};
pub use parser::Parser;
pub use resolver::ImportResolver;
pub use scanner::Scanner;
