//! The data model: memory files, their imports and their metadata.

use vstd::prelude::*;

verus! {

/// Where a memory file was discovered.
#[derive(Debug, Clone, Copy, PartialEq, Eq, Structural)]
pub enum MemoryType {
    /// The project root's memory file.
    ProjectMemory,
    /// The per-user memory file under the home directory.
    UserMemory,
    /// The deprecated local override beside the project file.
    LocalMemory,
    /// A memory file found in a subdirectory walk.
    SubdirMemory,
}

/// One import directive found in a file: the path as written, the 1-based
/// line it stands on, and the canonical target once resolution has run.
#[derive(Debug, Clone)]
pub struct Import {
    pub path: Vec<u8>,
    pub line_number: usize,
    pub resolved_path: Option<Vec<u8>>,
}

/// The mathematical value of an [`Import`].
pub struct ImportV {
    pub path: Seq<u8>,
    pub line_number: int,
    pub resolved_path: Option<Seq<u8>>,
}

impl View for Import {
    type V = ImportV;

    open spec fn view(&self) -> ImportV {
        ImportV {
            path: self.path@,
            line_number: self.line_number as int,
            resolved_path: match self.resolved_path {
                Some(p) => Some(p@),
                None => None,
            },
        }
    }
}

/// Size, modification time (seconds since the epoch), content digest in
/// lowercase hex, and line count of a file.
#[derive(Debug, Clone)]
pub struct FileMetadata {
    pub size: u64,
    pub modified: i64,
    pub hash: Vec<u8>,
    pub line_count: usize,
}

/// The mathematical value of a [`FileMetadata`].
pub struct FileMetadataV {
    pub size: u64,
    pub modified: i64,
    pub hash: Seq<u8>,
    pub line_count: int,
}

impl View for FileMetadata {
    type V = FileMetadataV;

    open spec fn view(&self) -> FileMetadataV {
        FileMetadataV {
            size: self.size,
            modified: self.modified,
            hash: self.hash@,
            line_count: self.line_count as int,
        }
    }
}

/// One discovered memory file: its path, kind, raw content, the import
/// directives found in it, and its metadata.
#[derive(Debug, Clone)]
pub struct MemoryFile {
    pub path: Vec<u8>,
    pub file_type: MemoryType,
    pub content: Vec<u8>,
    pub imports: Vec<Import>,
    pub metadata: FileMetadata,
}

/// The mathematical value of a [`MemoryFile`].
pub struct MemoryFileV {
    pub path: Seq<u8>,
    pub file_type: MemoryType,
    pub content: Seq<u8>,
    pub imports: Seq<ImportV>,
    pub metadata: FileMetadataV,
}

impl View for MemoryFile {
    type V = MemoryFileV;

    open spec fn view(&self) -> MemoryFileV {
        MemoryFileV {
            path: self.path@,
            file_type: self.file_type,
            content: self.content@,
            imports: Seq::new(self.imports@.len(), |i: int| self.imports@[i]@),
            metadata: self.metadata@,
        }
    }
}

/// The views of a sequence of imports.
pub open spec fn imports_view(imports: Seq<Import>) -> Seq<ImportV> {
    Seq::new(imports.len(), |i: int| imports[i]@)
}

/// The views of a sequence of memory files.
pub open spec fn files_view(files: Seq<MemoryFile>) -> Seq<MemoryFileV> {
    Seq::new(files.len(), |i: int| files[i]@)
}

} // verus!
