use vstd::prelude::*;

pub mod blob;
pub mod commit;
pub mod framing;
pub mod hash;
pub mod numerals;
pub mod path;
pub mod store;
pub mod tree;
pub mod zlib;

pub use blob::create_blob_object;
pub use commit::create_commit_object;
pub use hash::{calculate_object_hash, hex_to_bytes, validate_sha1};
pub use path::git_object_path;
pub use tree::{build_tree_content, parse_tree_entries, sort_tree_entries, TreeEntry};

verus! {

/// The three object kinds a payload header may carry.
#[derive(Clone, Copy, Debug, PartialEq, Eq, Structural)]
pub enum GitObjectType {
    Blob,
    Tree,
    Commit,
}

/// The four entry modes a tree records for its children.
#[derive(Clone, Copy, Debug, PartialEq, Eq, Structural)]
pub enum FileMode {
    RegularFile,
    ExecutableFile,
    SymbolicLink,
    Directory,
}

/// The ASCII text of an object type, as the bytes of a payload header.
pub open spec fn type_bytes(t: GitObjectType) -> Seq<u8> {
    match t {
        GitObjectType::Blob => seq![98u8, 108u8, 111u8, 98u8],
        GitObjectType::Tree => seq![116u8, 114u8, 101u8, 101u8],
        GitObjectType::Commit => seq![99u8, 111u8, 109u8, 109u8, 105u8, 116u8],
    }
}

/// The ASCII text of a mode, as the bytes written in a tree entry.
pub open spec fn mode_bytes(m: FileMode) -> Seq<u8> {
    match m {
        FileMode::RegularFile => seq![49u8, 48u8, 48u8, 54u8, 52u8, 52u8],
        FileMode::ExecutableFile => seq![49u8, 48u8, 48u8, 55u8, 53u8, 53u8],
        FileMode::SymbolicLink => seq![49u8, 50u8, 48u8, 48u8, 48u8, 48u8],
        FileMode::Directory => seq![52u8, 48u8, 48u8, 48u8, 48u8],
    }
}

/// The object kind that a tree entry of the given mode points at.
pub open spec fn spec_to_object_type(m: FileMode) -> GitObjectType {
    match m {
        FileMode::Directory => GitObjectType::Tree,
        _ => GitObjectType::Blob,
    }
}

/// The one cross-platform policy for a file entry's mode: executable
/// exactly when the POSIX permission bits hold an execute bit. A platform
/// without such bits reports zero, and every file there is regular.
pub open spec fn spec_mode_for_permissions(permission_bits: u32) -> FileMode {
    if permission_bits & 0o111 != 0 {
        FileMode::ExecutableFile
    } else {
        FileMode::RegularFile
    }
}

impl FileMode {
    /// The mode a file's POSIX permission bits give its tree entry.
    pub fn from_permission_bits(permission_bits: u32) -> (m: FileMode)
        ensures
            m == spec_mode_for_permissions(permission_bits),
    {
        if permission_bits & 0o111 != 0 {
            FileMode::ExecutableFile
        } else {
            FileMode::RegularFile
        }
    }

    /// A directory entry references a tree object; every other mode
    /// references a blob.
    pub fn to_object_type(&self) -> (t: GitObjectType)
        ensures
            t == spec_to_object_type(*self),
    {
        match self {
            FileMode::RegularFile | FileMode::ExecutableFile | FileMode::SymbolicLink => {
                GitObjectType::Blob
            },
            FileMode::Directory => GitObjectType::Tree,
        }
    }

    /// The mode text as bytes, e.g. `100644` for a regular file.
    pub fn mode_text(&self) -> (r: Vec<u8>)
        ensures
            r@ == mode_bytes(*self),
    {
        let mut r: Vec<u8> = Vec::new();
        match self {
            FileMode::RegularFile => {
                r.push(49);
                r.push(48);
                r.push(48);
                r.push(54);
                r.push(52);
                r.push(52);
            },
            FileMode::ExecutableFile => {
                r.push(49);
                r.push(48);
                r.push(48);
                r.push(55);
                r.push(53);
                r.push(53);
            },
            FileMode::SymbolicLink => {
                r.push(49);
                r.push(50);
                r.push(48);
                r.push(48);
                r.push(48);
                r.push(48);
            },
            FileMode::Directory => {
                r.push(52);
                r.push(48);
                r.push(48);
                r.push(48);
                r.push(48);
            },
        }
        proof {
            assert(r@ =~= mode_bytes(*self));
        }
        r
    }
}

impl GitObjectType {
    /// The type text as bytes, e.g. `blob`.
    pub fn type_text(&self) -> (r: Vec<u8>)
        ensures
            r@ == type_bytes(*self),
    {
        let mut r: Vec<u8> = Vec::new();
        match self {
            GitObjectType::Blob => {
                r.push(98);
                r.push(108);
                r.push(111);
                r.push(98);
            },
            GitObjectType::Tree => {
                r.push(116);
                r.push(114);
                r.push(101);
                r.push(101);
            },
            GitObjectType::Commit => {
                r.push(99);
                r.push(111);
                r.push(109);
                r.push(109);
                r.push(105);
                r.push(116);
            },
        }
        proof {
            assert(r@ =~= type_bytes(*self));
        }
        r
    }
}

} // verus!
