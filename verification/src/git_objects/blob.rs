use vstd::prelude::*;

use crate::git_objects::framing::{frame, spec_frame};
use crate::git_objects::GitObjectType;

verus! {

/// Frames raw file content as a blob payload: `"blob <byte-length>\0"`
/// followed by the content.
pub fn create_blob_object(file_content: &[u8]) -> (r: Vec<u8>)
    ensures
        r@ == spec_frame(GitObjectType::Blob, file_content@),
{
    frame(GitObjectType::Blob, file_content)
}

} // verus!
