//! What the converter accepts as input.

use crate::text::{ascii_lowercase, lowercase_chars, reads_as};
use vstd::prelude::*;

verus! {

/// Whether `extension`, already in lower case, names an image format that
/// the converter reads.
pub open spec fn accepted_extension(extension: Seq<char>) -> bool {
    ||| extension == "jpg"@
    ||| extension == "jpeg"@
    ||| extension == "png"@
    ||| extension == "gif"@
    ||| extension == "ico"@
    ||| extension == "pnm"@
    ||| extension == "farbfeld"@
}

/// Whether a file with this extension is accepted as input: the extension,
/// ASCII letters taken in lower case, must name one of the image formats that
/// the converter reads. A file without an extension is not accepted.
pub fn check_input_extension(extension: Option<&str>) -> (accepted: bool)
    ensures
        accepted == match extension {
            Some(text) => accepted_extension(ascii_lowercase(text@)),
            None => false,
        },
{
    match extension {
        Some(text) => {
            let lower = lowercase_chars(text);
            reads_as(&lower, "jpg") || reads_as(&lower, "jpeg") || reads_as(&lower, "png") || reads_as(
                &lower,
                "gif",
            ) || reads_as(&lower, "ico") || reads_as(&lower, "pnm") || reads_as(&lower, "farbfeld")
        },
        None => false,
    }
}

} // verus!
