//! What the trapping computation takes from a job description.

use crate::error::TrapError;
use vstd::prelude::*;

verus! {

/// The trap distance, in pixels, of a job that names none.
pub fn default_tolerance() -> (r: u32)
    ensures
        r == 5,
{
    5
}

/// The index of the first file entry named `color`, or
/// `MissingFileDescriptor` where no entry has that name.
pub fn find_plate_file(color: &String, file_names: &Vec<String>) -> (r: Result<usize, TrapError>)
    ensures
        match r {
            Ok(i) => i < file_names@.len() && file_names@[i as int]@ == color@ && forall|j: int|
                0 <= j < i ==> (#[trigger] file_names@[j])@ != color@,
            Err(e) => e == TrapError::MissingFileDescriptor && forall|j: int|
                0 <= j < file_names@.len() ==> (#[trigger] file_names@[j])@ != color@,
        },
{
    let mut i: usize = 0;
    while i < file_names.len()
        invariant
            i <= file_names@.len(),
            forall|j: int| 0 <= j < i ==> (#[trigger] file_names@[j])@ != color@,
        decreases file_names@.len() - i,
    {
        if file_names[i] == *color {
            return Ok(i);
        }
        i += 1;
    }
    Err(TrapError::MissingFileDescriptor)
}

} // verus!
