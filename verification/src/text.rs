//! What is taken on trust about `String`.

use vstd::prelude::*;

verus! {

/// `String::push` appends one character and leaves the rest of the string as
/// it was. This is the documented behaviour of the standard library; it is
/// stated here and not proved.
pub assume_specification[ String::push ](s: &mut String, ch: char)
    ensures
        final(s)@ == old(s)@.push(ch),
;

} // verus!
