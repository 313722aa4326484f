//! Building strings.

use vstd::prelude::*;
use vstd::string::StringExecFns;

verus! {

/// `alloc::string::String::push`: appends `c` to the end of the string.
pub assume_specification[ String::push ](s: &mut String, c: char)
    ensures
        final(s)@ == old(s)@.push(c),
;

/// The one-character string `c`.
pub fn single(c: char) -> (r: String)
    ensures
        r@ == seq![c],
{
    let mut r = String::new();
    r.push(c);
    r
}

/// `text` with `head` put in front.
pub fn prepend(head: String, text: &String) -> (r: String)
    ensures
        r@ == head@ + text@,
{
    let mut r = head;
    r.append(text.as_str());
    r
}

} // verus!
