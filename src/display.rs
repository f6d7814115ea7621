use vstd::prelude::*;

use crate::text::{blank_text, spaces};

verus! {

/// A blank screen: one row of spaces per line of the terminal.
pub struct Display(pub Vec<String>);

impl Display {
    /// A screen of `size.1` rows of `size.0` spaces each.
    pub fn new(size: (u16, u16)) -> (r: Self)
        ensures
            r.0@.len() == size.1,
            forall|i: int| 0 <= i < size.1 ==> (#[trigger] r.0@[i])@ == spaces(size.0 as int),
    {
        let mut rows: Vec<String> = Vec::new();
        let mut i: u16 = 0;
        while i < size.1
            invariant
                i <= size.1,
                rows@.len() == i,
                forall|j: int| 0 <= j < i ==> (#[trigger] rows@[j])@ == spaces(size.0 as int),
            decreases size.1 - i,
        {
            rows.push(blank_text(size.0 as usize));
            i = i + 1;
        }
        Display(rows)
    }
}

} // verus!
