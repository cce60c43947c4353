//! Small helpers shared by the renderers around the comparison core.
use vstd::prelude::*;

verus! {

/// An indentation depth for rendering nested report entries, stepped one
/// level at a time.
#[derive(Clone, Copy)]
pub struct Indent(pub usize);

impl Indent {
    /// The outermost level.
    pub fn new() -> (r: Indent)
        ensures
            r.0 == 0,
    {
        Indent(0)
    }

    /// One level deeper.
    pub fn next(self) -> (r: Indent)
        requires
            self.0 < usize::MAX,
        ensures
            r.0 == self.0 + 1,
    {
        Indent(self.0 + 1)
    }
}

} // verus!
