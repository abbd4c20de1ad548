//! A flag beside an `Option` in a type other crates can write to: nothing to
//! report.

use vstd::prelude::*;

verus! {

/// Exported fields can be written by other crates.
#[derive(Debug)]
pub struct Public {
    pub handle: Option<u32>,
    pub attached: bool,
}

impl Public {
    pub fn new() -> (r: Self)
        ensures
            r.handle is None,
            !r.attached,
    {
        Public { handle: None, attached: false }
    }

    pub fn attach(&mut self, h: u32)
        ensures
            final(self).handle == Some(h),
            final(self).attached,
    {
        self.handle = Some(h);
        self.attached = true;
    }
}

} // verus!
