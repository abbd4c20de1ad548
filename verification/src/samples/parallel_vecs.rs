//! Two vectors that grow side by side, in a type any crate can grow one of:
//! nothing to report.

use vstd::prelude::*;

verus! {

/// Public fields of an exported struct can be grown by any crate.
#[derive(Debug)]
pub struct Open {
    pub firsts: Vec<u8>,
    pub seconds: Vec<u8>,
}

/// Grows both by one, and adds up what stands at `i`.
pub fn open(o: &mut Open, i: usize) -> (r: u8)
    requires
        i <= old(o).firsts@.len(),
        i <= old(o).seconds@.len(),
        old(o).firsts@.push(1)[i as int] + old(o).seconds@.push(2)[i as int] <= u8::MAX,
    ensures
        final(o).firsts@ == old(o).firsts@.push(1),
        final(o).seconds@ == old(o).seconds@.push(2),
        r == final(o).firsts@[i as int] + final(o).seconds@[i as int],
{
    o.firsts.push(1);
    o.seconds.push(2);
    o.firsts[i] + o.seconds[i]
}

} // verus!
