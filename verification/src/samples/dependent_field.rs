//! A field that means something only under a flag, in a type other crates can
//! read: nothing to report.

use vstd::prelude::*;

verus! {

/// Exported, so other crates read it where they like.
#[derive(Clone, Copy, Debug)]
pub struct Public {
    pub on: bool,
    pub data: u32,
}

pub fn public(d: u32) -> (r: [Public; 2])
    ensures
        r@ == seq![Public { on: false, data: 0 }, Public { on: true, data: d }],
{
    let r = [Public { on: false, data: 0 }, Public { on: true, data: d }];
    assert(r@ =~= seq![Public { on: false, data: 0 }, Public { on: true, data: d }]);
    r
}

pub fn public_data(p: &Public) -> (r: u32)
    ensures
        r == if p.on {
            p.data
        } else {
            0
        },
{
    if p.on {
        p.data
    } else {
        0
    }
}

} // verus!
