use vstd::prelude::*;

verus! {

/// Per-page frame record: the placeholder for the physical/virtual mapping
/// data that accompanies every base page. The record is kept to this single
/// word so it can mirror a foreign page-metadata header.
#[derive(Clone, Copy)]
pub struct mm_page {
    pub virt: usize,
}

impl mm_page {
    /// A fresh page record with no mapping established.
    pub fn new() -> (r: mm_page)
        ensures
            r.virt == 0,
    {
        mm_page { virt: 0 }
    }
}

} // verus!
