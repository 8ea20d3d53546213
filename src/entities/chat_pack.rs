//! The packs enabled for a game.
use vstd::prelude::*;
use crate::entities::pack::Catalog;

verus! {

/// The packs a new game starts with: every pack of the catalog.
pub fn init(catalog: &Catalog) -> (r: Vec<usize>)
    ensures
        r@ == Seq::new(catalog.packs@.len(), |i: int| i as usize),
{
    let mut r: Vec<usize> = Vec::new();
    let mut i: usize = 0;
    while i < catalog.packs.len()
        invariant
            i <= catalog.packs@.len(),
            r@ == Seq::new(i as nat, |k: int| k as usize),
        decreases catalog.packs@.len() - i,
    {
        r.push(i);
        assert(r@ =~= Seq::new((i + 1) as nat, |k: int| k as usize));
        i = i + 1;
    }
    r
}

} // verus!
