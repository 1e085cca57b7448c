//! The set of cells that a traversal has reached, kept in a hash set.

use vstd::prelude::*;

verus! {

/// The cells a traversal has reached so far, each by its row-major index,
/// held in a `hashbrown::HashSet` whose inside is not looked into.
#[verifier::external_body]
pub struct VisitedSet {
    cells: hashbrown::HashSet<u32>,
}

/// The indices that a visited set holds.
pub uninterp spec fn visited_cells(set: VisitedSet) -> Set<u32>;

/// `hashbrown::HashSet::new`: the new set holds nothing.
#[verifier::external_body]
pub(crate) fn visited_new() -> (set: VisitedSet)
    ensures
        visited_cells(set) == (Set::<u32>::empty()),
{
    VisitedSet { cells: hashbrown::HashSet::new() }
}

/// `hashbrown::HashSet::insert`: afterwards the set holds `cell` besides what
/// it held, and the result tells whether `cell` was absent before.
#[verifier::external_body]
pub(crate) fn visited_insert(set: &mut VisitedSet, cell: u32) -> (fresh: bool)
    ensures
        visited_cells(*final(set)) == visited_cells(*old(set)).insert(cell),
        fresh == !visited_cells(*old(set)).contains(cell),
{
    set.cells.insert(cell)
}

/// A finite set of numbers below `n` has at most `n` members.
pub proof fn lemma_bounded_set_len(s: Set<u32>, n: nat)
    requires
        s.finite(),
        forall|k: u32| s.contains(k) ==> k < n,
    ensures
        s.len() <= n,
    decreases n,
{
    if n == 0 {
        assert(s =~= Set::empty());
    } else {
        let top = (n - 1) as u32;
        if n - 1 <= u32::MAX && s.contains(top) {
            let rest = s.remove(top);
            lemma_bounded_set_len(rest, (n - 1) as nat);
        } else {
            lemma_bounded_set_len(s, (n - 1) as nat);
        }
    }
}

} // verus!
