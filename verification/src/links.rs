//! Links between numbers: from one to any number of others.

use std::collections::{BTreeMap, BTreeSet};
use vstd::prelude::*;

verus! {

/// Whether there is a link from one number to another.
pub open spec fn linked(links: Map<usize, BTreeSet<usize>>, from: usize, to: usize) -> bool {
    links.contains_key(from) && links[from]@.contains(to)
}

/// Adds the link from one number to another.
pub(crate) fn add_link(links: &mut BTreeMap<usize, BTreeSet<usize>>, from: usize, to: usize)
    ensures
        forall|f: usize, t: usize| #[trigger]
            linked(final(links)@, f, t) <==> linked(old(links)@, f, t) || (f == from && t == to),
{
    broadcast use vstd::std_specs::btree::group_btree_axioms;
    broadcast use vstd::laws_cmp::group_laws_cmp;

    let mut targets = match links.remove(&from) {
        Some(targets) => targets,
        None => BTreeSet::new(),
    };
    targets.insert(to);
    links.insert(from, targets);
}

/// The numbers that a number is linked to, in ascending order.
pub(crate) fn links_from(links: &BTreeMap<usize, BTreeSet<usize>>, from: usize) -> (out: Vec<usize>)
    ensures
        forall|i: int, j: int| 0 <= i < j < out@.len() ==> out@[i] < out@[j],
        forall|to: usize| #[trigger] out@.contains(to) <==> linked(links@, from, to),
{
    broadcast use vstd::std_specs::btree::group_btree_axioms;
    broadcast use vstd::laws_cmp::group_laws_cmp;

    let mut out: Vec<usize> = Vec::new();
    match links.get(&from) {
        Some(targets) => {
            let ghost order = vstd::std_specs::iter::IteratorSpec::remaining(&targets.iter());
            for to in it: targets.iter()
                invariant
                    out@.len() == it.index(),
                    it.seq() == order,
                    forall|k: int| 0 <= k < out@.len() ==> #[trigger] out@[k] == *it.seq()[k],
            {
                out.push(*to);
            }
            assert(vstd::laws_cmp::obeys_cmp::<&usize>());
            assert(vstd::std_specs::btree::increasing_seq(order));
            assert forall|i: int, j: int| 0 <= i < j < out@.len() implies out@[i] < out@[j] by {
                assert(vstd::std_specs::cmp::OrdSpec::cmp_spec(&order[i], &order[j]) is Less);
            }
            assert(out@ =~= order.unref());
            assert forall|to: usize| #[trigger]
                out@.contains(to) <==> linked(links@, from, to) by {
                assert(order.unref().to_set().contains(to) <==> order.unref().contains(to));
            }
        },
        None => {},
    }
    out
}

} // verus!
