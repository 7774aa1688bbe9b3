//! The hashed collections the engine keeps its cells in: `rustc_hash`'s
//! `FxHashSet` and `FxHashMap`, that is std's `HashSet`/`HashMap` with the
//! deterministic `FxBuildHasher`. Each method the engine calls goes through a
//! small wrapper whose contract states, over vstd's view of the collection,
//! what std's implementation does with it.

use rustc_hash::{FxBuildHasher, FxHashMap, FxHashSet};
use vstd::prelude::*;

verus! {

/// A world cell, as `(x, y)`.
pub type Cell = (i32, i32);

/// `rustc_hash::FxBuildHasher`, the hasher builder of `FxHashSet` and
/// `FxHashMap`, carried through as an opaque type.
#[verifier::external_type_specification]
#[verifier::external_body]
pub struct ExFxBuildHasher(FxBuildHasher);

/// `HashSet::insert` on an `FxHashSet`: the set gains `c` (std's `HashSet`
/// is a set for any hasher that hashes equal keys equally, as `FxHasher`,
/// which starts from a fixed state, does).
#[verifier::external_body]
pub(crate) fn set_insert(s: &mut FxHashSet<Cell>, c: Cell)
    ensures
        final(s)@ == old(s)@.insert(c),
{
    s.insert(c);
}

/// `HashSet::remove` on an `FxHashSet`: the set loses `c`.
#[verifier::external_body]
pub(crate) fn set_remove(s: &mut FxHashSet<Cell>, c: &Cell)
    ensures
        final(s)@ == old(s)@.remove(*c),
{
    s.remove(c);
}

/// `HashSet::contains` on an `FxHashSet`: whether `c` is a member.
#[verifier::external_body]
pub(crate) fn set_contains(s: &FxHashSet<Cell>, c: &Cell) -> (b: bool)
    ensures
        b == s@.contains(*c),
{
    s.contains(c)
}

/// `HashSet::iter` on an `FxHashSet`, its items copied into a `Vec`: each
/// member exactly once, in the set's own (unspecified) order.
#[verifier::external_body]
pub(crate) fn set_members(s: &FxHashSet<Cell>) -> (v: Vec<Cell>)
    ensures
        v@.to_set() == s@,
        v@.no_duplicates(),
{
    s.iter().copied().collect()
}

/// `HashMap::get` on an `FxHashMap`, the value copied out: the value stored
/// for `c`, if there is one.
#[verifier::external_body]
pub(crate) fn map_get(m: &FxHashMap<Cell, u32>, c: &Cell) -> (r: Option<u32>)
    ensures
        r == (if m@.contains_key(*c) { Some(m@[*c]) } else { None::<u32> }),
{
    m.get(c).copied()
}

/// `HashMap::insert` on an `FxHashMap`: `c` now maps to `v`.
#[verifier::external_body]
pub(crate) fn map_insert(m: &mut FxHashMap<Cell, u32>, c: Cell, v: u32)
    ensures
        final(m)@ == old(m)@.insert(c, v),
{
    m.insert(c, v);
}

/// `HashMap::values` on an `FxHashMap`, the values copied into a `Vec`: one
/// entry per key, each the value stored for some key.
#[verifier::external_body]
pub(crate) fn map_values(m: &FxHashMap<Cell, u32>) -> (v: Vec<u32>)
    ensures
        forall|i: int| 0 <= i < v@.len() ==> #[trigger] m@.values().contains(v@[i]),
        forall|k: Cell| m@.contains_key(k) ==> v@.contains(#[trigger] m@[k]),
{
    m.values().copied().collect()
}

/// The members of `a` that are not in `b`, each once.
pub(crate) fn set_difference(a: &FxHashSet<Cell>, b: &FxHashSet<Cell>) -> (v: Vec<Cell>)
    ensures
        v@.to_set() == a@.difference(b@),
{
    let members = set_members(a);
    let mut out: Vec<Cell> = Vec::new();
    let mut i: usize = 0;
    while i < members.len()
        invariant
            i <= members@.len(),
            members@.to_set() == a@,
            out@.to_set() == members@.subrange(0, i as int).to_set().difference(b@),
        decreases members.len() - i,
    {
        let c = members[i];
        let ghost before = out@;
        if !set_contains(b, &c) {
            out.push(c);
            proof {
                before.lemma_push_to_set_commute(c);
            }
        }
        proof {
            assert(members@.subrange(0, i + 1) =~= members@.subrange(0, i as int).push(c));
            members@.subrange(0, i as int).lemma_push_to_set_commute(c);
            assert(out@.to_set() =~= members@.subrange(0, i + 1).to_set().difference(b@));
        }
        i += 1;
    }
    proof {
        assert(members@.subrange(0, members@.len() as int) =~= members@);
    }
    out
}

} // verus!
