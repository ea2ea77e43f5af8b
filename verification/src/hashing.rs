//! The hash collections of scans: what they hold, and the calls that scans make.
use vstd::prelude::*;

use crate::NodeId;

verus! {

/// The hasher of the collections.
#[verifier::external_type_specification]
#[verifier::external_body]
pub struct ExFxBuildHasher(rustc_hash::FxBuildHasher);

/// A set of pairs.
pub type PairSet = rustc_hash::FxHashSet<(u64, u64)>;

/// A set of numbers.
pub type NumberSet = rustc_hash::FxHashSet<u128>;

/// A map from paths to nodes.
pub type PathIds = rustc_hash::FxHashMap<String, NodeId>;

/// A map from file reference numbers to the places of their records.
pub type FrnSlots = rustc_hash::FxHashMap<u128, usize>;

/// The pairs that a set holds.
pub uninterp spec fn pairs(s: PairSet) -> Set<(u64, u64)>;

/// `FxHashSet::default`: a set that holds nothing.
#[verifier::external_body]
pub(crate) fn new_pairs() -> (s: PairSet)
    ensures
        pairs(s) == Set::<(u64, u64)>::empty(),
{
    rustc_hash::FxHashSet::default()
}

/// `HashSet::insert`: puts a pair into the set, and says whether it was not in
/// it.
#[verifier::external_body]
pub(crate) fn insert_pair(s: &mut PairSet, pair: (u64, u64)) -> (fresh:
    bool)
    ensures
        fresh == !pairs(*old(s)).contains(pair),
        pairs(*final(s)) == pairs(*old(s)).insert(pair),
{
    s.insert(pair)
}

/// The numbers that a set holds.
pub uninterp spec fn numbers(s: NumberSet) -> Set<u128>;

/// `FxHashSet::default`: a set that holds nothing.
#[verifier::external_body]
pub(crate) fn new_numbers() -> (s: NumberSet)
    ensures
        numbers(s) == Set::<u128>::empty(),
{
    rustc_hash::FxHashSet::default()
}

/// `HashSet::insert`: puts a number into the set, and says whether it was not in
/// it.
#[verifier::external_body]
pub(crate) fn insert_number(s: &mut NumberSet, n: u128) -> (fresh: bool)
    ensures
        fresh == !numbers(*old(s)).contains(n),
        numbers(*final(s)) == numbers(*old(s)).insert(n),
{
    s.insert(n)
}

/// The paths that a map holds, each with its node.
pub uninterp spec fn path_ids(m: PathIds) -> Map<Seq<char>, NodeId>;

/// `FxHashMap::default`: a map that holds nothing.
#[verifier::external_body]
pub(crate) fn new_path_ids() -> (m: PathIds)
    ensures
        path_ids(m).dom() == Set::<Seq<char>>::empty(),
{
    rustc_hash::FxHashMap::default()
}

/// `HashMap::get`: the node of a path, if the map holds the path.
#[verifier::external_body]
pub(crate) fn get_path_id(m: &PathIds, path: &str) -> (r: Option<
    NodeId,
>)
    ensures
        r == if path_ids(*m).dom().contains(path@) {
            Some(path_ids(*m)[path@])
        } else {
            None
        },
{
    m.get(path).copied()
}

/// `HashMap::insert`: gives a path a node, whether it had one or not.
#[verifier::external_body]
pub(crate) fn insert_path_id(
    m: &mut PathIds,
    path: String,
    id: NodeId,
)
    ensures
        path_ids(*final(m)) == path_ids(*old(m)).insert(path@, id),
{
    m.insert(path, id);
}

/// `HashMap::remove`: takes a path out of the map, whether it is in it or not.
#[verifier::external_body]
pub(crate) fn remove_path_id(m: &mut PathIds, path: &str)
    ensures
        path_ids(*final(m)) == path_ids(*old(m)).remove(path@),
{
    m.remove(path);
}

/// `HashMap::iter`: every path of the map with its node, in no order.
#[verifier::external_body]
pub(crate) fn path_entries(m: &PathIds) -> (v: Vec<(String, NodeId)>)
    ensures
        forall|i: int|
            0 <= i < v@.len() ==> path_ids(*m).dom().contains((#[trigger] v@[i]).0@)
                && path_ids(*m)[v@[i].0@] == v@[i].1,
        forall|p: Seq<char>| #[trigger]
            path_ids(*m).dom().contains(p) ==> exists|i: int|
                0 <= i < v@.len() && (#[trigger] v@[i]).0@ == p,
{
    m.iter().map(|(path, id)| (path.clone(), *id)).collect()
}

/// The file reference numbers that a map holds, each with its place.
pub uninterp spec fn frn_slots(m: FrnSlots) -> Map<u128, usize>;

/// `FxHashMap::default`: a map that holds nothing.
#[verifier::external_body]
pub(crate) fn new_frn_slots() -> (m: FrnSlots)
    ensures
        frn_slots(m).dom() == Set::<u128>::empty(),
{
    rustc_hash::FxHashMap::default()
}

/// `HashMap::get`: the place of a file reference number, if the map holds it.
#[verifier::external_body]
pub(crate) fn get_frn_slot(m: &FrnSlots, frn: u128) -> (r: Option<usize>)
    ensures
        r == if frn_slots(*m).dom().contains(frn) {
            Some(frn_slots(*m)[frn])
        } else {
            None
        },
{
    m.get(&frn).copied()
}

/// `HashMap::insert`: gives a file reference number a place, whether it had one
/// or not.
#[verifier::external_body]
pub(crate) fn insert_frn_slot(m: &mut FrnSlots, frn: u128, slot: usize)
    ensures
        frn_slots(*final(m)) == frn_slots(*old(m)).insert(frn, slot),
{
    m.insert(frn, slot);
}

} // verus!
