use vstd::prelude::*;
use vstd::set_lib::set_int_range;

use binary_search_tree::BinarySearchTree;

use crate::text::lex_lt;

verus! {

/// One entry of a secondary index: a column's decoded value and the slot
/// number of the row it came from.
///
/// The derived order — key first, slot as tie-breaker — is the order the
/// index tree keeps its entries in, so equal keys descend to the right of
/// one another in slot order.
#[derive(Clone, Debug, PartialEq, Eq, PartialOrd, Ord)]
pub struct KeyValuePair {
    pub key: String,
    pub value: usize,
}

impl KeyValuePair {
    pub fn new(key: String, value: usize) -> (r: KeyValuePair)
        ensures
            r.key@ == key@,
            r.value == value,
    {
        KeyValuePair { key, value }
    }
}

/// The order of index entries: by key, ties broken by slot. Key order is
/// code-point order, which is also how `String` compares.
pub open spec fn pair_lt(a: (Seq<char>, int), b: (Seq<char>, int)) -> bool {
    lex_lt(a.0, b.0) || (a.0 == b.0 && a.1 < b.1)
}

/// Where a fresh entry lands in the position map of a search tree laid out
/// on heap positions: the walk starts at position `p`, descends to `2p+1`
/// left of a greater entry and to `2p+2` otherwise, and stops at the first
/// free position.
pub open spec fn bst_insert_pos(m: Map<int, (Seq<char>, int)>, x: (Seq<char>, int), p: int) -> int
    decreases m.dom().len() when m.dom().finite()
{
    if !m.dom().contains(p) {
        p
    } else if pair_lt(x, m[p]) {
        bst_insert_pos(m.remove(p), x, 2 * p + 1)
    } else {
        bst_insert_pos(m.remove(p), x, 2 * p + 2)
    }
}

/// The walk never lands on an occupied position, and never before its
/// starting position.
pub proof fn lemma_insert_pos_fresh(m: Map<int, (Seq<char>, int)>, x: (Seq<char>, int), p: int)
    requires
        m.dom().finite(),
        p >= 0,
    ensures
        !m.dom().contains(bst_insert_pos(m, x, p)),
        bst_insert_pos(m, x, p) >= p,
    decreases m.dom().len(),
{
    if !m.dom().contains(p) {
    } else if pair_lt(x, m[p]) {
        lemma_insert_pos_fresh(m.remove(p), x, 2 * p + 1);
        assert(!m.remove(p).dom().contains(bst_insert_pos(m, x, p)));
    } else {
        lemma_insert_pos_fresh(m.remove(p), x, 2 * p + 2);
        assert(!m.remove(p).dom().contains(bst_insert_pos(m, x, p)));
    }
}

/// The least element of a finite, non-empty set of integers.
pub open spec fn set_min(s: Set<int>) -> int {
    choose|x: int| s.contains(x) && forall|y: int| #[trigger] s.contains(y) ==> x <= y
}

pub proof fn lemma_set_min(s: Set<int>)
    requires
        s.finite(),
        !s.is_empty(),
    ensures
        s.contains(set_min(s)),
        forall|y: int| #[trigger] s.contains(y) ==> set_min(s) <= y,
    decreases s.len(),
{
    let x = s.choose();
    assert(s.contains(x));
    let r = s.remove(x);
    if r.is_empty() {
        assert forall|y: int| #[trigger] s.contains(y) implies x <= y by {
            if y != x {
                assert(r.contains(y));
            }
        }
        assert(s.contains(x) && forall|y: int| #[trigger] s.contains(y) ==> x <= y);
    } else {
        lemma_set_min(r);
        let mr = set_min(r);
        if x <= mr {
            assert forall|y: int| #[trigger] s.contains(y) implies x <= y by {
                if y != x {
                    assert(r.contains(y));
                }
            }
            assert(s.contains(x) && forall|y: int| #[trigger] s.contains(y) ==> x <= y);
        } else {
            assert forall|y: int| #[trigger] s.contains(y) implies mr <= y by {
                if y != x {
                    assert(r.contains(y));
                }
            }
            assert(s.contains(mr) && forall|y: int| #[trigger] s.contains(y) ==> mr <= y);
        }
    }
}

/// The entries of a finite position map, in ascending position order: what
/// a level-order traversal of the underlying tree yields, since breadth
/// first, left to right, visits heap positions in ascending order.
pub open spec fn map_listing(m: Map<int, (Seq<char>, int)>) -> Seq<(Seq<char>, int)>
    decreases m.dom().len() when m.dom().finite() via map_listing_decreases
{
    if !m.dom().finite() || m.dom().is_empty() {
        Seq::empty()
    } else {
        seq![m[set_min(m.dom())]] + map_listing(m.remove(set_min(m.dom())))
    }
}

#[via_fn]
proof fn map_listing_decreases(m: Map<int, (Seq<char>, int)>) {
    if m.dom().finite() && !m.dom().is_empty() {
        lemma_set_min(m.dom());
    }
}

/// On a map whose positions are exactly `lo .. hi`, the listing reads the
/// entries off in position order.
#[verifier::rlimit(100)]
pub proof fn lemma_map_listing_range(m: Map<int, (Seq<char>, int)>, lo: int, hi: int)
    requires
        lo <= hi,
        m.dom() == set_int_range(lo, hi),
    ensures
        map_listing(m) == Seq::new((hi - lo) as nat, |i: int| m[lo + i]),
    decreases hi - lo,
{
    vstd::set_lib::lemma_int_range(lo, hi);
    if lo == hi {
        assert(m.dom().is_empty());
        assert(map_listing(m) =~= Seq::new(0, |i: int| m[lo + i]));
    } else {
        assert(m.dom().contains(lo));
        assert(!m.dom().is_empty());
        lemma_set_min(m.dom());
        assert(set_min(m.dom()) == lo) by {
            assert(m.dom().contains(lo));
            assert(set_min(m.dom()) <= lo);
            assert(set_int_range(lo, hi).contains(set_min(m.dom())));
        }
        let r = m.remove(lo);
        assert(r.dom() =~= set_int_range(lo + 1, hi));
        lemma_map_listing_range(r, lo + 1, hi);
        assert(map_listing(m) =~= Seq::new((hi - lo) as nat, |i: int| m[lo + i])) by {
            assert(map_listing(m) == seq![m[lo]] + map_listing(r));
            assert(forall|i: int| 0 <= i < hi - lo - 1 ==> r[lo + 1 + i] == #[trigger] m[lo + 1 + i]);
        }
    }
}

/// The listing is as long as the map, and lists exactly the map's entries.
pub proof fn lemma_map_listing_entries(m: Map<int, (Seq<char>, int)>)
    requires
        m.dom().finite(),
    ensures
        map_listing(m).len() == m.dom().len(),
        forall|j: int|
            0 <= j < map_listing(m).len() ==> exists|p: int|
                m.dom().contains(p) && m[p] == #[trigger] map_listing(m)[j],
        forall|p: int|
            m.dom().contains(p) ==> exists|j: int|
                0 <= j < map_listing(m).len() && #[trigger] map_listing(m)[j] == m[p],
    decreases m.dom().len(),
{
    if m.dom().is_empty() {
    } else {
        lemma_set_min(m.dom());
        let mn = set_min(m.dom());
        let r = m.remove(mn);
        lemma_map_listing_entries(r);
        let l = map_listing(m);
        assert(l == seq![m[mn]] + map_listing(r));
        assert forall|j: int| 0 <= j < l.len() implies exists|p: int|
            m.dom().contains(p) && m[p] == #[trigger] l[j] by {
            if j == 0 {
                assert(m.dom().contains(mn) && m[mn] == l[0]);
            } else {
                assert(l[j] == map_listing(r)[j - 1]);
                let p = choose|p: int| r.dom().contains(p) && r[p] == map_listing(r)[j - 1];
                assert(m.dom().contains(p) && m[p] == l[j]);
            }
        }
        assert forall|p: int| m.dom().contains(p) implies exists|j: int|
            0 <= j < l.len() && #[trigger] l[j] == m[p] by {
            if p == mn {
                assert(l[0] == m[p]);
            } else {
                assert(r.dom().contains(p) && r[p] == m[p]);
                let j = choose|j: int|
                    0 <= j < map_listing(r).len() && #[trigger] map_listing(r)[j] == r[p];
                assert(l[j + 1] == m[p]);
            }
        }
    }
}

// ---------------------------------------------------------------------------
// The trusted boundary around the outside search tree.
// ---------------------------------------------------------------------------

#[verifier::external_type_specification]
#[verifier::external_body]
#[verifier::reject_recursive_types(T)]
pub struct ExBinarySearchTree<T: Ord>(BinarySearchTree<T>);

/// The position map of an index tree: each node's entry, keyed by the
/// node's heap position (the root at zero, the children of position `p` at
/// `2p+1` and `2p+2`).
pub uninterp spec fn bst_map(t: BinarySearchTree<KeyValuePair>) -> Map<int, (Seq<char>, int)>;

/// The position map with no entries.
pub open spec fn empty_entry_map() -> Map<int, (Seq<char>, int)> {
    Map::empty()
}

/// The entry a pair stands for: its key's characters and its slot.
pub open spec fn entry_of(kv: KeyValuePair) -> (Seq<char>, int) {
    (kv.key@, kv.value as int)
}

/// The position map after one insertion: the new entry lands where the
/// insertion walk from the root first finds a free position.
pub open spec fn inserted_map(m: Map<int, (Seq<char>, int)>, x: (Seq<char>, int)) -> Map<
    int,
    (Seq<char>, int),
> {
    m.insert(bst_insert_pos(m, x, 0), x)
}

/// Relies on `BinarySearchTree::new`: the fresh tree has no nodes.
#[verifier::external_body]
pub fn bst_new() -> (r: BinarySearchTree<KeyValuePair>)
    ensures
        bst_map(r) == empty_entry_map(),
{
    BinarySearchTree::new()
}

/// Relies on `BinarySearchTree::insert`: the walk from the root compares
/// the new entry with each node by the entry order (`String` order is
/// UTF-8 byte order, which is code-point order), descends left of greater
/// nodes and right of smaller or equal ones, and places the new node at
/// the first free spot — exactly the step `bst_insert_pos` takes on the
/// position map.
#[verifier::external_body]
pub fn bst_insert(t: &mut BinarySearchTree<KeyValuePair>, kv: KeyValuePair)
    ensures
        bst_map(*final(t)) == inserted_map(bst_map(*old(t)), entry_of(kv)),
{
    t.insert(kv);
}

/// Relies on the tree's public `size` field, which counts one per inserted
/// node.
#[verifier::external_body]
pub fn bst_size(t: &BinarySearchTree<KeyValuePair>) -> (n: usize)
    ensures
        n == bst_map(*t).len(),
{
    t.size
}

/// Relies on `BinarySearchTree::level_order`: a breadth-first traversal
/// from the root that pushes each node's left child before its right, and
/// so yields the nodes in ascending heap-position order.
#[verifier::external_body]
pub fn bst_level_order(t: &BinarySearchTree<KeyValuePair>) -> (v: Vec<KeyValuePair>)
    ensures
        v@.map_values(|kv: KeyValuePair| entry_of(kv)) == map_listing(bst_map(*t)),
{
    t.level_order().cloned().collect()
}

} // verus!
