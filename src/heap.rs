//! A binary min-heap with support for removal of arbitrary elements.
//!
//! Every pushed element gets a `Slot`, a handle that can later be passed to
//! `remove` to take that element out wherever it sits in the heap. A slab of
//! handle entries maps each live handle to the element's current position,
//! and retired handles are kept on a free list for reuse.

use vstd::prelude::*;
use crate::key::HeapKey;

verus! {

/// One entry of the handle table.
pub enum SlabSlot {
    /// A retired handle, linked to the next retired one.
    Empty { next: usize },
    /// A live handle, holding its element's position in the heap array.
    Full { value: usize },
}

/// A handle to an element of a `Heap`, valid until that element leaves it.
///
/// Besides the handle id it carries the stamp that the id had when the handle
/// was issued: an id is re-stamped each time it is reused, so a handle whose
/// element has left the heap no longer matches.
pub struct Slot {
    idx: usize,
    stamp: u64,
}

impl Slot {
    /// The handle id.
    pub closed spec fn id(&self) -> usize {
        self.idx
    }

    /// The stamp of the handle id at the time the handle was issued.
    pub closed spec fn stamp(&self) -> u64 {
        self.stamp
    }
}

/// A min-heap of values of `T` whose elements can be removed through handles.
pub struct Heap<T> {
    items: Vec<(T, usize)>,
    index: Vec<SlabSlot>,
    next_index: usize,
    stamps: Vec<u64>,
    free: Ghost<Seq<usize>>,
}

/// The position of the parent of position `i` in the array.
pub open spec fn parent(i: int) -> int {
    (i - 1) / 2
}

/// Position `a` lies on the path from the root down to position `d`.
pub open spec fn is_ancestor(a: int, d: int) -> bool
    decreases d,
{
    if d <= 0 {
        a == d
    } else {
        a == d || is_ancestor(a, parent(d))
    }
}

/// The parent of a position on the path to `d`, other than the root, is on
/// that path too.
proof fn lemma_ancestor_parent(c: int, d: int)
    requires
        is_ancestor(c, d),
        c > 0,
    ensures
        is_ancestor(parent(c), d),
    decreases d,
{
    if d > 0 && c != d {
        lemma_ancestor_parent(c, parent(d));
    } else if d > 0 {
        assert(is_ancestor(parent(d), parent(d)));
    }
}

/// The rank of the value at position `i`.
pub open spec fn rank_at<T: HeapKey>(s: Seq<(T, usize)>, i: int) -> int {
    s[i].0.rank()
}

/// Every element but the root ranks at least as high as its parent.
pub open spec fn heap_ordered<T: HeapKey>(s: Seq<(T, usize)>) -> bool {
    forall|i: int| 0 < i < s.len() ==> #[trigger] rank_at(s, i) >= rank_at(s, parent(i))
}

/// The heap order, except possibly between `k` and its parent; and `k`'s
/// children rank at least as high as `k`'s parent.
pub open spec fn ordered_but_up<T: HeapKey>(s: Seq<(T, usize)>, k: int) -> bool {
    &&& forall|i: int| 0 < i < s.len() && i != k ==> #[trigger] rank_at(s, i) >= rank_at(s, parent(i))
    &&& k > 0 ==> forall|i: int|
        0 < i < s.len() && parent(i) == k ==> #[trigger] rank_at(s, i) >= rank_at(s, parent(k))
}

/// The heap order, except possibly between `k` and its children; and `k`'s
/// children rank at least as high as `k`'s parent.
pub open spec fn ordered_but_down<T: HeapKey>(s: Seq<(T, usize)>, k: int) -> bool {
    &&& forall|i: int|
        0 < i < s.len() && parent(i) != k ==> #[trigger] rank_at(s, i) >= rank_at(s, parent(i))
    &&& k > 0 ==> forall|i: int|
        0 < i < s.len() && parent(i) == k ==> #[trigger] rank_at(s, i) >= rank_at(s, parent(k))
}

/// Each element's handle is live and points back at the element's position,
/// each live handle points at an element holding it, and every link of the
/// free list stays within the table or just past its end.
pub open spec fn links_ok<T>(items: Seq<(T, usize)>, index: Seq<SlabSlot>, next: usize) -> bool {
    &&& forall|i: int|
        0 <= i < items.len() ==> (#[trigger] items[i]).1 < index.len() && index[items[i].1 as int]
            == (SlabSlot::Full { value: i as usize })
    &&& forall|h: int| 0 <= h < index.len() ==> slot_ok(items, index, #[trigger] index[h], h)
    &&& next <= index.len()
}

/// One entry of the handle table: a live one points at an element that
/// holds it, a retired one links within the table or just past its end.
pub open spec fn slot_ok<T>(items: Seq<(T, usize)>, index: Seq<SlabSlot>, e: SlabSlot, h: int) -> bool {
    match e {
        SlabSlot::Full { value } => value < items.len() && items[value as int].1 == h,
        SlabSlot::Empty { next } => next <= index.len(),
    }
}

/// `free` lists the retired handles in free-list order, without repeats,
/// starting at `next` and ending just past the table's end; every retired
/// handle is on it.
pub open spec fn free_ok(index: Seq<SlabSlot>, next: usize, free: Seq<usize>) -> bool {
    &&& free.no_duplicates()
    &&& next == (if free.len() > 0 { free[0] as int } else { index.len() as int })
    &&& forall|k: int|
        0 <= k < free.len() ==> (#[trigger] free[k]) < index.len() && index[free[k] as int] == (
        SlabSlot::Empty { next: if k + 1 < free.len() { free[k + 1] } else { index.len() as usize } })
    &&& forall|h: int| 0 <= h < index.len() && (#[trigger] index[h]) is Empty ==> free.contains(h as usize)
}

/// The two tables have the same length and agree on every retired entry.
pub open spec fn empties_same(a: Seq<SlabSlot>, b: Seq<SlabSlot>) -> bool {
    &&& a.len() == b.len()
    &&& forall|h: int| 0 <= h < a.len() && ((#[trigger] a[h]) is Empty || b[h] is Empty) ==> a[h] == b[h]
}

/// Agreement on retired entries is transitive.
proof fn lemma_empties_trans(a: Seq<SlabSlot>, b: Seq<SlabSlot>, c: Seq<SlabSlot>)
    requires
        empties_same(a, b),
        empties_same(b, c),
    ensures
        empties_same(a, c),
{
    assert forall|h: int| 0 <= h < a.len() && ((#[trigger] a[h]) is Empty || c[h] is Empty) implies a[h] == c[h] by {
        let _ = b[h];
    }
}

/// Changes to live entries alone keep the free list.
proof fn lemma_free_kept(index: Seq<SlabSlot>, index2: Seq<SlabSlot>, next: usize, free: Seq<usize>)
    requires
        free_ok(index, next, free),
        empties_same(index, index2),
    ensures
        free_ok(index2, next, free),
{
    assert forall|h: int| 0 <= h < index2.len() && (#[trigger] index2[h]) is Empty implies free.contains(h as usize) by {
        let _ = index[h];
    }
}

/// Retiring the live handle `h` puts it at the front of the free list.
proof fn lemma_free_retire(index: Seq<SlabSlot>, next: usize, free: Seq<usize>, h: usize)
    requires
        free_ok(index, next, free),
        h < index.len(),
        index[h as int] is Full,
    ensures
        free_ok(index.update(h as int, SlabSlot::Empty { next }), h, seq![h] + free),
{
    let index2 = index.update(h as int, SlabSlot::Empty { next });
    let free2 = seq![h] + free;
    assert(!free.contains(h)) by {
        if free.contains(h) {
            let k = choose|k: int| 0 <= k < free.len() && free[k] == h;
            let _ = free[k];
        }
    }
    assert(free2.no_duplicates()) by {
        assert forall|i: int, j: int| 0 <= i < j < free2.len() implies free2[i] != free2[j] by {
            if i == 0 {
                assert(free.contains(free2[j]));
            }
        }
    }
    assert forall|k: int| 0 <= k < free2.len() implies (#[trigger] free2[k]) < index2.len() && index2[free2[k] as int]
        == (SlabSlot::Empty { next: if k + 1 < free2.len() { free2[k + 1] } else { index2.len() as usize } }) by {
        if k > 0 {
            let _ = free[k - 1];
        }
    }
    assert forall|g: int| 0 <= g < index2.len() && (#[trigger] index2[g]) is Empty implies free2.contains(g as usize) by {
        if g != h {
            let _ = index[g];
            let k = choose|k: int| 0 <= k < free.len() && free[k] == g as usize;
            assert(free2[k + 1] == g as usize);
        } else {
            assert(free2[0] == h);
        }
    }
}

/// Handing out the head of the free list for a new element takes it off
/// the list.
#[verifier::rlimit(50)]
proof fn lemma_free_reuse(index: Seq<SlabSlot>, next: usize, free: Seq<usize>, v: usize)
    requires
        free_ok(index, next, free),
        next < index.len() <= usize::MAX,
    ensures
        free.len() > 0,
        index[next as int] is Empty,
        free_ok(index.update(next as int, SlabSlot::Full { value: v }), index[next as int]->next, free.drop_first()),
{
    let index2 = index.update(next as int, SlabSlot::Full { value: v });
    let free2 = free.drop_first();
    let _ = free[0];
    assert(free2.no_duplicates()) by {
        assert forall|i: int, j: int| 0 <= i < j < free2.len() implies free2[i] != free2[j] by {
            assert(free[i + 1] != free[j + 1]);
        }
    }
    assert(index[next as int]->next == (if free2.len() > 0 { free2[0] as int } else { index2.len() as int }));
    assert forall|k: int| 0 <= k < free2.len() implies (#[trigger] free2[k]) < index2.len() && index2[free2[k] as int]
        == (SlabSlot::Empty { next: if k + 1 < free2.len() { free2[k + 1] } else { index2.len() as usize } }) by {
        let _ = free[k + 1];
    }
    assert forall|g: int| 0 <= g < index2.len() && (#[trigger] index2[g]) is Empty implies free2.contains(g as usize) by {
        let _ = index[g];
        assert(g != next as int);
        let k = choose|k: int| 0 <= k < free.len() && free[k] == g as usize;
        assert(k != 0);
        assert(free2[k - 1] == free[k]);
    }
}

/// With an empty free list, a new entry at the table's end keeps it so.
proof fn lemma_free_grow(index: Seq<SlabSlot>, next: usize, free: Seq<usize>, v: usize)
    requires
        free_ok(index, next, free),
        next == index.len() < usize::MAX,
    ensures
        free_ok(index.push(SlabSlot::Full { value: v }), (next + 1) as usize, free),
        free.len() == 0,
{
    if free.len() > 0 {
        let _ = free[0];
    }
    let index2 = index.push(SlabSlot::Full { value: v });
    assert(index2.len() == next + 1);
    assert forall|g: int| 0 <= g < index2.len() && (#[trigger] index2[g]) is Empty implies free.contains(g as usize) by {
        let _ = index[g];
    }
}

/// The live handles, each with the value of its element.
pub open spec fn handles<T>(items: Seq<(T, usize)>, index: Seq<SlabSlot>) -> Map<usize, T> {
    Map::new(
        |h: usize| h < index.len() && index[h as int] is Full,
        |h: usize| items[index[h as int]->value as int].0,
    )
}

/// `s` with the entries at `a` and `b` exchanged.
pub open spec fn swapped<A>(s: Seq<A>, a: int, b: int) -> Seq<A> {
    s.update(a, s[b]).update(b, s[a])
}

/// Only finitely many handles are live.
proof fn lemma_handles_finite<T>(items: Seq<(T, usize)>, index: Seq<SlabSlot>)
    ensures
        handles(items, index).dom().finite(),
{
    let range = vstd::set_lib::set_int_range(0, index.len() as int);
    vstd::set_lib::lemma_int_range(0, index.len() as int);
    range.lemma_map_finite(|i: int| i as usize);
    let dom = handles(items, index).dom();
    assert forall|h: usize| dom.contains(h) implies range.map(|i: int| i as usize).contains(h) by {
        assert(range.contains(h as int));
    }
    vstd::set_lib::lemma_set_subset_finite(range.map(|i: int| i as usize), dom);
}

/// The number of live entries in the handle table.
pub open spec fn full_count(index: Seq<SlabSlot>) -> nat
    decreases index.len(),
{
    if index.len() == 0 {
        0
    } else {
        full_count(index.drop_last()) + if index.last() is Full { 1nat } else { 0nat }
    }
}

/// The positions of the live entries in the handle table.
pub open spec fn full_set(index: Seq<SlabSlot>) -> Set<int> {
    Set::new(|h: int| 0 <= h < index.len() && index[h] is Full)
}

proof fn lemma_full_count(index: Seq<SlabSlot>)
    ensures
        full_set(index).finite(),
        full_set(index).len() == full_count(index),
    decreases index.len(),
{
    if index.len() == 0 {
        assert(full_set(index) =~= Set::<int>::empty());
    } else {
        let prev = index.drop_last();
        lemma_full_count(prev);
        let last = index.len() - 1;
        if index.last() is Full {
            assert(full_set(index) =~= full_set(prev).insert(last));
        } else {
            assert(full_set(index) =~= full_set(prev));
        }
    }
}

/// When elements and live handles point at each other, there are as many
/// elements as live entries in the table.
proof fn lemma_count_matches<T>(items: Seq<(T, usize)>, index: Seq<SlabSlot>)
    requires
        items.len() <= usize::MAX,
        forall|i: int|
            0 <= i < items.len() ==> (#[trigger] items[i]).1 < index.len() && index[items[i].1 as int]
                == (SlabSlot::Full { value: i as usize }),
        forall|h: int|
            0 <= h < index.len() && (#[trigger] index[h]) is Full ==> index[h]->value < items.len()
                && items[index[h]->value as int].1 == h,
    ensures
        items.len() == full_count(index),
{
    lemma_full_count(index);
    let x = full_set(index);
    let y = vstd::set_lib::set_int_range(0, items.len() as int);
    let f = |h: int| index[h]->value as int;
    assert(x.map(f) =~= y) by {
        assert forall|i: int| y.contains(i) implies x.map(f).contains(i) by {
            let h = items[i].1 as int;
            assert(x.contains(h));
            assert(f(h) == i);
        }
    }
    assert(vstd::relations::injective_on(f, x)) by {
        assert forall|a: int, b: int| x.contains(a) && x.contains(b) && #[trigger] f(a) == #[trigger] f(b) implies a == b by {
            let _ = index[a];
            let _ = index[b];
        }
    }
    vstd::set_lib::lemma_map_size(x, y, f);
    vstd::set_lib::lemma_int_range(0, items.len() as int);
}

/// Swapping two elements and repointing their two handles keeps the links
/// and the value of every handle.
proof fn lemma_swap_links<T>(items: Seq<(T, usize)>, index: Seq<SlabSlot>, next: usize, a: int, b: int)
    requires
        links_ok(items, index, next),
        0 <= a < b < items.len() <= usize::MAX,
    ensures
        ({
            let items2 = swapped(items, a, b);
            let index2 = index.update(items[a].1 as int, SlabSlot::Full { value: b as usize }).update(
                items[b].1 as int,
                SlabSlot::Full { value: a as usize },
            );
            &&& links_ok(items2, index2, next)
            &&& handles(items2, index2) == handles(items, index)
            &&& empties_same(index, index2)
        }),
{
    let items2 = swapped(items, a, b);
    let ha = items[a].1 as int;
    let hb = items[b].1 as int;
    let index2 = index.update(ha, SlabSlot::Full { value: b as usize }).update(
        hb,
        SlabSlot::Full { value: a as usize },
    );
    let _ = items[a];
    let _ = items[b];
    assert(ha != hb);
    assert forall|i: int| 0 <= i < items2.len() implies (#[trigger] items2[i]).1 < index2.len()
        && index2[items2[i].1 as int] == (SlabSlot::Full { value: i as usize }) by {
        let _ = items[i];
    }
    assert forall|h: int| 0 <= h < index2.len() implies slot_ok(items2, index2, #[trigger] index2[h], h) by {
        assert(slot_ok(items, index, index[h], h));
    }
    assert forall|h: usize| #[trigger] handles(items2, index2).dom().contains(h) == handles(items, index).dom().contains(h) by {
        if h < index.len() {
            assert(slot_ok(items, index, index[h as int], h as int));
        }
    }
    assert forall|h: usize| #[trigger] handles(items2, index2).dom().contains(h) implies handles(items2, index2)[h]
        == handles(items, index)[h] by {
        assert(slot_ok(items, index, index[h as int], h as int));
    }
    assert(handles(items2, index2) =~= handles(items, index));
    assert forall|h: int| 0 <= h < index.len() && ((#[trigger] index[h]) is Empty || index2[h] is Empty) implies index[h] == index2[h] by {
        let _ = index[ha];
        let _ = index[hb];
    }
}

/// Swapping an element that ranks below its parent with that parent moves
/// the one possible fault of the order up to the parent's position.
proof fn lemma_up_step<T: HeapKey>(s: Seq<(T, usize)>, k: int)
    requires
        ordered_but_up(s, k),
        0 < k < s.len(),
        rank_at(s, k) < rank_at(s, parent(k)),
    ensures
        ordered_but_up(swapped(s, parent(k), k), parent(k)),
{
    let p = parent(k);
    let t = swapped(s, p, k);
    assert forall|i: int| 0 < i < t.len() && i != p implies #[trigger] rank_at(t, i) >= rank_at(t, parent(i)) by {
        if i == k {
        } else if parent(i) == k {
            assert(rank_at(s, i) >= rank_at(s, p));
        } else if parent(i) == p {
            assert(rank_at(s, i) >= rank_at(s, p));
        } else {
            assert(rank_at(s, i) >= rank_at(s, parent(i)));
        }
    }
    if p > 0 {
        assert forall|i: int| 0 < i < t.len() && parent(i) == p implies #[trigger] rank_at(t, i)
            >= rank_at(t, parent(p)) by {
            assert(rank_at(s, p) >= rank_at(s, parent(p)));
            if i != k {
                assert(rank_at(s, i) >= rank_at(s, p));
            }
        }
    }
}

/// Once the element at `k` ranks at least as high as its parent, or `k` is
/// the root, the whole array is in heap order.
proof fn lemma_up_done<T: HeapKey>(s: Seq<(T, usize)>, k: int)
    requires
        ordered_but_up(s, k),
        k == 0 || (0 < k < s.len() && rank_at(s, k) >= rank_at(s, parent(k))),
    ensures
        heap_ordered(s),
{
}

/// Swapping an element with its smallest child, when that child ranks below
/// it, moves the one possible fault of the order down to the child.
proof fn lemma_down_step<T: HeapKey>(s: Seq<(T, usize)>, k: int, m: int)
    requires
        ordered_but_down(s, k),
        0 <= k < m < s.len(),
        parent(m) == k,
        rank_at(s, m) < rank_at(s, k),
        forall|i: int| 0 < i < s.len() && parent(i) == k ==> rank_at(s, m) <= #[trigger] rank_at(s, i),
    ensures
        ordered_but_down(swapped(s, k, m), m),
{
    let t = swapped(s, k, m);
    assert forall|i: int| 0 < i < t.len() && parent(i) != m implies #[trigger] rank_at(t, i) >= rank_at(t, parent(i)) by {
        if i == m {
        } else if i == k {
            assert(rank_at(s, m) >= rank_at(s, parent(k)));
        } else if parent(i) == k {
            assert(rank_at(s, m) <= rank_at(s, i));
        } else {
            assert(rank_at(s, i) >= rank_at(s, parent(i)));
        }
    }
    assert forall|i: int| 0 < i < t.len() && parent(i) == m implies #[trigger] rank_at(t, i)
        >= rank_at(t, parent(m)) by {
        assert(rank_at(s, i) >= rank_at(s, parent(i)));
    }
}

/// The children of position `k` are `2k + 1` and `2k + 2`.
proof fn lemma_children(k: int)
    requires
        0 <= k,
    ensures
        parent(2 * k + 1) == k,
        parent(2 * k + 2) == k,
        forall|i: int| 0 < i && #[trigger] parent(i) == k ==> i == 2 * k + 1 || i == 2 * k + 2,
{
}

/// Once no child of `k` ranks below it, the whole array is in heap order.
proof fn lemma_down_done<T: HeapKey>(s: Seq<(T, usize)>, k: int)
    requires
        ordered_but_down(s, k),
        forall|i: int| 0 < i < s.len() && parent(i) == k ==> #[trigger] rank_at(s, i) >= rank_at(s, k),
    ensures
        heap_ordered(s),
{
}

/// `v` ranks no higher than any value held in `m`.
pub open spec fn is_min_of<T: HeapKey>(m: Map<usize, T>, v: T) -> bool {
    forall|h: usize| m.contains_key(h) ==> v.rank() <= (#[trigger] m[h]).rank()
}

/// `after` is `before` with a least value `v` taken out under some handle.
pub open spec fn pops_to<T: HeapKey>(before: Map<usize, T>, v: T, after: Map<usize, T>) -> bool {
    exists|h: usize|
        before.contains_key(h) && before[h] == v && after == before.remove(h) && is_min_of(before, v)
}

/// Two pops in a row hand out values in non-decreasing order of rank.
pub proof fn lemma_pops_non_decreasing<T: HeapKey>(
    m0: Map<usize, T>,
    v1: T,
    m1: Map<usize, T>,
    v2: T,
    m2: Map<usize, T>,
)
    requires
        pops_to(m0, v1, m1),
        pops_to(m1, v2, m2),
    ensures
        v1.rank() <= v2.rank(),
{
    let h1 = choose|h: usize|
        m0.contains_key(h) && m0[h] == v1 && m1 == m0.remove(h) && is_min_of(m0, v1);
    let h2 = choose|h: usize|
        m1.contains_key(h) && m1[h] == v2 && m2 == m1.remove(h) && is_min_of(m1, v2);
    assert(m0.contains_key(h2) && m0[h2] == v2);
}

/// A pop takes exactly one value out: the values left, together with the
/// one handed out, are the values held before.
pub proof fn lemma_pop_keeps_rest<T: HeapKey>(before: Map<usize, T>, v: T, after: Map<usize, T>)
    requires
        pops_to(before, v, after),
        before.dom().finite(),
    ensures
        after.len() + 1 == before.len(),
        exists|h: usize| before == after.insert(h, v) && !after.contains_key(h),
{
    let h = choose|h: usize|
        before.contains_key(h) && before[h] == v && after == before.remove(h) && is_min_of(before, v);
    assert(before =~= after.insert(h, v));
    assert(after.dom() =~= before.dom().remove(h));
}

/// In heap order, no element ranks below the root.
proof fn lemma_root_min<T: HeapKey>(s: Seq<(T, usize)>, i: int)
    requires
        heap_ordered(s),
        0 <= i < s.len(),
    ensures
        rank_at(s, 0) <= rank_at(s, i),
    decreases i,
{
    if i > 0 {
        lemma_root_min(s, parent(i));
    }
}

/// The root's value is a minimum of the live handles' values, and there are
/// live handles exactly when there are elements.
proof fn lemma_root_is_min<T: HeapKey>(items: Seq<(T, usize)>, index: Seq<SlabSlot>, next: usize)
    requires
        links_ok(items, index, next),
        heap_ordered(items),
    ensures
        items.len() == 0 <==> handles(items, index).dom() == Set::<usize>::empty(),
        items.len() > 0 ==> handles(items, index).contains_key(items[0].1) && handles(items, index)[items[0].1] == items[0].0
            && is_min_of(handles(items, index), items[0].0),
{
    let m = handles(items, index);
    if items.len() == 0 {
        assert forall|h: usize| !m.dom().contains(h) by {
            if h < index.len() {
                assert(slot_ok(items, index, index[h as int], h as int));
            }
        }
        assert(m.dom() =~= Set::<usize>::empty());
    } else {
        let _ = items[0];
        assert(m.contains_key(items[0].1));
        assert forall|h: usize| m.contains_key(h) implies items[0].0.rank() <= (#[trigger] m[h]).rank() by {
            assert(slot_ok(items, index, index[h as int], h as int));
            lemma_root_min(items, index[h as int]->value as int);
        }
    }
}

/// Taking the element of live handle `h` out by a swap with the last element,
/// retiring `h` and repointing the moved element's handle, keeps the links,
/// drops `h` from the live handles, and leaves at most one fault of the order,
/// at the hole, of the kind that the moved element's rank tells.
#[verifier::rlimit(100)]
proof fn lemma_remove_links<T: HeapKey>(items: Seq<(T, usize)>, index: Seq<SlabSlot>, next: usize, h: usize)
    requires
        links_ok(items, index, next),
        heap_ordered(items),
        items.len() <= usize::MAX,
        handles(items, index).contains_key(h),
    ensures
        ({
            let idx = index[h as int]->value as int;
            let items2 = items.update(idx, items.last()).drop_last();
            let index1 = index.update(h as int, SlabSlot::Empty { next });
            let index2 = if idx < items2.len() {
                index1.update(items.last().1 as int, SlabSlot::Full { value: idx as usize })
            } else {
                index1
            };
            &&& idx < items.len()
            &&& items[idx].1 == h
            &&& links_ok(items2, index2, h)
            &&& handles(items2, index2) == handles(items, index).remove(h)
            &&& idx < items2.len() ==> items.last().1 < index1.len() && index1[items.last().1 as int] is Full
            &&& idx < items2.len() && rank_at(items2, idx) < items[idx].0.rank() ==> ordered_but_up(items2, idx)
            &&& idx < items2.len() && !(rank_at(items2, idx) < items[idx].0.rank()) ==> ordered_but_down(items2, idx)
            &&& idx >= items2.len() ==> heap_ordered(items2)
        }),
{
    let idx = index[h as int]->value as int;
    assert(slot_ok(items, index, index[h as int], h as int));
    let n = items.len() - 1;
    let items2 = items.update(idx, items.last()).drop_last();
    let index1 = index.update(h as int, SlabSlot::Empty { next });
    let hl = items.last().1;
    let _ = items[n];
    let index2 = if idx < items2.len() {
        index1.update(hl as int, SlabSlot::Full { value: idx as usize })
    } else {
        index1
    };
    assert(idx < n ==> hl != h);
    assert forall|i: int| 0 <= i < items2.len() implies (#[trigger] items2[i]).1 < index2.len()
        && index2[items2[i].1 as int] == (SlabSlot::Full { value: i as usize }) by {
        let _ = items[i];
    }
    assert forall|g: int| 0 <= g < index2.len() implies slot_ok(items2, index2, #[trigger] index2[g], g) by {
        assert(slot_ok(items, index, index[g], g));
    }
    assert forall|g: usize| #[trigger] handles(items2, index2).dom().contains(g) == handles(items, index).remove(h).dom().contains(g) by {
        if g < index.len() {
            assert(slot_ok(items, index, index[g as int], g as int));
        }
    }
    assert forall|g: usize| #[trigger] handles(items2, index2).dom().contains(g) implies handles(items2, index2)[g]
        == handles(items, index).remove(h)[g] by {
        assert(slot_ok(items, index, index[g as int], g as int));
    }
    assert(handles(items2, index2) =~= handles(items, index).remove(h));
    if idx < items2.len() {
        if rank_at(items2, idx) < items[idx].0.rank() {
            assert forall|i: int| 0 < i < items2.len() && i != idx implies #[trigger] rank_at(items2, i)
                >= rank_at(items2, parent(i)) by {
                assert(rank_at(items, i) >= rank_at(items, parent(i)));
            }
            if idx > 0 {
                assert forall|i: int| 0 < i < items2.len() && parent(i) == idx implies #[trigger] rank_at(items2, i)
                    >= rank_at(items2, parent(idx)) by {
                    assert(rank_at(items, i) >= rank_at(items, idx));
                    assert(rank_at(items, idx) >= rank_at(items, parent(idx)));
                }
            }
        } else {
            lemma_root_min(items, 0);
            assert forall|i: int| 0 < i < items2.len() && parent(i) != idx implies #[trigger] rank_at(items2, i)
                >= rank_at(items2, parent(i)) by {
                assert(rank_at(items, i) >= rank_at(items, parent(i)));
                if i == idx {
                    assert(rank_at(items, idx) >= rank_at(items, parent(idx)));
                }
            }
            if idx > 0 {
                assert forall|i: int| 0 < i < items2.len() && parent(i) == idx implies #[trigger] rank_at(items2, i)
                    >= rank_at(items2, parent(idx)) by {
                    assert(rank_at(items, i) >= rank_at(items, idx));
                    assert(rank_at(items, idx) >= rank_at(items, parent(idx)));
                }
            }
        }
    } else {
        assert forall|i: int| 0 < i < items2.len() implies #[trigger] rank_at(items2, i) >= rank_at(items2, parent(i)) by {
            assert(rank_at(items, i) >= rank_at(items, parent(i)));
        }
    }
}

impl<T: HeapKey> Heap<T> {
    /// The heap's invariant: the handle table and the array agree, and the
    /// array is in heap order.
    pub closed spec fn wf(&self) -> bool {
        &&& links_ok(self.items@, self.index@, self.next_index)
        &&& free_ok(self.index@, self.next_index, self.free@)
        &&& self.stamps@.len() == self.index@.len()
        &&& heap_ordered(self.items@)
    }

    /// The live handles, each with the value of its element.
    pub closed spec fn view(&self) -> Map<usize, T> {
        handles(self.items@, self.index@)
    }

    /// The retired handle ids, in the order in which `push` will reuse them.
    pub closed spec fn free_list(&self) -> Seq<usize> {
        self.free@
    }

    /// `s` is a handle to an element that is still in the heap.
    pub closed spec fn live(&self, s: &Slot) -> bool {
        &&& self@.contains_key(s.idx)
        &&& s.idx < self.stamps@.len()
        &&& self.stamps@[s.idx as int] == s.stamp
    }

    /// The current stamp of handle id `id`.
    pub closed spec fn stamp_of(&self, id: usize) -> u64 {
        self.stamps@[id as int]
    }

    /// A live handle carries the current stamp of its id.
    pub proof fn lemma_live_stamp(&self, s: &Slot)
        requires
            self.live(s),
        ensures
            s.stamp() == self.stamp_of(s.id()),
            s.id() < self.handle_count(),
    {
    }

    /// The number of handle ids issued so far, live or retired.
    pub closed spec fn handle_count(&self) -> nat {
        self.index@.len()
    }

    /// An empty heap.
    pub fn new() -> (r: Heap<T>)
        ensures
            r.wf(),
            r@ == Map::<usize, T>::empty(),
            r@.dom().finite(),
            r.handle_count() == 0,
            r.free_list() == Seq::<usize>::empty(),
    {
        let r = Heap {
            items: Vec::new(),
            index: Vec::new(),
            next_index: 0,
            stamps: Vec::new(),
            free: Ghost(Seq::empty()),
        };
        assert(r@ =~= Map::<usize, T>::empty());
        r
    }

    /// Pushes `t` onto the heap and returns a handle to it, which stays
    /// valid for `remove` until the element leaves the heap.
    pub fn push(&mut self, t: T) -> (r: Slot)
        requires
            old(self).wf(),
            old(self).handle_count() < usize::MAX,
        ensures
            final(self).wf(),
            !old(self)@.contains_key(r.id()),
            final(self)@ == old(self)@.insert(r.id(), t),
            final(self)@.dom().finite(),
            final(self).live(&r),
            forall|s: &Slot| old(self).live(s) ==> #[trigger] final(self).live(s),
            forall|s: &Slot|
                #[trigger] final(self).live(s) && !old(self).live(s) ==> s.id() == r.id() && s.stamp() == r.stamp(),
            forall|id: usize|
                id < old(self).handle_count() && id != r.id() ==> #[trigger] final(self).stamp_of(id) == old(self).stamp_of(id),
            old(self).free_list().len() > 0 ==> {
                &&& r.id() == old(self).free_list()[0]
                &&& r.stamp() as int == (old(self).stamp_of(r.id()) as int + 1) % 0x1_0000_0000_0000_0000
                &&& final(self).free_list() == old(self).free_list().drop_first()
                &&& final(self).handle_count() == old(self).handle_count()
            },
            old(self).free_list().len() == 0 ==> {
                &&& r.id() == old(self).handle_count()
                &&& final(self).free_list() == old(self).free_list()
                &&& final(self).handle_count() == old(self).handle_count() + 1
            },
    {
        let len = self.items.len();
        let ghost old_items = self.items@;
        let ghost old_index = self.index@;
        let slot = SlabSlot::Full { value: len };
        let slot_idx = if self.next_index == self.index.len() {
            proof {
                lemma_free_grow(self.index@, self.next_index, self.free@, len);
            }
            self.next_index = self.next_index + 1;
            self.index.push(slot);
            self.stamps.push(0);
            self.index.len() - 1
        } else {
            proof {
                lemma_free_reuse(self.index@, self.next_index, self.free@, len);
            }
            let next = match self.index[self.next_index] {
                SlabSlot::Empty { next } => next,
                // never taken: the head of the free list is a retired entry
                SlabSlot::Full { .. } => self.index.len(),
            };
            let slot_idx = self.next_index;
            self.index.set(slot_idx, slot);
            self.next_index = next;
            self.free = Ghost(self.free@.drop_first());
            let stamp = self.stamps[slot_idx].wrapping_add(1);
            self.stamps.set(slot_idx, stamp);
            slot_idx
        };
        self.items.push((t, slot_idx));
        proof {
            let items = self.items@;
            let index = self.index@;
            assert(!old(self)@.contains_key(slot_idx));
            assert forall|i: int| 0 <= i < items.len() implies (#[trigger] items[i]).1 < index.len()
                && index[items[i].1 as int] == (SlabSlot::Full { value: i as usize }) by {
                if i < len {
                    let _ = old_items[i];
                }
            }
            assert forall|g: int| 0 <= g < index.len() implies slot_ok(items, index, #[trigger] index[g], g) by {
                if g < old_index.len() {
                    assert(slot_ok(old_items, old_index, old_index[g], g));
                }
            }
            assert forall|g: usize| #[trigger] handles(items, index).dom().contains(g)
                == old(self)@.insert(slot_idx, t).dom().contains(g) by {
                if g < old_index.len() {
                    assert(slot_ok(old_items, old_index, old_index[g as int], g as int));
                }
            }
            assert forall|g: usize| #[trigger] handles(items, index).dom().contains(g) implies handles(items, index)[g]
                == old(self)@.insert(slot_idx, t)[g] by {
                if g < old_index.len() && g != slot_idx {
                    assert(slot_ok(old_items, old_index, old_index[g as int], g as int));
                }
            }
            assert(handles(items, index) =~= old(self)@.insert(slot_idx, t));
            assert forall|i: int| 0 < i < items.len() && i != len implies #[trigger] rank_at(items, i)
                >= rank_at(items, parent(i)) by {
                assert(rank_at(old_items, i) >= rank_at(old_items, parent(i)));
            }
        }
        self.percolate_up(len);
        proof {
            lemma_handles_finite(self.items@, self.index@);
        }
        Slot { idx: slot_idx, stamp: self.stamps[slot_idx] }
    }

    /// The least value in the heap, or `None` when it is empty.
    pub fn peek(&self) -> (r: Option<&T>)
        requires
            self.wf(),
        ensures
            r is None <==> self@.dom() == Set::<usize>::empty(),
            r matches Some(v) ==> (exists|h: usize| self@.contains_key(h) && self@[h] == *v) && is_min_of(
                self@,
                *v,
            ),
    {
        proof {
            lemma_root_is_min(self.items@, self.index@, self.next_index);
        }
        if self.items.len() == 0 {
            None
        } else {
            Some(&self.items[0].0)
        }
    }

    /// Removes and returns the least value in the heap, or `None` when it is
    /// empty, leaving the heap unchanged.
    pub fn pop(&mut self) -> (r: Option<T>)
        requires
            old(self).wf(),
        ensures
            final(self).wf(),
            final(self).handle_count() == old(self).handle_count(),
            r is None <==> old(self)@.dom() == Set::<usize>::empty(),
            final(self)@.dom().finite(),
            r is None ==> final(self)@ == old(self)@ && final(self).free_list() == old(self).free_list(),
            r matches Some(v) ==> {
                &&& pops_to(old(self)@, v, final(self)@)
                &&& final(self).free_list().len() > 0
                &&& final(self).free_list().drop_first() == old(self).free_list()
                &&& old(self)@.contains_key(final(self).free_list()[0])
                &&& old(self)@[final(self).free_list()[0]] == v
                &&& final(self)@ == old(self)@.remove(final(self).free_list()[0])
            },
            forall|s: &Slot|
                old(self).live(s) && !(r is Some && s.id() == final(self).free_list()[0]) ==> #[trigger] final(self).live(s),
            forall|id: usize| #[trigger] final(self).stamp_of(id) == old(self).stamp_of(id),
    {
        proof {
            lemma_root_is_min(self.items@, self.index@, self.next_index);
        }
        if self.items.len() == 0 {
            proof {
                lemma_handles_finite(self.items@, self.index@);
            }
            return None;
        }
        let h0 = self.items[0].1;
        let slot = Slot { idx: h0, stamp: self.stamps[h0] };
        let ghost h = slot.idx;
        let v = self.remove(slot);
        assert(old(self)@.contains_key(h) && old(self)@[h] == v && self@ == old(self)@.remove(h));
        assert(self.free_list()[0] == h);
        assert((seq![h] + old(self).free_list()).drop_first() =~= old(self).free_list());
        Some(v)
    }

    /// Removes the element that `slot` was handed out for, wherever it sits
    /// in the heap, and returns its value. Its handle id goes to the front of
    /// the free list.
    pub fn remove(&mut self, slot: Slot) -> (r: T)
        requires
            old(self).wf(),
            old(self).live(&slot),
        ensures
            final(self).wf(),
            final(self).handle_count() == old(self).handle_count(),
            r == old(self)@[slot.id()],
            final(self)@ == old(self)@.remove(slot.id()),
            final(self)@.dom().finite(),
            final(self).free_list() == seq![slot.id()] + old(self).free_list(),
            forall|s: &Slot| old(self).live(s) && s.id() != slot.id() ==> #[trigger] final(self).live(s),
            forall|id: usize| #[trigger] final(self).stamp_of(id) == old(self).stamp_of(id),
    {
        let h = slot.idx;
        let len = self.items.len();
        proof {
            lemma_remove_links(self.items@, self.index@, self.next_index, h);
        }
        let idx = match self.index[h] {
            SlabSlot::Full { value } => if self.stamps[h] == slot.stamp {
                value
            } else {
                len
            },
            SlabSlot::Empty { .. } => len,
        };
        // `idx == len` only for a slot that is not live, which the contract
        // rules out; from an unverified caller it makes `swap_remove` panic
        // before anything is changed
        let (item, _) = self.items.swap_remove(idx);
        proof {
            lemma_free_retire(self.index@, self.next_index, self.free@, h);
        }
        self.index.set(h, SlabSlot::Empty { next: self.next_index });
        self.next_index = h;
        self.free = Ghost(seq![h] + self.free@);
        if idx < self.items.len() {
            let ghost before = self.index@;
            set_index(&mut self.index, self.items[idx].1, idx);
            proof {
                assert(empties_same(before, self.index@));
                lemma_free_kept(before, self.index@, self.next_index, self.free@);
            }
            if self.items[idx].0.less_than(&item) {
                self.percolate_up(idx);
            } else {
                self.percolate_down(idx);
            }
        }
        proof {
            lemma_handles_finite(self.items@, self.index@);
        }
        item
    }

    /// The array is in heap order, every element's handle points back at its
    /// position, every live handle points at an element that holds it, and
    /// there are as many elements as live handles.
    pub closed spec fn consistent(&self) -> bool {
        &&& heap_ordered(self.items@)
        &&& forall|i: int|
            0 <= i < self.items@.len() ==> (#[trigger] self.items@[i]).1 < self.index@.len()
                && self.index@[self.items@[i].1 as int] == (SlabSlot::Full { value: i as usize })
        &&& forall|h: int|
            0 <= h < self.index@.len() && (#[trigger] self.index@[h]) is Full ==> self.index@[h]->value
                < self.items@.len() && self.items@[self.index@[h]->value as int].1 == h
        &&& self.items@.len() == full_count(self.index@)
    }

    /// Re-checks, in linear time, that the array is in heap order and that
    /// every element's handle points back at its position. This holds of every
    /// heap that the operations above produce; the check is a diagnostic.
    pub fn is_consistent(&self) -> (r: bool)
        ensures
            r == self.consistent(),
            self.wf() ==> r,
    {
        let len = self.items.len();
        let mut i: usize = 0;
        while i < len
            invariant
                len == self.items@.len(),
                i <= len,
                forall|j: int|
                    0 <= j < i ==> (#[trigger] self.items@[j]).1 < self.index@.len()
                        && self.index@[self.items@[j].1 as int] == (SlabSlot::Full { value: j as usize }),
                forall|j: int| 0 < j < i ==> #[trigger] rank_at(self.items@, j) >= rank_at(self.items@, parent(j)),
            decreases len - i,
        {
            let h = self.items[i].1;
            if h >= self.index.len() {
                return false;
            }
            match self.index[h] {
                SlabSlot::Full { value } => {
                    if value != i {
                        return false;
                    }
                },
                SlabSlot::Empty { .. } => {
                    return false;
                },
            }
            if i > 0 && self.items[i].0.less_than(&self.items[(i - 1) / 2].0) {
                assert(rank_at(self.items@, i as int) < rank_at(self.items@, parent(i as int)));
                return false;
            }
            i = i + 1;
        }
        let n = self.index.len();
        let mut h: usize = 0;
        let mut count: usize = 0;
        while h < n
            invariant
                len == self.items@.len(),
                n == self.index@.len(),
                h <= n,
                forall|i: int|
                    0 <= i < len ==> (#[trigger] self.items@[i]).1 < self.index@.len()
                        && self.index@[self.items@[i].1 as int] == (SlabSlot::Full { value: i as usize }),
                forall|j: int| 0 < j < len ==> #[trigger] rank_at(self.items@, j) >= rank_at(self.items@, parent(j)),
                forall|g: int|
                    0 <= g < h && (#[trigger] self.index@[g]) is Full ==> self.index@[g]->value < len
                        && self.items@[self.index@[g]->value as int].1 == g,
                count == full_count(self.index@.subrange(0, h as int)),
                count <= h,
            decreases n - h,
        {
            assert(self.index@.subrange(0, h + 1).drop_last() =~= self.index@.subrange(0, h as int));
            if let SlabSlot::Full { value } = self.index[h] {
                if value >= len || self.items[value].1 != h {
                    proof {
                        if self.wf() {
                            assert(slot_ok(self.items@, self.index@, self.index@[h as int], h as int));
                        }
                    }
                    return false;
                }
                count = count + 1;
            }
            h = h + 1;
        }
        assert(self.index@.subrange(0, n as int) =~= self.index@);
        proof {
            if self.wf() {
                assert forall|g: int|
                    0 <= g < self.index@.len() && (#[trigger] self.index@[g]) is Full implies self.index@[g]->value
                        < self.items@.len() && self.items@[self.index@[g]->value as int].1 == g by {
                    assert(slot_ok(self.items@, self.index@, self.index@[g], g));
                }
                lemma_count_matches(self.items@, self.index@);
            }
        }
        count == len
    }

    /// Moves the element at `idx` up until its parent ranks no higher.
    fn percolate_up(&mut self, idx: usize) -> (r: usize)
        requires
            links_ok(old(self).items@, old(self).index@, old(self).next_index),
            free_ok(old(self).index@, old(self).next_index, old(self).free@),
            old(self).stamps@.len() == old(self).index@.len(),
            ordered_but_up(old(self).items@, idx as int),
            idx < old(self).items@.len(),
        ensures
            final(self).wf(),
            final(self).view() == old(self).view(),
            final(self).items@.len() == old(self).items@.len(),
            final(self).index@.len() == old(self).index@.len(),
            final(self).next_index == old(self).next_index,
            final(self).free == old(self).free,
            final(self).stamps == old(self).stamps,
            empties_same(old(self).index@, final(self).index@),
            r <= idx,
            is_ancestor(r as int, idx as int),
            final(self).items@[r as int] == old(self).items@[idx as int],
            forall|j: int|
                0 <= j < old(self).items@.len() && !(r <= j && is_ancestor(j, idx as int)) ==> #[trigger] final(self).items@[j]
                    == old(self).items@[j],
    {
        let start = idx;
        let mut idx = idx;
        loop
            invariant
                links_ok(self.items@, self.index@, self.next_index),
                ordered_but_up(self.items@, idx as int),
                idx < self.items@.len(),
                self.view() == old(self).view(),
                self.items@.len() == old(self).items@.len(),
                self.index@.len() == old(self).index@.len(),
                self.next_index == old(self).next_index,
                self.free == old(self).free,
                self.stamps == old(self).stamps,
                empties_same(old(self).index@, self.index@),
                idx <= start,
                is_ancestor(idx as int, start as int),
                self.items@[idx as int] == old(self).items@[start as int],
                forall|j: int|
                    0 <= j < old(self).items@.len() && !(idx <= j && is_ancestor(j, start as int)) ==> #[trigger] self.items@[j]
                        == old(self).items@[j],
            ensures
                heap_ordered(self.items@),
                idx < self.items@.len(),
                idx <= start,
                is_ancestor(idx as int, start as int),
                self.items@[idx as int] == old(self).items@[start as int],
                forall|j: int|
                    0 <= j < old(self).items@.len() && !(idx <= j && is_ancestor(j, start as int)) ==> #[trigger] self.items@[j]
                        == old(self).items@[j],
            decreases idx,
        {
            if idx == 0 {
                proof {
                    lemma_up_done(self.items@, 0);
                }
                break;
            }
            let parent = (idx - 1) / 2;
            if !self.items[idx].0.less_than(&self.items[parent].0) {
                proof {
                    lemma_up_done(self.items@, idx as int);
                }
                break;
            }
            proof {
                lemma_up_step(self.items@, idx as int);
                lemma_ancestor_parent(idx as int, start as int);
                assert(is_ancestor(idx as int, idx as int));
            }
            let ghost before = self.index@;
            self.swap_items(parent, idx);
            proof {
                lemma_empties_trans(old(self).index@, before, self.index@);
            }
            idx = parent;
        }
        proof {
            lemma_free_kept(old(self).index@, self.index@, self.next_index, self.free@);
        }
        idx
    }

    /// Moves the element at `idx` down until no child ranks below it.
    #[verifier::rlimit(40)]
    fn percolate_down(&mut self, idx: usize) -> (r: usize)
        requires
            links_ok(old(self).items@, old(self).index@, old(self).next_index),
            free_ok(old(self).index@, old(self).next_index, old(self).free@),
            old(self).stamps@.len() == old(self).index@.len(),
            ordered_but_down(old(self).items@, idx as int),
            idx < old(self).items@.len(),
        ensures
            final(self).wf(),
            final(self).view() == old(self).view(),
            final(self).items@.len() == old(self).items@.len(),
            final(self).index@.len() == old(self).index@.len(),
            final(self).next_index == old(self).next_index,
            final(self).free == old(self).free,
            final(self).stamps == old(self).stamps,
            empties_same(old(self).index@, final(self).index@),
            idx <= r < final(self).items@.len(),
            is_ancestor(idx as int, r as int),
            final(self).items@[r as int] == old(self).items@[idx as int],
            forall|j: int|
                0 <= j < old(self).items@.len() && !(is_ancestor(idx as int, j) && is_ancestor(j, r as int)) ==> final(self).items@[j]
                    == old(self).items@[j],
    {
        let start = idx;
        let mut idx = idx;
        let len = self.items.len();
        loop
            invariant
                links_ok(self.items@, self.index@, self.next_index),
                ordered_but_down(self.items@, idx as int),
                idx < self.items@.len(),
                len == self.items@.len(),
                self.view() == old(self).view(),
                self.items@.len() == old(self).items@.len(),
                self.index@.len() == old(self).index@.len(),
                self.next_index == old(self).next_index,
                self.free == old(self).free,
                self.stamps == old(self).stamps,
                empties_same(old(self).index@, self.index@),
                start <= idx,
                is_ancestor(start as int, idx as int),
                self.items@[idx as int] == old(self).items@[start as int],
                forall|j: int|
                    0 <= j < old(self).items@.len() && !(is_ancestor(start as int, j) && is_ancestor(j, idx as int)) ==> self.items@[j]
                        == old(self).items@[j],
            ensures
                heap_ordered(self.items@),
                idx < self.items@.len(),
                start <= idx,
                is_ancestor(start as int, idx as int),
                self.items@[idx as int] == old(self).items@[start as int],
                forall|j: int|
                    0 <= j < old(self).items@.len() && !(is_ancestor(start as int, j) && is_ancestor(j, idx as int)) ==> self.items@[j]
                        == old(self).items@[j],
            decreases len - idx,
        {
            proof {
                lemma_children(idx as int);
            }
            if idx >= len / 2 {
                proof {
                    lemma_down_done(self.items@, idx as int);
                }
                break;
            }
            let left = 2 * idx + 1;
            let right = left + 1;
            let mut child = left;
            if right < len && self.items[right].0.less_than(&self.items[left].0) {
                child = right;
            }
            if !self.items[child].0.less_than(&self.items[idx].0) {
                proof {
                    lemma_down_done(self.items@, idx as int);
                }
                break;
            }
            proof {
                lemma_down_step(self.items@, idx as int, child as int);
                assert(is_ancestor(idx as int, child as int));
                assert(is_ancestor(child as int, child as int));
                assert(is_ancestor(start as int, child as int));
                assert forall|j: int| is_ancestor(j, idx as int) implies is_ancestor(j, child as int) by {}
            }
            let ghost before = self.index@;
            self.swap_items(idx, child);
            proof {
                lemma_empties_trans(old(self).index@, before, self.index@);
            }
            idx = child;
        }
        proof {
            lemma_free_kept(old(self).index@, self.index@, self.next_index, self.free@);
        }
        idx
    }

    /// Swaps the elements at positions `a < b` and repoints their handles.
    fn swap_items(&mut self, a: usize, b: usize)
        requires
            links_ok(old(self).items@, old(self).index@, old(self).next_index),
            a < b < old(self).items@.len(),
        ensures
            links_ok(final(self).items@, final(self).index@, final(self).next_index),
            final(self).view() == old(self).view(),
            final(self).items@ == swapped(old(self).items@, a as int, b as int),
            final(self).index@.len() == old(self).index@.len(),
            final(self).next_index == old(self).next_index,
            final(self).free == old(self).free,
            final(self).stamps == old(self).stamps,
            empties_same(old(self).index@, final(self).index@),
    {
        // reading the length gives the proof that it fits in a `usize`
        let len = self.items.len();
        assert(b < len);
        proof {
            lemma_swap_links(self.items@, self.index@, self.next_index, a as int, b as int);
        }
        {
            let (lo, hi) = self.items.split_at_mut(b);
            core::mem::swap(&mut lo[a], &mut hi[0]);
        }
        let ha = self.items[b].1;
        let hb = self.items[a].1;
        set_index(&mut self.index, ha, b);
        set_index(&mut self.index, hb, a);
    }
}

/// Repoints the live handle `slab_slot` at position `val`.
fn set_index(slab: &mut Vec<SlabSlot>, slab_slot: usize, val: usize)
    requires
        slab_slot < old(slab)@.len(),
        old(slab)@[slab_slot as int] is Full,
    ensures
        final(slab)@ == old(slab)@.update(slab_slot as int, SlabSlot::Full { value: val }),
{
    slab.set(slab_slot, SlabSlot::Full { value: val });
}

} // verus!
