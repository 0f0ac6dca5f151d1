use vstd::prelude::*;
use vstd::arithmetic::power2::{pow2, lemma_pow2_pos, lemma_pow2_adds, lemma_pow2_unfold};
use vstd::arithmetic::div_mod::{lemma_fundamental_div_mod, lemma_fundamental_div_mod_converse};
use vstd::bits::lemma_usize_shl_is_mul;
use vstd::pervasive::VecAdditionalExecFns;
use crate::phys::mm_page;

verus! {

broadcast use vstd::arithmetic::power2::lemma_pow2_pos;

/// Node-table entry: one per base page. `order` and `free` describe the block
/// that starts at this page (when one does); `next` threads the page into the
/// free list of its order, as a table index rather than a pointer.
#[derive(Clone, Copy)]
struct page_node {
    page: mm_page,
    next: Option<usize>,
    order: u8,
    free: bool,
}

/// `i` is a multiple of `2^o`.
pub open spec fn aligned(i: int, o: nat) -> bool {
    i % (pow2(o) as int) == 0
}

/// The blocks `[i1, i1 + 2^o1)` and `[i2, i2 + 2^o2)` do not overlap.
pub open spec fn blocks_disjoint(i1: int, o1: nat, i2: int, o2: nat) -> bool {
    i1 + pow2(o1) <= i2 || i2 + pow2(o2) <= i1
}

/// The block `[i, i + 2^o)` lies inside a pool of `n` pages, at an address
/// aligned to its own size.
pub open spec fn block_ok(i: int, o: nat, n: int) -> bool {
    0 <= i && i + pow2(o) <= n && aligned(i, o)
}

/// Per-order free-list contents `ls` (one sequence per order, head first)
/// describe valid blocks: each in range and aligned, and no two overlapping.
pub open spec fn lists_ok(ls: Seq<Seq<usize>>, mo: int, n: int) -> bool {
    &&& ls.len() == mo + 1
    &&& forall|o: int, k: int| #![trigger ls[o][k]]
        0 <= o <= mo && 0 <= k < ls[o].len() ==> block_ok(ls[o][k] as int, o as nat, n)
    &&& forall|o1: int, k1: int, o2: int, k2: int| #![trigger ls[o1][k1], ls[o2][k2]]
        0 <= o1 <= mo && 0 <= k1 < ls[o1].len() && 0 <= o2 <= mo && 0 <= k2 < ls[o2].len()
            && (o1 != o2 || k1 != k2)
            ==> blocks_disjoint(ls[o1][k1] as int, o1 as nat, ls[o2][k2] as int, o2 as nat)
}

/// Index `i` appears in some free list of `ls`.
pub open spec fn in_lists(ls: Seq<Seq<usize>>, mo: int, i: usize) -> bool {
    exists|o: int| 0 <= o <= mo && #[trigger] ls[o].contains(i)
}

/// The block `[i, i + 2^o)` overlaps no block recorded in `ls`.
pub open spec fn clear_of_lists(ls: Seq<Seq<usize>>, mo: int, i: int, o: nat) -> bool {
    forall|o2: int, k2: int| #![trigger ls[o2][k2]]
        0 <= o2 <= mo && 0 <= k2 < ls[o2].len()
            ==> blocks_disjoint(i, o, ls[o2][k2] as int, o2 as nat)
}

/// The buddy of the block `[i, i + 2^o)`: the other half of the aligned
/// `2^(o+1)`-sized block that contains it. Meaningful when `aligned(i, o)`.
pub open spec fn buddy_int(i: int, o: nat) -> int {
    if aligned(i, (o + 1) as nat) {
        i + pow2(o)
    } else {
        i - pow2(o)
    }
}

// ---------------------------------------------------------------------------
// Arithmetic groundwork
// ---------------------------------------------------------------------------

/// `2^o` in executable form.
pub proof fn lemma_shl_is_pow2(o: usize)
    requires
        o <= 31,
    ensures
        (1usize << o) as nat == pow2(o as nat),
        1usize << o >= 1,
{
    lemma_pow2_pos(o as nat);
    vstd::bits::lemma_usize_pow2_no_overflow(o as nat);
    lemma_usize_shl_is_mul(1usize, o);
}

/// An aligned block that starts inside the pool also ends inside it.
pub proof fn lemma_block_extent(i: int, o: nat, mo: nat)
    requires
        o <= mo,
        aligned(i, o),
        0 <= i < pow2(mo),
    ensures
        i + pow2(o) <= pow2(mo),
{
    let p = pow2(o) as int;
    let m = pow2((mo - o) as nat) as int;
    lemma_pow2_pos(o);
    lemma_pow2_pos((mo - o) as nat);
    lemma_pow2_adds((mo - o) as nat, o);
    assert(pow2(mo) == m * p);
    lemma_fundamental_div_mod(i, p);
    let q = i / p;
    assert(i == q * p);
    assert(q * p < m * p);
    assert(q < m) by (nonlinear_arith)
        requires q * p < m * p, p > 0;
    assert((q + 1) * p <= m * p) by (nonlinear_arith)
        requires q < m, p > 0;
    assert(i + p == (q + 1) * p) by (nonlinear_arith)
        requires i == q * p;
}

/// Alignment to a larger power of two implies alignment to a smaller one.
pub proof fn lemma_aligned_weaken(i: int, a: nat, b: nat)
    requires
        a <= b,
        0 <= i,
        aligned(i, b),
    ensures
        aligned(i, a),
    decreases b - a,
{
    if a < b {
        lemma_aligned_split(i, b);
        lemma_aligned_weaken(i, a, (b - 1) as nat);
    }
}

/// Bit-level facts about the XOR buddy computation, stated over masks.
proof fn lemma_xor_buddy_bits(i: usize, o: usize, o1: usize, m: usize, m1: usize)
    by (bit_vector)
    requires
        o < 31,
        o1 == o + 1,
        i < (1usize << 30),
        m as int == (1usize << o) - 1,
        m1 as int == (1usize << o1) - 1,
        i & m == 0,
    ensures
        i & m1 == 0 <==> i & (1usize << o) == 0,
        i & (1usize << o) == 0 ==> (i ^ (1usize << o)) == i + (1usize << o),
        i & (1usize << o) != 0 ==> (i ^ (1usize << o)) + (1usize << o) == i,
        (i ^ (1usize << o)) & m == 0,
        i & (1usize << o) != 0 ==> (i ^ (1usize << o)) & m1 == 0,
        i & (1usize << o) == 0 ==> (i ^ (1usize << o)) & m1 != 0,
{
}

/// Arithmetic form of the buddy relation for an order-`o` aligned index.
pub proof fn lemma_buddy_props(i: usize, o: usize)
    requires
        o < 31,
        i < pow2(30),
        aligned(i as int, o as nat),
    ensures
        (i ^ (1usize << o)) as int == buddy_int(i as int, o as nat),
        aligned(buddy_int(i as int, o as nat), o as nat),
        buddy_int(i as int, o as nat) != i,
        aligned(i as int, (o + 1) as nat)
            ==> buddy_int(i as int, o as nat) == i + pow2(o as nat)
                && aligned(i as int + pow2(o as nat), (o + 1) as nat) == false,
        !aligned(i as int, (o + 1) as nat)
            ==> buddy_int(i as int, o as nat) == i - pow2(o as nat)
                && aligned(i as int - pow2(o as nat), (o + 1) as nat),
{
    let p = 1usize << o;
    let p1 = 1usize << (o + 1) as usize;
    let b = i ^ p;
    lemma_shl_is_pow2(o);
    lemma_shl_is_pow2((o + 1) as usize);
    lemma_pow2_pos(o as nat);
    lemma_pow2_pos((o + 1) as nat);
    lemma_pow2_unfold((o + 1) as nat);
    assert(i < (1usize << 30)) by {
        lemma_shl_is_pow2(30);
    }
    // Masks agree with remainders at orders o and o + 1.
    let m: usize = (p - 1) as usize;
    let m1: usize = (p1 - 1) as usize;
    assert(m == vstd::bits::low_bits_mask(o as nat) as usize);
    assert(m1 == vstd::bits::low_bits_mask((o + 1) as nat) as usize);
    vstd::bits::lemma_usize_low_bits_mask_is_mod(i, o as nat);
    vstd::bits::lemma_usize_low_bits_mask_is_mod(i, (o + 1) as nat);
    vstd::bits::lemma_usize_low_bits_mask_is_mod(b, o as nat);
    vstd::bits::lemma_usize_low_bits_mask_is_mod(b, (o + 1) as nat);
    assert(i & m == 0);
    lemma_xor_buddy_bits(i, o, (o + 1) as usize, m, m1);
    assert(aligned(i as int, (o + 1) as nat) <==> i & m1 == 0);
    assert(aligned(b as int, o as nat));
    assert(b & m1 == 0 ==> aligned(b as int, (o + 1) as nat));
    assert(b & m1 != 0 ==> !aligned(b as int, (o + 1) as nat));
}

/// Powers of two are monotone in the exponent.
pub proof fn lemma_pow2_mono(a: nat, b: nat)
    requires
        a <= b,
    ensures
        pow2(a) <= pow2(b),
{
    if a < b {
        vstd::arithmetic::power2::lemma_pow2_strictly_increases(a, b);
    }
}

/// An index aligned to `2^o` is aligned to `2^(o-1)`, and so is the midpoint
/// of its order-`o` block.
pub proof fn lemma_aligned_split(i: int, o: nat)
    requires
        o >= 1,
        0 <= i,
        aligned(i, o),
    ensures
        aligned(i, (o - 1) as nat),
        aligned(i + pow2((o - 1) as nat), (o - 1) as nat),
{
    let p = pow2((o - 1) as nat) as int;
    lemma_pow2_unfold(o);
    lemma_fundamental_div_mod(i, 2 * p);
    let q = i / (2 * p);
    assert(i == (2 * q) * p && i + p == (2 * q + 1) * p) by (nonlinear_arith)
        requires i == 2 * p * q;
    lemma_fundamental_div_mod_converse(i, p, 2 * q, 0);
    lemma_fundamental_div_mod_converse(i + p, p, 2 * q + 1, 0);
}

// ---------------------------------------------------------------------------
// Abstract models of the two walks: the allocation scan and the merge chain
// ---------------------------------------------------------------------------

/// The lowest order in `o..=mo` whose free list is non-empty, if any: the
/// order `alloc` serves a request for order `o` from.
pub open spec fn first_free_order(ls: Seq<Seq<usize>>, mo: int, o: int) -> Option<int>
    decreases mo + 1 - o,
{
    if o > mo {
        None
    } else if ls[o].len() > 0 {
        Some(o)
    } else {
        first_free_order(ls, mo, o + 1)
    }
}

/// The free lists after splitting the block at `i` from order `hi` down to
/// order `lo`: each order in `lo..hi` receives the split-off right half
/// `i + 2^t` at its head.
pub open spec fn split_lists(ls: Seq<Seq<usize>>, i: usize, lo: int, hi: int) -> Seq<Seq<usize>>
    decreases hi - lo,
{
    if hi <= lo {
        ls
    } else {
        let rest = split_lists(ls, i, lo + 1, hi);
        rest.update(lo, seq![(i + pow2(lo as nat)) as usize] + rest[lo])
    }
}

/// Slot-by-slot description of `split_lists`.
pub proof fn lemma_split_lists_slots(ls: Seq<Seq<usize>>, i: usize, lo: int, hi: int)
    requires
        0 <= lo,
        hi <= ls.len(),
    ensures
        split_lists(ls, i, lo, hi).len() == ls.len(),
        forall|t: int|
            0 <= t < ls.len() && (t < lo || t >= hi) ==> #[trigger] split_lists(ls, i, lo, hi)[t]
                == ls[t],
        forall|t: int|
            0 <= t && lo <= t < hi ==> #[trigger] split_lists(ls, i, lo, hi)[t] == seq![
                (i + pow2(t as nat)) as usize,
            ] + ls[t],
    decreases hi - lo,
{
    if hi <= lo {
    } else {
        lemma_split_lists_slots(ls, i, lo + 1, hi);
    }
}

/// A coalescing step is possible: the buddy of the order-`o` block at `i`
/// stands on the order-`o` free list, and a larger order exists to merge to.
pub open spec fn can_merge(ls: Seq<Seq<usize>>, mo: int, i: usize, o: int) -> bool {
    o < mo && ls[o].contains(buddy_int(i as int, o as nat) as usize)
}

/// The outcome of freeing the order-`o` block at `i`: the merge chain walks
/// upward while the buddy is listed, taking each absorbed buddy off its
/// list, and finally pushes the coalesced block. Yields the resulting free
/// lists, the final block index, and the final order.
pub open spec fn merge_spec(ls: Seq<Seq<usize>>, mo: int, i: usize, o: int) -> (
    Seq<Seq<usize>>,
    usize,
    int,
)
    decreases mo - o,
{
    if 0 <= o < mo && can_merge(ls, mo, i, o) {
        let b = buddy_int(i as int, o as nat) as usize;
        let m: usize = if (b as int) < i as int {
            b
        } else {
            i
        };
        merge_spec(ls.update(o, ls[o].remove_value(b)), mo, m, o + 1)
    } else {
        (ls.update(o, seq![i] + ls[o]), i, o)
    }
}

/// When every list in `o..=mo` is empty, the allocation scan finds nothing.
pub proof fn lemma_scan_exhausted(ls: Seq<Seq<usize>>, mo: int, o: int)
    requires
        forall|j: int| o <= j <= mo ==> #[trigger] ls[j].len() == 0,
    ensures
        first_free_order(ls, mo, o) is None,
    decreases mo + 1 - o,
{
    if o <= mo {
        lemma_scan_exhausted(ls, mo, o + 1);
    }
}

/// When every list in `o..oo` is empty and list `oo` is not, the allocation
/// scan starting at `o` finds exactly `oo`.
pub proof fn lemma_scan_finds(ls: Seq<Seq<usize>>, mo: int, o: int, oo: int)
    requires
        o <= oo <= mo,
        forall|j: int| o <= j < oo ==> #[trigger] ls[j].len() == 0,
        ls[oo].len() > 0,
    ensures
        first_free_order(ls, mo, o) == Some(oo),
    decreases oo - o,
{
    if o < oo {
        lemma_scan_finds(ls, mo, o + 1, oo);
    }
}

/// What a successful allocation scan means: the found order is the first
/// with a non-empty list, every order below it (from the request up) being
/// empty.
pub proof fn lemma_scan_found(ls: Seq<Seq<usize>>, mo: int, o: int)
    requires
        0 <= o,
        first_free_order(ls, mo, o) is Some,
    ensures
        ({
            let oo = first_free_order(ls, mo, o)->Some_0;
            &&& o <= oo <= mo
            &&& ls[oo].len() > 0
            &&& forall|j: int| o <= j < oo ==> #[trigger] ls[j].len() == 0
        }),
    decreases mo + 1 - o,
{
    if o > mo {
    } else if ls[o].len() > 0 {
    } else {
        lemma_scan_found(ls, mo, o + 1);
    }
}

// ---------------------------------------------------------------------------
// Laws of the allocation and coalescing walks
// ---------------------------------------------------------------------------

/// No two buddy blocks are simultaneously on the order-`o` free lists below
/// the maximum order. Eager coalescing in `free` keeps every reachable
/// state in this form.
pub open spec fn fully_coalesced(ls: Seq<Seq<usize>>, mo: int) -> bool {
    forall|o: int, k: int| #![trigger ls[o][k]]
        0 <= o < mo && 0 <= k < ls[o].len() ==> !ls[o].contains(
            buddy_int(ls[o][k] as int, o as nat) as usize,
        )
}

/// Round-trip law: in a fully coalesced pool, allocating a block of `order`
/// (served from the first non-empty list, at `oo`) and then freeing the
/// returned index restores the free lists exactly: the merge chain re-absorbs
/// every split-off half, climbs back to `oo`, and re-lists the original
/// block at the head it was popped from.
pub proof fn lemma_alloc_free_round_trip(ls: Seq<Seq<usize>>, mo: int, order: int, oo: int)
    requires
        mo <= 30,
        lists_ok(ls, mo, pow2(mo as nat) as int),
        fully_coalesced(ls, mo),
        0 <= order <= oo <= mo,
        ls[oo].len() > 0,
        forall|j: int| order <= j < oo ==> #[trigger] ls[j].len() == 0,
    ensures
        ({
            let i = ls[oo][0];
            let after = split_lists(ls.update(oo, ls[oo].drop_first()), i, order, oo);
            merge_spec(after, mo, i, order).0 == ls
        }),
    decreases oo - order,
{
    let i = ls[oo][0];
    let popped = ls.update(oo, ls[oo].drop_first());
    let after = split_lists(popped, i, order, oo);
    assert(block_ok(i as int, oo as nat, pow2(mo as nat) as int));
    lemma_pow2_mono(oo as nat, mo as nat);
    lemma_pow2_mono(mo as nat, 30);
    lemma_split_lists_slots(popped, i, order, oo);
    if order == oo {
        assert(after == popped);
        if oo < mo {
            // The popped head's buddy is not free: the pool is coalesced.
            lemma_buddy_props(i, oo as usize);
            let b = buddy_int(i as int, oo as nat) as usize;
            if popped[oo].contains(b) {
                let kx = choose|kx: int| 0 <= kx < popped[oo].len() && popped[oo][kx] == b;
                assert(ls[oo][kx + 1] == b);
                assert(ls[oo].contains(b));
                assert(!ls[oo].contains(buddy_int(ls[oo][0] as int, oo as nat) as usize));
            }
            assert(!can_merge(popped, mo, i, oo));
        }
        assert(merge_spec(popped, mo, i, oo) == (
            popped.update(oo, seq![i] + popped[oo]),
            i,
            oo,
        ));
        assert(seq![i] + popped[oo] =~= ls[oo]);
        assert(popped.update(oo, seq![i] + popped[oo]) =~= ls);
    } else {
        lemma_aligned_weaken(i as int, (order + 1) as nat, oo as nat);
        lemma_aligned_weaken(i as int, order as nat, oo as nat);
        lemma_buddy_props(i, order as usize);
        lemma_pow2_mono(order as nat, oo as nat);
        let bi = i as int + pow2(order as nat);
        assert(bi == buddy_int(i as int, order as nat));
        assert(0 <= bi <= usize::MAX);
        let b = bi as usize;
        let rest = split_lists(popped, i, order + 1, oo);
        lemma_split_lists_slots(popped, i, order + 1, oo);
        assert(after == rest.update(order, seq![b] + rest[order]));
        assert(after[order][0] == b);
        assert(after[order].contains(b));
        assert(can_merge(after, mo, i, order));
        after[order].index_of_first_ensures(b);
        assert(after[order].index_of_first(b) == Some(0int));
        assert(after[order].remove_value(b) =~= rest[order]);
        assert(after.update(order, after[order].remove_value(b)) =~= rest);
        assert(merge_spec(after, mo, i, order) == merge_spec(rest, mo, i, order + 1));
        lemma_alloc_free_round_trip(ls, mo, order + 1, oo);
    }
}

/// Allocation keeps the pool fully coalesced: the halves it lists while
/// splitting each have their other half held by the allocation itself,
/// never on a list.
pub proof fn lemma_alloc_preserves_coalesced(ls: Seq<Seq<usize>>, mo: int, order: int, oo: int)
    requires
        mo <= 30,
        lists_ok(ls, mo, pow2(mo as nat) as int),
        fully_coalesced(ls, mo),
        0 <= order <= oo <= mo,
        ls[oo].len() > 0,
        forall|j: int| order <= j < oo ==> #[trigger] ls[j].len() == 0,
    ensures
        ({
            let i = ls[oo][0];
            let after = split_lists(ls.update(oo, ls[oo].drop_first()), i, order, oo);
            fully_coalesced(after, mo)
        }),
{
    let i = ls[oo][0];
    let popped = ls.update(oo, ls[oo].drop_first());
    let after = split_lists(popped, i, order, oo);
    assert(block_ok(i as int, oo as nat, pow2(mo as nat) as int));
    lemma_pow2_mono(oo as nat, mo as nat);
    lemma_pow2_mono(mo as nat, 30);
    lemma_split_lists_slots(popped, i, order, oo);
    assert forall|o: int, k: int| #![trigger after[o][k]]
        0 <= o < mo && 0 <= k < after[o].len()
        implies !after[o].contains(buddy_int(after[o][k] as int, o as nat) as usize) by {
        if order <= o < oo {
            // List `o` was empty; its one entry is the fresh right half,
            // whose buddy is the very block the allocation holds.
            assert(after[o] == seq![(i + pow2(o as nat)) as usize] + ls[o]);
            assert(after[o].len() == 1 && k == 0);
            let e = (i as int) + pow2(o as nat);
            lemma_aligned_weaken(i as int, (o + 1) as nat, oo as nat);
            lemma_aligned_weaken(i as int, o as nat, oo as nat);
            lemma_buddy_props(i, o as usize);
            assert(buddy_int(e, o as nat) == i as int);
            if after[o].contains(i) {
                let kx = choose|kx: int| 0 <= kx < after[o].len() && after[o][kx] == i;
                assert(after[o][kx] == e as usize);
            }
        } else {
            // Surviving entries: their buddies were not listed before, and
            // the lists they sit on only shrank.
            let src: Seq<usize> = if o == oo {
                ls[oo].drop_first()
            } else {
                ls[o]
            };
            assert(after[o] == src);
            let k0: int = if o == oo {
                k + 1
            } else {
                k
            };
            assert(after[o][k] == ls[o][k0]);
            assert(ls[o].contains(ls[o][k0]));
            let b = buddy_int(ls[o][k0] as int, o as nat) as usize;
            assert(!ls[o].contains(b));
            if after[o].contains(b) {
                let kx = choose|kx: int| 0 <= kx < after[o].len() && after[o][kx] == b;
                let kx0: int = if o == oo {
                    kx + 1
                } else {
                    kx
                };
                assert(ls[o][kx0] == b);
                assert(ls[o].contains(b));
            }
        }
    }
}

/// Freeing keeps the pool fully coalesced: the merge chain only stops when
/// the block it is about to list has no listed buddy.
pub proof fn lemma_free_preserves_coalesced(ls: Seq<Seq<usize>>, mo: int, i: usize, o: int)
    requires
        mo <= 30,
        lists_ok(ls, mo, pow2(mo as nat) as int),
        fully_coalesced(ls, mo),
        0 <= o <= mo,
        aligned(i as int, o as nat),
        (i as int) + pow2(o as nat) <= pow2(mo as nat),
        clear_of_lists(ls, mo, i as int, o as nat),
    ensures
        fully_coalesced(merge_spec(ls, mo, i, o).0, mo),
    decreases mo - o,
{
    lemma_pow2_mono(mo as nat, 30);
    if o < mo {
        lemma_buddy_props(i, o as usize);
    }
    if 0 <= o < mo && can_merge(ls, mo, i, o) {
        let bi = buddy_int(i as int, o as nat);
        assert(bi == (i ^ (1usize << (o as usize))) as int);
        let b = bi as usize;
        let m: usize = if (b as int) < i as int {
            b
        } else {
            i
        };
        ls[o].index_of_first_ensures(b);
        let kb = ls[o].index_of_first(b)->Some_0;
        assert(0 <= kb < ls[o].len() && ls[o][kb] == b);
        let ls2 = ls.update(o, ls[o].remove_value(b));
        lemma_pow2_unfold((o + 1) as nat);
        assert forall|o2: int, k2: int| #![trigger ls2[o2][k2]]
            0 <= o2 <= mo && 0 <= k2 < ls2[o2].len()
            implies ls2[o2][k2] == ls[o2][(if o2 == o && k2 >= kb {
                k2 + 1
            } else {
                k2
            })] by {}
        assert(lists_ok(ls2, mo, pow2(mo as nat) as int)) by {
            assert forall|o1: int, k1: int, o2: int, k2: int|
                #![trigger ls2[o1][k1], ls2[o2][k2]]
                0 <= o1 <= mo && 0 <= k1 < ls2[o1].len() && 0 <= o2 <= mo
                    && 0 <= k2 < ls2[o2].len() && (o1 != o2 || k1 != k2)
                implies blocks_disjoint(
                    ls2[o1][k1] as int, o1 as nat, ls2[o2][k2] as int, o2 as nat) by {
                let j1: int = if o1 == o && k1 >= kb { k1 + 1 } else { k1 };
                let j2: int = if o2 == o && k2 >= kb { k2 + 1 } else { k2 };
                assert(ls2[o1][k1] == ls[o1][j1]);
                assert(ls2[o2][k2] == ls[o2][j2]);
            }
        }
        assert(fully_coalesced(ls2, mo)) by {
            assert forall|o2: int, k2: int| #![trigger ls2[o2][k2]]
                0 <= o2 < mo && 0 <= k2 < ls2[o2].len()
                implies !ls2[o2].contains(buddy_int(ls2[o2][k2] as int, o2 as nat) as usize) by {
                let j2: int = if o2 == o && k2 >= kb { k2 + 1 } else { k2 };
                assert(ls2[o2][k2] == ls[o2][j2]);
                let bb = buddy_int(ls[o2][j2] as int, o2 as nat) as usize;
                assert(!ls[o2].contains(bb));
                if ls2[o2].contains(bb) {
                    let kx = choose|kx: int| 0 <= kx < ls2[o2].len() && ls2[o2][kx] == bb;
                    let jx: int = if o2 == o && kx >= kb { kx + 1 } else { kx };
                    assert(ls[o2][jx] == bb);
                    assert(ls[o2].contains(bb));
                }
            }
        }
        assert(clear_of_lists(ls2, mo, m as int, (o + 1) as nat)) by {
            assert forall|o2: int, k2: int| #![trigger ls2[o2][k2]]
                0 <= o2 <= mo && 0 <= k2 < ls2[o2].len()
                implies blocks_disjoint(m as int, (o + 1) as nat, ls2[o2][k2] as int,
                    o2 as nat) by {
                let j2: int = if o2 == o && k2 >= kb { k2 + 1 } else { k2 };
                assert(ls2[o2][k2] == ls[o2][j2]);
                assert(blocks_disjoint(i as int, o as nat, ls[o2][j2] as int, o2 as nat));
                assert(blocks_disjoint(ls[o][kb] as int, o as nat, ls[o2][j2] as int,
                    o2 as nat) || (o2 == o && j2 == kb));
            }
        }
        assert((m as int) + pow2((o + 1) as nat) <= pow2(mo as nat)) by {
            lemma_block_extent(m as int, (o + 1) as nat, mo as nat);
        }
        lemma_free_preserves_coalesced(ls2, mo, m, o + 1);
    } else {
        let res = ls.update(o, seq![i] + ls[o]);
        assert forall|o2: int, k2: int| #![trigger res[o2][k2]]
            0 <= o2 < mo && 0 <= k2 < res[o2].len()
            implies !res[o2].contains(buddy_int(res[o2][k2] as int, o2 as nat) as usize) by {
            if o2 == o {
                let bi = buddy_int(i as int, o as nat);
                let b = bi as usize;
                if k2 == 0 {
                    // The new block's buddy is not listed: that is exactly
                    // why the chain stopped here.
                    assert(!ls[o].contains(b));
                    if res[o].contains(b) {
                        let kx = choose|kx: int| 0 <= kx < res[o].len() && res[o][kx] == b;
                        if kx == 0 {
                            assert(i as int == bi);
                        } else {
                            assert(ls[o][kx - 1] == b);
                            assert(ls[o].contains(b));
                        }
                    }
                } else {
                    let e = ls[o][k2 - 1];
                    assert(res[o][k2] == e);
                    assert(ls[o].contains(e));
                    let be = buddy_int(e as int, o2 as nat) as usize;
                    assert(!ls[o].contains(be));
                    if res[o].contains(be) {
                        let kx = choose|kx: int| 0 <= kx < res[o].len() && res[o][kx] == be;
                        if kx == 0 {
                            // Then the old entry would have been the new
                            // block's own buddy, and the chain would have
                            // gone on merging.
                            assert(be == i);
                            assert(block_ok(e as int, o as nat, pow2(mo as nat) as int));
                            lemma_buddy_props(e, o as usize);
                            assert(e as int == bi);
                            assert(ls[o].contains(b));
                        } else {
                            assert(ls[o][kx - 1] == be);
                            assert(ls[o].contains(be));
                        }
                    }
                }
            } else {
                assert(res[o2] == ls[o2]);
                assert(res[o2][k2] == ls[o2][k2]);
            }
        }
    }
}

/// Buddy-coalescing law: with two allocated buddy blocks of order `o`,
/// freeing one and then the other (either call order fits this statement)
/// leaves the order-`o` list exactly as it was — neither index on it — and
/// exactly one combined block of order `o + 1`, at the pair's lower index,
/// newly at the head of its list.
pub proof fn lemma_buddy_coalesce(ls: Seq<Seq<usize>>, mo: int, x: usize, y: usize, o: int)
    requires
        mo <= 30,
        ls.len() == mo + 1,
        0 <= o < mo,
        aligned(x as int, o as nat),
        (x as int) < pow2(mo as nat),
        y as int == buddy_int(x as int, o as nat),
        !ls[o].contains(x),
        !ls[o].contains(y),
        ({
            let m: usize = if x < y {
                x
            } else {
                y
            };
            o + 1 < mo ==> !ls[o + 1].contains(buddy_int(m as int, (o + 1) as nat) as usize)
        }),
    ensures
        ({
            let first = merge_spec(ls, mo, x, o);
            let second = merge_spec(first.0, mo, y, o);
            let m: usize = if x < y {
                x
            } else {
                y
            };
            &&& first == (ls.update(o, seq![x] + ls[o]), x, o)
            &&& second.1 == m
            &&& second.2 == o + 1
            &&& second.0 == ls.update(o + 1, seq![m] + ls[o + 1])
            &&& second.0[o] == ls[o]
            &&& !second.0[o].contains(x)
            &&& !second.0[o].contains(y)
        }),
{
    lemma_pow2_mono(mo as nat, 30);
    lemma_buddy_props(x, o as usize);
    let m: usize = if x < y {
        x
    } else {
        y
    };
    // Involution: the buddy of the buddy is the original block.
    assert(aligned(y as int, o as nat));
    assert(buddy_int(y as int, o as nat) == x as int);
    // First free: the buddy is not yet listed, so no merge happens.
    assert(!can_merge(ls, mo, x, o));
    let l1 = ls.update(o, seq![x] + ls[o]);
    assert(merge_spec(ls, mo, x, o) == (l1, x, o));
    // Second free: the first block heads list `o`, so the pair coalesces.
    assert(l1[o][0] == x);
    assert(l1[o].contains(x));
    assert(can_merge(l1, mo, y, o));
    l1[o].index_of_first_ensures(x);
    assert(l1[o].index_of_first(x) == Some(0int));
    assert(l1[o].remove_value(x) =~= ls[o]);
    let l2 = l1.update(o, l1[o].remove_value(x));
    assert(l2 =~= ls);
    assert(merge_spec(l1, mo, y, o) == merge_spec(l2, mo, m, o + 1));
    // The combined block finds no listed buddy of its own.
    assert(!can_merge(l2, mo, m, o + 1));
    assert(merge_spec(l2, mo, m, o + 1) == (l2.update(o + 1, seq![m] + l2[o + 1]), m, o + 1));
    assert(l2.update(o + 1, seq![m] + l2[o + 1]) =~= ls.update(o + 1, seq![m] + ls[o + 1]));
}

// ---------------------------------------------------------------------------
// The allocator
// ---------------------------------------------------------------------------

/// Exhaustion law: once every free list is empty — as after the whole pool
/// has been handed out — the allocation scan finds nothing at any order,
/// so `allocate` returns nothing and changes nothing, until a `free`.
pub proof fn lemma_alloc_exhausted(ls: Seq<Seq<usize>>, mo: int, order: int)
    requires
        forall|o: int| 0 <= o <= mo ==> #[trigger] ls[o].len() == 0,
        0 <= order,
    ensures
        first_free_order(ls, mo, order) is None,
{
    lemma_scan_exhausted(ls, mo, order);
}

/// Rejected `free` calls: handing back a page that is already accounted
/// free would corrupt the free lists, so it is refused loudly instead.
#[derive(Clone, Copy, Debug, PartialEq, Eq, Structural)]
pub enum AllocError {
    AlreadyFree,
}

/// The buddy-system page allocator: a node table with one entry per base
/// page and one singly linked free list per block order, both held in a
/// fixed pool of `2^max_order` pages.
pub struct page_allocator {
    free_lists: Vec<Option<usize>>,
    nodes: Vec<page_node>,
    max_order: usize,
    free_view: Ghost<Seq<Seq<usize>>>,
}

impl page_allocator {
    /// Largest block order the pool supports.
    pub closed spec fn mo(self) -> int {
        self.max_order as int
    }

    /// Total number of base pages.
    pub closed spec fn n(self) -> int {
        self.nodes@.len() as int
    }

    /// Contents of each free list, per order, head first.
    pub closed spec fn lists(self) -> Seq<Seq<usize>> {
        self.free_view@
    }

    /// Block order recorded at node `i`.
    pub closed spec fn order_at(self, i: int) -> int {
        self.nodes@[i].order as int
    }

    /// Free flag recorded at node `i`.
    pub closed spec fn free_at(self, i: int) -> bool {
        self.nodes@[i].free
    }

    /// Index `i` heads no free list and sits in none of their chains.
    pub open spec fn unlisted(self, i: usize) -> bool {
        !in_lists(self.lists(), self.mo(), i)
    }

    /// The block `[i, i + 2^o)` overlaps no free block of the allocator.
    pub open spec fn clear_of(self, i: int, o: nat) -> bool {
        clear_of_lists(self.lists(), self.mo(), i, o)
    }

    /// The concrete chain of list `o` (head pointer plus `next` links)
    /// spells out exactly the abstract sequence of that order.
    spec fn chain_ok(self, o: int) -> bool {
        let l = self.lists()[o];
        &&& (l.len() == 0 ==> self.free_lists@[o] is None)
        &&& (l.len() > 0 ==> self.free_lists@[o] == Some(l[0])
            && self.nodes@[l[l.len() - 1] as int].next is None)
        &&& forall|k: int| #![trigger l[k]]
            0 <= k < l.len() - 1 ==> self.nodes@[l[k] as int].next == Some(l[k + 1])
    }

    /// Every listed node is flagged free and carries its list's order.
    spec fn members_tagged(self) -> bool {
        forall|o: int, k: int| #![trigger self.lists()[o][k]]
            0 <= o <= self.mo() && 0 <= k < self.lists()[o].len()
                ==> self.free_at(self.lists()[o][k] as int)
                    && self.order_at(self.lists()[o][k] as int) == o
    }

    /// Allocator invariant: a pool of `2^max_order` pages whose free lists
    /// hold aligned, in-range, pairwise disjoint blocks, correctly threaded
    /// through the node table and correctly tagged in it.
    /// The pool's fixed shape: `2^max_order` pages and one list head per
    /// order. Established at construction, untouched by every operation.
    pub closed spec fn config_ok(self) -> bool {
        &&& self.max_order <= 30
        &&& self.n() == pow2(self.max_order as nat)
        &&& self.free_lists@.len() == self.mo() + 1
    }

    pub closed spec fn wf(self) -> bool {
        &&& self.config_ok()
        &&& lists_ok(self.lists(), self.mo(), self.n())
        &&& forall|o: int| 0 <= o <= self.mo() ==> #[trigger] self.chain_ok(o)
        &&& self.members_tagged()
    }

    /// Inserts free node `i` at the head of the free list for `order`.
    fn list_push(&mut self, i: usize, order: u8)
        requires
            old(self).wf(),
            order as int <= old(self).mo(),
            i < old(self).n(),
            old(self).free_at(i as int),
            old(self).order_at(i as int) == order as int,
            aligned(i as int, order as nat),
            old(self).unlisted(i),
            old(self).clear_of(i as int, order as nat),
        ensures
            final(self).wf(),
            final(self).lists() == old(self).lists().update(
                order as int,
                seq![i] + old(self).lists()[order as int],
            ),
            final(self).mo() == old(self).mo(),
            final(self).n() == old(self).n(),
            forall|j: int|
                0 <= j < old(self).n() && j != i ==> final(self).nodes@[j] == old(self).nodes@[j],
            final(self).free_at(i as int),
            final(self).order_at(i as int) == order as int,
    {
        let mut nd = self.nodes[i];
        nd.next = self.free_lists[order as usize];
        self.nodes.set(i, nd);
        self.free_lists.set(order as usize, Some(i));
        proof {
            let gl = self.free_view@.update(order as int, seq![i] + self.free_view@[order as int]);
            self.free_view = Ghost(gl);
        }
        proof {
            let prev = *old(self);
            let ol = prev.lists();
            let nl = self.lists();
            let oi = order as int;
            assert forall|o: int| 0 <= o <= prev.mo() implies !ol[o].contains(i) by {
                assert(!in_lists(ol, prev.mo(), i));
            }
            assert forall|o: int, k: int| #![trigger nl[o][k]]
                0 <= o <= self.mo() && 0 <= k < nl[o].len()
                implies block_ok(nl[o][k] as int, o as nat, self.n())
                    && self.free_at(nl[o][k] as int)
                    && self.order_at(nl[o][k] as int) == o by {
                if o == oi && k == 0 {
                    lemma_block_extent(i as int, order as nat, prev.max_order as nat);
                } else {
                    let k0: int = if o == oi { k - 1 } else { k };
                    assert(nl[o][k] == ol[o][k0]);
                    assert(ol[o].contains(ol[o][k0]));
                }
            }
            assert forall|o1: int, k1: int, o2: int, k2: int|
                #![trigger nl[o1][k1], nl[o2][k2]]
                0 <= o1 <= self.mo() && 0 <= k1 < nl[o1].len() && 0 <= o2 <= self.mo()
                    && 0 <= k2 < nl[o2].len() && (o1 != o2 || k1 != k2)
                implies blocks_disjoint(
                    nl[o1][k1] as int, o1 as nat, nl[o2][k2] as int, o2 as nat) by {
                let j1: int = if o1 == oi { k1 - 1 } else { k1 };
                let j2: int = if o2 == oi { k2 - 1 } else { k2 };
                if o1 == oi && k1 == 0 {
                    assert(nl[o2][k2] == ol[o2][j2]);
                } else if o2 == oi && k2 == 0 {
                    assert(nl[o1][k1] == ol[o1][j1]);
                } else {
                    assert(nl[o1][k1] == ol[o1][j1]);
                    assert(nl[o2][k2] == ol[o2][j2]);
                }
            }
            assert forall|o: int| 0 <= o <= self.mo() implies #[trigger] self.chain_ok(o) by {
                assert(prev.chain_ok(o));
                let l = nl[o];
                if o == oi {
                    let ol0 = ol[oi];
                    assert(l.len() == ol0.len() + 1);
                    if ol0.len() > 0 {
                        assert(ol0.contains(ol0[ol0.len() - 1]));
                        assert(l[l.len() - 1] == ol0[ol0.len() - 1]);
                    }
                    assert forall|k: int| #![trigger l[k]] 0 <= k < l.len() - 1
                        implies self.nodes@[l[k] as int].next == Some(l[k + 1]) by {
                        if k == 0 {
                        } else {
                            assert(l[k] == ol0[k - 1]);
                            assert(ol0.contains(ol0[k - 1]));
                        }
                    }
                } else {
                    assert forall|k: int| #![trigger l[k]] 0 <= k < l.len() - 1
                        implies self.nodes@[l[k] as int].next == Some(l[k + 1]) by {
                        assert(ol[o].contains(ol[o][k]));
                        assert(l[k] == ol[o][k]);
                    }
                    if l.len() > 0 {
                        assert(ol[o].contains(ol[o][l.len() - 1]));
                    }
                }
            }
        }
    }

    /// Pops the head of the free list for `order`, unthreading it from the
    /// chain; the caller receives a free block no list mentions any more.
    fn list_pop(&mut self, order: u8) -> (r: Option<usize>)
        requires
            old(self).wf(),
            order as int <= old(self).mo(),
        ensures
            final(self).wf(),
            final(self).mo() == old(self).mo(),
            final(self).n() == old(self).n(),
            old(self).lists()[order as int].len() == 0 ==> r is None && *final(self) == *old(
                self,
            ),
            old(self).lists()[order as int].len() > 0 ==> ({
                let head = old(self).lists()[order as int][0];
                &&& r == Some(head)
                &&& final(self).lists() == old(self).lists().update(
                    order as int,
                    old(self).lists()[order as int].drop_first(),
                )
                &&& forall|j: int|
                    0 <= j < old(self).n() && j != head ==> final(self).nodes@[j] == old(
                        self,
                    ).nodes@[j]
                &&& final(self).free_at(head as int)
                &&& final(self).order_at(head as int) == order as int
                &&& aligned(head as int, order as nat)
                &&& head < old(self).n()
                &&& final(self).unlisted(head)
                &&& final(self).clear_of(head as int, order as nat)
            }),
    {
        let fl = self.free_lists[order as usize];
        match fl {
            None => {
                proof {
                    assert(old(self).chain_ok(order as int));
                }
                None
            },
            Some(i) => {
                proof {
                    let prev = *old(self);
                    let oi = order as int;
                    let l = prev.lists()[oi];
                    assert(prev.chain_ok(oi));
                    assert(l[0] == i);
                    assert(block_ok(l[0] as int, oi as nat, prev.n()));
                }
                self.free_lists.set(order as usize, self.nodes[i].next);
                let mut nd = self.nodes[i];
                nd.next = None;
                self.nodes.set(i, nd);
                proof {
                    let gl = self.free_view@.update(
                        order as int,
                        self.free_view@[order as int].drop_first(),
                    );
                    self.free_view = Ghost(gl);
                }
                proof {
                    let prev = *old(self);
                    let ol = prev.lists();
                    let nl = self.lists();
                    let oi = order as int;
                    let l0 = ol[oi];
                    assert(prev.chain_ok(oi));
                    // No listed entry other than the popped head starts at i.
                    assert forall|o: int, k: int| #![trigger ol[o][k]]
                        0 <= o <= prev.mo() && 0 <= k < ol[o].len() && (o != oi || k != 0)
                        implies ol[o][k] != i by {
                        assert(blocks_disjoint(ol[o][k] as int, o as nat, ol[oi][0] as int,
                            oi as nat));
                    }
                    assert forall|o: int, k: int| #![trigger nl[o][k]]
                        0 <= o <= self.mo() && 0 <= k < nl[o].len()
                        implies block_ok(nl[o][k] as int, o as nat, self.n())
                            && self.free_at(nl[o][k] as int)
                            && self.order_at(nl[o][k] as int) == o
                            && nl[o][k] != i by {
                        let k0: int = if o == oi { k + 1 } else { k };
                        assert(nl[o][k] == ol[o][k0]);
                    }
                    assert forall|o1: int, k1: int, o2: int, k2: int|
                        #![trigger nl[o1][k1], nl[o2][k2]]
                        0 <= o1 <= self.mo() && 0 <= k1 < nl[o1].len() && 0 <= o2 <= self.mo()
                            && 0 <= k2 < nl[o2].len() && (o1 != o2 || k1 != k2)
                        implies blocks_disjoint(
                            nl[o1][k1] as int, o1 as nat, nl[o2][k2] as int, o2 as nat) by {
                        let j1: int = if o1 == oi { k1 + 1 } else { k1 };
                        let j2: int = if o2 == oi { k2 + 1 } else { k2 };
                        assert(nl[o1][k1] == ol[o1][j1]);
                        assert(nl[o2][k2] == ol[o2][j2]);
                    }
                    assert forall|o: int| 0 <= o <= self.mo() implies #[trigger] self.chain_ok(
                        o) by {
                        assert(prev.chain_ok(o));
                        let l = nl[o];
                        assert forall|k: int| #![trigger l[k]] 0 <= k < l.len() - 1
                            implies self.nodes@[l[k] as int].next == Some(l[k + 1]) by {
                            let k0: int = if o == oi { k + 1 } else { k };
                            assert(l[k] == ol[o][k0]);
                            assert(l[k + 1] == ol[o][k0 + 1]);
                        }
                        if l.len() > 0 {
                            let k0: int = if o == oi { l.len() as int } else { l.len() - 1 };
                            assert(l[l.len() - 1] == ol[o][k0]);
                        }
                    }
                    assert(self.clear_of(i as int, order as nat));
                    assert forall|o: int| 0 <= o <= self.mo() implies !(#[trigger] nl[o].contains(
                        i)) by {
                        if nl[o].contains(i) {
                            let k = choose|k: int| 0 <= k < nl[o].len() && nl[o][k] == i;
                            assert(nl[o][k] != i);
                        }
                    }
                }
                Some(i)
            },
        }
    }

    /// Unthreads free node `i` from the chain of the list for `order`,
    /// wherever it stands; reports whether it was found there. A node that
    /// merely looks free but stands in no list is left untouched.
    #[verifier::rlimit(100)]
    fn list_remove(&mut self, i: usize, order: u8) -> (r: bool)
        requires
            old(self).wf(),
            order as int <= old(self).mo(),
        ensures
            final(self).wf(),
            final(self).mo() == old(self).mo(),
            final(self).n() == old(self).n(),
            r == old(self).lists()[order as int].contains(i),
            !r ==> *final(self) == *old(self),
            r ==> ({
                &&& final(self).lists() == old(self).lists().update(
                    order as int,
                    old(self).lists()[order as int].remove_value(i),
                )
                &&& forall|j: int|
                    0 <= j < old(self).n() ==> final(self).free_at(j) == old(self).free_at(j)
                        && final(self).order_at(j) == old(self).order_at(j)
                &&& final(self).unlisted(i)
                &&& final(self).clear_of(i as int, order as nat)
                &&& final(self).free_at(i as int)
                &&& final(self).order_at(i as int) == order as int
                &&& aligned(i as int, order as nat)
                &&& i < old(self).n()
            }),
    {
        let ghost l = self.lists()[order as int];
        let mut cur = self.free_lists[order as usize];
        let mut prev: Option<usize> = None;
        let ghost mut k: int = 0;
        proof {
            assert(old(self).chain_ok(order as int));
        }
        while cur.is_some()
            invariant
                self.wf(),
                *self == *old(self),
                order as int <= self.mo(),
                l == self.lists()[order as int],
                0 <= k <= l.len(),
                k < l.len() ==> cur == Some(l[k]),
                k == l.len() ==> cur is None,
                k == 0 ==> prev is None,
                k > 0 ==> prev == Some(l[k - 1]),
                forall|j: int| 0 <= j < k ==> l[j] != i,
            decreases l.len() - k,
        {
            let c = cur.unwrap();
            proof {
                assert(k < l.len());
                assert(c == l[k]);
                assert(block_ok(self.lists()[order as int][k] as int, order as nat, self.n()));
                // Entries of every list are pairwise distinct and distinct
                // across lists, so the scanned node is listed exactly once.
                assert forall|o2: int, k2: int| #![trigger self.lists()[o2][k2]]
                    0 <= o2 <= self.mo() && 0 <= k2 < self.lists()[o2].len()
                        && (o2 != order as int || k2 != k)
                    implies self.lists()[o2][k2] != c by {
                    assert(blocks_disjoint(self.lists()[o2][k2] as int, o2 as nat,
                        self.lists()[order as int][k] as int, order as nat));
                }
            }
            if c == i {
                let cnext = self.nodes[c].next;
                match prev {
                    Some(p) => {
                        proof {
                            assert(block_ok(self.lists()[order as int][k - 1] as int,
                                order as nat, self.n()));
                        }
                        let mut nd = self.nodes[p];
                        nd.next = cnext;
                        self.nodes.set(p, nd);
                    },
                    None => {
                        self.free_lists.set(order as usize, cnext);
                    },
                }
                let mut nd2 = self.nodes[c];
                nd2.next = None;
                self.nodes.set(c, nd2);
                proof {
                    let gl = self.free_view@.update(order as int, l.remove(k));
                    self.free_view = Ghost(gl);
                }
                proof {
                    let prevst = *old(self);
                    let ol = prevst.lists();
                    let nl = self.lists();
                    let oi = order as int;
                    assert(prevst.chain_ok(oi));
                    assert forall|o2: int, k2: int| #![trigger ol[o2][k2]]
                        0 <= o2 <= prevst.mo() && 0 <= k2 < ol[o2].len()
                            && (o2 != oi || k2 != k)
                        implies ol[o2][k2] != i && (k > 0 ==> ol[o2][k2] != l[k - 1] || (o2 == oi
                            && k2 == k - 1)) by {
                        assert(blocks_disjoint(ol[o2][k2] as int, o2 as nat, ol[oi][k] as int,
                            oi as nat));
                        if k > 0 && !(o2 == oi && k2 == k - 1) {
                            assert(blocks_disjoint(ol[o2][k2] as int, o2 as nat,
                                ol[oi][k - 1] as int, oi as nat));
                        }
                    }
                    assert forall|o: int, k2: int| #![trigger nl[o][k2]]
                        0 <= o <= self.mo() && 0 <= k2 < nl[o].len()
                        implies block_ok(nl[o][k2] as int, o as nat, self.n())
                            && self.free_at(nl[o][k2] as int)
                            && self.order_at(nl[o][k2] as int) == o
                            && nl[o][k2] != i by {
                        let k0: int = if o == oi && k2 >= k { k2 + 1 } else { k2 };
                        assert(nl[o][k2] == ol[o][k0]);
                    }
                    assert forall|o1: int, k1: int, o2: int, k2: int|
                        #![trigger nl[o1][k1], nl[o2][k2]]
                        0 <= o1 <= self.mo() && 0 <= k1 < nl[o1].len() && 0 <= o2 <= self.mo()
                            && 0 <= k2 < nl[o2].len() && (o1 != o2 || k1 != k2)
                        implies blocks_disjoint(
                            nl[o1][k1] as int, o1 as nat, nl[o2][k2] as int, o2 as nat) by {
                        let j1: int = if o1 == oi && k1 >= k { k1 + 1 } else { k1 };
                        let j2: int = if o2 == oi && k2 >= k { k2 + 1 } else { k2 };
                        assert(nl[o1][k1] == ol[o1][j1]);
                        assert(nl[o2][k2] == ol[o2][j2]);
                    }
                    assert forall|o: int| 0 <= o <= self.mo() implies #[trigger] self.chain_ok(
                        o) by {
                        assert(prevst.chain_ok(o));
                        let nlo = nl[o];
                        if o == oi {
                            assert forall|k2: int| #![trigger nlo[k2]] 0 <= k2 < nlo.len() - 1
                                implies self.nodes@[nlo[k2] as int].next == Some(
                                    nlo[k2 + 1]) by {
                                if k2 < k - 1 {
                                    assert(nlo[k2] == l[k2]);
                                    assert(nlo[k2 + 1] == l[k2 + 1]);
                                } else if k2 == k - 1 {
                                    assert(nlo[k2] == l[k - 1]);
                                    assert(nlo[k2 + 1] == l[k + 1]);
                                } else {
                                    assert(nlo[k2] == l[k2 + 1]);
                                    assert(nlo[k2 + 1] == l[k2 + 2]);
                                }
                            }
                            if nlo.len() > 0 {
                                let last: int = nlo.len() - 1;
                                if last < k {
                                    assert(nlo[last] == l[last]);
                                    assert(last == k - 1 && k == l.len() - 1);
                                } else {
                                    assert(nlo[last] == l[last + 1]);
                                }
                            }
                            if k == 0 {
                            } else {
                                assert(nlo.len() > 0 && nlo[0] == l[0]);
                            }
                        } else {
                            assert forall|k2: int| #![trigger nlo[k2]] 0 <= k2 < nlo.len() - 1
                                implies self.nodes@[nlo[k2] as int].next == Some(
                                    nlo[k2 + 1]) by {
                                assert(nlo[k2] == ol[o][k2]);
                            }
                            if nlo.len() > 0 {
                                assert(nlo[nlo.len() - 1] == ol[o][nlo.len() - 1]);
                            }
                        }
                    }
                    // The removed entry was the only occurrence of i anywhere.
                    assert forall|o: int| 0 <= o <= self.mo() implies !(#[trigger] nl[o].contains(
                        i)) by {
                        if nl[o].contains(i) {
                            let kx = choose|kx: int| 0 <= kx < nl[o].len() && nl[o][kx] == i;
                            assert(nl[o][kx] != i);
                        }
                    }
                    assert(self.clear_of(i as int, order as nat));
                    // remove_value removes exactly position k.
                    l.index_of_first_ensures(i);
                    assert(l.index_of_first(i) == Some(k));
                    assert(l.remove_value(i) == l.remove(k));
                }
                return true;
            }
            prev = cur;
            cur = self.nodes[c].next;
            proof {
                assert(self.chain_ok(order as int));
                if k < l.len() - 1 {
                    assert(cur == Some(l[k + 1]));
                } else {
                    assert(cur is None);
                }
                k = k + 1;
            }
        }
        proof {
            assert(k == l.len());
            if l.contains(i) {
                let j = choose|j: int| 0 <= j < l.len() && l[j] == i;
                assert(l[j] != i);
            }
        }
        false
    }

    /// The index of the other half of the aligned `2^(order+1)` block that
    /// contains the order-`order` block at `i`, per the XOR buddy relation.
    fn buddy_of(&self, i: usize, order: u8) -> (r: usize)
        requires
            self.wf(),
            order as int <= self.mo(),
            i < self.n(),
            aligned(i as int, order as nat),
        ensures
            r as int == buddy_int(i as int, order as nat),
    {
        proof {
            if (self.max_order as nat) < 30 {
                vstd::arithmetic::power2::lemma_pow2_strictly_increases(
                    self.max_order as nat,
                    30,
                );
            }
            lemma_buddy_props(i, order as usize);
        }
        i ^ (1usize << (order as usize))
    }

    /// Marks free node `i` (standing in no free list) as allocated.
    fn reserve(&mut self, i: usize) -> (r: Option<usize>)
        requires
            old(self).wf(),
            i < old(self).n(),
            old(self).free_at(i as int),
            old(self).unlisted(i),
        ensures
            final(self).wf(),
            r == Some(i),
            final(self).lists() == old(self).lists(),
            final(self).mo() == old(self).mo(),
            final(self).n() == old(self).n(),
            forall|j: int|
                0 <= j < old(self).n() && j != i ==> final(self).nodes@[j] == old(self).nodes@[j],
            !final(self).free_at(i as int),
            final(self).order_at(i as int) == old(self).order_at(i as int),
    {
        let mut nd = self.nodes[i];
        nd.free = false;
        self.nodes.set(i, nd);
        proof {
            let prev = *old(self);
            let ol = prev.lists();
            assert forall|o: int| 0 <= o <= prev.mo() implies !ol[o].contains(i) by {
                assert(!in_lists(ol, prev.mo(), i));
            }
            assert forall|o: int, k: int| #![trigger ol[o][k]]
                0 <= o <= self.mo() && 0 <= k < ol[o].len()
                implies self.nodes@[ol[o][k] as int] == prev.nodes@[ol[o][k] as int] by {
                assert(ol[o].contains(ol[o][k]));
            }
            assert forall|o: int| 0 <= o <= self.mo() implies #[trigger] self.chain_ok(o) by {
                assert(prev.chain_ok(o));
                let l = ol[o];
                assert forall|k: int| #![trigger l[k]] 0 <= k < l.len() - 1
                    implies self.nodes@[l[k] as int].next == Some(l[k + 1]) by {
                    assert(l.contains(l[k]));
                }
                if l.len() > 0 {
                    assert(l.contains(l[l.len() - 1]));
                }
            }
        }
        Some(i)
    }

    /// Halves the free block at `i` (held by the caller, listed nowhere):
    /// both halves drop one order, the right half goes onto its free list,
    /// and the left half is handed back. A base page cannot be split.
    fn split(&mut self, i: usize) -> (r: Option<usize>)
        requires
            old(self).wf(),
            i < old(self).n(),
            old(self).free_at(i as int),
            old(self).order_at(i as int) <= old(self).mo(),
            aligned(i as int, old(self).order_at(i as int) as nat),
            old(self).unlisted(i),
            old(self).clear_of(i as int, old(self).order_at(i as int) as nat),
        ensures
            final(self).wf(),
            final(self).mo() == old(self).mo(),
            final(self).n() == old(self).n(),
            old(self).order_at(i as int) == 0 ==> r is None && *final(self) == *old(self),
            old(self).order_at(i as int) > 0 ==> ({
                let no = old(self).order_at(i as int) - 1;
                let right = (i + pow2(no as nat)) as usize;
                &&& r == Some(i)
                &&& final(self).lists() == old(self).lists().update(
                    no,
                    seq![right] + old(self).lists()[no],
                )
                &&& final(self).free_at(i as int)
                &&& final(self).order_at(i as int) == no
                &&& aligned(i as int, no as nat)
                &&& final(self).unlisted(i)
                &&& final(self).clear_of(i as int, no as nat)
                &&& forall|j: int|
                    0 <= j < old(self).n() && !(i <= j < i + pow2((no + 1) as nat))
                        ==> final(self).free_at(j) == old(self).free_at(j)
                            && final(self).order_at(j) == old(self).order_at(j)
            }),
    {
        let order = self.nodes[i].order;
        if order == 0 {
            return None;
        }
        let new_order = order - 1;
        let nlen = self.nodes.len();
        proof {
            let o = order as nat;
            let no = new_order as nat;
            lemma_aligned_split(i as int, o);
            lemma_block_extent(i as int, o, self.max_order as nat);
            lemma_pow2_unfold(o);
            lemma_shl_is_pow2(new_order as usize);
            assert((1usize << (new_order as usize)) as int == pow2(no));
            assert(i + pow2(no) < self.n());
            assert(self.n() == nlen as int);
        }
        let right = i + (1usize << (new_order as usize));
        proof {
            let prev = *old(self);
            let ol = prev.lists();
            // Neither half of the held block is listed.
            assert forall|o2: int, k2: int| #![trigger ol[o2][k2]]
                0 <= o2 <= prev.mo() && 0 <= k2 < ol[o2].len()
                implies ol[o2][k2] != i && ol[o2][k2] != right by {
                assert(blocks_disjoint(i as int, order as nat, ol[o2][k2] as int, o2 as nat));
            }
            assert forall|o2: int| 0 <= o2 <= prev.mo() implies !(#[trigger] ol[o2].contains(
                right)) by {
                if ol[o2].contains(right) {
                    let kx = choose|kx: int| 0 <= kx < ol[o2].len() && ol[o2][kx] == right;
                    assert(ol[o2][kx] != right);
                }
            }
        }
        let mut ndl = self.nodes[i];
        ndl.order = new_order;
        ndl.free = true;
        ndl.next = None;
        self.nodes.set(i, ndl);
        let mut ndr = self.nodes[right];
        ndr.order = new_order;
        ndr.free = true;
        ndr.next = None;
        self.nodes.set(right, ndr);
        proof {
            let prev = *old(self);
            let ol = prev.lists();
            assert forall|o2: int, k2: int| #![trigger ol[o2][k2]]
                0 <= o2 <= self.mo() && 0 <= k2 < ol[o2].len()
                implies self.nodes@[ol[o2][k2] as int] == prev.nodes@[ol[o2][k2] as int] by {
                assert(blocks_disjoint(i as int, order as nat, ol[o2][k2] as int, o2 as nat));
            }
            assert forall|o2: int| 0 <= o2 <= self.mo() implies #[trigger] self.chain_ok(
                o2) by {
                assert(prev.chain_ok(o2));
                let l = ol[o2];
                assert forall|k: int| #![trigger l[k]] 0 <= k < l.len() - 1
                    implies self.nodes@[l[k] as int].next == Some(l[k + 1]) by {
                    assert(l.contains(l[k]));
                }
                if l.len() > 0 {
                    assert(l.contains(l[l.len() - 1]));
                }
            }
            // The right half is free, tagged, aligned, unlisted and clear.
            assert(aligned(right as int, new_order as nat));
            assert forall|o2: int, k2: int| #![trigger self.lists()[o2][k2]]
                0 <= o2 <= self.mo() && 0 <= k2 < self.lists()[o2].len()
                implies blocks_disjoint(right as int, new_order as nat,
                    self.lists()[o2][k2] as int, o2 as nat) by {
                assert(blocks_disjoint(i as int, order as nat, self.lists()[o2][k2] as int,
                    o2 as nat));
            }
        }
        self.list_push(right, new_order);
        proof {
            let nl = self.lists();
            let noi = new_order as int;
            assert forall|o2: int| 0 <= o2 <= self.mo() implies !(#[trigger] nl[o2].contains(
                i)) by {
                if nl[o2].contains(i) {
                    let kx = choose|kx: int| 0 <= kx < nl[o2].len() && nl[o2][kx] == i;
                    let ol = old(self).lists();
                    if o2 == noi && kx == 0 {
                    } else {
                        let k0: int = if o2 == noi { kx - 1 } else { kx };
                        assert(nl[o2][kx] == ol[o2][k0]);
                        assert(blocks_disjoint(i as int, order as nat, ol[o2][k0] as int,
                            o2 as nat));
                    }
                }
            }
            assert forall|o2: int, k2: int| #![trigger nl[o2][k2]]
                0 <= o2 <= self.mo() && 0 <= k2 < nl[o2].len()
                implies blocks_disjoint(i as int, new_order as nat, nl[o2][k2] as int,
                    o2 as nat) by {
                let ol = old(self).lists();
                if o2 == noi && k2 == 0 {
                    assert(nl[o2][k2] == right);
                } else {
                    let k0: int = if o2 == noi { k2 - 1 } else { k2 };
                    assert(nl[o2][k2] == ol[o2][k0]);
                    assert(blocks_disjoint(i as int, order as nat, ol[o2][k0] as int,
                        o2 as nat));
                }
            }
        }
        Some(i)
    }

    /// One coalescing step: if the held free block's buddy is itself a free
    /// block of the same order on its free list, take the buddy out and fuse
    /// the pair into the aligned block one order larger.
    fn merge_once(&mut self, i: usize) -> (r: Option<usize>)
        requires
            old(self).wf(),
            i < old(self).n(),
            old(self).free_at(i as int),
            old(self).order_at(i as int) <= old(self).mo(),
            aligned(i as int, old(self).order_at(i as int) as nat),
            old(self).unlisted(i),
            old(self).clear_of(i as int, old(self).order_at(i as int) as nat),
        ensures
            final(self).wf(),
            final(self).mo() == old(self).mo(),
            final(self).n() == old(self).n(),
            ({
                let o = old(self).order_at(i as int);
                let b = buddy_int(i as int, o as nat);
                if o < old(self).mo() && old(self).lists()[o].contains(b as usize) {
                    let m: usize = if b < i as int { b as usize } else { i };
                    &&& r == Some(m)
                    &&& final(self).lists() == old(self).lists().update(
                        o,
                        old(self).lists()[o].remove_value(b as usize),
                    )
                    &&& final(self).free_at(m as int)
                    &&& final(self).order_at(m as int) == o + 1
                    &&& aligned(m as int, (o + 1) as nat)
                    &&& final(self).unlisted(m)
                    &&& final(self).clear_of(m as int, (o + 1) as nat)
                    &&& m < old(self).n()
                    &&& (m as int == i || m as int + pow2(o as nat) == i)
                    &&& final(self).free_at(i as int)
                    &&& forall|j: int|
                        0 <= j < old(self).n() && j != m as int
                            ==> final(self).free_at(j) == old(self).free_at(j)
                                && final(self).order_at(j) == old(self).order_at(j)
                } else {
                    r is None && *final(self) == *old(self)
                }
            }),
    {
        let order = self.nodes[i].order;
        if (order as usize) >= self.max_order {
            return None;
        }
        proof {
            if (self.max_order as nat) < 30 {
                vstd::arithmetic::power2::lemma_pow2_strictly_increases(
                    self.max_order as nat,
                    30,
                );
            }
            lemma_buddy_props(i, order as usize);
            if aligned(i as int, (order + 1) as nat) {
                lemma_block_extent(i as int, (order + 1) as nat, self.max_order as nat);
                lemma_pow2_unfold((order + 1) as nat);
            }
        }
        let buddy = self.buddy_of(i, order);
        if buddy >= self.nodes.len() {
            return None;
        }
        if !self.nodes[i].free || !self.nodes[buddy].free || self.nodes[buddy].order != order {
            proof {
                let ol = old(self).lists();
                let oi = order as int;
                if ol[oi].contains(buddy) {
                    let kx = choose|kx: int| 0 <= kx < ol[oi].len() && ol[oi][kx] == buddy;
                    assert(old(self).free_at(ol[oi][kx] as int));
                }
            }
            return None;
        }
        let removed = self.list_remove(buddy, order);
        if !removed {
            return None;
        }
        let merged = if i < buddy {
            i
        } else {
            buddy
        };
        let ghost mid = *self;
        proof {
            let ml = mid.lists();
            let ol = old(self).lists();
            let oi = order as int;
            ol[oi].index_of_first_ensures(buddy);
            let kb = ol[oi].index_of_first(buddy)->Some_0;
            assert(0 <= kb < ol[oi].len() && ol[oi][kb] == buddy);
            assert(ml == ol.update(oi, ol[oi].remove(kb)));
            // The merged double block is aligned and clear of every list.
            assert(aligned(merged as int, (order + 1) as nat));
            assert forall|o2: int, k2: int| #![trigger ml[o2][k2]]
                0 <= o2 <= mid.mo() && 0 <= k2 < ml[o2].len()
                implies blocks_disjoint(merged as int, (order + 1) as nat, ml[o2][k2] as int,
                    o2 as nat) && ml[o2][k2] != merged by {
                let k0: int = if o2 == oi && k2 >= kb { k2 + 1 } else { k2 };
                assert(ml[o2][k2] == ol[o2][k0]);
                assert(blocks_disjoint(i as int, order as nat, ol[o2][k0] as int, o2 as nat));
                assert(blocks_disjoint(buddy as int, order as nat, ol[o2][k0] as int,
                    o2 as nat));
                lemma_pow2_unfold((order + 1) as nat);
            }
            assert forall|o2: int| 0 <= o2 <= mid.mo() implies !(#[trigger] mid.lists()[
                o2].contains(merged)) by {
                if mid.lists()[o2].contains(merged) {
                    let kx = choose|kx: int|
                        0 <= kx < mid.lists()[o2].len() && mid.lists()[o2][kx] == merged;
                    assert(mid.lists()[o2][kx] != merged);
                }
            }
        }
        let mut nd = self.nodes[merged];
        nd.order = order + 1;
        nd.free = true;
        self.nodes.set(merged, nd);
        proof {
            let ml = self.lists();
            assert(ml == mid.lists());
            assert forall|o2: int, k2: int| #![trigger ml[o2][k2]]
                0 <= o2 <= self.mo() && 0 <= k2 < ml[o2].len()
                implies self.free_at(ml[o2][k2] as int) && self.order_at(ml[o2][k2] as int)
                    == o2 && block_ok(ml[o2][k2] as int, o2 as nat, self.n()) by {
                assert(ml[o2][k2] != merged);
            }
            assert forall|o2: int| 0 <= o2 <= self.mo() implies #[trigger] self.chain_ok(
                o2) by {
                assert(mid.chain_ok(o2));
                let l = ml[o2];
                assert forall|k: int| #![trigger l[k]] 0 <= k < l.len() - 1
                    implies self.nodes@[l[k] as int].next == Some(l[k + 1]) by {
                    assert(l.contains(l[k]));
                    assert(l[k] != merged);
                }
                if l.len() > 0 {
                    assert(l.contains(l[l.len() - 1]));
                    assert(l[l.len() - 1] != merged);
                }
            }
            lemma_block_extent(merged as int, (order + 1) as nat, self.max_order as nat);
            assert forall|o2: int| 0 <= o2 <= self.mo() implies !(#[trigger] self.lists()[
                o2].contains(merged)) by {
                assert(!mid.lists()[o2].contains(merged));
            }
        }
        Some(merged)
    }

    /// Serves a request for a block of `2^order` contiguous pages. The free
    /// list of the requested order is popped if it has a block; otherwise
    /// the first larger free block is popped and split down to size, every
    /// surplus half going onto its own free list. Returns the block's page
    /// index, marked allocated and absent from every list — or nothing
    /// exactly when no order from `order` up to the maximum has a free
    /// block.
    pub fn allocate(&mut self, order: u8) -> (r: Option<usize>)
        requires
            old(self).wf(),
            order as int <= old(self).mo(),
        ensures
            final(self).wf(),
            final(self).mo() == old(self).mo(),
            final(self).n() == old(self).n(),
            ({
                let ffo = first_free_order(old(self).lists(), old(self).mo(), order as int);
                match ffo {
                    None => r is None && *final(self) == *old(self),
                    Some(oo) => ({
                        let i = old(self).lists()[oo][0];
                        &&& r == Some(i)
                        &&& final(self).lists() == split_lists(
                            old(self).lists().update(oo, old(self).lists()[oo].drop_first()),
                            i,
                            order as int,
                            oo,
                        )
                        &&& !final(self).free_at(i as int)
                        &&& final(self).order_at(i as int) == order as int
                        &&& aligned(i as int, order as nat)
                        &&& i < old(self).n()
                        &&& final(self).unlisted(i)
                        &&& final(self).clear_of(i as int, order as nat)
                        &&& forall|j: int|
                            0 <= j < old(self).n() && !((i as int) <= j < (i as int) + pow2(
                                oo as nat,
                            )) ==> final(self).free_at(j) == old(self).free_at(j)
                                && final(self).order_at(j) == old(self).order_at(j)
                    }),
                }
            }),
    {
        if let Some(i) = self.list_pop(order) {
            proof {
                lemma_scan_finds(old(self).lists(), old(self).mo(), order as int, order as int);
            }
            return self.reserve(i);
        }
        let mut o: u8 = order + 1;
        while (o as usize) <= self.max_order
            invariant
                self.wf(),
                *self == *old(self),
                order as int <= self.mo(),
                order < o,
                o as int <= self.mo() + 1,
                forall|j: int|
                    order as int <= j < o as int ==> #[trigger] self.lists()[j].len() == 0,
            decreases self.mo() + 1 - o as int,
        {
            if let Some(i) = self.list_pop(o) {
                proof {
                    lemma_scan_finds(old(self).lists(), old(self).mo(), order as int, o as int);
                }
                let ghost popped = self.lists();
                let mut cur = i;
                let mut j: u8 = o;
                while j > order
                    invariant
                        self.wf(),
                        self.mo() == old(self).mo(),
                        self.n() == old(self).n(),
                        order as int <= j as int <= o as int,
                        o as int <= self.mo(),
                        cur == i,
                        i < self.n(),
                        self.lists() == split_lists(popped, i, j as int, o as int),
                        self.free_at(i as int),
                        self.order_at(i as int) == j as int,
                        aligned(i as int, j as nat),
                        self.unlisted(i),
                        self.clear_of(i as int, j as nat),
                        forall|t: int|
                            0 <= t < self.n() && !((i as int) <= t < (i as int) + pow2(o as nat))
                                ==> self.free_at(t) == old(self).free_at(t) && self.order_at(t)
                                == old(self).order_at(t),
                    decreases j,
                {
                    let res = self.split(cur);
                    cur = res.unwrap();
                    j = j - 1;
                    proof {
                        lemma_pow2_mono((j + 1) as nat, o as nat);
                        assert(self.lists() == split_lists(popped, i, j as int, o as int));
                    }
                }
                return self.reserve(cur);
            }
            o = o + 1;
        }
        proof {
            lemma_scan_exhausted(old(self).lists(), old(self).mo(), order as int);
        }
        None
    }

    /// Hands the allocated block at page index `i` back to the pool. The
    /// node is marked free, coalesced with its free buddy as often as the
    /// buddy's order matches and the maximum order is not exceeded, and the
    /// resulting block is pushed onto its free list; `merge_spec` names the
    /// outcome exactly. Freeing a page already accounted free is refused.
    pub fn free(&mut self, i: usize) -> (r: Result<(), AllocError>)
        requires
            old(self).wf(),
            i < old(self).n(),
            !old(self).free_at(i as int) ==> ({
                &&& old(self).order_at(i as int) <= old(self).mo()
                &&& aligned(i as int, old(self).order_at(i as int) as nat)
                &&& old(self).clear_of(i as int, old(self).order_at(i as int) as nat)
            }),
        ensures
            final(self).wf(),
            final(self).mo() == old(self).mo(),
            final(self).n() == old(self).n(),
            old(self).free_at(i as int) ==> r == Err::<(), AllocError>(AllocError::AlreadyFree)
                && *final(self) == *old(self),
            !old(self).free_at(i as int) ==> ({
                let res = merge_spec(
                    old(self).lists(),
                    old(self).mo(),
                    i,
                    old(self).order_at(i as int),
                );
                &&& r == Ok::<(), AllocError>(())
                &&& final(self).lists() == res.0
                &&& final(self).free_at(i as int)
                &&& final(self).free_at(res.1 as int)
                &&& final(self).order_at(res.1 as int) == res.2
                &&& (res.1 as int) <= (i as int) && (i as int) < (res.1 as int) + pow2(
                    res.2 as nat,
                )
                &&& old(self).order_at(i as int) <= res.2 <= old(self).mo()
                &&& aligned(res.1 as int, res.2 as nat)
                &&& forall|j: int|
                    0 <= j < old(self).n() && !((res.1 as int) <= j < (res.1 as int) + pow2(
                        res.2 as nat,
                    )) ==> final(self).free_at(j) == old(self).free_at(j)
                        && final(self).order_at(j) == old(self).order_at(j)
            }),
    {
        if self.nodes[i].free {
            return Err(AllocError::AlreadyFree);
        }
        proof {
            // A node not flagged free stands in no list.
            assert forall|o2: int| 0 <= o2 <= self.mo() implies !(#[trigger] self.lists()[
                o2].contains(i)) by {
                if self.lists()[o2].contains(i) {
                    let kx = choose|kx: int|
                        0 <= kx < self.lists()[o2].len() && self.lists()[o2][kx] == i;
                    assert(self.free_at(self.lists()[o2][kx] as int));
                }
            }
        }
        let mut nd = self.nodes[i];
        nd.free = true;
        self.nodes.set(i, nd);
        proof {
            let prev = *old(self);
            let ol = prev.lists();
            assert forall|o2: int, k2: int| #![trigger ol[o2][k2]]
                0 <= o2 <= self.mo() && 0 <= k2 < ol[o2].len()
                implies self.nodes@[ol[o2][k2] as int] == prev.nodes@[ol[o2][k2] as int] by {
                assert(ol[o2].contains(ol[o2][k2]));
            }
            assert forall|o2: int| 0 <= o2 <= self.mo() implies #[trigger] self.chain_ok(
                o2) by {
                assert(prev.chain_ok(o2));
                let l = ol[o2];
                assert forall|k: int| #![trigger l[k]] 0 <= k < l.len() - 1
                    implies self.nodes@[l[k] as int].next == Some(l[k + 1]) by {
                    assert(l.contains(l[k]));
                }
                if l.len() > 0 {
                    assert(l.contains(l[l.len() - 1]));
                }
            }
        }
        let ghost o0 = self.order_at(i as int);
        let mut cur = i;
        let mut done = false;
        while !done
            invariant
                self.wf(),
                self.mo() == old(self).mo(),
                self.n() == old(self).n(),
                (cur as int) < self.n(),
                self.free_at(cur as int),
                o0 <= self.order_at(cur as int) <= self.mo(),
                aligned(cur as int, self.order_at(cur as int) as nat),
                self.unlisted(cur),
                self.clear_of(cur as int, self.order_at(cur as int) as nat),
                (cur as int) <= (i as int) && (i as int) < (cur as int) + pow2(
                    self.order_at(cur as int) as nat,
                ),
                (i as int) < self.n(),
                self.free_at(i as int),
                merge_spec(self.lists(), self.mo(), cur, self.order_at(cur as int))
                    == merge_spec(old(self).lists(), old(self).mo(), i, o0),
                done ==> !can_merge(self.lists(), self.mo(), cur, self.order_at(cur as int)),
                forall|t: int|
                    0 <= t < self.n() && !((cur as int) <= t < (cur as int) + pow2(
                        self.order_at(cur as int) as nat,
                    )) ==> self.free_at(t) == old(self).free_at(t) && self.order_at(t) == old(
                        self,
                    ).order_at(t),
                o0 == old(self).order_at(i as int),
                0 <= o0,
            decreases 2 * (self.mo() - self.order_at(cur as int)) + if done {
                0int
            } else {
                1int
            },
        {
            let ghost pre = *self;
            match self.merge_once(cur) {
                Some(nxt) => {
                    proof {
                        let o = pre.order_at(cur as int);
                        if (pre.max_order as nat) < 30 {
                            vstd::arithmetic::power2::lemma_pow2_strictly_increases(
                                pre.max_order as nat,
                                30,
                            );
                        }
                        lemma_buddy_props(cur, o as usize);
                        let bi = buddy_int(cur as int, o as nat);
                        assert(bi == (cur ^ (1usize << (o as usize))) as int);
                        assert(0 <= bi <= usize::MAX);
                        let b = bi as usize;
                        let m: usize = if (b as int) < cur as int {
                            b
                        } else {
                            cur
                        };
                        assert(can_merge(pre.lists(), pre.mo(), cur, o));
                        assert(nxt == m);
                        assert(self.lists() == pre.lists().update(
                            o,
                            pre.lists()[o].remove_value(b),
                        ));
                        assert(merge_spec(pre.lists(), pre.mo(), cur, o) == merge_spec(
                            self.lists(),
                            self.mo(),
                            m,
                            o + 1,
                        ));
                        lemma_pow2_unfold((o + 1) as nat);
                    }
                    cur = nxt;
                },
                None => {
                    done = true;
                },
            }
        }
        let order2 = self.nodes[cur].order;
        self.list_push(cur, order2);
        Ok(())
    }

    /// Resets every node to a base page and clears every free list, then
    /// seeds the pool: index 0 becomes the single free block of the maximum
    /// order, registered on the top free list. Without that seeding no
    /// allocation could ever succeed, so it is folded in here.
    pub fn init(&mut self)
        requires
            old(self).config_ok(),
        ensures
            final(self).wf(),
            final(self).mo() == old(self).mo(),
            final(self).n() == old(self).n(),
            final(self).lists().len() == final(self).mo() + 1,
            forall|o: int|
                0 <= o < final(self).mo() ==> #[trigger] final(self).lists()[o].len() == 0,
            final(self).lists()[final(self).mo()] == seq![0usize],
            fully_coalesced(final(self).lists(), final(self).mo()),
            final(self).free_at(0),
            final(self).order_at(0) == final(self).mo(),
            forall|j: int|
                1 <= j < final(self).n() ==> final(self).free_at(j) && final(self).order_at(j)
                    == 0,
    {
        let n = self.nodes.len();
        let mut idx: usize = 0;
        while idx < n
            invariant
                n == self.nodes@.len(),
                self.free_lists@.len() == old(self).free_lists@.len(),
                self.max_order == old(self).max_order,
                idx <= n,
                forall|j: int|
                    0 <= j < idx ==> #[trigger] self.nodes@[j] == (page_node {
                        page: mm_page { virt: 0 },
                        next: None,
                        order: 0,
                        free: true,
                    }),
            decreases n - idx,
        {
            self.nodes.set(
                idx,
                page_node { page: mm_page::new(), next: None, order: 0, free: true },
            );
            idx = idx + 1;
        }
        let fls = self.free_lists.len();
        let mut fi: usize = 0;
        while fi < fls
            invariant
                n == self.nodes@.len(),
                fls == self.free_lists@.len(),
                self.max_order == old(self).max_order,
                fi <= fls,
                forall|j: int| 0 <= j < fi ==> #[trigger] self.free_lists@[j] is None,
                forall|j: int|
                    0 <= j < n ==> #[trigger] self.nodes@[j] == (page_node {
                        page: mm_page { virt: 0 },
                        next: None,
                        order: 0,
                        free: true,
                    }),
            decreases fls - fi,
        {
            self.free_lists.set(fi, None);
            fi = fi + 1;
        }
        proof {
            let empties = Seq::new((self.max_order + 1) as nat, |o: int| Seq::<usize>::empty());
            self.free_view = Ghost(empties);
        }
        // Seed the whole pool as one top-order free block at index 0.
        let mo8: u8 = self.max_order as u8;
        let mut nd = self.nodes[0];
        nd.order = mo8;
        self.nodes.set(0, nd);
        proof {
            assert(self.n() == pow2(self.max_order as nat));
            assert(self.n() >= 1);
            assert forall|o: int| 0 <= o <= self.mo() implies #[trigger] self.chain_ok(o) by {}
            assert(aligned(0int, self.max_order as nat)) by {
                assert(0int % (pow2(self.max_order as nat) as int) == 0);
            }
        }
        self.list_push(0, mo8);
        proof {
            assert(self.lists()[self.mo()] =~= seq![0usize]);
        }
    }

    /// Builds a ready allocator over a pool of `2^max_order` base pages:
    /// constructed, reset, and seeded.
    pub fn new(max_order: usize) -> (r: page_allocator)
        requires
            max_order <= 30,
        ensures
            r.wf(),
            r.mo() == max_order,
            r.n() == pow2(max_order as nat),
            forall|o: int| 0 <= o < r.mo() ==> #[trigger] r.lists()[o].len() == 0,
            r.lists()[r.mo()] == seq![0usize],
            fully_coalesced(r.lists(), r.mo()),
            r.free_at(0),
            r.order_at(0) == r.mo(),
    {
        proof {
            lemma_shl_is_pow2(max_order);
        }
        let n = 1usize << max_order;
        let mut nodes: Vec<page_node> = Vec::new();
        let mut k: usize = 0;
        while k < n
            invariant
                nodes@.len() == k,
                k <= n,
            decreases n - k,
        {
            nodes.push(page_node { page: mm_page::new(), next: None, order: 0, free: true });
            k = k + 1;
        }
        let mut free_lists: Vec<Option<usize>> = Vec::new();
        let mut f: usize = 0;
        while f < max_order + 1
            invariant
                free_lists@.len() == f,
                f <= max_order + 1,
                max_order <= 30,
            decreases max_order + 1 - f,
        {
            free_lists.push(None);
            f = f + 1;
        }
        let ghost empties = Seq::new((max_order + 1) as nat, |o: int| Seq::<usize>::empty());
        let mut pa = page_allocator { free_lists, nodes, max_order, free_view: Ghost(empties) };
        pa.init();
        pa
    }

    /// Alignment law: every block on free list `o` starts at a multiple of
    /// `2^o` and lies inside the pool (and `allocate` hands out only such
    /// indices, by its own contract).
    pub proof fn lemma_listed_block_aligned(self, o: int, k: int)
        requires
            self.wf(),
            0 <= o <= self.mo(),
            0 <= k < self.lists()[o].len(),
        ensures
            aligned(self.lists()[o][k] as int, o as nat),
            self.lists()[o][k] as int + pow2(o as nat) <= self.n(),
    {
    }

    /// The pool's maximum block order.
    pub fn max_order(&self) -> (r: usize)
        ensures
            r as int == self.mo(),
    {
        self.max_order
    }

    /// Total number of base pages in the pool.
    pub fn num_pages(&self) -> (r: usize)
        ensures
            r as int == self.n(),
    {
        self.nodes.len()
    }

    /// Head of the free list for `order`, if that list is non-empty.
    pub fn free_list_head(&self, order: u8) -> (r: Option<usize>)
        requires
            self.wf(),
            order as int <= self.mo(),
        ensures
            r is Some <==> self.lists()[order as int].len() > 0,
            r is Some ==> r->Some_0 == self.lists()[order as int][0],
    {
        proof {
            assert(self.chain_ok(order as int));
        }
        self.free_lists[order as usize]
    }

    /// Block order recorded at node `i`.
    pub fn node_order(&self, i: usize) -> (r: u8)
        requires
            i < self.n(),
        ensures
            r as int == self.order_at(i as int),
    {
        self.nodes[i].order
    }

    /// Free flag recorded at node `i`.
    pub fn node_is_free(&self, i: usize) -> (r: bool)
        requires
            i < self.n(),
        ensures
            r == self.free_at(i as int),
    {
        self.nodes[i].free
    }
}

} // verus!
