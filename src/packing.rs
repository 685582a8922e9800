//! The order in which tiles fill the atlas: ring by ring around a growing
//! completed square, first the row below it, then the column to its right.

use vstd::prelude::*;

verus! {

/// The cursor `(completed, position)` that follows `c`: one step along the
/// ring, or the start of the next ring once `2 * completed + 1` slots are filled.
pub open spec fn next_cursor(c: (nat, nat)) -> (nat, nat) {
    if c.1 + 1 >= 2 * c.0 + 1 {
        ((c.0 + 1) as nat, 0)
    } else {
        (c.0, (c.1 + 1) as nat)
    }
}

/// The cursor after `k` tiles have been placed on an empty atlas.
pub open spec fn cursor_after(k: nat) -> (nat, nat)
    decreases k,
{
    if k == 0 {
        (0, 0)
    } else {
        next_cursor(cursor_after((k - 1) as nat))
    }
}

/// The slot, in tile units, that the cursor `c` points at.
pub open spec fn slot_of(c: (nat, nat)) -> (nat, nat) {
    if c.1 < c.0 {
        (c.1, c.0)
    } else {
        (c.0, (c.1 - c.0) as nat)
    }
}

/// The slot, in tile units, of the `k`-th tile placed (counting from 0).
pub open spec fn slot(k: nat) -> (nat, nat) {
    slot_of(cursor_after(k))
}

/// Ring sizes: after `k` tiles the cursor `(s, p)` has `k == s * s + p` and
/// `p <= 2 * s`, so the ring with completed side `s` receives exactly the tiles
/// numbered `s * s` to `s * s + 2 * s`, that is `2 * s + 1` of them, and the
/// completed side never decreases.
pub proof fn lemma_ring_sizes(k: nat)
    ensures
        cursor_after(k).0 * cursor_after(k).0 + cursor_after(k).1 == k,
        cursor_after(k).1 <= 2 * cursor_after(k).0,
        cursor_after(k).0 <= cursor_after(k + 1).0,
        cursor_after(k + 1).0 <= cursor_after(k).0 + 1,
    decreases k,
{
    if k > 0 {
        lemma_ring_sizes((k - 1) as nat);
        let c = cursor_after((k - 1) as nat);
        assert(cursor_after(k) == next_cursor(c));
        if c.1 + 1 >= 2 * c.0 + 1 {
            assert(c.1 == 2 * c.0);
            assert((c.0 + 1) * (c.0 + 1) == c.0 * c.0 + 2 * c.0 + 1) by (nonlinear_arith);
        }
    }
    assert(cursor_after(k + 1) == next_cursor(cursor_after(k)));
}

/// The tile numbered `k` is placed while the completed side is `s` exactly
/// when `s * s <= k < (s + 1) * (s + 1)`.
pub proof fn lemma_ring_members(k: nat, s: nat)
    ensures
        cursor_after(k).0 == s <==> s * s <= k < (s + 1) * (s + 1),
{
    lemma_ring_sizes(k);
    let t = cursor_after(k).0;
    assert((t + 1) * (t + 1) == t * t + 2 * t + 1) by (nonlinear_arith);
    if s * s <= k < (s + 1) * (s + 1) {
        if s < t {
            assert((s + 1) * (s + 1) <= t * t) by (nonlinear_arith)
                requires s + 1 <= t;
        } else if t < s {
            assert((t + 1) * (t + 1) <= s * s) by (nonlinear_arith)
                requires t + 1 <= s;
        }
    }
}

/// Distinct tiles get distinct slots.
pub proof fn lemma_slots_distinct(i: nat, j: nat)
    requires
        i != j,
    ensures
        slot(i) != slot(j),
{
    lemma_ring_sizes(i);
    lemma_ring_sizes(j);
    let ci = cursor_after(i);
    let cj = cursor_after(j);
    if slot(i) == slot(j) {
        assert(ci.0 == cj.0);
        assert(ci.1 == cj.1);
    }
}

} // verus!
