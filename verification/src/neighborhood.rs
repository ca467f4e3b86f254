//! The order in which the cells around an anchor are listed: the box of
//! radius `r` scanned row by row, the anchor itself left out.

use vstd::prelude::*;
use vstd::arithmetic::div_mod::lemma_fundamental_div_mod_converse;

verus! {

/// Side of the box of radius `r`.
pub open spec fn side(r: int) -> int {
    2 * r + 1
}

/// Place of the anchor in the scan of the box of radius `r`.
pub open spec fn center(r: int) -> int {
    r * side(r) + r
}

/// The offset `(dx, dy)` at place `s` of the scan of the whole box: `dx`
/// runs from `-r` to `r`, and for each `dx` so does `dy`.
pub open spec fn scan_offset(r: int, s: int) -> (int, int) {
    (s / side(r) - r, s % side(r) - r)
}

/// The offsets of the neighbours within radius `r`, in scan order: the scan
/// of the whole box without the anchor. Empty for `r <= 0`.
pub open spec fn neighbor_offsets(r: int) -> Seq<(int, int)> {
    if r <= 0 {
        Seq::empty()
    } else {
        Seq::new(
            (side(r) * side(r) - 1) as nat,
            |k: int|
                if k < center(r) {
                    scan_offset(r, k)
                } else {
                    scan_offset(r, k + 1)
                },
        )
    }
}

/// The scan reaches `(dx, dy)` at place `(dx + r) * side(r) + (dy + r)`.
pub proof fn lemma_scan_offset(r: int, dx: int, dy: int)
    requires
        r >= 0,
        -r <= dy <= r,
    ensures
        scan_offset(r, (dx + r) * side(r) + (dy + r)) == (dx, dy),
{
    lemma_fundamental_div_mod_converse((dx + r) * side(r) + (dy + r), side(r), dx + r, dy + r);
}

/// Inside the box, only the anchor is scanned at the centre's place.
pub proof fn lemma_center(r: int, dx: int, dy: int)
    requires
        r >= 0,
        -r <= dy <= r,
    ensures
        (dx + r) * side(r) + (dy + r) == center(r) <==> dx == 0 && dy == 0,
{
    lemma_scan_offset(r, dx, dy);
    lemma_scan_offset(r, 0, 0);
}

/// Every listed offset lies in the box and none is the anchor.
pub proof fn lemma_neighbor_offsets(r: int, k: int)
    requires
        r >= 1,
        0 <= k < neighbor_offsets(r).len(),
    ensures
        -r <= neighbor_offsets(r)[k].0 <= r,
        -r <= neighbor_offsets(r)[k].1 <= r,
        neighbor_offsets(r)[k] != (0int, 0int),
{
    let n = side(r);
    let s = if k < center(r) {
        k
    } else {
        k + 1
    };
    assert(n * n >= 1) by (nonlinear_arith)
        requires
            n >= 1,
    ;
    assert(0 <= s < n * n);
    assert(0 <= s % n < n && 0 <= s / n < n && s == n * (s / n) + s % n) by (nonlinear_arith)
        requires
            n > 0,
            0 <= s < n * n,
    ;
    let dx = s / n - r;
    let dy = s % n - r;
    assert((dx + r) * n + (dy + r) == s) by (nonlinear_arith)
        requires
            s == n * (s / n) + s % n,
            dx == s / n - r,
            dy == s % n - r,
    ;
    lemma_center(r, dx, dy);
}

/// Within radius 1 the neighbours are listed as
/// `(-1,-1), (-1,0), (-1,1), (0,-1), (0,1), (1,-1), (1,0), (1,1)`.
pub proof fn lemma_neighbor_offsets_radius_one()
    ensures
        neighbor_offsets(1) =~= seq![
            (-1int, -1int),
            (-1int, 0int),
            (-1int, 1int),
            (0int, -1int),
            (0int, 1int),
            (1int, -1int),
            (1int, 0int),
            (1int, 1int),
        ],
{
    lemma_scan_offset(1, -1, -1);
    lemma_scan_offset(1, -1, 0);
    lemma_scan_offset(1, -1, 1);
    lemma_scan_offset(1, 0, -1);
    lemma_scan_offset(1, 0, 1);
    lemma_scan_offset(1, 1, -1);
    lemma_scan_offset(1, 1, 0);
    lemma_scan_offset(1, 1, 1);
}

} // verus!
