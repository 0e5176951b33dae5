//! The orientations of a footprint form a symmetry orbit: their distinct
//! layouts number 1, 2, 4 or 8.
use vstd::prelude::*;

use crate::board::BOARD_SIZE;
use crate::pieces::{
    fits, flatten, flip_spec, has_layout, is_orientation, lemma_flip_fits, lemma_orient_fits, lemma_rotate_fits, orient, pad,
    padded_rows, rotate_n, rotate_spec, Piece, PieceVariant,
};

verus! {

proof fn lemma_padded_rows(s: Seq<Seq<bool>>, n: int)
    requires
        0 <= n <= s.len(),
        forall|i: int| 0 <= i < s.len() ==> #[trigger] s[i].len() <= BOARD_SIZE,
    ensures
        padded_rows(s, n).len() == n * BOARD_SIZE,
        forall|i: int, c: int| 0 <= i < n && 0 <= c < s[i].len() ==> padded_rows(s, n)[i * BOARD_SIZE + c] == #[trigger] s[i][c],
    decreases n,
{
    if n > 0 {
        lemma_padded_rows(s, n - 1);
        let prev = padded_rows(s, n - 1);
        let row = s[n - 1];
        assert(padded_rows(s, n) == prev + row + pad(BOARD_SIZE - row.len()));
        assert forall|i: int, c: int| 0 <= i < n && 0 <= c < s[i].len() implies padded_rows(s, n)[i * BOARD_SIZE + c]
            == #[trigger] s[i][c] by {
            if i < n - 1 {
                assert(i * BOARD_SIZE + c < (n - 1) * BOARD_SIZE) by (nonlinear_arith)
                    requires i < n - 1, c < BOARD_SIZE;
            } else {
                assert(i * BOARD_SIZE + c - prev.len() == c);
            }
        }
    }
}

/// Where cell `(i, c)` of a fitting footprint lands in its layout.
proof fn lemma_flatten_cells(s: Seq<Seq<bool>>)
    requires
        fits(s),
    ensures
        flatten(s).len() == (s.len() - 1) * BOARD_SIZE + s[0].len(),
        forall|i: int, c: int| 0 <= i < s.len() && 0 <= c < s[0].len() ==> flatten(s)[i * BOARD_SIZE + c] == #[trigger] s[i][c],
{
    reveal(flatten);
    let h = s.len();
    lemma_padded_rows(s, h - 1);
    assert(s.last() == s[h - 1]);
    assert forall|i: int, c: int| 0 <= i < s.len() && 0 <= c < s[0].len() implies flatten(s)[i * BOARD_SIZE + c]
        == #[trigger] s[i][c] by {
        assert(s[i].len() == s[0].len());
        if i < h - 1 {
            assert(i * BOARD_SIZE + c < (h - 1) * BOARD_SIZE) by (nonlinear_arith)
                requires i < h - 1, c < BOARD_SIZE;
        }
    }
}

/// Two fitting footprints with one layout are equal.
pub proof fn lemma_flatten_injective(a: Seq<Seq<bool>>, b: Seq<Seq<bool>>)
    requires
        fits(a),
        fits(b),
        flatten(a) == flatten(b),
    ensures
        a == b,
{
    lemma_flatten_cells(a);
    lemma_flatten_cells(b);
    assert(a.len() == b.len());
    assert(a[0].len() == b[0].len());
    assert forall|i: int| 0 <= i < a.len() implies #[trigger] a[i] == b[i] by {
        assert(a[i].len() == a[0].len() && b[i].len() == b[0].len());
        assert forall|c: int| 0 <= c < a[i].len() implies a[i][c] == b[i][c] by {
            assert(flatten(a)[i * BOARD_SIZE + c] == a[i][c]);
            assert(flatten(b)[i * BOARD_SIZE + c] == b[i][c]);
        }
        assert(a[i] =~= b[i]);
    }
    assert(a =~= b);
}

/// A half turn reverses the rows and every row.
proof fn lemma_half_turn(s: Seq<Seq<bool>>)
    requires
        fits(s),
    ensures
        rotate_spec(rotate_spec(s)) == Seq::new(
            s.len(),
            |i: int| Seq::new(s[0].len(), |k: int| s[s.len() - 1 - i][s[0].len() - 1 - k]),
        ),
{
    reveal(rotate_spec);
    lemma_rotate_fits(s);
    let h = s.len();
    let w = s[0].len();
    let r2 = rotate_spec(rotate_spec(s));
    let target = Seq::new(h, |i: int| Seq::new(w, |k: int| s[h - 1 - i][w - 1 - k]));
    assert forall|i: int| 0 <= i < h implies #[trigger] r2[i] == target[i] by {
        assert forall|k: int| 0 <= k < w implies r2[i][k] == target[i][k] by {
            assert(s[h - 1 - i].len() == w);
        }
        assert(r2[i] =~= target[i]);
    }
    assert(r2 =~= target);
}

proof fn lemma_rotate_n_fits(s: Seq<Seq<bool>>, n: nat)
    requires
        fits(s),
    ensures
        fits(rotate_n(s, n)),
    decreases n,
{
    if n > 0 {
        lemma_rotate_n_fits(s, (n - 1) as nat);
        lemma_rotate_fits(rotate_n(s, (n - 1) as nat));
    }
}

/// Turning `a` times, then `b` times, is turning `a + b` times.
proof fn lemma_rotate_n_add(s: Seq<Seq<bool>>, a: nat, b: nat)
    ensures
        rotate_n(rotate_n(s, a), b) == rotate_n(s, a + b),
    decreases b,
{
    if b > 0 {
        lemma_rotate_n_add(s, a, (b - 1) as nat);
    }
}

/// Four quarter turns give the footprint back.
proof fn lemma_four_turns(s: Seq<Seq<bool>>)
    requires
        fits(s),
    ensures
        rotate_n(s, 4) == s,
{
    lemma_half_turn(s);
    let h = s.len();
    let w = s[0].len();
    let half = rotate_spec(rotate_spec(s));
    assert(fits(half)) by {
        lemma_rotate_fits(s);
        lemma_rotate_fits(rotate_spec(s));
    }
    lemma_half_turn(half);
    assert(rotate_n(s, 2) == half) by {
        reveal_with_fuel(rotate_n, 3);
    }
    lemma_rotate_n_add(s, 2, 2);
    assert(rotate_n(half, 2) == rotate_spec(rotate_spec(half))) by {
        reveal_with_fuel(rotate_n, 3);
    }
    let full = rotate_spec(rotate_spec(half));
    assert forall|i: int| 0 <= i < h implies #[trigger] full[i] == s[i] by {
        assert(s[i].len() == w);
        assert(full[i] =~= s[i]);
    }
    assert(full =~= s);
}

/// Mirroring twice gives the footprint back.
proof fn lemma_flip_flip(s: Seq<Seq<bool>>)
    requires
        fits(s),
    ensures
        flip_spec(flip_spec(s)) == s,
{
    reveal(flip_spec);
    let f = flip_spec(flip_spec(s));
    assert forall|i: int| 0 <= i < s.len() implies #[trigger] f[i] == s[i] by {
        assert(f[i] =~= s[i]);
    }
    assert(f =~= s);
}

/// A quarter turn of the mirror image is the mirror image of three quarter turns.
proof fn lemma_turn_after_flip(s: Seq<Seq<bool>>)
    requires
        fits(s),
    ensures
        rotate_spec(flip_spec(s)) == flip_spec(rotate_n(s, 3)),
{
    let h = s.len();
    let w = s[0].len();
    lemma_half_turn(s);
    lemma_rotate_fits(s);
    lemma_rotate_fits(rotate_spec(s));
    assert(rotate_n(s, 3) == rotate_spec(rotate_spec(rotate_spec(s)))) by {
        reveal_with_fuel(rotate_n, 4);
    }
    let half = rotate_spec(rotate_spec(s));
    reveal(rotate_spec);
    reveal(flip_spec);
    let lhs = rotate_spec(flip_spec(s));
    let three = rotate_spec(half);
    assert(three.len() == w);
    assert forall|i: int| 0 <= i < w implies #[trigger] three[i] == Seq::new(h, |k: int| s[k][w - 1 - i]) by {
        assert forall|k: int| 0 <= k < h implies three[i][k] == s[k][w - 1 - i] by {
            assert(s[k].len() == w);
        }
        assert(three[i] =~= Seq::new(h, |k: int| s[k][w - 1 - i]));
    }
    let rhs = flip_spec(three);
    assert forall|i: int| 0 <= i < w implies #[trigger] lhs[i] == rhs[i] by {
        assert forall|k: int| 0 <= k < h implies lhs[i][k] == rhs[i][k] by {
            assert(s[h - 1 - k].len() == w);
        }
        assert(lhs[i] =~= rhs[i]);
    }
    assert(lhs =~= rhs);
}

/// The layouts of the eight orientations of `s`.
pub open spec fn orientation_layouts(s: Seq<Seq<bool>>) -> Set<Seq<bool>> {
    set![
        flatten(orient(s, 0)),
        flatten(orient(s, 1)),
        flatten(orient(s, 2)),
        flatten(orient(s, 3)),
        flatten(orient(s, 4)),
        flatten(orient(s, 5)),
        flatten(orient(s, 6)),
        flatten(orient(s, 7)),
    ]
}

/// The eight orientations of a fitting footprint have 1, 2, 4 or 8 distinct layouts.
proof fn lemma_orbit_size(s: Seq<Seq<bool>>)
    requires
        fits(s),
    ensures
        orientation_layouts(s).len() == 1 || orientation_layouts(s).len() == 2 || orientation_layouts(s).len() == 4
            || orientation_layouts(s).len() == 8,
{
    reveal(orient);
    let x0 = s;
    let x1 = rotate_n(s, 1);
    let x2 = rotate_n(s, 2);
    let x3 = rotate_n(s, 3);
    let f = flip_spec(s);
    lemma_flip_fits(s);
    lemma_rotate_n_fits(s, 1);
    lemma_rotate_n_fits(s, 2);
    lemma_rotate_n_fits(s, 3);
    lemma_rotate_n_fits(f, 1);
    lemma_rotate_n_fits(f, 2);
    lemma_rotate_n_fits(f, 3);
    assert(x1 == rotate_spec(x0) && x2 == rotate_spec(x1) && x3 == rotate_spec(x2)) by {
        reveal_with_fuel(rotate_n, 4);
    }
    lemma_four_turns(s);
    assert(rotate_spec(x3) == x0) by {
        reveal_with_fuel(rotate_n, 5);
    }
    let y1 = rotate_n(f, 1);
    let y2 = rotate_n(f, 2);
    let y3 = rotate_n(f, 3);
    assert(y1 == rotate_spec(f) && y2 == rotate_spec(y1) && y3 == rotate_spec(y2)) by {
        reveal_with_fuel(rotate_n, 4);
    }
    lemma_turn_after_flip(x0);
    lemma_turn_after_flip(x1);
    lemma_turn_after_flip(x2);
    lemma_turn_after_flip(x3);
    assert(rotate_n(x0, 3) == rotate_spec(rotate_spec(rotate_spec(x0)))) by {
        reveal_with_fuel(rotate_n, 4);
    }
    assert(rotate_n(x1, 3) == rotate_spec(rotate_spec(rotate_spec(x1)))) by {
        reveal_with_fuel(rotate_n, 4);
    }
    assert(rotate_n(x2, 3) == rotate_spec(rotate_spec(rotate_spec(x2)))) by {
        reveal_with_fuel(rotate_n, 4);
    }
    assert(rotate_n(x3, 3) == rotate_spec(rotate_spec(rotate_spec(x3)))) by {
        reveal_with_fuel(rotate_n, 4);
    }
    lemma_flip_flip(x0);
    lemma_flip_flip(x1);
    lemma_flip_flip(x2);
    lemma_flip_flip(x3);
    assert(y1 == flip_spec(x3));
    assert(y2 == flip_spec(x2));
    assert(y3 == flip_spec(x1));
    assert forall|a: int, b: int|
        0 <= a < 8 && 0 <= b < 8 && flatten(#[trigger] orient(s, a)) == flatten(#[trigger] orient(s, b)) implies orient(
        s,
        a,
    ) == orient(s, b) by {
        lemma_orient_fits(s, a);
        lemma_orient_fits(s, b);
        lemma_flatten_injective(orient(s, a), orient(s, b));
    }
    assert(orient(s, 0) == x0 && orient(s, 1) == x1 && orient(s, 2) == x2 && orient(s, 3) == x3);
    assert(orient(s, 4) == f && orient(s, 5) == y1 && orient(s, 6) == y2 && orient(s, 7) == y3);
    let set8 = orientation_layouts(s);
    if x1 == x0 {
        if f == x0 {
            assert(set8 =~= set![flatten(x0)]);
        } else {
            assert(set8 =~= set![flatten(x0), flatten(f)]);
        }
    } else if x2 == x0 {
        if f == x0 || f == x1 {
            assert(set8 =~= set![flatten(x0), flatten(x1)]);
        } else {
            assert(set8 =~= set![flatten(x0), flatten(x1), flatten(f), flatten(y1)]);
        }
    } else {
        if f == x0 || f == x1 || f == x2 || f == x3 {
            assert(set8 =~= set![flatten(x0), flatten(x1), flatten(x2), flatten(x3)]);
        } else {
            assert(set8 =~= set![
                flatten(x0), flatten(x1), flatten(x2), flatten(x3),
                flatten(f), flatten(y1), flatten(y2), flatten(y3),
            ]);
        }
    }
}

/// Every piece built from a footprint, each shape of the catalog among them,
/// has 1, 2, 4 or 8 variants, no two of them with the same layout.
pub proof fn lemma_variant_count(pc: Piece)
    requires
        pc.wf(),
    ensures
        pc.variants@.len() == 1 || pc.variants@.len() == 2 || pc.variants@.len() == 4 || pc.variants@.len() == 8,
        forall|a: int, b: int|
            0 <= a < b < pc.variants@.len() ==> pc.variants@[a].variant@ != pc.variants@[b].variant@,
{
    let s = crate::pieces::grid_of(pc.shape@);
    let vs = pc.variants@;
    let lay = vs.map_values(|v: PieceVariant| v.variant@);
    assert forall|a: int, b: int| 0 <= a < lay.len() && 0 <= b < lay.len() && a != b implies lay[a] != lay[b] by {
        assert(a < b || b < a);
    }
    let set8 = orientation_layouts(s);
    assert forall|x: Seq<bool>| lay.to_set().contains(x) <==> set8.contains(x) by {
        if lay.to_set().contains(x) {
            let a = choose|a: int| 0 <= a < lay.len() && lay[a] == x;
            assert(is_orientation(vs[a], s, 8));
            reveal(is_orientation);
            let mm = choose|mm: int| 0 <= mm < 8 && vs[a].laid_out_from(orient(s, mm));
            reveal(PieceVariant::laid_out_from);
            assert(x == flatten(orient(s, mm)));
            assert(mm == 0 || mm == 1 || mm == 2 || mm == 3 || mm == 4 || mm == 5 || mm == 6 || mm == 7);
        }
        if set8.contains(x) {
            let k: int = if x == flatten(orient(s, 0)) {
                0
            } else if x == flatten(orient(s, 1)) {
                1
            } else if x == flatten(orient(s, 2)) {
                2
            } else if x == flatten(orient(s, 3)) {
                3
            } else if x == flatten(orient(s, 4)) {
                4
            } else if x == flatten(orient(s, 5)) {
                5
            } else if x == flatten(orient(s, 6)) {
                6
            } else {
                7
            };
            assert(x == flatten(orient(s, k)));
            assert(has_layout(vs, orient(s, k)));
            reveal(has_layout);
            let a = choose|a: int| 0 <= a < vs.len() && vs[a].variant@ == flatten(orient(s, k));
            assert(lay[a] == x);
        }
    }
    assert(lay.to_set() =~= set8);
    lay.unique_seq_to_set();
    lemma_orbit_size(s);
}

} // verus!
