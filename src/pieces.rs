//! Piece shapes and their deduplicated orientation variants.
use vstd::prelude::*;

use crate::board::{BOARD_SIZE, BOARD_SPACES};

verus! {

/// The plain rows of a footprint.
pub open spec fn grid_of(shape: Seq<Vec<bool>>) -> Seq<Seq<bool>> {
    shape.map_values(|r: Vec<bool>| r@)
}

/// `n` empty cells.
pub open spec fn pad(n: int) -> Seq<bool> {
    Seq::new(n as nat, |_k: int| false)
}

/// The first `n` rows, each padded on the right to the board's width.
pub open spec fn padded_rows(shape: Seq<Seq<bool>>, n: int) -> Seq<bool>
    decreases n,
{
    if n <= 0 {
        seq![]
    } else {
        padded_rows(shape, n - 1) + shape[n - 1] + pad(BOARD_SIZE - shape[n - 1].len())
    }
}

/// A footprint laid out against the board's width: every row but the last
/// is padded to a full board row.
#[verifier::opaque]
pub open spec fn flatten(shape: Seq<Seq<bool>>) -> Seq<bool> {
    if shape.len() == 0 {
        seq![]
    } else {
        padded_rows(shape, shape.len() - 1) + shape.last()
    }
}

/// `offs` is the ascending list of the filled positions of `cells`.
#[verifier::opaque]
pub open spec fn filled_offsets(offs: Seq<usize>, cells: Seq<bool>) -> bool {
    &&& forall|a: int, b: int| 0 <= a < b < offs.len() ==> offs[a] < offs[b]
    &&& forall|a: int| 0 <= a < offs.len() ==> offs[a] < cells.len() && cells[offs[a] as int]
    &&& forall|k: int|
        0 <= k < cells.len() && #[trigger] cells[k] ==> exists|a: int|
            0 <= a < offs.len() && offs[a] == k
}

/// The footprint has a row, and every row but the last fits in a board row
/// (the last one is not padded).
pub open spec fn rows_fit(shape: Seq<Seq<bool>>) -> bool {
    &&& shape.len() > 0
    &&& forall|i: int| 0 <= i < shape.len() - 1 ==> #[trigger] shape[i].len() <= BOARD_SIZE
}

/// A footprint with at least one row and one column, all rows of one length,
/// and no side longer than the board.
pub open spec fn fits(shape: Seq<Seq<bool>>) -> bool {
    &&& 0 < shape.len() <= BOARD_SIZE
    &&& 0 < shape[0].len() <= BOARD_SIZE
    &&& forall|i: int| 0 <= i < shape.len() ==> #[trigger] shape[i].len() == shape[0].len()
}

/// A quarter turn: column `i` of `shape`, read from the bottom up, becomes row `i`.
#[verifier::opaque]
pub open spec fn rotate_spec(shape: Seq<Seq<bool>>) -> Seq<Seq<bool>> {
    Seq::new(
        shape[0].len(),
        |i: int| Seq::new(shape.len(), |k: int| shape[shape.len() - 1 - k][i]),
    )
}

/// The mirror image: every row reversed.
#[verifier::opaque]
pub open spec fn flip_spec(shape: Seq<Seq<bool>>) -> Seq<Seq<bool>> {
    Seq::new(
        shape.len(),
        |i: int| Seq::new(shape[i].len(), |k: int| shape[i][shape[i].len() - 1 - k]),
    )
}

/// `n` quarter turns.
pub open spec fn rotate_n(shape: Seq<Seq<bool>>, n: nat) -> Seq<Seq<bool>>
    decreases n,
{
    if n == 0 {
        shape
    } else {
        rotate_spec(rotate_n(shape, (n - 1) as nat))
    }
}

/// The eight orientations: `m < 4` turns `m` times; `4 <= m` mirrors, then
/// turns `m - 4` times.
#[verifier::opaque]
pub open spec fn orient(shape: Seq<Seq<bool>>, m: int) -> Seq<Seq<bool>> {
    if m < 4 {
        rotate_n(shape, m as nat)
    } else {
        rotate_n(flip_spec(shape), (m - 4) as nat)
    }
}

/// Number of filled cells of a row.
pub open spec fn count_true(cells: Seq<bool>) -> nat
    decreases cells.len(),
{
    if cells.len() == 0 {
        0
    } else {
        count_true(cells.drop_last()) + if cells.last() {
            1nat
        } else {
            0nat
        }
    }
}

/// Number of filled cells of a footprint.
pub open spec fn shape_points(shape: Seq<Seq<bool>>) -> nat
    decreases shape.len(),
{
    if shape.len() == 0 {
        0
    } else {
        shape_points(shape.drop_last()) + count_true(shape.last())
    }
}

/// `v` is laid out from one of the first `m` orientations of `shape`.
#[verifier::opaque]
pub open spec fn is_orientation(v: PieceVariant, shape: Seq<Seq<bool>>, m: int) -> bool {
    exists|mm: int| 0 <= mm < m && v.laid_out_from(orient(shape, mm))
}

/// Some entry of `vs` has the layout of `shape`.
#[verifier::opaque]
pub open spec fn has_layout(vs: Seq<PieceVariant>, shape: Seq<Seq<bool>>) -> bool {
    exists|a: int| 0 <= a < vs.len() && vs[a].variant@ == flatten(shape)
}

/// The layouts of the eight orientations, in generation order.
pub open spec fn orientation_seq(shape: Seq<Seq<bool>>) -> Seq<Seq<bool>> {
    Seq::new(8, |m: int| flatten(orient(shape, m)))
}

/// The entries of `s` at their first appearance, in order.
pub open spec fn distinct_in_order(s: Seq<Seq<bool>>) -> Seq<Seq<bool>>
    decreases s.len(),
{
    if s.len() == 0 {
        seq![]
    } else {
        let d = distinct_in_order(s.drop_last());
        if d.contains(s.last()) {
            d
        } else {
            d.push(s.last())
        }
    }
}

/// The layouts of a list of variants.
pub open spec fn layouts(vs: Seq<PieceVariant>) -> Seq<Seq<bool>> {
    vs.map_values(|v: PieceVariant| v.variant@)
}

/// `vs` is the deduplicated list of the orientations of `shape`: no two
/// entries share a layout, each entry is one orientation, each orientation
/// has an entry, the layouts come in the order of their first appearance
/// among the eight orientations (the shape itself first), and every entry
/// records the column count of the unturned shape.
pub open spec fn variants_of(vs: Seq<PieceVariant>, shape: Seq<Seq<bool>>) -> bool {
    &&& 1 <= vs.len() <= 8
    &&& layouts(vs) == distinct_in_order(orientation_seq(shape))
    &&& forall|a: int| 0 <= a < vs.len() ==> (#[trigger] vs[a]).width == shape[0].len()
    &&& forall|a: int, b: int| 0 <= a < b < vs.len() ==> vs[a].variant@ != vs[b].variant@
    &&& forall|a: int| 0 <= a < vs.len() ==> is_orientation(#[trigger] vs[a], shape, 8)
    &&& forall|m: int| 0 <= m < 8 ==> has_layout(vs, #[trigger] orient(shape, m))
    &&& vs[0].laid_out_from(shape)
}

/// The orientations `0..m` have been processed into `vs`.
pub open spec fn partial_variants(vs: Seq<PieceVariant>, shape: Seq<Seq<bool>>, m: int) -> bool {
    &&& vs.len() <= m
    &&& layouts(vs) == distinct_in_order(orientation_seq(shape).take(m))
    &&& forall|a: int| 0 <= a < vs.len() ==> (#[trigger] vs[a]).width == shape[0].len()
    &&& m > 0 ==> vs.len() >= 1 && vs[0].laid_out_from(shape)
    &&& forall|a: int, b: int| 0 <= a < b < vs.len() ==> vs[a].variant@ != vs[b].variant@
    &&& forall|a: int| 0 <= a < vs.len() ==> is_orientation(#[trigger] vs[a], shape, m)
    &&& forall|mm: int| 0 <= mm < m ==> has_layout(vs, #[trigger] orient(shape, mm))
}

proof fn lemma_layout(v: PieceVariant, shape: Seq<Seq<bool>>)
    requires
        v.laid_out_from(shape),
    ensures
        v.variant@ == flatten(shape),
{
    reveal(PieceVariant::laid_out_from);
}

proof fn lemma_partial_step(
    prev: Seq<PieceVariant>,
    next: Seq<PieceVariant>,
    nv: PieceVariant,
    shape: Seq<Seq<bool>>,
    m: int,
)
    requires
        0 <= m < 8,
        partial_variants(prev, shape, m),
        nv.laid_out_from(orient(shape, m)),
        nv.width == shape[0].len(),
        (exists|a: int| 0 <= a < prev.len() && prev[a].variant@ == nv.variant@) ==> next == prev,
        !(exists|a: int| 0 <= a < prev.len() && prev[a].variant@ == nv.variant@) ==> next == prev.push(nv),
    ensures
        partial_variants(next, shape, m + 1),
        m + 1 == 8 ==> variants_of(next, shape),
{
    lemma_layout(nv, orient(shape, m));
    let os = orientation_seq(shape);
    assert(os.take(m + 1).drop_last() =~= os.take(m));
    assert(os.take(m + 1).last() == nv.variant@);
    let d = layouts(prev);
    assert(d.contains(nv.variant@) <==> exists|a: int| 0 <= a < prev.len() && prev[a].variant@ == nv.variant@) by {
        if d.contains(nv.variant@) {
            let a = choose|a: int| 0 <= a < d.len() && d[a] == nv.variant@;
            assert(prev[a].variant@ == nv.variant@);
        }
        if exists|a: int| 0 <= a < prev.len() && prev[a].variant@ == nv.variant@ {
            let a = choose|a: int| 0 <= a < prev.len() && prev[a].variant@ == nv.variant@;
            assert(d[a] == nv.variant@);
        }
    }
    if next.len() > prev.len() {
        assert(layouts(next) =~= d.push(nv.variant@));
    }
    assert forall|a: int| 0 <= a < next.len() implies (#[trigger] next[a]).width == shape[0].len() by {
        if a < prev.len() {
            assert(next[a] == prev[a]);
        }
    }
    assert forall|a: int| 0 <= a < next.len() implies is_orientation(#[trigger] next[a], shape, m + 1) by {
        reveal(is_orientation);
        if a < prev.len() {
            assert(next[a] == prev[a]);
            assert(is_orientation(prev[a], shape, m));
        } else {
            assert(next[a] == nv);
        }
    }
    assert forall|mm: int| 0 <= mm < m + 1 implies has_layout(next, #[trigger] orient(shape, mm)) by {
        reveal(has_layout);
        if mm < m {
            assert(has_layout(prev, orient(shape, mm)));
            let a = choose|a: int| 0 <= a < prev.len() && prev[a].variant@ == flatten(orient(shape, mm));
            assert(next[a] == prev[a]);
        } else if next.len() > prev.len() {
            assert(next[prev.len() as int] == nv);
        } else {
            let a = choose|a: int| 0 <= a < prev.len() && prev[a].variant@ == nv.variant@;
            assert(next[a] == prev[a]);
        }
    }
    if m == 0 {
        assert(next[0] == nv);
        reveal(orient);
    } else {
        assert(next[0] == prev[0]);
    }
}

/// Each variant of a well-formed piece lists its filled positions in order.
pub proof fn lemma_variant_offsets(pc: Piece, v: int)
    requires
        pc.wf(),
        0 <= v < pc.variants@.len(),
    ensures
        filled_offsets(pc.variants@[v].offsets@, pc.variants@[v].variant@),
{
    reveal(is_orientation);
    reveal(PieceVariant::laid_out_from);
    assert(is_orientation(pc.variants@[v], grid_of(pc.shape@), 8));
}

pub proof fn lemma_rotate_fits(shape: Seq<Seq<bool>>)
    requires
        fits(shape),
    ensures
        fits(rotate_spec(shape)),
{
    reveal(rotate_spec);
}

pub proof fn lemma_flip_fits(shape: Seq<Seq<bool>>)
    requires
        fits(shape),
    ensures
        fits(flip_spec(shape)),
{
    reveal(flip_spec);
}

pub proof fn lemma_orient_fits(shape: Seq<Seq<bool>>, m: int)
    requires
        fits(shape),
        0 <= m < 8,
    ensures
        fits(orient(shape, m)),
    decreases m,
{
    reveal(orient);
    if m == 0 {
    } else if m == 4 {
        lemma_flip_fits(shape);
    } else {
        lemma_orient_fits(shape, m - 1);
        lemma_rotate_fits(orient(shape, m - 1));
    }
}

/// The shapes of the catalog.
pub enum PieceType {
    One,
    Two,
    Right,
    Three,
    Four,
    ShortL,
    Triangle,
    Square,
    ShortStep,
    Five,
    LongL,
    LongStep,
    SquarePlus,
    LongRight,
    Steps,
    Z,
    Hump,
    LongWithSide,
    Plus,
    Crazy,
    T,
}

/// One orientation of a shape, laid out against the board's width.
/// `offsets` lists the filled positions of `variant` in ascending order.
#[derive(Debug)]
pub struct PieceVariant {
    pub offsets: Vec<usize>,
    pub variant: Vec<bool>,
    pub width: usize,
}

impl PieceVariant {
    /// The variant is laid out from `shape` as its own orientation.
    #[verifier::opaque]
    pub open spec fn laid_out_from(&self, shape: Seq<Seq<bool>>) -> bool {
        &&& self.variant@ == flatten(shape)
        &&& filled_offsets(self.offsets@, self.variant@)
    }

    pub fn new(shape: Vec<Vec<bool>>) -> (r: PieceVariant)
        requires
            rows_fit(grid_of(shape@)),
        ensures
            r.laid_out_from(grid_of(shape@)),
            r.width == shape@[0]@.len(),
    {
        reveal(flatten);
        let ghost g = grid_of(shape@);
        let n = shape.len();
        let mut variant: Vec<bool> = Vec::new();
        let mut i: usize = 0;
        while i < n
            invariant
                n == shape@.len(),
                g == grid_of(shape@),
                rows_fit(g),
                0 <= i <= n,
                i < n ==> variant@ == padded_rows(g, i as int),
                i == n ==> variant@ == flatten(g),
            decreases n - i,
        {
            let row = &shape[i];
            assert(row@ == g[i as int]);
            let ghost before = variant@;
            let mut c: usize = 0;
            while c < row.len()
                invariant
                    0 <= c <= row@.len(),
                    variant@ == before + row@.subrange(0, c as int),
                decreases row@.len() - c,
            {
                variant.push(row[c]);
                c += 1;
                assert(variant@ =~= before + row@.subrange(0, c as int));
            }
            assert(row@.subrange(0, row@.len() as int) =~= row@);
            if i + 1 < n {
                assert(g[i as int].len() <= BOARD_SIZE);
                let pad_len = BOARD_SIZE - row.len();
                let mut k: usize = 0;
                while k < pad_len
                    invariant
                        0 <= k <= pad_len,
                        variant@ == before + row@ + pad(k as int),
                    decreases pad_len - k,
                {
                    variant.push(false);
                    k += 1;
                    assert(variant@ =~= before + row@ + pad(k as int));
                }
                assert(padded_rows(g, i + 1) == before + g[i as int] + pad(
                    BOARD_SIZE - g[i as int].len(),
                ));
            } else {
                assert(g.last() == g[i as int]);
                assert(variant@ == before + g[i as int]);
                assert(before == padded_rows(g, g.len() - 1));
                reveal(flatten);
                assert(variant@ == flatten(g));
            }
            i += 1;
        }
        let mut offsets: Vec<usize> = Vec::new();
        let mut j: usize = 0;
        while j < variant.len()
            invariant
                0 <= j <= variant@.len(),
                forall|a: int, b: int| 0 <= a < b < offsets@.len() ==> offsets@[a] < offsets@[b],
                forall|a: int| 0 <= a < offsets@.len() ==> offsets@[a] < j && variant@[offsets@[a] as int],
                forall|k: int|
                    0 <= k < j && #[trigger] variant@[k] ==> exists|a: int|
                        0 <= a < offsets@.len() && offsets@[a] == k,
            decreases variant@.len() - j,
        {
            let ghost prev = offsets@;
            if variant[j] {
                offsets.push(j);
            }
            assert forall|k: int| 0 <= k < j + 1 && #[trigger] variant@[k] implies exists|a: int|
                0 <= a < offsets@.len() && offsets@[a] == k by {
                if k < j {
                    let a = choose|a: int| 0 <= a < prev.len() && prev[a] == k;
                    assert(offsets@[a] == k);
                } else {
                    assert(offsets@[offsets@.len() - 1] == k);
                }
            }
            j += 1;
        }
        proof {
            reveal(filled_offsets);
            reveal(PieceVariant::laid_out_from);
            reveal(flatten);
        }
        PieceVariant { offsets, variant, width: shape[0].len() }
    }
}

impl PartialEq for PieceVariant {
    fn eq(&self, other: &PieceVariant) -> (r: bool) {
        same_cells(&self.variant, &other.variant)
    }
}

impl vstd::std_specs::cmp::PartialEqSpecImpl for PieceVariant {
    open spec fn obeys_eq_spec() -> bool {
        true
    }

    open spec fn eq_spec(&self, other: &PieceVariant) -> bool {
        self.variant@ == other.variant@
    }
}

/// Two layouts are equal cell for cell.
pub fn same_cells(a: &Vec<bool>, b: &Vec<bool>) -> (r: bool)
    ensures
        r == (a@ == b@),
{
    if a.len() != b.len() {
        return false;
    }
    let mut i: usize = 0;
    while i < a.len()
        invariant
            a@.len() == b@.len(),
            0 <= i <= a@.len(),
            forall|k: int| 0 <= k < i ==> a@[k] == b@[k],
        decreases a@.len() - i,
    {
        if a[i] != b[i] {
            return false;
        }
        i += 1;
    }
    assert(a@ =~= b@);
    true
}

/// Some entry of `vs` has the layout of `v`.
fn contains_variant(vs: &Vec<PieceVariant>, v: &PieceVariant) -> (r: bool)
    ensures
        r == exists|a: int| 0 <= a < vs@.len() && vs@[a].variant@ == v.variant@,
{
    let mut i: usize = 0;
    while i < vs.len()
        invariant
            0 <= i <= vs@.len(),
            forall|a: int| 0 <= a < i ==> vs@[a].variant@ != v.variant@,
        decreases vs@.len() - i,
    {
        if same_cells(&vs[i].variant, &v.variant) {
            return true;
        }
        i += 1;
    }
    false
}

/// Appends `v` unless an entry with the same layout is already there.
fn push_if_new(vs: &mut Vec<PieceVariant>, v: PieceVariant)
    ensures
        (exists|a: int| 0 <= a < old(vs)@.len() && old(vs)@[a].variant@ == v.variant@) ==> final(vs)@
            == old(vs)@,
        !(exists|a: int| 0 <= a < old(vs)@.len() && old(vs)@[a].variant@ == v.variant@) ==> final(vs)@
            == old(vs)@.push(v),
{
    if !contains_variant(vs, &v) {
        vs.push(v);
    }
}

/// A row-by-row copy of a footprint.
fn copy_shape(shape: &Vec<Vec<bool>>) -> (r: Vec<Vec<bool>>)
    ensures
        grid_of(r@) == grid_of(shape@),
{
    let mut out: Vec<Vec<bool>> = Vec::new();
    let mut i: usize = 0;
    while i < shape.len()
        invariant
            0 <= i <= shape@.len(),
            out@.len() == i,
            forall|a: int| 0 <= a < i ==> out@[a]@ == shape@[a]@,
        decreases shape@.len() - i,
    {
        let row = &shape[i];
        let mut copy: Vec<bool> = Vec::new();
        let mut c: usize = 0;
        while c < row.len()
            invariant
                0 <= c <= row@.len(),
                copy@ == row@.subrange(0, c as int),
            decreases row@.len() - c,
        {
            copy.push(row[c]);
            c += 1;
            assert(copy@ =~= row@.subrange(0, c as int));
        }
        assert(row@.subrange(0, row@.len() as int) =~= row@);
        out.push(copy);
        i += 1;
    }
    assert(grid_of(out@) =~= grid_of(shape@));
    out
}

/// A shape of the catalog with its point value and orientation variants.
pub struct Piece {
    pub shape: Vec<Vec<bool>>,
    pub points: u32,
    pub variants: Vec<PieceVariant>,
}

impl Piece {
    /// The piece is well formed: its footprint fits, its points count the
    /// filled cells, and its variants are the footprint's orientations.
    pub open spec fn wf(&self) -> bool {
        &&& fits(grid_of(self.shape@))
        &&& self.points == shape_points(grid_of(self.shape@))
        &&& self.points <= BOARD_SPACES
        &&& variants_of(self.variants@, grid_of(self.shape@))
    }

    /// Turns a footprint a quarter turn.
    pub fn rotate(shape: Vec<Vec<bool>>) -> (r: Vec<Vec<bool>>)
        requires
            shape@.len() > 0,
            forall|j: int| 0 <= j < shape@.len() ==> #[trigger] shape@[j]@.len() >= shape@[0]@.len(),
        ensures
            grid_of(r@) == rotate_spec(grid_of(shape@)),
    {
        let ghost g = grid_of(shape@);
        let w = shape[0].len();
        let h = shape.len();
        let mut new_shape: Vec<Vec<bool>> = Vec::new();
        let mut i: usize = 0;
        while i < w
            invariant
                g == grid_of(shape@),
                w == g[0].len(),
                h == g.len(),
                forall|j: int| 0 <= j < h ==> #[trigger] g[j].len() >= w,
                0 <= i <= w,
                new_shape@.len() == i,
                forall|a: int|
                    0 <= a < i ==> new_shape@[a]@ == Seq::new(h as nat, |k: int| g[h - 1 - k][a]),
            decreases w - i,
        {
            let mut row: Vec<bool> = Vec::new();
            let mut j: usize = h;
            while j > 0
                invariant
                    g == grid_of(shape@),
                    h == g.len(),
                    forall|jj: int| 0 <= jj < h ==> #[trigger] g[jj].len() >= w,
                    i < w,
                    0 <= j <= h,
                    row@ == Seq::new((h - j) as nat, |k: int| g[h - 1 - k][i as int]),
                decreases j,
            {
                j -= 1;
                assert(g[j as int].len() >= w);
                row.push(shape[j][i]);
                assert(row@ =~= Seq::new((h - j) as nat, |k: int| g[h - 1 - k][i as int]));
            }
            new_shape.push(row);
            i += 1;
        }
        reveal(rotate_spec);
        assert(grid_of(new_shape@) =~= rotate_spec(g));
        new_shape
    }

    /// Mirrors a footprint: every row reversed.
    pub fn flip(shape: Vec<Vec<bool>>) -> (r: Vec<Vec<bool>>)
        ensures
            grid_of(r@) == flip_spec(grid_of(shape@)),
    {
        let ghost g = grid_of(shape@);
        let mut new_shape: Vec<Vec<bool>> = Vec::new();
        let mut i: usize = 0;
        while i < shape.len()
            invariant
                g == grid_of(shape@),
                0 <= i <= shape@.len(),
                new_shape@.len() == i,
                forall|a: int|
                    0 <= a < i ==> new_shape@[a]@ == Seq::new(
                        g[a].len(),
                        |k: int| g[a][g[a].len() - 1 - k],
                    ),
            decreases shape@.len() - i,
        {
            let row = &shape[i];
            let n = row.len();
            let mut new_row: Vec<bool> = Vec::new();
            let mut j: usize = n;
            while j > 0
                invariant
                    row@ == g[i as int],
                    n == row@.len(),
                    0 <= j <= n,
                    new_row@ == Seq::new((n - j) as nat, |k: int| row@[n - 1 - k]),
                decreases j,
            {
                j -= 1;
                new_row.push(row[j]);
                assert(new_row@ =~= Seq::new((n - j) as nat, |k: int| row@[n - 1 - k]));
            }
            new_shape.push(new_row);
            i += 1;
        }
        reveal(flip_spec);
        assert(grid_of(new_shape@) =~= flip_spec(g));
        new_shape
    }

    /// The distinct orientations of a footprint: four turns of the footprint,
    /// then four turns of its mirror image, each kept unless an equal layout
    /// is already there.
    pub fn gen_variants(shape: Vec<Vec<bool>>) -> (r: Vec<PieceVariant>)
        requires
            fits(grid_of(shape@)),
        ensures
            variants_of(r@, grid_of(shape@)),
    {
        let ghost g = grid_of(shape@);
        let width = shape[0].len();
        let mut variants: Vec<PieceVariant> = Vec::new();
        let mut variant_shape = copy_shape(&shape);
        proof {
            assert(orientation_seq(g).take(0) =~= Seq::<Seq<bool>>::empty());
            assert(layouts(variants@) =~= Seq::<Seq<bool>>::empty());
        }
        proof {
            reveal(orient);
        }
        let mut m: usize = 0;
        while m < 8
            invariant
                g == grid_of(shape@),
                fits(g),
                width == g[0].len(),
                0 <= m <= 8,
                m < 8 ==> grid_of(variant_shape@) == orient(g, m as int),
                partial_variants(variants@, g, m as int),
            decreases 8 - m,
        {
            proof {
                lemma_orient_fits(g, m as int);
            }
            let mut new_variant = PieceVariant::new(copy_shape(&variant_shape));
            let ghost laid = new_variant;
            new_variant.width = width;
            proof {
                reveal(PieceVariant::laid_out_from);
                assert(laid.laid_out_from(orient(g, m as int)));
                assert(new_variant.laid_out_from(orient(g, m as int)));
            }
            let ghost prev = variants@;
            let ghost nv = new_variant;
            push_if_new(&mut variants, new_variant);
            proof {
                lemma_partial_step(prev, variants@, nv, g, m as int);
            }
            proof {
                reveal(orient);
            }
            if m == 3 {
                variant_shape = Piece::flip(copy_shape(&shape));
            } else if m < 7 {
                proof {
                    assert forall|j: int| 0 <= j < variant_shape@.len() implies #[trigger] variant_shape@[j]@.len()
                        >= variant_shape@[0]@.len() by {
                        assert(grid_of(variant_shape@)[j] == variant_shape@[j]@);
                        assert(grid_of(variant_shape@)[0] == variant_shape@[0]@);
                    }
                    reveal(orient);
                    assert(orient(g, m + 1) == rotate_spec(orient(g, m as int)));
                }
                variant_shape = Piece::rotate(variant_shape);
            }
            m += 1;
        }
        proof {
            assert(orientation_seq(g).take(8) =~= orientation_seq(g));
        }
        variants
    }
}

/// The footprint of each shape of the catalog.
pub open spec fn catalog_shape(t: PieceType) -> Seq<Seq<bool>> {
    match t {
        PieceType::One => seq![seq![true]],
        PieceType::Two => seq![seq![true, true]],
        PieceType::Right => seq![seq![true, true], seq![false, true]],
        PieceType::Three => seq![seq![true, true, true]],
        PieceType::Four => seq![seq![true, true, true, true]],
        PieceType::ShortL => seq![seq![true, true], seq![true, false], seq![true, false]],
        PieceType::Triangle => seq![seq![true, true, true], seq![false, true, false]],
        PieceType::Square => seq![seq![true, true], seq![true, true]],
        PieceType::ShortStep => seq![seq![true, true, false], seq![false, true, true]],
        PieceType::Five => seq![seq![true, true, true, true, true]],
        PieceType::LongL => seq![seq![true, true, true, true], seq![true, false, false, false]],
        PieceType::LongStep => seq![seq![true, true, true, false], seq![false, false, true, true]],
        PieceType::SquarePlus => seq![seq![true, true, true], seq![true, true, false], seq![true, true, false]],
        PieceType::LongRight => seq![seq![true, true, true], seq![true, false, false], seq![true, false, false]],
        PieceType::Steps => seq![seq![true, true, false], seq![false, true, true], seq![false, false, true]],
        PieceType::Z => seq![seq![true, true, false], seq![false, true, true], seq![false, true, true]],
        PieceType::Hump => seq![seq![true, true, true], seq![true, false, true]],
        PieceType::LongWithSide => seq![seq![true, true, true, true], seq![false, true, false, false]],
        PieceType::Plus => seq![seq![false, true, false], seq![true, true, true], seq![false, true, false]],
        PieceType::Crazy => seq![seq![false, true, false], seq![true, true, true], seq![true, false, false]],
        PieceType::T => seq![seq![true, true, true], seq![false, true, false], seq![false, true, false]],
    }
}
/// Builds the footprint of a shape of the catalog.
pub fn catalog_footprint(t: &PieceType) -> (r: Vec<Vec<bool>>)
    ensures
        grid_of(r@) == catalog_shape(*t),
{
    let shape = match t {
        PieceType::One => vec![vec![true]],
        PieceType::Two => vec![vec![true, true]],
        PieceType::Right => vec![vec![true, true], vec![false, true]],
        PieceType::Three => vec![vec![true, true, true]],
        PieceType::Four => vec![vec![true, true, true, true]],
        PieceType::ShortL => vec![vec![true, true], vec![true, false], vec![true, false]],
        PieceType::Triangle => vec![vec![true, true, true], vec![false, true, false]],
        PieceType::Square => vec![vec![true, true], vec![true, true]],
        PieceType::ShortStep => vec![vec![true, true, false], vec![false, true, true]],
        PieceType::Five => vec![vec![true, true, true, true, true]],
        PieceType::LongL => vec![vec![true, true, true, true], vec![true, false, false, false]],
        PieceType::LongStep => vec![vec![true, true, true, false], vec![false, false, true, true]],
        PieceType::SquarePlus => vec![vec![true, true, true], vec![true, true, false], vec![true, true, false]],
        PieceType::LongRight => vec![vec![true, true, true], vec![true, false, false], vec![true, false, false]],
        PieceType::Steps => vec![vec![true, true, false], vec![false, true, true], vec![false, false, true]],
        PieceType::Z => vec![vec![true, true, false], vec![false, true, true], vec![false, true, true]],
        PieceType::Hump => vec![vec![true, true, true], vec![true, false, true]],
        PieceType::LongWithSide => vec![vec![true, true, true, true], vec![false, true, false, false]],
        PieceType::Plus => vec![vec![false, true, false], vec![true, true, true], vec![false, true, false]],
        PieceType::Crazy => vec![vec![false, true, false], vec![true, true, true], vec![true, false, false]],
        PieceType::T => vec![vec![true, true, true], vec![false, true, false], vec![false, true, false]],
    };
    assert(grid_of(shape@) =~~= catalog_shape(*t));
    shape
}

/// The number of filled cells of a footprint that fits on the board.
fn count_points(shape: &Vec<Vec<bool>>) -> (r: u32)
    requires
        fits(grid_of(shape@)),
    ensures
        r == shape_points(grid_of(shape@)),
        r <= BOARD_SPACES,
{
    let ghost g = grid_of(shape@);
    let mut total: u32 = 0;
    let mut i: usize = 0;
    while i < shape.len()
        invariant
            g == grid_of(shape@),
            fits(g),
            0 <= i <= g.len(),
            total == shape_points(g.subrange(0, i as int)),
            total <= i * BOARD_SIZE,
        decreases g.len() - i,
    {
        let row = &shape[i];
        assert(row@ == g[i as int]);
        let ghost before = total;
        let mut c: usize = 0;
        while c < row.len()
            invariant
                row@ == g[i as int],
                row@.len() <= BOARD_SIZE,
                0 <= c <= row@.len(),
                total == before + count_true(row@.subrange(0, c as int)),
                count_true(row@.subrange(0, c as int)) <= c,
                before <= i * BOARD_SIZE,
                i < BOARD_SIZE,
            decreases row@.len() - c,
        {
            assert(row@.subrange(0, c + 1).drop_last() =~= row@.subrange(0, c as int));
            if row[c] {
                total += 1;
            }
            c += 1;
        }
        assert(row@.subrange(0, row@.len() as int) =~= row@);
        assert(g.subrange(0, i + 1).drop_last() =~= g.subrange(0, i as int));
        i += 1;
    }
    assert(g.subrange(0, g.len() as int) =~= g);
    total
}

impl Piece {
    /// Builds a shape of the catalog with its points and variants.
    pub fn new(piece_type: PieceType) -> (r: Piece)
        ensures
            r.wf(),
            grid_of(r.shape@) == catalog_shape(piece_type),
    {
        let shape = catalog_footprint(&piece_type);
        let points = count_points(&shape);
        let kept = copy_shape(&shape);
        Piece { shape: kept, points, variants: Piece::gen_variants(shape) }
    }
}

} // verus!
