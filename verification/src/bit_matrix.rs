//! Binary-field matrix used by the Dixon engine.  Each row carries two bit
//! sets: `elements`, the parity of each factor-base exponent, and
//! `indices`, the set of original congruence records that were XORed
//! together to produce the row.  The matrix supports row swap, row XOR and
//! reduction to row-echelon form.
use vstd::prelude::*;

verus! {

/// The set of positions at which a bit vector holds `true`.
pub open spec fn bit_positions(s: Seq<bool>) -> Set<int> {
    Set::new(|i: int| 0 <= i < s.len() && s[i])
}

/// The set of values listed in a position vector.
pub open spec fn position_set(s: Seq<usize>) -> Set<int> {
    Set::new(|i: int| exists|j: int| 0 <= j < s.len() && (#[trigger] s[j]) as int == i)
}

/// Membership in exactly one of the two sets: addition over GF(2).
pub open spec fn sym_diff(a: Set<int>, b: Set<int>) -> Set<int> {
    Set::new(|i: int| a.contains(i) != b.contains(i))
}

/// The mathematical content of one row: which columns hold a 1, and which
/// original rows were combined to produce it.
#[verifier::ext_equal]
pub ghost struct RowModel {
    pub elems: Set<int>,
    pub inds: Set<int>,
}

/// XOR of two rows, on the model level.
pub open spec fn row_xor(dest: RowModel, src: RowModel) -> RowModel {
    RowModel { elems: sym_diff(dest.elems, src.elems), inds: sym_diff(dest.inds, src.inds) }
}

/// One row of the bit matrix.
#[derive(Clone, Debug)]
pub struct DixonBitvec {
    pub elements: Vec<bool>,
    pub indices: Vec<bool>,
}

/// A sequence of rows together with the number of columns that matter.
#[derive(Clone, Debug)]
pub struct DixonBitmatrix {
    pub rows: Vec<DixonBitvec>,
    pub width: usize,
}

/// Reads one bit of a mask, out-of-range positions being 0.
pub(crate) fn mask_bit(v: &Vec<bool>, i: usize) -> (r: bool)
    ensures
        r == bit_positions(v@).contains(i as int),
{
    i < v.len() && v[i]
}

/// Turns a list of positions into a mask.
fn mask_from_positions(ps: &Vec<usize>) -> (r: Vec<bool>)
    ensures
        bit_positions(r@) == position_set(ps@),
{
    let mut v: Vec<bool> = Vec::new();
    let mut k: usize = 0;
    while k < ps.len()
        invariant
            k <= ps.len(),
            bit_positions(v@) == position_set(ps@.take(k as int)),
        decreases ps.len() - k,
    {
        let p = ps[k];
        let ghost before = v@;
        while v.len() <= p
            invariant
                bit_positions(v@) == bit_positions(before),
            decreases p + 1 - v.len(),
        {
            let ghost prev = v@;
            v.push(false);
            proof {
                assert(bit_positions(v@) =~= bit_positions(prev));
            }
        }
        let ghost prev = v@;
        v[p] = true;
        proof {
            assert(bit_positions(v@) =~= position_set(ps@.take(k as int + 1))) by {
                assert forall|i: int| bit_positions(v@).contains(i) implies position_set(
                    ps@.take(k as int + 1),
                ).contains(i) by {
                    if i == p as int {
                        assert(ps@.take(k as int + 1)[k as int] == p);
                    } else {
                        assert(bit_positions(prev).contains(i));
                        let j = choose|j: int|
                            0 <= j < ps@.take(k as int).len() && (#[trigger] ps@.take(
                                k as int,
                            )[j]) as int == i;
                        assert(ps@.take(k as int + 1)[j] as int == i);
                    }
                }
                assert forall|i: int| position_set(ps@.take(k as int + 1)).contains(i)
                    implies bit_positions(v@).contains(i) by {
                    let j = choose|j: int|
                        0 <= j < ps@.take(k as int + 1).len() && (#[trigger] ps@.take(
                            k as int + 1,
                        )[j]) as int == i;
                    if j < k as int {
                        assert(ps@.take(k as int)[j] as int == i);
                        assert(bit_positions(prev).contains(i));
                    } else {
                        assert(i == p as int);
                    }
                }
            }
        }
        k = k + 1;
    }
    proof {
        assert(ps@.take(ps@.len() as int) =~= ps@);
    }
    v
}

/// Compares two masks as sets of positions.
fn masks_eq(a: &Vec<bool>, b: &Vec<bool>) -> (r: bool)
    ensures
        r == (bit_positions(a@) == bit_positions(b@)),
{
    let n = if a.len() > b.len() {
        a.len()
    } else {
        b.len()
    };
    let mut i: usize = 0;
    while i < n
        invariant
            i <= n,
            a@.len() <= n,
            b@.len() <= n,
            forall|j: int|
                0 <= j < i ==> bit_positions(a@).contains(j) == bit_positions(b@).contains(
                    j,
                ),
        decreases n - i,
    {
        let abit = mask_bit(a, i);
        let bbit = mask_bit(b, i);
        if abit != bbit {
            proof {
                assert(bit_positions(a@).contains(i as int) != bit_positions(
                    b@,
                ).contains(i as int));
            }
            return false;
        }
        i = i + 1;
    }
    proof {
        assert(bit_positions(a@) =~= bit_positions(b@)) by {
            assert forall|j: int|
                bit_positions(a@).contains(j) == bit_positions(b@).contains(j) by {
                if 0 <= j < n {
                } else {
                }
            }
        }
    }
    true
}

/// XOR of two masks, as sets: the symmetric difference.
fn masks_xor(dest: &Vec<bool>, src: &Vec<bool>) -> (r: Vec<bool>)
    ensures
        bit_positions(r@) == sym_diff(bit_positions(dest@), bit_positions(src@)),
{
    let n = if dest.len() > src.len() {
        dest.len()
    } else {
        src.len()
    };
    let mut v: Vec<bool> = Vec::new();
    let mut i: usize = 0;
    while i < n
        invariant
            i <= n,
            dest@.len() <= n,
            src@.len() <= n,
            v@.len() == i,
            forall|j: int|
                0 <= j < i ==> v@[j] == (bit_positions(dest@).contains(j) != bit_positions(
                    src@,
                ).contains(j)),
        decreases n - i,
    {
        let dbit = mask_bit(dest, i);
        let sbit = mask_bit(src, i);
        v.push(dbit != sbit);
        i = i + 1;
    }
    proof {
        assert(bit_positions(v@) =~= sym_diff(bit_positions(dest@), bit_positions(src@)));
    }
    v
}

impl DixonBitvec {
    /// The row's mathematical content.
    pub open spec fn model(self) -> RowModel {
        RowModel {
            elems: bit_positions(self.elements@),
            inds: bit_positions(self.indices@),
        }
    }

    /// Builds a row from the lists of positions that are set.
    pub fn from_vecs(elems: Vec<usize>, ids: Vec<usize>) -> (r: DixonBitvec)
        ensures
            r.model().elems == position_set(elems@),
            r.model().inds == position_set(ids@),
    {
        DixonBitvec { elements: mask_from_positions(&elems), indices: mask_from_positions(&ids) }
    }

    /// True when no column of this row holds a 1.
    pub fn is_all_zero(&self) -> (r: bool)
        ensures
            r == (self.model().elems == Set::<int>::empty()),
    {
        let mut i: usize = 0;
        while i < self.elements.len()
            invariant
                i <= self.elements@.len(),
                forall|j: int| 0 <= j < i ==> !bit_positions(self.elements@).contains(j),
            decreases self.elements@.len() - i,
        {
            if self.elements[i] {
                proof {
                    assert(bit_positions(self.elements@).contains(i as int));
                    assert(self.model().elems != Set::<int>::empty());
                }
                return false;
            }
            i = i + 1;
        }
        proof {
            assert(self.model().elems =~= Set::<int>::empty());
        }
        true
    }

    /// Consumes the row and hands out the mask of contributing indices.
    pub fn into_index_set(self) -> (r: Vec<bool>)
        ensures
            bit_positions(r@) == self.model().inds,
    {
        self.indices
    }
}

impl DixonBitmatrix {
    /// The matrix as a sequence of row models.
    pub open spec fn model(self) -> Seq<RowModel> {
        self.rows@.map(|i: int, r: DixonBitvec| r.model())
    }

    /// Number of rows.
    pub fn nrows(&self) -> (r: usize)
        ensures
            r == self.model().len(),
    {
        self.rows.len()
    }

    /// Number of columns that matter.
    pub fn ncols(&self) -> (r: usize)
        ensures
            r == self.width,
    {
        self.width
    }

    /// One bit of the `elements` part of a row.
    pub fn get_elem(&self, row: usize, col: usize) -> (r: bool)
        requires
            row < self.model().len(),
        ensures
            r == self.model()[row as int].elems.contains(col as int),
    {
        mask_bit(&self.rows[row].elements, col)
    }

    /// Exchanges two rows.
    pub fn swap_rows(&mut self, i: usize, j: usize)
        requires
            i < old(self).model().len(),
            j < old(self).model().len(),
        ensures
            final(self).width == old(self).width,
            final(self).model() == old(self).model().update(
                i as int,
                old(self).model()[j as int],
            ).update(j as int, old(self).model()[i as int]),
    {
        let ghost s0 = self.rows@;
        if i != j {
            let lo = if i < j {
                i
            } else {
                j
            };
            let hi = if i < j {
                j
            } else {
                i
            };
            proof {
                s0.remove_ensures(lo as int);
                s0.remove(lo as int).remove_ensures(hi as int - 1);
            }
            let a = self.rows.remove(lo);
            let b = self.rows.remove(hi - 1);
            let ghost s2 = self.rows@;
            proof {
                s2.insert_ensures(lo as int, b);
                s2.insert(lo as int, b).insert_ensures(hi as int, a);
            }
            self.rows.insert(lo, b);
            self.rows.insert(hi, a);
            proof {
                let s1 = s0.remove(lo as int);
                let s3 = s2.insert(lo as int, b);
                let target = s0.update(lo as int, s0[hi as int]).update(
                    hi as int,
                    s0[lo as int],
                );
                assert forall|k: int|
                    0 <= k < self.rows@.len() implies self.rows@[k] == target[k] by {
                    if k == hi as int {
                    } else if k == lo as int {
                        assert(self.rows@[k] == s3[k]);
                    } else if k < lo as int {
                        assert(self.rows@[k] == s3[k]);
                        assert(s3[k] == s2[k]);
                        assert(s2[k] == s1[k]);
                        assert(s1[k] == s0[k]);
                    } else if k < hi as int {
                        assert(self.rows@[k] == s3[k]);
                        assert(s3[k] == s2[k - 1]);
                        assert(s2[k - 1] == s1[k - 1]);
                        assert(s1[k - 1] == s0[k]);
                    } else {
                        assert(self.rows@[k] == s3[k - 1]);
                        assert(s3[k - 1] == s2[k - 2]);
                        assert(s2[k - 2] == s1[k - 1]);
                        assert(s1[k - 1] == s0[k]);
                    }
                }
                assert(self.rows@ =~= target);
            }
        }
        proof {
            let lhs = self.model();
            let rhs = old(self).model().update(i as int, old(self).model()[j as int]).update(
                j as int,
                old(self).model()[i as int],
            );
            assert forall|k: int| 0 <= k < lhs.len() implies lhs[k] == rhs[k] by {
                assert(lhs[k] == self.rows@[k].model());
            }
            assert(lhs =~= rhs);
        }
    }

    /// XOR of rows `src` and `dest`, overwriting `dest`; both the column
    /// bits and the contributing-index bits are combined.
    pub fn xor_update_row(&mut self, src: usize, dest: usize)
        requires
            src < old(self).model().len(),
            dest < old(self).model().len(),
        ensures
            final(self).width == old(self).width,
            final(self).model() == old(self).model().update(
                dest as int,
                row_xor(old(self).model()[dest as int], old(self).model()[src as int]),
            ),
    {
        let elems = masks_xor(&self.rows[dest].elements, &self.rows[src].elements);
        let inds = masks_xor(&self.rows[dest].indices, &self.rows[src].indices);
        self.rows[dest] = DixonBitvec { elements: elems, indices: inds };
        proof {
            assert(self.model() =~= old(self).model().update(
                dest as int,
                row_xor(old(self).model()[dest as int], old(self).model()[src as int]),
            ));
        }
    }

    /// Consumes the matrix and hands out its rows.
    pub fn into_rows(self) -> (r: Vec<DixonBitvec>)
        ensures
            r@.map(|i: int, rv: DixonBitvec| rv.model()) == self.model(),
    {
        self.rows
    }
}

impl PartialEq for DixonBitmatrix {
    /// Matrices are equal when their widths agree and their rows are
    /// pairwise equal as bit sets.
    fn eq(&self, other: &Self) -> (r: bool) {
        if self.width != other.width || self.rows.len() != other.rows.len() {
            proof {
                if self.rows@.len() != other.rows@.len() {
                    assert(self.model().len() != other.model().len());
                }
            }
            return false;
        }
        let mut i: usize = 0;
        while i < self.rows.len()
            invariant
                i <= self.rows@.len(),
                self.rows@.len() == other.rows@.len(),
                self.width == other.width,
                forall|j: int| 0 <= j < i ==> self.model()[j] == other.model()[j],
            decreases self.rows@.len() - i,
        {
            let re = masks_eq(&self.rows[i].elements, &other.rows[i].elements);
            let ri = masks_eq(&self.rows[i].indices, &other.rows[i].indices);
            if !re || !ri {
                proof {
                    assert(self.model()[i as int] != other.model()[i as int]);
                }
                return false;
            }
            i = i + 1;
        }
        proof {
            assert(self.model() =~= other.model());
        }
        true
    }
}

impl vstd::std_specs::cmp::PartialEqSpecImpl for DixonBitmatrix {
    open spec fn obeys_eq_spec() -> bool {
        true
    }

    open spec fn eq_spec(&self, other: &Self) -> bool {
        self.model() == other.model() && self.width == other.width
    }
}

/// First column in `[col, width)` where the row holds a 1; `width` if none.
pub open spec fn leading_from(e: Set<int>, col: int, width: int) -> int
    decreases width - col,
{
    if col >= width {
        width
    } else if e.contains(col) {
        col
    } else {
        leading_from(e, col + 1, width)
    }
}

/// The column of a row's leading 1; `width` for a row with no 1.
pub open spec fn leading(e: Set<int>, width: int) -> int {
    leading_from(e, 0, width)
}

pub proof fn lemma_leading_from(e: Set<int>, col: int, width: int)
    requires
        0 <= col <= width,
    ensures
        col <= leading_from(e, col, width) <= width,
        leading_from(e, col, width) < width ==> e.contains(leading_from(e, col, width)),
        forall|c: int| col <= c < leading_from(e, col, width) ==> !e.contains(c),
    decreases width - col,
{
    if col >= width {
    } else if e.contains(col) {
    } else {
        lemma_leading_from(e, col + 1, width);
    }
}

pub proof fn lemma_leading_from_at(e: Set<int>, col: int, width: int, l: int)
    requires
        0 <= col <= l < width,
        e.contains(l),
        forall|c: int| col <= c < l ==> !e.contains(c),
    ensures
        leading_from(e, col, width) == l,
    decreases width - col,
{
    if col == l {
    } else {
        lemma_leading_from_at(e, col + 1, width, l);
    }
}

pub proof fn lemma_leading_from_none(e: Set<int>, col: int, width: int)
    requires
        0 <= col <= width,
        forall|c: int| col <= c < width ==> !e.contains(c),
    ensures
        leading_from(e, col, width) == width,
    decreases width - col,
{
    if col >= width {
    } else {
        lemma_leading_from_none(e, col + 1, width);
    }
}

/// Index of the first row at or after `from` holding a 1 in column `col`;
/// the row count if none.
pub open spec fn find_pivot(m: Seq<RowModel>, col: int, from: int) -> int
    decreases m.len() - from,
{
    if from >= m.len() {
        m.len() as int
    } else if m[from].elems.contains(col) {
        from
    } else {
        find_pivot(m, col, from + 1)
    }
}

pub proof fn lemma_find_pivot_at(m: Seq<RowModel>, col: int, from: int, p: int)
    requires
        0 <= from <= p < m.len(),
        m[p].elems.contains(col),
        forall|r: int| from <= r < p ==> !(#[trigger] m[r].elems.contains(col)),
    ensures
        find_pivot(m, col, from) == p,
    decreases m.len() - from,
{
    if from == p {
    } else {
        lemma_find_pivot_at(m, col, from + 1, p);
    }
}

pub proof fn lemma_find_pivot_none(m: Seq<RowModel>, col: int, from: int)
    requires
        0 <= from <= m.len(),
        forall|r: int| from <= r < m.len() ==> !(#[trigger] m[r].elems.contains(col)),
    ensures
        find_pivot(m, col, from) == m.len(),
    decreases m.len() - from,
{
    if from >= m.len() {
    } else {
        lemma_find_pivot_none(m, col, from + 1);
    }
}

/// Rows strictly below the found position `p` that hold a 1 in column
/// `col` are XORed with the pivot row `t`, for rows before `upto`.
pub open spec fn clear_below(
    sw: Seq<RowModel>,
    col: int,
    t: int,
    p: int,
    upto: int,
) -> Seq<RowModel> {
    Seq::new(
        sw.len(),
        |r: int|
            if p < r < upto && sw[r].elems.contains(col) {
                row_xor(sw[r], sw[t])
            } else {
                sw[r]
            },
    )
}

/// One column of the reduction: find a pivot at or below the target row,
/// swap it into the target position, clear the column below it.
pub open spec fn col_step(m: Seq<RowModel>, col: int, target: int) -> (Seq<RowModel>, int) {
    let p = find_pivot(m, col, target);
    if p == m.len() {
        (m, target)
    } else {
        let sw = m.update(target, m[p]).update(p, m[target]);
        (clear_below(sw, col, target, p, sw.len() as int), target + 1)
    }
}

/// The reduction, processing columns `col` to `width` left to right.
pub open spec fn reduce_cols(m: Seq<RowModel>, col: int, width: int, target: int) -> (
    Seq<RowModel>,
    int,
)
    decreases width - col,
{
    if col >= width {
        (m, target)
    } else {
        reduce_cols(col_step(m, col, target).0, col + 1, width, col_step(m, col, target).1)
    }
}

/// The row-echelon form that `bit_matrix_to_ref` computes.
pub open spec fn reduce_spec(m: Seq<RowModel>, width: int) -> Seq<RowModel> {
    reduce_cols(m, 0, width, 0).0
}

pub proof fn lemma_find_pivot_props(m: Seq<RowModel>, col: int, from: int)
    requires
        0 <= from <= m.len(),
    ensures
        from <= find_pivot(m, col, from) <= m.len(),
        find_pivot(m, col, from) < m.len() ==> m[find_pivot(m, col, from)].elems.contains(col),
        forall|r: int|
            from <= r < find_pivot(m, col, from) ==> !(#[trigger] m[r].elems.contains(col)),
    decreases m.len() - from,
{
    if from >= m.len() {
    } else if m[from].elems.contains(col) {
    } else {
        lemma_find_pivot_props(m, col, from + 1);
    }
}

/// Row-echelon shape: every column at or left of a row's leading 1 is
/// zero in all rows strictly below that row.
pub open spec fn is_echelon(m: Seq<RowModel>, width: int) -> bool {
    forall|r1: int, r2: int, c: int|
        0 <= r1 < r2 < m.len() && 0 <= c < width && c <= #[trigger] leading(m[r1].elems, width)
            ==> !(#[trigger] m[r2].elems.contains(c))
}

/// The facts the reduction maintains once the columns left of `col` are
/// processed: rows before `target` are pivot rows with strictly
/// increasing leading columns and a cleared block below, rows from
/// `target` on are zero left of `col`.
pub open spec fn reduce_invariant(m: Seq<RowModel>, col: int, width: int, target: int) -> bool {
    &&& 0 <= target <= m.len()
    &&& 0 <= col <= width
    &&& (forall|r: int, c: int|
        target <= r < m.len() && 0 <= c < col ==> !(#[trigger] m[r].elems.contains(c)))
    &&& (forall|r: int| 0 <= r < target ==> #[trigger] leading(m[r].elems, width) < col)
    &&& (forall|r1: int, r2: int|
        0 <= r1 < r2 < target ==> #[trigger] leading(m[r1].elems, width) < #[trigger] leading(
            m[r2].elems,
            width,
        ))
    &&& (forall|r1: int, r2: int, c: int|
        0 <= r1 < target && r1 < r2 < m.len() && 0 <= c < width && c
            <= #[trigger] leading(m[r1].elems, width) ==> !(#[trigger] m[r2].elems.contains(c)))
}

proof fn lemma_col_step_preserves(m: Seq<RowModel>, col: int, width: int, target: int)
    requires
        reduce_invariant(m, col, width, target),
        col < width,
    ensures
        col_step(m, col, target).0.len() == m.len(),
        target <= col_step(m, col, target).1 <= m.len(),
        reduce_invariant(col_step(m, col, target).0, col + 1, width, col_step(m, col, target).1),
{
    let p = find_pivot(m, col, target);
    lemma_find_pivot_props(m, col, target);
    if p == m.len() {
        assert forall|r: int, c: int|
            target <= r < m.len() && 0 <= c < col + 1 implies !(#[trigger] m[r].elems.contains(
            c,
        )) by {
            if c == col {
                assert(!m[r].elems.contains(col));
            }
        }
    } else {
        let sw = m.update(target, m[p]).update(p, m[target]);
        let res = clear_below(sw, col, target, p, sw.len() as int);
        let t2 = target + 1;
        assert(sw[target] == m[p]);
        assert forall|r: int| 0 <= r < target implies res[r] == m[r] by {}
        assert(res[target] == m[p]);
        // rows at or past `target` of `sw` are zero left of `col`
        assert forall|r: int, c: int|
            target <= r < m.len() && 0 <= c < col implies !(#[trigger] sw[r].elems.contains(
            c,
        )) by {
            if r == target {
                assert(!m[p].elems.contains(c));
            } else if r == p {
                assert(!m[target].elems.contains(c));
            } else {
                assert(!m[r].elems.contains(c));
            }
        }
        // below the pivot row, column `col` of `res` is clear
        assert forall|r: int| target < r < m.len() implies !(#[trigger] res[r].elems.contains(
            col,
        )) by {
            if r <= p {
                if r == p {
                    assert(sw[p] == m[target]);
                    assert(!m[target].elems.contains(col));
                } else {
                    assert(sw[r] == m[r]);
                    assert(!m[r].elems.contains(col));
                }
                assert(res[r] == sw[r]);
            } else {
                if sw[r].elems.contains(col) {
                    assert(res[r] == row_xor(sw[r], sw[target]));
                    assert(sw[target].elems.contains(col));
                } else {
                    assert(res[r] == sw[r]);
                }
            }
        }
        // the zero block now extends to `col + 1`
        assert forall|r: int, c: int|
            t2 <= r < m.len() && 0 <= c < col + 1 implies !(#[trigger] res[r].elems.contains(
            c,
        )) by {
            if c == col {
                assert(!res[r].elems.contains(col));
            } else {
                assert(!sw[r].elems.contains(c));
                assert(!sw[target].elems.contains(c));
                if p < r && sw[r].elems.contains(col) {
                    assert(res[r] == row_xor(sw[r], sw[target]));
                } else {
                    assert(res[r] == sw[r]);
                }
            }
        }
        // the new pivot row leads exactly at `col`
        assert(res[target].elems.contains(col));
        assert forall|c: int| 0 <= c < col implies !res[target].elems.contains(c) by {
            assert(!sw[target].elems.contains(c));
        }
        lemma_leading_from_at(res[target].elems, 0, width, col);
        assert forall|r: int| 0 <= r < t2 implies #[trigger] leading(res[r].elems, width) < col
            + 1 by {
            if r < target {
                assert(res[r] == m[r]);
                assert(leading(m[r].elems, width) < col);
            }
        }
        assert forall|r1: int, r2: int| 0 <= r1 < r2 < t2 implies #[trigger] leading(
            res[r1].elems,
            width,
        ) < #[trigger] leading(res[r2].elems, width) by {
            if r2 < target {
                assert(res[r1] == m[r1]);
                assert(res[r2] == m[r2]);
            } else {
                assert(r2 == target);
                assert(res[r1] == m[r1]);
                assert(leading(m[r1].elems, width) < col);
                assert(leading(res[r2].elems, width) == col);
            }
        }
        assert forall|r1: int, r2: int, c: int|
            0 <= r1 < t2 && r1 < r2 < m.len() && 0 <= c < width && c <= #[trigger] leading(
                res[r1].elems,
                width,
            ) implies !(#[trigger] res[r2].elems.contains(c)) by {
            if r1 < target {
                assert(res[r1] == m[r1]);
                let l = leading(m[r1].elems, width);
                assert(!sw[r2].elems.contains(c)) by {
                    if r2 == target {
                        assert(sw[r2] == m[p]);
                        assert(!m[p].elems.contains(c));
                    } else if r2 == p {
                        assert(sw[r2] == m[target]);
                        assert(!m[target].elems.contains(c));
                    } else {
                        assert(!m[r2].elems.contains(c));
                    }
                }
                assert(!sw[target].elems.contains(c)) by {
                    assert(sw[target] == m[p]);
                    assert(!m[p].elems.contains(c));
                }
                if p < r2 && sw[r2].elems.contains(col) {
                    assert(res[r2] == row_xor(sw[r2], sw[target]));
                } else {
                    assert(res[r2] == sw[r2]);
                }
            } else {
                assert(r1 == target);
                assert(leading(res[target].elems, width) == col);
                assert(!res[r2].elems.contains(c));
            }
        }
    }
}

proof fn lemma_reduce_cols_inv(m: Seq<RowModel>, col: int, width: int, target: int)
    requires
        reduce_invariant(m, col, width, target),
    ensures
        reduce_cols(m, col, width, target).0.len() == m.len(),
        reduce_invariant(
            reduce_cols(m, col, width, target).0,
            width,
            width,
            reduce_cols(m, col, width, target).1,
        ),
    decreases width - col,
{
    if col >= width {
    } else {
        lemma_col_step_preserves(m, col, width, target);
        lemma_reduce_cols_inv(col_step(m, col, target).0, col + 1, width, col_step(m, col, target).1);
    }
}

/// After reduction the matrix is in row-echelon shape: all columns at or
/// left of a row's leading 1 are zero in every lower row, and all-zero
/// rows sit below every row with a leading 1.
pub proof fn lemma_reduce_is_echelon(m: Seq<RowModel>, width: int)
    requires
        width >= 0,
    ensures
        reduce_spec(m, width).len() == m.len(),
        is_echelon(reduce_spec(m, width), width),
{
    assert(reduce_invariant(m, 0, width, 0));
    lemma_reduce_cols_inv(m, 0, width, 0);
    let res = reduce_spec(m, width);
    let tf = reduce_cols(m, 0, width, 0).1;
    assert forall|r1: int, r2: int, c: int|
        0 <= r1 < r2 < res.len() && 0 <= c < width && c <= #[trigger] leading(
            res[r1].elems,
            width,
        ) implies !(#[trigger] res[r2].elems.contains(c)) by {
        if r1 >= tf {
            assert(!res[r2].elems.contains(c));
        }
    }
}

/// In an echelon matrix, as soon as a row is all-zero on the matrix
/// columns, so is every row below it.
pub proof fn lemma_echelon_zero_rows_last(m: Seq<RowModel>, width: int, r1: int, r2: int)
    requires
        is_echelon(m, width),
        width >= 0,
        0 <= r1 < r2 < m.len(),
        forall|c: int| 0 <= c < width ==> !(#[trigger] m[r1].elems.contains(c)),
    ensures
        forall|c: int| 0 <= c < width ==> !(#[trigger] m[r2].elems.contains(c)),
{
    lemma_leading_from_none(m[r1].elems, 0, width);
    assert forall|c: int| 0 <= c < width implies !(#[trigger] m[r2].elems.contains(c)) by {
        assert(c <= leading(m[r1].elems, width));
    }
}

/// In an echelon matrix, the columns strictly left of a row's leading 1
/// are zero in that row and in every row below it.
pub proof fn lemma_echelon_left_of_leading(m: Seq<RowModel>, width: int, r1: int, r2: int, c: int)
    requires
        is_echelon(m, width),
        width >= 0,
        0 <= r1 <= r2 < m.len(),
        0 <= c < width,
        c < leading(m[r1].elems, width),
    ensures
        !m[r2].elems.contains(c),
{
    if r1 == r2 {
        lemma_leading_from(m[r1].elems, 0, width);
    }
}

proof fn lemma_reduce_cols_fixed(m: Seq<RowModel>, col: int, width: int, target: int)
    requires
        is_echelon(m, width),
        0 <= col <= width,
        0 <= target <= m.len(),
        forall|r: int| 0 <= r < target ==> #[trigger] leading(m[r].elems, width) < col,
        forall|r: int| target <= r < m.len() ==> #[trigger] leading(m[r].elems, width) >= col,
    ensures
        reduce_cols(m, col, width, target).0 == m,
    decreases width - col,
{
    if col >= width {
    } else if target < m.len() && leading(m[target].elems, width) == col {
        lemma_leading_from(m[target].elems, 0, width);
        assert(m[target].elems.contains(col));
        lemma_find_pivot_at(m, col, target, target);
        let sw = m.update(target, m[target]).update(target, m[target]);
        assert(sw =~= m);
        assert forall|r: int| target < r < m.len() implies !(#[trigger] m[r].elems.contains(
            col,
        )) by {
            assert(col <= leading(m[target].elems, width));
        }
        let res = clear_below(sw, col, target, target, sw.len() as int);
        assert forall|r: int| 0 <= r < m.len() implies res[r] == m[r] by {
            if target < r && sw[r].elems.contains(col) {
                assert(!m[r].elems.contains(col));
            }
        }
        assert(res =~= m);
        assert(col_step(m, col, target).0 == m);
        assert(col_step(m, col, target).1 == target + 1);
        assert forall|r: int|
            target + 1 <= r < m.len() implies #[trigger] leading(m[r].elems, width) >= col
            + 1 by {
            let l = leading(m[r].elems, width);
            lemma_leading_from(m[r].elems, 0, width);
            if l <= col {
                assert(m[r].elems.contains(l));
                assert(l <= leading(m[target].elems, width));
                assert(!m[r].elems.contains(l));
            }
        }
        lemma_reduce_cols_fixed(m, col + 1, width, target + 1);
    } else {
        assert forall|r: int| target <= r < m.len() implies !(#[trigger] m[r].elems.contains(
            col,
        )) by {
            let l = leading(m[r].elems, width);
            lemma_leading_from(m[r].elems, 0, width);
            if r == target {
                assert(l > col);
            } else {
                assert(leading(m[target].elems, width) > col);
                assert(col <= leading(m[target].elems, width));
            }
        }
        lemma_find_pivot_none(m, col, target);
        assert(col_step(m, col, target) == (m, target));
        assert forall|r: int| target <= r < m.len() implies #[trigger] leading(
            m[r].elems,
            width,
        ) >= col + 1 by {
            let l = leading(m[r].elems, width);
            lemma_leading_from(m[r].elems, 0, width);
            if l == col {
                assert(m[r].elems.contains(col));
            }
        }
        lemma_reduce_cols_fixed(m, col + 1, width, target);
    }
}

/// Reducing a matrix that is already in row-echelon form changes
/// nothing: no swap and no XOR has any effect.
pub proof fn lemma_reduce_fixed_point(m: Seq<RowModel>, width: int)
    requires
        width >= 0,
        is_echelon(m, width),
    ensures
        reduce_spec(m, width) == m,
{
    assert forall|r: int| 0 <= r < m.len() implies #[trigger] leading(m[r].elems, width)
        >= 0 by {
        lemma_leading_from(m[r].elems, 0, width);
    }
    lemma_reduce_cols_fixed(m, 0, width, 0);
}

/// Row-echelon reduction is idempotent: reducing a reduced matrix yields
/// the same matrix.
pub proof fn lemma_reduce_idempotent(m: Seq<RowModel>, width: int)
    requires
        width >= 0,
    ensures
        reduce_spec(reduce_spec(m, width), width) == reduce_spec(m, width),
{
    lemma_reduce_is_echelon(m, width);
    lemma_reduce_fixed_point(reduce_spec(m, width), width);
}

/// XOR of the same source row into a destination row twice restores the
/// destination row.
pub proof fn lemma_xor_row_self_inverse(dest: RowModel, src: RowModel)
    ensures
        row_xor(row_xor(dest, src), src) == dest,
{
    assert(sym_diff(sym_diff(dest.elems, src.elems), src.elems) =~= dest.elems);
    assert(sym_diff(sym_diff(dest.inds, src.inds), src.inds) =~= dest.inds);
}

/// Sum of `exps[i][c]` over the selected indices `i` below `n`.
pub open spec fn sum_sel(exps: Seq<Seq<u64>>, sel: Set<int>, n: int, c: int) -> int
    decreases n,
{
    if n <= 0 {
        0
    } else {
        sum_sel(exps, sel, n - 1, c) + if sel.contains(n - 1) {
            exps[n - 1][c] as int
        } else {
            0
        }
    }
}

/// Summing over a symmetric difference keeps the parity of the sum of
/// the two sums: indices in both sets contribute twice, which cancels.
pub proof fn lemma_sum_sel_sym_diff(exps: Seq<Seq<u64>>, s1: Set<int>, s2: Set<int>, n: int, c: int)
    ensures
        sum_sel(exps, sym_diff(s1, s2), n, c) % 2 == (sum_sel(exps, s1, n, c) + sum_sel(
            exps,
            s2,
            n,
            c,
        )) % 2,
    decreases n,
{
    if n > 0 {
        lemma_sum_sel_sym_diff(exps, s1, s2, n - 1, c);
        let a = sum_sel(exps, sym_diff(s1, s2), n - 1, c);
        let b = sum_sel(exps, s1, n - 1, c) + sum_sel(exps, s2, n - 1, c);
        let e = exps[n - 1][c] as int;
        let da: int = if sym_diff(s1, s2).contains(n - 1) {
            e
        } else {
            0
        };
        let db: int = (if s1.contains(n - 1) {
            e
        } else {
            0
        }) + (if s2.contains(n - 1) {
            e
        } else {
            0
        });
        vstd::arithmetic::div_mod::lemma_add_mod_noop(a, da, 2);
        vstd::arithmetic::div_mod::lemma_add_mod_noop(b, db, 2);
        vstd::arithmetic::div_mod::lemma_mod_twice(e, 2);
        vstd::arithmetic::div_mod::lemma_add_mod_noop(e, e, 2);
        assert((e + e) % 2 == 0) by {
            vstd::arithmetic::div_mod::lemma_mod_multiples_basic(e, 2);
            assert(e + e == 2 * e);
        }
        assert(da % 2 == db % 2);
        assert(sum_sel(exps, sym_diff(s1, s2), n, c) == a + da);
        assert(sum_sel(exps, s1, n, c) + sum_sel(exps, s2, n, c) == b + db);
        vstd::arithmetic::div_mod::lemma_add_mod_noop(a % 2, da % 2, 2);
        vstd::arithmetic::div_mod::lemma_add_mod_noop(b % 2, db % 2, 2);
    }
}

/// The sum over a singleton set is the one selected entry.
pub proof fn lemma_sum_sel_singleton(exps: Seq<Seq<u64>>, sel: Set<int>, k: int, n: int, c: int)
    requires
        0 <= k < n,
        forall|i: int| #[trigger] sel.contains(i) <==> i == k,
    ensures
        sum_sel(exps, sel, n, c) == exps[k][c],
    decreases n,
{
    if k < n - 1 {
        lemma_sum_sel_singleton(exps, sel, k, n - 1, c);
    } else {
        lemma_sum_sel_empty_above(exps, sel, n - 1, c, k);
    }
}

proof fn lemma_sum_sel_empty_above(exps: Seq<Seq<u64>>, sel: Set<int>, n: int, c: int, k: int)
    requires
        forall|i: int| #[trigger] sel.contains(i) ==> i == k,
        n <= k,
    ensures
        sum_sel(exps, sel, n, c) == 0,
    decreases n,
{
    if n > 0 {
        lemma_sum_sel_empty_above(exps, sel, n - 1, c, k);
    }
}

/// The invariant the Dixon engine relies on: a row's `elements` holds
/// exactly the columns whose exponent sum, over the original rows listed
/// in `indices`, is odd; and `indices` only lists original rows.
pub open spec fn row_consistent(
    r: RowModel,
    exps: Seq<Seq<u64>>,
    n: int,
    width: int,
) -> bool {
    &&& forall|i: int| #[trigger] r.inds.contains(i) ==> 0 <= i < n
    &&& forall|c: int|
        0 <= c < width ==> ((#[trigger] r.elems.contains(c)) <==> sum_sel(exps, r.inds, n, c) % 2
            == 1)
}

/// All rows of a matrix satisfy the tracking invariant.
pub open spec fn rows_consistent(m: Seq<RowModel>, exps: Seq<Seq<u64>>, n: int, width: int) -> bool {
    forall|r: int| 0 <= r < m.len() ==> row_consistent(#[trigger] m[r], exps, n, width)
}

/// XOR of two consistent rows is consistent: the combined row stands for
/// the symmetric difference of the contributing index sets.
pub proof fn lemma_row_xor_consistent(
    d: RowModel,
    s: RowModel,
    exps: Seq<Seq<u64>>,
    n: int,
    width: int,
)
    requires
        row_consistent(d, exps, n, width),
        row_consistent(s, exps, n, width),
    ensures
        row_consistent(row_xor(d, s), exps, n, width),
{
    let x = row_xor(d, s);
    assert forall|c: int|
        0 <= c < width implies ((#[trigger] x.elems.contains(c)) <==> sum_sel(exps, x.inds, n, c)
        % 2 == 1) by {
        lemma_sum_sel_sym_diff(exps, d.inds, s.inds, n, c);
        let sd = sum_sel(exps, d.inds, n, c);
        let ss = sum_sel(exps, s.inds, n, c);
        vstd::arithmetic::div_mod::lemma_add_mod_noop(sd, ss, 2);
        vstd::arithmetic::div_mod::lemma_mod_division_less_than_divisor(sd, 2);
        vstd::arithmetic::div_mod::lemma_mod_division_less_than_divisor(ss, 2);
        lemma_sum_sel_nonneg(exps, d.inds, n, c);
        lemma_sum_sel_nonneg(exps, s.inds, n, c);
    }
}

proof fn lemma_sum_sel_nonneg(exps: Seq<Seq<u64>>, sel: Set<int>, n: int, c: int)
    ensures
        sum_sel(exps, sel, n, c) >= 0,
    decreases n,
{
    if n > 0 {
        lemma_sum_sel_nonneg(exps, sel, n - 1, c);
    }
}

proof fn lemma_col_step_consistent(
    m: Seq<RowModel>,
    col: int,
    target: int,
    exps: Seq<Seq<u64>>,
    n: int,
    width: int,
)
    requires
        rows_consistent(m, exps, n, width),
        0 <= target <= m.len(),
    ensures
        rows_consistent(col_step(m, col, target).0, exps, n, width),
        target <= col_step(m, col, target).1 <= m.len(),
        col_step(m, col, target).0.len() == m.len(),
{
    let p = find_pivot(m, col, target);
    lemma_find_pivot_props(m, col, target);
    if p != m.len() {
        let sw = m.update(target, m[p]).update(p, m[target]);
        let res = clear_below(sw, col, target, p, sw.len() as int);
        assert forall|r: int|
            0 <= r < res.len() implies row_consistent(#[trigger] res[r], exps, n, width) by {
            assert(row_consistent(sw[r], exps, n, width));
            assert(row_consistent(sw[target], exps, n, width));
            if p < r && sw[r].elems.contains(col) {
                lemma_row_xor_consistent(sw[r], sw[target], exps, n, width);
            }
        }
    }
}

proof fn lemma_reduce_cols_consistent(
    m: Seq<RowModel>,
    col: int,
    width2: int,
    target: int,
    exps: Seq<Seq<u64>>,
    n: int,
    width: int,
)
    requires
        rows_consistent(m, exps, n, width),
        0 <= target <= m.len(),
    ensures
        rows_consistent(reduce_cols(m, col, width2, target).0, exps, n, width),
    decreases width2 - col,
{
    if col < width2 {
        lemma_col_step_consistent(m, col, target, exps, n, width);
        lemma_reduce_cols_consistent(
            col_step(m, col, target).0,
            col + 1,
            width2,
            col_step(m, col, target).1,
            exps,
            n,
            width,
        );
    }
}

/// Row-echelon reduction preserves the tracking invariant: every row of
/// the reduced matrix still holds, in `elements`, the parities of the
/// exponent sums over the original rows listed in its `indices`.  An
/// all-zero row therefore names a set of congruences whose exponent sums
/// are all even: their product is a perfect square.
pub proof fn lemma_reduce_preserves_consistency(
    m: Seq<RowModel>,
    width: int,
    exps: Seq<Seq<u64>>,
    n: int,
)
    requires
        rows_consistent(m, exps, n, width),
    ensures
        rows_consistent(reduce_spec(m, width), exps, n, width),
{
    lemma_reduce_cols_consistent(m, 0, width, 0, exps, n, width);
}

/// An all-zero consistent row marks a subset with all-even exponent sums.
pub proof fn lemma_zero_row_even_sums(r: RowModel, exps: Seq<Seq<u64>>, n: int, width: int)
    requires
        row_consistent(r, exps, n, width),
        forall|c: int| 0 <= c < width ==> !(#[trigger] r.elems.contains(c)),
    ensures
        forall|c: int| 0 <= c < width ==> sum_sel(exps, r.inds, n, c) % 2 == 0,
{
    assert forall|c: int| 0 <= c < width implies sum_sel(exps, r.inds, n, c) % 2 == 0 by {
        assert(!r.elems.contains(c));
        lemma_sum_sel_nonneg(exps, r.inds, n, c);
        vstd::arithmetic::div_mod::lemma_mod_division_less_than_divisor(
            sum_sel(exps, r.inds, n, c),
            2,
        );
    }
}

/// Manipulates the bit matrix into row echelon form, in place.
pub fn bit_matrix_to_ref(matrix: &mut DixonBitmatrix)
    ensures
        final(matrix).width == old(matrix).width,
        final(matrix).model() == reduce_spec(old(matrix).model(), old(matrix).width as int),
        final(matrix).model().len() == old(matrix).model().len(),
        is_echelon(final(matrix).model(), old(matrix).width as int),
{
    proof {
        lemma_reduce_is_echelon(old(matrix).model(), old(matrix).width as int);
    }
    let ncols = matrix.ncols();
    let nrows = matrix.nrows();
    let mut target_row: usize = 0;
    let mut col: usize = 0;
    while col < ncols
        invariant
            col <= ncols,
            target_row <= nrows,
            matrix.width == old(matrix).width,
            ncols == matrix.width,
            nrows == matrix.model().len(),
            reduce_cols(matrix.model(), col as int, ncols as int, target_row as int)
                == reduce_cols(old(matrix).model(), 0, ncols as int, 0),
        decreases ncols - col,
    {
        let ghost m0 = matrix.model();
        let ghost t0 = target_row as int;
        let mut source_row: usize = target_row;
        let mut found = false;
        loop
            invariant_except_break
                !found,
                t0 <= source_row as int <= nrows as int,
                nrows == matrix.model().len(),
                matrix.model() == m0,
                matrix.width == old(matrix).width,
                ncols == matrix.width,
                col < ncols,
                target_row as int == t0,
                forall|r: int|
                    t0 <= r < source_row as int ==> !(#[trigger] m0[r].elems.contains(
                        col as int,
                    )),
            ensures
                nrows == matrix.model().len(),
                matrix.model() == m0,
                matrix.width == old(matrix).width,
                ncols == matrix.width,
                col < ncols,
                target_row as int == t0,
                t0 <= source_row as int <= nrows as int,
                found ==> source_row < nrows && m0[source_row as int].elems.contains(
                    col as int,
                ) && (forall|r: int|
                    t0 <= r < source_row as int ==> !(#[trigger] m0[r].elems.contains(
                        col as int,
                    ))),
                !found ==> forall|r: int|
                    t0 <= r < nrows as int ==> !(#[trigger] m0[r].elems.contains(col as int)),
            decreases nrows - source_row,
        {
            if source_row >= nrows {
                break ;
            }
            if matrix.get_elem(source_row, col) {
                found = true;
                break ;
            }
            source_row = source_row + 1;
        }
        if found {
            proof {
                lemma_find_pivot_at(m0, col as int, t0, source_row as int);
            }
            matrix.swap_rows(source_row, target_row);
            let ghost sw = matrix.model();
            proof {
                assert(sw =~= m0.update(t0, m0[source_row as int]).update(
                    source_row as int,
                    m0[t0],
                ));
                assert(matrix.model() =~= clear_below(
                    sw,
                    col as int,
                    t0,
                    source_row as int,
                    source_row as int + 1,
                ));
            }
            let mut other_row = source_row + 1;
            while other_row < nrows
                invariant
                    source_row as int + 1 <= other_row as int <= nrows as int,
                    t0 <= source_row as int,
                    (source_row as int) < nrows as int,
                    target_row as int == t0,
                    nrows == matrix.model().len(),
                    matrix.width == old(matrix).width,
                    ncols == matrix.width,
                    col < ncols,
                    sw.len() == nrows as int,
                    matrix.model() == clear_below(
                        sw,
                        col as int,
                        t0,
                        source_row as int,
                        other_row as int,
                    ),
                decreases nrows - other_row,
            {
                let ghost before = matrix.model();
                if matrix.get_elem(other_row, col) {
                    matrix.xor_update_row(target_row, other_row);
                }
                proof {
                    assert(before[other_row as int] == sw[other_row as int]);
                    assert(before[t0] == sw[t0]);
                    assert(matrix.model() =~= clear_below(
                        sw,
                        col as int,
                        t0,
                        source_row as int,
                        other_row as int + 1,
                    ));
                }
                other_row = other_row + 1;
            }
            proof {
                assert(col_step(m0, col as int, t0).0 == clear_below(
                    sw,
                    col as int,
                    t0,
                    source_row as int,
                    nrows as int,
                ));
                assert(col_step(m0, col as int, t0).1 == t0 + 1);
            }
            target_row = target_row + 1;
        } else {
            proof {
                lemma_find_pivot_none(m0, col as int, t0);
                assert(col_step(m0, col as int, t0) == (m0, t0));
            }
        }
        col = col + 1;
    }
}

impl PartialEq for DixonBitvec {
    /// Rows are equal when they hold the same bits, whatever the masks'
    /// trailing zeros.
    fn eq(&self, other: &Self) -> (r: bool) {
        masks_eq(&self.elements, &other.elements) && masks_eq(&self.indices, &other.indices)
    }
}

impl vstd::std_specs::cmp::PartialEqSpecImpl for DixonBitvec {
    open spec fn obeys_eq_spec() -> bool {
        true
    }

    open spec fn eq_spec(&self, other: &Self) -> bool {
        self.model() == other.model()
    }
}

} // verus!
