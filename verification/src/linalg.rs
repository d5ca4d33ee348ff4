//! Partial pivoting over matrices of mixed scalar/dual entries.
//!
//! For each column, the row with the strictly greatest scalar magnitude
//! among the remaining candidates is swapped into place, building a
//! permutation matrix alongside the row-permuted data.  A column whose
//! remaining candidates all have zero magnitude is a singular-matrix
//! failure.
use vstd::prelude::*;
use crate::dual::{DualOrF64, DualOrF64View, DualError, mag_entry};
use crate::fbits::{ZERO_BITS, is_zero_bits, f_lt, lt_bits};

verus! {

/// The views of one row's entries.
pub open spec fn row_views(row: Vec<DualOrF64>) -> Seq<DualOrF64View> {
    row@.map_values(|e: DualOrF64| e@)
}

/// The views of a matrix's entries, row by row.
pub open spec fn mat_view(m: Seq<Vec<DualOrF64>>) -> Seq<Seq<DualOrF64View>> {
    m.map_values(|row: Vec<DualOrF64>| row_views(row))
}

/// The rows of a permutation matrix, as sequences.
pub open spec fn p_view(m: Seq<Vec<i32>>) -> Seq<Seq<i32>> {
    m.map_values(|row: Vec<i32>| row@)
}

/// Every row has length `n`.
pub open spec fn rows_of_len(mv: Seq<Seq<DualOrF64View>>, n: int) -> bool {
    forall|i: int| 0 <= i < mv.len() ==> (#[trigger] mv[i]).len() == n
}

/// The identity matrix of ones and zeros.
pub open spec fn identity_spec(n: int) -> Seq<Seq<i32>> {
    Seq::new(n as nat, |i: int| Seq::new(n as nat, |j: int| if i == j { 1i32 } else { 0i32 }))
}

/// A sequence with the entries at `x` and `y` exchanged.
pub open spec fn swap_rows_spec<T>(m: Seq<T>, x: int, y: int) -> Seq<T> {
    m.update(x, m[y]).update(y, m[x])
}

/// The magnitudes of column `j`'s entries from row `j` down.
pub open spec fn col_mags(pa: Seq<Seq<DualOrF64View>>, j: int, n: int) -> Seq<u64> {
    Seq::new((n - j) as nat, |t: int| mag_entry(pa[j + t][j]))
}

/// The left fold that selects the position of the strictly greatest
/// magnitude seen so far, starting from a zero magnitude at position zero;
/// first seen wins on ties.
pub open spec fn fold_best(col: Seq<u64>) -> (int, u64)
    decreases col.len(),
{
    if col.len() == 0 {
        (0int, ZERO_BITS)
    } else {
        let prev = fold_best(col.drop_last());
        if f_lt(prev.1, col.last()) {
            (col.len() - 1, col.last())
        } else {
            prev
        }
    }
}

/// Every remaining candidate magnitude is zero.
pub open spec fn all_zero_col(col: Seq<u64>) -> bool {
    forall|t: int| 0 <= t < col.len() ==> is_zero_bits(#[trigger] col[t])
}

/// The pivoting recursion itself: at column `j`, fail on an all-zero
/// column, else swap the selected row into place in both matrices and move
/// to the next column.
pub open spec fn pivot_replay(
    p: Seq<Seq<i32>>,
    pa: Seq<Seq<DualOrF64View>>,
    j: int,
    n: int,
) -> Option<(Seq<Seq<i32>>, Seq<Seq<DualOrF64View>>)>
    decreases n - j,
{
    if j >= n {
        Some((p, pa))
    } else {
        let col = col_mags(pa, j, n);
        if all_zero_col(col) {
            None
        } else {
            let k = j + fold_best(col).0;
            if k != j {
                pivot_replay(swap_rows_spec(p, j, k), swap_rows_spec(pa, j, k), j + 1, n)
            } else {
                pivot_replay(p, pa, j + 1, n)
            }
        }
    }
}

/// Relies on `<[T]>::swap`: its documentation says it swaps the elements at
/// the two positions.
#[verifier::external_body]
fn vec_swap<T>(m: &mut Vec<T>, x: usize, y: usize)
    requires
        x < old(m)@.len(),
        y < old(m)@.len(),
    ensures
        final(m)@ == old(m)@.update(x as int, old(m)@[y as int]).update(
            y as int,
            old(m)@[x as int],
        ),
{
    m.swap(x, y);
}

/// The magnitude of one matrix entry's scalar part.
fn entry_mag(pa: &Vec<Vec<DualOrF64>>, x: usize, y: usize) -> (m: u64)
    requires
        x < pa@.len(),
        y < pa@[x as int]@.len(),
    ensures
        m == mag_entry(mat_view(pa@)[x as int][y as int]),
{
    proof {
        assert(mat_view(pa@)[x as int] == row_views(pa@[x as int]));
        assert(row_views(pa@[x as int])[y as int] == pa@[x as int]@[y as int]@);
    }
    let e = &pa[x][y];
    proof {
        assert(*e == pa@[x as int]@[y as int]);
    }
    match e {
        DualOrF64::Dual(d) => {
            proof {
                assert(e@ == DualOrF64View::Dual(d@));
            }
            d.abs()
        },
        DualOrF64::F64(v) => {
            proof {
                assert(e@ == DualOrF64View::F64(*v));
            }
            crate::fbits::abs_bits(*v)
        },
    }
}

/// A row of the matrix view is as long as the row itself.
proof fn lemma_mat_view_row(pa: Seq<Vec<DualOrF64>>, x: int)
    requires
        0 <= x < pa.len(),
    ensures
        mat_view(pa)[x] == row_views(pa[x]),
        mat_view(pa)[x].len() == pa[x]@.len(),
{
    assert(mat_view(pa)[x] == row_views(pa[x]));
}

/// The row at or below `j` whose column-`j` magnitude is strictly greatest
/// so far, scanning downward from a zero threshold; first seen wins ties.
fn argabsmax(pa: &Vec<Vec<DualOrF64>>, j: usize, n: usize) -> (k: usize)
    requires
        n == pa@.len(),
        j < n,
        rows_of_len(mat_view(pa@), n as int),
    ensures
        k as int == j + fold_best(col_mags(mat_view(pa@), j as int, n as int)).0,
        j <= k < n,
{
    let ghost col = col_mags(mat_view(pa@), j as int, n as int);
    let m = n - j;
    let mut best_t: usize = 0;
    let mut best_m: u64 = ZERO_BITS;
    proof {
        assert(col.take(0) =~= Seq::<u64>::empty());
    }
    for t in 0..m
        invariant
            m == n - j,
            n == pa@.len(),
            j < n,
            rows_of_len(mat_view(pa@), n as int),
            col == col_mags(mat_view(pa@), j as int, n as int),
            best_t < m,
            (best_t as int, best_m) == fold_best(col.take(t as int)),
    {
        proof {
            lemma_mat_view_row(pa@, j + t);
        }
        let mag = entry_mag(pa, j + t, j);
        proof {
            assert(col[t as int] == mag);
            assert(col.take(t + 1).drop_last() =~= col.take(t as int));
            assert(col.take(t + 1).last() == col[t as int]);
        }
        if lt_bits(best_m, mag) {
            best_t = t;
            best_m = mag;
        }
    }
    proof {
        assert(col.take(m as int) =~= col);
    }
    j + best_t
}

/// Whether every remaining candidate magnitude in column `j` is zero.
fn col_all_zero(pa: &Vec<Vec<DualOrF64>>, j: usize, n: usize) -> (r: bool)
    requires
        n == pa@.len(),
        j < n,
        rows_of_len(mat_view(pa@), n as int),
    ensures
        r == all_zero_col(col_mags(mat_view(pa@), j as int, n as int)),
{
    let ghost col = col_mags(mat_view(pa@), j as int, n as int);
    let m = n - j;
    for t in 0..m
        invariant
            m == n - j,
            n == pa@.len(),
            j < n,
            rows_of_len(mat_view(pa@), n as int),
            col == col_mags(mat_view(pa@), j as int, n as int),
            forall|q: int| 0 <= q < t ==> is_zero_bits(#[trigger] col[q]),
    {
        proof {
            lemma_mat_view_row(pa@, j + t);
        }
        let mag = entry_mag(pa, j + t, j);
        proof {
            assert(col[t as int] == mag);
        }
        if mag & 0x7FFF_FFFF_FFFF_FFFFu64 != 0 {
            return false;
        }
    }
    true
}

/// Partial pivoting of a square matrix: for each column in turn, the row
/// with the strictly greatest remaining magnitude (first seen wins ties,
/// against an initial zero threshold) is swapped into place in both the
/// permutation matrix and the data; a column with only zero magnitudes
/// left fails with `SingularMatrixError`.  The result is exactly what the
/// `pivot_replay` recursion yields from the identity permutation.
pub fn pivot_matrix(a: &Vec<Vec<DualOrF64>>) -> (r: Result<
    (Vec<Vec<i32>>, Vec<Vec<DualOrF64>>),
    DualError,
>)
    requires
        rows_of_len(mat_view(a@), a@.len() as int),
    ensures
        match r {
            Ok(ppa) => pivot_replay(
                identity_spec(a@.len() as int),
                mat_view(a@),
                0,
                a@.len() as int,
            ) == Some((p_view(ppa.0@), mat_view(ppa.1@))),
            Err(e) => {
                &&& e == DualError::SingularMatrixError
                &&& pivot_replay(identity_spec(a@.len() as int), mat_view(a@), 0, a@.len() as int)
                    is None
            },
        },
{
    let n = a.len();
    let mut p: Vec<Vec<i32>> = Vec::new();
    for i in 0..n
        invariant
            p@.len() == i,
            forall|q: int| 0 <= q < i ==> (#[trigger] p@[q])@ == identity_spec(n as int)[q],
    {
        let mut row: Vec<i32> = Vec::new();
        for jj in 0..n
            invariant
                row@.len() == jj,
                forall|q: int| 0 <= q < jj ==> row@[q] == (if q == i { 1i32 } else { 0i32 }),
        {
            if jj == i {
                row.push(1);
            } else {
                row.push(0);
            }
        }
        proof {
            assert(row@ =~= identity_spec(n as int)[i as int]);
        }
        p.push(row);
    }
    proof {
        assert(p_view(p@) =~~= identity_spec(n as int));
    }
    let mut pa: Vec<Vec<DualOrF64>> = Vec::new();
    for i in 0..n
        invariant
            n == a@.len(),
            rows_of_len(mat_view(a@), n as int),
            pa@.len() == i,
            forall|q: int| 0 <= q < i ==> row_views(#[trigger] pa@[q]) == row_views(a@[q]),
    {
        let mut row: Vec<DualOrF64> = Vec::new();
        let w = a[i].len();
        for jj in 0..w
            invariant
                n == a@.len(),
                i < n,
                w == a@[i as int]@.len(),
                row@.len() == jj,
                forall|q: int| 0 <= q < jj ==> (#[trigger] row@[q])@ == a@[i as int]@[q]@,
        {
            row.push(a[i][jj].clone());
        }
        proof {
            assert forall|q: int| 0 <= q < w implies row_views(row)[q] == row_views(a@[i as int])[q]
            by {
                assert(row_views(row)[q] == row@[q]@);
                assert(row_views(a@[i as int])[q] == a@[i as int]@[q]@);
            }
            assert(row_views(row) =~= row_views(a@[i as int]));
        }
        pa.push(row);
    }
    proof {
        assert forall|q: int| 0 <= q < n implies mat_view(pa@)[q] == mat_view(a@)[q] by {
            assert(mat_view(pa@)[q] == row_views(pa@[q]));
            assert(mat_view(a@)[q] == row_views(a@[q]));
        }
        assert(mat_view(pa@) =~= mat_view(a@));
    }
    let ghost goal = pivot_replay(identity_spec(n as int), mat_view(a@), 0, n as int);
    for j in 0..n
        invariant
            n == a@.len(),
            n == pa@.len(),
            n == p@.len(),
            rows_of_len(mat_view(pa@), n as int),
            goal == pivot_replay(identity_spec(n as int), mat_view(a@), 0, n as int),
            pivot_replay(p_view(p@), mat_view(pa@), j as int, n as int) == goal,
    {
        let ghost cur_p = p_view(p@);
        let ghost cur_pa = mat_view(pa@);
        let ghost col = col_mags(cur_pa, j as int, n as int);
        if col_all_zero(&pa, j, n) {
            proof {
                assert(pivot_replay(cur_p, cur_pa, j as int, n as int) is None);
            }
            return Err(DualError::SingularMatrixError);
        }
        let k = argabsmax(&pa, j, n);
        if j != k {
            let ghost old_p = p@;
            let ghost old_pa = pa@;
            vec_swap(&mut p, j, k);
            vec_swap(&mut pa, j, k);
            proof {
                assert forall|q: int| 0 <= q < n implies #[trigger] p_view(p@)[q]
                    == swap_rows_spec(cur_p, j as int, k as int)[q] by {
                    assert(p_view(p@)[q] == p@[q]@);
                }
                assert(p_view(p@) =~= swap_rows_spec(cur_p, j as int, k as int));
                assert forall|q: int| 0 <= q < n implies #[trigger] mat_view(pa@)[q]
                    == swap_rows_spec(cur_pa, j as int, k as int)[q] by {
                    assert(mat_view(pa@)[q] == row_views(pa@[q]));
                    assert(cur_pa[q] == row_views(old_pa[q]));
                }
                assert(mat_view(pa@) =~= swap_rows_spec(cur_pa, j as int, k as int));
                assert(rows_of_len(mat_view(pa@), n as int));
                assert(pivot_replay(cur_p, cur_pa, j as int, n as int) == pivot_replay(
                    p_view(p@),
                    mat_view(pa@),
                    j + 1,
                    n as int,
                ));
            }
        } else {
            proof {
                assert(pivot_replay(cur_p, cur_pa, j as int, n as int) == pivot_replay(
                    cur_p,
                    cur_pa,
                    j + 1,
                    n as int,
                ));
            }
        }
    }
    proof {
        assert(pivot_replay(p_view(p@), mat_view(pa@), n as int, n as int) == Some(
            (p_view(p@), mat_view(pa@)),
        ));
    }
    Ok((p, pa))
}

} // verus!

verus! {

/// Entry `k` of the row is one and every other entry is zero.
pub open spec fn unit_row(row: Seq<i32>, n: int, k: int) -> bool {
    &&& 0 <= k < n
    &&& row[k] == 1
    &&& forall|j: int| 0 <= j < n && j != k ==> (#[trigger] row[j]) == 0
}

/// Row `i` holds exactly one one.
pub open spec fn row_has_one(p: Seq<Seq<i32>>, n: int, i: int) -> bool {
    exists|k: int| unit_row(#[trigger] p[i], n, k)
}

/// Row `i` is the only row whose entry in column `k` is one.
pub open spec fn col_selects(p: Seq<Seq<i32>>, n: int, k: int, i: int) -> bool {
    &&& 0 <= i < n
    &&& p[i][k] == 1
    &&& forall|i2: int| 0 <= i2 < n && i2 != i ==> (#[trigger] p[i2][k]) != 1
}

/// Column `k` holds exactly one one.
pub open spec fn col_has_one(p: Seq<Seq<i32>>, n: int, k: int) -> bool {
    exists|i: int| col_selects(p, n, k, i)
}

/// Exactly one entry of each row and of each column is one, the rest zero.
pub open spec fn is_perm_matrix(p: Seq<Seq<i32>>, n: int) -> bool {
    &&& p.len() == n
    &&& forall|i: int| 0 <= i < n ==> (#[trigger] p[i]).len() == n
    &&& forall|i: int| 0 <= i < n ==> #[trigger] row_has_one(p, n, i)
    &&& forall|k: int| 0 <= k < n ==> #[trigger] col_has_one(p, n, k)
}

/// Row `i` of the permuted data is the original row that row `i` of the
/// permutation matrix selects.
pub open spec fn row_corresponds(
    p: Seq<Seq<i32>>,
    pa: Seq<Seq<DualOrF64View>>,
    a0: Seq<Seq<DualOrF64View>>,
    n: int,
    i: int,
) -> bool {
    exists|k: int| 0 <= k < n && #[trigger] p[i][k] == 1 && pa[i] == a0[k]
}

/// Each row of the permuted data is the original row that the permutation
/// matrix's one selects.
pub open spec fn rows_correspond(
    p: Seq<Seq<i32>>,
    pa: Seq<Seq<DualOrF64View>>,
    a0: Seq<Seq<DualOrF64View>>,
    n: int,
) -> bool {
    &&& pa.len() == n
    &&& forall|i: int| 0 <= i < n ==> #[trigger] row_corresponds(p, pa, a0, n, i)
}

/// The selected position stays within the column.
proof fn lemma_fold_best_bounds(col: Seq<u64>)
    ensures
        col.len() == 0 ==> fold_best(col) == (0int, ZERO_BITS),
        col.len() > 0 ==> 0 <= fold_best(col).0 < col.len(),
    decreases col.len(),
{
    if col.len() > 0 {
        lemma_fold_best_bounds(col.drop_last());
    }
}

/// Exchanging two rows preserves both properties.
proof fn lemma_swap_preserves(
    p: Seq<Seq<i32>>,
    pa: Seq<Seq<DualOrF64View>>,
    a0: Seq<Seq<DualOrF64View>>,
    n: int,
    x: int,
    y: int,
)
    requires
        is_perm_matrix(p, n),
        rows_correspond(p, pa, a0, n),
        0 <= x < n,
        0 <= y < n,
    ensures
        is_perm_matrix(swap_rows_spec(p, x, y), n),
        rows_correspond(swap_rows_spec(p, x, y), swap_rows_spec(pa, x, y), a0, n),
{
    let q = swap_rows_spec(p, x, y);
    let qa = swap_rows_spec(pa, x, y);
    assert forall|i: int| 0 <= i < n implies (#[trigger] q[i]).len() == n by {
        let src: int = if i == x {
            y
        } else if i == y {
            x
        } else {
            i
        };
        assert(q[i] == p[src]);
    }
    assert forall|i: int| 0 <= i < n implies #[trigger] row_has_one(q, n, i) by {
        let src: int = if i == x {
            y
        } else if i == y {
            x
        } else {
            i
        };
        assert(q[i] == p[src]);
        assert(row_has_one(p, n, src));
        let k = choose|k: int| unit_row(p[src], n, k);
        assert(unit_row(q[i], n, k));
    }
    assert forall|k: int| 0 <= k < n implies #[trigger] col_has_one(q, n, k) by {
        assert(col_has_one(p, n, k));
        let i0 = choose|i: int| col_selects(p, n, k, i);
        let dst: int = if i0 == y {
            x
        } else if i0 == x {
            y
        } else {
            i0
        };
        assert(q[dst] == p[i0]);
        assert forall|i2: int| 0 <= i2 < n && i2 != dst implies (#[trigger] q[i2][k]) != 1 by {
            let back: int = if i2 == x {
                y
            } else if i2 == y {
                x
            } else {
                i2
            };
            assert(q[i2] == p[back]);
            assert(back != i0);
        }
        assert(col_selects(q, n, k, dst));
    }
    assert forall|i: int| 0 <= i < n implies #[trigger] row_corresponds(q, qa, a0, n, i) by {
        let src: int = if i == x {
            y
        } else if i == y {
            x
        } else {
            i
        };
        assert(q[i] == p[src] && qa[i] == pa[src]);
        assert(row_corresponds(p, pa, a0, n, src));
        let k = choose|k: int| 0 <= k < n && #[trigger] p[src][k] == 1 && pa[src] == a0[k];
        assert(q[i][k] == 1 && qa[i] == a0[k]);
    }
}

/// The pivoting recursion preserves both properties down to its result.
proof fn lemma_replay_preserves(
    p: Seq<Seq<i32>>,
    pa: Seq<Seq<DualOrF64View>>,
    a0: Seq<Seq<DualOrF64View>>,
    j: int,
    n: int,
)
    requires
        0 <= j,
        is_perm_matrix(p, n),
        rows_correspond(p, pa, a0, n),
        pivot_replay(p, pa, j, n) is Some,
    ensures
        is_perm_matrix(pivot_replay(p, pa, j, n).unwrap().0, n),
        rows_correspond(
            pivot_replay(p, pa, j, n).unwrap().0,
            pivot_replay(p, pa, j, n).unwrap().1,
            a0,
            n,
        ),
    decreases n - j,
{
    if j >= n {
    } else {
        let col = col_mags(pa, j, n);
        lemma_fold_best_bounds(col);
        let k = j + fold_best(col).0;
        if k != j {
            lemma_swap_preserves(p, pa, a0, n, j, k);
            lemma_replay_preserves(swap_rows_spec(p, j, k), swap_rows_spec(pa, j, k), a0, j + 1, n);
        } else {
            lemma_replay_preserves(p, pa, a0, j + 1, n);
        }
    }
}

/// What pivoting yields is a permutation matrix together with the
/// correspondingly row-permuted data.
pub proof fn lemma_pivot_permutation(
    a0: Seq<Seq<DualOrF64View>>,
    pf: Seq<Seq<i32>>,
    paf: Seq<Seq<DualOrF64View>>,
    n: int,
)
    requires
        n == a0.len(),
        pivot_replay(identity_spec(n), a0, 0, n) == Some((pf, paf)),
    ensures
        is_perm_matrix(pf, n),
        rows_correspond(pf, paf, a0, n),
{
    let idm = identity_spec(n);
    assert forall|i: int| 0 <= i < n implies #[trigger] row_has_one(idm, n, i) by {
        assert(idm[i][i] == 1);
        assert(forall|j: int| 0 <= j < n && j != i ==> (#[trigger] idm[i][j]) == 0);
        assert(unit_row(idm[i], n, i));
    }
    assert forall|k: int| 0 <= k < n implies #[trigger] col_has_one(idm, n, k) by {
        assert(idm[k][k] == 1);
        assert(forall|i2: int| 0 <= i2 < n && i2 != k ==> (#[trigger] idm[i2][k]) == 0);
        assert(col_selects(idm, n, k, k));
    }
    assert(is_perm_matrix(idm, n));
    assert forall|i: int| 0 <= i < n implies #[trigger] row_corresponds(idm, a0, a0, n, i) by {
        assert(idm[i][i] == 1 && a0[i] == a0[i]);
    }
    assert(rows_correspond(idm, a0, a0, n));
    lemma_replay_preserves(idm, a0, a0, 0, n);
}

} // verus!
