//! Coverage vectors: per-item counters and the elementwise arithmetic on them.
use vstd::prelude::*;

verus! {

/// Every item is covered at least once.
pub open spec fn covers(c: Seq<u16>) -> bool {
    forall|j: int| 0 <= j < c.len() ==> c[j] >= 1
}

/// Elementwise sum of two counter sequences, as the counters hold it.
pub open spec fn add_seq(s: Seq<u16>, v: Seq<u16>) -> Seq<u16> {
    Seq::new(s.len(), |j: int| (s[j] + v[j]) as u16)
}

/// Elementwise difference of two counter sequences, as the counters hold it.
pub open spec fn sub_seq(s: Seq<u16>, v: Seq<u16>) -> Seq<u16> {
    Seq::new(s.len(), |j: int| (s[j] - v[j]) as u16)
}

/// Adding `v` to `s` overflows no counter.
pub open spec fn sum_fits(s: Seq<u16>, v: Seq<u16>) -> bool {
    forall|j: int| 0 <= j < s.len() ==> s[j] + v[j] <= u16::MAX
}

/// Subtracting `v` from `s` takes no counter below zero.
pub open spec fn dominates(s: Seq<u16>, v: Seq<u16>) -> bool {
    forall|j: int| 0 <= j < s.len() ==> s[j] >= v[j]
}

/// Taking the row `r` out of the coverage `c` leaves every item covered.
pub open spec fn can_remove(c: Seq<u16>, r: Seq<u16>) -> bool {
    forall|j: int| 0 <= j < c.len() ==> c[j] > r[j]
}

/// Sum of column `j` over the first `n` rows.
pub open spec fn col_sum(rows: Seq<Seq<u16>>, n: int, j: int) -> int
    decreases n,
{
    if n <= 0 {
        0
    } else {
        col_sum(rows, n - 1, j) + rows[n - 1][j]
    }
}

/// All rows have length `len`.
pub open spec fn rows_have_len(rows: Seq<Seq<u16>>, len: int) -> bool {
    forall|i: int| 0 <= i < rows.len() ==> #[trigger] rows[i].len() == len
}

/// No column sum of the rows overflows a counter.
pub open spec fn col_sums_fit(rows: Seq<Seq<u16>>, len: int) -> bool {
    forall|j: int| 0 <= j < len ==> #[trigger] col_sum(rows, rows.len() as int, j) <= u16::MAX
}

pub proof fn lemma_col_sum_mono(rows: Seq<Seq<u16>>, m: int, n: int, j: int)
    requires
        0 <= m <= n,
    ensures
        0 <= col_sum(rows, m, j) <= col_sum(rows, n, j),
    decreases n,
{
    if n > m {
        lemma_col_sum_mono(rows, m, n - 1, j);
    } else if n > 0 {
        lemma_col_sum_mono(rows, 0, n - 1, j);
    }
}

/// `vertical_sum` followed by `vertical_diff` with the same operand gives
/// back the vector it started from, whenever the sum does not overflow; the
/// subtraction is then always allowed.
pub proof fn lemma_sum_then_diff(s: Seq<u16>, v: Seq<u16>)
    requires
        s.len() == v.len(),
        sum_fits(s, v),
    ensures
        dominates(add_seq(s, v), v),
        sub_seq(add_seq(s, v), v) == s,
{
    assert(sub_seq(add_seq(s, v), v) =~= s);
}

/// Subtracting a vector that `s` dominates and then adding it back gives
/// `s` again.
pub proof fn lemma_sub_then_sum(s: Seq<u16>, v: Seq<u16>)
    requires
        s.len() == v.len(),
        dominates(s, v),
    ensures
        sum_fits(sub_seq(s, v), v),
        add_seq(sub_seq(s, v), v) == s,
{
    assert(add_seq(sub_seq(s, v), v) =~= s);
}

/// Number of counters handled together in the bulk of the arithmetic.
pub const LANES: usize = 8;

/// Adds `v` to `s` item by item, in place: the bulk in blocks of `LANES`
/// counters, the rest one at a time.
pub fn vertical_sum(s: &mut Vec<u16>, v: &Vec<u16>)
    requires
        old(s)@.len() == v@.len(),
        sum_fits(old(s)@, v@),
    ensures
        final(s)@ == add_seq(old(s)@, v@),
{
    let n = s.len();
    let blocks = n / LANES;
    let mut b: usize = 0;
    let mut i: usize = 0;
    while b < blocks
        invariant
            n == s@.len(),
            n == old(s)@.len(),
            n == v@.len(),
            blocks == n / LANES,
            LANES * blocks <= n,
            i == LANES * b,
            b <= blocks,
            sum_fits(old(s)@, v@),
            forall|j: int| 0 <= j < i ==> s@[j] == old(s)@[j] + v@[j],
            forall|j: int| i <= j < n ==> s@[j] == old(s)@[j],
        decreases blocks - b,
    {
        let mut k: usize = 0;
        while k < LANES
            invariant
                n == s@.len(),
                n == old(s)@.len(),
                n == v@.len(),
                i + LANES <= n,
                k <= LANES,
                sum_fits(old(s)@, v@),
                forall|j: int| 0 <= j < i + k ==> s@[j] == old(s)@[j] + v@[j],
                forall|j: int| i + k <= j < n ==> s@[j] == old(s)@[j],
            decreases LANES - k,
        {
            let x = s[i + k] + v[i + k];
            s.set(i + k, x);
            k += 1;
        }
        i += LANES;
        b += 1;
    }
    while i < n
        invariant
            n == s@.len(),
            n == old(s)@.len(),
            n == v@.len(),
            i <= n,
            sum_fits(old(s)@, v@),
            forall|j: int| 0 <= j < i ==> s@[j] == old(s)@[j] + v@[j],
            forall|j: int| i <= j < n ==> s@[j] == old(s)@[j],
        decreases n - i,
    {
        let x = s[i] + v[i];
        s.set(i, x);
        i += 1;
    }
    assert(s@ =~= add_seq(old(s)@, v@));
}

/// Subtracts `v` from `s` item by item, in place: the bulk in blocks of
/// `LANES` counters, the rest one at a time.
pub fn vertical_diff(s: &mut Vec<u16>, v: &Vec<u16>)
    requires
        old(s)@.len() == v@.len(),
        dominates(old(s)@, v@),
    ensures
        final(s)@ == sub_seq(old(s)@, v@),
{
    let n = s.len();
    let blocks = n / LANES;
    let mut b: usize = 0;
    let mut i: usize = 0;
    while b < blocks
        invariant
            n == s@.len(),
            n == old(s)@.len(),
            n == v@.len(),
            blocks == n / LANES,
            LANES * blocks <= n,
            i == LANES * b,
            b <= blocks,
            dominates(old(s)@, v@),
            forall|j: int| 0 <= j < i ==> s@[j] == old(s)@[j] - v@[j],
            forall|j: int| i <= j < n ==> s@[j] == old(s)@[j],
        decreases blocks - b,
    {
        let mut k: usize = 0;
        while k < LANES
            invariant
                n == s@.len(),
                n == old(s)@.len(),
                n == v@.len(),
                i + LANES <= n,
                k <= LANES,
                dominates(old(s)@, v@),
                forall|j: int| 0 <= j < i + k ==> s@[j] == old(s)@[j] - v@[j],
                forall|j: int| i + k <= j < n ==> s@[j] == old(s)@[j],
            decreases LANES - k,
        {
            let x = s[i + k] - v[i + k];
            s.set(i + k, x);
            k += 1;
        }
        i += LANES;
        b += 1;
    }
    while i < n
        invariant
            n == s@.len(),
            n == old(s)@.len(),
            n == v@.len(),
            i <= n,
            dominates(old(s)@, v@),
            forall|j: int| 0 <= j < i ==> s@[j] == old(s)@[j] - v@[j],
            forall|j: int| i <= j < n ==> s@[j] == old(s)@[j],
        decreases n - i,
    {
        let x = s[i] - v[i];
        s.set(i, x);
        i += 1;
    }
    assert(s@ =~= sub_seq(old(s)@, v@));
}

/// Tells whether every item of the coverage vector is covered.
pub fn _check_cover(desc_sum: &Vec<u16>) -> (r: bool)
    ensures
        r == covers(desc_sum@),
{
    let mut i: usize = 0;
    while i < desc_sum.len()
        invariant
            i <= desc_sum.len(),
            forall|j: int| 0 <= j < i ==> desc_sum@[j] >= 1,
        decreases desc_sum.len() - i,
    {
        if desc_sum[i] == 0 {
            return false;
        }
        i += 1;
    }
    true
}

/// Sums the rows of a descriptor item by item: the coverage vector of the
/// tags it holds.
pub fn sum_descriptor(desc: &Vec<Vec<u16>>) -> (r: Vec<u16>)
    requires
        desc@.len() > 0,
        rows_have_len(desc.deep_view(), desc@[0]@.len() as int),
        col_sums_fit(desc.deep_view(), desc@[0]@.len() as int),
    ensures
        r@.len() == desc@[0]@.len(),
        forall|j: int| 0 <= j < r@.len() ==> r@[j] == col_sum(desc.deep_view(), desc@.len() as int, j),
{
    let ghost rows = desc.deep_view();
    let n = desc[0].len();
    let mut s: Vec<u16> = Vec::new();
    let mut i: usize = 0;
    while i < n
        invariant
            i <= n,
            s@.len() == i,
            forall|j: int| 0 <= j < i ==> s@[j] == 0,
        decreases n - i,
    {
        s.push(0u16);
        i += 1;
    }
    let mut k: usize = 0;
    while k < desc.len()
        invariant
            rows == desc.deep_view(),
            rows.len() == desc@.len(),
            n == desc@[0]@.len(),
            k <= desc@.len(),
            s@.len() == n,
            rows_have_len(rows, n as int),
            col_sums_fit(rows, n as int),
            forall|j: int| 0 <= j < n ==> s@[j] == col_sum(rows, k as int, j),
        decreases desc@.len() - k,
    {
        assert(desc@[k as int]@ == rows[k as int]);
        assert(sum_fits(s@, desc@[k as int]@)) by {
            assert forall|j: int| 0 <= j < n implies s@[j] + desc@[k as int]@[j] <= u16::MAX by {
                assert(col_sums_fit(rows, n as int));
                assert(col_sum(rows, rows.len() as int, j) <= u16::MAX);
                lemma_col_sum_mono(rows, k + 1, rows.len() as int, j);
            }
        }
        vertical_sum(&mut s, &desc[k]);
        k += 1;
    }
    s
}

/// The rows of `b` that the descriptor `desc` names, in its order.
pub open spec fn desc_rows(b: Seq<Seq<u16>>, desc: Seq<usize>) -> Seq<Seq<u16>> {
    Seq::new(desc.len(), |i: int| b[desc[i] as int])
}

/// The rows of the incidence matrix that a descriptor names, in its order.
pub fn get_vec_desc(b_mat: &Vec<Vec<u16>>, desc: &Vec<usize>) -> (r: Vec<Vec<u16>>)
    requires
        forall|i: int| 0 <= i < desc@.len() ==> desc@[i] < b_mat@.len(),
    ensures
        r@.len() == desc@.len(),
        forall|i: int| 0 <= i < desc@.len() ==> #[trigger] r@[i]@ == b_mat@[desc@[i] as int]@,
        r.deep_view() == desc_rows(b_mat.deep_view(), desc@),
{
    let mut vec_desc: Vec<Vec<u16>> = Vec::new();
    let mut i: usize = 0;
    while i < desc.len()
        invariant
            i <= desc@.len(),
            vec_desc@.len() == i,
            forall|k: int| 0 <= k < desc@.len() ==> desc@[k] < b_mat@.len(),
            forall|k: int| 0 <= k < i ==> #[trigger] vec_desc@[k]@ == b_mat@[desc@[k] as int]@,
        decreases desc@.len() - i,
    {
        let row = b_mat[desc[i]].clone();
        vec_desc.push(row);
        i += 1;
    }
    assert(vec_desc.deep_view() =~= desc_rows(b_mat.deep_view(), desc@));
    vec_desc
}

/// Takes the tag at position `idx` of the descriptor out of the coverage
/// vector if every item stays covered without it, and tells whether it did.
/// Where it does not, the coverage vector is left as it was.
pub fn remove_tag(idx: usize, vec_desc: &Vec<Vec<u16>>, desc_sum: &mut Vec<u16>) -> (r: bool)
    requires
        idx < vec_desc@.len(),
        old(desc_sum)@.len() > 0,
        vec_desc@[idx as int]@.len() == old(desc_sum)@.len(),
    ensures
        r == can_remove(old(desc_sum)@, vec_desc@[idx as int]@),
        r ==> final(desc_sum)@ == sub_seq(old(desc_sum)@, vec_desc@[idx as int]@),
        !r ==> final(desc_sum)@ == old(desc_sum)@,
{
    let removed_vec: &Vec<u16> = &vec_desc[idx];
    let n = desc_sum.len();
    let mut i: usize = 0;
    while i < n
        invariant
            n == desc_sum@.len(),
            n == removed_vec@.len(),
            i <= n,
            desc_sum@ == old(desc_sum)@,
            removed_vec@ == vec_desc@[idx as int]@,
            forall|j: int| 0 <= j < i ==> desc_sum@[j] >= removed_vec@[j],
        decreases n - i,
    {
        if desc_sum[i] < removed_vec[i] {
            assert(!(desc_sum@[i as int] > removed_vec@[i as int]));
            return false;
        }
        i += 1;
    }
    let ghost before = desc_sum@;
    vertical_diff(desc_sum, removed_vec);
    assert(covers(desc_sum@) == can_remove(before, removed_vec@)) by {
        if covers(desc_sum@) {
            assert forall|j: int| 0 <= j < n implies before[j] > removed_vec@[j] by {
                assert(desc_sum@[j] >= 1);
            }
        }
        if can_remove(before, removed_vec@) {
            assert forall|j: int| 0 <= j < n implies desc_sum@[j] >= 1 by {
                assert(before[j] > removed_vec@[j]);
            }
        }
    }
    if !_check_cover(desc_sum) {
        proof {
            lemma_sub_then_sum(before, removed_vec@);
        }
        vertical_sum(desc_sum, removed_vec);
        return false;
    }
    true
}

} // verus!
