//! Locating where two incidence matrices differ.
use vstd::prelude::*;

verus! {

/// Positions among the first `m` at which two rows differ, in order.
pub open spec fn row_diffs(r1: Seq<u16>, r2: Seq<u16>, m: int) -> Seq<u16>
    decreases m,
{
    if m <= 0 {
        Seq::empty()
    } else if r1[m - 1] != r2[m - 1] {
        row_diffs(r1, r2, m - 1).push((m - 1) as u16)
    } else {
        row_diffs(r1, r2, m - 1)
    }
}

/// Differing item positions of the first `n` rows, row after row.
pub open spec fn all_diffs(b1: Seq<Seq<u16>>, b2: Seq<Seq<u16>>, n: int) -> Seq<u16>
    decreases n,
{
    if n <= 0 {
        Seq::empty()
    } else {
        all_diffs(b1, b2, n - 1) + row_diffs(b1[n - 1], b2[n - 1], b1[n - 1].len() as int)
    }
}

/// Index of the last of the first `n` rows that differs; zero if none does.
pub open spec fn last_diff_row(b1: Seq<Seq<u16>>, b2: Seq<Seq<u16>>, n: int) -> int
    decreases n,
{
    if n <= 0 {
        0
    } else if row_diffs(b1[n - 1], b2[n - 1], b1[n - 1].len() as int).len() > 0 {
        n - 1
    } else {
        last_diff_row(b1, b2, n - 1)
    }
}

/// The two matrices have one shape, and all its row and item indices fit in
/// a `u16`.
pub open spec fn comparable(b1: Seq<Seq<u16>>, b2: Seq<Seq<u16>>) -> bool {
    &&& b1.len() == b2.len()
    &&& b1.len() <= u16::MAX + 1
    &&& forall|i: int|
        0 <= i < b1.len() ==> #[trigger] b1[i].len() == b2[i].len() && b1[i].len() <= u16::MAX + 1
}

/// Finds the row at which two incidence matrices differ and the item
/// positions at which they differ. Where several rows differ, the last one
/// is returned and the positions of all of them, row after row.
pub fn get_non_matching_row(b_mat_1: &Vec<Vec<u16>>, b_mat_2: &Vec<Vec<u16>>) -> (r: (u16, Vec<u16>))
    requires
        comparable(b_mat_1.deep_view(), b_mat_2.deep_view()),
    ensures
        r.0 as int == last_diff_row(b_mat_1.deep_view(), b_mat_2.deep_view(), b_mat_1@.len() as int),
        r.1@ == all_diffs(b_mat_1.deep_view(), b_mat_2.deep_view(), b_mat_1@.len() as int),
{
    let ghost b1 = b_mat_1.deep_view();
    let ghost b2 = b_mat_2.deep_view();
    let mut diff: u16 = 0;
    let mut items: Vec<u16> = Vec::new();
    let mut i: usize = 0;
    while i < b_mat_1.len()
        invariant
            b1 == b_mat_1.deep_view(),
            b2 == b_mat_2.deep_view(),
            comparable(b1, b2),
            i <= b1.len(),
            diff as int == last_diff_row(b1, b2, i as int),
            items@ == all_diffs(b1, b2, i as int),
        decreases b1.len() - i,
    {
        let row = &b_mat_1[i];
        let other = &b_mat_2[i];
        assert(row@ == b1[i as int]);
        assert(other@ == b2[i as int]);
        let ghost before = items@;
        let ghost prev = diff;
        let mut j: usize = 0;
        while j < row.len()
            invariant
                b1 == b_mat_1.deep_view(),
                b2 == b_mat_2.deep_view(),
                comparable(b1, b2),
                i < b1.len(),
                row@ == b1[i as int],
                other@ == b2[i as int],
                j <= row@.len(),
                items@ == before + row_diffs(row@, other@, j as int),
                diff as int == if row_diffs(row@, other@, j as int).len() > 0 {
                    i as int
                } else {
                    prev as int
                },
            decreases row@.len() - j,
        {
            if row[j] != other[j] {
                diff = i as u16;
                items.push(j as u16);
                assert(items@ =~= before + row_diffs(row@, other@, j + 1));
            }
            j += 1;
        }
        assert(all_diffs(b1, b2, i + 1) == before + row_diffs(row@, other@, row@.len() as int));
        i += 1;
    }
    (diff, items)
}

/// The row index reported for the first `n` rows lies among them.
pub proof fn lemma_last_diff_row_bound(b1: Seq<Seq<u16>>, b2: Seq<Seq<u16>>, n: int)
    requires
        n > 0,
    ensures
        0 <= last_diff_row(b1, b2, n) < n,
    decreases n,
{
    if n > 1 {
        lemma_last_diff_row_bound(b1, b2, n - 1);
    } else {
        assert(last_diff_row(b1, b2, 0) == 0);
    }
}

/// Tells whether two matrices can be compared position by position.
pub fn check_comparable(b_mat_1: &Vec<Vec<u16>>, b_mat_2: &Vec<Vec<u16>>) -> (r: bool)
    ensures
        r == comparable(b_mat_1.deep_view(), b_mat_2.deep_view()),
{
    let ghost b1 = b_mat_1.deep_view();
    let ghost b2 = b_mat_2.deep_view();
    if b_mat_1.len() != b_mat_2.len() || b_mat_1.len() > 65536 {
        return false;
    }
    let mut i: usize = 0;
    while i < b_mat_1.len()
        invariant
            b1 == b_mat_1.deep_view(),
            b2 == b_mat_2.deep_view(),
            b1.len() == b2.len(),
            i <= b1.len(),
            forall|k: int|
                0 <= k < i ==> #[trigger] b1[k].len() == b2[k].len() && b1[k].len() <= u16::MAX + 1,
        decreases b1.len() - i,
    {
        assert(b_mat_1@[i as int]@ == b1[i as int]);
        assert(b_mat_2@[i as int]@ == b2[i as int]);
        if b_mat_1[i].len() != b_mat_2[i].len() || b_mat_1[i].len() > 65536 {
            return false;
        }
        i += 1;
    }
    true
}

} // verus!
