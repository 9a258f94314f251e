//! Validating a reduction's inputs and turning a removal mask into a new
//! descriptor.
use vstd::prelude::*;
use crate::coverage::{col_sum, rows_have_len, desc_rows, get_vec_desc, lemma_col_sum_mono};
use crate::diff::{
    all_diffs, check_comparable, comparable, get_non_matching_row, last_diff_row,
    lemma_last_diff_row_bound,
};
use crate::search::{
    bumps, count_true, full_sweep_mask, lemma_bumps_prefix, minimize_cover,
    pass_mask, reduction_ok, run_passes, start_count, start_coverage, start_vector,
};

verus! {

/// Tells whether `minimize_cover` can take these inputs: there is at least
/// one item and one row, the rows and the candidate row have one length,
/// the affected items lie in it, and no starting count overflows.
pub fn check_reduction(row: &Vec<u16>, items: &Vec<u16>, vec_desc: &Vec<Vec<u16>>) -> (r: bool)
    ensures
        r == reduction_ok(row@, items@, vec_desc.deep_view()),
{
    let ghost rows = vec_desc.deep_view();
    let n = row.len();
    if n == 0 || vec_desc.len() == 0 {
        return false;
    }
    let mut i: usize = 0;
    while i < vec_desc.len()
        invariant
            rows == vec_desc.deep_view(),
            n == row@.len(),
            i <= rows.len(),
            forall|k: int| 0 <= k < i ==> #[trigger] rows[k].len() == n,
        decreases rows.len() - i,
    {
        assert(vec_desc@[i as int]@ == rows[i as int]);
        if vec_desc[i].len() != n {
            assert(rows[i as int].len() != n);
            assert(!rows_have_len(rows, row@.len() as int));
            return false;
        }
        i += 1;
    }
    let mut k: usize = 0;
    while k < items.len()
        invariant
            k <= items@.len(),
            n == row@.len(),
            forall|m: int| 0 <= m < k ==> items@[m] < n,
        decreases items@.len() - k,
    {
        if items[k] as usize >= n {
            assert(!(items@[k as int] < row@.len()));
            return false;
        }
        k += 1;
    }
    let mut acc: Vec<u32> = Vec::new();
    let mut j: usize = 0;
    while j < n
        invariant
            j <= n,
            n == row@.len(),
            acc@.len() == j,
            forall|m: int| 0 <= m < j ==> acc@[m] == row@[m],
        decreases n - j,
    {
        acc.push(row[j] as u32);
        j += 1;
    }
    k = 0;
    assert(items@.subrange(0, 0) =~= Seq::<u16>::empty());
    while k < items.len()
        invariant
            k <= items@.len(),
            n == row@.len(),
            acc@.len() == n,
            rows == vec_desc.deep_view(),
            forall|m: int| 0 <= m < items@.len() ==> items@[m] < n,
            forall|m: int|
                0 <= m < n ==> acc@[m] == row@[m] + bumps(items@.subrange(0, k as int), m)
                    && acc@[m] <= u16::MAX,
        decreases items@.len() - k,
    {
        let it = items[k] as usize;
        assert(items@.subrange(0, k + 1).drop_last() =~= items@.subrange(0, k as int));
        if acc[it] >= 65535 {
            proof {
                lemma_bumps_prefix(items@, k + 1, it as int);
                lemma_col_sum_mono(rows, 0, rows.len() as int, it as int);
                assert(!(start_count(row@, items@, rows, it as int) <= u16::MAX));
            }
            return false;
        }
        let x = acc[it] + 1;
        acc.set(it, x);
        k += 1;
    }
    assert(items@.subrange(0, items@.len() as int) =~= items@);
    i = 0;
    while i < vec_desc.len()
        invariant
            i <= rows.len(),
            n == row@.len(),
            acc@.len() == n,
            rows == vec_desc.deep_view(),
            forall|m: int| 0 <= m < rows.len() ==> #[trigger] rows[m].len() == n,
            forall|m: int|
                0 <= m < n ==> acc@[m] == row@[m] + bumps(items@, m) + col_sum(rows, i as int, m)
                    && acc@[m] <= u16::MAX,
        decreases rows.len() - i,
    {
        let r = &vec_desc[i];
        assert(r@ == rows[i as int]);
        j = 0;
        while j < n
            invariant
                j <= n,
                i < rows.len(),
                rows == vec_desc.deep_view(),
                n == row@.len(),
                acc@.len() == n,
                r@ == rows[i as int],
                r@.len() == n,
                forall|m: int|
                    0 <= m < j ==> acc@[m] == row@[m] + bumps(items@, m) + col_sum(rows, i + 1, m)
                        && acc@[m] <= u16::MAX,
                forall|m: int|
                    j <= m < n ==> acc@[m] == row@[m] + bumps(items@, m) + col_sum(rows, i as int, m)
                        && acc@[m] <= u16::MAX,
            decreases n - j,
        {
            assert(col_sum(rows, i + 1, j as int) == col_sum(rows, i as int, j as int) + rows[i as int][j as int]);
            let x = acc[j] + r[j] as u32;
            if x > 65535 {
                proof {
                    lemma_col_sum_mono(rows, i + 1, rows.len() as int, j as int);
                    assert(!(start_count(row@, items@, rows, j as int) <= u16::MAX));
                }
                return false;
            }
            acc.set(j, x);
            j += 1;
        }
        i += 1;
    }
    assert forall|m: int| 0 <= m < n implies #[trigger] start_count(row@, items@, rows, m) <= u16::MAX by {
        assert(acc@[m] <= u16::MAX);
    }
    true
}

/// The tags of `desc` whose mask entry equals `pick`, in order.
pub open spec fn masked_tags(desc: Seq<usize>, mask: Seq<bool>, pick: bool) -> Seq<usize>
    decreases mask.len(),
{
    if mask.len() == 0 {
        Seq::empty()
    } else if mask.last() == pick {
        masked_tags(desc, mask.drop_last(), pick).push(desc[mask.len() - 1])
    } else {
        masked_tags(desc, mask.drop_last(), pick)
    }
}

/// The tags of `desc` whose mask entry equals `pick`, in order.
pub fn select_tags(desc: &Vec<usize>, mask: &Vec<bool>, pick: bool) -> (r: Vec<usize>)
    requires
        mask@.len() == desc@.len(),
    ensures
        r@ == masked_tags(desc@, mask@, pick),
        r@.len() <= desc@.len(),
{
    let mut out: Vec<usize> = Vec::new();
    let mut i: usize = 0;
    while i < mask.len()
        invariant
            mask@.len() == desc@.len(),
            i <= mask@.len(),
            out@ == masked_tags(desc@, mask@.subrange(0, i as int), pick),
            out@.len() <= i,
        decreases mask@.len() - i,
    {
        assert(mask@.subrange(0, i + 1).drop_last() =~= mask@.subrange(0, i as int));
        if mask[i] == pick {
            out.push(desc[i]);
        }
        i += 1;
    }
    assert(mask@.subrange(0, mask@.len() as int) =~= mask@);
    out
}

/// The descriptor after a reduction: the kept tags, followed by the
/// candidate tag if anything was dropped.
pub open spec fn rebuilt(desc: Seq<usize>, mask: Seq<bool>, tag: usize) -> Seq<usize> {
    let k = masked_tags(desc, mask, false);
    if k.len() < desc.len() {
        k.push(tag)
    } else {
        k
    }
}

/// Drops the masked tags from a descriptor, and appends the candidate tag
/// if that made the descriptor shorter.
pub fn rebuild_descriptor(desc: &Vec<usize>, removed: &Vec<bool>, tag: usize) -> (r: Vec<usize>)
    requires
        removed@.len() == desc@.len(),
    ensures
        r@ == rebuilt(desc@, removed@, tag),
{
    let mut new_desc = select_tags(desc, removed, false);
    if new_desc.len() < desc.len() {
        new_desc.push(tag);
    }
    new_desc
}

/// The inputs of a reduction between two incidence matrices are well
/// formed: the matrices have one shape, the first is not empty, the
/// descriptor names rows of it, and the reduction they lead to is well
/// formed (at least one item and a non-empty descriptor among others).
pub open spec fn solvable(b1: Seq<Seq<u16>>, b2: Seq<Seq<u16>>, desc: Seq<usize>) -> bool {
    &&& comparable(b1, b2)
    &&& b1.len() > 0
    &&& forall|i: int| 0 <= i < desc.len() ==> #[trigger] desc[i] < b1.len()
    &&& reduction_ok(
        b1[last_diff_row(b1, b2, b1.len() as int)],
        all_diffs(b1, b2, b1.len() as int),
        desc_rows(b1, desc),
    )
}

/// Everything that the greedy passes of a reduction between two incidence
/// matrices start from: the candidate tag (the row that differs), the rows
/// of the descriptor in `b_mat_1`, and the starting coverage. Returns `None`
/// when the inputs are not well formed.
pub fn prepare_reduction(b_mat_1: &Vec<Vec<u16>>, b_mat_2: &Vec<Vec<u16>>, desc: &Vec<usize>) -> (r: Option<(u16, Vec<Vec<u16>>, Vec<u16>)>)
    ensures
        r is None <==> !solvable(b_mat_1.deep_view(), b_mat_2.deep_view(), desc@),
        r matches Some((tag, vec_desc, start)) ==> {
            let b1 = b_mat_1.deep_view();
            let b2 = b_mat_2.deep_view();
            &&& tag as int == last_diff_row(b1, b2, b1.len() as int)
            &&& vec_desc.deep_view() == desc_rows(b1, desc@)
            &&& vec_desc@.len() == desc@.len()
            &&& start@ == start_coverage(b1[tag as int], all_diffs(b1, b2, b1.len() as int), desc_rows(b1, desc@))
            &&& rows_have_len(vec_desc.deep_view(), start@.len() as int)
        },
{
    let ghost b1 = b_mat_1.deep_view();
    let ghost b2 = b_mat_2.deep_view();
    if !check_comparable(b_mat_1, b_mat_2) || b_mat_1.len() == 0 {
        return None;
    }
    let mut i: usize = 0;
    while i < desc.len()
        invariant
            i <= desc@.len(),
            forall|k: int| 0 <= k < i ==> #[trigger] desc@[k] < b_mat_1@.len(),
        decreases desc@.len() - i,
    {
        if desc[i] >= b_mat_1.len() {
            return None;
        }
        i += 1;
    }
    let (tag, items) = get_non_matching_row(b_mat_1, b_mat_2);
    proof {
        lemma_last_diff_row_bound(b1, b2, b1.len() as int);
    }
    let vec_desc = get_vec_desc(b_mat_1, desc);
    let row = &b_mat_1[tag as usize];
    assert(row@ == b1[tag as int]);
    if !check_reduction(row, &items, &vec_desc) {
        return None;
    }
    let start = start_vector(row, &items, &vec_desc);
    Some((tag, vec_desc, start))
}

/// Reduces the descriptor `desc` of `b_mat_1` for `b_mat_2`: finds the tag
/// whose row differs between them, reduces the descriptor with that tag as
/// candidate, and rebuilds it. Returns `None` when the inputs are not well
/// formed.
pub fn two_matrix_solve(b_mat_1: &Vec<Vec<u16>>, b_mat_2: &Vec<Vec<u16>>, desc: &Vec<usize>) -> (r: Option<Vec<usize>>)
    ensures
        r is None <==> !solvable(b_mat_1.deep_view(), b_mat_2.deep_view(), desc@),
        r matches Some(d) ==> {
            let b1 = b_mat_1.deep_view();
            let b2 = b_mat_2.deep_view();
            let tag = last_diff_row(b1, b2, b1.len() as int);
            let rows = desc_rows(b1, desc@);
            let start = start_coverage(b1[tag], all_diffs(b1, b2, b1.len() as int), rows);
            exists|skips: Seq<bool>|
                #![trigger pass_mask(rows, start, skips)]
                skips.len() == desc@.len() && d@ == rebuilt(
                    desc@,
                    pass_mask(rows, start, skips),
                    tag as usize,
                ) && count_true(pass_mask(rows, start, skips)) >= count_true(
                    full_sweep_mask(rows, start),
                )
        },
{
    match prepare_reduction(b_mat_1, b_mat_2, desc) {
        None => None,
        Some((tag, vec_desc, start)) => {
            let removed = run_passes(&vec_desc, &start);
            Some(rebuild_descriptor(desc, &removed, tag as usize))
        },
    }
}

/// Reduces the descriptor `desc` of `b_mat` with `tag` as candidate and
/// `items` as its affected items, and returns the reduced descriptor: the
/// tags of `desc` that the reduction keeps, in order.
pub fn reduced_descriptor(b_mat: &Vec<Vec<u16>>, desc: &Vec<usize>, tag: u16, items: Vec<u16>) -> (r: Vec<usize>)
    requires
        (tag as int) < b_mat@.len(),
        forall|i: int| 0 <= i < desc@.len() ==> #[trigger] desc@[i] < b_mat@.len(),
        reduction_ok(b_mat@[tag as int]@, items@, desc_rows(b_mat.deep_view(), desc@)),
    ensures
        ({
            let rows = desc_rows(b_mat.deep_view(), desc@);
            let start = start_coverage(b_mat@[tag as int]@, items@, rows);
            exists|skips: Seq<bool>|
                #![trigger pass_mask(rows, start, skips)]
                skips.len() == desc@.len() && r@ == masked_tags(
                    desc@,
                    pass_mask(rows, start, skips),
                    false,
                ) && count_true(pass_mask(rows, start, skips)) >= count_true(
                    full_sweep_mask(rows, start),
                )
        }),
{
    let vec_desc = get_vec_desc(b_mat, desc);
    let removed = minimize_cover(b_mat, &vec_desc, tag, items);
    select_tags(desc, &removed, false)
}

} // verus!
