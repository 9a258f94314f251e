//! Randomised greedy reduction of a descriptor.
use vstd::prelude::*;
use crate::coverage::{
    can_remove, col_sum, col_sums_fit, covers, lemma_col_sum_mono, remove_tag, rows_have_len, sub_seq, sum_descriptor, vertical_sum,
};

verus! {

/// Number of passes made over the descriptor; the first is the full
/// deterministic sweep, the others skip positions at random.
pub const NUM_WORKERS: usize = 16;

/// Coverage and removal mask after a greedy pass over the first `n`
/// positions, starting from coverage `c0`: a position is tried unless
/// `skips` marks it, and a tried tag is removed when every item stays
/// covered without it.
pub open spec fn pass_state(rows: Seq<Seq<u16>>, c0: Seq<u16>, skips: Seq<bool>, n: nat) -> (
    Seq<u16>,
    Seq<bool>,
)
    decreases n,
{
    if n == 0 {
        (c0, Seq::empty())
    } else {
        let (c, m) = pass_state(rows, c0, skips, (n - 1) as nat);
        if !skips[n - 1] && can_remove(c, rows[n - 1]) {
            (sub_seq(c, rows[n - 1]), m.push(true))
        } else {
            (c, m.push(false))
        }
    }
}

/// The mask of a greedy pass over all positions.
pub open spec fn pass_mask(rows: Seq<Seq<u16>>, c0: Seq<u16>, skips: Seq<bool>) -> Seq<bool> {
    pass_state(rows, c0, skips, rows.len()).1
}

/// The mask of the deterministic pass, which tries every position.
pub open spec fn full_sweep_mask(rows: Seq<Seq<u16>>, c0: Seq<u16>) -> Seq<bool> {
    pass_mask(rows, c0, Seq::new(rows.len(), |i: int| false))
}

/// Number of `true` entries of a mask.
pub open spec fn count_true(m: Seq<bool>) -> nat
    decreases m.len(),
{
    if m.len() == 0 {
        0
    } else {
        count_true(m.drop_last()) + if m.last() {
            1nat
        } else {
            0nat
        }
    }
}

/// Sum of column `j` over the rows whose mask entry equals `pick`.
pub open spec fn masked_sum(rows: Seq<Seq<u16>>, mask: Seq<bool>, pick: bool, j: int) -> int
    decreases mask.len(),
{
    if mask.len() == 0 {
        0
    } else {
        masked_sum(rows, mask.drop_last(), pick, j) + if mask.last() == pick {
            rows[mask.len() - 1][j] as int
        } else {
            0
        }
    }
}

/// Number of times item `j` occurs in `items`.
pub open spec fn bumps(items: Seq<u16>, j: int) -> int
    decreases items.len(),
{
    if items.len() == 0 {
        0
    } else {
        bumps(items.drop_last(), j) + if items.last() == j {
            1int
        } else {
            0
        }
    }
}

/// Coverage that the candidate tag contributes to item `j`: its own row,
/// plus one for each time `j` is listed among the affected items.
pub open spec fn trial_count(row: Seq<u16>, items: Seq<u16>, j: int) -> int {
    row[j] + bumps(items, j)
}

/// Starting coverage of item `j`: the candidate's contribution and that of
/// every row of the descriptor.
pub open spec fn start_count(row: Seq<u16>, items: Seq<u16>, rows: Seq<Seq<u16>>, j: int) -> int {
    trial_count(row, items, j) + col_sum(rows, rows.len() as int, j)
}

/// The starting coverage vector of a reduction.
pub open spec fn start_coverage(row: Seq<u16>, items: Seq<u16>, rows: Seq<Seq<u16>>) -> Seq<u16> {
    Seq::new(row.len(), |j: int| start_count(row, items, rows, j) as u16)
}

/// A reduction is well formed: there is at least one item and at least one
/// row in the descriptor, the rows and the candidate row have one length,
/// the affected items lie in it, and no count overflows.
pub open spec fn reduction_ok(row: Seq<u16>, items: Seq<u16>, rows: Seq<Seq<u16>>) -> bool {
    &&& row.len() > 0
    &&& rows.len() > 0
    &&& rows_have_len(rows, row.len() as int)
    &&& forall|k: int| 0 <= k < items.len() ==> items[k] < row.len()
    &&& forall|j: int|
        0 <= j < row.len() ==> #[trigger] start_count(row, items, rows, j) <= u16::MAX
}

proof fn lemma_split_sum(rows: Seq<Seq<u16>>, mask: Seq<bool>, j: int)
    ensures
        col_sum(rows, mask.len() as int, j) == masked_sum(rows, mask, true, j) + masked_sum(
            rows,
            mask,
            false,
            j,
        ),
    decreases mask.len(),
{
    if mask.len() > 0 {
        lemma_split_sum(rows, mask.drop_last(), j);
    }
}

pub(crate) proof fn lemma_bumps_nonneg(items: Seq<u16>, j: int)
    ensures
        bumps(items, j) >= 0,
    decreases items.len(),
{
    if items.len() > 0 {
        lemma_bumps_nonneg(items.drop_last(), j);
    }
}

/// What a greedy pass does: the mask has one entry per position, every
/// removal was paid for out of the starting coverage, and coverage stays
/// complete if it was complete at the start or if anything was removed.
pub proof fn lemma_pass(rows: Seq<Seq<u16>>, c0: Seq<u16>, skips: Seq<bool>, n: nat)
    requires
        n <= rows.len(),
        n <= skips.len(),
        rows_have_len(rows, c0.len() as int),
    ensures
        pass_state(rows, c0, skips, n).1.len() == n,
        pass_state(rows, c0, skips, n).0.len() == c0.len(),
        forall|j: int|
            0 <= j < c0.len() ==> #[trigger] pass_state(rows, c0, skips, n).0[j] == c0[j]
                - masked_sum(rows, pass_state(rows, c0, skips, n).1, true, j),
        covers(c0) || (exists|i: int| 0 <= i < n && pass_state(rows, c0, skips, n).1[i])
            ==> covers(pass_state(rows, c0, skips, n).0),
    decreases n,
{
    if n > 0 {
        let k = (n - 1) as nat;
        lemma_pass(rows, c0, skips, k);
        let (c, m) = pass_state(rows, c0, skips, k);
        let (c2, m2) = pass_state(rows, c0, skips, n);
        assert(m2.drop_last() =~= m);
        assert(rows[k as int].len() == c0.len());
        if !skips[k as int] && can_remove(c, rows[k as int]) {
            assert(covers(c2));
        } else {
            if exists|i: int| 0 <= i < n && m2[i] {
                let i = choose|i: int| 0 <= i < n && m2[i];
                assert(m2[i] == m[i]);
            }
        }
    }
}

/// Some item is covered by the row `r` alone: its coverage in `c` is no more
/// than the row's own count.
pub open spec fn sole_cover(c: Seq<u16>, r: Seq<u16>) -> bool {
    exists|j: int| 0 <= j < c.len() && c[j] <= #[trigger] r[j]
}

/// Where every row is the only cover of some item (the starting coverage of
/// that item is no more than the row's own count), no greedy pass removes
/// anything, whatever it skips: the mask is all `false`.
pub proof fn lemma_exact_cover_keeps_all(rows: Seq<Seq<u16>>, c0: Seq<u16>, skips: Seq<bool>)
    requires
        skips.len() == rows.len(),
        rows_have_len(rows, c0.len() as int),
        forall|i: int| 0 <= i < rows.len() ==> #[trigger] sole_cover(c0, rows[i]),
    ensures
        pass_mask(rows, c0, skips) == Seq::new(rows.len(), |i: int| false),
{
    lemma_no_removal(rows, c0, skips, rows.len());
}

proof fn lemma_no_removal(rows: Seq<Seq<u16>>, c0: Seq<u16>, skips: Seq<bool>, n: nat)
    requires
        n <= rows.len(),
        skips.len() == rows.len(),
        rows_have_len(rows, c0.len() as int),
        forall|i: int| 0 <= i < rows.len() ==> #[trigger] sole_cover(c0, rows[i]),
    ensures
        pass_state(rows, c0, skips, n).0 == c0,
        pass_state(rows, c0, skips, n).1 == Seq::new(n, |i: int| false),
    decreases n,
{
    if n == 0 {
        assert(pass_state(rows, c0, skips, 0).1 =~= Seq::new(0, |i: int| false));
    } else {
        let k = (n - 1) as int;
        lemma_no_removal(rows, c0, skips, (n - 1) as nat);
        assert(sole_cover(c0, rows[k]));
        let j = choose|j: int| 0 <= j < c0.len() && c0[j] <= #[trigger] rows[k][j];
        assert(!can_remove(c0, rows[k]));
        assert(pass_state(rows, c0, skips, n).1 =~= Seq::new(n, |i: int| false));
    }
}

/// Relies on rand::random::<bool>: a fair coin drawn from the thread-local
/// generator. Nothing is promised of its value.
#[verifier::external_body]
fn coin_flip() -> (r: bool) {
    rand::random::<bool>()
}

/// `n` independent fair coins: the positions that a randomised pass skips.
pub fn draw_skips(n: usize) -> (r: Vec<bool>)
    ensures
        r@.len() == n,
{
    let mut skips: Vec<bool> = Vec::new();
    let mut i: usize = 0;
    while i < n
        invariant
            i <= n,
            skips@.len() == i,
        decreases n - i,
    {
        skips.push(coin_flip());
        i += 1;
    }
    skips
}

/// One greedy pass over the descriptor in its order, on a private copy of
/// the coverage vector: each position that `skips` does not mark is tried
/// with `remove_tag`. Returns the removal mask.
pub fn greedy_pass(vec_desc: &Vec<Vec<u16>>, desc_sum: &Vec<u16>, skips: &Vec<bool>) -> (r: Vec<
    bool,
>)
    requires
        skips@.len() == vec_desc@.len(),
        desc_sum@.len() > 0,
        rows_have_len(vec_desc.deep_view(), desc_sum@.len() as int),
    ensures
        r@ == pass_mask(vec_desc.deep_view(), desc_sum@, skips@),
{
    let ghost rows = vec_desc.deep_view();
    let mut d_sum = desc_sum.clone();
    let mut rem: Vec<bool> = Vec::new();
    let mut idx: usize = 0;
    assert(d_sum@ =~= desc_sum@);
    while idx < vec_desc.len()
        invariant
            rows == vec_desc.deep_view(),
            rows.len() == vec_desc@.len(),
            skips@.len() == vec_desc@.len(),
            desc_sum@.len() > 0,
            idx <= vec_desc@.len(),
            rows_have_len(rows, desc_sum@.len() as int),
            (d_sum@, rem@) == pass_state(rows, desc_sum@, skips@, idx as nat),
        decreases vec_desc@.len() - idx,
    {
        proof {
            lemma_pass(rows, desc_sum@, skips@, idx as nat);
            assert(vec_desc@[idx as int]@ == rows[idx as int]);
        }
        if skips[idx] {
            rem.push(false);
        } else {
            let removed = remove_tag(idx, vec_desc, &mut d_sum);
            rem.push(removed);
        }
        idx += 1;
    }
    rem
}

/// Number of `true` entries of a mask.
pub fn count_removed(m: &Vec<bool>) -> (r: usize)
    ensures
        r == count_true(m@),
{
    let mut cnt: usize = 0;
    let mut i: usize = 0;
    while i < m.len()
        invariant
            i <= m@.len(),
            cnt == count_true(m@.subrange(0, i as int)),
            cnt <= i,
        decreases m@.len() - i,
    {
        assert(m@.subrange(0, i + 1).drop_last() =~= m@.subrange(0, i as int));
        if m[i] {
            cnt += 1;
        }
        i += 1;
    }
    assert(m@.subrange(0, m@.len() as int) =~= m@);
    cnt
}

/// Index of the mask with the most `true` entries; the first such on ties.
pub fn best_mask(masks: &Vec<Vec<bool>>) -> (r: usize)
    requires
        masks@.len() > 0,
    ensures
        r < masks@.len(),
        forall|k: int| 0 <= k < masks@.len() ==> count_true(#[trigger] masks@[k]@) <= count_true(masks@[r as int]@),
        forall|k: int| 0 <= k < r ==> count_true(#[trigger] masks@[k]@) < count_true(masks@[r as int]@),
{
    let mut best: usize = 0;
    let mut max: usize = count_removed(&masks[0]);
    let mut i: usize = 1;
    while i < masks.len()
        invariant
            1 <= i <= masks@.len(),
            best < i,
            max == count_true(masks@[best as int]@),
            forall|k: int| 0 <= k < i ==> count_true(#[trigger] masks@[k]@) <= max,
            forall|k: int| 0 <= k < best ==> count_true(#[trigger] masks@[k]@) < max,
        decreases masks@.len() - i,
    {
        let count = count_removed(&masks[i]);
        if max < count {
            max = count;
            best = i;
        }
        i += 1;
    }
    best
}

pub(crate) proof fn lemma_bumps_prefix(items: Seq<u16>, k: int, j: int)
    requires
        0 <= k <= items.len(),
    ensures
        0 <= bumps(items.subrange(0, k), j) <= bumps(items, j),
    decreases items.len(),
{
    lemma_bumps_nonneg(items.subrange(0, k), j);
    if k == items.len() {
        assert(items.subrange(0, k) =~= items);
    } else {
        assert(items.drop_last().subrange(0, k) =~= items.subrange(0, k));
        lemma_bumps_prefix(items.drop_last(), k, j);
    }
}

fn all_false(n: usize) -> (r: Vec<bool>)
    ensures
        r@ == Seq::new(n as nat, |i: int| false),
{
    let mut v: Vec<bool> = Vec::new();
    let mut i: usize = 0;
    while i < n
        invariant
            i <= n,
            v@ == Seq::new(i as nat, |k: int| false),
        decreases n - i,
    {
        v.push(false);
        i += 1;
        assert(v@ =~= Seq::new(i as nat, |k: int| false));
    }
    v
}

/// The candidate tag's row with one added at each affected item.
fn trial_row(row: &Vec<u16>, items: &Vec<u16>, Ghost(rows): Ghost<Seq<Seq<u16>>>) -> (r: Vec<u16>)
    requires
        reduction_ok(row@, items@, rows),
    ensures
        r@.len() == row@.len(),
        forall|j: int| 0 <= j < row@.len() ==> r@[j] == trial_count(row@, items@, j),
{
    let mut t = row.clone();
    let mut k: usize = 0;
    while k < items.len()
        invariant
            k <= items@.len(),
            t@.len() == row@.len(),
            reduction_ok(row@, items@, rows),
            forall|j: int|
                0 <= j < row@.len() ==> t@[j] == row@[j] + bumps(items@.subrange(0, k as int), j),
        decreases items@.len() - k,
    {
        let i = items[k] as usize;
        assert(items@.subrange(0, k + 1).drop_last() =~= items@.subrange(0, k as int));
        proof {
            lemma_bumps_prefix(items@, k + 1, i as int);
            lemma_col_sum_mono(rows, 0, rows.len() as int, i as int);
            assert(start_count(row@, items@, rows, i as int) <= u16::MAX);
        }
        let x = t[i] + 1;
        t.set(i, x);
        k += 1;
    }
    assert(items@.subrange(0, items@.len() as int) =~= items@);
    t
}

/// The starting coverage of a reduction: the sum of the descriptor's rows
/// and the candidate row, with one more at each affected item.
pub fn start_vector(row: &Vec<u16>, items: &Vec<u16>, vec_desc: &Vec<Vec<u16>>) -> (r: Vec<u16>)
    requires
        reduction_ok(row@, items@, vec_desc.deep_view()),
    ensures
        r@ == start_coverage(row@, items@, vec_desc.deep_view()),
{
    let ghost rows = vec_desc.deep_view();
    let ghost start = start_coverage(row@, items@, rows);
    let n = row.len();
    let t = trial_row(row, items, Ghost(rows));
    assert(vec_desc@[0]@ == rows[0]);
    assert(col_sums_fit(rows, n as int)) by {
        assert forall|j: int| 0 <= j < n implies #[trigger] col_sum(rows, rows.len() as int, j) <= u16::MAX by {
            lemma_bumps_nonneg(items@, j);
            assert(start_count(row@, items@, rows, j) <= u16::MAX);
        }
    }
    let mut desc_sum = sum_descriptor(vec_desc);
    proof {
        assert forall|j: int| 0 <= j < n implies desc_sum@[j] + t@[j] <= u16::MAX by {
            assert(start_count(row@, items@, rows, j) <= u16::MAX);
        }
    }
    vertical_sum(&mut desc_sum, &t);
    proof {
        assert forall|j: int| 0 <= j < n implies desc_sum@[j] == start[j] by {
            lemma_bumps_nonneg(items@, j);
            lemma_col_sum_mono(rows, 0, rows.len() as int, j);
            assert(start_count(row@, items@, rows, j) <= u16::MAX);
        }
        assert(desc_sum@ =~= start);
    }
    desc_sum
}

/// Runs `NUM_WORKERS` greedy passes from the coverage `desc_sum`: the first
/// tries every position, the others skip positions at random. Returns the
/// mask of the pass that removed the most tags, the first on ties.
pub fn run_passes(vec_desc: &Vec<Vec<u16>>, desc_sum: &Vec<u16>) -> (r: Vec<bool>)
    requires
        desc_sum@.len() > 0,
        rows_have_len(vec_desc.deep_view(), desc_sum@.len() as int),
    ensures
        r@.len() == vec_desc@.len(),
        exists|skips: Seq<bool>|
            #![trigger pass_mask(vec_desc.deep_view(), desc_sum@, skips)]
            skips.len() == vec_desc@.len() && r@ == pass_mask(vec_desc.deep_view(), desc_sum@, skips),
        count_true(r@) >= count_true(full_sweep_mask(vec_desc.deep_view(), desc_sum@)),
{
    let ghost rows = vec_desc.deep_view();
    let ghost start = desc_sum@;
    let len = vec_desc.len();
    let mut masks: Vec<Vec<bool>> = Vec::new();
    let ghost mut skip_list: Seq<Seq<bool>> = Seq::empty();
    let mut w: usize = 0;
    while w < NUM_WORKERS
        invariant
            rows == vec_desc.deep_view(),
            rows.len() == len,
            len == vec_desc@.len(),
            desc_sum@ == start,
            start.len() > 0,
            rows_have_len(rows, start.len() as int),
            w <= NUM_WORKERS,
            masks@.len() == w,
            skip_list.len() == w,
            forall|k: int|
                0 <= k < w ==> (#[trigger] skip_list[k]).len() == len && masks@[k]@ == pass_mask(
                    rows,
                    start,
                    skip_list[k],
                ),
            w > 0 ==> masks@[0]@ == full_sweep_mask(rows, start),
        decreases NUM_WORKERS - w,
    {
        let skips = if w == 0 {
            all_false(len)
        } else {
            draw_skips(len)
        };
        let m = greedy_pass(vec_desc, desc_sum, &skips);
        masks.push(m);
        proof {
            skip_list = skip_list.push(skips@);
        }
        w += 1;
    }
    let best = best_mask(&masks);
    let ghost chosen = skip_list[best as int];
    assert(count_true(masks@[0]@) <= count_true(masks@[best as int]@));
    let r = masks.remove(best);
    proof {
        lemma_pass(rows, start, chosen, len as nat);
        assert(r@ == pass_mask(rows, start, chosen));
    }
    r
}

/// Reduces a descriptor to which a candidate tag is being added.
///
/// `vec_desc` holds the incidence rows of the descriptor's tags, `tag` the
/// candidate's row in `b_mat`, and `items` the items whose incidence differs
/// for it; each of those adds one to the candidate's contribution. Runs the
/// greedy passes of `run_passes` from that starting coverage. Every item
/// stays covered by the tags that are kept and the candidate, if it was
/// covered at the start or if anything was removed.
pub fn minimize_cover(b_mat: &Vec<Vec<u16>>, vec_desc: &Vec<Vec<u16>>, tag: u16, items: Vec<u16>) -> (r: Vec<bool>)
    requires
        (tag as int) < b_mat@.len(),
        reduction_ok(b_mat@[tag as int]@, items@, vec_desc.deep_view()),
    ensures
        r@.len() == vec_desc@.len(),
        exists|skips: Seq<bool>|
            #![trigger pass_mask(vec_desc.deep_view(), start_coverage(b_mat@[tag as int]@, items@, vec_desc.deep_view()), skips)]
            skips.len() == vec_desc@.len() && r@ == pass_mask(
                vec_desc.deep_view(),
                start_coverage(b_mat@[tag as int]@, items@, vec_desc.deep_view()),
                skips,
            ),
        count_true(r@) >= count_true(
            full_sweep_mask(
                vec_desc.deep_view(),
                start_coverage(b_mat@[tag as int]@, items@, vec_desc.deep_view()),
            ),
        ),
        covers(start_coverage(b_mat@[tag as int]@, items@, vec_desc.deep_view())) || (exists|i: int|
            0 <= i < r@.len() && r@[i]) ==> forall|j: int|
            0 <= j < b_mat@[tag as int]@.len() ==> trial_count(b_mat@[tag as int]@, items@, j)
                + #[trigger] masked_sum(vec_desc.deep_view(), r@, false, j) >= 1,
{
    let ghost rows = vec_desc.deep_view();
    let row = &b_mat[tag as usize];
    let ghost start = start_coverage(row@, items@, rows);
    let ghost n = row@.len();
    let ghost len = vec_desc@.len();
    let desc_sum = start_vector(row, &items, vec_desc);
    let r = run_passes(vec_desc, &desc_sum);
    proof {
        let chosen = choose|skips: Seq<bool>|
            #![trigger pass_mask(rows, start, skips)]
            skips.len() == len && r@ == pass_mask(rows, start, skips);
        lemma_pass(rows, start, chosen, len as nat);
        assert forall|j: int| 0 <= j < n implies #[trigger] pass_state(rows, start, chosen, len as nat).0[j]
            == trial_count(row@, items@, j) + masked_sum(rows, r@, false, j) by {
            lemma_split_sum(rows, r@, j);
            lemma_bumps_nonneg(items@, j);
            lemma_col_sum_mono(rows, 0, rows.len() as int, j);
            assert(start_count(row@, items@, rows, j) <= u16::MAX);
        }
        if covers(start) || (exists|i: int| 0 <= i < r@.len() && r@[i]) {
            assert forall|j: int| 0 <= j < n implies trial_count(row@, items@, j)
                + #[trigger] masked_sum(rows, r@, false, j) >= 1 by {
                assert(pass_state(rows, start, chosen, len as nat).0[j] >= 1);
            }
        }
    }
    r
}

} // verus!
