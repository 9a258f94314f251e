//! The text format of an incidence matrix.
//!
//! The first line holds parameters separated by spaces; the third is the
//! number of tags. Every further line describes one item: its fields after
//! the first two are the item's incidence with tag 0, 1, ... in turn.
//! Numbers are decimal, with an optional leading `+`.
use vstd::prelude::*;

verus! {

/// The pieces of `s` between occurrences of `sep`, in order; there is one
/// more piece than there are separators.
pub open spec fn split_at_byte(s: Seq<u8>, sep: u8) -> Seq<Seq<u8>>
    decreases s.len(),
{
    if s.len() == 0 {
        seq![Seq::empty()]
    } else {
        let p = split_at_byte(s.drop_last(), sep);
        if s.last() == sep {
            p.push(Seq::empty())
        } else {
            p.update(p.len() - 1, p.last().push(s.last()))
        }
    }
}

/// The pieces that are not empty, in order.
pub open spec fn non_empty(ps: Seq<Seq<u8>>) -> Seq<Seq<u8>>
    decreases ps.len(),
{
    if ps.len() == 0 {
        Seq::empty()
    } else if ps.last().len() > 0 {
        non_empty(ps.drop_last()).push(ps.last())
    } else {
        non_empty(ps.drop_last())
    }
}

/// The space-separated fields of a line.
pub open spec fn fields(line: Seq<u8>) -> Seq<Seq<u8>> {
    non_empty(split_at_byte(line, 32u8))
}

pub open spec fn is_digit(b: u8) -> bool {
    48 <= b <= 57
}

/// The digits of a number: what follows an optional leading `+`.
pub open spec fn digits_of(t: Seq<u8>) -> Seq<u8> {
    if t.len() > 0 && t[0] == 43 {
        t.drop_first()
    } else {
        t
    }
}

/// A number: an optional `+` followed by a non-empty run of decimal digits.
pub open spec fn is_number(t: Seq<u8>) -> bool {
    let d = digits_of(t);
    d.len() > 0 && forall|k: int| 0 <= k < d.len() ==> is_digit(#[trigger] d[k])
}

/// The value of a number.
pub open spec fn number_value(t: Seq<u8>) -> int {
    decimal_value(digits_of(t))
}

/// The number that a run of decimal digits writes.
pub open spec fn decimal_value(t: Seq<u8>) -> int
    decreases t.len(),
{
    if t.len() == 0 {
        0
    } else {
        decimal_value(t.drop_last()) * 10 + (t.last() - 48)
    }
}

pub proof fn lemma_split_non_empty(s: Seq<u8>, sep: u8)
    ensures
        split_at_byte(s, sep).len() >= 1,
    decreases s.len(),
{
    if s.len() > 0 {
        lemma_split_non_empty(s.drop_last(), sep);
    }
}

proof fn lemma_decimal_prefix(t: Seq<u8>, k: int)
    requires
        0 <= k <= t.len(),
        forall|m: int| 0 <= m < t.len() ==> is_digit(#[trigger] t[m]),
    ensures
        0 <= decimal_value(t.subrange(0, k)) <= decimal_value(t),
    decreases t.len(),
{
    if k == t.len() {
        assert(t.subrange(0, k) =~= t);
        if t.len() > 0 {
            lemma_decimal_prefix(t.drop_last(), k - 1);
            assert(t.drop_last().subrange(0, k - 1) =~= t.drop_last());
        }
    } else {
        assert(t.drop_last().subrange(0, k) =~= t.subrange(0, k));
        lemma_decimal_prefix(t.drop_last(), k);
        lemma_decimal_prefix(t.drop_last(), t.len() - 1);
        assert(t.drop_last().subrange(0, t.len() - 1) =~= t.drop_last());
    }
}

proof fn lemma_bytes_deep_view(v: &Vec<u8>)
    ensures
        v.deep_view() == v@,
{
    assert(v.deep_view() =~= v@);
}

/// Splits `s` at every occurrence of `sep`.
pub fn split_bytes(s: &Vec<u8>, sep: u8) -> (r: Vec<Vec<u8>>)
    ensures
        r.deep_view() == split_at_byte(s@, sep),
{
    let mut done: Vec<Vec<u8>> = Vec::new();
    let mut cur: Vec<u8> = Vec::new();
    let mut i: usize = 0;
    assert(s@.subrange(0, 0) =~= Seq::<u8>::empty());
    assert(done.deep_view().push(cur@) =~= split_at_byte(s@.subrange(0, 0), sep));
    while i < s.len()
        invariant
            i <= s@.len(),
            done.deep_view().push(cur@) == split_at_byte(s@.subrange(0, i as int), sep),
        decreases s@.len() - i,
    {
        assert(s@.subrange(0, i + 1).drop_last() =~= s@.subrange(0, i as int));
        let ghost before = done.deep_view().push(cur@);
        if s[i] == sep {
            let ghost done_before = done.deep_view();
            proof {
                lemma_bytes_deep_view(&cur);
            }
            done.push(cur);
            assert(done.deep_view() =~= done_before.push(before.last()));
            cur = Vec::new();
            assert(done.deep_view().push(cur@) =~= before.push(Seq::empty()));
        } else {
            cur.push(s[i]);
            assert(done.deep_view().push(cur@) =~= before.update(
                before.len() - 1,
                before.last().push(s@[i as int]),
            ));
        }
        i += 1;
    }
    assert(s@.subrange(0, s@.len() as int) =~= s@);
    let ghost done_before = done.deep_view();
    proof {
        lemma_bytes_deep_view(&cur);
    }
    done.push(cur);
    assert(done.deep_view() =~= done_before.push(cur@));
    done
}

/// The space-separated fields of a line.
pub fn split_fields(line: &Vec<u8>) -> (r: Vec<Vec<u8>>)
    ensures
        r.deep_view() == fields(line@),
{
    let pieces = split_bytes(line, 32u8);
    let ghost ps = pieces.deep_view();
    let mut out: Vec<Vec<u8>> = Vec::new();
    let mut i: usize = 0;
    while i < pieces.len()
        invariant
            ps == pieces.deep_view(),
            i <= ps.len(),
            out.deep_view() == non_empty(ps.subrange(0, i as int)),
        decreases ps.len() - i,
    {
        assert(ps.subrange(0, i + 1).drop_last() =~= ps.subrange(0, i as int));
        proof {
            lemma_bytes_deep_view(&pieces@[i as int]);
        }
        assert(pieces@[i as int]@ == ps[i as int]);
        if pieces[i].len() > 0 {
            let ghost before = out.deep_view();
            let piece = pieces[i].clone();
            proof {
                lemma_bytes_deep_view(&piece);
            }
            out.push(piece);
            assert(out.deep_view() =~= before.push(ps[i as int]));
        }
        i += 1;
    }
    assert(ps.subrange(0, ps.len() as int) =~= ps);
    out
}

/// Reads a number, an optional `+` followed by decimal digits, whose value
/// is no larger than `max`.
pub fn parse_decimal(t: &Vec<u8>, max: u32) -> (r: Option<u32>)
    ensures
        r is Some <==> is_number(t@) && number_value(t@) <= max,
        r matches Some(v) ==> v as int == number_value(t@),
{
    let len = t.len();
    let mut st: usize = 0;
    if len > 0 && t[0] == 43 {
        st = 1;
    }
    let ghost d = digits_of(t@);
    assert(d =~= t@.subrange(st as int, len as int));
    if st >= len {
        return None;
    }
    let mut acc: u64 = 0;
    let mut i: usize = st;
    assert(t@.subrange(st as int, st as int) =~= Seq::<u8>::empty());
    while i < len
        invariant
            len == t@.len(),
            st <= i <= len,
            st < len,
            d == digits_of(t@),
            d == t@.subrange(st as int, len as int),
            forall|m: int| st <= m < i ==> is_digit(#[trigger] t@[m]),
            acc as int == decimal_value(t@.subrange(st as int, i as int)),
            acc <= max,
        decreases len - i,
    {
        assert(t@.subrange(st as int, i + 1).drop_last() =~= t@.subrange(st as int, i as int));
        let b = t[i];
        if b < 48 || b > 57 {
            assert(d[i - st] == t@[i as int]);
            assert(!is_digit(d[i - st]));
            return None;
        }
        acc = acc * 10 + (b - 48) as u64;
        if acc > max as u64 {
            proof {
                if is_number(t@) {
                    assert(d == digits_of(t@));
                    assert(forall|m: int| 0 <= m < d.len() ==> is_digit(#[trigger] d[m]));
                    lemma_decimal_prefix(d, i + 1 - st);
                    assert(d.subrange(0, i + 1 - st) =~= t@.subrange(st as int, i + 1));
                }
            }
            return None;
        }
        i += 1;
    }
    assert forall|k: int| 0 <= k < d.len() implies is_digit(#[trigger] d[k]) by {
        assert(d[k] == t@[k + st]);
    }
    Some(acc as u32)
}

/// The fields of the parameter line.
pub open spec fn header(c: Seq<u8>) -> Seq<Seq<u8>> {
    fields(split_at_byte(c, 10u8)[0])
}

/// The lines that describe items: all but the first.
pub open spec fn item_lines(c: Seq<u8>) -> Seq<Seq<u8>> {
    split_at_byte(c, 10u8).drop_first()
}

/// An item line is well formed for `n` tags: it has at most `n` fields after
/// the first two, and each of those is a number that fits in 16 bits.
pub open spec fn line_ok(f: Seq<Seq<u8>>, n: int) -> bool {
    &&& f.len() <= n + 2
    &&& forall|t: int|
        2 <= t < f.len() ==> is_number(#[trigger] f[t]) && number_value(f[t]) <= u16::MAX
}

/// The incidences that an item line gives, tag by tag.
pub open spec fn line_values(f: Seq<Seq<u8>>) -> Seq<u16> {
    Seq::new(
        if f.len() > 2 {
            (f.len() - 2) as nat
        } else {
            0
        },
        |t: int| number_value(f[t + 2]) as u16,
    )
}

/// The incidences of every item line.
pub open spec fn all_values(c: Seq<u8>) -> Seq<Seq<u16>> {
    item_lines(c).map_values(|l: Seq<u8>| line_values(fields(l)))
}

/// Entry `i` of each line that has one, in line order: the incidence row of
/// tag `i`.
pub open spec fn column(vals: Seq<Seq<u16>>, i: int) -> Seq<u16>
    decreases vals.len(),
{
    if vals.len() == 0 {
        Seq::empty()
    } else if i < vals.last().len() {
        column(vals.drop_last(), i).push(vals.last()[i])
    } else {
        column(vals.drop_last(), i)
    }
}

/// The text is a well-formed incidence matrix: at least three parameters,
/// each a number that fits in 32 bits, and every item line well formed for
/// the number of tags that the third parameter gives.
pub open spec fn input_ok(c: Seq<u8>) -> bool {
    let h = header(c);
    &&& h.len() >= 3
    &&& forall|t: int|
        0 <= t < h.len() ==> is_number(#[trigger] h[t]) && number_value(h[t]) <= u32::MAX
    &&& forall|k: int|
        0 <= k < item_lines(c).len() ==> line_ok(
            fields(#[trigger] item_lines(c)[k]),
            number_value(h[2]),
        )
}

/// Reads an incidence matrix from its text: returns the parameters and one
/// incidence row per tag, or `None` where the text is not well formed.
#[verifier::loop_isolation(false)]
pub fn parse_contents(contents: &Vec<u8>) -> (r: Option<(Vec<u32>, Vec<Vec<u16>>)>)
    ensures
        r is Some <==> input_ok(contents@),
        r matches Some((p, b)) ==> {
            &&& p@ == header(contents@).map_values(|t: Seq<u8>| number_value(t) as u32)
            &&& b@.len() == number_value(header(contents@)[2])
            &&& forall|i: int| 0 <= i < b@.len() ==> #[trigger] b@[i]@ == column(all_values(contents@), i)
        },
{
    let ghost c = contents@;
    let lines = split_bytes(contents, 10u8);
    let ghost ls = lines.deep_view();
    proof {
        lemma_split_non_empty(c, 10u8);
    }
    assert(lines@[0]@ == ls[0]) by {
        lemma_bytes_deep_view(&lines@[0]);
    }
    let head = split_fields(&lines[0]);
    let ghost h = head.deep_view();
    let mut p: Vec<u32> = Vec::new();
    let mut t: usize = 0;
    while t < head.len()
        invariant
            h == head.deep_view(),
            h == header(c),
            t <= h.len(),
            p@.len() == t,
            forall|m: int|
                0 <= m < t ==> is_number(#[trigger] h[m]) && number_value(h[m]) <= u32::MAX,
            forall|m: int| 0 <= m < t ==> #[trigger] p@[m] == number_value(h[m]) as u32,
        decreases h.len() - t,
    {
        proof {
            lemma_bytes_deep_view(&head@[t as int]);
        }
        assert(h[t as int] == head@[t as int]@);
        match parse_decimal(&head[t], 4294967295u32) {
            None => {
                assert(!(is_number(h[t as int]) && number_value(h[t as int]) <= u32::MAX));
                return None;
            },
            Some(v) => {
                p.push(v);
            },
        }
        t += 1;
    }
    if p.len() < 3 {
        return None;
    }
    assert(p@ =~= h.map_values(|t: Seq<u8>| number_value(t) as u32));
    proof {
        lemma_decimal_prefix(digits_of(h[2]), 0);
    }
    assert(p@[2] == number_value(h[2]) as u32);
    let n = p[2] as usize;
    let ghost vs = all_values(c);
    let mut vals: Vec<Vec<u16>> = Vec::new();
    let mut k: usize = 1;
    while k < lines.len()
        invariant
            ls == lines.deep_view(),
            ls == split_at_byte(c, 10u8),
            vs == all_values(c),
            h == header(c),
            h.len() >= 3,
            n as int == number_value(h[2]),
            1 <= k <= ls.len(),
            vals@.len() == k - 1,
            forall|m: int| 0 <= m < k - 1 ==> line_ok(fields(#[trigger] item_lines(c)[m]), n as int),
            forall|m: int| 0 <= m < k - 1 ==> #[trigger] vals@[m]@ == vs[m],
        decreases ls.len() - k,
    {
        proof {
            lemma_bytes_deep_view(&lines@[k as int]);
        }
        assert(item_lines(c)[k - 1] == ls[k as int]);
        let f = split_fields(&lines[k]);
        let ghost fs = f.deep_view();
        assert(fs.len() == f@.len());
        assert(fs == fields(item_lines(c)[k - 1]));
        if f.len() > 2 && f.len() - 2 > n {
            assert(!line_ok(fields(item_lines(c)[k - 1]), n as int));
            return None;
        }
        let mut lv: Vec<u16> = Vec::new();
        let mut j: usize = 2;
        while j < f.len()
            invariant
                fs == f.deep_view(),
                fs.len() == f@.len(),
                2 <= j,
                j <= fs.len() || j == 2,
                lv@.len() == j - 2,
                forall|m: int|
                    2 <= m < j ==> is_number(#[trigger] fs[m]) && number_value(fs[m]) <= u16::MAX,
                forall|m: int| 0 <= m < j - 2 ==> #[trigger] lv@[m] == number_value(fs[m + 2]) as u16,
            decreases fs.len() - j,
        {
            proof {
                lemma_bytes_deep_view(&f@[j as int]);
            }
            assert(fs[j as int] == f@[j as int]@);
            match parse_decimal(&f[j], 65535u32) {
                None => {
                    assert(!(is_number(fs[j as int]) && number_value(fs[j as int]) <= u16::MAX));
                    assert(!line_ok(fields(item_lines(c)[k - 1]), n as int));
                    return None;
                },
                Some(v) => {
                    lv.push(v as u16);
                },
            }
            j += 1;
        }
        assert(lv@ =~= line_values(fs));
        vals.push(lv);
        k += 1;
    }
    let mut b_mat: Vec<Vec<u16>> = Vec::new();
    let mut i: usize = 0;
    while i < n
        invariant
            vs == all_values(c),
            vals@.len() == vs.len(),
            forall|m: int| 0 <= m < vals@.len() ==> #[trigger] vals@[m]@ == vs[m],
            i <= n,
            b_mat@.len() == i,
            forall|m: int| 0 <= m < i ==> #[trigger] b_mat@[m]@ == column(vs, m),
        decreases n - i,
    {
        let mut col: Vec<u16> = Vec::new();
        let mut k2: usize = 0;
        while k2 < vals.len()
            invariant
                vals@.len() == vs.len(),
                forall|m: int| 0 <= m < vals@.len() ==> #[trigger] vals@[m]@ == vs[m],
                k2 <= vals@.len(),
                col@ == column(vs.subrange(0, k2 as int), i as int),
            decreases vals@.len() - k2,
        {
            assert(vs.subrange(0, k2 + 1).drop_last() =~= vs.subrange(0, k2 as int));
            assert(vals@[k2 as int]@ == vs[k2 as int]);
            if i < vals[k2].len() {
                col.push(vals[k2][i]);
            }
            k2 += 1;
        }
        assert(vs.subrange(0, vs.len() as int) =~= vs);
        b_mat.push(col);
        i += 1;
    }
    Some((p, b_mat))
}

} // verus!
