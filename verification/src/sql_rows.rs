//! The row grammar of the three SQL dump tables.
//!
//! Every row of interest is a parenthesised tuple whose head is the same in
//! all three tables: an integer field, a namespace that must come from the
//! user's set, and a single-quoted title of 1 to 255 bytes in which `\'` is
//! an allowed escape. The tables differ in their tails: `page` rows anchor on
//! the deprecated restrictions field and a redirect flag of `1`, `redirect`
//! rows on an empty interwiki field and a quoted fragment, and `pagelinks`
//! rows on a source namespace from the user's from-set.
//!
//! A scan walks a chunk byte by byte and collects every match, leftmost
//! first; matches never overlap because the scan resumes past each one.

use vstd::prelude::*;

use crate::util::PageNs;
use crate::util::dec_bytes;
use crate::util::ns_values;

verus! {

/// A decimal digit byte.
pub open spec fn is_digit(b: u8) -> bool {
    0x30 <= b <= 0x39
}

/// A byte the deprecated restrictions field may hold: a lowercase letter,
/// comma, colon or equals sign.
pub open spec fn is_restrict(b: u8) -> bool {
    (0x61 <= b <= 0x7a) || b == 0x2c || b == 0x3a || b == 0x3d
}

/// The first index at or past `i` whose byte is not a decimal digit.
pub open spec fn digits_end(s: Seq<u8>, i: int) -> int
    recommends
        0 <= i <= s.len(),
    decreases s.len() - i,
{
    if i < 0 || i >= s.len() {
        i
    } else if !is_digit(s[i]) {
        i
    } else {
        digits_end(s, i + 1)
    }
}

pub proof fn lemma_digits_end(s: Seq<u8>, i: int)
    requires
        0 <= i <= s.len(),
    ensures
        i <= digits_end(s, i) <= s.len(),
        forall|k: int| i <= k < digits_end(s, i) ==> is_digit(#[trigger] s[k]),
        digits_end(s, i) < s.len() ==> !is_digit(s[digits_end(s, i)]),
    decreases s.len() - i,
{
    if i < s.len() && is_digit(s[i]) {
        lemma_digits_end(s, i + 1);
    }
}

/// The first index at or past `i` whose byte is not a restrictions byte.
pub open spec fn restrict_end(s: Seq<u8>, i: int) -> int
    recommends
        0 <= i <= s.len(),
    decreases s.len() - i,
{
    if i < 0 || i >= s.len() {
        i
    } else if !is_restrict(s[i]) {
        i
    } else {
        restrict_end(s, i + 1)
    }
}

/// The index of the quote that closes a quoted body starting at `i`, taking
/// `\'` as an escaped quote inside the body, or `None` when the body never
/// closes.
pub open spec fn body_end(s: Seq<u8>, i: int) -> Option<int>
    recommends
        0 <= i <= s.len(),
    decreases s.len() - i,
{
    if i < 0 || i >= s.len() {
        None
    } else if s[i] == 0x27 {
        Some(i)
    } else if s[i] == 0x5c && i + 1 < s.len() && s[i + 1] == 0x27 {
        body_end(s, i + 2)
    } else {
        body_end(s, i + 1)
    }
}

/// The member of `nss` whose decimal writing is exactly `run`, if any; this
/// is what an alternation of the set's numbers matches when the run is
/// followed by a delimiter.
pub open spec fn ns_match(run: Seq<u8>, nss: Seq<u32>) -> Option<u32>
    decreases nss.len(),
{
    if nss.len() == 0 {
        None
    } else if run == dec_bytes(nss[0] as int) {
        Some(nss[0])
    } else {
        ns_match(run, nss.drop_first())
    }
}

/// A namespace that an alternation matches is a member of its set.
pub proof fn lemma_ns_match_in_set(run: Seq<u8>, nss: Seq<u32>)
    requires
        ns_match(run, nss) is Some,
    ensures
        nss.contains(ns_match(run, nss)->Some_0),
    decreases nss.len(),
{
    if nss.len() > 0 {
        if run == dec_bytes(nss[0] as int) {
            assert(nss[0] == ns_match(run, nss)->Some_0);
        } else {
            lemma_ns_match_in_set(run, nss.drop_first());
            let v = ns_match(run, nss.drop_first())->Some_0;
            let i = choose|i: int| 0 <= i < nss.drop_first().len() && nss.drop_first()[i] == v;
            assert(nss[i + 1] == v);
        }
    }
}

/// The number a digit run writes in decimal.
pub open spec fn digits_val(run: Seq<u8>) -> int
    decreases run.len(),
{
    if run.len() == 0 {
        0
    } else {
        digits_val(run.drop_last()) * 10 + (run.last() - 0x30)
    }
}

pub proof fn lemma_digits_val_bounds(run: Seq<u8>)
    requires
        forall|k: int| 0 <= k < run.len() ==> is_digit(#[trigger] run[k]),
    ensures
        digits_val(run) >= 0,
        forall|m: int| 0 <= m <= run.len() ==> digits_val(#[trigger] run.take(m)) <= digits_val(run),
    decreases run.len(),
{
    if run.len() == 0 {
        assert forall|m: int| 0 <= m <= run.len() implies digits_val(#[trigger] run.take(m))
            <= digits_val(run) by {
            assert(run.take(m) =~= run);
        }
    } else {
        lemma_digits_val_bounds(run.drop_last());
        assert forall|m: int| 0 <= m <= run.len() implies digits_val(#[trigger] run.take(m))
            <= digits_val(run) by {
            if m == run.len() {
                assert(run.take(m) =~= run);
            } else {
                assert(run.take(m) =~= run.drop_last().take(m));
            }
        }
    }
}

/// The common head of every row pattern, anchored at `i`: an open paren, a
/// non-empty digit run, a comma, a namespace run matching the set, a comma,
/// and the quoted title of 1 to 255 bytes. Yields the digit run, the matched
/// namespace, the raw title bytes, and the index of the title's closing
/// quote.
pub open spec fn row_head_at(s: Seq<u8>, i: int, nss: Seq<u32>) -> Option<(Seq<u8>, u32, Seq<u8>, int)> {
    if !(0 <= i && i < s.len() && s[i] == 0x28) {
        None
    } else {
        let d1 = i + 1;
        let e1 = digits_end(s, d1);
        if !(e1 > d1 && e1 < s.len() && s[e1] == 0x2c) {
            None
        } else {
            let d2 = e1 + 1;
            let e2 = digits_end(s, d2);
            if !(e2 > d2 && ns_match(s.subrange(d2, e2), nss) is Some) {
                None
            } else if !(e2 + 1 < s.len() && s[e2] == 0x2c && s[e2 + 1] == 0x27) {
                None
            } else {
                let tb = e2 + 2;
                match body_end(s, tb) {
                    None => None,
                    Some(te) => {
                        if !(1 <= te - tb <= 255) {
                            None
                        } else {
                            Some(
                                (
                                    s.subrange(d1, e1),
                                    ns_match(s.subrange(d2, e2), nss)->Some_0,
                                    s.subrange(tb, te),
                                    te,
                                ),
                            )
                        }
                    },
                }
            }
        }
    }
}

/// A matched `page` row at `i`: the head, anchored behind the title on a
/// quoted restrictions field and a `page_is_redirect` flag of `1`. Yields the
/// id digit run, the namespace, the title, and the index just past the match.
pub open spec fn page_row_at(s: Seq<u8>, i: int, nss: Seq<u32>) -> Option<(Seq<u8>, u32, Seq<u8>, int)> {
    match row_head_at(s, i, nss) {
        None => None,
        Some((id_run, ns, title, te)) => {
            if !(te + 2 < s.len() && s[te + 1] == 0x2c && s[te + 2] == 0x27) {
                None
            } else {
                let re = restrict_end(s, te + 3);
                if !(re + 3 < s.len() && s[re] == 0x27 && s[re + 1] == 0x2c && s[re + 2] == 0x31
                    && s[re + 3] == 0x2c) {
                    None
                } else {
                    Some((id_run, ns, title, re + 4))
                }
            }
        },
    }
}

/// A matched `redirect` row at `i`: the head, anchored behind the title on an
/// empty interwiki field and a quoted fragment of at most 255 bytes. Yields
/// the source-id digit run, the namespace, the target title, and the index
/// just past the match.
pub open spec fn redirect_row_at(s: Seq<u8>, i: int, nss: Seq<u32>) -> Option<(Seq<u8>, u32, Seq<u8>, int)> {
    match row_head_at(s, i, nss) {
        None => None,
        Some((id_run, ns, title, te)) => {
            if !(te + 5 < s.len() && s[te + 1] == 0x2c && s[te + 2] == 0x27 && s[te + 3] == 0x27
                && s[te + 4] == 0x2c && s[te + 5] == 0x27) {
                None
            } else {
                let fb = te + 6;
                match body_end(s, fb) {
                    None => None,
                    Some(fe) => {
                        if !(fe - fb <= 255 && fe + 1 < s.len() && s[fe + 1] == 0x29) {
                            None
                        } else {
                            Some((id_run, ns, title, fe + 2))
                        }
                    },
                }
            }
        },
    }
}

/// A matched `pagelinks` row at `i`: the head (whose digit run is the unused
/// `pl_from` field and whose namespace must come from the to-set), anchored
/// behind the title on a source namespace from the from-set and the closing
/// paren. Yields the target namespace, the target title, and the index just
/// past the match.
pub open spec fn link_row_at(s: Seq<u8>, i: int, to_nss: Seq<u32>, from_nss: Seq<u32>) -> Option<
    (u32, Seq<u8>, int),
> {
    match row_head_at(s, i, to_nss) {
        None => None,
        Some((_id_run, ns, title, te)) => {
            if !(te + 1 < s.len() && s[te + 1] == 0x2c) {
                None
            } else {
                let d3 = te + 2;
                let e3 = digits_end(s, d3);
                if !(e3 > d3 && ns_match(s.subrange(d3, e3), from_nss) is Some && e3 < s.len()
                    && s[e3] == 0x29) {
                    None
                } else {
                    Some((ns, title, e3 + 1))
                }
            }
        },
    }
}

pub fn digits_end_exec(v: &Vec<u8>, i: usize) -> (r: usize)
    requires
        i <= v@.len(),
    ensures
        r == digits_end(v@, i as int),
        i <= r <= v@.len(),
{
    let mut j = i;
    while j < v.len()
        invariant
            i <= j <= v@.len(),
            digits_end(v@, i as int) == digits_end(v@, j as int),
        decreases v@.len() - j,
    {
        let b = v[j];
        if b < 0x30 || b > 0x39 {
            return j;
        }
        j += 1;
    }
    j
}

pub fn restrict_end_exec(v: &Vec<u8>, i: usize) -> (r: usize)
    requires
        i <= v@.len(),
    ensures
        r == restrict_end(v@, i as int),
        i <= r <= v@.len(),
{
    let mut j = i;
    while j < v.len()
        invariant
            i <= j <= v@.len(),
            restrict_end(v@, i as int) == restrict_end(v@, j as int),
        decreases v@.len() - j,
    {
        let b = v[j];
        if !((0x61 <= b && b <= 0x7a) || b == 0x2c || b == 0x3a || b == 0x3d) {
            return j;
        }
        j += 1;
    }
    j
}

pub fn body_end_exec(v: &Vec<u8>, i: usize) -> (r: Option<usize>)
    requires
        i <= v@.len(),
    ensures
        match r {
            Some(e) => body_end(v@, i as int) == Some(e as int) && i <= e < v@.len(),
            None => body_end(v@, i as int) is None,
        },
{
    let mut j = i;
    while j < v.len()
        invariant
            i <= j <= v@.len(),
            body_end(v@, i as int) == body_end(v@, j as int),
        decreases v@.len() - j,
    {
        let b = v[j];
        if b == 0x27 {
            return Some(j);
        } else if b == 0x5c && v.len() - j > 1 && v[j + 1] == 0x27 {
            j += 2;
        } else {
            j += 1;
        }
    }
    None
}

/// Byte-wise equality of a range of `v` with the whole of `w`.
pub fn range_eq(v: &Vec<u8>, start: usize, end: usize, w: &Vec<u8>) -> (r: bool)
    requires
        start <= end <= v@.len(),
    ensures
        r == (v@.subrange(start as int, end as int) == w@),
{
    let ghost sub = v@.subrange(start as int, end as int);
    if end - start != w.len() {
        return false;
    }
    let mut k: usize = 0;
    while k < w.len()
        invariant
            k <= w@.len(),
            w@.len() == end - start,
            start <= end <= v@.len(),
            sub == v@.subrange(start as int, end as int),
            forall|m: int| 0 <= m < k ==> sub[m] == w@[m],
        decreases w@.len() - k,
    {
        if v[start + k] != w[k] {
            proof {
                assert(sub[k as int] == v@[start + k]);
            }
            return false;
        }
        k += 1;
    }
    proof {
        assert(sub =~= w@);
    }
    true
}

/// Copies a byte range out of `v`.
pub fn copy_range(v: &Vec<u8>, start: usize, end: usize) -> (r: Vec<u8>)
    requires
        start <= end <= v@.len(),
    ensures
        r@ == v@.subrange(start as int, end as int),
{
    let mut r: Vec<u8> = Vec::new();
    let mut k = start;
    while k < end
        invariant
            start <= k <= end <= v@.len(),
            r@ =~= v@.subrange(start as int, k as int),
        decreases end - k,
    {
        let b = v[k];
        r.push(b);
        proof {
            assert(r@ =~= v@.subrange(start as int, k + 1));
        }
        k += 1;
    }
    proof {
        assert(r@ =~= v@.subrange(start as int, end as int));
    }
    r
}

/// Which member of the namespace set, if any, the digit run of `v` between
/// `start` and `end` writes.
pub fn ns_match_exec(v: &Vec<u8>, start: usize, end: usize, nss: &Vec<PageNs>) -> (r: Option<
    PageNs,
>)
    requires
        start <= end <= v@.len(),
    ensures
        match r {
            Some(p) => ns_match(v@.subrange(start as int, end as int), ns_values(nss@)) == Some(
                p.0,
            ),
            None => ns_match(v@.subrange(start as int, end as int), ns_values(nss@)) is None,
        },
{
    let ghost run = v@.subrange(start as int, end as int);
    let ghost vals = ns_values(nss@);
    let mut k: usize = 0;
    proof {
        assert(vals.skip(0) =~= vals);
    }
    while k < nss.len()
        invariant
            k <= nss@.len(),
            vals == ns_values(nss@),
            run == v@.subrange(start as int, end as int),
            start <= end <= v@.len(),
            ns_match(run, vals) == ns_match(run, vals.skip(k as int)),
        decreases nss@.len() - k,
    {
        let mut dec: Vec<u8> = Vec::new();
        crate::util::push_dec_bytes(&mut dec, nss[k].0);
        proof {
            assert(dec@ =~= dec_bytes(nss@[k as int].0 as int));
            assert(vals.skip(k as int)[0] == vals[k as int]);
        }
        if range_eq(v, start, end, &dec) {
            return Some(nss[k]);
        }
        proof {
            assert(vals.skip(k as int).drop_first() =~= vals.skip(k + 1));
        }
        k += 1;
    }
    proof {
        assert(vals.skip(nss@.len() as int) =~= Seq::<u32>::empty());
    }
    None
}

/// Parses the digit run of `v` between `start` and `end` as a `u32`, or
/// reports that its value does not fit.
pub fn parse_u32(v: &Vec<u8>, start: usize, end: usize) -> (r: Option<u32>)
    requires
        start <= end <= v@.len(),
        forall|k: int| start <= k < end ==> is_digit(#[trigger] v@[k]),
    ensures
        match r {
            Some(n) => n == digits_val(v@.subrange(start as int, end as int)),
            None => digits_val(v@.subrange(start as int, end as int)) > u32::MAX,
        },
{
    let ghost run = v@.subrange(start as int, end as int);
    proof {
        assert forall|k: int| 0 <= k < run.len() implies is_digit(#[trigger] run[k]) by {
            assert(run[k] == v@[start + k]);
        }
    }
    let mut acc: u64 = 0;
    let mut k = start;
    while k < end
        invariant
            start <= k <= end <= v@.len(),
            run == v@.subrange(start as int, end as int),
            forall|m: int| start <= m < end ==> is_digit(#[trigger] v@[m]),
            forall|m: int| 0 <= m < run.len() ==> is_digit(#[trigger] run[m]),
            acc == digits_val(run.take(k - start)),
            acc <= u32::MAX,
        decreases end - k,
    {
        let d = v[k] - 0x30;
        acc = acc * 10 + d as u64;
        proof {
            assert(run.take(k + 1 - start).drop_last() =~= run.take(k - start));
            assert(run.take(k + 1 - start).last() == v@[k as int]);
        }
        k += 1;
        if acc > u32::MAX as u64 {
            proof {
                lemma_digits_val_bounds(run);
                assert(digits_val(run.take(k - start)) <= digits_val(run));
            }
            return None;
        }
    }
    proof {
        assert(run.take(end - start) =~= run);
    }
    Some(acc as u32)
}

/// Matches the common row head at `i`; yields the bounds of the digit run,
/// the matched namespace, and the bounds of the title body.
pub fn row_head_exec(v: &Vec<u8>, i: usize, nss: &Vec<PageNs>) -> (r: Option<
    (usize, usize, PageNs, usize, usize),
>)
    requires
        i < v@.len(),
    ensures
        match r {
            Some((d1, e1, p, tb, te)) => {
                &&& row_head_at(v@, i as int, ns_values(nss@)) == Some(
                    (
                        v@.subrange(d1 as int, e1 as int),
                        p.0,
                        v@.subrange(tb as int, te as int),
                        te as int,
                    ),
                )
                &&& i < d1 <= e1 <= v@.len()
                &&& e1 < v@.len()
                &&& tb <= te < v@.len()
                &&& forall|k: int| d1 <= k < e1 ==> is_digit(#[trigger] v@[k])
            },
            None => row_head_at(v@, i as int, ns_values(nss@)) is None,
        },
{
    let ghost s = v@;
    let ghost vals = ns_values(nss@);
    let n = v.len();
    if v[i] != 0x28 {
        return None;
    }
    let d1 = i + 1;
    let e1 = digits_end_exec(v, d1);
    proof {
        lemma_digits_end(s, d1 as int);
    }
    if !(e1 > d1 && e1 < v.len()) {
        return None;
    }
    if v[e1] != 0x2c {
        return None;
    }
    let d2 = e1 + 1;
    let e2 = digits_end_exec(v, d2);
    proof {
        lemma_digits_end(s, d2 as int);
    }
    if e2 == d2 {
        return None;
    }
    let nsp = match ns_match_exec(v, d2, e2, nss) {
        Some(p) => p,
        None => {
            return None;
        },
    };
    if !(v.len() - e2 > 1) {
        return None;
    }
    if v[e2] != 0x2c || v[e2 + 1] != 0x27 {
        return None;
    }
    let tb = e2 + 2;
    let te = match body_end_exec(v, tb) {
        Some(te) => te,
        None => {
            return None;
        },
    };
    if !(te - tb >= 1 && te - tb <= 255) {
        return None;
    }
    Some((d1, e1, nsp, tb, te))
}

/// Matches a `page` row at `i`; yields the id-run bounds, the namespace, the
/// title bounds, and the index just past the match.
pub fn page_row_exec(v: &Vec<u8>, i: usize, nss: &Vec<PageNs>) -> (r: Option<
    (usize, usize, PageNs, usize, usize, usize),
>)
    requires
        i < v@.len(),
    ensures
        match r {
            Some((d1, e1, p, tb, te, end)) => {
                &&& page_row_at(v@, i as int, ns_values(nss@)) == Some(
                    (
                        v@.subrange(d1 as int, e1 as int),
                        p.0,
                        v@.subrange(tb as int, te as int),
                        end as int,
                    ),
                )
                &&& d1 <= e1 <= v@.len()
                &&& tb <= te <= v@.len()
                &&& i < end <= v@.len()
                &&& forall|k: int| d1 <= k < e1 ==> is_digit(#[trigger] v@[k])
            },
            None => page_row_at(v@, i as int, ns_values(nss@)) is None,
        },
{
    let head = match row_head_exec(v, i, nss) {
        Some(h) => h,
        None => {
            return None;
        },
    };
    let (d1, e1, nsp, tb, te) = head;
    if !(v.len() - te > 2) {
        return None;
    }
    if v[te + 1] != 0x2c || v[te + 2] != 0x27 {
        return None;
    }
    let re = restrict_end_exec(v, te + 3);
    if !(v.len() - re > 3) {
        return None;
    }
    if v[re] != 0x27 || v[re + 1] != 0x2c || v[re + 2] != 0x31 || v[re + 3] != 0x2c {
        return None;
    }
    Some((d1, e1, nsp, tb, te, re + 4))
}

/// Matches a `redirect` row at `i`; yields the source-id-run bounds, the
/// namespace, the target-title bounds, and the index just past the match.
pub fn redirect_row_exec(v: &Vec<u8>, i: usize, nss: &Vec<PageNs>) -> (r: Option<
    (usize, usize, PageNs, usize, usize, usize),
>)
    requires
        i < v@.len(),
    ensures
        match r {
            Some((d1, e1, p, tb, te, end)) => {
                &&& redirect_row_at(v@, i as int, ns_values(nss@)) == Some(
                    (
                        v@.subrange(d1 as int, e1 as int),
                        p.0,
                        v@.subrange(tb as int, te as int),
                        end as int,
                    ),
                )
                &&& d1 <= e1 <= v@.len()
                &&& tb <= te <= v@.len()
                &&& i < end <= v@.len()
                &&& forall|k: int| d1 <= k < e1 ==> is_digit(#[trigger] v@[k])
            },
            None => redirect_row_at(v@, i as int, ns_values(nss@)) is None,
        },
{
    let head = match row_head_exec(v, i, nss) {
        Some(h) => h,
        None => {
            return None;
        },
    };
    let (d1, e1, nsp, tb, te) = head;
    if !(v.len() - te > 5) {
        return None;
    }
    if v[te + 1] != 0x2c || v[te + 2] != 0x27 || v[te + 3] != 0x27 || v[te + 4] != 0x2c || v[te
        + 5] != 0x27 {
        return None;
    }
    let fb = te + 6;
    let fe = match body_end_exec(v, fb) {
        Some(fe) => fe,
        None => {
            return None;
        },
    };
    if !(fe - fb <= 255) {
        return None;
    }
    if !(v.len() - fe > 1) {
        return None;
    }
    if v[fe + 1] != 0x29 {
        return None;
    }
    Some((d1, e1, nsp, tb, te, fe + 2))
}

/// Matches a `pagelinks` row at `i`; yields the target namespace, the title
/// bounds, and the index just past the match.
pub fn link_row_exec(v: &Vec<u8>, i: usize, to_nss: &Vec<PageNs>, from_nss: &Vec<PageNs>) -> (r:
    Option<(PageNs, usize, usize, usize)>)
    requires
        i < v@.len(),
    ensures
        match r {
            Some((p, tb, te, end)) => {
                &&& link_row_at(v@, i as int, ns_values(to_nss@), ns_values(from_nss@)) == Some(
                    (p.0, v@.subrange(tb as int, te as int), end as int),
                )
                &&& tb <= te <= v@.len()
                &&& i < end <= v@.len()
            },
            None => link_row_at(v@, i as int, ns_values(to_nss@), ns_values(from_nss@)) is None,
        },
{
    let head = match row_head_exec(v, i, to_nss) {
        Some(h) => h,
        None => {
            return None;
        },
    };
    let (_d1, _e1, nsp, tb, te) = head;
    if !(v.len() - te > 1) {
        return None;
    }
    if v[te + 1] != 0x2c {
        return None;
    }
    let d3 = te + 2;
    let e3 = digits_end_exec(v, d3);
    if e3 == d3 {
        return None;
    }
    match ns_match_exec(v, d3, e3, from_nss) {
        Some(_) => {},
        None => {
            return None;
        },
    }
    if !(e3 < v.len()) {
        return None;
    }
    if v[e3] != 0x29 {
        return None;
    }
    Some((nsp, tb, te, e3 + 1))
}

} // verus!
