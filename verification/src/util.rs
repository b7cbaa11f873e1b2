//! Shared types and small utilities: page keys and titles, export formats,
//! decimal rendering, path inspection, and the namespace alternation used by
//! the row patterns.

use vstd::prelude::*;
use vstd::string::StrSliceExecFns;
use vstd::string::StringExecFns;
use vstd::string::StringSliceAdditionalSpecFns;

use crate::Error;
use crate::link_count::LinkCount;
use crate::pagelinks_table::LinkCounter;
use crate::pagelinks_table::lc_entry_key;
use crate::pagelinks_table::lc_keys_distinct;

verus! {

/// A page identifier: non-negative, unique within a namespace.
#[derive(Clone, Copy, Debug, PartialEq, Eq, Structural, Hash)]
pub struct PageId(pub u32);

/// A page namespace tag: non-negative integer classifying a page.
#[derive(Clone, Copy, Debug, PartialEq, Eq, Structural, Hash)]
pub struct PageNs(pub u32);

/// A page title, kept as the raw bytes captured from the SQL source.
///
/// Titles are compared byte-wise; escape sequences are retained exactly as
/// they stand in the dump, and underscores are rewritten to spaces only at
/// output time.
#[derive(Debug)]
pub struct PageTitle(pub Vec<u8>);

impl View for PageTitle {
    type V = Seq<u8>;

    open spec fn view(&self) -> Seq<u8> {
        self.0@
    }
}

impl Clone for PageTitle {
    fn clone(&self) -> (r: Self)
        ensures
            r@ == self@,
    {
        let v = self.0.clone();
        proof {
            assert(v@ =~= self.0@);
        }
        PageTitle(v)
    }
}

impl PageTitle {
    /// Byte-wise equality of a title with borrowed bytes, so a probe
    /// allocates nothing.
    pub fn eq_title_bytes(&self, other: &Vec<u8>) -> (r: bool)
        ensures
            r == (self@ == other@),
    {
        let r = self.0 == *other;
        proof {
            if r {
                assert(self.0@ =~= other@);
            }
        }
        r
    }
}

/// The textual shapes the ranked list can be written in.
#[derive(Clone, Copy, Debug, PartialEq, Eq, Structural)]
pub enum ExportFormat {
    PlainText,
    WikiText,
    Markdown,
}

/// The format a given format name selects, if any.
pub open spec fn spec_export_format(s: Seq<char>) -> Result<ExportFormat, Error> {
    if s == "text"@ {
        Ok(ExportFormat::PlainText)
    } else if s == "wiki"@ {
        Ok(ExportFormat::WikiText)
    } else if s == "markdown"@ {
        Ok(ExportFormat::Markdown)
    } else {
        Err(Error::UnknownFormat)
    }
}

impl ExportFormat {
    /// Selects the export format named by `format`: `text`, `wiki` or
    /// `markdown`; any other name is rejected.
    pub fn try_from(format: &str) -> (r: Result<ExportFormat, Error>)
        ensures
            r == spec_export_format(format@),
    {
        if str_eq_chars(format, "text") {
            Ok(ExportFormat::PlainText)
        } else if str_eq_chars(format, "wiki") {
            Ok(ExportFormat::WikiText)
        } else if str_eq_chars(format, "markdown") {
            Ok(ExportFormat::Markdown)
        } else {
            Err(Error::UnknownFormat)
        }
    }
}

/// Character-wise equality of two string slices.
pub fn str_eq_chars(a: &str, b: &str) -> (r: bool)
    ensures
        r == (a@ == b@),
{
    let alen = a.unicode_len();
    let blen = b.unicode_len();
    if alen != blen {
        return false;
    }
    let mut i: usize = 0;
    while i < alen
        invariant
            alen == a@.len(),
            alen == b@.len(),
            i <= alen,
            forall|j: int| 0 <= j < i ==> a@[j] == b@[j],
        decreases alen - i,
    {
        if a.get_char(i) != b.get_char(i) {
            return false;
        }
        i += 1;
    }
    proof {
        assert(a@ =~= b@);
    }
    true
}

/// The character that writes the decimal digit `d`.
pub open spec fn digit_char(d: int) -> char {
    if d == 0 {
        '0'
    } else if d == 1 {
        '1'
    } else if d == 2 {
        '2'
    } else if d == 3 {
        '3'
    } else if d == 4 {
        '4'
    } else if d == 5 {
        '5'
    } else if d == 6 {
        '6'
    } else if d == 7 {
        '7'
    } else if d == 8 {
        '8'
    } else {
        '9'
    }
}

/// The ASCII byte that writes the decimal digit `d`.
pub open spec fn digit_byte(d: int) -> u8 {
    (0x30 + d) as u8
}

/// The decimal writing of `n` as characters, without leading zeros.
pub open spec fn dec_chars(n: int) -> Seq<char>
    recommends
        n >= 0,
    decreases n,
{
    if n < 10 {
        seq![digit_char(n)]
    } else {
        dec_chars(n / 10).push(digit_char(n % 10))
    }
}

/// The decimal writing of `n` as ASCII bytes, without leading zeros.
pub open spec fn dec_bytes(n: int) -> Seq<u8>
    recommends
        n >= 0,
    decreases n,
{
    if n < 10 {
        seq![digit_byte(n)]
    } else {
        dec_bytes(n / 10).push(digit_byte(n % 10))
    }
}

/// Appends the decimal writing of `n` to `out`.
pub fn push_dec_bytes(out: &mut Vec<u8>, n: u32)
    ensures
        final(out)@ == old(out)@ + dec_bytes(n as int),
    decreases n,
{
    let ghost pre = out@;
    if n >= 10 {
        push_dec_bytes(out, n / 10);
    }
    let d: u8 = (n % 10) as u8 + 0x30;
    out.push(d);
    proof {
        if n < 10 {
            assert(out@ =~= pre + dec_bytes(n as int));
        } else {
            assert(out@ =~= pre + dec_bytes(n as int));
        }
    }
}

/// The one-character string slice writing the decimal digit `d`.
pub fn digit_str(d: u32) -> (r: &'static str)
    requires
        d < 10,
    ensures
        r@ == seq![digit_char(d as int)],
{
    proof {
        reveal_strlit("0");
        reveal_strlit("1");
        reveal_strlit("2");
        reveal_strlit("3");
        reveal_strlit("4");
        reveal_strlit("5");
        reveal_strlit("6");
        reveal_strlit("7");
        reveal_strlit("8");
        reveal_strlit("9");
    }
    let r: &'static str = if d == 0 {
        "0"
    } else if d == 1 {
        "1"
    } else if d == 2 {
        "2"
    } else if d == 3 {
        "3"
    } else if d == 4 {
        "4"
    } else if d == 5 {
        "5"
    } else if d == 6 {
        "6"
    } else if d == 7 {
        "7"
    } else if d == 8 {
        "8"
    } else {
        "9"
    };
    proof {
        assert(r@ =~= seq![digit_char(d as int)]);
    }
    r
}

/// Appends the decimal writing of `n` to `out`.
pub fn push_dec_chars(out: &mut String, n: u32)
    ensures
        final(out)@ == old(out)@ + dec_chars(n as int),
    decreases n,
{
    let ghost pre = out@;
    if n >= 10 {
        push_dec_chars(out, n / 10);
    }
    out.append(digit_str(n % 10));
    proof {
        assert(out@ =~= pre + dec_chars(n as int));
    }
}

/// `s` with every underscore rewritten to a space.
pub open spec fn spaces_of(s: Seq<u8>) -> Seq<u8> {
    Seq::new(s.len(), |i: int| if s[i] == 0x5f { 0x20 as u8 } else { s[i] })
}

/// Rewrites underscores to spaces in place; titles are rendered this way at
/// output time only.
pub fn underscores_to_spaces(s: Vec<u8>) -> (r: Vec<u8>)
    ensures
        r@ == spaces_of(s@),
{
    let mut s = s;
    let ghost orig = s@;
    let mut i: usize = 0;
    while i < s.len()
        invariant
            i <= s.len(),
            s@.len() == orig.len(),
            forall|j: int| 0 <= j < i ==> s@[j] == spaces_of(orig)[j],
            forall|j: int| i <= j < s@.len() ==> s@[j] == orig[j],
        decreases s.len() - i,
    {
        if s[i] == 0x5f {
            s[i] = 0x20;
        }
        i += 1;
    }
    proof {
        assert(s@ =~= spaces_of(orig));
    }
    s
}

/// Whether `a` is listed before `b` in the ranked output.
fn rank_before(a: &((PageNs, PageTitle), LinkCount), b: &((PageNs, PageTitle), LinkCount)) -> (r:
    bool)
    ensures
        r == rank_lt(lc_entry_key(*a), a.1, lc_entry_key(*b), b.1),
{
    let ta = a.1.total();
    let tb = b.1.total();
    if ta > tb {
        true
    } else if ta < tb {
        false
    } else if a.0.0.0 < b.0.0.0 {
        true
    } else if a.0.0.0 > b.0.0.0 {
        false
    } else {
        lex_lt_exec(&a.0.1.0, &b.0.1.0)
    }
}

/// Post-processing: keeps the entries whose total clears the cutoff and lists
/// them in ranking order.
///
/// The listing is pinned down completely: its rows are exactly the counter's
/// entries at or above the cutoff, each with the counter's tallies, listed in
/// strictly descending ranking order — so in particular totals never
/// increase down the list, and equal inputs always produce the same listing.
pub fn sort_pagelinks(pagelinks: LinkCounter, cutoff: u32) -> (r: Vec<
    ((PageNs, PageTitle), LinkCount),
>)
    requires
        pagelinks.wf(),
    ensures
        is_ranking(r@, pagelinks@, cutoff),
        lc_keys_distinct(r@),
        forall|i: int| 0 <= i < r@.len() ==> (#[trigger] r@[i]).1.spec_total() >= cutoff,
        forall|i: int|
            0 <= i < r@.len() ==> pagelinks@.contains_key(lc_entry_key(#[trigger] r@[i]))
                && pagelinks@[lc_entry_key(r@[i])] == r@[i].1,
        forall|k: (u32, Seq<u8>)|
            #[trigger] pagelinks@.contains_key(k) && pagelinks@[k].spec_total() >= cutoff
                ==> exists|i: int| 0 <= i < r@.len() && lc_entry_key(#[trigger] r@[i]) == k,
        forall|i: int, j: int|
            0 <= i < j < r@.len() ==> rank_lt(
                lc_entry_key(#[trigger] r@[i]),
                r@[i].1,
                lc_entry_key(#[trigger] r@[j]),
                r@[j].1,
            ),
        forall|i: int, j: int|
            0 <= i < j < r@.len() ==> (#[trigger] r@[i]).1.spec_total() >= (#[trigger] r@[j]).1.spec_total(),
{
    let ghost m = pagelinks@;
    let mut entries = pagelinks.into_entries();
    let mut kept: Vec<((PageNs, PageTitle), LinkCount)> = Vec::new();
    while entries.len() > 0
        invariant
            lc_keys_distinct(entries@),
            lc_keys_distinct(kept@),
            forall|i: int, j: int|
                0 <= i < entries@.len() && 0 <= j < kept@.len() ==> lc_entry_key(
                    #[trigger] entries@[i],
                ) != lc_entry_key(#[trigger] kept@[j]),
            forall|i: int|
                0 <= i < entries@.len() ==> m.contains_key(lc_entry_key(#[trigger] entries@[i]))
                    && m[lc_entry_key(entries@[i])] == entries@[i].1,
            forall|i: int|
                0 <= i < kept@.len() ==> m.contains_key(lc_entry_key(#[trigger] kept@[i]))
                    && m[lc_entry_key(kept@[i])] == kept@[i].1,
            forall|i: int| 0 <= i < kept@.len() ==> (#[trigger] kept@[i]).1.spec_total() >= cutoff,
            forall|k: (u32, Seq<u8>)|
                #[trigger] m.contains_key(k) && m[k].spec_total() >= cutoff ==> (exists|i: int|
                    0 <= i < entries@.len() && lc_entry_key(#[trigger] entries@[i]) == k) || (
                exists|i: int| 0 <= i < kept@.len() && lc_entry_key(#[trigger] kept@[i]) == k),
        decreases entries@.len(),
    {
        let ghost ents0 = entries@;
        let ghost kept0 = kept@;
        let e = entries.pop().unwrap();
        proof {
            assert(entries@ =~= ents0.drop_last());
            assert(e == ents0[ents0.len() - 1]);
        }
        let keep = e.1.total() >= cutoff;
        if keep {
            kept.push(e);
        }
        proof {
            assert forall|k: (u32, Seq<u8>)|
                #[trigger] m.contains_key(k) && m[k].spec_total() >= cutoff implies (exists|i: int|
                0 <= i < entries@.len() && lc_entry_key(#[trigger] entries@[i]) == k) || (exists|
            i: int|
                0 <= i < kept@.len() && lc_entry_key(#[trigger] kept@[i]) == k) by {
                if exists|i: int| 0 <= i < ents0.len() && lc_entry_key(#[trigger] ents0[i]) == k {
                    let i = choose|i: int|
                        0 <= i < ents0.len() && lc_entry_key(#[trigger] ents0[i]) == k;
                    if i < ents0.len() - 1 {
                        assert(lc_entry_key(entries@[i]) == k);
                    } else {
                        assert(m[k].spec_total() >= cutoff);
                        assert(lc_entry_key(kept@[kept@.len() - 1]) == k);
                    }
                } else {
                    let i = choose|i: int|
                        0 <= i < kept0.len() && lc_entry_key(#[trigger] kept0[i]) == k;
                    assert(lc_entry_key(kept@[i]) == k);
                }
            }
        }
    }
    // Selection: repeatedly move the first-ranked remaining row to the end of
    // the output.
    let mut rest = kept;
    let mut out: Vec<((PageNs, PageTitle), LinkCount)> = Vec::new();
    while rest.len() > 0
        invariant
            lc_keys_distinct(rest@),
            lc_keys_distinct(out@),
            forall|i: int, j: int|
                0 <= i < rest@.len() && 0 <= j < out@.len() ==> lc_entry_key(#[trigger] rest@[i])
                    != lc_entry_key(#[trigger] out@[j]),
            forall|i: int|
                0 <= i < rest@.len() ==> m.contains_key(lc_entry_key(#[trigger] rest@[i]))
                    && m[lc_entry_key(rest@[i])] == rest@[i].1,
            forall|i: int|
                0 <= i < out@.len() ==> m.contains_key(lc_entry_key(#[trigger] out@[i]))
                    && m[lc_entry_key(out@[i])] == out@[i].1,
            forall|i: int| 0 <= i < rest@.len() ==> (#[trigger] rest@[i]).1.spec_total() >= cutoff,
            forall|i: int| 0 <= i < out@.len() ==> (#[trigger] out@[i]).1.spec_total() >= cutoff,
            forall|k: (u32, Seq<u8>)|
                #[trigger] m.contains_key(k) && m[k].spec_total() >= cutoff ==> (exists|i: int|
                    0 <= i < rest@.len() && lc_entry_key(#[trigger] rest@[i]) == k) || (exists|
                i: int|
                    0 <= i < out@.len() && lc_entry_key(#[trigger] out@[i]) == k),
            forall|i: int, j: int|
                0 <= i < j < out@.len() ==> rank_lt(
                    lc_entry_key(#[trigger] out@[i]),
                    out@[i].1,
                    lc_entry_key(#[trigger] out@[j]),
                    out@[j].1,
                ),
            forall|i: int, j: int|
                0 <= i < out@.len() && 0 <= j < rest@.len() ==> rank_lt(
                    lc_entry_key(#[trigger] out@[i]),
                    out@[i].1,
                    lc_entry_key(#[trigger] rest@[j]),
                    rest@[j].1,
                ),
        decreases rest@.len(),
    {
        let mut best: usize = 0;
        let mut j: usize = 1;
        while j < rest.len()
            invariant
                best < j <= rest@.len(),
                rest@.len() > 0,
                lc_keys_distinct(rest@),
                forall|k2: int|
                    0 <= k2 < j && k2 != best ==> rank_lt(
                        lc_entry_key(rest@[best as int]),
                        rest@[best as int].1,
                        lc_entry_key(#[trigger] rest@[k2]),
                        rest@[k2].1,
                    ),
            decreases rest@.len() - j,
        {
            if rank_before(&rest[j], &rest[best]) {
                proof {
                    let ghost bj = j as int;
                    let ghost bb = best as int;
                    lemma_rank_lt_total(
                        lc_entry_key(rest@[bj]),
                        rest@[bj].1,
                        lc_entry_key(rest@[bb]),
                        rest@[bb].1,
                    );
                    assert forall|k2: int|
                        0 <= k2 < j + 1 && k2 != bj implies rank_lt(
                        lc_entry_key(rest@[bj]),
                        rest@[bj].1,
                        lc_entry_key(#[trigger] rest@[k2]),
                        rest@[k2].1,
                    ) by {
                        if k2 != bb {
                            lemma_rank_lt_trans(
                                lc_entry_key(rest@[bj]),
                                rest@[bj].1,
                                lc_entry_key(rest@[bb]),
                                rest@[bb].1,
                                lc_entry_key(rest@[k2]),
                                rest@[k2].1,
                            );
                        }
                    }
                }
                best = j;
            } else {
                proof {
                    let ghost bj = j as int;
                    let ghost bb = best as int;
                    lemma_rank_lt_total(
                        lc_entry_key(rest@[bj]),
                        rest@[bj].1,
                        lc_entry_key(rest@[bb]),
                        rest@[bb].1,
                    );
                }
            }
            j += 1;
        }
        let ghost rest0 = rest@;
        let ghost out0 = out@;
        let e = rest.remove(best);
        out.push(e);
        proof {
            assert(e == rest0[best as int]);
            assert forall|i: int| 0 <= i < rest@.len() implies #[trigger] rest@[i] == (if i
                < best {
                rest0[i]
            } else {
                rest0[i + 1]
            }) by {
                assert(rest@ == rest0.remove(best as int));
            }
            assert forall|k: (u32, Seq<u8>)|
                #[trigger] m.contains_key(k) && m[k].spec_total() >= cutoff implies (exists|i: int|
                0 <= i < rest@.len() && lc_entry_key(#[trigger] rest@[i]) == k) || (exists|i: int|
                0 <= i < out@.len() && lc_entry_key(#[trigger] out@[i]) == k) by {
                if exists|i: int| 0 <= i < rest0.len() && lc_entry_key(#[trigger] rest0[i]) == k {
                    let i = choose|i: int|
                        0 <= i < rest0.len() && lc_entry_key(#[trigger] rest0[i]) == k;
                    if i < best {
                        assert(lc_entry_key(rest@[i]) == k);
                    } else if i == best {
                        assert(lc_entry_key(out@[out@.len() - 1]) == k);
                    } else {
                        assert(lc_entry_key(rest@[i - 1]) == k);
                    }
                } else {
                    let i = choose|i: int|
                        0 <= i < out0.len() && lc_entry_key(#[trigger] out0[i]) == k;
                    assert(lc_entry_key(out@[i]) == k);
                }
            }
        }
    }
    out
}

/// The contract of `sort_pagelinks`, as a predicate on a candidate listing.
pub open spec fn is_ranking(
    r: Seq<((PageNs, PageTitle), LinkCount)>,
    m: Map<(u32, Seq<u8>), LinkCount>,
    cutoff: u32,
) -> bool {
    &&& lc_keys_distinct(r)
    &&& forall|i: int|
        0 <= i < r.len() ==> m.contains_key(lc_entry_key(#[trigger] r[i])) && m[lc_entry_key(r[i])]
            == r[i].1 && r[i].1.spec_total() >= cutoff
    &&& forall|k: (u32, Seq<u8>)|
        #[trigger] m.contains_key(k) && m[k].spec_total() >= cutoff ==> exists|i: int|
            0 <= i < r.len() && lc_entry_key(#[trigger] r[i]) == k
    &&& forall|i: int, j: int|
        0 <= i < j < r.len() ==> rank_lt(
            lc_entry_key(#[trigger] r[i]),
            r[i].1,
            lc_entry_key(#[trigger] r[j]),
            r[j].1,
        )
}

/// Determinism of the ranked listing: two listings of the same counter under
/// the same cutoff that both meet the contract of `sort_pagelinks` agree row
/// for row, so running the post-processing twice on equal inputs writes
/// identical output.
pub proof fn lemma_ranking_unique(
    r1: Seq<((PageNs, PageTitle), LinkCount)>,
    r2: Seq<((PageNs, PageTitle), LinkCount)>,
    m: Map<(u32, Seq<u8>), LinkCount>,
    cutoff: u32,
)
    requires
        is_ranking(r1, m, cutoff),
        is_ranking(r2, m, cutoff),
    ensures
        r1.len() == r2.len(),
        forall|i: int|
            0 <= i < r1.len() ==> lc_entry_key(#[trigger] r1[i]) == lc_entry_key(r2[i]) && r1[i].1
                == r2[i].1,
    decreases r1.len(),
{
    if r1.len() == 0 {
        if r2.len() > 0 {
            let k = lc_entry_key(r2[0]);
            assert(m.contains_key(k) && m[k].spec_total() >= cutoff);
        }
    } else if r2.len() == 0 {
        let k = lc_entry_key(r1[0]);
        assert(m.contains_key(k) && m[k].spec_total() >= cutoff);
    } else {
        let k1 = lc_entry_key(r1[0]);
        let k2 = lc_entry_key(r2[0]);
        if k1 != k2 {
            assert(m.contains_key(k1) && m[k1].spec_total() >= cutoff);
            let j2 = choose|i: int| 0 <= i < r2.len() && lc_entry_key(#[trigger] r2[i]) == k1;
            assert(j2 > 0);
            assert(rank_lt(k2, r2[0].1, k1, r2[j2].1));
            assert(r2[j2].1 == m[k1] && r1[0].1 == m[k1]);
            assert(m.contains_key(k2) && m[k2].spec_total() >= cutoff);
            let j1 = choose|i: int| 0 <= i < r1.len() && lc_entry_key(#[trigger] r1[i]) == k2;
            assert(j1 > 0);
            assert(rank_lt(k1, r1[0].1, k2, r1[j1].1));
            assert(r1[j1].1 == m[k2] && r2[0].1 == m[k2]);
            lemma_rank_lt_total(k1, r1[0].1, k2, r2[0].1);
            assert(false);
        }
        assert(r1[0].1 == m[k1] && r2[0].1 == m[k1]);
        let t1 = r1.drop_first();
        let t2 = r2.drop_first();
        let m1 = m.remove(k1);
        assert(is_ranking(t1, m1, cutoff)) by {
            assert forall|i: int|
                0 <= i < t1.len() implies m1.contains_key(lc_entry_key(#[trigger] t1[i]))
                && m1[lc_entry_key(t1[i])] == t1[i].1 && t1[i].1.spec_total() >= cutoff by {
                assert(t1[i] == r1[i + 1]);
                assert(lc_entry_key(r1[i + 1]) != k1);
            }
            assert forall|k: (u32, Seq<u8>)|
                #[trigger] m1.contains_key(k) && m1[k].spec_total() >= cutoff implies exists|i: int|
                0 <= i < t1.len() && lc_entry_key(#[trigger] t1[i]) == k by {
                assert(m.contains_key(k) && m[k].spec_total() >= cutoff);
                let i = choose|i: int| 0 <= i < r1.len() && lc_entry_key(#[trigger] r1[i]) == k;
                assert(i > 0);
                assert(lc_entry_key(t1[i - 1]) == k);
            }
            assert forall|i: int, j: int| 0 <= i < j < t1.len() implies rank_lt(
                lc_entry_key(#[trigger] t1[i]),
                t1[i].1,
                lc_entry_key(#[trigger] t1[j]),
                t1[j].1,
            ) by {
                assert(t1[i] == r1[i + 1]);
                assert(t1[j] == r1[j + 1]);
            }
            assert forall|i: int, j: int|
                0 <= i < j < t1.len() implies lc_entry_key(#[trigger] t1[i]) != lc_entry_key(
                #[trigger] t1[j],
            ) by {
                assert(t1[i] == r1[i + 1]);
                assert(t1[j] == r1[j + 1]);
            }
        }
        assert(is_ranking(t2, m1, cutoff)) by {
            assert forall|i: int|
                0 <= i < t2.len() implies m1.contains_key(lc_entry_key(#[trigger] t2[i]))
                && m1[lc_entry_key(t2[i])] == t2[i].1 && t2[i].1.spec_total() >= cutoff by {
                assert(t2[i] == r2[i + 1]);
                assert(lc_entry_key(r2[i + 1]) != k1);
            }
            assert forall|k: (u32, Seq<u8>)|
                #[trigger] m1.contains_key(k) && m1[k].spec_total() >= cutoff implies exists|i: int|
                0 <= i < t2.len() && lc_entry_key(#[trigger] t2[i]) == k by {
                assert(m.contains_key(k) && m[k].spec_total() >= cutoff);
                let i = choose|i: int| 0 <= i < r2.len() && lc_entry_key(#[trigger] r2[i]) == k;
                assert(i > 0);
                assert(lc_entry_key(t2[i - 1]) == k);
            }
            assert forall|i: int, j: int| 0 <= i < j < t2.len() implies rank_lt(
                lc_entry_key(#[trigger] t2[i]),
                t2[i].1,
                lc_entry_key(#[trigger] t2[j]),
                t2[j].1,
            ) by {
                assert(t2[i] == r2[i + 1]);
                assert(t2[j] == r2[j + 1]);
            }
            assert forall|i: int, j: int|
                0 <= i < j < t2.len() implies lc_entry_key(#[trigger] t2[i]) != lc_entry_key(
                #[trigger] t2[j],
            ) by {
                assert(t2[i] == r2[i + 1]);
                assert(t2[j] == r2[j + 1]);
            }
        }
        lemma_ranking_unique(t1, t2, m1, cutoff);
        assert forall|i: int|
            0 <= i < r1.len() implies lc_entry_key(#[trigger] r1[i]) == lc_entry_key(r2[i])
            && r1[i].1 == r2[i].1 by {
            if i > 0 {
                assert(lc_entry_key(t1[i - 1]) == lc_entry_key(t2[i - 1]) && t1[i - 1].1 == t2[i
                    - 1].1);
                assert(t1[i - 1] == r1[i]);
                assert(t2[i - 1] == r2[i]);
            }
        }
    }
}

/// Relies on `num_cpus::get`: the count of logical processors, documented to
/// be at least one. It sizes the buffer pool; nothing else depends on it.
#[verifier::external_body]
pub fn hardware_threads() -> (n: usize)
    ensures
        1 <= n,
{
    num_cpus::get()
}

/// The namespace numbers carried by a sequence of namespace tags.
pub open spec fn ns_values(s: Seq<PageNs>) -> Seq<u32> {
    s.map_values(|p: PageNs| p.0)
}

/// `s` with `x` inserted in front of its first element not above `x`.
pub open spec fn insert_desc(x: u32, s: Seq<u32>) -> Seq<u32>
    decreases s.len(),
{
    if s.len() == 0 {
        seq![x]
    } else if x >= s[0] {
        seq![x] + s
    } else {
        seq![s[0]] + insert_desc(x, s.drop_first())
    }
}

/// `s` sorted in non-increasing order, by insertion.
pub open spec fn sort_desc(s: Seq<u32>) -> Seq<u32>
    decreases s.len(),
{
    if s.len() == 0 {
        Seq::empty()
    } else {
        insert_desc(s[0], sort_desc(s.drop_first()))
    }
}

/// The numbers of `s` written in decimal and joined with `|`.
pub open spec fn alternation_chars(s: Seq<u32>) -> Seq<char>
    decreases s.len(),
{
    if s.len() == 0 {
        Seq::empty()
    } else if s.len() == 1 {
        dec_chars(s[0] as int)
    } else {
        dec_chars(s[0] as int) + seq!['|'] + alternation_chars(s.drop_first())
    }
}

fn insert_desc_exec(x: u32, v: Vec<u32>) -> (r: Vec<u32>)
    ensures
        r@ == insert_desc(x, v@),
    decreases v@.len(),
{
    let ghost orig = v@;
    let mut v = v;
    if v.len() == 0 {
        let mut r: Vec<u32> = Vec::new();
        r.push(x);
        proof {
            assert(r@ =~= insert_desc(x, orig));
        }
        r
    } else if x >= v[0] {
        let mut r: Vec<u32> = Vec::new();
        r.push(x);
        r.append(&mut v);
        proof {
            assert(r@ =~= insert_desc(x, orig));
        }
        r
    } else {
        let first = v.remove(0);
        proof {
            assert(v@ =~= orig.drop_first());
        }
        let mut rest = insert_desc_exec(x, v);
        let mut r: Vec<u32> = Vec::new();
        r.push(first);
        r.append(&mut rest);
        proof {
            assert(r@ =~= insert_desc(x, orig));
        }
        r
    }
}

fn sort_desc_exec(v: Vec<u32>) -> (r: Vec<u32>)
    ensures
        r@ == sort_desc(v@),
    decreases v@.len(),
{
    let ghost orig = v@;
    let mut v = v;
    if v.len() == 0 {
        Vec::new()
    } else {
        let first = v.remove(0);
        proof {
            assert(v@ =~= orig.drop_first());
        }
        let sorted = sort_desc_exec(v);
        insert_desc_exec(first, sorted)
    }
}

/// Writes the namespace alternation of a row pattern: the namespace numbers
/// in decimal, sorted in descending order and joined with `|`.
///
/// Descending order keeps a leftmost-first alternation from matching a
/// shorter number that prefixes a longer one.
pub fn namespaces_to_string(namespaces: &Vec<PageNs>) -> (r: String)
    ensures
        r@ == alternation_chars(sort_desc(ns_values(namespaces@))),
{
    let mut vals: Vec<u32> = Vec::new();
    let mut i: usize = 0;
    while i < namespaces.len()
        invariant
            i <= namespaces.len(),
            vals@ =~= ns_values(namespaces@).take(i as int),
        decreases namespaces.len() - i,
    {
        vals.push(namespaces[i].0);
        i += 1;
    }
    proof {
        assert(vals@ =~= ns_values(namespaces@));
    }
    let sorted = sort_desc_exec(vals);
    let ghost all = sorted@;
    let mut r = String::new();
    if sorted.len() == 0 {
        return r;
    }
    let mut i: usize = 0;
    proof {
        assert(all.skip(0) =~= all);
        assert(r@ + alternation_chars(all) =~= alternation_chars(all));
    }
    while i + 1 < sorted.len()
        invariant
            i < sorted.len(),
            sorted@ == all,
            r@ + alternation_chars(all.skip(i as int)) == alternation_chars(all),
        decreases sorted.len() - i,
    {
        let ghost pre = r@;
        push_dec_chars(&mut r, sorted[i]);
        r.append("|");
        proof {
            reveal_strlit("|");
            assert(all.skip(i as int).drop_first() =~= all.skip(i + 1));
            assert(all.skip(i as int)[0] == all[i as int]);
            assert(r@ + alternation_chars(all.skip(i + 1)) =~= pre + alternation_chars(
                all.skip(i as int),
            ));
        }
        i += 1;
    }
    push_dec_chars(&mut r, sorted[i]);
    proof {
        assert(all.skip(i as int) =~= seq![all[i as int]]);
        assert(r@ =~= alternation_chars(all));
    }
    r
}

/// Strict lexicographic order on byte sequences.
pub open spec fn lex_lt(x: Seq<u8>, y: Seq<u8>) -> bool
    decreases x.len(),
{
    if y.len() == 0 {
        false
    } else if x.len() == 0 {
        true
    } else if x[0] < y[0] {
        true
    } else if x[0] > y[0] {
        false
    } else {
        lex_lt(x.drop_first(), y.drop_first())
    }
}

pub proof fn lemma_lex_lt_total(x: Seq<u8>, y: Seq<u8>)
    ensures
        (x == y) <==> (!lex_lt(x, y) && !lex_lt(y, x)),
        !(lex_lt(x, y) && lex_lt(y, x)),
    decreases x.len(),
{
    if x.len() > 0 && y.len() > 0 && x[0] == y[0] {
        lemma_lex_lt_total(x.drop_first(), y.drop_first());
        if x.drop_first() == y.drop_first() {
            assert forall|i: int| 0 <= i < x.len() implies x[i] == y[i] by {
                if i > 0 {
                    assert(x.drop_first()[i - 1] == y.drop_first()[i - 1]);
                }
            }
            assert(x =~= y);
        }
        if x == y {
            assert(x.drop_first() =~= y.drop_first());
        }
    } else if x.len() == 0 && y.len() == 0 {
        assert(x =~= y);
    }
}

/// Compares borrowed byte sequences under the lexicographic order.
pub fn lex_lt_exec(x: &Vec<u8>, y: &Vec<u8>) -> (r: bool)
    ensures
        r == lex_lt(x@, y@),
{
    let mut i: usize = 0;
    proof {
        assert(x@.skip(0) =~= x@);
        assert(y@.skip(0) =~= y@);
    }
    while i < x.len() && i < y.len()
        invariant
            i <= x@.len(),
            i <= y@.len(),
            lex_lt(x@, y@) == lex_lt(x@.skip(i as int), y@.skip(i as int)),
        decreases x@.len() - i,
    {
        let a = x[i];
        let b = y[i];
        proof {
            assert(x@.skip(i as int).drop_first() =~= x@.skip(i + 1));
            assert(y@.skip(i as int).drop_first() =~= y@.skip(i + 1));
        }
        if a < b {
            return true;
        }
        if a > b {
            return false;
        }
        i += 1;
    }
    proof {
        if i >= y@.len() {
            assert(y@.skip(i as int) =~= Seq::<u8>::empty());
        } else {
            assert(x@.skip(i as int) =~= Seq::<u8>::empty());
        }
    }
    i < y.len()
}

/// The strict order the ranked output is listed in: by total descending,
/// ties by namespace and then by title bytes ascending, so that the listing
/// of any given counter is unique.
pub open spec fn rank_lt(
    ka: (u32, Seq<u8>),
    ca: crate::link_count::LinkCount,
    kb: (u32, Seq<u8>),
    cb: crate::link_count::LinkCount,
) -> bool {
    ||| ca.spec_total() > cb.spec_total()
    ||| (ca.spec_total() == cb.spec_total() && ka.0 < kb.0)
    ||| (ca.spec_total() == cb.spec_total() && ka.0 == kb.0 && lex_lt(ka.1, kb.1))
}

/// The ranking order is total: two rows with different keys are ordered one
/// way or the other, never both.
pub proof fn lemma_rank_lt_total(
    ka: (u32, Seq<u8>),
    ca: crate::link_count::LinkCount,
    kb: (u32, Seq<u8>),
    cb: crate::link_count::LinkCount,
)
    requires
        ka != kb,
    ensures
        rank_lt(ka, ca, kb, cb) || rank_lt(kb, cb, ka, ca),
        !(rank_lt(ka, ca, kb, cb) && rank_lt(kb, cb, ka, ca)),
{
    lemma_lex_lt_total(ka.1, kb.1);
    if ka.0 == kb.0 && ka.1 == kb.1 {
        assert(ka == kb);
    }
}

pub proof fn lemma_lex_lt_trans(x: Seq<u8>, y: Seq<u8>, z: Seq<u8>)
    requires
        lex_lt(x, y),
        lex_lt(y, z),
    ensures
        lex_lt(x, z),
    decreases x.len() + y.len() + z.len(),
{
    if y.len() > 0 && z.len() > 0 && x.len() > 0 {
        if x[0] == y[0] && y[0] == z[0] {
            lemma_lex_lt_trans(x.drop_first(), y.drop_first(), z.drop_first());
        }
    }
}

/// The ranking order is transitive.
pub proof fn lemma_rank_lt_trans(
    ka: (u32, Seq<u8>),
    ca: crate::link_count::LinkCount,
    kb: (u32, Seq<u8>),
    cb: crate::link_count::LinkCount,
    kc: (u32, Seq<u8>),
    cc: crate::link_count::LinkCount,
)
    requires
        rank_lt(ka, ca, kb, cb),
        rank_lt(kb, cb, kc, cc),
    ensures
        rank_lt(ka, ca, kc, cc),
{
    if ca.spec_total() == cb.spec_total() && cb.spec_total() == cc.spec_total() && ka.0 == kb.0
        && kb.0 == kc.0 {
        lemma_lex_lt_trans(ka.1, kb.1, kc.1);
    }
}

/// The largest index of `c` in `s`, or `-1` when `c` does not occur.
pub open spec fn last_index_of<T>(s: Seq<T>, c: T) -> int
    decreases s.len(),
{
    if s.len() == 0 {
        -1
    } else if s.last() == c {
        s.len() - 1
    } else {
        last_index_of(s.drop_last(), c)
    }
}

pub proof fn lemma_last_index_of<T>(s: Seq<T>, c: T)
    ensures
        -1 <= last_index_of(s, c) < s.len(),
        last_index_of(s, c) >= 0 ==> s[last_index_of(s, c)] == c,
        forall|j: int| last_index_of(s, c) < j < s.len() ==> s[j] != c,
    decreases s.len(),
{
    if s.len() > 0 && s.last() != c {
        lemma_last_index_of(s.drop_last(), c);
        assert forall|j: int| last_index_of(s, c) < j < s.len() implies s[j] != c by {
            if j < s.len() - 1 {
                assert(s.drop_last()[j] != c);
            }
        }
    }
}

pub proof fn lemma_last_index_of_skip<T>(s: Seq<T>, c: T, k: int)
    requires
        0 <= k <= s.len(),
    ensures
        last_index_of(s.skip(k), c) == if last_index_of(s, c) >= k {
            last_index_of(s, c) - k
        } else {
            -1
        },
    decreases s.len(),
{
    lemma_last_index_of(s, c);
    if k == s.len() {
        assert(s.skip(k) =~= Seq::<T>::empty());
    } else if s.last() == c {
        assert(s.skip(k).last() == s.last());
        assert(s.skip(k).len() == s.len() - k);
    } else {
        assert(s.skip(k).last() == s.last());
        assert(s.skip(k).drop_last() =~= s.drop_last().skip(k));
        lemma_last_index_of_skip(s.drop_last(), c, k);
    }
}

/// The file-name part of a path: everything after the last `/`.
pub open spec fn spec_file_name(p: Seq<char>) -> Seq<char> {
    p.skip(last_index_of(p, '/') + 1)
}

/// The extension of a path, when its file name has one: everything after the
/// last `.` of the file name, unless that dot is the name's first character.
pub open spec fn spec_extension(p: Seq<char>) -> Option<Seq<char>> {
    let name = spec_file_name(p);
    let d = last_index_of(name, '.');
    if d <= 0 {
        None
    } else {
        Some(name.skip(d + 1))
    }
}

/// Whether a path names a gzip-compressed file, going by its extension.
pub open spec fn spec_is_gzip_path(p: Seq<char>) -> bool {
    spec_extension(p) == Some("gz"@) || spec_extension(p) == Some("gzip"@)
}

/// The largest character index of `c` in `s`, if `c` occurs at all.
fn last_char_index(s: &str, c: char) -> (r: Option<usize>)
    ensures
        match r {
            Some(i) => last_index_of(s@, c) == i,
            None => last_index_of(s@, c) == -1,
        },
{
    proof {
        lemma_last_index_of(s@, c);
    }
    let len = s.unicode_len();
    let mut i = len;
    while i > 0
        invariant
            i <= len,
            len == s@.len(),
            forall|j: int| i <= j < len ==> s@[j] != c,
        decreases i,
    {
        i -= 1;
        if s.get_char(i) == c {
            proof {
                lemma_last_index_of(s@, c);
                let l = last_index_of(s@, c);
                if l < i {
                    assert(s@[i as int] != c);
                }
                if l > i {
                    assert(s@[l] != c);
                }
            }
            return Some(i);
        }
    }
    None
}

/// Whether `path` carries a `gz` or `gzip` extension, the shapes the dumps
/// are published in.
pub fn is_probably_gzip(path: &str) -> (r: bool)
    ensures
        r == spec_is_gzip_path(path@),
{
    proof {
        lemma_last_index_of(path@, '/');
    }
    let len = path.unicode_len();
    let nstart: usize = match last_char_index(path, '/') {
        Some(i) => i + 1,
        None => 0,
    };
    proof {
        lemma_last_index_of_skip(path@, '.', nstart as int);
        lemma_last_index_of(path@, '.');
    }
    match last_char_index(path, '.') {
        None => false,
        Some(d) => {
            if d <= nstart {
                false
            } else {
                let ext = path.substring_char(d + 1, len);
                proof {
                    assert(spec_file_name(path@).skip(d - nstart + 1)
                        =~= path@.subrange(d + 1 as int, len as int));
                }
                str_eq_chars(ext, "gz") || str_eq_chars(ext, "gzip")
            }
        },
    }
}

/// The extension a format writes: `txt` for the plain and wiki shapes, `md`
/// for markdown.
pub open spec fn spec_format_extension(f: ExportFormat) -> Seq<char> {
    match f {
        ExportFormat::PlainText => "txt"@,
        ExportFormat::WikiText => "txt"@,
        ExportFormat::Markdown => "md"@,
    }
}

/// The output path: the user's path as given when it already has an
/// extension, else with the format's extension appended.
pub open spec fn spec_output_filename(p: Seq<char>, f: ExportFormat) -> Seq<char> {
    if spec_extension(p) is Some {
        p
    } else {
        p + seq!['.'] + spec_format_extension(f)
    }
}

pub fn build_output_filename(path: &str, export_format: ExportFormat) -> (r: String)
    ensures
        r@ == spec_output_filename(path@, export_format),
{
    proof {
        lemma_last_index_of(path@, '/');
        lemma_last_index_of(path@, '.');
    }
    let len = path.unicode_len();
    let nstart: usize = match last_char_index(path, '/') {
        Some(i) => i + 1,
        None => 0,
    };
    proof {
        lemma_last_index_of_skip(path@, '.', nstart as int);
    }
    let has_extension = match last_char_index(path, '.') {
        None => false,
        Some(d) => d > nstart,
    };
    let mut r = String::from_str(path);
    if !has_extension {
        proof {
            reveal_strlit(".");
            reveal_strlit("txt");
            reveal_strlit("md");
        }
        r.append(".");
        match export_format {
            ExportFormat::PlainText => r.append("txt"),
            ExportFormat::WikiText => r.append("txt"),
            ExportFormat::Markdown => r.append("md"),
        }
        proof {
            assert(r@ =~= spec_output_filename(path@, export_format));
        }
    }
    r
}

/// The bytes of one row of the plain-text listing.
pub open spec fn plain_row_bytes(ns: u32, title: Seq<u8>, c: LinkCount) -> Seq<u8> {
    spaces_of(title) + " [".spec_bytes() + dec_bytes(ns as int) + "]  →  ".spec_bytes()
        + dec_bytes(c.spec_total()) + " (".spec_bytes() + dec_bytes(c.direct as int)
        + " + ".spec_bytes() + dec_bytes(c.indirect as int) + ")\n".spec_bytes()
}

/// The bytes of the plain-text rows of `rows`, in order.
pub open spec fn plain_rows_bytes(rows: Seq<((PageNs, PageTitle), LinkCount)>) -> Seq<u8>
    decreases rows.len(),
{
    if rows.len() == 0 {
        Seq::empty()
    } else {
        plain_rows_bytes(rows.drop_last()) + plain_row_bytes(
            rows.last().0.0.0,
            rows.last().0.1@,
            rows.last().1,
        )
    }
}

/// Clones a title's bytes with underscores rewritten to spaces.
fn spaced_title(title: &PageTitle) -> (r: Vec<u8>)
    ensures
        r@ == spaces_of(title@),
{
    let t = title.0.clone();
    proof {
        assert(t@ =~= title.0@);
    }
    underscores_to_spaces(t)
}

/// Appends the bytes of a string slice to `out`.
fn push_str_bytes(out: &mut Vec<u8>, s: &str)
    ensures
        final(out)@ == old(out)@ + s.spec_bytes(),
{
    let mut part = s.as_bytes_vec();
    out.append(&mut part);
}

/// Writes the ranked list as plain text: a header line, a blank line, then
/// one `title [ns]  →  total (direct + indirect)` line per row, titles with
/// underscores rendered as spaces.
#[verifier::rlimit(100)]
fn plain_row(row: &((PageNs, PageTitle), LinkCount)) -> (out: Vec<u8>)
    ensures
        out@ == plain_row_bytes(row.0.0.0, row.0.1@, row.1),
{
    let mut out = spaced_title(&row.0.1);
    push_str_bytes(&mut out, " [");
    push_dec_bytes(&mut out, row.0.0.0);
    push_str_bytes(&mut out, "]  →  ");
    push_dec_bytes(&mut out, row.1.total());
    push_str_bytes(&mut out, " (");
    push_dec_bytes(&mut out, row.1.direct);
    push_str_bytes(&mut out, " + ");
    push_dec_bytes(&mut out, row.1.indirect);
    push_str_bytes(&mut out, ")\n");
    proof {
        assert(out@ =~= plain_row_bytes(row.0.0.0, row.0.1@, row.1));
    }
    out
}

pub fn write_plaintext(pages: &Vec<((PageNs, PageTitle), LinkCount)>) -> (out: Vec<u8>)
    ensures
        out@ == "page title [namespace]  →  links-total (direct + indirect)\n\n".spec_bytes()
            + plain_rows_bytes(pages@),
{
    let mut out = "page title [namespace]  →  links-total (direct + indirect)\n\n".as_bytes_vec();
    let ghost header = out@;
    let mut i: usize = 0;
    proof {
        assert(out@ =~= header + plain_rows_bytes(pages@.take(0)));
    }
    while i < pages.len()
        invariant
            i <= pages@.len(),
            out@ == header + plain_rows_bytes(pages@.take(i as int)),
        decreases pages@.len() - i,
    {
        let mut rb = plain_row(&pages[i]);
        out.append(&mut rb);
        i += 1;
        proof {
            assert(pages@.take(i as int).drop_last() =~= pages@.take(i - 1));
            assert(pages@.take(i as int).last() == pages@[i - 1]);
            assert(out@ =~= header + plain_rows_bytes(pages@.take(i as int)));
        }
    }
    proof {
        assert(pages@.take(pages@.len() as int) =~= pages@);
    }
    out
}

/// The bytes of one row of the wiki-table listing.
pub open spec fn wiki_row_bytes(ns: u32, title: Seq<u8>, c: LinkCount) -> Seq<u8> {
    "| [[".spec_bytes() + spaces_of(title) + "]] || ".spec_bytes() + dec_bytes(ns as int)
        + " || ".spec_bytes() + dec_bytes(c.spec_total()) + " || ".spec_bytes() + dec_bytes(
        c.direct as int,
    ) + " || ".spec_bytes() + dec_bytes(c.indirect as int) + "\n|-\n".spec_bytes()
}

/// The bytes of the wiki-table rows of `rows`, in order.
pub open spec fn wiki_rows_bytes(rows: Seq<((PageNs, PageTitle), LinkCount)>) -> Seq<u8>
    decreases rows.len(),
{
    if rows.len() == 0 {
        Seq::empty()
    } else {
        wiki_rows_bytes(rows.drop_last()) + wiki_row_bytes(
            rows.last().0.0.0,
            rows.last().0.1@,
            rows.last().1,
        )
    }
}

/// Writes the ranked list as a sortable wiki table.
#[verifier::rlimit(100)]
fn wiki_row(row: &((PageNs, PageTitle), LinkCount)) -> (out: Vec<u8>)
    ensures
        out@ == wiki_row_bytes(row.0.0.0, row.0.1@, row.1),
{
    let mut out = "| [[".as_bytes_vec();
    let mut title = spaced_title(&row.0.1);
    out.append(&mut title);
    push_str_bytes(&mut out, "]] || ");
    push_dec_bytes(&mut out, row.0.0.0);
    push_str_bytes(&mut out, " || ");
    push_dec_bytes(&mut out, row.1.total());
    push_str_bytes(&mut out, " || ");
    push_dec_bytes(&mut out, row.1.direct);
    push_str_bytes(&mut out, " || ");
    push_dec_bytes(&mut out, row.1.indirect);
    push_str_bytes(&mut out, "\n|-\n");
    proof {
        assert(out@ =~= wiki_row_bytes(row.0.0.0, row.0.1@, row.1));
    }
    out
}

pub fn write_wikitext(pages: &Vec<((PageNs, PageTitle), LinkCount)>) -> (out: Vec<u8>)
    ensures
        out@ == "{|class=\"wikitable sortable\"\n! Page !! Ns !! Links total !! Direct !! via redirect\n|-\n".spec_bytes()
            + wiki_rows_bytes(pages@) + "|}\n".spec_bytes(),
{
    let mut out =
        "{|class=\"wikitable sortable\"\n! Page !! Ns !! Links total !! Direct !! via redirect\n|-\n".as_bytes_vec();
    let ghost header = out@;
    let mut i: usize = 0;
    proof {
        assert(out@ =~= header + wiki_rows_bytes(pages@.take(0)));
    }
    while i < pages.len()
        invariant
            i <= pages@.len(),
            out@ == header + wiki_rows_bytes(pages@.take(i as int)),
        decreases pages@.len() - i,
    {
        let mut rb = wiki_row(&pages[i]);
        out.append(&mut rb);
        i += 1;
        proof {
            assert(pages@.take(i as int).drop_last() =~= pages@.take(i - 1));
            assert(pages@.take(i as int).last() == pages@[i - 1]);
            assert(out@ =~= header + wiki_rows_bytes(pages@.take(i as int)));
        }
    }
    push_str_bytes(&mut out, "|}\n");
    proof {
        assert(pages@.take(pages@.len() as int) =~= pages@);
    }
    out
}

/// The bytes of one row of the markdown listing.
pub open spec fn markdown_row_bytes(ns: u32, title: Seq<u8>, c: LinkCount) -> Seq<u8> {
    spaces_of(title) + " | ".spec_bytes() + dec_bytes(ns as int) + " | ".spec_bytes() + dec_bytes(
        c.spec_total(),
    ) + " | ".spec_bytes() + dec_bytes(c.direct as int) + " | ".spec_bytes() + dec_bytes(
        c.indirect as int,
    ) + "\n".spec_bytes()
}

/// The bytes of the markdown rows of `rows`, in order.
pub open spec fn markdown_rows_bytes(rows: Seq<((PageNs, PageTitle), LinkCount)>) -> Seq<u8>
    decreases rows.len(),
{
    if rows.len() == 0 {
        Seq::empty()
    } else {
        markdown_rows_bytes(rows.drop_last()) + markdown_row_bytes(
            rows.last().0.0.0,
            rows.last().0.1@,
            rows.last().1,
        )
    }
}

/// Writes the ranked list as a table in the markdown dialect that renders on
/// code-hosting sites; the table is not pretty-printed.
#[verifier::rlimit(100)]
fn markdown_row(row: &((PageNs, PageTitle), LinkCount)) -> (out: Vec<u8>)
    ensures
        out@ == markdown_row_bytes(row.0.0.0, row.0.1@, row.1),
{
    let mut out = spaced_title(&row.0.1);
    push_str_bytes(&mut out, " | ");
    push_dec_bytes(&mut out, row.0.0.0);
    push_str_bytes(&mut out, " | ");
    push_dec_bytes(&mut out, row.1.total());
    push_str_bytes(&mut out, " | ");
    push_dec_bytes(&mut out, row.1.direct);
    push_str_bytes(&mut out, " | ");
    push_dec_bytes(&mut out, row.1.indirect);
    push_str_bytes(&mut out, "\n");
    proof {
        assert(out@ =~= markdown_row_bytes(row.0.0.0, row.0.1@, row.1));
    }
    out
}

pub fn write_markdown(pages: &Vec<((PageNs, PageTitle), LinkCount)>) -> (out: Vec<u8>)
    ensures
        out@ == "Page | Ns | Links total | Direct | via redirect\n:--- | :---: | ---: | ---: | ---:\n".spec_bytes()
            + markdown_rows_bytes(pages@),
{
    let mut out =
        "Page | Ns | Links total | Direct | via redirect\n:--- | :---: | ---: | ---: | ---:\n".as_bytes_vec();
    let ghost header = out@;
    let mut i: usize = 0;
    proof {
        assert(out@ =~= header + markdown_rows_bytes(pages@.take(0)));
    }
    while i < pages.len()
        invariant
            i <= pages@.len(),
            out@ == header + markdown_rows_bytes(pages@.take(i as int)),
        decreases pages@.len() - i,
    {
        let mut rb = markdown_row(&pages[i]);
        out.append(&mut rb);
        i += 1;
        proof {
            assert(pages@.take(i as int).drop_last() =~= pages@.take(i - 1));
            assert(pages@.take(i as int).last() == pages@[i - 1]);
            assert(out@ =~= header + markdown_rows_bytes(pages@.take(i as int)));
        }
    }
    proof {
        assert(pages@.take(pages@.len() as int) =~= pages@);
    }
    out
}

} // verus!
