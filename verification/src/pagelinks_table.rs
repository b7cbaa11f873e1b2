//! Pass 3: counting links from the `pagelinks` table dump.
//!
//! Every matched link names a target `(namespace, title)`. When the target is
//! a known redirect, the link is credited as *indirect* to the redirect's
//! target title — one hop only, a redirect chain is not chased; otherwise it
//! is credited as *direct* to the raw title. Exactly one field of exactly one
//! key is bumped per link.

use vstd::prelude::*;

use crate::Error;
use crate::buffer_queue::BufferQueue;
use crate::chunked_reader::ChunkedReader;
use crate::chunked_reader::nl_byte;
use crate::link_count::LinkCount;
use crate::link_count::sat_add;
use crate::redirect_table::RedirectMap;
use crate::sql_rows::link_row_at;
use crate::sql_rows::link_row_exec;
use crate::sql_rows::copy_range;
use crate::util::PageNs;
use crate::util::PageTitle;
use crate::util::hardware_threads;
use crate::util::last_index_of;
use crate::util::ns_values;

verus! {

/// A plain pair of link tallies, as a freestanding record.
#[derive(Clone, Copy, Debug, PartialEq, Eq, Structural)]
pub struct Counter {
    pub direct: u32,
    pub indirect: u32,
}

impl Default for Counter {
    fn default() -> (r: Self)
        ensures
            r.direct == 0 && r.indirect == 0,
    {
        Counter { direct: 0, indirect: 0 }
    }
}

/// The key of a counter entry.
pub open spec fn lc_entry_key(e: ((PageNs, PageTitle), LinkCount)) -> (u32, Seq<u8>) {
    (e.0.0.0, e.0.1@)
}

/// No two entries share a key.
pub open spec fn lc_keys_distinct(s: Seq<((PageNs, PageTitle), LinkCount)>) -> bool {
    forall|i: int, j: int|
        0 <= i < j < s.len() ==> lc_entry_key(#[trigger] s[i]) != lc_entry_key(#[trigger] s[j])
}

/// The mapping a sequence of entries denotes; a later entry wins over an
/// earlier one with the same key.
pub open spec fn lc_entries_map(s: Seq<((PageNs, PageTitle), LinkCount)>) -> Map<
    (u32, Seq<u8>),
    LinkCount,
>
    decreases s.len(),
{
    if s.len() == 0 {
        Map::empty()
    } else {
        lc_entries_map(s.drop_last()).insert(lc_entry_key(s.last()), s.last().1)
    }
}

proof fn lemma_lc_entries_map_contains(s: Seq<((PageNs, PageTitle), LinkCount)>, k: (u32, Seq<u8>))
    ensures
        lc_entries_map(s).contains_key(k) <==> exists|i: int|
            0 <= i < s.len() && lc_entry_key(#[trigger] s[i]) == k,
    decreases s.len(),
{
    if s.len() > 0 {
        lemma_lc_entries_map_contains(s.drop_last(), k);
        if lc_entries_map(s).contains_key(k) {
            if lc_entry_key(s.last()) == k {
                assert(lc_entry_key(s[s.len() - 1]) == k);
            } else {
                let i = choose|i: int|
                    0 <= i < s.len() - 1 && lc_entry_key(#[trigger] s.drop_last()[i]) == k;
                assert(lc_entry_key(s[i]) == k);
            }
        }
        if exists|i: int| 0 <= i < s.len() && lc_entry_key(#[trigger] s[i]) == k {
            let i = choose|i: int| 0 <= i < s.len() && lc_entry_key(#[trigger] s[i]) == k;
            if i < s.len() - 1 {
                assert(lc_entry_key(s.drop_last()[i]) == k);
            }
        }
    }
}

proof fn lemma_lc_entries_map_get(s: Seq<((PageNs, PageTitle), LinkCount)>, i: int)
    requires
        0 <= i < s.len(),
        lc_keys_distinct(s),
    ensures
        lc_entries_map(s).contains_key(lc_entry_key(s[i])),
        lc_entries_map(s)[lc_entry_key(s[i])] == s[i].1,
    decreases s.len(),
{
    if i == s.len() - 1 {
    } else {
        assert(lc_keys_distinct(s.drop_last()));
        assert(s.drop_last()[i] == s[i]);
        lemma_lc_entries_map_get(s.drop_last(), i);
        assert(lc_entry_key(s[s.len() - 1]) != lc_entry_key(s[i]));
    }
}

proof fn lemma_lc_entries_map_update(
    s: Seq<((PageNs, PageTitle), LinkCount)>,
    i: int,
    e: ((PageNs, PageTitle), LinkCount),
)
    requires
        0 <= i < s.len(),
        lc_keys_distinct(s),
        lc_entry_key(e) == lc_entry_key(s[i]),
    ensures
        lc_entries_map(s.update(i, e)) =~= lc_entries_map(s).insert(lc_entry_key(e), e.1),
    decreases s.len(),
{
    let t = s.update(i, e);
    if i == s.len() - 1 {
        assert(t.drop_last() =~= s.drop_last());
        assert(t.last() == e);
    } else {
        assert(t.drop_last() =~= s.drop_last().update(i, e));
        assert(s.drop_last()[i] == s[i]);
        assert(lc_keys_distinct(s.drop_last()));
        lemma_lc_entries_map_update(s.drop_last(), i, e);
        assert(t.last() == s.last());
        assert(lc_entry_key(s[s.len() - 1]) != lc_entry_key(s[i]));
    }
}

/// The tallies at `k`, zero when `k` has no entry yet.
pub open spec fn counter_at(m: Map<(u32, Seq<u8>), LinkCount>, k: (u32, Seq<u8>)) -> LinkCount {
    if m.contains_key(k) {
        m[k]
    } else {
        LinkCount { direct: 0, indirect: 0 }
    }
}

/// `c` with its direct tally bumped by one, saturating.
pub open spec fn bumped_direct(c: LinkCount) -> LinkCount {
    LinkCount { direct: sat_add(c.direct as int, 1) as u32, indirect: c.indirect }
}

/// `c` with its indirect tally bumped by one, saturating.
pub open spec fn bumped_indirect(c: LinkCount) -> LinkCount {
    LinkCount { direct: c.direct, indirect: sat_add(c.indirect as int, 1) as u32 }
}

/// The link counter: `(namespace, title)` to its tallies, built by pass 3.
pub struct LinkCounter {
    entries: Vec<((PageNs, PageTitle), LinkCount)>,
}

impl View for LinkCounter {
    type V = Map<(u32, Seq<u8>), LinkCount>;

    closed spec fn view(&self) -> Map<(u32, Seq<u8>), LinkCount> {
        lc_entries_map(self.entries@)
    }
}

impl LinkCounter {
    pub closed spec fn wf(&self) -> bool {
        lc_keys_distinct(self.entries@)
    }

    pub fn new() -> (r: Self)
        ensures
            r.wf(),
            r@ == Map::<(u32, Seq<u8>), LinkCount>::empty(),
    {
        let r = LinkCounter { entries: Vec::new() };
        proof {
            assert(r@ =~= Map::<(u32, Seq<u8>), LinkCount>::empty());
        }
        r
    }

    /// The tallies recorded for `(ns, title)`, if any.
    pub fn get(&self, ns: PageNs, title: &Vec<u8>) -> (r: Option<LinkCount>)
        requires
            self.wf(),
        ensures
            match r {
                Some(c) => self@.contains_key((ns.0, title@)) && c == self@[(ns.0, title@)],
                None => !self@.contains_key((ns.0, title@)),
            },
    {
        let mut i: usize = 0;
        while i < self.entries.len()
            invariant
                i <= self.entries@.len(),
                lc_keys_distinct(self.entries@),
                forall|j: int|
                    0 <= j < i ==> lc_entry_key(#[trigger] self.entries@[j]) != (ns.0, title@),
            decreases self.entries@.len() - i,
        {
            if self.entries[i].0.0.0 == ns.0 && self.entries[i].0.1.eq_title_bytes(title) {
                proof {
                    lemma_lc_entries_map_get(self.entries@, i as int);
                }
                return Some(self.entries[i].1);
            }
            i += 1;
        }
        proof {
            lemma_lc_entries_map_contains(self.entries@, (ns.0, title@));
        }
        None
    }

    /// Bumps one field of the tallies at `(ns, title)`, creating the entry at
    /// zero first when it is new: the direct field when `indirect` is false,
    /// the indirect field when it is true.
    fn bump(&mut self, ns: PageNs, title: PageTitle, indirect: bool)
        requires
            old(self).wf(),
        ensures
            final(self).wf(),
            final(self)@ == old(self)@.insert(
                (ns.0, title@),
                if indirect {
                    bumped_indirect(counter_at(old(self)@, (ns.0, title@)))
                } else {
                    bumped_direct(counter_at(old(self)@, (ns.0, title@)))
                },
            ),
    {
        let ghost s0 = self.entries@;
        let ghost k = (ns.0, title@);
        let mut i: usize = 0;
        while i < self.entries.len()
            invariant
                i <= self.entries@.len(),
                self.entries@ == s0,
                old(self).entries@ == s0,
                k == (ns.0, title@),
                lc_keys_distinct(s0),
                forall|j: int| 0 <= j < i ==> lc_entry_key(#[trigger] s0[j]) != k,
            decreases self.entries@.len() - i,
        {
            if self.entries[i].0.0.0 == ns.0 && self.entries[i].0.1.eq_title_bytes(&title.0) {
                proof {
                    lemma_lc_entries_map_get(s0, i as int);
                }
                let c = self.entries[i].1;
                let bumped = if indirect {
                    LinkCount {
                        direct: c.direct,
                        indirect: if c.indirect < u32::MAX {
                            c.indirect + 1
                        } else {
                            u32::MAX
                        },
                    }
                } else {
                    LinkCount {
                        direct: if c.direct < u32::MAX {
                            c.direct + 1
                        } else {
                            u32::MAX
                        },
                        indirect: c.indirect,
                    }
                };
                self.entries[i] = ((ns, title), bumped);
                proof {
                    lemma_lc_entries_map_update(s0, i as int, self.entries@[i as int]);
                    assert forall|a: int, b: int|
                        0 <= a < b < self.entries@.len() implies lc_entry_key(
                        #[trigger] self.entries@[a],
                    ) != lc_entry_key(#[trigger] self.entries@[b]) by {
                        assert(lc_entry_key(s0[a]) != lc_entry_key(s0[b]));
                    }
                }
                return ;
            }
            i += 1;
        }
        proof {
            lemma_lc_entries_map_contains(s0, k);
        }
        let fresh = if indirect {
            LinkCount { direct: 0, indirect: 1 }
        } else {
            LinkCount { direct: 1, indirect: 0 }
        };
        self.entries.push(((ns, title), fresh));
        proof {
            assert(self.entries@.drop_last() =~= s0);
            assert forall|a: int, b: int|
                0 <= a < b < self.entries@.len() implies lc_entry_key(#[trigger] self.entries@[a])
                != lc_entry_key(#[trigger] self.entries@[b]) by {
                if b < self.entries@.len() - 1 {
                    assert(lc_entry_key(s0[a]) != lc_entry_key(s0[b]));
                }
            }
        }
    }

    /// Hands the counter's entries out as a list: distinct keys, each bound
    /// to exactly the tallies the counter records, covering the whole
    /// counter.
    pub fn into_entries(self) -> (r: Vec<((PageNs, PageTitle), LinkCount)>)
        requires
            self.wf(),
        ensures
            lc_keys_distinct(r@),
            forall|i: int|
                0 <= i < r@.len() ==> self@.contains_key(lc_entry_key(#[trigger] r@[i]))
                    && self@[lc_entry_key(r@[i])] == r@[i].1,
            forall|k: (u32, Seq<u8>)|
                self@.contains_key(k) ==> exists|i: int|
                    0 <= i < r@.len() && lc_entry_key(#[trigger] r@[i]) == k,
    {
        proof {
            assert forall|i: int|
                0 <= i < self.entries@.len() implies self@.contains_key(
                lc_entry_key(#[trigger] self.entries@[i]),
            ) && self@[lc_entry_key(self.entries@[i])] == self.entries@[i].1 by {
                lemma_lc_entries_map_get(self.entries@, i);
            }
            assert forall|k: (u32, Seq<u8>)| self@.contains_key(k) implies exists|i: int|
                0 <= i < self.entries@.len() && lc_entry_key(#[trigger] self.entries@[i]) == k by {
                lemma_lc_entries_map_contains(self.entries@, k);
            }
        }
        self.entries
    }
}

/// One link counted against the shared counter: a hit in the redirect map
/// credits the redirect's target title as indirect; a miss credits the raw
/// title as direct.
pub open spec fn link_step(
    rdm: Map<(u32, Seq<u8>), Seq<u8>>,
    m: Map<(u32, Seq<u8>), LinkCount>,
    ns: u32,
    title: Seq<u8>,
) -> Map<(u32, Seq<u8>), LinkCount> {
    if rdm.contains_key((ns, title)) {
        let k = (ns, rdm[(ns, title)]);
        m.insert(k, bumped_indirect(counter_at(m, k)))
    } else {
        let k = (ns, title);
        m.insert(k, bumped_direct(counter_at(m, k)))
    }
}

/// Link attribution exclusivity: counting one link changes exactly one key —
/// the redirect's resolved target on a redirect hit, the raw key otherwise —
/// and at that key bumps exactly one of the two tallies by one (saturating),
/// leaving the other tally and every other key untouched.
pub proof fn lemma_link_attribution(
    rdm: Map<(u32, Seq<u8>), Seq<u8>>,
    m: Map<(u32, Seq<u8>), LinkCount>,
    ns: u32,
    title: Seq<u8>,
)
    ensures
        ({
            let m2 = link_step(rdm, m, ns, title);
            let hit = rdm.contains_key((ns, title));
            let k = if hit {
                (ns, rdm[(ns, title)])
            } else {
                (ns, title)
            };
            let before = counter_at(m, k);
            let after = counter_at(m2, k);
            &&& m2.contains_key(k)
            &&& hit ==> after.indirect == sat_add(before.indirect as int, 1) && after.direct
                == before.direct
            &&& !hit ==> after.direct == sat_add(before.direct as int, 1) && after.indirect
                == before.indirect
            &&& forall|k2: (u32, Seq<u8>)| k2 != k ==> counter_at(m2, k2) == counter_at(m, k2)
        }),
{
}

/// The `pagelinks` row matches of `s` from `i` on: leftmost first, resuming
/// past each match.
pub open spec fn link_rows_from(s: Seq<u8>, i: int, to_nss: Seq<u32>, from_nss: Seq<u32>) -> Seq<
    (u32, Seq<u8>),
>
    decreases s.len() - i,
{
    if i < 0 || i >= s.len() {
        Seq::empty()
    } else {
        match link_row_at(s, i, to_nss, from_nss) {
            Some(m) => {
                // A match always ends past its start; the guard keeps the
                // recursion visibly decreasing.
                let next = if i < m.2 && m.2 <= s.len() {
                    m.2
                } else {
                    i + 1
                };
                seq![(m.0, m.1)] + link_rows_from(s, next, to_nss, from_nss)
            },
            None => link_rows_from(s, i + 1, to_nss, from_nss),
        }
    }
}

/// Folds counted links into the counter, in match order.
pub open spec fn apply_link_rows(
    rows: Seq<(u32, Seq<u8>)>,
    rdm: Map<(u32, Seq<u8>), Seq<u8>>,
    m: Map<(u32, Seq<u8>), LinkCount>,
) -> Map<(u32, Seq<u8>), LinkCount>
    decreases rows.len(),
{
    if rows.len() == 0 {
        m
    } else {
        apply_link_rows(rows.drop_first(), rdm, link_step(rdm, m, rows[0].0, rows[0].1))
    }
}

/// What pass 3 makes of the pending bytes `rest`, chunked at `t`, starting
/// from counter `m`.
pub open spec fn spec_link_pass(
    rest: Seq<u8>,
    t: int,
    to_nss: Seq<u32>,
    from_nss: Seq<u32>,
    rdm: Map<(u32, Seq<u8>), Seq<u8>>,
    m: Map<(u32, Seq<u8>), LinkCount>,
) -> Result<Map<(u32, Seq<u8>), LinkCount>, Error>
    recommends
        t >= 1,
    decreases rest.len(),
    via spec_link_pass_decreases
{
    if t < 1 || rest.len() < t {
        Ok(apply_link_rows(link_rows_from(rest, 0, to_nss, from_nss), rdm, m))
    } else {
        let nl = last_index_of(rest.take(t), nl_byte());
        if nl < 0 {
            Err(Error::NoRecordBoundary)
        } else {
            spec_link_pass(
                rest.skip(nl + 1),
                t,
                to_nss,
                from_nss,
                rdm,
                apply_link_rows(link_rows_from(rest.take(nl + 1), 0, to_nss, from_nss), rdm, m),
            )
        }
    }
}

#[via_fn]
proof fn spec_link_pass_decreases(
    rest: Seq<u8>,
    t: int,
    to_nss: Seq<u32>,
    from_nss: Seq<u32>,
    rdm: Map<(u32, Seq<u8>), Seq<u8>>,
    m: Map<(u32, Seq<u8>), LinkCount>,
) {
    if !(t < 1 || rest.len() < t) {
        crate::util::lemma_last_index_of(rest.take(t), nl_byte());
        assert(rest.take(t).len() == t);
    }
}

/// What pass 3 returns on a whole source: the link counter, or the first
/// error. Both namespace sets must be non-empty for a row pattern to exist.
pub open spec fn spec_count_links(
    source: Seq<u8>,
    t: int,
    from_nss: Seq<u32>,
    to_nss: Seq<u32>,
    rdm: Map<(u32, Seq<u8>), Seq<u8>>,
) -> Result<Map<(u32, Seq<u8>), LinkCount>, Error> {
    if from_nss.len() == 0 || to_nss.len() == 0 {
        Err(Error::PatternConstruction)
    } else {
        spec_link_pass(source, t, to_nss, from_nss, rdm, Map::empty())
    }
}

/// Scans one record-aligned chunk for `pagelinks` rows and counts them into
/// the shared counter.
fn scan_link_chunk(
    chunk: &Vec<u8>,
    from_nss: &Vec<PageNs>,
    to_nss: &Vec<PageNs>,
    redirects: &RedirectMap,
    counter: &mut LinkCounter,
)
    requires
        old(counter).wf(),
        redirects.wf(),
    ensures
        final(counter).wf(),
        final(counter)@ == apply_link_rows(
            link_rows_from(chunk@, 0, ns_values(to_nss@), ns_values(from_nss@)),
            redirects@,
            old(counter)@,
        ),
{
    let ghost s = chunk@;
    let ghost tvals = ns_values(to_nss@);
    let ghost fvals = ns_values(from_nss@);
    let ghost m0 = counter@;
    let mut i: usize = 0;
    while i < chunk.len()
        invariant
            i <= s.len(),
            chunk@ == s,
            tvals == ns_values(to_nss@),
            fvals == ns_values(from_nss@),
            counter.wf(),
            redirects.wf(),
            old(counter)@ == m0,
            apply_link_rows(link_rows_from(s, 0, tvals, fvals), redirects@, m0) == apply_link_rows(
                link_rows_from(s, i as int, tvals, fvals),
                redirects@,
                counter@,
            ),
        decreases s.len() - i,
    {
        match link_row_exec(chunk, i, to_nss, from_nss) {
            Some((p, tb, te, end)) => {
                let ghost rows = link_rows_from(s, i as int, tvals, fvals);
                proof {
                    assert(rows.drop_first() =~= link_rows_from(s, end as int, tvals, fvals));
                }
                let title = copy_range(chunk, tb, te);
                match redirects.get(p, &title) {
                    Some(target) => {
                        let target_title = target.clone();
                        counter.bump(p, target_title, true);
                    },
                    None => {
                        counter.bump(p, PageTitle(title), false);
                    },
                }
                i = end;
            },
            None => {
                i += 1;
            },
        }
    }
}

/// Pass 3: streams a `pagelinks` dump in record-aligned chunks through a
/// buffer pool and counts direct and indirect links, consuming the redirect
/// map. `namespaces` carries the from-set and the to-set, in that order.
///
/// Succeeds exactly when both namespace sets are non-empty and every
/// non-final chunk has a record boundary; the result is then the counter
/// that one left-to-right scan of the chunks produces.
pub fn count_links(
    source: Vec<u8>,
    redirects: RedirectMap,
    namespaces: (&Vec<PageNs>, &Vec<PageNs>),
    buffer_size: usize,
) -> (r: Result<LinkCounter, Error>)
    requires
        buffer_size >= 1,
        redirects.wf(),
    ensures
        match r {
            Ok(counter) => counter.wf() && spec_count_links(
                source@,
                buffer_size as int,
                ns_values(namespaces.0@),
                ns_values(namespaces.1@),
                redirects@,
            ) == Ok::<_, Error>(counter@),
            Err(e) => spec_count_links(
                source@,
                buffer_size as int,
                ns_values(namespaces.0@),
                ns_values(namespaces.1@),
                redirects@,
            ) == Err::<Map<(u32, Seq<u8>), LinkCount>, Error>(e),
        },
{
    let ghost t = buffer_size as int;
    let ghost fvals = ns_values(namespaces.0@);
    let ghost tvals = ns_values(namespaces.1@);
    let (from_nss, to_nss) = namespaces;
    if from_nss.len() == 0 || to_nss.len() == 0 {
        return Err(Error::PatternConstruction);
    }
    let workers = hardware_threads();
    let pool_size = if workers < usize::MAX {
        workers + 1
    } else {
        workers
    };
    let mut pool = BufferQueue::new(pool_size, buffer_size);
    let mut reader = ChunkedReader::new(source);
    let mut counter = LinkCounter::new();
    let mut finished = false;
    while !finished
        invariant
            buffer_size >= 1,
            t == buffer_size as int,
            fvals == ns_values(from_nss@),
            tvals == ns_values(to_nss@),
            fvals == ns_values(namespaces.0@),
            tvals == ns_values(namespaces.1@),
            fvals.len() > 0,
            tvals.len() > 0,
            reader.wf(),
            reader.pending() < buffer_size,
            counter.wf(),
            redirects.wf(),
            pool.wf(),
            pool.capacity() >= 1,
            pool.free_count() == pool.capacity(),
            finished == reader.is_exhausted(),
            finished ==> reader.rest() == Seq::<u8>::empty(),
            spec_link_pass(reader.rest(), t, tvals, fvals, redirects@, counter@) == spec_link_pass(
                source@,
                t,
                tvals,
                fvals,
                redirects@,
                Map::empty(),
            ),
        decreases reader.rest().len() + (if finished {
            0int
        } else {
            1int
        }),
    {
        let ghost rest0 = reader.rest();
        let ghost c0 = counter@;
        let mut buf = pool.pop();
        let res = reader.read_into(&mut buf.data, buffer_size);
        let more = match res {
            Ok(m) => m,
            Err(e) => {
                buf.release(&mut pool);
                proof {
                    assert(spec_link_pass(rest0, t, tvals, fvals, redirects@, c0) == Err::<
                        Map<(u32, Seq<u8>), LinkCount>,
                        Error,
                    >(Error::NoRecordBoundary));
                }
                return Err(e);
            },
        };
        proof {
            if more {
                crate::util::lemma_last_index_of(rest0.take(t), nl_byte());
                assert(rest0.take(t).len() == t);
            }
        }
        scan_link_chunk(&buf.data, from_nss, to_nss, &redirects, &mut counter);
        buf.release(&mut pool);
        proof {
            let nl = last_index_of(rest0.take(t), nl_byte());
            if more {
                assert(buf.data@ == rest0.take(nl + 1));
                assert(spec_link_pass(rest0, t, tvals, fvals, redirects@, c0) == spec_link_pass(
                    rest0.skip(nl + 1),
                    t,
                    tvals,
                    fvals,
                    redirects@,
                    apply_link_rows(
                        link_rows_from(rest0.take(nl + 1), 0, tvals, fvals),
                        redirects@,
                        c0,
                    ),
                ));
            } else {
                assert(rest0.len() < t);
                assert(spec_link_pass(rest0, t, tvals, fvals, redirects@, c0) == Ok::<_, Error>(
                    apply_link_rows(link_rows_from(rest0, 0, tvals, fvals), redirects@, c0),
                ));
            }
        }
        if !more {
            finished = true;
            proof {
                assert(link_rows_from(reader.rest(), 0, tvals, fvals) =~= Seq::<
                    (u32, Seq<u8>),
                >::empty());
                assert(spec_link_pass(reader.rest(), t, tvals, fvals, redirects@, counter@)
                    == Ok::<_, Error>(counter@));
            }
        }
    }
    Ok(counter)
}

} // verus!
