//! Pass 2: building the redirect map from the `redirect` table dump.
//!
//! The map sends `(namespace, source_title)` to the redirect's target title.
//! A row is kept only when its `(namespace, source_id)` is present in the
//! page directory of pass 1 — the directory supplies the source title, and
//! rows whose source was filtered out upstream are skipped silently.
//! Duplicate keys are resolved last-write-wins.

use vstd::prelude::*;

use crate::Error;
use crate::buffer_queue::BufferQueue;
use crate::chunked_reader::ChunkedReader;
use crate::chunked_reader::nl_byte;
use crate::page_table::PageDir;
use crate::sql_rows::digits_val;
use crate::sql_rows::redirect_row_at;
use crate::sql_rows::parse_u32;
use crate::sql_rows::redirect_row_exec;
use crate::sql_rows::copy_range;
use crate::util::PageId;
use crate::util::PageNs;
use crate::util::PageTitle;
use crate::util::hardware_threads;
use crate::util::last_index_of;
use crate::util::ns_values;

verus! {

/// The key of a redirect entry.
pub open spec fn rd_entry_key(e: ((PageNs, PageTitle), PageTitle)) -> (u32, Seq<u8>) {
    (e.0.0.0, e.0.1@)
}

/// No two entries share a key.
pub open spec fn rd_keys_distinct(s: Seq<((PageNs, PageTitle), PageTitle)>) -> bool {
    forall|i: int, j: int|
        0 <= i < j < s.len() ==> rd_entry_key(#[trigger] s[i]) != rd_entry_key(#[trigger] s[j])
}

/// The mapping a sequence of entries denotes; a later entry wins over an
/// earlier one with the same key.
pub open spec fn rd_entries_map(s: Seq<((PageNs, PageTitle), PageTitle)>) -> Map<
    (u32, Seq<u8>),
    Seq<u8>,
>
    decreases s.len(),
{
    if s.len() == 0 {
        Map::empty()
    } else {
        rd_entries_map(s.drop_last()).insert(rd_entry_key(s.last()), s.last().1@)
    }
}

proof fn lemma_rd_entries_map_contains(s: Seq<((PageNs, PageTitle), PageTitle)>, k: (u32, Seq<u8>))
    ensures
        rd_entries_map(s).contains_key(k) <==> exists|i: int|
            0 <= i < s.len() && rd_entry_key(#[trigger] s[i]) == k,
    decreases s.len(),
{
    if s.len() > 0 {
        lemma_rd_entries_map_contains(s.drop_last(), k);
        if rd_entries_map(s).contains_key(k) {
            if rd_entry_key(s.last()) == k {
                assert(rd_entry_key(s[s.len() - 1]) == k);
            } else {
                let i = choose|i: int|
                    0 <= i < s.len() - 1 && rd_entry_key(#[trigger] s.drop_last()[i]) == k;
                assert(rd_entry_key(s[i]) == k);
            }
        }
        if exists|i: int| 0 <= i < s.len() && rd_entry_key(#[trigger] s[i]) == k {
            let i = choose|i: int| 0 <= i < s.len() && rd_entry_key(#[trigger] s[i]) == k;
            if i < s.len() - 1 {
                assert(rd_entry_key(s.drop_last()[i]) == k);
            }
        }
    }
}

proof fn lemma_rd_entries_map_get(s: Seq<((PageNs, PageTitle), PageTitle)>, i: int)
    requires
        0 <= i < s.len(),
        rd_keys_distinct(s),
    ensures
        rd_entries_map(s).contains_key(rd_entry_key(s[i])),
        rd_entries_map(s)[rd_entry_key(s[i])] == s[i].1@,
    decreases s.len(),
{
    if i == s.len() - 1 {
    } else {
        assert(rd_keys_distinct(s.drop_last()));
        assert(s.drop_last()[i] == s[i]);
        lemma_rd_entries_map_get(s.drop_last(), i);
        assert(rd_entry_key(s[s.len() - 1]) != rd_entry_key(s[i]));
    }
}

proof fn lemma_rd_entries_map_update(
    s: Seq<((PageNs, PageTitle), PageTitle)>,
    i: int,
    e: ((PageNs, PageTitle), PageTitle),
)
    requires
        0 <= i < s.len(),
        rd_keys_distinct(s),
        rd_entry_key(e) == rd_entry_key(s[i]),
    ensures
        rd_entries_map(s.update(i, e)) =~= rd_entries_map(s).insert(rd_entry_key(e), e.1@),
    decreases s.len(),
{
    let t = s.update(i, e);
    if i == s.len() - 1 {
        assert(t.drop_last() =~= s.drop_last());
        assert(t.last() == e);
    } else {
        assert(t.drop_last() =~= s.drop_last().update(i, e));
        assert(s.drop_last()[i] == s[i]);
        assert(rd_keys_distinct(s.drop_last()));
        lemma_rd_entries_map_update(s.drop_last(), i, e);
        assert(t.last() == s.last());
        assert(rd_entry_key(s[s.len() - 1]) != rd_entry_key(s[i]));
    }
}

/// The redirect map: `(namespace, source title)` to target title, built by
/// pass 2 and consumed read-only by pass 3.
pub struct RedirectMap {
    entries: Vec<((PageNs, PageTitle), PageTitle)>,
}

impl View for RedirectMap {
    type V = Map<(u32, Seq<u8>), Seq<u8>>;

    closed spec fn view(&self) -> Map<(u32, Seq<u8>), Seq<u8>> {
        rd_entries_map(self.entries@)
    }
}

impl RedirectMap {
    pub closed spec fn wf(&self) -> bool {
        rd_keys_distinct(self.entries@)
    }

    pub fn new() -> (r: Self)
        ensures
            r.wf(),
            r@ == Map::<(u32, Seq<u8>), Seq<u8>>::empty(),
    {
        let r = RedirectMap { entries: Vec::new() };
        proof {
            assert(r@ =~= Map::<(u32, Seq<u8>), Seq<u8>>::empty());
        }
        r
    }

    /// The redirect target recorded for `(ns, title)`, probing with borrowed
    /// title bytes so a lookup allocates nothing.
    pub fn get(&self, ns: PageNs, title: &Vec<u8>) -> (r: Option<&PageTitle>)
        requires
            self.wf(),
        ensures
            match r {
                Some(t) => self@.contains_key((ns.0, title@)) && t@ == self@[(ns.0, title@)],
                None => !self@.contains_key((ns.0, title@)),
            },
    {
        let mut i: usize = 0;
        while i < self.entries.len()
            invariant
                i <= self.entries@.len(),
                rd_keys_distinct(self.entries@),
                forall|j: int|
                    0 <= j < i ==> rd_entry_key(#[trigger] self.entries@[j]) != (ns.0, title@),
            decreases self.entries@.len() - i,
        {
            if self.entries[i].0.0.0 == ns.0 && self.entries[i].0.1.eq_title_bytes(title) {
                proof {
                    lemma_rd_entries_map_get(self.entries@, i as int);
                }
                return Some(&self.entries[i].1);
            }
            i += 1;
        }
        proof {
            lemma_rd_entries_map_contains(self.entries@, (ns.0, title@));
        }
        None
    }

    /// Records `target` under `(ns, source)`; a later entry overwrites an
    /// earlier one with the same key.
    pub fn insert(&mut self, ns: PageNs, source: PageTitle, target: PageTitle)
        requires
            old(self).wf(),
        ensures
            final(self).wf(),
            final(self)@ == old(self)@.insert((ns.0, source@), target@),
    {
        let ghost s0 = self.entries@;
        let mut i: usize = 0;
        while i < self.entries.len()
            invariant
                i <= self.entries@.len(),
                self.entries@ == s0,
                old(self).entries@ == s0,
                rd_keys_distinct(s0),
                forall|j: int| 0 <= j < i ==> rd_entry_key(#[trigger] s0[j]) != (ns.0, source@),
            decreases self.entries@.len() - i,
        {
            if self.entries[i].0.0.0 == ns.0 && self.entries[i].0.1.eq_title_bytes(&source.0) {
                self.entries[i] = ((ns, source), target);
                proof {
                    lemma_rd_entries_map_update(s0, i as int, self.entries@[i as int]);
                    assert forall|a: int, b: int|
                        0 <= a < b < self.entries@.len() implies rd_entry_key(
                        #[trigger] self.entries@[a],
                    ) != rd_entry_key(#[trigger] self.entries@[b]) by {
                        assert(rd_entry_key(s0[a]) != rd_entry_key(s0[b]));
                    }
                }
                return ;
            }
            i += 1;
        }
        self.entries.push(((ns, source), target));
        proof {
            assert(self.entries@.drop_last() =~= s0);
            assert(final(self)@ =~= old(self)@.insert((ns.0, source@), target@));
            assert forall|a: int, b: int|
                0 <= a < b < self.entries@.len() implies rd_entry_key(#[trigger] self.entries@[a])
                != rd_entry_key(#[trigger] self.entries@[b]) by {
                if b < self.entries@.len() - 1 {
                    assert(rd_entry_key(s0[a]) != rd_entry_key(s0[b]));
                }
            }
        }
    }
}

/// The raw `redirect` row matches of `s` from `i` on: leftmost first,
/// resuming past each match.
pub open spec fn redirect_rows_from(s: Seq<u8>, i: int, nss: Seq<u32>) -> Seq<
    (Seq<u8>, u32, Seq<u8>),
>
    decreases s.len() - i,
{
    if i < 0 || i >= s.len() {
        Seq::empty()
    } else {
        match redirect_row_at(s, i, nss) {
            Some(m) => {
                // A match always ends past its start; the guard keeps the
                // recursion visibly decreasing.
                let next = if i < m.3 && m.3 <= s.len() {
                    m.3
                } else {
                    i + 1
                };
                seq![(m.0, m.1, m.2)] + redirect_rows_from(s, next, nss)
            },
            None => redirect_rows_from(s, i + 1, nss),
        }
    }
}

/// Folds converted `redirect` rows into the map, in match order: a row whose
/// source `(ns, id)` the page directory knows contributes the mapping from
/// that source's title to the row's target title; other rows are skipped.
pub open spec fn apply_redirect_rows(
    rows: Seq<(Seq<u8>, u32, Seq<u8>)>,
    dirm: Map<(u32, u32), Seq<u8>>,
    m: Map<(u32, Seq<u8>), Seq<u8>>,
) -> Result<Map<(u32, Seq<u8>), Seq<u8>>, Error>
    decreases rows.len(),
{
    if rows.len() == 0 {
        Ok(m)
    } else {
        let (run, ns, target) = rows[0];
        if digits_val(run) > u32::MAX {
            Err(Error::Conversion)
        } else {
            let k = (ns, digits_val(run) as u32);
            if dirm.contains_key(k) {
                apply_redirect_rows(rows.drop_first(), dirm, m.insert((ns, dirm[k]), target))
            } else {
                apply_redirect_rows(rows.drop_first(), dirm, m)
            }
        }
    }
}

/// What pass 2 makes of the pending bytes `rest`, chunked at `t`, starting
/// from map `m`.
pub open spec fn spec_redirect_pass(
    rest: Seq<u8>,
    t: int,
    nss: Seq<u32>,
    dirm: Map<(u32, u32), Seq<u8>>,
    m: Map<(u32, Seq<u8>), Seq<u8>>,
) -> Result<Map<(u32, Seq<u8>), Seq<u8>>, Error>
    recommends
        t >= 1,
    decreases rest.len(),
    via spec_redirect_pass_decreases
{
    if t < 1 || rest.len() < t {
        apply_redirect_rows(redirect_rows_from(rest, 0, nss), dirm, m)
    } else {
        let nl = last_index_of(rest.take(t), nl_byte());
        if nl < 0 {
            Err(Error::NoRecordBoundary)
        } else {
            match apply_redirect_rows(redirect_rows_from(rest.take(nl + 1), 0, nss), dirm, m) {
                Err(e) => Err(e),
                Ok(m2) => spec_redirect_pass(rest.skip(nl + 1), t, nss, dirm, m2),
            }
        }
    }
}

#[via_fn]
proof fn spec_redirect_pass_decreases(
    rest: Seq<u8>,
    t: int,
    nss: Seq<u32>,
    dirm: Map<(u32, u32), Seq<u8>>,
    m: Map<(u32, Seq<u8>), Seq<u8>>,
) {
    if !(t < 1 || rest.len() < t) {
        crate::util::lemma_last_index_of(rest.take(t), nl_byte());
        assert(rest.take(t).len() == t);
    }
}

/// What pass 2 returns on a whole source: the redirect map joined against the
/// page directory, or the first error.
pub open spec fn spec_map_redirects(
    source: Seq<u8>,
    t: int,
    nss: Seq<u32>,
    dirm: Map<(u32, u32), Seq<u8>>,
) -> Result<Map<(u32, Seq<u8>), Seq<u8>>, Error> {
    if nss.len() == 0 {
        Err(Error::PatternConstruction)
    } else {
        spec_redirect_pass(source, t, nss, dirm, Map::empty())
    }
}

proof fn lemma_apply_redirect_rows_closure(
    rows: Seq<(Seq<u8>, u32, Seq<u8>)>,
    dirm: Map<(u32, u32), Seq<u8>>,
    m: Map<(u32, Seq<u8>), Seq<u8>>,
    m2: Map<(u32, Seq<u8>), Seq<u8>>,
)
    requires
        forall|k: (u32, Seq<u8>)|
            #[trigger] m.contains_key(k) ==> exists|id: u32|
                dirm.contains_key((k.0, id)) && dirm[(k.0, id)] == k.1,
        apply_redirect_rows(rows, dirm, m) == Ok::<_, Error>(m2),
    ensures
        forall|k: (u32, Seq<u8>)|
            #[trigger] m2.contains_key(k) ==> exists|id: u32|
                dirm.contains_key((k.0, id)) && dirm[(k.0, id)] == k.1,
    decreases rows.len(),
{
    if rows.len() > 0 && digits_val(rows[0].0) <= u32::MAX {
        let (run, ns, target) = rows[0];
        let idv = digits_val(run) as u32;
        if dirm.contains_key((ns, idv)) {
            let m1 = m.insert((ns, dirm[(ns, idv)]), target);
            assert forall|k: (u32, Seq<u8>)| #[trigger] m1.contains_key(k) implies exists|id: u32|
                dirm.contains_key((k.0, id)) && dirm[(k.0, id)] == k.1 by {
                if k == (ns, dirm[(ns, idv)]) {
                    assert(dirm.contains_key((k.0, idv)) && dirm[(k.0, idv)] == k.1);
                }
            }
            lemma_apply_redirect_rows_closure(rows.drop_first(), dirm, m1, m2);
        } else {
            lemma_apply_redirect_rows_closure(rows.drop_first(), dirm, m, m2);
        }
    }
}

proof fn lemma_redirect_pass_closure(
    rest: Seq<u8>,
    t: int,
    nss: Seq<u32>,
    dirm: Map<(u32, u32), Seq<u8>>,
    m: Map<(u32, Seq<u8>), Seq<u8>>,
    m2: Map<(u32, Seq<u8>), Seq<u8>>,
)
    requires
        forall|k: (u32, Seq<u8>)|
            #[trigger] m.contains_key(k) ==> exists|id: u32|
                dirm.contains_key((k.0, id)) && dirm[(k.0, id)] == k.1,
        spec_redirect_pass(rest, t, nss, dirm, m) == Ok::<_, Error>(m2),
    ensures
        forall|k: (u32, Seq<u8>)|
            #[trigger] m2.contains_key(k) ==> exists|id: u32|
                dirm.contains_key((k.0, id)) && dirm[(k.0, id)] == k.1,
    decreases rest.len(),
{
    if t < 1 || rest.len() < t {
        lemma_apply_redirect_rows_closure(redirect_rows_from(rest, 0, nss), dirm, m, m2);
    } else {
        crate::util::lemma_last_index_of(rest.take(t), nl_byte());
        assert(rest.take(t).len() == t);
        let nl = last_index_of(rest.take(t), nl_byte());
        if nl >= 0 {
            match apply_redirect_rows(redirect_rows_from(rest.take(nl + 1), 0, nss), dirm, m) {
                Ok(mm) => {
                    lemma_apply_redirect_rows_closure(
                        redirect_rows_from(rest.take(nl + 1), 0, nss),
                        dirm,
                        m,
                        mm,
                    );
                    lemma_redirect_pass_closure(rest.skip(nl + 1), t, nss, dirm, mm, m2);
                },
                Err(_) => {},
            }
        }
    }
}

/// Redirect closure on the directory: every key `(ns, source_title)` of a
/// successfully built redirect map names a page of the directory — some
/// `(ns, id)` is present there with exactly that title.
pub proof fn lemma_redirect_closure(
    source: Seq<u8>,
    t: int,
    nss: Seq<u32>,
    dirm: Map<(u32, u32), Seq<u8>>,
    m: Map<(u32, Seq<u8>), Seq<u8>>,
)
    requires
        spec_map_redirects(source, t, nss, dirm) == Ok::<_, Error>(m),
    ensures
        forall|k: (u32, Seq<u8>)|
            #[trigger] m.contains_key(k) ==> exists|id: u32|
                dirm.contains_key((k.0, id)) && dirm[(k.0, id)] == k.1,
{
    assert(nss.len() != 0);
    lemma_redirect_pass_closure(source, t, nss, dirm, Map::empty(), m);
}

/// Scans one record-aligned chunk for `redirect` rows and merges the resolved
/// ones into the map.
fn scan_redirect_chunk(
    chunk: &Vec<u8>,
    namespaces: &Vec<PageNs>,
    pages: &PageDir,
    rd: &mut RedirectMap,
) -> (r: Result<(), Error>)
    requires
        old(rd).wf(),
        pages.wf(),
    ensures
        final(rd).wf(),
        match r {
            Ok(()) => apply_redirect_rows(
                redirect_rows_from(chunk@, 0, ns_values(namespaces@)),
                pages@,
                old(rd)@,
            ) == Ok::<_, Error>(final(rd)@),
            Err(e) => apply_redirect_rows(
                redirect_rows_from(chunk@, 0, ns_values(namespaces@)),
                pages@,
                old(rd)@,
            ) == Err::<Map<(u32, Seq<u8>), Seq<u8>>, Error>(e),
        },
{
    let ghost s = chunk@;
    let ghost vals = ns_values(namespaces@);
    let ghost m0 = rd@;
    let mut i: usize = 0;
    while i < chunk.len()
        invariant
            i <= s.len(),
            chunk@ == s,
            vals == ns_values(namespaces@),
            rd.wf(),
            pages.wf(),
            old(rd)@ == m0,
            apply_redirect_rows(redirect_rows_from(s, 0, vals), pages@, m0) == apply_redirect_rows(
                redirect_rows_from(s, i as int, vals),
                pages@,
                rd@,
            ),
        decreases s.len() - i,
    {
        match redirect_row_exec(chunk, i, namespaces) {
            Some((d1, e1, p, tb, te, end)) => {
                let ghost rows = redirect_rows_from(s, i as int, vals);
                proof {
                    assert(rows.drop_first() =~= redirect_rows_from(s, end as int, vals));
                }
                match parse_u32(chunk, d1, e1) {
                    None => {
                        return Err(Error::Conversion);
                    },
                    Some(idv) => {
                        match pages.get(p, PageId(idv)) {
                            Some(source_title) => {
                                let src = source_title.clone();
                                let target = copy_range(chunk, tb, te);
                                rd.insert(p, src, PageTitle(target));
                            },
                            None => {},
                        }
                        i = end;
                    },
                }
            },
            None => {
                i += 1;
            },
        }
    }
    Ok(())
}

/// Pass 2: streams a `redirect` dump in record-aligned chunks through a
/// buffer pool and builds the redirect map, consuming the page directory.
///
/// Succeeds exactly when the namespace set is non-empty, every non-final
/// chunk has a record boundary, and every captured source id fits the
/// page-id range; the result is then the join of the scanned rows against
/// the directory, last write winning on duplicate keys.
pub fn map_redirects(
    source: Vec<u8>,
    pages: PageDir,
    namespaces: &Vec<PageNs>,
    buffer_size: usize,
) -> (r: Result<RedirectMap, Error>)
    requires
        buffer_size >= 1,
        pages.wf(),
    ensures
        match r {
            Ok(rd) => rd.wf() && spec_map_redirects(
                source@,
                buffer_size as int,
                ns_values(namespaces@),
                pages@,
            ) == Ok::<_, Error>(rd@),
            Err(e) => spec_map_redirects(
                source@,
                buffer_size as int,
                ns_values(namespaces@),
                pages@,
            ) == Err::<Map<(u32, Seq<u8>), Seq<u8>>, Error>(e),
        },
{
    let ghost t = buffer_size as int;
    let ghost vals = ns_values(namespaces@);
    if namespaces.len() == 0 {
        return Err(Error::PatternConstruction);
    }
    let workers = hardware_threads();
    let pool_size = if workers < usize::MAX {
        workers + 1
    } else {
        workers
    };
    let mut pool = BufferQueue::new(pool_size, buffer_size);
    let mut reader = ChunkedReader::new(source);
    let mut rd = RedirectMap::new();
    let mut finished = false;
    while !finished
        invariant
            buffer_size >= 1,
            t == buffer_size as int,
            vals == ns_values(namespaces@),
            vals.len() > 0,
            reader.wf(),
            reader.pending() < buffer_size,
            rd.wf(),
            pages.wf(),
            pool.wf(),
            pool.capacity() >= 1,
            pool.free_count() == pool.capacity(),
            finished == reader.is_exhausted(),
            finished ==> reader.rest() == Seq::<u8>::empty(),
            spec_redirect_pass(reader.rest(), t, vals, pages@, rd@) == spec_redirect_pass(
                source@,
                t,
                vals,
                pages@,
                Map::empty(),
            ),
        decreases reader.rest().len() + (if finished {
            0int
        } else {
            1int
        }),
    {
        let ghost rest0 = reader.rest();
        let ghost rd0 = rd@;
        let mut buf = pool.pop();
        let res = reader.read_into(&mut buf.data, buffer_size);
        let more = match res {
            Ok(m) => m,
            Err(e) => {
                buf.release(&mut pool);
                proof {
                    assert(spec_redirect_pass(rest0, t, vals, pages@, rd0) == Err::<
                        Map<(u32, Seq<u8>), Seq<u8>>,
                        Error,
                    >(Error::NoRecordBoundary));
                }
                return Err(e);
            },
        };
        proof {
            if more {
                crate::util::lemma_last_index_of(rest0.take(t), nl_byte());
                assert(rest0.take(t).len() == t);
            }
        }
        let scan = scan_redirect_chunk(&buf.data, namespaces, &pages, &mut rd);
        buf.release(&mut pool);
        proof {
            let nl = last_index_of(rest0.take(t), nl_byte());
            if more {
                assert(buf.data@ == rest0.take(nl + 1));
                assert(spec_redirect_pass(rest0, t, vals, pages@, rd0) == match apply_redirect_rows(
                    redirect_rows_from(rest0.take(nl + 1), 0, vals),
                    pages@,
                    rd0,
                ) {
                    Err(e) => Err(e),
                    Ok(m2) => spec_redirect_pass(rest0.skip(nl + 1), t, vals, pages@, m2),
                });
            } else {
                assert(rest0.len() < t);
                assert(spec_redirect_pass(rest0, t, vals, pages@, rd0) == apply_redirect_rows(
                    redirect_rows_from(rest0, 0, vals),
                    pages@,
                    rd0,
                ));
            }
        }
        match scan {
            Ok(()) => {},
            Err(e) => {
                return Err(e);
            },
        }
        if !more {
            finished = true;
            proof {
                assert(redirect_rows_from(reader.rest(), 0, vals) =~= Seq::<
                    (Seq<u8>, u32, Seq<u8>),
                >::empty());
                assert(spec_redirect_pass(reader.rest(), t, vals, pages@, rd@) == Ok::<_, Error>(
                    rd@,
                ));
            }
        }
    }
    Ok(rd)
}

} // verus!
