//! Pass 1: building the page directory from the `page` table dump.
//!
//! The directory maps `(namespace, id)` to the page's title, for pages whose
//! namespace is in the user's to-set and whose redirect flag is set — only
//! those pages can appear as sources in the `redirect` table, so filtering
//! here keeps the directory small. Duplicate keys are resolved last-write-
//! wins, matching the upstream dump's semantics.

use vstd::prelude::*;

use crate::Error;
use crate::buffer_queue::BufferQueue;
use crate::chunked_reader::ChunkedReader;
use crate::chunked_reader::nl_byte;
use crate::sql_rows::digits_val;
use crate::sql_rows::page_row_at;
use crate::sql_rows::parse_u32;
use crate::sql_rows::page_row_exec;
use crate::sql_rows::copy_range;
use crate::util::PageId;
use crate::util::PageNs;
use crate::util::PageTitle;
use crate::util::hardware_threads;
use crate::util::last_index_of;
use crate::util::ns_values;

verus! {

/// The key of a directory entry.
pub open spec fn dir_entry_key(e: ((PageNs, PageId), PageTitle)) -> (u32, u32) {
    (e.0.0.0, e.0.1.0)
}

/// No two entries share a key.
pub open spec fn dir_keys_distinct(s: Seq<((PageNs, PageId), PageTitle)>) -> bool {
    forall|i: int, j: int|
        0 <= i < j < s.len() ==> dir_entry_key(#[trigger] s[i]) != dir_entry_key(#[trigger] s[j])
}

/// The mapping a sequence of entries denotes; a later entry wins over an
/// earlier one with the same key.
pub open spec fn dir_entries_map(s: Seq<((PageNs, PageId), PageTitle)>) -> Map<
    (u32, u32),
    Seq<u8>,
>
    decreases s.len(),
{
    if s.len() == 0 {
        Map::empty()
    } else {
        dir_entries_map(s.drop_last()).insert(dir_entry_key(s.last()), s.last().1@)
    }
}

proof fn lemma_dir_entries_map_contains(s: Seq<((PageNs, PageId), PageTitle)>, k: (u32, u32))
    ensures
        dir_entries_map(s).contains_key(k) <==> exists|i: int|
            0 <= i < s.len() && dir_entry_key(#[trigger] s[i]) == k,
    decreases s.len(),
{
    if s.len() > 0 {
        lemma_dir_entries_map_contains(s.drop_last(), k);
        if dir_entries_map(s).contains_key(k) {
            if dir_entry_key(s.last()) == k {
                assert(dir_entry_key(s[s.len() - 1]) == k);
            } else {
                let i = choose|i: int|
                    0 <= i < s.len() - 1 && dir_entry_key(#[trigger] s.drop_last()[i]) == k;
                assert(dir_entry_key(s[i]) == k);
            }
        }
        if exists|i: int| 0 <= i < s.len() && dir_entry_key(#[trigger] s[i]) == k {
            let i = choose|i: int| 0 <= i < s.len() && dir_entry_key(#[trigger] s[i]) == k;
            if i < s.len() - 1 {
                assert(dir_entry_key(s.drop_last()[i]) == k);
            }
        }
    }
}

proof fn lemma_dir_entries_map_get(s: Seq<((PageNs, PageId), PageTitle)>, i: int)
    requires
        0 <= i < s.len(),
        dir_keys_distinct(s),
    ensures
        dir_entries_map(s).contains_key(dir_entry_key(s[i])),
        dir_entries_map(s)[dir_entry_key(s[i])] == s[i].1@,
    decreases s.len(),
{
    if i == s.len() - 1 {
    } else {
        assert(dir_keys_distinct(s.drop_last()));
        assert(s.drop_last()[i] == s[i]);
        lemma_dir_entries_map_get(s.drop_last(), i);
        assert(dir_entry_key(s[s.len() - 1]) != dir_entry_key(s[i]));
    }
}

proof fn lemma_dir_entries_map_update(
    s: Seq<((PageNs, PageId), PageTitle)>,
    i: int,
    e: ((PageNs, PageId), PageTitle),
)
    requires
        0 <= i < s.len(),
        dir_keys_distinct(s),
        dir_entry_key(e) == dir_entry_key(s[i]),
    ensures
        dir_entries_map(s.update(i, e)) =~= dir_entries_map(s).insert(dir_entry_key(e), e.1@),
    decreases s.len(),
{
    let t = s.update(i, e);
    if i == s.len() - 1 {
        assert(t.drop_last() =~= s.drop_last());
        assert(t.last() == e);
    } else {
        assert(t.drop_last() =~= s.drop_last().update(i, e));
        assert(s.drop_last()[i] == s[i]);
        assert(dir_keys_distinct(s.drop_last()));
        lemma_dir_entries_map_update(s.drop_last(), i, e);
        assert(t.last() == s.last());
        assert(dir_entry_key(s[s.len() - 1]) != dir_entry_key(s[i]));
    }
}

/// The page directory: `(namespace, id)` to title, built by pass 1.
pub struct PageDir {
    entries: Vec<((PageNs, PageId), PageTitle)>,
}

impl View for PageDir {
    type V = Map<(u32, u32), Seq<u8>>;

    closed spec fn view(&self) -> Map<(u32, u32), Seq<u8>> {
        dir_entries_map(self.entries@)
    }
}

impl PageDir {
    pub closed spec fn wf(&self) -> bool {
        dir_keys_distinct(self.entries@)
    }

    pub fn new() -> (r: Self)
        ensures
            r.wf(),
            r@ == Map::<(u32, u32), Seq<u8>>::empty(),
    {
        let r = PageDir { entries: Vec::new() };
        proof {
            assert(r@ =~= Map::<(u32, u32), Seq<u8>>::empty());
        }
        r
    }

    /// The title recorded for `(ns, id)`, if any.
    pub fn get(&self, ns: PageNs, id: PageId) -> (r: Option<&PageTitle>)
        requires
            self.wf(),
        ensures
            match r {
                Some(t) => self@.contains_key((ns.0, id.0)) && t@ == self@[(ns.0, id.0)],
                None => !self@.contains_key((ns.0, id.0)),
            },
    {
        let mut i: usize = 0;
        while i < self.entries.len()
            invariant
                i <= self.entries@.len(),
                dir_keys_distinct(self.entries@),
                forall|j: int|
                    0 <= j < i ==> dir_entry_key(#[trigger] self.entries@[j]) != (ns.0, id.0),
            decreases self.entries@.len() - i,
        {
            if self.entries[i].0.0.0 == ns.0 && self.entries[i].0.1.0 == id.0 {
                proof {
                    lemma_dir_entries_map_get(self.entries@, i as int);
                }
                return Some(&self.entries[i].1);
            }
            i += 1;
        }
        proof {
            lemma_dir_entries_map_contains(self.entries@, (ns.0, id.0));
        }
        None
    }

    /// Records `title` under `(ns, id)`; a later entry overwrites an earlier
    /// one with the same key.
    pub fn insert(&mut self, ns: PageNs, id: PageId, title: PageTitle)
        requires
            old(self).wf(),
        ensures
            final(self).wf(),
            final(self)@ == old(self)@.insert((ns.0, id.0), title@),
    {
        let ghost s0 = self.entries@;
        let mut i: usize = 0;
        while i < self.entries.len()
            invariant
                i <= self.entries@.len(),
                self.entries@ == s0,
                old(self).entries@ == s0,
                dir_keys_distinct(s0),
                forall|j: int| 0 <= j < i ==> dir_entry_key(#[trigger] s0[j]) != (ns.0, id.0),
            decreases self.entries@.len() - i,
        {
            if self.entries[i].0.0.0 == ns.0 && self.entries[i].0.1.0 == id.0 {
                let ghost t = title@;
                self.entries[i] = ((ns, id), title);
                proof {
                    lemma_dir_entries_map_update(s0, i as int, self.entries@[i as int]);
                    assert forall|a: int, b: int|
                        0 <= a < b < self.entries@.len() implies dir_entry_key(
                        #[trigger] self.entries@[a],
                    ) != dir_entry_key(#[trigger] self.entries@[b]) by {
                        assert(dir_entry_key(s0[a]) != dir_entry_key(s0[b]));
                    }
                }
                return ;
            }
            i += 1;
        }
        self.entries.push(((ns, id), title));
        proof {
            assert(self.entries@.drop_last() =~= s0);
            assert(final(self)@ =~= old(self)@.insert((ns.0, id.0), title@));
            assert forall|a: int, b: int|
                0 <= a < b < self.entries@.len() implies dir_entry_key(#[trigger] self.entries@[a])
                != dir_entry_key(#[trigger] self.entries@[b]) by {
                if b < self.entries@.len() - 1 {
                    assert(dir_entry_key(s0[a]) != dir_entry_key(s0[b]));
                }
            }
        }
    }
}

/// The raw `page` row matches of `s` from `i` on: leftmost first, resuming
/// past each match.
pub open spec fn page_rows_from(s: Seq<u8>, i: int, nss: Seq<u32>) -> Seq<(Seq<u8>, u32, Seq<u8>)>
    decreases s.len() - i,
{
    if i < 0 || i >= s.len() {
        Seq::empty()
    } else {
        match page_row_at(s, i, nss) {
            Some(m) => {
                // A match always ends past its start; the guard keeps the
                // recursion visibly decreasing.
                let next = if i < m.3 && m.3 <= s.len() {
                    m.3
                } else {
                    i + 1
                };
                seq![(m.0, m.1, m.2)] + page_rows_from(s, next, nss)
            },
            None => page_rows_from(s, i + 1, nss),
        }
    }
}

/// Folds converted `page` rows into the directory, in match order; an id that
/// does not fit the page-id range is a fatal conversion error.
pub open spec fn apply_page_rows(
    rows: Seq<(Seq<u8>, u32, Seq<u8>)>,
    m: Map<(u32, u32), Seq<u8>>,
) -> Result<Map<(u32, u32), Seq<u8>>, Error>
    decreases rows.len(),
{
    if rows.len() == 0 {
        Ok(m)
    } else {
        let (run, ns, title) = rows[0];
        if digits_val(run) > u32::MAX {
            Err(Error::Conversion)
        } else {
            apply_page_rows(rows.drop_first(), m.insert((ns, digits_val(run) as u32), title))
        }
    }
}

/// What pass 1 makes of the pending bytes `rest`, chunked at `t`, starting
/// from directory `m`.
pub open spec fn spec_page_pass(
    rest: Seq<u8>,
    t: int,
    nss: Seq<u32>,
    m: Map<(u32, u32), Seq<u8>>,
) -> Result<Map<(u32, u32), Seq<u8>>, Error>
    recommends
        t >= 1,
    decreases rest.len(),
    via spec_page_pass_decreases
{
    if t < 1 || rest.len() < t {
        apply_page_rows(page_rows_from(rest, 0, nss), m)
    } else {
        let nl = last_index_of(rest.take(t), nl_byte());
        if nl < 0 {
            Err(Error::NoRecordBoundary)
        } else {
            match apply_page_rows(page_rows_from(rest.take(nl + 1), 0, nss), m) {
                Err(e) => Err(e),
                Ok(m2) => spec_page_pass(rest.skip(nl + 1), t, nss, m2),
            }
        }
    }
}

#[via_fn]
proof fn spec_page_pass_decreases(rest: Seq<u8>, t: int, nss: Seq<u32>, m: Map<(u32, u32), Seq<u8>>) {
    if !(t < 1 || rest.len() < t) {
        crate::util::lemma_last_index_of(rest.take(t), nl_byte());
        assert(rest.take(t).len() == t);
    }
}

/// What pass 1 returns on a whole source: the directory of redirect-flagged
/// pages in the chosen namespaces, or the first error.
pub open spec fn spec_collect_pages(source: Seq<u8>, t: int, nss: Seq<u32>) -> Result<
    Map<(u32, u32), Seq<u8>>,
    Error,
> {
    if nss.len() == 0 {
        Err(Error::PatternConstruction)
    } else {
        spec_page_pass(source, t, nss, Map::empty())
    }
}

proof fn lemma_page_rows_ns(s: Seq<u8>, i: int, nss: Seq<u32>)
    ensures
        forall|j: int|
            0 <= j < page_rows_from(s, i, nss).len() ==> nss.contains(
                (#[trigger] page_rows_from(s, i, nss)[j]).1,
            ),
    decreases s.len() - i,
{
    if 0 <= i && i < s.len() {
        match page_row_at(s, i, nss) {
            Some(m) => {
                let next = if i < m.3 && m.3 <= s.len() {
                    m.3
                } else {
                    i + 1
                };
                lemma_page_rows_ns(s, next, nss);
                assert(nss.contains(m.1)) by {
                    assert(crate::sql_rows::row_head_at(s, i, nss) is Some);
                    let e1 = crate::sql_rows::digits_end(s, i + 1);
                    assert(e1 < s.len());
                    let e2 = crate::sql_rows::digits_end(s, e1 + 1);
                    assert(crate::sql_rows::ns_match(s.subrange(e1 + 1, e2), nss) is Some);
                    crate::sql_rows::lemma_ns_match_in_set(s.subrange(e1 + 1, e2), nss);
                    assert(m.1 == crate::sql_rows::ns_match(s.subrange(e1 + 1, e2), nss)->Some_0);
                }
                assert forall|j: int|
                    0 <= j < page_rows_from(s, i, nss).len() implies nss.contains(
                    (#[trigger] page_rows_from(s, i, nss)[j]).1,
                ) by {
                    if j > 0 {
                        assert(page_rows_from(s, i, nss)[j] == page_rows_from(s, next, nss)[j - 1]);
                    } else {
                        assert(page_rows_from(s, i, nss)[0] == (m.0, m.1, m.2));
                    }
                }
            },
            None => {
                lemma_page_rows_ns(s, i + 1, nss);
                assert forall|j: int|
                    0 <= j < page_rows_from(s, i, nss).len() implies nss.contains(
                    (#[trigger] page_rows_from(s, i, nss)[j]).1,
                ) by {
                    assert(page_rows_from(s, i, nss)[j] == page_rows_from(s, i + 1, nss)[j]);
                }
            },
        }
    }
}

proof fn lemma_apply_page_rows_ns(
    rows: Seq<(Seq<u8>, u32, Seq<u8>)>,
    m: Map<(u32, u32), Seq<u8>>,
    nss: Seq<u32>,
    m2: Map<(u32, u32), Seq<u8>>,
)
    requires
        forall|j: int| 0 <= j < rows.len() ==> nss.contains((#[trigger] rows[j]).1),
        forall|k: (u32, u32)| #[trigger] m.contains_key(k) ==> nss.contains(k.0),
        apply_page_rows(rows, m) == Ok::<_, Error>(m2),
    ensures
        forall|k: (u32, u32)| #[trigger] m2.contains_key(k) ==> nss.contains(k.0),
    decreases rows.len(),
{
    if rows.len() > 0 && digits_val(rows[0].0) <= u32::MAX {
        let m1 = m.insert((rows[0].1, digits_val(rows[0].0) as u32), rows[0].2);
        assert forall|j: int|
            0 <= j < rows.drop_first().len() implies nss.contains(
            (#[trigger] rows.drop_first()[j]).1,
        ) by {
            assert(rows.drop_first()[j] == rows[j + 1]);
        }
        lemma_apply_page_rows_ns(rows.drop_first(), m1, nss, m2);
    }
}

proof fn lemma_page_pass_ns(
    rest: Seq<u8>,
    t: int,
    nss: Seq<u32>,
    m: Map<(u32, u32), Seq<u8>>,
    m2: Map<(u32, u32), Seq<u8>>,
)
    requires
        forall|k: (u32, u32)| #[trigger] m.contains_key(k) ==> nss.contains(k.0),
        spec_page_pass(rest, t, nss, m) == Ok::<_, Error>(m2),
    ensures
        forall|k: (u32, u32)| #[trigger] m2.contains_key(k) ==> nss.contains(k.0),
    decreases rest.len(),
{
    if t < 1 || rest.len() < t {
        lemma_page_rows_ns(rest, 0, nss);
        lemma_apply_page_rows_ns(page_rows_from(rest, 0, nss), m, nss, m2);
    } else {
        crate::util::lemma_last_index_of(rest.take(t), nl_byte());
        assert(rest.take(t).len() == t);
        let nl = last_index_of(rest.take(t), nl_byte());
        if nl >= 0 {
            lemma_page_rows_ns(rest.take(nl + 1), 0, nss);
            match apply_page_rows(page_rows_from(rest.take(nl + 1), 0, nss), m) {
                Ok(mm) => {
                    lemma_apply_page_rows_ns(page_rows_from(rest.take(nl + 1), 0, nss), m, nss, mm);
                    lemma_page_pass_ns(rest.skip(nl + 1), t, nss, mm, m2);
                },
                Err(_) => {},
            }
        }
    }
}

/// Directory filtering: every key of a successfully built page directory has
/// its namespace in the user's namespace set.
pub proof fn lemma_directory_filtering(
    source: Seq<u8>,
    t: int,
    nss: Seq<u32>,
    m: Map<(u32, u32), Seq<u8>>,
)
    requires
        spec_collect_pages(source, t, nss) == Ok::<_, Error>(m),
    ensures
        forall|k: (u32, u32)| #[trigger] m.contains_key(k) ==> nss.contains(k.0),
{
    assert(nss.len() != 0);
    lemma_page_pass_ns(source, t, nss, Map::empty(), m);
}

/// Scans one record-aligned chunk for `page` rows and merges them into the
/// directory.
fn scan_page_chunk(chunk: &Vec<u8>, namespaces: &Vec<PageNs>, dir: &mut PageDir) -> (r: Result<
    (),
    Error,
>)
    requires
        old(dir).wf(),
    ensures
        final(dir).wf(),
        match r {
            Ok(()) => apply_page_rows(page_rows_from(chunk@, 0, ns_values(namespaces@)), old(dir)@)
                == Ok::<_, Error>(final(dir)@),
            Err(e) => apply_page_rows(page_rows_from(chunk@, 0, ns_values(namespaces@)), old(dir)@)
                == Err::<Map<(u32, u32), Seq<u8>>, Error>(e),
        },
{
    let ghost s = chunk@;
    let ghost vals = ns_values(namespaces@);
    let ghost m0 = dir@;
    let mut i: usize = 0;
    while i < chunk.len()
        invariant
            i <= s.len(),
            chunk@ == s,
            vals == ns_values(namespaces@),
            dir.wf(),
            old(dir)@ == m0,
            apply_page_rows(page_rows_from(s, 0, vals), m0) == apply_page_rows(
                page_rows_from(s, i as int, vals),
                dir@,
            ),
        decreases s.len() - i,
    {
        match page_row_exec(chunk, i, namespaces) {
            Some((d1, e1, p, tb, te, end)) => {
                let ghost rows = page_rows_from(s, i as int, vals);
                proof {
                    assert(rows.drop_first() =~= page_rows_from(s, end as int, vals));
                }
                match parse_u32(chunk, d1, e1) {
                    None => {
                        return Err(Error::Conversion);
                    },
                    Some(idv) => {
                        let title = copy_range(chunk, tb, te);
                        dir.insert(p, PageId(idv), PageTitle(title));
                        i = end;
                    },
                }
            },
            None => {
                i += 1;
            },
        }
    }
    Ok(())
}

/// Pass 1: streams a `page` dump in record-aligned chunks through a buffer
/// pool and builds the page directory.
///
/// Succeeds exactly when the namespace set is non-empty, every non-final
/// chunk has a record boundary, and every captured id fits the page-id
/// range; the result is then the directory that one left-to-right scan of
/// the chunks produces, last write winning on duplicate keys.
pub fn collect_pages(source: Vec<u8>, namespaces: &Vec<PageNs>, buffer_size: usize) -> (r: Result<
    PageDir,
    Error,
>)
    requires
        buffer_size >= 1,
    ensures
        match r {
            Ok(dir) => dir.wf() && spec_collect_pages(
                source@,
                buffer_size as int,
                ns_values(namespaces@),
            ) == Ok::<_, Error>(dir@),
            Err(e) => spec_collect_pages(source@, buffer_size as int, ns_values(namespaces@))
                == Err::<Map<(u32, u32), Seq<u8>>, Error>(e),
        },
{
    let ghost t = buffer_size as int;
    let ghost vals = ns_values(namespaces@);
    if namespaces.len() == 0 {
        return Err(Error::PatternConstruction);
    }
    let workers = hardware_threads();
    let pool_size = if workers < usize::MAX {
        workers + 1
    } else {
        workers
    };
    let mut pool = BufferQueue::new(pool_size, buffer_size);
    let mut reader = ChunkedReader::new(source);
    let mut dir = PageDir::new();
    let ghost src = source@;
    let mut finished = false;
    while !finished
        invariant
            buffer_size >= 1,
            t == buffer_size as int,
            src == source@,
            vals == ns_values(namespaces@),
            vals.len() > 0,
            reader.wf(),
            reader.pending() < buffer_size,
            dir.wf(),
            pool.wf(),
            pool.capacity() >= 1,
            pool.free_count() == pool.capacity(),
            finished == reader.is_exhausted(),
            finished ==> reader.rest() == Seq::<u8>::empty(),
            spec_page_pass(reader.rest(), t, vals, dir@) == spec_page_pass(
                src,
                t,
                vals,
                Map::empty(),
            ),
        decreases reader.rest().len() + (if finished {
            0int
        } else {
            1int
        }),
    {
        let ghost rest0 = reader.rest();
        let ghost dir0 = dir@;
        let mut buf = pool.pop();
        let res = reader.read_into(&mut buf.data, buffer_size);
        let more = match res {
            Ok(m) => m,
            Err(e) => {
                buf.release(&mut pool);
                proof {
                    assert(spec_page_pass(rest0, t, vals, dir0) == Err::<
                        Map<(u32, u32), Seq<u8>>,
                        Error,
                    >(Error::NoRecordBoundary));
                }
                return Err(e);
            },
        };
        proof {
            if more {
                crate::util::lemma_last_index_of(rest0.take(t), nl_byte());
                assert(rest0.take(t).len() == t);
            }
        }
        let scan = scan_page_chunk(&buf.data, namespaces, &mut dir);
        buf.release(&mut pool);
        proof {
            let nl = last_index_of(rest0.take(t), nl_byte());
            if more {
                assert(buf.data@ == rest0.take(nl + 1));
                assert(spec_page_pass(rest0, t, vals, dir0) == match apply_page_rows(
                    page_rows_from(rest0.take(nl + 1), 0, vals),
                    dir0,
                ) {
                    Err(e) => Err(e),
                    Ok(m2) => spec_page_pass(rest0.skip(nl + 1), t, vals, m2),
                });
            } else {
                assert(rest0.len() < t);
                assert(spec_page_pass(rest0, t, vals, dir0) == apply_page_rows(
                    page_rows_from(rest0, 0, vals),
                    dir0,
                ));
            }
        }
        match scan {
            Ok(()) => {},
            Err(e) => {
                return Err(e);
            },
        }
        if !more {
            finished = true;
            proof {
                assert(page_rows_from(reader.rest(), 0, vals) =~= Seq::<
                    (Seq<u8>, u32, Seq<u8>),
                >::empty());
                assert(spec_page_pass(reader.rest(), t, vals, dir@) == Ok::<_, Error>(dir@));
            }
        }
    }
    proof {
        assert(page_rows_from(reader.rest(), 0, vals) =~= Seq::<(Seq<u8>, u32, Seq<u8>)>::empty());
    }
    Ok(dir)
}

} // verus!
