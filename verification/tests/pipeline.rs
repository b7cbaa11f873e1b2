//! End-to-end scenarios over the three passes and the post-processing.

use wikidigest_link_count::link_count::LinkCount;
use wikidigest_link_count::page_table::collect_pages;
use wikidigest_link_count::pagelinks_table::count_links;
use wikidigest_link_count::redirect_table::map_redirects;
use wikidigest_link_count::util::write_plaintext;
use wikidigest_link_count::util::sort_pagelinks;
use wikidigest_link_count::util::PageNs;
use wikidigest_link_count::Error;

use flate2::read::GzDecoder;
use flate2::write::GzEncoder;
use flate2::Compression;
use std::io::Read;
use std::io::Write;

fn ns0() -> Vec<PageNs> {
    vec![PageNs(0)]
}

const CHUNK: usize = 1024;

#[test]
fn one_direct_link() {
    // One page row (not redirect-flagged, so ignored), no redirects, one link.
    let page = b"INSERT INTO page VALUES (10,0,'Alpha','',0,0,0,'20190101000000');\n".to_vec();
    let redirect = b"".to_vec();
    let pagelinks = b"INSERT INTO pagelinks VALUES (99,0,'Alpha',0);\n".to_vec();

    let dir = collect_pages(page, &ns0(), CHUNK).unwrap();
    let rd = map_redirects(redirect, dir, &ns0(), CHUNK).unwrap();
    let counter = count_links(pagelinks, rd, (&ns0(), &ns0()), CHUNK).unwrap();

    let c = counter.get(PageNs(0), &b"Alpha".to_vec()).unwrap();
    assert_eq!(c.direct, 1);
    assert_eq!(c.indirect, 0);

    let rows = sort_pagelinks(counter, 1);
    assert_eq!(rows.len(), 1);
    assert_eq!((rows[0].0).0, PageNs(0));
    assert_eq!((rows[0].0).1 .0, b"Alpha".to_vec());
    assert_eq!(rows[0].1.direct, 1);
    assert_eq!(rows[0].1.indirect, 0);

    let out = write_plaintext(&rows);
    let expected = "page title [namespace]  \u{2192}  links-total (direct + indirect)\n\n\
                    Alpha [0]  \u{2192}  1 (1 + 0)\n";
    assert_eq!(out, expected.as_bytes().to_vec());
}

#[test]
fn one_indirect_link_via_redirect() {
    // `Al` is a plain page; `Alpha` is redirect-flagged and resolves to `Al`,
    // so a link to `Alpha` is credited to `Al` as indirect.
    let page =
        b"INSERT INTO page VALUES (10,0,'Al','',0,0),(11,0,'Alpha','',1,0);\n".to_vec();
    let redirect = b"INSERT INTO redirect VALUES (11,0,'Al','','');\n".to_vec();
    let pagelinks = b"INSERT INTO pagelinks VALUES (99,0,'Alpha',0);\n".to_vec();

    let dir = collect_pages(page, &ns0(), CHUNK).unwrap();
    assert!(dir.get(PageNs(0), wikidigest_link_count::util::PageId(11)).is_some());
    assert!(dir.get(PageNs(0), wikidigest_link_count::util::PageId(10)).is_none());

    let rd = map_redirects(redirect, dir, &ns0(), CHUNK).unwrap();
    let counter = count_links(pagelinks, rd, (&ns0(), &ns0()), CHUNK).unwrap();

    let c = counter.get(PageNs(0), &b"Al".to_vec()).unwrap();
    assert_eq!(c.direct, 0);
    assert_eq!(c.indirect, 1);
    assert!(counter.get(PageNs(0), &b"Alpha".to_vec()).is_none());
}

#[test]
fn cutoff_filters_below_threshold() {
    // X gathers three links, Y one; with threshold 2 only X survives.
    let page = b"".to_vec();
    let redirect = b"".to_vec();
    let pagelinks = b"INSERT INTO pagelinks VALUES (1,0,'X',0),(2,0,'X',0),(3,0,'X',0),(4,0,'Y',0);\n"
        .to_vec();

    let dir = collect_pages(page, &ns0(), CHUNK).unwrap();
    let rd = map_redirects(redirect, dir, &ns0(), CHUNK).unwrap();
    let counter = count_links(pagelinks, rd, (&ns0(), &ns0()), CHUNK).unwrap();

    let rows = sort_pagelinks(counter, 2);
    assert_eq!(rows.len(), 1);
    assert_eq!((rows[0].0).1 .0, b"X".to_vec());
    assert_eq!(rows[0].1.direct, 3);
    assert_eq!(rows[0].1.indirect, 0);
}

#[test]
fn namespace_isolation() {
    // The same title in namespaces 0 and 1; with to-set {0} only the ns-0
    // variant is counted anywhere.
    let page = b"INSERT INTO page VALUES (1,0,'T','',1,0),(2,1,'T','',1,0);\n".to_vec();
    let redirect = b"".to_vec();
    let pagelinks = b"INSERT INTO pagelinks VALUES (9,0,'T',0),(9,1,'T',0);\n".to_vec();

    let dir = collect_pages(page, &ns0(), CHUNK).unwrap();
    assert!(dir.get(PageNs(0), wikidigest_link_count::util::PageId(1)).is_some());
    assert!(dir.get(PageNs(1), wikidigest_link_count::util::PageId(2)).is_none());

    let rd = map_redirects(redirect, dir, &ns0(), CHUNK).unwrap();
    let counter = count_links(pagelinks, rd, (&ns0(), &ns0()), CHUNK).unwrap();

    let c = counter.get(PageNs(0), &b"T".to_vec()).unwrap();
    assert_eq!((c.direct, c.indirect), (1, 0));
    assert!(counter.get(PageNs(1), &b"T".to_vec()).is_none());
}

#[test]
fn chunked_run_equals_single_chunk_run() {
    // A large pagelinks file processed with a small chunk size gives the same
    // ranked output as one big chunk.
    let mut pagelinks: Vec<u8> = Vec::new();
    let filler = b"-- filler comment line to pad the dump with uninteresting bytes\n";
    let mut row: usize = 0;
    while pagelinks.len() < 40 * 1024 * 1024 {
        if pagelinks.len() / (1024 * 1024) > row {
            row += 1;
            let line = format!(
                "INSERT INTO pagelinks VALUES ({},0,'Page_{}',0),({},0,'Common',0);\n",
                row,
                row % 12,
                row
            );
            pagelinks.extend_from_slice(line.as_bytes());
        } else {
            pagelinks.extend_from_slice(filler);
        }
    }

    let run = |input: Vec<u8>, chunk: usize| {
        let dir = collect_pages(b"".to_vec(), &ns0(), chunk).unwrap();
        let rd = map_redirects(b"".to_vec(), dir, &ns0(), chunk).unwrap();
        let counter = count_links(input, rd, (&ns0(), &ns0()), chunk).unwrap();
        let rows = sort_pagelinks(counter, 1);
        write_plaintext(&rows)
    };

    let small = run(pagelinks.clone(), 1024 * 1024);
    let large = run(pagelinks, 64 * 1024 * 1024);
    assert_eq!(small, large);
    assert!(small.len() > 0);
}

#[test]
fn gzip_round_trip_matches_plain() {
    // Decompressing a gzipped copy of the inputs gives byte-identical output;
    // the library always sees plain bytes, the adapter sits outside it.
    let page = b"INSERT INTO page VALUES (10,0,'Alpha','',0,0,0,'20190101000000');\n".to_vec();
    let redirect = b"".to_vec();
    let pagelinks = b"INSERT INTO pagelinks VALUES (99,0,'Alpha',0);\n".to_vec();

    let gz = |data: &[u8]| {
        let mut enc = GzEncoder::new(Vec::new(), Compression::default());
        enc.write_all(data).unwrap();
        enc.finish().unwrap()
    };
    let ungz = |data: &[u8]| {
        let mut dec = GzDecoder::new(data);
        let mut out = Vec::new();
        dec.read_to_end(&mut out).unwrap();
        out
    };

    let run = |page: Vec<u8>, redirect: Vec<u8>, pagelinks: Vec<u8>| {
        let dir = collect_pages(page, &ns0(), CHUNK).unwrap();
        let rd = map_redirects(redirect, dir, &ns0(), CHUNK).unwrap();
        let counter = count_links(pagelinks, rd, (&ns0(), &ns0()), CHUNK).unwrap();
        let rows = sort_pagelinks(counter, 1);
        write_plaintext(&rows)
    };

    let plain = run(page.clone(), redirect.clone(), pagelinks.clone());
    let roundtripped = run(ungz(&gz(&page)), ungz(&gz(&redirect)), ungz(&gz(&pagelinks)));
    assert_eq!(plain, roundtripped);
}

#[test]
fn empty_namespace_set_fails_pattern_construction() {
    let empty: Vec<PageNs> = Vec::new();
    let r = collect_pages(b"x\n".to_vec(), &empty, CHUNK);
    assert!(matches!(r, Err(Error::PatternConstruction)));

    let dir = collect_pages(b"".to_vec(), &ns0(), CHUNK).unwrap();
    let r = map_redirects(b"x\n".to_vec(), dir, &empty, CHUNK);
    assert!(matches!(r, Err(Error::PatternConstruction)));

    let dir = collect_pages(b"".to_vec(), &ns0(), CHUNK).unwrap();
    let rd = map_redirects(b"".to_vec(), dir, &ns0(), CHUNK).unwrap();
    let r = count_links(b"x\n".to_vec(), rd, (&empty, &ns0()), CHUNK);
    assert!(matches!(r, Err(Error::PatternConstruction)));
}

#[test]
fn oversized_page_id_is_a_conversion_error() {
    // The id digits exceed the page-id range: fatal, the dump is corrupt.
    let page = b"(99999999999,0,'Alpha','',1,0);\n".to_vec();
    let r = collect_pages(page, &ns0(), CHUNK);
    assert!(matches!(r, Err(Error::Conversion)));
}

#[test]
fn missing_record_boundary_is_fatal() {
    // A non-final chunk without any newline has no record-aligned cut.
    let page = b"aaaaaaaaaaaaaaaaaaaaaaaaaaaaaaaa".to_vec();
    let r = collect_pages(page, &ns0(), 8);
    assert!(matches!(r, Err(Error::NoRecordBoundary)));
}

#[test]
fn redirect_chain_is_not_chased() {
    // Alpha redirects to Beta, Beta redirects to Gamma; a link to Alpha is
    // credited to Beta only — one hop.
    let page = b"(1,0,'Alpha','',1,0),(2,0,'Beta','',1,0);\n".to_vec();
    let redirect = b"(1,0,'Beta','',''),(2,0,'Gamma','','');\n".to_vec();
    let pagelinks = b"(9,0,'Alpha',0);\n".to_vec();

    let dir = collect_pages(page, &ns0(), CHUNK).unwrap();
    let rd = map_redirects(redirect, dir, &ns0(), CHUNK).unwrap();
    let counter = count_links(pagelinks, rd, (&ns0(), &ns0()), CHUNK).unwrap();

    let c = counter.get(PageNs(0), &b"Beta".to_vec()).unwrap();
    assert_eq!((c.direct, c.indirect), (0, 1));
    assert!(counter.get(PageNs(0), &b"Gamma".to_vec()).is_none());
}

#[test]
fn ranking_orders_by_total_then_title() {
    let pagelinks =
        b"(1,0,'B',0),(2,0,'B',0),(3,0,'A',0),(4,0,'A',0),(5,0,'C',0);\n".to_vec();
    let dir = collect_pages(b"".to_vec(), &ns0(), CHUNK).unwrap();
    let rd = map_redirects(b"".to_vec(), dir, &ns0(), CHUNK).unwrap();
    let counter = count_links(pagelinks, rd, (&ns0(), &ns0()), CHUNK).unwrap();
    let rows = sort_pagelinks(counter, 1);
    let titles: Vec<Vec<u8>> = rows.iter().map(|r| (r.0).1 .0.clone()).collect();
    assert_eq!(titles, vec![b"A".to_vec(), b"B".to_vec(), b"C".to_vec()]);
    let totals: Vec<u32> = rows.iter().map(|r| r.1.total()).collect();
    assert_eq!(totals, vec![2, 2, 1]);
}

#[test]
fn duplicate_directory_keys_last_write_wins() {
    let page = b"(7,0,'First','',1,0),(7,0,'Second','',1,0);\n".to_vec();
    let dir = collect_pages(page, &ns0(), CHUNK).unwrap();
    let t = dir.get(PageNs(0), wikidigest_link_count::util::PageId(7)).unwrap();
    assert_eq!(t.0, b"Second".to_vec());
}

#[test]
fn escaped_quote_stays_in_title() {
    // The capture keeps the backslash escape; keys compare byte-wise.
    let pagelinks = b"(1,0,'O\\'Brien',0);\n".to_vec();
    let dir = collect_pages(b"".to_vec(), &ns0(), CHUNK).unwrap();
    let rd = map_redirects(b"".to_vec(), dir, &ns0(), CHUNK).unwrap();
    let counter = count_links(pagelinks, rd, (&ns0(), &ns0()), CHUNK).unwrap();
    let c = counter.get(PageNs(0), &b"O\\'Brien".to_vec()).unwrap();
    assert_eq!((c.direct, c.indirect), (1, 0));
}

#[test]
fn saturating_total() {
    let c = LinkCount::new(u32::MAX, 5);
    assert_eq!(c.total(), u32::MAX);
    let mut c2 = LinkCount::new(u32::MAX - 1, 0);
    c2.add_assign(LinkCount::new(7, 3));
    assert_eq!(c2.direct, u32::MAX);
    assert_eq!(c2.indirect, 3);
}
