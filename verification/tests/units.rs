//! Component-level checks: the chunked reader's boundary behaviour, the
//! buffer pool, and the small utilities.

use wikidigest_link_count::buffer_queue::BufferQueue;
use wikidigest_link_count::chunked_reader::ChunkedReader;
use wikidigest_link_count::link_count::LinkCount;
use wikidigest_link_count::util::build_output_filename;
use wikidigest_link_count::util::is_probably_gzip;
use wikidigest_link_count::util::namespaces_to_string;
use wikidigest_link_count::util::write_markdown;
use wikidigest_link_count::util::write_wikitext;
use wikidigest_link_count::util::ExportFormat;
use wikidigest_link_count::util::PageNs;
use wikidigest_link_count::util::PageTitle;
use wikidigest_link_count::Error;

#[test]
fn single_small_record_is_one_final_chunk() {
    let mut reader = ChunkedReader::new(b"one record\n".to_vec());
    let mut buf: Vec<u8> = Vec::new();
    let more = reader.read_into(&mut buf, 1024).unwrap();
    assert!(!more);
    assert_eq!(buf, b"one record\n".to_vec());
    // Once exhausted, further calls stay final and hand out nothing.
    let more = reader.read_into(&mut buf, 1024).unwrap();
    assert!(!more);
    assert!(buf.is_empty());
}

#[test]
fn exact_multiple_ends_with_zero_byte_final_read() {
    // Eight bytes, chunked at eight: one full aligned chunk, then a final
    // empty one produced by the zero-byte read.
    let mut reader = ChunkedReader::new(b"abcd\nef\n".to_vec());
    let mut buf: Vec<u8> = Vec::new();
    let more = reader.read_into(&mut buf, 8).unwrap();
    assert!(more);
    assert_eq!(buf, b"abcd\nef\n".to_vec());
    let more = reader.read_into(&mut buf, 8).unwrap();
    assert!(!more);
    assert!(buf.is_empty());
}

#[test]
fn chunks_end_at_newlines_and_concatenate_back() {
    let source = b"alpha\nbeta\ngamma\ndelta\n".to_vec();
    let mut reader = ChunkedReader::new(source.clone());
    let mut collected: Vec<u8> = Vec::new();
    let mut chunks: Vec<Vec<u8>> = Vec::new();
    loop {
        let mut buf: Vec<u8> = Vec::new();
        let more = reader.read_into(&mut buf, 8).unwrap();
        collected.extend_from_slice(&buf);
        chunks.push(buf);
        if !more {
            break;
        }
    }
    assert_eq!(collected, source);
    for c in &chunks[..chunks.len() - 1] {
        assert_eq!(*c.last().unwrap(), b'\n');
    }
}

#[test]
fn missing_newline_in_full_chunk_is_rejected() {
    let mut reader = ChunkedReader::new(b"0123456789".to_vec());
    let mut buf: Vec<u8> = Vec::new();
    let r = reader.read_into(&mut buf, 4);
    assert!(matches!(r, Err(Error::NoRecordBoundary)));
}

#[test]
fn owned_chunks_match_read_into() {
    let mut reader = ChunkedReader::new(b"aa\nbb\ncc\n".to_vec());
    let c1 = reader.read(4).unwrap().unwrap();
    assert_eq!(c1, b"aa\n".to_vec());
    let c2 = reader.read(4).unwrap().unwrap();
    assert_eq!(c2, b"bb\n".to_vec());
    let c3 = reader.read(4).unwrap().unwrap();
    assert_eq!(c3, b"cc\n".to_vec());
    assert!(reader.read(4).unwrap().is_none());
}

#[test]
fn pool_leases_cycle_through_the_free_list() {
    let mut pool = BufferQueue::new(2, 16);
    let a = pool.pop();
    let b = pool.pop();
    assert_ne!(a.id, b.id);
    let first = a.id;
    a.release(&mut pool);
    b.release(&mut pool);
    // FIFO: the slot released first comes back first.
    let c = pool.pop();
    assert_eq!(c.id, first);
    c.release(&mut pool);
}

#[test]
fn leased_buffers_keep_their_bytes_private() {
    let mut pool = BufferQueue::new(1, 4);
    let mut a = pool.pop();
    a.data.clear();
    a.data.extend_from_slice(b"abc");
    assert_eq!(a.borrow(), &b"abc".to_vec());
    a.release(&mut pool);
}

#[test]
fn gzip_detection_goes_by_extension() {
    assert!(is_probably_gzip("dump/page.sql.gz"));
    assert!(is_probably_gzip("page.gzip"));
    assert!(!is_probably_gzip("page.sql"));
    assert!(!is_probably_gzip("gz"));
    assert!(!is_probably_gzip(".gz"));
    assert!(!is_probably_gzip("dir.gz/page"));
}

#[test]
fn output_filename_keeps_a_given_extension() {
    assert_eq!(build_output_filename("results.dat", ExportFormat::Markdown), "results.dat");
    assert_eq!(build_output_filename("results", ExportFormat::PlainText), "results.txt");
    assert_eq!(build_output_filename("results", ExportFormat::WikiText), "results.txt");
    assert_eq!(build_output_filename("out/results", ExportFormat::Markdown), "out/results.md");
}

#[test]
fn namespace_alternation_is_sorted_descending() {
    let nss = vec![PageNs(1), PageNs(12), PageNs(5)];
    assert_eq!(namespaces_to_string(&nss), "12|5|1");
    assert_eq!(namespaces_to_string(&vec![PageNs(0)]), "0");
    assert_eq!(namespaces_to_string(&Vec::new()), "");
}

#[test]
fn export_format_names() {
    assert!(matches!(ExportFormat::try_from("text"), Ok(ExportFormat::PlainText)));
    assert!(matches!(ExportFormat::try_from("wiki"), Ok(ExportFormat::WikiText)));
    assert!(matches!(ExportFormat::try_from("markdown"), Ok(ExportFormat::Markdown)));
    assert!(matches!(ExportFormat::try_from("csv"), Err(Error::UnknownFormat)));
}

#[test]
fn wiki_and_markdown_render_underscores_as_spaces() {
    let rows = vec![((PageNs(0), PageTitle(b"Main_Page".to_vec())), LinkCount::new(2, 1))];
    let wiki = write_wikitext(&rows);
    let expected_wiki = "{|class=\"wikitable sortable\"\n\
                         ! Page !! Ns !! Links total !! Direct !! via redirect\n|-\n\
                         | [[Main Page]] || 0 || 3 || 2 || 1\n|-\n\
                         |}\n";
    assert_eq!(wiki, expected_wiki.as_bytes().to_vec());

    let md = write_markdown(&rows);
    let expected_md = "Page | Ns | Links total | Direct | via redirect\n\
                       :--- | :---: | ---: | ---: | ---:\n\
                       Main Page | 0 | 3 | 2 | 1\n";
    assert_eq!(md, expected_md.as_bytes().to_vec());
}
