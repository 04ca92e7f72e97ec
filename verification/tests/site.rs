use static_filez::archive::{assemble, build, Payload, SourceFile};
use static_filez::compress::compress;
use static_filez::index::IndexBuilder;
use static_filez::site::Site;
use static_filez::slice::pack_in_u64;
use std::io::Read;

fn inflate(stream: &[u8]) -> Vec<u8> {
    let mut decoder = flate2::read::GzDecoder::new(stream);
    let mut data = Vec::new();
    decoder.read_to_end(&mut data).unwrap();
    data
}

fn file(key: &str, content: &str) -> SourceFile {
    SourceFile { key: key.as_bytes().to_vec(), content: content.as_bytes().to_vec() }
}

fn payload(key: &str, data: &[u8]) -> Payload {
    Payload { key: key.as_bytes().to_vec(), data: data.to_vec() }
}

#[test]
fn a_built_archive_serves_its_files() {
    let archive = build(&vec![file("a.txt", "hello"), file("b/c.txt", "world")]).unwrap();
    let site = Site::new(archive.index().to_vec(), archive.blob()).unwrap();
    let a = site.get("a.txt").unwrap();
    assert_eq!(a, &compress(b"hello").unwrap()[..]);
    assert_eq!(inflate(a), b"hello".to_vec());
    let c = site.get("b/c.txt").unwrap();
    assert_eq!(inflate(c), b"world".to_vec());
}

#[test]
fn a_missing_path_is_not_found() {
    let archive = build(&vec![file("a.txt", "hello"), file("b/c.txt", "world")]).unwrap();
    let site = Site::new(archive.index().to_vec(), archive.blob()).unwrap();
    assert_eq!(site.get("nonexistent"), None);
    assert_eq!(site.get(""), None);
    assert_eq!(site.get("a"), None);
    assert_eq!(site.get("a.txt/"), None);
    assert_eq!(site.get("b"), None);
    assert_eq!(site.get("b/c.txt/index.html"), None);
}

#[test]
fn a_directory_resolves_to_its_index_document() {
    let archive = build(&vec![file("docs/index.html", "<h1>docs</h1>"), file("index.html", "<h1>top</h1>")])
        .unwrap();
    let site = Site::new(archive.index().to_vec(), archive.blob()).unwrap();
    let direct = site.get("docs/index.html").unwrap();
    assert_eq!(inflate(direct), b"<h1>docs</h1>".to_vec());
    assert_eq!(site.get("docs"), Some(direct));
    assert_eq!(site.get("docs/"), None);
    assert_eq!(site.get(""), None);
}

#[test]
fn an_entry_of_its_own_goes_before_the_index_document() {
    let archive = assemble(&vec![payload("docs", &[1]), payload("docs/index.html", &[2, 2])]).unwrap();
    let site = Site::new(archive.index().to_vec(), archive.blob()).unwrap();
    assert_eq!(site.get("docs"), Some(&[1u8][..]));
    assert_eq!(site.get("docs/index.html"), Some(&[2u8, 2][..]));
}

#[test]
fn a_slice_is_cut_at_offset_and_length() {
    let mut builder = IndexBuilder::new();
    builder.insert(b"all", pack_in_u64(0, 6)).unwrap();
    builder.insert(b"end", pack_in_u64(4, 2)).unwrap();
    builder.insert(b"mid", pack_in_u64(2, 3)).unwrap();
    builder.insert(b"nil", pack_in_u64(6, 0)).unwrap();
    let blob = vec![10u8, 11, 12, 13, 14, 15];
    let site = Site::new(builder.finish().unwrap(), &blob).unwrap();
    assert_eq!(site.get("all"), Some(&blob[..]));
    assert_eq!(site.get("end"), Some(&[14u8, 15][..]));
    assert_eq!(site.get("mid"), Some(&[12u8, 13, 14][..]));
    assert_eq!(site.get("nil"), Some(&[][..]));
}

#[test]
fn a_range_beyond_the_blob_is_not_found() {
    let mut builder = IndexBuilder::new();
    builder.insert(b"far", pack_in_u64(7, 0)).unwrap();
    builder.insert(b"huge", pack_in_u64(0xFFFF_FFFF, 0xFFFF_FFFF)).unwrap();
    builder.insert(b"long", pack_in_u64(0, 7)).unwrap();
    builder.insert(b"over", pack_in_u64(4, 3)).unwrap();
    let blob = vec![10u8, 11, 12, 13, 14, 15];
    let site = Site::new(builder.finish().unwrap(), &blob).unwrap();
    assert_eq!(site.get("far"), None);
    assert_eq!(site.get("huge"), None);
    assert_eq!(site.get("long"), None);
    assert_eq!(site.get("over"), None);
}

#[test]
fn an_entry_beyond_the_blob_hides_the_index_document() {
    let mut builder = IndexBuilder::new();
    builder.insert(b"docs", pack_in_u64(5, 5)).unwrap();
    builder.insert(b"docs/index.html", pack_in_u64(0, 2)).unwrap();
    let blob = vec![1u8, 2, 3];
    let site = Site::new(builder.finish().unwrap(), &blob).unwrap();
    assert_eq!(site.get("docs"), None);
    assert_eq!(site.get("docs/index.html"), Some(&[1u8, 2][..]));
}

#[test]
fn a_mismatched_blob_never_panics() {
    let archive = build(&vec![file("a.txt", "hello"), file("b/c.txt", "world")]).unwrap();
    let short = &archive.blob()[..10];
    let site = Site::new(archive.index().to_vec(), short).unwrap();
    assert_eq!(site.get("a.txt"), None);
    assert_eq!(site.get("b/c.txt"), None);
}

#[test]
fn paths_are_looked_up_by_their_bytes() {
    let archive = build(&vec![file("caf\u{e9}.txt", "a"), file("\u{65e5}\u{672c}/index.html", "b")]).unwrap();
    let site = Site::new(archive.index().to_vec(), archive.blob()).unwrap();
    assert_eq!(inflate(site.get("caf\u{e9}.txt").unwrap()), b"a".to_vec());
    assert_eq!(inflate(site.get("\u{65e5}\u{672c}").unwrap()), b"b".to_vec());
    assert_eq!(site.get("cafe.txt"), None);
}

#[test]
fn a_site_can_be_shared_between_readers() {
    let archive = build(&vec![file("a.txt", "hello"), file("b/c.txt", "world")]).unwrap();
    let site = Site::new(archive.index().to_vec(), archive.blob()).unwrap();
    let first = &site;
    let second = &site;
    assert_eq!(first.get("a.txt"), second.get("a.txt"));
    assert_eq!(first.get("b/c.txt"), second.get("b/c.txt"));
}
