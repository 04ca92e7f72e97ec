use static_filez::archive::{
    assemble, build, compress_all, key_ordered, pack_ranges, BuildError, Payload, SourceFile,
};
use static_filez::compress::compress;
use static_filez::index::IndexError;
use static_filez::slice::pack_in_u64;

fn payload(key: &str, data: &[u8]) -> Payload {
    Payload { key: key.as_bytes().to_vec(), data: data.to_vec() }
}

fn file(key: &str, content: &str) -> SourceFile {
    SourceFile { key: key.as_bytes().to_vec(), content: content.as_bytes().to_vec() }
}

#[test]
fn ranges_lie_one_after_the_other() {
    assert_eq!(
        pack_ranges(&vec![5, 7, 0, 3]).unwrap(),
        vec![pack_in_u64(0, 5), pack_in_u64(5, 7), pack_in_u64(12, 0), pack_in_u64(12, 3)]
    );
    assert_eq!(pack_ranges(&vec![5, 7]).unwrap(), vec![0x0000_0000_0000_0005, 0x0000_0005_0000_0007]);
    assert_eq!(pack_ranges(&Vec::new()).unwrap(), Vec::<u64>::new());
}

#[test]
fn the_largest_ranges_that_fit_are_packed() {
    assert_eq!(pack_ranges(&vec![0xFFFF_FFFF]).unwrap(), vec![0x0000_0000_FFFF_FFFF]);
    assert_eq!(
        pack_ranges(&vec![0xFFFF_FFFF, 0xFFFF_FFFF]).unwrap(),
        vec![0x0000_0000_FFFF_FFFF, 0xFFFF_FFFF_FFFF_FFFF]
    );
    assert_eq!(
        pack_ranges(&vec![0xFFFF_FFFE, 1, 9]).unwrap(),
        vec![0x0000_0000_FFFF_FFFE, 0xFFFF_FFFE_0000_0001, 0xFFFF_FFFF_0000_0009]
    );
}

#[test]
fn a_length_above_32_bits_is_refused() {
    assert_eq!(pack_ranges(&vec![0x1_0000_0000]), Err(BuildError::RangeOverflow));
    assert_eq!(pack_ranges(&vec![1, 0x1_0000_0000, 1]), Err(BuildError::RangeOverflow));
}

#[test]
fn an_offset_above_32_bits_is_refused() {
    assert_eq!(pack_ranges(&vec![0xFFFF_FFFF, 1, 1]), Err(BuildError::RangeOverflow));
    assert_eq!(pack_ranges(&vec![0x8000_0000, 0x8000_0000, 0]), Err(BuildError::RangeOverflow));
}

#[test]
fn payloads_are_laid_out_in_key_order() {
    let archive = assemble(&vec![payload("b", &[1, 2]), payload("c", &[9]), payload("a", &[3])])
        .unwrap();
    assert_eq!(archive.blob().to_vec(), vec![3, 1, 2, 9]);
    let map = fst::Map::from_bytes(archive.index().to_vec()).unwrap();
    assert_eq!(map.len(), 3);
    assert_eq!(map.get("a"), Some(pack_in_u64(0, 1)));
    assert_eq!(map.get("b"), Some(pack_in_u64(1, 2)));
    assert_eq!(map.get("c"), Some(pack_in_u64(3, 1)));
}

#[test]
fn the_order_of_the_payloads_does_not_matter() {
    let names = ["x/1", "a", "m.css", "x/0", "b/c/d", "b", "index.html", "b.txt"];
    let forward: Vec<Payload> = names.iter().map(|n| payload(n, n.as_bytes())).collect();
    let backward: Vec<Payload> = names.iter().rev().map(|n| payload(n, n.as_bytes())).collect();
    let one = assemble(&forward).unwrap();
    let two = assemble(&backward).unwrap();
    assert_eq!(one.index(), two.index());
    assert_eq!(one.blob(), two.blob());
    assert_eq!(one.blob().to_vec(), b"abb.txtb/c/dindex.htmlm.cssx/0x/1".to_vec());
}

#[test]
fn keys_are_ordered_by_bytes_not_by_path() {
    let archive = assemble(&vec![
        payload("a/b", &[1]),
        payload("a.b", &[2]),
        payload("a", &[3]),
        payload("B", &[4]),
    ])
    .unwrap();
    assert_eq!(archive.blob().to_vec(), vec![4, 3, 2, 1]);
}

#[test]
fn an_empty_payload_takes_no_room() {
    let archive = assemble(&vec![payload("a", &[]), payload("b", &[7]), payload("c", &[])]).unwrap();
    assert_eq!(archive.blob().to_vec(), vec![7]);
    let map = fst::Map::from_bytes(archive.index().to_vec()).unwrap();
    assert_eq!(map.get("a"), Some(pack_in_u64(0, 0)));
    assert_eq!(map.get("b"), Some(pack_in_u64(0, 1)));
    assert_eq!(map.get("c"), Some(pack_in_u64(1, 0)));
}

#[test]
fn no_payload_no_archive() {
    assert!(matches!(assemble(&Vec::new()), Err(BuildError::EmptyArchive)));
}

#[test]
fn an_empty_tree_is_refused() {
    assert!(matches!(build(&Vec::new()), Err(BuildError::EmptyArchive)));
}

#[test]
fn a_key_twice_is_refused() {
    let twice = vec![payload("a", &[1]), payload("b", &[2]), payload("a", &[3])];
    assert!(matches!(assemble(&twice), Err(BuildError::Index(IndexError::DuplicateKey))));
    let same = vec![payload("a", &[1]), payload("a", &[1])];
    assert!(matches!(assemble(&same), Err(BuildError::Index(IndexError::DuplicateKey))));
    let files = vec![file("x", "one"), file("x", "two")];
    assert!(matches!(build(&files), Err(BuildError::Index(IndexError::DuplicateKey))));
}

#[test]
fn every_file_is_compressed_under_its_key() {
    let files = vec![file("b", "second"), file("a", "first")];
    let compressed = compress_all(&files);
    assert!(compressed.skipped.is_empty());
    let payloads = compressed.payloads;
    assert_eq!(payloads.len(), 2);
    assert_eq!(payloads[0].key, b"b".to_vec());
    assert_eq!(payloads[0].data, compress(b"second").unwrap());
    assert_eq!(payloads[1].key, b"a".to_vec());
    assert_eq!(payloads[1].data, compress(b"first").unwrap());
}

#[test]
fn building_is_compressing_and_assembling() {
    let files = vec![file("a.txt", "hello"), file("b/c.txt", "world")];
    let archive = build(&files).unwrap();
    let hello = compress(b"hello").unwrap();
    let world = compress(b"world").unwrap();
    let mut blob = hello.clone();
    blob.extend_from_slice(&world);
    assert_eq!(archive.blob().to_vec(), blob);
    let map = fst::Map::from_bytes(archive.index().to_vec()).unwrap();
    assert_eq!(map.get("a.txt"), Some(pack_in_u64(0, hello.len())));
    assert_eq!(map.get("b/c.txt"), Some(pack_in_u64(hello.len(), world.len())));
}

#[test]
fn building_twice_gives_the_same_bytes() {
    let files = vec![file("b/c.txt", "world"), file("a.txt", "hello"), file("docs/index.html", "<p>")];
    let one = build(&files).unwrap();
    let two = build(&files).unwrap();
    assert_eq!(one.index(), two.index());
    assert_eq!(one.blob(), two.blob());
}

#[test]
fn building_does_not_depend_on_the_walk() {
    let one = build(&vec![file("b/c.txt", "world"), file("a.txt", "hello"), file("z", "")]).unwrap();
    let two = build(&vec![file("z", ""), file("a.txt", "hello"), file("b/c.txt", "world")]).unwrap();
    assert_eq!(one.index(), two.index());
    assert_eq!(one.blob(), two.blob());
}

#[test]
fn many_files_are_sorted() {
    let mut payloads: Vec<Payload> = Vec::new();
    let mut n: u32 = 12345;
    for _ in 0..2000 {
        n = n.wrapping_mul(1_103_515_245).wrapping_add(12345);
        let name = format!("f{:08x}", n);
        payloads.push(payload(&name, name.as_bytes()));
    }
    let archive = assemble(&payloads).unwrap();
    let mut names: Vec<Vec<u8>> = payloads.iter().map(|p| p.key.clone()).collect();
    names.sort();
    let expected: Vec<u8> = names.concat();
    assert_eq!(archive.blob().to_vec(), expected);
    let map = fst::Map::from_bytes(archive.index().to_vec()).unwrap();
    assert_eq!(map.len(), 2000);
    for (i, name) in names.iter().enumerate() {
        assert_eq!(map.get(name), Some(pack_in_u64(i * 9, 9)));
    }
}

#[test]
fn positions_come_in_key_order() {
    let payloads = vec![payload("c", &[]), payload("a", &[]), payload("d", &[]), payload("b", &[])];
    assert_eq!(key_ordered(&payloads).unwrap(), vec![1, 3, 0, 2]);
    assert_eq!(key_ordered(&vec![payload("only", &[1])]).unwrap(), vec![0]);
    assert_eq!(key_ordered(&Vec::new()).unwrap(), Vec::<usize>::new());
}

#[test]
fn positions_of_a_key_twice_are_refused() {
    let payloads = vec![payload("c", &[]), payload("a", &[]), payload("c", &[1])];
    assert_eq!(key_ordered(&payloads), Err(BuildError::Index(IndexError::DuplicateKey)));
}
