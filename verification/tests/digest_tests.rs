use backer_list::digest::{md5_digest, md5_digest_hex, CHUNK_SIZE};
use backer_list::record::FileRecord;

#[test]
fn empty_input_gives_digest_of_empty_byte_sequence() {
    assert_eq!(md5_digest_hex(&[]), "d41d8cd98f00b204e9800998ecf8427e");
}

#[test]
fn known_digest_of_abc() {
    assert_eq!(md5_digest_hex(b"abc"), "900150983cd24fb0d6963f7d28e17f72");
}

#[test]
fn digest_is_deterministic() {
    let data: Vec<u8> = (0..5000u32).map(|i| (i % 251) as u8).collect();
    let first = md5_digest(&data);
    let second = md5_digest(&data);
    assert_eq!(first, second);
    assert_eq!(md5_digest_hex(&data), md5_digest_hex(&data));
}

#[test]
fn chunking_matches_one_shot_md5() {
    // Lengths around the chunk size, including a final short read.
    for len in [0, 1, 1023, 1024, 1025, 1500, 2048, 3000] {
        let data: Vec<u8> = (0..len as u32).map(|i| (i * 7 % 256) as u8).collect();
        let expected = md5::compute(&data);
        assert_eq!(md5_digest(&data), expected.0.to_vec(), "length {}", len);
        assert_eq!(md5_digest_hex(&data), format!("{:x}", expected), "length {}", len);
    }
}

#[test]
fn short_final_read_is_handled() {
    let len = 2 * CHUNK_SIZE + 37;
    let data: Vec<u8> = vec![0xabu8; len];
    let hex = md5_digest_hex(&data);
    assert_eq!(hex, format!("{:x}", md5::compute(&data)));
    assert_eq!(hex.len(), 32);
}

#[test]
fn hex_rendering_matches_data_encoding() {
    let data = b"backer list digest";
    let raw = md5_digest(data);
    assert_eq!(md5_digest_hex(data), data_encoding::HEXLOWER.encode(&raw));
}

#[test]
fn fill_digest_sets_only_the_digest() {
    let mut rec = FileRecord {
        name: "a.txt".to_string(),
        path: "root/a.txt".to_string(),
        size: 5,
        digest: String::new(),
    };
    rec.fill_digest(b"hello");
    assert_eq!(rec.digest, format!("{:x}", md5::compute(b"hello")));
    assert_eq!(rec.name, "a.txt");
    assert_eq!(rec.path, "root/a.txt");
    assert_eq!(rec.size, 5);
}

#[test]
fn decimal_rendering() {
    assert_eq!(backer_list::keys::u64_to_dec(0), "0");
    assert_eq!(backer_list::keys::u64_to_dec(7), "7");
    assert_eq!(backer_list::keys::u64_to_dec(1024), "1024");
    assert_eq!(
        backer_list::keys::u64_to_dec(u64::MAX),
        "18446744073709551615"
    );
    assert_eq!(
        backer_list::keys::composite_key(&"a.txt".to_string(), 5),
        "a.txt-5"
    );
}
