use vx::blob::{append_blob, dec_blob, Blob};
use vx::branch::{dec_branch, enc_branch, validate_branch_name, Branch};
use vx::bytes::{bytes_cmp, read_be, u128_to_be, u64_to_be, Cmp};
use vx::commit::{compose_key, create_commit, find_colon, parse_u64, CommitID};
use vx::digest::{compute_bytes, DigestExt};
use vx::tree::{dec_tree, enc_tree, File, Folder, Tree};

#[test]
fn hex_of_zero_is_32_zeros() {
    let d: u128 = 0;
    assert_eq!(d.to_hex_string(), "00000000000000000000000000000000");
}

#[test]
fn hex_is_lowercase_big_endian() {
    let d: u128 = 0x0123456789abcdef0123456789abcdef;
    assert_eq!(d.to_hex_string(), "0123456789abcdef0123456789abcdef");
    let one: u128 = 0x1a;
    assert_eq!(one.to_hex_string(), "0000000000000000000000000000001a");
}

#[test]
fn digest_depends_on_bytes_alone() {
    let a = compute_bytes(b"hi");
    let b = compute_bytes(b"hi");
    let c = compute_bytes(b"ho");
    assert_eq!(a, b);
    assert_ne!(a, c);
    assert_ne!(a, 0);
}

#[test]
fn big_endian_round_trip() {
    let v = u64_to_be(0x0102030405060708);
    assert_eq!(v, vec![1u8, 2, 3, 4, 5, 6, 7, 8]);
    let back = read_be(&v, 0, 8);
    assert_eq!(back, 0x0102030405060708u128);
    let w = u128_to_be(u128::MAX);
    assert_eq!(w.len(), 16);
    assert_eq!(read_be(&w, 0, 16), u128::MAX);
}

#[test]
fn byte_order_is_lexicographic() {
    assert!(matches!(bytes_cmp(b"a", b"b"), Cmp::Lt));
    assert!(matches!(bytes_cmp(b"b", b"a"), Cmp::Gt));
    assert!(matches!(bytes_cmp(b"ab", b"ab"), Cmp::Eq));
    assert!(matches!(bytes_cmp(b"a", b"ab"), Cmp::Lt));
    assert!(matches!(bytes_cmp(b"ab", b"a"), Cmp::Gt));
    assert!(matches!(bytes_cmp(b"", b"", ), Cmp::Eq));
}

#[test]
fn parse_u64_accepts_decimals() {
    assert_eq!(parse_u64("0"), Some(0));
    assert_eq!(parse_u64("123"), Some(123));
    assert_eq!(parse_u64("+7"), Some(7));
    assert_eq!(parse_u64("18446744073709551615"), Some(u64::MAX));
}

#[test]
fn parse_u64_rejects_bad_input() {
    assert_eq!(parse_u64(""), None);
    assert_eq!(parse_u64("+"), None);
    assert_eq!(parse_u64("12a"), None);
    assert_eq!(parse_u64("main"), None);
    assert_eq!(parse_u64("18446744073709551616"), None);
    assert_eq!(parse_u64("99999999999999999999999"), None);
}

#[test]
fn find_colon_returns_first_position() {
    assert_eq!(find_colon("main:1"), Some(4));
    assert_eq!(find_colon(":x"), Some(0));
    assert_eq!(find_colon("a:b:c"), Some(1));
    assert_eq!(find_colon("main"), None);
}

#[test]
fn branch_record_round_trips() {
    let b = Branch {
        id: 42,
        name: String::from("feature/one"),
        headseq: 7,
        ver: 3,
        parent: 1,
        parentseq: 5,
    };
    let bytes = enc_branch(&b);
    let (back, used) = dec_branch(&bytes, 0).expect("decode");
    assert_eq!(used, bytes.len());
    assert_eq!(back.id, 42);
    assert_eq!(back.name, "feature/one");
    assert_eq!(back.headseq, 7);
    assert_eq!(back.ver, 3);
    assert_eq!(back.parent, 1);
    assert_eq!(back.parentseq, 5);
}

#[test]
fn branch_decode_rejects_truncation() {
    let b = Branch {
        id: 1,
        name: String::from("main"),
        headseq: 0,
        ver: 0,
        parent: 0,
        parentseq: 0,
    };
    let mut bytes = enc_branch(&b);
    bytes.pop();
    assert!(dec_branch(&bytes, 0).is_none());
}

#[test]
fn blob_record_round_trips() {
    let b = Blob { contenthash: 0xdeadbeef, size: 17 };
    let mut bytes = Vec::new();
    append_blob(&mut bytes, &b);
    assert_eq!(bytes.len(), 24);
    let (back, used) = dec_blob(&bytes, 0).expect("decode");
    assert_eq!(used, 24);
    assert_eq!(back, b);
}

#[test]
fn tree_record_round_trips() {
    let t = Tree {
        hash: 77,
        folders: vec![Folder { name: String::from("sub"), hash: 5 }],
        files: vec![
            File { name: String::from("a.txt"), blob: Blob { contenthash: 9, size: 2 } },
            File { name: String::from("b.txt"), blob: Blob { contenthash: 8, size: 3 } },
        ],
        size: 5,
        file_count: 2,
        folder_count: 1,
    };
    let bytes = enc_tree(&t);
    let (back, used) = dec_tree(&bytes, 0).expect("decode");
    assert_eq!(used, bytes.len());
    assert_eq!(back.hash, 77);
    assert_eq!(back.folders.len(), 1);
    assert_eq!(back.folders[0].name, "sub");
    assert_eq!(back.folders[0].hash, 5);
    assert_eq!(back.files.len(), 2);
    assert_eq!(back.files[0].name, "a.txt");
    assert_eq!(back.files[0].blob, Blob { contenthash: 9, size: 2 });
    assert_eq!(back.files[1].name, "b.txt");
    assert_eq!(back.size, 5);
    assert_eq!(back.file_count, 2);
    assert_eq!(back.folder_count, 1);
}

#[test]
fn commit_key_is_branch_then_seq() {
    let key = compose_key(CommitID { branch: 0x0102030405060708, seq: 2 });
    assert_eq!(
        key,
        vec![1u8, 2, 3, 4, 5, 6, 7, 8, 0, 0, 0, 0, 0, 0, 0, 2]
    );
}

#[test]
fn commit_hash_covers_message_and_tree() {
    let a = create_commit(CommitID { branch: 1, seq: 1 }, 1, 10, String::from("m"));
    let b = create_commit(CommitID { branch: 1, seq: 1 }, 1, 10, String::from("m"));
    let c = create_commit(CommitID { branch: 1, seq: 1 }, 1, 11, String::from("m"));
    let d = create_commit(CommitID { branch: 1, seq: 1 }, 1, 10, String::from("n"));
    assert_eq!(a.hash, b.hash);
    assert_ne!(a.hash, c.hash);
    assert_ne!(a.hash, d.hash);
}

#[test]
fn branch_names_are_validated() {
    assert!(validate_branch_name("main").is_ok());
    assert!(validate_branch_name("feature/x-1.2").is_ok());
    assert!(validate_branch_name("Main").is_err());
    assert!(validate_branch_name("sp ace").is_err());
    assert!(validate_branch_name("under_score").is_err());
}

#[test]
fn empty_names_are_rejected() {
    assert!(validate_branch_name("").is_err());
}
