use rustchain::block::Block;
use rustchain::timestamp::Timestamp;

const DIFFICULTY: usize = 2;

fn at(secs: u32, nanos: u32) -> Timestamp {
    Timestamp::new(1970, 1, 1, 0, secs / 60, secs % 60, nanos).unwrap()
}

#[test]
fn block_validity() {
    let valid = Block {
        index: 0,
        prev_hash: String::default(),
        hash: String::from("0000000000"),
        timestamp: Timestamp::epoch(),
        data: String::from("Valid"),
    };

    assert!(valid.is_valid(DIFFICULTY));

    let invalid = Block {
        index: 0,
        prev_hash: String::default(),
        hash: String::from("these are some words"),
        timestamp: Timestamp::epoch(),
        data: String::from("Valid"),
    };

    assert!(!invalid.is_valid(DIFFICULTY));
}

#[test]
fn block_equality() {
    let block_0 = Block::new(0, at(0, 0), String::default(), String::default(), DIFFICULTY).unwrap();

    let block_0_clone =
        Block::new(0, at(0, 0), String::default(), String::default(), DIFFICULTY).unwrap();

    assert_eq!(block_0, block_0_clone);

    let diff_index = Block::new(1, at(0, 0), String::default(), String::default(), DIFFICULTY).unwrap();

    assert_ne!(block_0, diff_index);

    let diff_timestamp =
        Block::new(0, at(100, 100), String::default(), String::default(), DIFFICULTY).unwrap();

    assert_ne!(block_0, diff_timestamp);

    let diff_prev_hash =
        Block::new(0, at(0, 0), block_0.hash.clone(), String::default(), DIFFICULTY).unwrap();

    assert_ne!(block_0, diff_prev_hash);

    let diff_data = Block::new(
        0,
        at(0, 0),
        String::default(),
        String::from("this is some data"),
        DIFFICULTY,
    )
    .unwrap();

    assert_ne!(block_0, diff_data);
}

#[test]
fn hash_is_sha256_of_header_with_first_nonce() {
    // difficulty 0: nonce 0 is accepted; header "0" + "" + "" + "1970-01-01 00:00:00 UTC" + "0"
    let b = Block::new(0, Timestamp::epoch(), String::new(), String::new(), 0).unwrap();
    assert_eq!(b.hash, "7c0a63f53fcea88190eea1167a8bf6637d02bcc8c17561e06081e8a67ad3fdd9");
}

#[test]
fn mined_hash_meets_difficulty() {
    for d in 0..4 {
        let b = Block::new(7, at(5, 0), String::from("abc"), String::from("xyz"), d).unwrap();
        assert_eq!(b.hash.len(), 64);
        assert!(b.hash.chars().take(d).all(|c| c == '0'));
        assert!(b.is_valid(d));
        assert_eq!(b.index, 7);
        assert_eq!(b.prev_hash, "abc");
        assert_eq!(b.data, "xyz");
    }
}

#[test]
fn is_valid_ignores_other_fields() {
    let mut b = Block::new(3, at(1, 0), String::from("p"), String::from("d"), DIFFICULTY).unwrap();
    b.data = String::from("tampered");
    b.index = 99;
    assert!(b.is_valid(DIFFICULTY));
}

#[test]
fn is_valid_needs_enough_characters() {
    let b = Block { hash: String::from("00"), ..Block::default() };
    assert!(b.is_valid(2));
    assert!(!b.is_valid(3));
    assert!(Block::default().is_valid(0));
}

#[test]
fn mine_block_links_to_its_parent() {
    let first = Block::create_first_block_at(at(0, 0), DIFFICULTY).unwrap();
    assert_eq!(first.index, 0);
    assert_eq!(first.prev_hash, "");
    assert_eq!(first.data, "First block data");
    let next = first.mine_block_at(at(1, 0), DIFFICULTY).unwrap();
    assert_eq!(next.index, 1);
    assert_eq!(next.prev_hash, first.hash);
    assert_eq!(next.data, "I block 0");
    assert!(next.is_valid(DIFFICULTY));
    let now = first.mine_block(DIFFICULTY).unwrap();
    assert_eq!(now.prev_hash, first.hash);
}

#[test]
fn mine_block_at_the_last_index_fails() {
    let top = Block { index: u32::MAX, ..Block::default() };
    assert!(top.mine_block_at(at(0, 0), 0).is_none());
}

#[test]
fn create_first_block_uses_the_clock() {
    let b = Block::create_first_block(1).unwrap();
    assert_eq!(b.index, 0);
    assert!(b.is_valid(1));
    assert!(b.timestamp.year >= 2000);
}

#[test]
fn timestamp_fields_are_checked() {
    assert!(Timestamp::new(2023, 2, 29, 0, 0, 0, 0).is_none());
    assert!(Timestamp::new(2024, 2, 29, 0, 0, 0, 0).is_some());
    assert!(Timestamp::new(1900, 2, 29, 0, 0, 0, 0).is_none());
    assert!(Timestamp::new(2000, 2, 29, 0, 0, 0, 0).is_some());
    assert!(Timestamp::new(2024, 4, 31, 0, 0, 0, 0).is_none());
    assert!(Timestamp::new(2024, 13, 1, 0, 0, 0, 0).is_none());
    assert!(Timestamp::new(2024, 1, 1, 24, 0, 0, 0).is_none());
    assert!(Timestamp::new(2024, 1, 1, 0, 0, 60, 0).is_none());
    assert!(Timestamp::new(2024, 1, 1, 0, 0, 0, 1_000_000_000).is_none());
    assert!(Timestamp::new(-1, 1, 1, 0, 0, 0, 0).is_none());
    assert!(Timestamp::new(10000, 1, 1, 0, 0, 0, 0).is_none());
}

#[test]
fn timestamp_display_is_chronos() {
    assert_eq!(Timestamp::epoch().display(), "1970-01-01 00:00:00 UTC");
    let t = Timestamp::new(2024, 3, 9, 17, 5, 42, 123_000_000).unwrap();
    assert_eq!(t.display(), "2024-03-09 17:05:42.123 UTC");
    let u = Timestamp::new(812, 11, 30, 0, 0, 9, 123_456_000).unwrap();
    assert_eq!(u.display(), "0812-11-30 00:00:09.123456 UTC");
    let v = Timestamp::new(2024, 3, 9, 1, 2, 3, 7).unwrap();
    assert_eq!(v.display(), "2024-03-09 01:02:03.000000007 UTC");
}

#[test]
fn serialize_gives_json_object() {
    let b = Block::default();
    assert_eq!(
        b.serialize(),
        "{\"index\":0,\"timestamp\":\"1970-01-01T00:00:00Z\",\"prev_hash\":\"\",\"hash\":\"\",\"data\":\"\"}"
    );
    let c = Block {
        index: 42,
        timestamp: Timestamp::new(2024, 3, 9, 17, 5, 42, 7).unwrap(),
        prev_hash: String::from("a\"b"),
        hash: String::from("c\\d"),
        data: String::from("é"),
    };
    assert_eq!(
        c.serialize(),
        "{\"index\":42,\"timestamp\":\"2024-03-09T17:05:42.000000007Z\",\"prev_hash\":\"a\\\"b\",\"hash\":\"c\\\\d\",\"data\":\"é\"}"
    );
}

#[test]
fn deserialize_reverses_serialize() {
    let c = Block {
        index: 4_000_000_000,
        timestamp: Timestamp::new(9999, 12, 31, 23, 59, 59, 999_999_999).unwrap(),
        prev_hash: String::from("quote \" and backslash \\ here"),
        hash: String::from("\\\"\\"),
        data: String::from("line\nbreak"),
    };
    let text = c.serialize();
    let d = Block::deserialize(&text).unwrap();
    assert_eq!(d.index, c.index);
    assert_eq!(d.timestamp, c.timestamp);
    assert_eq!(d.prev_hash, c.prev_hash);
    assert_eq!(d.hash, c.hash);
    assert_eq!(d.data, c.data);
}

#[test]
fn deserialize_rejects_other_text() {
    assert!(Block::deserialize("").is_none());
    assert!(Block::deserialize("{}").is_none());
    let good = Block::default().serialize();
    assert!(Block::deserialize(&good).is_some());
    assert!(Block::deserialize(&format!("{} ", good)).is_none());
    assert!(Block::deserialize(&good.replace("\"index\":0", "\"index\":00")).is_none());
    assert!(Block::deserialize(&good.replace("\"index\":0", "\"index\":4294967296")).is_none());
    assert!(Block::deserialize(&good.replace("1970-01-01", "1970-02-30")).is_none());
    assert!(Block::deserialize(&good.replace("\"data\"", "\"payload\"")).is_none());
}

#[test]
fn serialize_escapes_control_characters() {
    let b = Block { data: String::from("a\nb\t\u{1}\u{1f} "), ..Block::default() };
    let text = b.serialize();
    assert!(text.ends_with("\"data\":\"a\\nb\\t\\u0001\\u001f \"}"));
    assert!(!text.chars().any(|c| (c as u32) < 0x20));
    let back = Block::deserialize(&text).unwrap();
    assert_eq!(back.data, b.data);
}

#[test]
fn deserialize_rejects_raw_control_characters() {
    let good = Block::default().serialize();
    let raw = good.replace("\"data\":\"\"", "\"data\":\"\n\"");
    assert!(raw.contains('\n'));
    assert!(Block::deserialize(&raw).is_none());
}

#[test]
fn deserialize_reads_serde_json_block_text() {
    let text = "{\"index\":3,\"timestamp\":\"2018-03-04T05:06:07.250Z\",\"prev_hash\":\"00ab\",\"hash\":\"00cd\",\"data\":\"I block 2\\r\\n\\b\\f\\u0000\"}";
    let b = Block::deserialize(text).unwrap();
    assert_eq!(b.index, 3);
    assert_eq!(b.timestamp, Timestamp::new(2018, 3, 4, 5, 6, 7, 250_000_000).unwrap());
    assert_eq!(b.prev_hash, "00ab");
    assert_eq!(b.hash, "00cd");
    assert_eq!(b.data, "I block 2\r\n\u{8}\u{c}\u{0}");
    assert_eq!(b.serialize(), text);
    let micros = text.replace(".250Z", ".250001Z");
    assert_eq!(Block::deserialize(&micros).unwrap().timestamp.nanosecond, 250_001_000);
    // chrono writes the fewest digits: a longer form of the same instant is not its text
    assert!(Block::deserialize(&text.replace(".250Z", ".250000Z")).is_none());
    assert!(Block::deserialize(&text.replace(".250Z", ".25Z")).is_none());
}

#[test]
fn file_name_is_index_dot_chain() {
    let b = Block { index: 12, ..Block::default() };
    assert_eq!(b.file_name(), "12.chain");
}
