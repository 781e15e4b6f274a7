use versearch::codec::{
    proximity_bytes_key, push_be, translation_verses_bytes_key, Translation, VerseKey,
    TRANSLATION_COUNT, VERSE_KEY_BYTES,
};
use versearch::lex::{compare_bytes, Rank};

fn key(book: u32, chapter: u32, verse: u32) -> VerseKey {
    VerseKey { book, chapter, verse }
}

#[test]
fn verse_key_is_twelve_big_endian_bytes() {
    assert_eq!(VerseKey::get_byte_size(), 12);
    assert_eq!(VERSE_KEY_BYTES, 12);
    assert_eq!(key(1, 2, 3).to_be_bytes(), vec![0, 0, 0, 1, 0, 0, 0, 2, 0, 0, 0, 3]);
    assert_eq!(
        key(0x0102_0304, 0xffff_ffff, 256).to_be_bytes(),
        vec![1, 2, 3, 4, 255, 255, 255, 255, 0, 0, 1, 0]
    );
}

#[test]
fn verse_key_round_trip() {
    let keys = [
        key(0, 0, 0),
        key(1, 1, 1),
        key(66, 22, 21),
        key(19, 119, 176),
        key(u32::MAX, 0, u32::MAX),
        key(255, 256, 65536),
    ];
    for k in keys.iter() {
        assert_eq!(VerseKey::from_be_bytes(&k.to_be_bytes()), Some(*k));
    }
}

#[test]
fn verse_key_needs_exactly_twelve_bytes() {
    assert_eq!(VerseKey::from_be_bytes(&[]), None);
    assert_eq!(VerseKey::from_be_bytes(&[0; 11]), None);
    assert_eq!(VerseKey::from_be_bytes(&[0; 13]), None);
    assert_eq!(VerseKey::from_be_bytes(&[0; 12]), Some(key(0, 0, 0)));
}

#[test]
fn byte_order_of_encoded_keys_is_canonical_order() {
    let keys = [
        key(0, 0, 0),
        key(0, 0, 1),
        key(0, 0, 256),
        key(0, 1, 0),
        key(0, 255, 7),
        key(0, 256, 0),
        key(1, 0, 0),
        key(1, 1, 1),
        key(2, 0, 0),
        key(256, 0, 0),
        key(65536, 3, 3),
        key(u32::MAX, u32::MAX, u32::MAX),
    ];
    for (i, a) in keys.iter().enumerate() {
        for (j, b) in keys.iter().enumerate() {
            let rank = compare_bytes(&a.to_be_bytes(), &b.to_be_bytes());
            let expected = if i < j {
                Rank::Before
            } else if i == j {
                Rank::Same
            } else {
                Rank::After
            };
            assert_eq!(rank, expected);
            assert_eq!(a < b, i < j);
        }
    }
}

#[test]
fn verse_text_key_is_translation_byte_then_verse_key() {
    assert_eq!(
        translation_verses_bytes_key(2, &key(1, 2, 3)),
        vec![2, 0, 0, 0, 1, 0, 0, 0, 2, 0, 0, 0, 3]
    );
}

#[test]
fn proximity_key_appends_two_token_ids() {
    assert_eq!(
        proximity_bytes_key(1, &key(43, 3, 16), 0x0102, 0xfffe),
        vec![1, 0, 0, 0, 43, 0, 0, 0, 3, 0, 0, 0, 16, 1, 2, 255, 254]
    );
    assert_eq!(proximity_bytes_key(0, &key(0, 0, 0), 0, 0).len(), 17);
}

#[test]
fn push_be_writes_most_significant_byte_first() {
    let mut out = vec![9];
    push_be(&mut out, 0x0102_0304_0506_0708, 8);
    assert_eq!(out, vec![9, 1, 2, 3, 4, 5, 6, 7, 8]);
    let mut out = Vec::new();
    push_be(&mut out, 0x0102_0304, 2);
    assert_eq!(out, vec![3, 4]);
    let mut out = Vec::new();
    push_be(&mut out, 7, 0);
    assert_eq!(out, Vec::<u8>::new());
}

#[test]
fn translations_are_numbered_from_zero() {
    assert_eq!(TRANSLATION_COUNT, 3);
    assert_eq!(Translation::from_i32(0), Some(Translation::Kjv));
    assert_eq!(Translation::from_i32(1), Some(Translation::Net));
    assert_eq!(Translation::from_i32(2), Some(Translation::Bsb));
    assert_eq!(Translation::from_i32(3), None);
    assert_eq!(Translation::from_i32(-1), None);
    for i in 0..3 {
        assert_eq!(Translation::from_i32(i).unwrap().index() as i32, i);
    }
}

#[test]
fn compare_bytes_is_lexicographic() {
    assert_eq!(compare_bytes(b"", b""), Rank::Same);
    assert_eq!(compare_bytes(b"", b"A"), Rank::Before);
    assert_eq!(compare_bytes(b"A", b""), Rank::After);
    assert_eq!(compare_bytes(b"AB", b"ABC"), Rank::Before);
    assert_eq!(compare_bytes(b"ABD", b"ABC"), Rank::After);
    assert_eq!(compare_bytes(b"B", b"ABC"), Rank::After);
    assert_eq!(compare_bytes(&[0, 255], &[1, 0]), Rank::Before);
    assert_eq!(compare_bytes(b"GOD", b"GOD"), Rank::Same);
}
