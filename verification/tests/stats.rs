use versearch::bytemap::ByteMap;
use versearch::codec::{translation_verses_bytes_key, Translation, VerseKey};
use versearch::stats::{
    process_verses, HighlightWords, Proximities, TokenCounts, TranslationVerses, VerseStats,
    VerseText, MAX_PROXIMITY,
};

struct Maps {
    texts: TranslationVerses,
    words: HighlightWords,
    counts: TokenCounts,
    distances: Proximities,
}

fn empty() -> Maps {
    Maps {
        texts: ByteMap::new(),
        words: ByteMap::new(),
        counts: ByteMap::new(),
        distances: ByteMap::new(),
    }
}

fn take_in(maps: &mut Maps, translation: Translation, verses: &[VerseText]) {
    process_verses(
        translation,
        verses,
        &mut maps.texts,
        &mut maps.words,
        &mut maps.counts,
        &mut maps.distances,
    );
}

fn verse(book: u32, chapter: u32, number: u32, text: &str) -> VerseText {
    VerseText { key: VerseKey { book, chapter, verse: number }, text: text.to_string() }
}

fn listed(n: usize, at: impl Fn(usize) -> Vec<u8>) -> Vec<Vec<u8>> {
    (0..n).map(at).collect()
}

fn stats_of<'a>(maps: &'a Maps, token: &str, key: &VerseKey) -> Option<&'a VerseStats> {
    let i = maps.counts.search(token.as_bytes()).ok()?;
    let verses = maps.counts.value(i);
    let j = verses.search(&key.to_be_bytes()).ok()?;
    Some(verses.value(j))
}

fn distance_of(
    maps: &Maps,
    translation: Translation,
    key: &VerseKey,
    first: &str,
    second: &str,
) -> Option<u64> {
    let place = translation_verses_bytes_key(translation.index(), key);
    let i = maps.distances.search(&place).ok()?;
    let pairs = maps.distances.value(i);
    let j = pairs.search(first.as_bytes()).ok()?;
    let followers = pairs.value(j);
    let k = followers.search(second.as_bytes()).ok()?;
    Some(*followers.value(k))
}

fn text_of(maps: &Maps, translation: Translation, key: &VerseKey) -> Option<String> {
    let place = translation_verses_bytes_key(translation.index(), key);
    let i = maps.texts.search(&place).ok()?;
    Some(maps.texts.value(i).clone())
}

#[test]
fn counts_occurrences_per_translation() {
    let mut maps = empty();
    let v = verse(1, 1, 1, "the light, and the light was good");
    take_in(&mut maps, Translation::Kjv, &[v.clone()]);
    let stats = stats_of(&maps, "THE", &v.key).unwrap();
    assert_eq!(stats.counts(), &vec![2, 0, 0]);
    let stats = stats_of(&maps, "LIGHT", &v.key).unwrap();
    assert_eq!(stats.counts(), &vec![2, 0, 0]);
    let stats = stats_of(&maps, "GOOD", &v.key).unwrap();
    assert_eq!(stats.counts(), &vec![1, 0, 0]);
    assert!(stats_of(&maps, "DARK", &v.key).is_none());
    assert_eq!(
        listed(maps.counts.len(), |i| maps.counts.key(i).clone()),
        vec![b"AND".to_vec(), b"GOOD".to_vec(), b"LIGHT".to_vec(), b"THE".to_vec(), b"WAS".to_vec()]
    );
}

#[test]
fn highlights_keep_the_spellings_as_written() {
    let mut maps = empty();
    let v = verse(1, 1, 3, "Light, light LIGHT light's");
    take_in(&mut maps, Translation::Net, &[v.clone()]);
    let stats = stats_of(&maps, "LIGHT", &v.key).unwrap();
    assert_eq!(stats.counts(), &vec![0, 3, 0]);
    assert_eq!(
        listed(stats.highlights().len(), |i| stats.highlights().key(i).clone()),
        vec![b"LIGHT".to_vec(), b"Light".to_vec(), b"light".to_vec()]
    );
    let stats = stats_of(&maps, "LIGHTS", &v.key).unwrap();
    assert_eq!(listed(stats.highlights().len(), |i| stats.highlights().key(i).clone()), vec![b"light's".to_vec()]);
    assert_eq!(
        listed(maps.words.len(), |i| maps.words.key(i).clone()),
        vec![b"LIGHT".to_vec(), b"Light".to_vec(), b"light".to_vec(), b"light's".to_vec()]
    );
    let words: Vec<String> = (0..maps.words.len()).map(|i| maps.words.value(i).clone()).collect();
    assert_eq!(words, vec!["LIGHT", "Light", "light", "light's"]);
}

#[test]
fn first_text_of_a_verse_wins() {
    let mut maps = empty();
    let first = verse(1, 1, 1, "In the beginning");
    let second = verse(1, 1, 1, "At the first");
    take_in(&mut maps, Translation::Kjv, &[first.clone(), second.clone()]);
    assert_eq!(text_of(&maps, Translation::Kjv, &first.key).unwrap(), "In the beginning");
    assert_eq!(maps.texts.len(), 1);
    let stats = stats_of(&maps, "THE", &first.key).unwrap();
    assert_eq!(stats.counts(), &vec![2, 0, 0]);
}

#[test]
fn shared_verse_key_keeps_translations_apart() {
    let mut maps = empty();
    let key = VerseKey { book: 43, chapter: 11, verse: 35 };
    take_in(&mut maps, Translation::Kjv, &[verse(43, 11, 35, "Jesus wept")]);
    take_in(&mut maps, Translation::Bsb, &[verse(43, 11, 35, "Jesus wept wept")]);
    assert_eq!(maps.texts.len(), 2);
    assert_eq!(text_of(&maps, Translation::Kjv, &key).unwrap(), "Jesus wept");
    assert_eq!(text_of(&maps, Translation::Bsb, &key).unwrap(), "Jesus wept wept");
    assert!(text_of(&maps, Translation::Net, &key).is_none());
    let i = maps.counts.search(b"WEPT").unwrap();
    assert_eq!(maps.counts.value(i).len(), 1);
    let stats = stats_of(&maps, "WEPT", &key).unwrap();
    assert_eq!(stats.counts().len(), 3);
    assert_eq!(stats.counts(), &vec![1, 0, 2]);
    assert_eq!(stats_of(&maps, "JESUS", &key).unwrap().counts(), &vec![1, 0, 1]);
}

#[test]
fn sum_of_counts_is_number_of_occurrences() {
    let mut maps = empty();
    let key = VerseKey { book: 1, chapter: 1, verse: 1 };
    take_in(&mut maps, Translation::Kjv, &[verse(1, 1, 1, "and God said and God saw")]);
    take_in(&mut maps, Translation::Net, &[verse(1, 1, 1, "God, God and god")]);
    take_in(&mut maps, Translation::Bsb, &[verse(1, 1, 2, "and and and")]);
    let total: u64 = stats_of(&maps, "GOD", &key).unwrap().counts().iter().sum();
    assert_eq!(total, 5);
    let total: u64 = stats_of(&maps, "AND", &key).unwrap().counts().iter().sum();
    assert_eq!(total, 3);
    let other = VerseKey { book: 1, chapter: 1, verse: 2 };
    assert_eq!(stats_of(&maps, "AND", &other).unwrap().counts(), &vec![0, 0, 3]);
}

#[test]
fn distance_is_difference_of_positions() {
    let mut maps = empty();
    let v = verse(1, 1, 1, "in the beginning God created");
    take_in(&mut maps, Translation::Kjv, &[v.clone()]);
    let t = Translation::Kjv;
    assert_eq!(distance_of(&maps, t, &v.key, "IN", "THE"), Some(1));
    assert_eq!(distance_of(&maps, t, &v.key, "IN", "CREATED"), Some(4));
    assert_eq!(distance_of(&maps, t, &v.key, "THE", "GOD"), Some(2));
    assert_eq!(distance_of(&maps, t, &v.key, "GOD", "CREATED"), Some(1));
    assert_eq!(distance_of(&maps, t, &v.key, "THE", "IN"), None);
    assert_eq!(distance_of(&maps, t, &v.key, "CREATED", "GOD"), None);
    assert_eq!(distance_of(&maps, Translation::Net, &v.key, "IN", "THE"), None);
}

#[test]
fn smallest_distance_of_a_pair_is_kept() {
    let mut maps = empty();
    let v = verse(1, 1, 1, "a x x b a b");
    take_in(&mut maps, Translation::Kjv, &[v.clone()]);
    let t = Translation::Kjv;
    assert_eq!(distance_of(&maps, t, &v.key, "A", "B"), Some(1));
    assert_eq!(distance_of(&maps, t, &v.key, "A", "A"), Some(4));
    assert_eq!(distance_of(&maps, t, &v.key, "X", "X"), Some(1));
    assert_eq!(distance_of(&maps, t, &v.key, "B", "A"), Some(1));
    assert_eq!(distance_of(&maps, t, &v.key, "B", "B"), Some(2));
}

#[test]
fn first_distance_is_stored_uncapped_and_capped_when_seen_again() {
    assert_eq!(MAX_PROXIMITY, 8);
    let mut maps = empty();
    let v = verse(1, 1, 1, "a 1 2 3 4 5 6 7 8 9 b");
    take_in(&mut maps, Translation::Kjv, &[v.clone()]);
    let t = Translation::Kjv;
    // Seen once: the distance stays as it is, above the cap.
    assert_eq!(distance_of(&maps, t, &v.key, "A", "B"), Some(10));
    assert_eq!(distance_of(&maps, t, &v.key, "A", "9"), Some(9));
    assert_eq!(distance_of(&maps, t, &v.key, "A", "8"), Some(8));
    // Seen again at the same distance: the cap applies.
    take_in(&mut maps, Translation::Kjv, &[v.clone()]);
    assert_eq!(distance_of(&maps, t, &v.key, "A", "B"), Some(8));
    assert_eq!(distance_of(&maps, t, &v.key, "A", "9"), Some(8));
    assert_eq!(distance_of(&maps, t, &v.key, "A", "8"), Some(8));
    assert_eq!(distance_of(&maps, t, &v.key, "A", "1"), Some(1));
}

#[test]
fn stored_distance_never_grows_when_a_longer_one_is_seen() {
    let mut maps = empty();
    let v = verse(1, 1, 1, "a b 1 2 3 4 5 6 7 8 9 b");
    take_in(&mut maps, Translation::Kjv, &[v.clone()]);
    assert_eq!(distance_of(&maps, Translation::Kjv, &v.key, "A", "B"), Some(1));
}

#[test]
fn every_distance_is_between_one_and_the_cap_after_an_update() {
    let mut maps = empty();
    let v = verse(9, 9, 9, "w w w w w w w w w w w w w w w w w w w w");
    take_in(&mut maps, Translation::Bsb, &[v.clone()]);
    assert_eq!(distance_of(&maps, Translation::Bsb, &v.key, "W", "W"), Some(1));
    let v = verse(9, 9, 10, "p 1 2 3 4 5 6 7 8 9 10 11 q p 1 2 3 4 5 6 7 8 9 q");
    take_in(&mut maps, Translation::Bsb, &[v.clone()]);
    let d = distance_of(&maps, Translation::Bsb, &v.key, "P", "Q").unwrap();
    assert!(1 <= d && d <= MAX_PROXIMITY);
    assert_eq!(d, 8);
}

#[test]
fn maps_are_walked_in_ascending_key_order() {
    let mut maps = empty();
    take_in(&mut maps, Translation::Net, &[verse(2, 1, 1, "b a"), verse(1, 1, 1, "d c")]);
    take_in(&mut maps, Translation::Kjv, &[verse(3, 1, 1, "z")]);
    assert_eq!(
        listed(maps.texts.len(), |i| maps.texts.key(i).clone()),
        vec![
            vec![0, 0, 0, 0, 3, 0, 0, 0, 1, 0, 0, 0, 1],
            vec![1, 0, 0, 0, 1, 0, 0, 0, 1, 0, 0, 0, 1],
            vec![1, 0, 0, 0, 2, 0, 0, 0, 1, 0, 0, 0, 1],
        ]
    );
    assert_eq!(
        listed(maps.counts.len(), |i| maps.counts.key(i).clone()),
        vec![b"A".to_vec(), b"B".to_vec(), b"C".to_vec(), b"D".to_vec(), b"Z".to_vec()]
    );
    assert_eq!(maps.distances.len(), 2);
}

#[test]
fn words_without_letters_count_as_the_empty_token() {
    let mut maps = empty();
    let v = verse(1, 1, 1, "... !!!");
    take_in(&mut maps, Translation::Kjv, &[v.clone()]);
    assert_eq!(stats_of(&maps, "", &v.key).unwrap().counts(), &vec![2, 0, 0]);
    assert_eq!(distance_of(&maps, Translation::Kjv, &v.key, "", ""), Some(1));
}
