use versearch::assemble::{get_index, TranslationData, VerseRecord, VersearchIndex};
use versearch::bytemap::ByteMap;
use versearch::codec::{proximity_bytes_key, translation_verses_bytes_key, Translation, VerseKey};
use versearch::index::{
    build_reverse_index, build_translation_verses_bytes, ranked_bytes, BuildError,
};
use versearch::proximity::build_proximity_fst_bytes;
use versearch::stats::{
    process_verses, HighlightWords, Proximities, TokenCounts, TranslationVerses, VerseText,
};

struct Maps {
    texts: TranslationVerses,
    words: HighlightWords,
    counts: TokenCounts,
    distances: Proximities,
}

fn empty() -> Maps {
    Maps {
        texts: ByteMap::new(),
        words: ByteMap::new(),
        counts: ByteMap::new(),
        distances: ByteMap::new(),
    }
}

fn take_in(maps: &mut Maps, translation: Translation, verses: &[VerseText]) {
    process_verses(
        translation,
        verses,
        &mut maps.texts,
        &mut maps.words,
        &mut maps.counts,
        &mut maps.distances,
    );
}

fn verse(book: u32, chapter: u32, number: u32, text: &str) -> VerseText {
    VerseText { key: VerseKey { book, chapter, verse: number }, text: text.to_string() }
}

fn record(book: u32, chapter: u32, number: u32, text: &str) -> VerseRecord {
    VerseRecord { key: Some(VerseKey { book, chapter, verse: number }), text: text.to_string() }
}

fn pairs_of(bytes: &[u8]) -> Vec<(Vec<u8>, u64)> {
    fst::Map::new(bytes.to_vec()).unwrap().stream().into_byte_vec()
}

fn be64(numbers: &[u64]) -> Vec<u8> {
    numbers.iter().flat_map(|n| n.to_be_bytes().to_vec()).collect()
}

fn small_corpus() -> Maps {
    let mut maps = empty();
    take_in(
        &mut maps,
        Translation::Kjv,
        &[verse(1, 1, 1, "In the beginning God"), verse(1, 1, 3, "God said, Let there be light")],
    );
    take_in(&mut maps, Translation::Net, &[verse(1, 1, 1, "In the beginning, god")]);
    maps
}

#[test]
fn ranked_bytes_maps_each_key_to_its_position() {
    let mut map: ByteMap<u64> = ByteMap::new();
    for key in [&b"delta"[..], b"alpha", b"charlie", b"bravo", b"alphabet"] {
        let at = map.search(key).unwrap_err();
        map.insert_at(at, key.to_vec(), 7);
    }
    let bytes = ranked_bytes(&map).unwrap();
    assert_ne!(bytes, b"alpha".to_vec());
    assert_eq!(
        pairs_of(&bytes),
        vec![
            (b"alpha".to_vec(), 0),
            (b"alphabet".to_vec(), 1),
            (b"bravo".to_vec(), 2),
            (b"charlie".to_vec(), 3),
            (b"delta".to_vec(), 4),
        ]
    );
    let empty_map: ByteMap<u64> = ByteMap::new();
    assert_eq!(pairs_of(&ranked_bytes(&empty_map).unwrap()), vec![]);
}

#[test]
fn verse_texts_are_indexed_by_translation_and_verse() {
    let maps = small_corpus();
    let (bytes, strings) = build_translation_verses_bytes(&maps.texts).unwrap();
    assert_eq!(
        strings,
        vec!["In the beginning God", "God said, Let there be light", "In the beginning, god"]
    );
    let map = fst::Map::new(bytes).unwrap();
    assert_eq!(map.len(), 3);
    let key = |t: u8, v: u32| {
        translation_verses_bytes_key(t, &VerseKey { book: 1, chapter: 1, verse: v })
    };
    assert_eq!(map.get(key(0, 1)), Some(0));
    assert_eq!(map.get(key(0, 3)), Some(1));
    assert_eq!(map.get(key(1, 1)), Some(2));
    assert_eq!(map.get(key(1, 3)), None);
}

#[test]
fn dictionary_numbers_the_tokens_in_ascending_order() {
    let maps = small_corpus();
    let (reverse_index, fst_bytes, words) = build_reverse_index(&maps.words, &maps.counts).unwrap();
    let tokens = ["BE", "BEGINNING", "GOD", "IN", "LET", "LIGHT", "SAID", "THE", "THERE"];
    let expected: Vec<(Vec<u8>, u64)> =
        tokens.iter().enumerate().map(|(i, t)| (t.as_bytes().to_vec(), i as u64)).collect();
    assert_eq!(pairs_of(&fst_bytes), expected);
    assert_eq!(reverse_index.len(), tokens.len());
    assert_eq!(
        words,
        vec![
            "God", "In", "Let", "be", "beginning", "god", "light", "said", "the", "there"
        ]
    );
}

#[test]
fn reverse_index_holds_counts_and_highlight_ids_per_verse() {
    let maps = small_corpus();
    let (reverse_index, fst_bytes, words) = build_reverse_index(&maps.words, &maps.counts).unwrap();
    let dictionary = fst::Map::new(fst_bytes).unwrap();
    let god = &reverse_index[dictionary.get("GOD").unwrap() as usize];
    let first = VerseKey { book: 1, chapter: 1, verse: 1 }.to_be_bytes();
    let third = VerseKey { book: 1, chapter: 1, verse: 3 }.to_be_bytes();
    assert_eq!(pairs_of(&god.counts_map_bytes), vec![(first.clone(), 0), (third.clone(), 1)]);
    assert_eq!(pairs_of(&god.highlights_map_bytes), vec![(first, 0), (third, 1)]);
    assert_eq!(god.counts_map_data, vec![be64(&[1, 1, 0]), be64(&[1, 0, 0])]);
    let id = |w: &str| words.iter().position(|x| x == w).unwrap() as u64;
    assert_eq!(god.highlights_map_data, vec![be64(&[id("God"), id("god")]), be64(&[id("God")])]);
    assert_eq!(id("God"), 0);
    assert_eq!(id("god"), 5);
    let said = &reverse_index[dictionary.get("SAID").unwrap() as usize];
    assert_eq!(said.counts_map_data, vec![be64(&[1, 0, 0])]);
    assert_eq!(said.highlights_map_data, vec![be64(&[id("said")])]);
}

#[test]
fn reverse_index_fails_on_unknown_spelling() {
    let maps = small_corpus();
    let no_words: HighlightWords = ByteMap::new();
    assert_eq!(build_reverse_index(&no_words, &maps.counts), Err(BuildError::MissingHighlight));
    let no_counts: TokenCounts = ByteMap::new();
    let (reverse_index, fst_bytes, words) = build_reverse_index(&maps.words, &no_counts).unwrap();
    assert_eq!(reverse_index, vec![]);
    assert_eq!(pairs_of(&fst_bytes), vec![]);
    assert_eq!(words.len(), 10);
}

#[test]
fn proximity_table_uses_the_ids_of_the_dictionary() {
    let maps = small_corpus();
    let (_, fst_bytes, _) = build_reverse_index(&maps.words, &maps.counts).unwrap();
    let dictionary = fst::Map::new(fst_bytes).unwrap();
    let table = fst::Map::new(build_proximity_fst_bytes(&maps.distances, &maps.counts).unwrap())
        .unwrap();
    let id = |token: &str| dictionary.get(token).unwrap() as u16;
    let first = VerseKey { book: 1, chapter: 1, verse: 1 };
    let third = VerseKey { book: 1, chapter: 1, verse: 3 };
    assert_eq!(table.get(proximity_bytes_key(0, &first, id("IN"), id("THE"))), Some(1));
    assert_eq!(table.get(proximity_bytes_key(0, &first, id("IN"), id("GOD"))), Some(3));
    assert_eq!(table.get(proximity_bytes_key(1, &first, id("THE"), id("GOD"))), Some(2));
    assert_eq!(table.get(proximity_bytes_key(0, &third, id("GOD"), id("LIGHT"))), Some(5));
    assert_eq!(table.get(proximity_bytes_key(0, &third, id("LIGHT"), id("GOD"))), None);
    assert_eq!(table.get(proximity_bytes_key(2, &first, id("IN"), id("THE"))), None);
    // 6 pairs in each four-word verse, 15 in the six-word verse.
    assert_eq!(table.len(), 6 + 15 + 6);
}

#[test]
fn proximity_keys_ascend() {
    let maps = small_corpus();
    let pairs = pairs_of(&build_proximity_fst_bytes(&maps.distances, &maps.counts).unwrap());
    assert_eq!(pairs.len(), 27);
    for window in pairs.windows(2) {
        assert!(window[0].0 < window[1].0);
        assert_eq!(window[0].0.len(), 17);
    }
    // BEGINNING = 1, GOD = 2, IN = 3, THE = 7
    assert_eq!(pairs[0], (vec![0, 0, 0, 0, 1, 0, 0, 0, 1, 0, 0, 0, 1, 0, 1, 0, 2], 1));
    assert_eq!(pairs[1], (vec![0, 0, 0, 0, 1, 0, 0, 0, 1, 0, 0, 0, 1, 0, 3, 0, 1], 2));
}

#[test]
fn proximity_table_fails_on_unknown_token() {
    let maps = small_corpus();
    let no_counts: TokenCounts = ByteMap::new();
    assert_eq!(
        build_proximity_fst_bytes(&maps.distances, &no_counts),
        Err(BuildError::MissingToken)
    );
    let nothing: Proximities = ByteMap::new();
    assert_eq!(pairs_of(&build_proximity_fst_bytes(&nothing, &no_counts).unwrap()), vec![]);
}

fn documents() -> Vec<TranslationData> {
    vec![
        TranslationData {
            translation: 0,
            verses: vec![
                record(1, 1, 1, "In the beginning God"),
                record(1, 1, 3, "God said, Let there be light"),
            ],
        },
        TranslationData { translation: 1, verses: vec![record(1, 1, 1, "In the beginning, god")] },
    ]
}

#[test]
fn get_index_compiles_all_parts() {
    let index = get_index(&documents()).unwrap();
    let maps = small_corpus();
    let (reverse_index, fst_bytes, words) = build_reverse_index(&maps.words, &maps.counts).unwrap();
    let proximities_bytes = build_proximity_fst_bytes(&maps.distances, &maps.counts).unwrap();
    let (texts_bytes, strings) = build_translation_verses_bytes(&maps.texts).unwrap();
    assert_eq!(
        index,
        VersearchIndex::new(
            fst_bytes,
            reverse_index,
            proximities_bytes,
            words,
            texts_bytes,
            strings
        )
    );
    assert_eq!(fst::Map::new(index.fst_bytes.clone()).unwrap().get("LIGHT"), Some(5));
    assert_eq!(index.translation_verses_strings.len(), 3);
}

#[test]
fn get_index_of_nothing_is_empty() {
    let index = get_index(&[]).unwrap();
    assert_eq!(pairs_of(&index.fst_bytes), vec![]);
    assert_eq!(pairs_of(&index.proximities_bytes), vec![]);
    assert_eq!(pairs_of(&index.translation_verses_bytes), vec![]);
    assert_eq!(index.reverse_index, vec![]);
    assert_eq!(index.highlight_words, Vec::<String>::new());
    assert_eq!(index.translation_verses_strings, Vec::<String>::new());
}

#[test]
fn rebuilding_gives_the_same_bytes() {
    let first = get_index(&documents()).unwrap();
    let second = get_index(&documents()).unwrap();
    assert_eq!(first, second);
    assert_eq!(first.fst_bytes, second.fst_bytes);
    assert_eq!(first.proximities_bytes, second.proximities_bytes);
}

#[test]
fn shared_verse_key_gives_one_text_per_translation_and_one_counts_entry() {
    let documents = vec![
        TranslationData { translation: 0, verses: vec![record(43, 11, 35, "Jesus wept")] },
        TranslationData { translation: 2, verses: vec![record(43, 11, 35, "Jesus wept wept")] },
    ];
    let index = get_index(&documents).unwrap();
    assert_eq!(index.translation_verses_strings, vec!["Jesus wept", "Jesus wept wept"]);
    let key = VerseKey { book: 43, chapter: 11, verse: 35 };
    let texts = fst::Map::new(index.translation_verses_bytes.clone()).unwrap();
    assert_eq!(texts.get(translation_verses_bytes_key(0, &key)), Some(0));
    assert_eq!(texts.get(translation_verses_bytes_key(2, &key)), Some(1));
    assert_eq!(texts.len(), 2);
    let dictionary = fst::Map::new(index.fst_bytes.clone()).unwrap();
    let wept = &index.reverse_index[dictionary.get("WEPT").unwrap() as usize];
    assert_eq!(wept.counts_map_data, vec![be64(&[1, 0, 2])]);
    assert_eq!(wept.counts_map_data[0].len(), 3 * 8);
    assert_eq!(pairs_of(&wept.counts_map_bytes), vec![(key.to_be_bytes(), 0)]);
}

#[test]
fn unknown_translation_ends_the_build() {
    let mut documents = documents();
    documents[1].translation = 3;
    assert_eq!(get_index(&documents), Err(BuildError::UnknownTranslation));
    documents[1].translation = -1;
    assert_eq!(get_index(&documents), Err(BuildError::UnknownTranslation));
}

#[test]
fn verse_without_key_ends_the_build() {
    let mut documents = documents();
    documents[0].verses[1].key = None;
    assert_eq!(get_index(&documents), Err(BuildError::MissingVerseKey));
    // The first faulty document decides.
    documents.insert(0, TranslationData { translation: 9, verses: vec![] });
    assert_eq!(get_index(&documents), Err(BuildError::UnknownTranslation));
}

#[test]
fn more_tokens_than_two_bytes_can_number_end_the_build() {
    let verses: Vec<VerseText> =
        (0..65537).map(|i| verse(1, 1, i, &format!("T{:05}", i))).collect();
    let mut maps = empty();
    take_in(&mut maps, Translation::Kjv, &verses[..65536]);
    assert_eq!(maps.counts.len(), 65536);
    assert_eq!(pairs_of(&build_proximity_fst_bytes(&maps.distances, &maps.counts).unwrap()), vec![]);
    take_in(&mut maps, Translation::Kjv, &verses[65536..]);
    assert_eq!(maps.counts.len(), 65537);
    assert_eq!(
        build_proximity_fst_bytes(&maps.distances, &maps.counts),
        Err(BuildError::TokenIdOverflow)
    );
}

#[test]
fn empty_token_is_the_first_of_the_dictionary() {
    let mut maps = empty();
    take_in(&mut maps, Translation::Net, &[verse(5, 6, 7, "Hear, ... O Israel ...")]);
    let (reverse_index, fst_bytes, words) = build_reverse_index(&maps.words, &maps.counts).unwrap();
    assert_eq!(
        pairs_of(&fst_bytes),
        vec![
            (b"".to_vec(), 0),
            (b"HEAR".to_vec(), 1),
            (b"ISRAEL".to_vec(), 2),
            (b"O".to_vec(), 3)
        ]
    );
    assert_eq!(words, vec!["", "Hear", "Israel", "O"]);
    assert_eq!(reverse_index[0].counts_map_data, vec![be64(&[0, 2, 0])]);
    assert_eq!(reverse_index[0].highlights_map_data, vec![be64(&[0])]);
    let table = fst::Map::new(build_proximity_fst_bytes(&maps.distances, &maps.counts).unwrap())
        .unwrap();
    let key = VerseKey { book: 5, chapter: 6, verse: 7 };
    assert_eq!(table.get(proximity_bytes_key(1, &key, 0, 0)), Some(3));
    assert_eq!(table.get(proximity_bytes_key(1, &key, 1, 0)), Some(1));
    assert_eq!(table.get(proximity_bytes_key(1, &key, 0, 3)), Some(1));
    assert_eq!(table.get(proximity_bytes_key(1, &key, 3, 2)), Some(1));
    assert_eq!(table.len(), 9);
}
