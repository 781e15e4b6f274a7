//! The statistics gathered from the verses: how often each token occurs in
//! each verse and translation, under which spellings, and how close pairs of
//! tokens come to each other.

use crate::bytemap::{insert_new, ByteMap};
use crate::codec::{
    lemma_verse_key_len, translation_verses_bytes_key, verse_text_key, Translation, VerseKey,
    TRANSLATION_COUNT, VERSE_KEY_BYTES,
};
use crate::tokenizer::{tokenize, tokenize_spec, views_of, Tokenized, TokenizedView};
use vstd::prelude::*;
use vstd::slice::slice_to_vec;
use vstd::utf8::encode_utf8;

verus! {

/// The largest distance that is kept for a pair of tokens once the pair has
/// been seen again.
pub const MAX_PROXIMITY: u64 = 8;

/// One verse of a translation.
#[derive(Clone, Debug, PartialEq, Eq)]
pub struct VerseText {
    pub key: VerseKey,
    pub text: String,
}

/// A verse as its key and the characters of its text.
pub struct VerseTextView {
    pub key: VerseKey,
    pub text: Seq<char>,
}

impl View for VerseText {
    type V = VerseTextView;

    open spec fn view(&self) -> VerseTextView {
        VerseTextView { key: self.key, text: self.text@ }
    }
}

/// The views of a run of verses.
pub open spec fn verses_of(verses: Seq<VerseText>) -> Seq<VerseTextView> {
    verses.map_values(|v: VerseText| v@)
}

/// What is known of one token in one verse.
pub struct VerseStats {
    counts: Vec<u64>,
    highlights: ByteMap<()>,
}

/// Occurrences per translation, and the spellings that were seen.
pub struct VerseStatsView {
    pub counts: Seq<u64>,
    pub highlights: Set<Seq<u8>>,
}

impl View for VerseStats {
    type V = VerseStatsView;

    closed spec fn view(&self) -> VerseStatsView {
        VerseStatsView { counts: self.counts@, highlights: self.highlights@.dom() }
    }
}

/// A count raised by one, staying at the largest number once it is reached.
pub open spec fn bumped(count: u64) -> u64 {
    if count < u64::MAX {
        (count + 1) as u64
    } else {
        count
    }
}

impl VerseStatsView {
    /// No occurrence in any translation, no spelling.
    pub open spec fn fresh() -> VerseStatsView {
        VerseStatsView {
            counts: Seq::new(TRANSLATION_COUNT as nat, |i: int| 0u64),
            highlights: Set::empty(),
        }
    }

    /// One more occurrence in translation `tidx`, spelled `word`.
    pub open spec fn recorded(self, tidx: int, word: Seq<u8>) -> VerseStatsView {
        VerseStatsView {
            counts: self.counts.update(tidx, bumped(self.counts[tidx])),
            highlights: self.highlights.insert(word),
        }
    }
}

impl VerseStats {
    /// There is one count for each translation and the spellings are in
    /// order.
    pub closed spec fn wf(&self) -> bool {
        &&& self.counts@.len() == TRANSLATION_COUNT
        &&& self.highlights.wf()
    }

    /// Statistics of a token that has not been seen yet.
    pub fn new() -> (stats: Self)
        ensures
            stats.wf(),
            stats@ == VerseStatsView::fresh(),
    {
        let mut counts: Vec<u64> = Vec::with_capacity(TRANSLATION_COUNT);
        let mut i: usize = 0;
        while i < TRANSLATION_COUNT
            invariant
                i <= TRANSLATION_COUNT,
                counts@.len() == i,
                forall|j: int| 0 <= j < i ==> counts@[j] == 0,
            decreases TRANSLATION_COUNT - i,
        {
            counts.push(0);
            i += 1;
        }
        let stats = VerseStats { counts, highlights: ByteMap::new() };
        proof {
            assert(stats@.counts =~= VerseStatsView::fresh().counts);
            assert(stats@.highlights =~= VerseStatsView::fresh().highlights);
        }
        stats
    }

    /// Counts one more occurrence in translation `tidx`, spelled `word`. A
    /// count that has reached the largest number stays there.
    pub fn record(&mut self, tidx: usize, word: &[u8])
        requires
            old(self).wf(),
            tidx < TRANSLATION_COUNT,
        ensures
            final(self).wf(),
            final(self)@ == old(self)@.recorded(tidx as int, word@),
    {
        let count: u64 = self.counts[tidx];
        if count < u64::MAX {
            self.counts[tidx] = count + 1;
        }
        match self.highlights.search(word) {
            Ok(_) => {
                proof {
                    assert(self@.highlights =~= old(self)@.highlights.insert(word@));
                }
            },
            Err(i) => {
                self.highlights.insert_at(i, slice_to_vec(word), ());
                proof {
                    assert(self@.highlights =~= old(self)@.highlights.insert(word@));
                }
            },
        }
        proof {
            assert(self@.counts =~= old(self)@.recorded(tidx as int, word@).counts);
        }
    }

    /// The occurrences, one number for each translation.
    pub fn counts(&self) -> (counts: &Vec<u64>)
        ensures
            counts@ == self@.counts,
    {
        &self.counts
    }

    /// The spellings that were seen, in ascending order of their bytes.
    pub fn highlights(&self) -> (words: &ByteMap<()>)
        requires
            self.wf(),
        ensures
            words.wf(),
            words@.dom() == self@.highlights,
    {
        &self.highlights
    }
}

/// The text of each verse, under the key of its translation and verse.
pub type TranslationVerses = ByteMap<String>;

/// Every spelling that was seen, under its bytes.
pub type HighlightWords = ByteMap<String>;

/// For each token and each verse, the statistics of the token in the verse.
pub type TokenCounts = ByteMap<ByteMap<VerseStats>>;

/// For each translation and verse, each token, and each token that follows
/// it somewhere in the verse, the distance recorded for the pair.
pub type Proximities = ByteMap<ByteMap<ByteMap<u64>>>;

/// The contents of a [`TokenCounts`].
pub type CountsModel = Map<Seq<u8>, Map<Seq<u8>, VerseStatsView>>;

/// The contents of a [`Proximities`].
pub type ProximityModel = Map<Seq<u8>, Map<Seq<u8>, Map<Seq<u8>, u64>>>;

/// The counts after one more occurrence of `word` in verse `vkey` of
/// translation `tidx`.
pub open spec fn count_recorded(
    counts: CountsModel,
    tidx: int,
    vkey: Seq<u8>,
    word: TokenizedView,
) -> CountsModel {
    let token = encode_utf8(word.token);
    let verses = if counts.contains_key(token) {
        counts[token]
    } else {
        Map::empty()
    };
    let stats = if verses.contains_key(vkey) {
        verses[vkey]
    } else {
        VerseStatsView::fresh()
    };
    counts.insert(token, verses.insert(vkey, stats.recorded(tidx, encode_utf8(word.source))))
}

/// The distance kept for a pair that had `stored` and is seen again at
/// distance `seen`: the smaller of the two, but no more than the cap.
pub open spec fn merged_distance(stored: u64, seen: u64) -> u64 {
    let least = if seen < stored {
        seen
    } else {
        stored
    };
    if least > MAX_PROXIMITY {
        MAX_PROXIMITY
    } else {
        least
    }
}

/// The proximities after `second` was seen `distance` words behind `first`
/// in the verse at `place`. A pair seen for the first time gets the distance
/// as it is.
pub open spec fn distance_recorded(
    distances: ProximityModel,
    place: Seq<u8>,
    first: Seq<u8>,
    second: Seq<u8>,
    distance: u64,
) -> ProximityModel {
    let by_first = if distances.contains_key(place) {
        distances[place]
    } else {
        Map::empty()
    };
    let by_second = if by_first.contains_key(first) {
        by_first[first]
    } else {
        Map::empty()
    };
    let kept = if by_second.contains_key(second) {
        merged_distance(by_second[second], distance)
    } else {
        distance
    };
    distances.insert(place, by_first.insert(first, by_second.insert(second, kept)))
}

/// The map is in order and each spelling is stored under its own bytes.
pub open spec fn words_wf(words: &HighlightWords) -> bool {
    &&& words.wf()
    &&& forall|i: int|
        0 <= i < words.values().len() ==> encode_utf8((#[trigger] words.values()[i])@)
            == words.keys()[i]
}

/// The verses of one token are in order and each has one count for each
/// translation.
pub open spec fn verse_stats_wf(verses: &ByteMap<VerseStats>) -> bool {
    &&& verses.wf()
    &&& forall|j: int| 0 <= j < verses.values().len() ==> (#[trigger] verses.values()[j]).wf()
}

/// Every level of the counts is in order and every entry has one count for
/// each translation.
pub open spec fn counts_wf(counts: &TokenCounts) -> bool {
    &&& counts.wf()
    &&& forall|i: int|
        0 <= i < counts.values().len() ==> verse_stats_wf(#[trigger] &counts.values()[i])
}

/// The followers of one token are in order and every distance is at least
/// one.
pub open spec fn followers_wf(followers: &ByteMap<u64>) -> bool {
    &&& followers.wf()
    &&& forall|k: int| 0 <= k < followers.values().len() ==> #[trigger] followers.values()[k] >= 1
}

/// The tokens of one verse are in order, and so is what follows each.
pub open spec fn pairs_wf(pairs: &ByteMap<ByteMap<u64>>) -> bool {
    &&& pairs.wf()
    &&& forall|j: int| 0 <= j < pairs.values().len() ==> followers_wf(#[trigger] &pairs.values()[j])
}

/// Every level of the proximities is in order, every place is the key of a
/// translation and verse, and every distance is at least one.
pub open spec fn proximities_wf(distances: &Proximities) -> bool {
    &&& distances.wf()
    &&& forall|i: int|
        0 <= i < distances.keys().len() ==> (#[trigger] distances.keys()[i]).len() == 1
            + VERSE_KEY_BYTES
    &&& forall|i: int|
        0 <= i < distances.values().len() ==> pairs_wf(#[trigger] &distances.values()[i])
}

/// Counts one occurrence of `word` in verse `vkey` of translation `tidx`.
fn record_count(counts: &mut TokenCounts, tidx: usize, vkey: &Vec<u8>, word: &Tokenized)
    requires
        counts_wf(old(counts)),
        tidx < TRANSLATION_COUNT,
    ensures
        counts_wf(final(counts)),
        final(counts)@ == count_recorded(old(counts)@, tidx as int, vkey@, word@),
{
    let token = word.token.as_str().as_bytes();
    let source = word.source.as_str().as_bytes();
    let ghost m0 = *counts;
    let i = match counts.search(token) {
        Ok(i) => i,
        Err(i) => {
            counts.insert_at(i, slice_to_vec(token), ByteMap::new());
            i
        },
    };
    let ghost m1 = *counts;
    proof {
        m1.lemma_entry(i as int);
        assert forall|x: int| 0 <= x < m1.values().len() implies verse_stats_wf(
            #[trigger] &m1.values()[x],
        ) by {
            if m0@.contains_key(token@) {
            } else if x < i {
                assert(m1.values()[x] == m0.values()[x]);
            } else if x > i {
                assert(m1.values()[x] == m0.values()[x - 1]);
            }
        }
    }
    let verses = counts.value_mut(i);
    let ghost v0 = *verses;
    let j = match verses.search(vkey.as_slice()) {
        Ok(j) => j,
        Err(j) => {
            verses.insert_at(j, vkey.clone(), VerseStats::new());
            j
        },
    };
    let ghost v1 = *verses;
    proof {
        v1.lemma_entry(j as int);
        assert forall|x: int| 0 <= x < v1.values().len() implies (#[trigger] v1.values()[x]).wf() by {
            if v0@.contains_key(vkey@) {
            } else if x < j {
                assert(v1.values()[x] == v0.values()[x]);
            } else if x > j {
                assert(v1.values()[x] == v0.values()[x - 1]);
            }
        }
    }
    let stats = verses.value_mut(j);
    stats.record(tidx, source);
    let ghost v2 = *verses;
    proof {
        v1.lemma_value_changed(&v2, j as int);
    }
    proof {
        m1.lemma_value_changed(counts, i as int);
        let verses_before = if m0@.contains_key(token@) {
            m0@[token@]
        } else {
            Map::empty()
        };
        assert(v0@ == verses_before);
        let stats_before = if verses_before.contains_key(vkey@) {
            verses_before[vkey@]
        } else {
            VerseStatsView::fresh()
        };
        assert(v1.values()[j as int]@ == stats_before);
        assert(v2@ =~= verses_before.insert(vkey@, stats_before.recorded(tidx as int, source@)));
        assert(counts@ =~= count_recorded(m0@, tidx as int, vkey@, word@));
    }
}

/// Records that `second` was seen `distance` words behind `first` in the
/// verse at `place`.
fn record_distance(
    distances: &mut Proximities,
    place: &Vec<u8>,
    first: &[u8],
    second: &[u8],
    distance: u64,
)
    requires
        proximities_wf(old(distances)),
        place@.len() == 1 + VERSE_KEY_BYTES,
        distance >= 1,
    ensures
        proximities_wf(final(distances)),
        final(distances)@ == distance_recorded(
            old(distances)@,
            place@,
            first@,
            second@,
            distance,
        ),
{
    let ghost m0 = *distances;
    let i = distances.position_or_insert(place.as_slice(), ByteMap::new());
    let ghost m1 = *distances;
    proof {
        m1.lemma_entry(i as int);
        assert forall|x: int| 0 <= x < m1.values().len() implies pairs_wf(
            #[trigger] &m1.values()[x],
        ) by {
            if m0@.contains_key(place@) {
            } else if x < i {
                assert(m1.values()[x] == m0.values()[x]);
            } else if x > i {
                assert(m1.values()[x] == m0.values()[x - 1]);
            }
        }
        assert forall|x: int| 0 <= x < m1.keys().len() implies (#[trigger] m1.keys()[x]).len() == 1
            + VERSE_KEY_BYTES by {
            if m0@.contains_key(place@) {
            } else if x < i {
                assert(m1.keys()[x] == m0.keys()[x]);
            } else if x > i {
                assert(m1.keys()[x] == m0.keys()[x - 1]);
            }
        }
    }
    let by_first = distances.value_mut(i);
    let ghost f0 = *by_first;
    let j = by_first.position_or_insert(first, ByteMap::new());
    let ghost f1 = *by_first;
    proof {
        f1.lemma_entry(j as int);
        assert forall|x: int| 0 <= x < f1.values().len() implies followers_wf(
            #[trigger] &f1.values()[x],
        ) by {
            if f0@.contains_key(first@) {
            } else if x < j {
                assert(f1.values()[x] == f0.values()[x]);
            } else if x > j {
                assert(f1.values()[x] == f0.values()[x - 1]);
            }
        }
    }
    let by_second = by_first.value_mut(j);
    let ghost s0 = *by_second;
    match by_second.search(second) {
        Ok(k) => {
            let stored: u64 = *by_second.value(k);
            let least: u64 = if distance < stored {
                distance
            } else {
                stored
            };
            let kept: u64 = if least > MAX_PROXIMITY {
                MAX_PROXIMITY
            } else {
                least
            };
            proof {
                s0.lemma_entry(k as int);
            }
            *by_second.value_mut(k) = kept;
            proof {
                s0.lemma_value_changed(by_second, k as int);
            }
        },
        Err(k) => {
            by_second.insert_at(k, slice_to_vec(second), distance);
            proof {
                assert forall|x: int| 0 <= x < by_second.values().len() implies #[trigger] by_second.values()[x]
                    >= 1 by {
                    if x < k {
                        assert(by_second.values()[x] == s0.values()[x]);
                    } else if x > k {
                        assert(by_second.values()[x] == s0.values()[x - 1]);
                    }
                }
            }
        },
    }
    let ghost s1 = *by_second;
    let ghost f2 = *by_first;
    proof {
        f1.lemma_value_changed(&f2, j as int);
        m1.lemma_value_changed(distances, i as int);
        let pairs_before = if m0@.contains_key(place@) {
            m0@[place@]
        } else {
            Map::empty()
        };
        assert(f0@ == pairs_before);
        let followers_before = if pairs_before.contains_key(first@) {
            pairs_before[first@]
        } else {
            Map::empty()
        };
        assert(s0@ == followers_before);
        let kept = if followers_before.contains_key(second@) {
            merged_distance(followers_before[second@], distance)
        } else {
            distance
        };
        assert(s1@ =~= followers_before.insert(second@, kept));
        assert(f2@ =~= pairs_before.insert(first@, s1@));
        assert(distances@ =~= distance_recorded(m0@, place@, first@, second@, distance));
    }
}

/// Keeps the text of a verse unless the verse has a text already.
fn record_text(texts: &mut TranslationVerses, place: &Vec<u8>, text: &String)
    requires
        old(texts).wf(),
    ensures
        final(texts).wf(),
        final(texts)@ == insert_new(old(texts)@, place@, text@),
{
    match texts.search(place.as_slice()) {
        Ok(_) => {},
        Err(i) => {
            texts.insert_at(i, place.clone(), text.clone());
        },
    }
}

/// Adds a spelling to the spellings seen.
fn record_word(words: &mut HighlightWords, word: &Tokenized)
    requires
        words_wf(old(words)),
    ensures
        words_wf(final(words)),
        final(words)@ == insert_new(old(words)@, encode_utf8(word@.source), word@.source),
{
    let source = word.source.as_str().as_bytes();
    let ghost w0 = *words;
    match words.search(source) {
        Ok(_) => {},
        Err(i) => {
            words.insert_at(i, slice_to_vec(source), word.source.clone());
            proof {
                assert forall|x: int| 0 <= x < words.values().len() implies encode_utf8(
                    (#[trigger] words.values()[x])@,
                ) == words.keys()[x] by {
                    if x < i {
                        assert(words.values()[x] == w0.values()[x]);
                    } else if x > i {
                        assert(words.values()[x] == w0.values()[x - 1]);
                    }
                }
            }
        },
    }
}

/// Everything gathered from the verses, as plain maps.
pub struct CorpusView {
    /// The text of each verse, under the key of its translation and verse.
    pub texts: Map<Seq<u8>, Seq<char>>,
    /// Every spelling that was seen, under its bytes.
    pub words: Map<Seq<u8>, Seq<char>>,
    /// The statistics of each token in each verse.
    pub counts: CountsModel,
    /// The distance recorded for each pair of tokens in each verse of each
    /// translation.
    pub distances: ProximityModel,
}

/// What the four maps hold together.
pub open spec fn corpus_of(
    texts: &TranslationVerses,
    words: &HighlightWords,
    counts: &TokenCounts,
    distances: &Proximities,
) -> CorpusView {
    CorpusView { texts: texts@, words: words@, counts: counts@, distances: distances@ }
}

/// The key under which a token or a spelling is stored: its bytes.
pub open spec fn text_key(s: Seq<char>) -> Seq<u8> {
    encode_utf8(s)
}

/// The proximities after the word at position `i` has been paired with
/// each word behind it, up to but not including position `upto`. The distance
/// of a pair is the difference of the positions.
pub open spec fn followers_recorded(
    distances: ProximityModel,
    place: Seq<u8>,
    words: Seq<TokenizedView>,
    i: int,
    upto: int,
) -> ProximityModel
    decreases upto - i,
{
    if upto <= i + 1 {
        distances
    } else {
        distance_recorded(
            followers_recorded(distances, place, words, i, upto - 1),
            place,
            text_key(words[i].token),
            text_key(words[upto - 1].token),
            (upto - 1 - i) as u64,
        )
    }
}

/// The corpus after the word at position `i` of a verse has been taken in:
/// its spelling is kept, its occurrence is counted, and it is paired with
/// every word behind it.
pub open spec fn word_recorded(
    corpus: CorpusView,
    tidx: u8,
    key: VerseKey,
    words: Seq<TokenizedView>,
    i: int,
) -> CorpusView {
    CorpusView {
        texts: corpus.texts,
        words: insert_new(corpus.words, text_key(words[i].source), words[i].source),
        counts: count_recorded(corpus.counts, tidx as int, key.bytes(), words[i]),
        distances: followers_recorded(
            corpus.distances,
            verse_text_key(tidx, key),
            words,
            i,
            words.len() as int,
        ),
    }
}

/// The corpus after the first `n` words of a verse have been taken in.
pub open spec fn words_recorded(
    corpus: CorpusView,
    tidx: u8,
    key: VerseKey,
    words: Seq<TokenizedView>,
    n: int,
) -> CorpusView
    decreases n,
{
    if n <= 0 {
        corpus
    } else {
        word_recorded(words_recorded(corpus, tidx, key, words, n - 1), tidx, key, words, n - 1)
    }
}

/// The corpus after a verse of translation `tidx` has been taken in: its
/// text is kept unless the verse has one already, and each of its words is
/// taken in.
pub open spec fn verse_recorded(corpus: CorpusView, tidx: u8, verse: VerseTextView) -> CorpusView {
    let words = tokenize_spec(verse.text);
    words_recorded(
        CorpusView {
            texts: insert_new(corpus.texts, verse_text_key(tidx, verse.key), verse.text),
            ..corpus
        },
        tidx,
        verse.key,
        words,
        words.len() as int,
    )
}

/// The corpus after a run of verses of translation `tidx` has been taken
/// in, one after the other.
pub open spec fn verses_recorded(
    corpus: CorpusView,
    tidx: u8,
    verses: Seq<VerseTextView>,
) -> CorpusView
    decreases verses.len(),
{
    if verses.len() == 0 {
        corpus
    } else {
        verse_recorded(verses_recorded(corpus, tidx, verses.drop_last()), tidx, verses.last())
    }
}

/// Takes the verses of one translation into the four maps, one verse after
/// the other.
///
/// The text of a verse is kept unless the verse has one already. Each word
/// of the text adds its spelling to the spellings seen, counts once for its
/// token in this verse and translation, and is paired with every word behind
/// it: a pair seen for the first time gets the difference of the positions
/// as its distance, a pair seen again keeps the smaller distance, cut to
/// [`MAX_PROXIMITY`].
pub fn process_verses(
    translation_key: Translation,
    verses: &[VerseText],
    translation_verses: &mut TranslationVerses,
    highlight_words: &mut HighlightWords,
    wip_token_counts: &mut TokenCounts,
    proximities: &mut Proximities,
)
    requires
        old(translation_verses).wf(),
        words_wf(old(highlight_words)),
        counts_wf(old(wip_token_counts)),
        proximities_wf(old(proximities)),
    ensures
        final(translation_verses).wf(),
        words_wf(final(highlight_words)),
        counts_wf(final(wip_token_counts)),
        proximities_wf(final(proximities)),
        corpus_of(
            final(translation_verses),
            final(highlight_words),
            final(wip_token_counts),
            final(proximities),
        ) == verses_recorded(
            corpus_of(
                old(translation_verses),
                old(highlight_words),
                old(wip_token_counts),
                old(proximities),
            ),
            translation_key.index(),
            verses_of(verses@),
        ),
{
    let tidx: u8 = translation_key.index();
    let ghost c0 = corpus_of(translation_verses, highlight_words, wip_token_counts, proximities);
    let ghost all = verses_of(verses@);
    let mut v: usize = 0;
    proof {
        assert(all.take(0) =~= Seq::<VerseTextView>::empty());
    }
    while v < verses.len()
        invariant
            v <= verses.len(),
            tidx == translation_key.index(),
            all == verses_of(verses@),
            translation_verses.wf(),
            words_wf(highlight_words),
            counts_wf(wip_token_counts),
            proximities_wf(proximities),
            corpus_of(translation_verses, highlight_words, wip_token_counts, proximities)
                == verses_recorded(c0, tidx, all.take(v as int)),
        decreases verses.len() - v,
    {
        let verse = &verses[v];
        let ghost c1 = corpus_of(translation_verses, highlight_words, wip_token_counts, proximities);
        let place = translation_verses_bytes_key(tidx, &verse.key);
        let vkey = verse.key.to_be_bytes();
        proof {
            lemma_verse_key_len(verse.key);
        }
        record_text(translation_verses, &place, &verse.text);
        let tokens = tokenize(verse.text.as_str());
        let ghost words = views_of(tokens@);
        let ghost c2 = corpus_of(translation_verses, highlight_words, wip_token_counts, proximities);
        let mut i: usize = 0;
        while i < tokens.len()
            invariant
                i <= tokens.len(),
                words == views_of(tokens@),
                place@ == verse_text_key(tidx, verse.key),
                place@.len() == 1 + VERSE_KEY_BYTES,
                vkey@ == verse.key.bytes(),
                tidx < TRANSLATION_COUNT,
                translation_verses.wf(),
                words_wf(highlight_words),
                counts_wf(wip_token_counts),
                proximities_wf(proximities),
                corpus_of(translation_verses, highlight_words, wip_token_counts, proximities)
                    == words_recorded(c2, tidx, verse.key, words, i as int),
            decreases tokens.len() - i,
        {
            let ghost c3 = corpus_of(
                translation_verses,
                highlight_words,
                wip_token_counts,
                proximities,
            );
            record_word(highlight_words, &tokens[i]);
            record_count(wip_token_counts, tidx as usize, &vkey, &tokens[i]);
            let first = tokens[i].token.as_str().as_bytes();
            let mut j: usize = i + 1;
            while j < tokens.len()
                invariant
                    i < j <= tokens.len(),
                    words == views_of(tokens@),
                    first@ == text_key(words[i as int].token),
                    place@.len() == 1 + VERSE_KEY_BYTES,
                    proximities_wf(proximities),
                    proximities@ == followers_recorded(c3.distances, place@, words, i as int, j as int),
                decreases tokens.len() - j,
            {
                let second = tokens[j].token.as_str().as_bytes();
                record_distance(proximities, &place, first, second, (j - i) as u64);
                j += 1;
            }
            i += 1;
        }
        proof {
            assert(all.take(v + 1).drop_last() =~= all.take(v as int));
            assert(all.take(v + 1).last() == verse@);
        }
        v += 1;
    }
    proof {
        assert(all.take(verses@.len() as int) =~= all);
    }
}

} // verus!
