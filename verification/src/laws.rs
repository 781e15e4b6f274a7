//! What holds of every corpus and every index: counts are numbers of
//! occurrences, distances stay within their bounds, token ids agree across
//! the parts of the index, keys tell translations and verses apart, and the
//! same documents give the same index.

use crate::assemble::{
    build_outcome, document_fault, documents_recorded, empty_corpus, first_fault, keyed,
    TranslationDataView, VersearchIndexView,
};
use crate::bytemap::insert_new;
use crate::codec::{
    lemma_verse_key_len, lemma_verse_key_round_trip, verse_text_key, VerseKey, TRANSLATION_COUNT,
};
use crate::index::{ranked, BuildError};
use crate::lex::{ascending, lemma_ascending_lists, lemma_rank, rank_in};
use crate::stats::{
    count_recorded, distance_recorded, followers_recorded, merged_distance, text_key,
    verse_recorded, verses_recorded, words_recorded, CorpusView, CountsModel, ProximityModel, VerseStatsView,
    VerseTextView, MAX_PROXIMITY,
};
use crate::tokenizer::{tokenize_spec, TokenizedView};
use vstd::prelude::*;

verus! {

/// Every entry has one count for each translation.
pub open spec fn shaped(counts: CountsModel) -> bool {
    forall|token: Seq<u8>, vkey: Seq<u8>|
        counts.contains_key(token) && #[trigger] counts[token].contains_key(vkey)
            ==> counts[token][vkey].counts.len() == TRANSLATION_COUNT
}

/// The count recorded for a token in a verse and a translation; zero where
/// nothing is recorded.
pub open spec fn recorded_count(counts: CountsModel, token: Seq<u8>, vkey: Seq<u8>, t: int) -> nat {
    if counts.contains_key(token) && counts[token].contains_key(vkey) {
        counts[token][vkey].counts[t] as nat
    } else {
        0
    }
}

/// A number of occurrences as a count can hold it.
pub open spec fn capped(n: nat) -> nat {
    if n > u64::MAX {
        u64::MAX as nat
    } else {
        n
    }
}

/// How often `token` is the token of one of the words.
pub open spec fn occurrences(words: Seq<TokenizedView>, token: Seq<u8>) -> nat
    decreases words.len(),
{
    if words.len() == 0 {
        0
    } else {
        occurrences(words.drop_last(), token) + if text_key(words.last().token) == token {
            1nat
        } else {
            0nat
        }
    }
}

/// How often `token` occurs in those of the verses that have the key
/// `vkey`.
pub open spec fn verse_occurrences(
    verses: Seq<VerseTextView>,
    vkey: Seq<u8>,
    token: Seq<u8>,
) -> nat
    decreases verses.len(),
{
    if verses.len() == 0 {
        0
    } else {
        verse_occurrences(verses.drop_last(), vkey, token) + if verses.last().key.bytes() == vkey {
            occurrences(tokenize_spec(verses.last().text), token)
        } else {
            0nat
        }
    }
}

/// How often `token` occurs in the verses with key `vkey` of the documents
/// of translation `t`.
pub open spec fn translation_occurrences(
    documents: Seq<TranslationDataView>,
    t: int,
    vkey: Seq<u8>,
    token: Seq<u8>,
) -> nat
    decreases documents.len(),
{
    if documents.len() == 0 {
        0
    } else {
        translation_occurrences(documents.drop_last(), t, vkey, token) + if documents.last().translation
            == t {
            verse_occurrences(keyed(documents.last().verses), vkey, token)
        } else {
            0nat
        }
    }
}

/// How often `token` occurs in the verses with key `vkey` of all the
/// documents.
pub open spec fn total_occurrences(
    documents: Seq<TranslationDataView>,
    vkey: Seq<u8>,
    token: Seq<u8>,
) -> nat
    decreases documents.len(),
{
    if documents.len() == 0 {
        0
    } else {
        total_occurrences(documents.drop_last(), vkey, token) + verse_occurrences(
            keyed(documents.last().verses),
            vkey,
            token,
        )
    }
}

/// The sum of the counts.
pub open spec fn sum_of(counts: Seq<u64>) -> nat
    decreases counts.len(),
{
    if counts.len() == 0 {
        0
    } else {
        sum_of(counts.drop_last()) + counts.last() as nat
    }
}

/// Counting one occurrence raises the count of that token, verse and
/// translation by one, up to the largest number, and changes no other count.
pub proof fn lemma_count_recorded(
    counts: CountsModel,
    tidx: int,
    vk: Seq<u8>,
    word: TokenizedView,
    token: Seq<u8>,
    vkey: Seq<u8>,
    t: int,
)
    requires
        shaped(counts),
        0 <= tidx < TRANSLATION_COUNT,
        0 <= t < TRANSLATION_COUNT,
    ensures
        shaped(count_recorded(counts, tidx, vk, word)),
        recorded_count(count_recorded(counts, tidx, vk, word), token, vkey, t) == if text_key(
            word.token,
        ) == token && vk == vkey && t == tidx {
            capped(recorded_count(counts, token, vkey, t) + 1)
        } else {
            recorded_count(counts, token, vkey, t)
        },
{
    let after = count_recorded(counts, tidx, vk, word);
    let tk = text_key(word.token);
    let verses = if counts.contains_key(tk) {
        counts[tk]
    } else {
        Map::empty()
    };
    let stats = if verses.contains_key(vk) {
        verses[vk]
    } else {
        VerseStatsView::fresh()
    };
    assert(stats.counts.len() == TRANSLATION_COUNT);
    assert forall|a: Seq<u8>, b: Seq<u8>|
        after.contains_key(a) && #[trigger] after[a].contains_key(b) implies after[a][b].counts.len()
        == TRANSLATION_COUNT by {
        if a == tk {
            if b != vk {
                assert(counts[a].contains_key(b));
            }
        } else {
            assert(counts[a].contains_key(b));
        }
    }
}

/// Taking in the first `n` words of a verse raises the count of each token
/// by its occurrences among them.
pub proof fn lemma_words_recorded_count(
    corpus: CorpusView,
    tidx: u8,
    key: VerseKey,
    words: Seq<TokenizedView>,
    n: int,
    token: Seq<u8>,
    vkey: Seq<u8>,
    t: int,
)
    requires
        shaped(corpus.counts),
        tidx < TRANSLATION_COUNT,
        0 <= t < TRANSLATION_COUNT,
        0 <= n <= words.len(),
    ensures
        shaped(words_recorded(corpus, tidx, key, words, n).counts),
        recorded_count(words_recorded(corpus, tidx, key, words, n).counts, token, vkey, t)
            == if key.bytes() == vkey && t == tidx {
            capped(recorded_count(corpus.counts, token, vkey, t) + occurrences(words.take(n), token))
        } else {
            recorded_count(corpus.counts, token, vkey, t)
        },
    decreases n,
{
    if n > 0 {
        lemma_words_recorded_count(corpus, tidx, key, words, n - 1, token, vkey, t);
        let before = words_recorded(corpus, tidx, key, words, n - 1);
        lemma_count_recorded(before.counts, tidx as int, key.bytes(), words[n - 1], token, vkey, t);
        assert(words.take(n).drop_last() =~= words.take(n - 1));
        assert(words.take(n).last() == words[n - 1]);
    } else {
        assert(words.take(0) =~= Seq::<TokenizedView>::empty());
    }
}

/// Taking in a run of verses of one translation raises the count of each
/// token in each verse by its occurrences in the verses with that key, up to
/// the largest number, and leaves the counts of the other translations as
/// they were.
pub proof fn lemma_verses_recorded_count(
    corpus: CorpusView,
    tidx: u8,
    verses: Seq<VerseTextView>,
    token: Seq<u8>,
    vkey: Seq<u8>,
    t: int,
)
    requires
        shaped(corpus.counts),
        tidx < TRANSLATION_COUNT,
        0 <= t < TRANSLATION_COUNT,
    ensures
        shaped(verses_recorded(corpus, tidx, verses).counts),
        recorded_count(verses_recorded(corpus, tidx, verses).counts, token, vkey, t) == if t
            == tidx {
            capped(recorded_count(corpus.counts, token, vkey, t) + verse_occurrences(verses, vkey, token))
        } else {
            recorded_count(corpus.counts, token, vkey, t)
        },
    decreases verses.len(),
{
    if verses.len() > 0 {
        lemma_verses_recorded_count(corpus, tidx, verses.drop_last(), token, vkey, t);
        let before = verses_recorded(corpus, tidx, verses.drop_last());
        let verse = verses.last();
        let words = tokenize_spec(verse.text);
        let start = CorpusView {
            texts: insert_new(before.texts, verse_text_key(tidx, verse.key), verse.text),
            ..before
        };
        lemma_words_recorded_count(start, tidx, verse.key, words, words.len() as int, token, vkey, t);
        assert(words.take(words.len() as int) =~= words);
    }
}

/// In the corpus of a run of sound documents, the count of a token in a
/// verse and a translation is the number of the token's occurrences in the
/// verses with that key of the documents of that translation, or the largest
/// number a count can hold if there are more.
pub proof fn lemma_counts_are_occurrences(
    documents: Seq<TranslationDataView>,
    token: Seq<u8>,
    vkey: Seq<u8>,
    t: int,
)
    requires
        first_fault(documents) is None,
        0 <= t < TRANSLATION_COUNT,
    ensures
        shaped(documents_recorded(empty_corpus(), documents).counts),
        recorded_count(documents_recorded(empty_corpus(), documents).counts, token, vkey, t)
            == capped(translation_occurrences(documents, t, vkey, token)),
    decreases documents.len(),
{
    if documents.len() > 0 {
        lemma_counts_are_occurrences(documents.drop_last(), token, vkey, t);
        let before = documents_recorded(empty_corpus(), documents.drop_last());
        let document = documents.last();
        assert(document_fault(document) is None);
        lemma_verses_recorded_count(
            before,
            document.translation as u8,
            keyed(document.verses),
            token,
            vkey,
            t,
        );
    }
}

proof fn lemma_total_occurrences(documents: Seq<TranslationDataView>, vkey: Seq<u8>, token: Seq<u8>)
    requires
        first_fault(documents) is None,
    ensures
        total_occurrences(documents, vkey, token) == translation_occurrences(documents, 0, vkey, token)
            + translation_occurrences(documents, 1, vkey, token) + translation_occurrences(
            documents,
            2,
            vkey,
            token,
        ),
    decreases documents.len(),
{
    if documents.len() > 0 {
        lemma_total_occurrences(documents.drop_last(), vkey, token);
        assert(document_fault(documents.last()) is None);
    }
}

/// In the corpus of a run of sound documents, the counts recorded for a
/// token in a verse add up, over the translations, to the number of the
/// token's occurrences in the verses with that key of all the documents,
/// as long as that number is one that a count can hold.
pub proof fn lemma_counts_sum_to_occurrences(
    documents: Seq<TranslationDataView>,
    token: Seq<u8>,
    vkey: Seq<u8>,
)
    requires
        first_fault(documents) is None,
        total_occurrences(documents, vkey, token) <= u64::MAX,
        documents_recorded(empty_corpus(), documents).counts.contains_key(token),
        documents_recorded(empty_corpus(), documents).counts[token].contains_key(vkey),
    ensures
        documents_recorded(empty_corpus(), documents).counts[token][vkey].counts.len()
            == TRANSLATION_COUNT,
        sum_of(documents_recorded(empty_corpus(), documents).counts[token][vkey].counts)
            == total_occurrences(documents, vkey, token),
{
    lemma_total_occurrences(documents, vkey, token);
    lemma_counts_are_occurrences(documents, token, vkey, 0);
    lemma_counts_are_occurrences(documents, token, vkey, 1);
    lemma_counts_are_occurrences(documents, token, vkey, 2);
    let counts = documents_recorded(empty_corpus(), documents).counts[token][vkey].counts;
    assert(counts.len() == 3);
    let two = counts.drop_last();
    let one = two.drop_last();
    assert(one.drop_last().len() == 0);
    assert(sum_of(one) == counts[0] as nat) by {
        reveal_with_fuel(sum_of, 2);
    }
    assert(sum_of(two) == sum_of(one) + counts[1] as nat);
    assert(sum_of(counts) == sum_of(two) + counts[2] as nat);
}

/// Every recorded distance is at least one.
pub open spec fn distances_positive(distances: ProximityModel) -> bool {
    forall|place: Seq<u8>, first: Seq<u8>, second: Seq<u8>|
        distances.contains_key(place) && distances[place].contains_key(first)
            && #[trigger] distances[place][first].contains_key(second)
            ==> distances[place][first][second] >= 1
}

/// A distance that is kept when a pair is seen again is at most the cap,
/// at most what was stored and at most what was seen, and at least one if
/// both of those are.
pub proof fn lemma_merged_distance(stored: u64, seen: u64)
    ensures
        merged_distance(stored, seen) <= MAX_PROXIMITY,
        merged_distance(stored, seen) <= stored,
        merged_distance(stored, seen) <= seen,
        stored >= 1 && seen >= 1 ==> merged_distance(stored, seen) >= 1,
{
}

/// Recording a distance of at least one keeps every distance at least one,
/// and leaves the distance of a pair that had one already at most the cap.
pub proof fn lemma_distance_bounds(
    distances: ProximityModel,
    place: Seq<u8>,
    first: Seq<u8>,
    second: Seq<u8>,
    distance: u64,
)
    requires
        distances_positive(distances),
        distance >= 1,
    ensures
        ({
            let after = distance_recorded(distances, place, first, second, distance);
            &&& distances_positive(after)
            &&& after.contains_key(place)
            &&& after[place].contains_key(first)
            &&& after[place][first].contains_key(second)
            &&& after[place][first][second] >= 1
            &&& distances.contains_key(place) && distances[place].contains_key(first)
                && distances[place][first].contains_key(second) ==> after[place][first][second]
                <= MAX_PROXIMITY
        }),
{
    let after = distance_recorded(distances, place, first, second, distance);
    assert forall|p: Seq<u8>, a: Seq<u8>, b: Seq<u8>|
        after.contains_key(p) && after[p].contains_key(a) && #[trigger] after[p][a].contains_key(
            b,
        ) implies after[p][a][b] >= 1 by {
        if p == place {
            if a == first {
                if b != second {
                    assert(distances[p][a].contains_key(b));
                }
            } else {
                assert(distances[p][a].contains_key(b));
            }
        } else {
            assert(distances[p][a].contains_key(b));
        }
    }
}

/// The dictionary holds each token under its rank among the tokens, which
/// is the id by which the proximity table names the token, and under no
/// other number. Smaller tokens have smaller ids.
pub proof fn lemma_token_ids_agree(tokens: Set<Seq<u8>>, token: Seq<u8>)
    requires
        tokens.finite(),
        tokens.contains(token),
    ensures
        0 <= rank_in(tokens, token) < ranked(tokens).len(),
        ranked(tokens)[rank_in(tokens, token)] == (token, rank_in(tokens, token) as u64),
        forall|i: int|
            0 <= i < ranked(tokens).len() && (#[trigger] ranked(tokens)[i]).0 == token ==> i
                == rank_in(tokens, token),
{
    lemma_ascending_lists(tokens);
    lemma_rank(tokens, token);
    assert forall|i: int|
        0 <= i < ranked(tokens).len() && (#[trigger] ranked(tokens)[i]).0 == token implies i
        == rank_in(tokens, token) by {
        assert(ascending(tokens)[i] == token);
    }
}

/// The key of a verse's text tells translation and verse: different
/// translations or different verses have different keys.
pub proof fn lemma_verse_text_key_injective(t1: u8, k1: VerseKey, t2: u8, k2: VerseKey)
    requires
        verse_text_key(t1, k1) == verse_text_key(t2, k2),
    ensures
        t1 == t2,
        k1 == k2,
{
    let a = verse_text_key(t1, k1);
    let b = verse_text_key(t2, k2);
    lemma_verse_key_len(k1);
    lemma_verse_key_len(k2);
    assert(a[0] == t1);
    assert(b[0] == t2);
    assert(a.subrange(1, 13) =~= k1.bytes());
    assert(b.subrange(1, 13) =~= k2.bytes());
    lemma_verse_key_round_trip(k1);
    lemma_verse_key_round_trip(k2);
}

/// Taking in a verse of a translation leaves the texts of all other
/// translations and verses as they were, and gives this verse its text
/// unless it had one.
pub proof fn lemma_verse_recorded_texts(corpus: CorpusView, tidx: u8, verse: VerseTextView)
    ensures
        verse_recorded(corpus, tidx, verse).texts == insert_new(
            corpus.texts,
            verse_text_key(tidx, verse.key),
            verse.text,
        ),
{
    let words = tokenize_spec(verse.text);
    let start = CorpusView {
        texts: insert_new(corpus.texts, verse_text_key(tidx, verse.key), verse.text),
        ..corpus
    };
    lemma_words_recorded_texts(start, tidx, verse.key, words, words.len() as int);
}

proof fn lemma_words_recorded_texts(
    corpus: CorpusView,
    tidx: u8,
    key: VerseKey,
    words: Seq<TokenizedView>,
    n: int,
)
    ensures
        words_recorded(corpus, tidx, key, words, n).texts == corpus.texts,
    decreases n,
{
    if n > 0 {
        lemma_words_recorded_texts(corpus, tidx, key, words, n - 1);
    }
}

/// Two builds from the same documents come to the same result.
pub proof fn lemma_build_is_determined(
    documents: Seq<TranslationDataView>,
    first: Result<VersearchIndexView, BuildError>,
    second: Result<VersearchIndexView, BuildError>,
)
    requires
        first == build_outcome(documents),
        second == build_outcome(documents),
    ensures
        first == second,
{
}

/// The pair has a distance on record and it is at most `bound`.
pub open spec fn within(
    distances: ProximityModel,
    place: Seq<u8>,
    first: Seq<u8>,
    second: Seq<u8>,
    bound: int,
) -> bool {
    &&& distances.contains_key(place)
    &&& distances[place].contains_key(first)
    &&& distances[place][first].contains_key(second)
    &&& distances[place][first][second] <= bound
}

/// Recording a distance for any pair never raises the distance on record
/// for a pair.
pub proof fn lemma_distance_never_grows(
    distances: ProximityModel,
    place: Seq<u8>,
    first: Seq<u8>,
    second: Seq<u8>,
    distance: u64,
    p: Seq<u8>,
    a: Seq<u8>,
    b: Seq<u8>,
    bound: int,
)
    requires
        within(distances, p, a, b, bound),
    ensures
        within(distance_recorded(distances, place, first, second, distance), p, a, b, bound),
{
}

proof fn lemma_followers_never_grow(
    distances: ProximityModel,
    place: Seq<u8>,
    words: Seq<TokenizedView>,
    i: int,
    upto: int,
    p: Seq<u8>,
    a: Seq<u8>,
    b: Seq<u8>,
    bound: int,
)
    requires
        within(distances, p, a, b, bound),
    ensures
        within(followers_recorded(distances, place, words, i, upto), p, a, b, bound),
    decreases upto - i,
{
    if upto > i + 1 {
        lemma_followers_never_grow(distances, place, words, i, upto - 1, p, a, b, bound);
        lemma_distance_never_grows(
            followers_recorded(distances, place, words, i, upto - 1),
            place,
            text_key(words[i].token),
            text_key(words[upto - 1].token),
            (upto - 1 - i) as u64,
            p,
            a,
            b,
            bound,
        );
    }
}

proof fn lemma_followers_at_most_observed(
    distances: ProximityModel,
    place: Seq<u8>,
    words: Seq<TokenizedView>,
    i: int,
    upto: int,
    j: int,
)
    requires
        0 <= i < j < upto,
        upto <= u64::MAX,
    ensures
        within(
            followers_recorded(distances, place, words, i, upto),
            place,
            text_key(words[i].token),
            text_key(words[j].token),
            j - i,
        ),
    decreases upto - i,
{
    let before = followers_recorded(distances, place, words, i, upto - 1);
    let first = text_key(words[i].token);
    if j < upto - 1 {
        lemma_followers_at_most_observed(distances, place, words, i, upto - 1, j);
        lemma_distance_never_grows(
            before,
            place,
            first,
            text_key(words[upto - 1].token),
            (upto - 1 - i) as u64,
            place,
            first,
            text_key(words[j].token),
            j - i,
        );
    } else {
        lemma_merged_distance(
            if before.contains_key(place) && before[place].contains_key(first)
                && before[place][first].contains_key(text_key(words[j].token)) {
                before[place][first][text_key(words[j].token)]
            } else {
                0
            },
            (j - i) as u64,
        );
    }
}

proof fn lemma_words_never_grow(
    corpus: CorpusView,
    tidx: u8,
    key: VerseKey,
    words: Seq<TokenizedView>,
    n: int,
    p: Seq<u8>,
    a: Seq<u8>,
    b: Seq<u8>,
    bound: int,
)
    requires
        within(corpus.distances, p, a, b, bound),
    ensures
        within(words_recorded(corpus, tidx, key, words, n).distances, p, a, b, bound),
    decreases n,
{
    if n > 0 {
        lemma_words_never_grow(corpus, tidx, key, words, n - 1, p, a, b, bound);
        lemma_followers_never_grow(
            words_recorded(corpus, tidx, key, words, n - 1).distances,
            verse_text_key(tidx, key),
            words,
            n - 1,
            words.len() as int,
            p,
            a,
            b,
            bound,
        );
    }
}

proof fn lemma_verses_never_grow(
    corpus: CorpusView,
    tidx: u8,
    verses: Seq<VerseTextView>,
    p: Seq<u8>,
    a: Seq<u8>,
    b: Seq<u8>,
    bound: int,
)
    requires
        within(corpus.distances, p, a, b, bound),
    ensures
        within(verses_recorded(corpus, tidx, verses).distances, p, a, b, bound),
    decreases verses.len(),
{
    if verses.len() > 0 {
        lemma_verses_never_grow(corpus, tidx, verses.drop_last(), p, a, b, bound);
        let before = verses_recorded(corpus, tidx, verses.drop_last());
        let verse = verses.last();
        let words = tokenize_spec(verse.text);
        let start = CorpusView {
            texts: insert_new(before.texts, verse_text_key(tidx, verse.key), verse.text),
            ..before
        };
        lemma_words_never_grow(start, tidx, verse.key, words, words.len() as int, p, a, b, bound);
    }
}

/// Once a run of verses has been taken in, each pair of words of each of
/// the verses has a distance on record that is at most the difference of the
/// two positions: what is on record is never more than any distance at which
/// the pair was seen.
pub proof fn lemma_distance_at_most_observed(
    corpus: CorpusView,
    tidx: u8,
    verses: Seq<VerseTextView>,
    v: int,
    i: int,
    j: int,
)
    requires
        0 <= v < verses.len(),
        0 <= i < j < tokenize_spec(verses[v].text).len(),
        tokenize_spec(verses[v].text).len() <= u64::MAX,
    ensures
        within(
            verses_recorded(corpus, tidx, verses).distances,
            verse_text_key(tidx, verses[v].key),
            text_key(tokenize_spec(verses[v].text)[i].token),
            text_key(tokenize_spec(verses[v].text)[j].token),
            j - i,
        ),
    decreases verses.len(),
{
    let words = tokenize_spec(verses[v].text);
    let place = verse_text_key(tidx, verses[v].key);
    let first = text_key(words[i].token);
    let second = text_key(words[j].token);
    if v < verses.len() - 1 {
        lemma_distance_at_most_observed(corpus, tidx, verses.drop_last(), v, i, j);
        let before = verses_recorded(corpus, tidx, verses.drop_last());
        lemma_verses_never_grow(before, tidx, seq![verses.last()], place, first, second, j - i);
        assert(seq![verses.last()].drop_last() =~= Seq::<VerseTextView>::empty());
        assert(verses_recorded(before, tidx, seq![verses.last()]) == verse_recorded(
            before,
            tidx,
            verses.last(),
        )) by {
            reveal_with_fuel(verses_recorded, 2);
        }
    } else {
        let before = verses_recorded(corpus, tidx, verses.drop_last());
        let start = CorpusView {
            texts: insert_new(before.texts, verse_text_key(tidx, verses[v].key), verses[v].text),
            ..before
        };
        let at_i = words_recorded(start, tidx, verses[v].key, words, i);
        lemma_followers_at_most_observed(at_i.distances, place, words, i, words.len() as int, j);
        lemma_words_from(start, tidx, verses[v].key, words, i + 1, words.len() as int, place, first, second, j - i);
    }
}

proof fn lemma_words_from(
    corpus: CorpusView,
    tidx: u8,
    key: VerseKey,
    words: Seq<TokenizedView>,
    from: int,
    n: int,
    p: Seq<u8>,
    a: Seq<u8>,
    b: Seq<u8>,
    bound: int,
)
    requires
        0 <= from <= n,
        within(words_recorded(corpus, tidx, key, words, from).distances, p, a, b, bound),
    ensures
        within(words_recorded(corpus, tidx, key, words, n).distances, p, a, b, bound),
    decreases n - from,
{
    if n > from {
        lemma_words_from(corpus, tidx, key, words, from, n - 1, p, a, b, bound);
        lemma_followers_never_grow(
            words_recorded(corpus, tidx, key, words, n - 1).distances,
            verse_text_key(tidx, key),
            words,
            n - 1,
            words.len() as int,
            p,
            a,
            b,
            bound,
        );
    }
}

/// Taking verses in keeps every distance at least one, as long as no verse
/// has more words than a distance can number.
pub proof fn lemma_distances_stay_positive(corpus: CorpusView, tidx: u8, verses: Seq<VerseTextView>)
    requires
        distances_positive(corpus.distances),
        forall|v: int|
            0 <= v < verses.len() ==> tokenize_spec((#[trigger] verses[v]).text).len() <= u64::MAX,
    ensures
        distances_positive(verses_recorded(corpus, tidx, verses).distances),
    decreases verses.len(),
{
    if verses.len() > 0 {
        assert forall|v: int| 0 <= v < verses.drop_last().len() implies tokenize_spec(
            (#[trigger] verses.drop_last()[v]).text,
        ).len() <= u64::MAX by {
            assert(verses.drop_last()[v] == verses[v]);
        }
        lemma_distances_stay_positive(corpus, tidx, verses.drop_last());
        let before = verses_recorded(corpus, tidx, verses.drop_last());
        let verse = verses.last();
        assert(verse == verses[verses.len() - 1]);
        let words = tokenize_spec(verse.text);
        let start = CorpusView {
            texts: insert_new(before.texts, verse_text_key(tidx, verse.key), verse.text),
            ..before
        };
        lemma_words_stay_positive(start, tidx, verse.key, words, words.len() as int);
    }
}

proof fn lemma_words_stay_positive(
    corpus: CorpusView,
    tidx: u8,
    key: VerseKey,
    words: Seq<TokenizedView>,
    n: int,
)
    requires
        distances_positive(corpus.distances),
        words.len() <= u64::MAX,
    ensures
        distances_positive(words_recorded(corpus, tidx, key, words, n).distances),
    decreases n,
{
    if n > 0 {
        lemma_words_stay_positive(corpus, tidx, key, words, n - 1);
        lemma_followers_stay_positive(
            words_recorded(corpus, tidx, key, words, n - 1).distances,
            verse_text_key(tidx, key),
            words,
            n - 1,
            words.len() as int,
        );
    }
}

proof fn lemma_followers_stay_positive(
    distances: ProximityModel,
    place: Seq<u8>,
    words: Seq<TokenizedView>,
    i: int,
    upto: int,
)
    requires
        distances_positive(distances),
        0 <= i,
        upto <= u64::MAX,
    ensures
        distances_positive(followers_recorded(distances, place, words, i, upto)),
    decreases upto - i,
{
    if upto > i + 1 {
        lemma_followers_stay_positive(distances, place, words, i, upto - 1);
        lemma_distance_bounds(
            followers_recorded(distances, place, words, i, upto - 1),
            place,
            text_key(words[i].token),
            text_key(words[upto - 1].token),
            (upto - 1 - i) as u64,
        );
    }
}

} // verus!
