//! Why the three indices agree: taking verses in keeps every spelling of a
//! token among the spellings of the corpus, and every token of the
//! proximities among the tokens that are counted.

use crate::bytemap::insert_new;
use crate::codec::{verse_text_key, VerseKey};
use crate::index::{highlights_known, stats_known, verses_known};
use crate::proximity::{followers_known, pairs_known, tokens_known};
use crate::stats::{
    count_recorded, distance_recorded, followers_recorded, text_key, verse_recorded,
    verses_recorded, word_recorded, words_recorded, CorpusView, CountsModel, ProximityModel,
    VerseTextView,
};
use crate::tokenizer::{tokenize_spec, TokenizedView};
use vstd::prelude::*;

verus! {

/// The indices built from the corpus will agree: every spelling recorded
/// for a token is a spelling of the corpus, and every token of the
/// proximities is a token that is counted.
pub open spec fn consistent(corpus: CorpusView) -> bool {
    &&& highlights_known(corpus.counts, corpus.words.dom())
    &&& tokens_known(corpus.distances, corpus.counts.dom())
}

/// The tokens of a run of words.
pub open spec fn tokens_of(words: Seq<TokenizedView>) -> Set<Seq<u8>> {
    Set::new(|t: Seq<u8>| exists|i: int| 0 <= i < words.len() && text_key(#[trigger] words[i].token) == t)
}

proof fn lemma_tokens_known_grows(
    distances: ProximityModel,
    tokens: Set<Seq<u8>>,
    more: Set<Seq<u8>>,
)
    requires
        tokens_known(distances, tokens),
        tokens.subset_of(more),
    ensures
        tokens_known(distances, more),
{
    assert forall|p: Seq<u8>| #[trigger] distances.contains_key(p) implies pairs_known(
        distances[p],
        more,
    ) by {
        assert(pairs_known(distances[p], tokens));
        assert forall|a: Seq<u8>| #[trigger] distances[p].contains_key(a) implies more.contains(a)
            && followers_known(distances[p][a], more) by {
            assert(followers_known(distances[p][a], tokens));
        }
    }
}

proof fn lemma_distance_recorded_known(
    distances: ProximityModel,
    tokens: Set<Seq<u8>>,
    place: Seq<u8>,
    first: Seq<u8>,
    second: Seq<u8>,
    distance: u64,
)
    requires
        tokens_known(distances, tokens),
        tokens.contains(first),
        tokens.contains(second),
    ensures
        tokens_known(distance_recorded(distances, place, first, second, distance), tokens),
{
    let after = distance_recorded(distances, place, first, second, distance);
    assert forall|p: Seq<u8>| #[trigger] after.contains_key(p) implies pairs_known(
        after[p],
        tokens,
    ) by {
        if p == place {
            let by_first = if distances.contains_key(place) {
                distances[place]
            } else {
                Map::empty()
            };
            if distances.contains_key(place) {
                assert(pairs_known(distances[place], tokens));
            }
            assert forall|a: Seq<u8>| #[trigger] after[p].contains_key(a) implies tokens.contains(a)
                && followers_known(after[p][a], tokens) by {
                if a == first {
                    if by_first.contains_key(first) {
                        assert(followers_known(by_first[first], tokens));
                    }
                } else {
                    assert(by_first.contains_key(a));
                }
            }
        } else {
            assert(distances.contains_key(p));
        }
    }
}

proof fn lemma_followers_recorded_known(
    distances: ProximityModel,
    tokens: Set<Seq<u8>>,
    place: Seq<u8>,
    words: Seq<TokenizedView>,
    i: int,
    upto: int,
)
    requires
        tokens_known(distances, tokens),
        tokens_of(words).subset_of(tokens),
        0 <= i < words.len(),
        upto <= words.len(),
    ensures
        tokens_known(followers_recorded(distances, place, words, i, upto), tokens),
    decreases upto - i,
{
    if upto > i + 1 {
        lemma_followers_recorded_known(distances, tokens, place, words, i, upto - 1);
        assert(tokens_of(words).contains(text_key(words[i].token)));
        assert(tokens_of(words).contains(text_key(words[upto - 1].token)));
        lemma_distance_recorded_known(
            followers_recorded(distances, place, words, i, upto - 1),
            tokens,
            place,
            text_key(words[i].token),
            text_key(words[upto - 1].token),
            (upto - 1 - i) as u64,
        );
    }
}

proof fn lemma_count_recorded_known(
    counts: CountsModel,
    words: Set<Seq<u8>>,
    tidx: int,
    vkey: Seq<u8>,
    word: TokenizedView,
)
    requires
        highlights_known(counts, words),
        words.contains(text_key(word.source)),
    ensures
        highlights_known(count_recorded(counts, tidx, vkey, word), words),
        count_recorded(counts, tidx, vkey, word).dom() == counts.dom().insert(text_key(word.token)),
{
    let after = count_recorded(counts, tidx, vkey, word);
    let token = text_key(word.token);
    assert(after.dom() =~= counts.dom().insert(token));
    assert forall|t: Seq<u8>| after.contains_key(t) implies verses_known(
        #[trigger] after[t],
        words,
    ) by {
        if t == token {
            let verses = if counts.contains_key(token) {
                counts[token]
            } else {
                Map::empty()
            };
            if counts.contains_key(token) {
                assert(verses_known(counts[token], words));
            }
            assert forall|v: Seq<u8>| after[t].contains_key(v) implies stats_known(
                #[trigger] after[t][v],
                words,
            ) by {
                if v == vkey {
                    if verses.contains_key(vkey) {
                        assert(stats_known(verses[vkey], words));
                    }
                } else {
                    assert(verses.contains_key(v));
                    assert(stats_known(verses[v], words));
                }
            }
        } else {
            assert(counts.contains_key(t));
        }
    }
}

proof fn lemma_highlights_known_grows(counts: CountsModel, words: Set<Seq<u8>>, more: Set<Seq<u8>>)
    requires
        highlights_known(counts, words),
        words.subset_of(more),
    ensures
        highlights_known(counts, more),
{
    assert forall|t: Seq<u8>| counts.contains_key(t) implies verses_known(
        #[trigger] counts[t],
        more,
    ) by {
        assert(verses_known(counts[t], words));
        assert forall|v: Seq<u8>| counts[t].contains_key(v) implies stats_known(
            #[trigger] counts[t][v],
            more,
        ) by {
            assert(stats_known(counts[t][v], words));
        }
    }
}

proof fn lemma_words_recorded_known(
    corpus: CorpusView,
    tokens: Set<Seq<u8>>,
    tidx: u8,
    key: VerseKey,
    words: Seq<TokenizedView>,
    n: int,
)
    requires
        highlights_known(corpus.counts, corpus.words.dom()),
        tokens_known(corpus.distances, tokens),
        tokens_of(words).subset_of(tokens),
        0 <= n <= words.len(),
    ensures
        ({
            let after = words_recorded(corpus, tidx, key, words, n);
            &&& highlights_known(after.counts, after.words.dom())
            &&& tokens_known(after.distances, tokens)
            &&& corpus.counts.dom().subset_of(after.counts.dom())
            &&& forall|i: int|
                0 <= i < n ==> after.counts.dom().contains(text_key(#[trigger] words[i].token))
        }),
    decreases n,
{
    if n > 0 {
        let before = words_recorded(corpus, tidx, key, words, n - 1);
        lemma_words_recorded_known(corpus, tokens, tidx, key, words, n - 1);
        let after = word_recorded(before, tidx, key, words, n - 1);
        assert(before.words.dom().subset_of(after.words.dom()));
        lemma_highlights_known_grows(before.counts, before.words.dom(), after.words.dom());
        lemma_count_recorded_known(
            before.counts,
            after.words.dom(),
            tidx as int,
            key.bytes(),
            words[n - 1],
        );
        lemma_followers_recorded_known(
            before.distances,
            tokens,
            verse_text_key(tidx, key),
            words,
            n - 1,
            words.len() as int,
        );
    }
}

/// Taking a verse in keeps the corpus consistent.
pub proof fn lemma_verse_recorded_consistent(corpus: CorpusView, tidx: u8, verse: VerseTextView)
    requires
        consistent(corpus),
    ensures
        consistent(verse_recorded(corpus, tidx, verse)),
{
    let words = tokenize_spec(verse.text);
    let start = CorpusView {
        texts: insert_new(corpus.texts, verse_text_key(tidx, verse.key), verse.text),
        ..corpus
    };
    let tokens = corpus.counts.dom().union(tokens_of(words));
    lemma_tokens_known_grows(corpus.distances, corpus.counts.dom(), tokens);
    lemma_words_recorded_known(start, tokens, tidx, verse.key, words, words.len() as int);
    let after = verse_recorded(corpus, tidx, verse);
    assert(tokens.subset_of(after.counts.dom())) by {
        assert forall|t: Seq<u8>| tokens.contains(t) implies after.counts.dom().contains(t) by {
            if tokens_of(words).contains(t) {
                let i = choose|i: int| 0 <= i < words.len() && text_key(#[trigger] words[i].token) == t;
                assert(after.counts.dom().contains(text_key(words[i].token)));
            }
        }
    }
    lemma_tokens_known_grows(after.distances, tokens, after.counts.dom());
}

/// Taking a run of verses in keeps the corpus consistent.
pub proof fn lemma_verses_recorded_consistent(
    corpus: CorpusView,
    tidx: u8,
    verses: Seq<VerseTextView>,
)
    requires
        consistent(corpus),
    ensures
        consistent(verses_recorded(corpus, tidx, verses)),
    decreases verses.len(),
{
    if verses.len() > 0 {
        lemma_verses_recorded_consistent(corpus, tidx, verses.drop_last());
        lemma_verse_recorded_consistent(
            verses_recorded(corpus, tidx, verses.drop_last()),
            tidx,
            verses.last(),
        );
    }
}

} // verus!
