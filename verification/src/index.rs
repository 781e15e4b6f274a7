//! Compiling the gathered statistics into the parts of the search index:
//! the token dictionary, the reverse index, the proximity table and the
//! verse texts.

use crate::bytemap::ByteMap;
use crate::codec::{be_bytes, push_be};
use crate::lex::{ascending, lemma_position_unique, rank_in};
use crate::stats::{
    counts_wf, verse_stats_wf, words_wf, CountsModel, HighlightWords, TokenCounts,
    TranslationVerses, VerseStats, VerseStatsView,
};
use crate::transducer::{accepted, finish_builder, insert_entry, map_bytes, memory_builder};
use vstd::prelude::*;

verus! {

/// Why an index could not be built.
#[derive(Clone, Copy, Debug, PartialEq, Eq, Structural)]
pub enum BuildError {
    /// A document names a translation that does not exist.
    UnknownTranslation,
    /// A verse of a document has no key.
    MissingVerseKey,
    /// A spelling recorded for a token is not among the spellings of the
    /// corpus.
    MissingHighlight,
    /// A token of the proximity table is not in the dictionary.
    MissingToken,
    /// The dictionary has more tokens than two bytes can number.
    TokenIdOverflow,
    /// A transducer was given a key that is not above the one before.
    KeyOrder,
}

/// The members of a set in ascending order, each with its position.
pub open spec fn ranked(dom: Set<Seq<u8>>) -> Seq<(Seq<u8>, u64)> {
    let keys = ascending(dom);
    Seq::new(keys.len(), |i: int| (keys[i], i as u64))
}

/// The numbers one after the other, each in eight big-endian bytes.
pub open spec fn be_concat(numbers: Seq<u64>) -> Seq<u8>
    decreases numbers.len(),
{
    if numbers.len() == 0 {
        Seq::empty()
    } else {
        be_concat(numbers.drop_last()) + be_bytes(numbers.last() as nat, 8)
    }
}

/// The positions, among all spellings of the corpus, of the spellings
/// recorded for one token in one verse, in ascending order of the spellings.
pub open spec fn highlight_ids(stats: VerseStatsView, words: Set<Seq<u8>>) -> Seq<u64> {
    ascending(stats.highlights).map_values(|h: Seq<u8>| rank_in(words, h) as u64)
}

/// Every spelling recorded in `stats` is among `words`.
pub open spec fn stats_known(stats: VerseStatsView, words: Set<Seq<u8>>) -> bool {
    forall|h: Seq<u8>| stats.highlights.contains(h) ==> words.contains(h)
}

/// Every spelling recorded in any of the verses is among `words`.
pub open spec fn verses_known(verses: Map<Seq<u8>, VerseStatsView>, words: Set<Seq<u8>>) -> bool {
    forall|v: Seq<u8>| verses.contains_key(v) ==> stats_known(#[trigger] verses[v], words)
}

/// Every spelling recorded for any token is among `words`.
pub open spec fn highlights_known(counts: CountsModel, words: Set<Seq<u8>>) -> bool {
    forall|t: Seq<u8>| counts.contains_key(t) ==> verses_known(#[trigger] counts[t], words)
}

/// The reverse index of one token.
#[derive(Clone, Debug, PartialEq, Eq)]
pub struct ReverseIndexEntryBytes {
    /// Transducer from each encoded verse key to a position in
    /// `counts_map_data`.
    pub counts_map_bytes: Vec<u8>,
    /// For each verse, the occurrences per translation.
    pub counts_map_data: Vec<Vec<u8>>,
    /// Transducer from each encoded verse key to a position in
    /// `highlights_map_data`.
    pub highlights_map_bytes: Vec<u8>,
    /// For each verse, the positions of the spellings to highlight.
    pub highlights_map_data: Vec<Vec<u8>>,
}

/// The reverse index of one token as plain sequences.
pub struct ReverseIndexEntryView {
    pub counts_map_bytes: Seq<u8>,
    pub counts_map_data: Seq<Seq<u8>>,
    pub highlights_map_bytes: Seq<u8>,
    pub highlights_map_data: Seq<Seq<u8>>,
}

/// The views of a run of byte vectors.
pub open spec fn rows_of(rows: Seq<Vec<u8>>) -> Seq<Seq<u8>> {
    rows.map_values(|row: Vec<u8>| row@)
}

impl View for ReverseIndexEntryBytes {
    type V = ReverseIndexEntryView;

    open spec fn view(&self) -> ReverseIndexEntryView {
        ReverseIndexEntryView {
            counts_map_bytes: self.counts_map_bytes@,
            counts_map_data: rows_of(self.counts_map_data@),
            highlights_map_bytes: self.highlights_map_bytes@,
            highlights_map_data: rows_of(self.highlights_map_data@),
        }
    }
}

/// The reverse index of a token with the given verses: both transducers map
/// the verse keys, in ascending order, to their positions; the data hold, at
/// each position, the counts and the highlight ids of that verse.
pub open spec fn reverse_entry(
    verses: Map<Seq<u8>, VerseStatsView>,
    words: Set<Seq<u8>>,
) -> ReverseIndexEntryView {
    let keys = ascending(verses.dom());
    ReverseIndexEntryView {
        counts_map_bytes: map_bytes(ranked(verses.dom())),
        counts_map_data: Seq::new(keys.len(), |j: int| be_concat(verses[keys[j]].counts)),
        highlights_map_bytes: map_bytes(ranked(verses.dom())),
        highlights_map_data: Seq::new(
            keys.len(),
            |j: int| be_concat(highlight_ids(verses[keys[j]], words)),
        ),
    }
}

/// Compiles the transducer that maps each key of `map`, in ascending order,
/// to its position. The keys of a well-formed map ascend, so the transducer
/// accepts them all.
pub fn ranked_bytes<V: View>(map: &ByteMap<V>) -> (r: Result<Vec<u8>, BuildError>)
    requires
        map.wf(),
    ensures
        r matches Ok(bytes) && bytes@ == map_bytes(ranked(map@.dom())),
{
    let mut builder = memory_builder();
    let n: usize = map.len();
    let mut i: usize = 0;
    proof {
        map.lemma_keys_listed();
        assert(ranked(map@.dom()).take(0) =~= Seq::<(Seq<u8>, u64)>::empty());
    }
    while i < n
        invariant
            map.wf(),
            n == map.keys().len(),
            i <= n,
            map.keys() == ascending(map@.dom()),
            accepted(builder) == ranked(map@.dom()).take(i as int),
        decreases n - i,
    {
        let key = map.key(i);
        proof {
            let all = ranked(map@.dom());
            if i > 0 {
                assert(all.take(i as int).last() == all[i - 1]);
            }
            assert(all.take(i + 1) =~= all.take(i as int).push((key@, i as u64)));
        }
        match insert_entry(&mut builder, key.as_slice(), i as u64) {
            Ok(()) => {},
            Err(_) => {
                return Err(BuildError::KeyOrder);
            },
        }
        i += 1;
    }
    proof {
        assert(ranked(map@.dom()).take(n as int) =~= ranked(map@.dom()));
    }
    match finish_builder(builder) {
        Ok(bytes) => Ok(bytes),
        Err(_) => Err(BuildError::KeyOrder),
    }
}

/// The occurrences of one token in one verse, eight bytes for each
/// translation.
fn count_bytes(stats: &VerseStats) -> (out: Vec<u8>)
    ensures
        out@ == be_concat(stats@.counts),
{
    let counts = stats.counts();
    let mut out: Vec<u8> = Vec::new();
    let mut t: usize = 0;
    proof {
        assert(counts@.take(0) =~= Seq::<u64>::empty());
    }
    while t < counts.len()
        invariant
            t <= counts.len(),
            out@ == be_concat(counts@.take(t as int)),
        decreases counts.len() - t,
    {
        proof {
            assert(counts@.take(t + 1).drop_last() =~= counts@.take(t as int));
        }
        push_be(&mut out, counts[t], 8);
        t += 1;
    }
    proof {
        assert(counts@.take(counts@.len() as int) =~= counts@);
    }
    out
}

/// The positions of the spellings of one token in one verse, eight bytes
/// each. Fails on a spelling that is not among `words`.
fn highlight_bytes(stats: &VerseStats, words: &HighlightWords) -> (r: Result<Vec<u8>, BuildError>)
    requires
        stats.wf(),
        words.wf(),
    ensures
        match r {
            Ok(out) => stats_known(stats@, words@.dom()) && out@ == be_concat(
                highlight_ids(stats@, words@.dom()),
            ),
            Err(e) => e == BuildError::MissingHighlight && !stats_known(stats@, words@.dom()),
        },
{
    let seen = stats.highlights();
    let mut out: Vec<u8> = Vec::new();
    let n: usize = seen.len();
    let mut k: usize = 0;
    let ghost ids = highlight_ids(stats@, words@.dom());
    proof {
        seen.lemma_keys_listed();
        words.lemma_keys_listed();
        assert(ids.take(0) =~= Seq::<u64>::empty());
    }
    while k < n
        invariant
            seen.wf(),
            words.wf(),
            n == seen.keys().len(),
            k <= n,
            seen@.dom() == stats@.highlights,
            seen.keys() == ascending(stats@.highlights),
            words.keys() == ascending(words@.dom()),
            ids == highlight_ids(stats@, words@.dom()),
            ids.len() == n,
            out@ == be_concat(ids.take(k as int)),
            forall|x: int| 0 <= x < k ==> words@.dom().contains(#[trigger] seen.keys()[x]),
        decreases n - k,
    {
        let spelling = seen.key(k);
        proof {
            seen.lemma_entry(k as int);
        }
        match words.search(spelling.as_slice()) {
            Ok(id) => {
                proof {
                    lemma_position_unique(words.keys(), id as int);
                    assert(ids[k as int] == id as u64);
                    assert(ids.take(k + 1).drop_last() =~= ids.take(k as int));
                }
                push_be(&mut out, id as u64, 8);
            },
            Err(_) => {
                return Err(BuildError::MissingHighlight);
            },
        }
        k += 1;
    }
    proof {
        assert(ids.take(n as int) =~= ids);
        assert forall|h: Seq<u8>| stats@.highlights.contains(h) implies words@.dom().contains(
            h,
        ) by {
            let x = seen.keys().index_of(h);
            assert(seen.keys()[x] == h);
        }
    }
    Ok(out)
}

/// Compiles the reverse index of one token from its verses.
fn reverse_entry_bytes(verses: &ByteMap<VerseStats>, words: &HighlightWords) -> (r: Result<
    ReverseIndexEntryBytes,
    BuildError,
>)
    requires
        verse_stats_wf(verses),
        words.wf(),
    ensures
        match r {
            Ok(entry) => verses_known(verses@, words@.dom()) && entry@ == reverse_entry(
                verses@,
                words@.dom(),
            ),
            Err(e) => e == BuildError::MissingHighlight && !verses_known(verses@, words@.dom()),
        },
{
    let mut counts_map_data: Vec<Vec<u8>> = Vec::new();
    let mut highlights_map_data: Vec<Vec<u8>> = Vec::new();
    let n: usize = verses.len();
    let mut j: usize = 0;
    proof {
        verses.lemma_keys_listed();
    }
    while j < n
        invariant
            verse_stats_wf(verses),
            words.wf(),
            n == verses.keys().len(),
            j <= n,
            verses.keys() == ascending(verses@.dom()),
            counts_map_data@.len() == j,
            highlights_map_data@.len() == j,
            forall|x: int|
                0 <= x < j ==> (#[trigger] counts_map_data@[x])@ == be_concat(
                    verses@[verses.keys()[x]].counts,
                ),
            forall|x: int|
                0 <= x < j ==> (#[trigger] highlights_map_data@[x])@ == be_concat(
                    highlight_ids(verses@[verses.keys()[x]], words@.dom()),
                ),
            forall|x: int|
                0 <= x < j ==> stats_known(verses@[#[trigger] verses.keys()[x]], words@.dom()),
        decreases n - j,
    {
        let stats = verses.value(j);
        proof {
            verses.lemma_entry(j as int);
        }
        counts_map_data.push(count_bytes(stats));
        match highlight_bytes(stats, words) {
            Ok(bytes) => {
                highlights_map_data.push(bytes);
            },
            Err(e) => {
                return Err(e);
            },
        }
        j += 1;
    }
    let counts_map_bytes = match ranked_bytes(verses) {
        Ok(bytes) => bytes,
        Err(e) => {
            return Err(e);
        },
    };
    let highlights_map_bytes = match ranked_bytes(verses) {
        Ok(bytes) => bytes,
        Err(e) => {
            return Err(e);
        },
    };
    let entry = ReverseIndexEntryBytes {
        counts_map_bytes,
        counts_map_data,
        highlights_map_bytes,
        highlights_map_data,
    };
    proof {
        assert forall|v: Seq<u8>| verses@.contains_key(v) implies stats_known(
            #[trigger] verses@[v],
            words@.dom(),
        ) by {
            let x = verses.keys().index_of(v);
            assert(verses.keys()[x] == v);
        }
        let expected = reverse_entry(verses@, words@.dom());
        assert(entry@.counts_map_data =~= expected.counts_map_data);
        assert(entry@.highlights_map_data =~= expected.highlights_map_data);
    }
    Ok(entry)
}

/// The reverse index of every token, in ascending order of the tokens.
pub open spec fn reverse_entries(counts: CountsModel, words: Set<Seq<u8>>) -> Seq<
    ReverseIndexEntryView,
> {
    let tokens = ascending(counts.dom());
    Seq::new(tokens.len(), |i: int| reverse_entry(counts[tokens[i]], words))
}

/// The values of a map in ascending order of their keys.
pub open spec fn listed_values<V>(m: Map<Seq<u8>, V>) -> Seq<V> {
    let keys = ascending(m.dom());
    Seq::new(keys.len(), |i: int| m[keys[i]])
}

/// The views of a run of strings.
pub open spec fn texts_of(strings: Seq<String>) -> Seq<Seq<char>> {
    strings.map_values(|s: String| s@)
}

/// The views of a run of reverse index entries.
pub open spec fn entries_of(entries: Seq<ReverseIndexEntryBytes>) -> Seq<ReverseIndexEntryView> {
    entries.map_values(|e: ReverseIndexEntryBytes| e@)
}

/// The values of a map of strings, in ascending order of their keys.
fn listed_strings(map: &ByteMap<String>) -> (out: Vec<String>)
    requires
        map.wf(),
    ensures
        texts_of(out@) == listed_values(map@),
{
    let mut out: Vec<String> = Vec::with_capacity(map.len());
    let n: usize = map.len();
    let mut i: usize = 0;
    proof {
        map.lemma_keys_listed();
    }
    while i < n
        invariant
            map.wf(),
            n == map.keys().len(),
            i <= n,
            map.keys() == ascending(map@.dom()),
            out@.len() == i,
            forall|x: int| 0 <= x < i ==> (#[trigger] out@[x])@ == map@[map.keys()[x]],
        decreases n - i,
    {
        proof {
            map.lemma_entry(i as int);
        }
        out.push(map.value(i).clone());
        i += 1;
    }
    proof {
        assert(texts_of(out@) =~= listed_values(map@));
    }
    out
}

/// Builds the reverse index of every token, the dictionary that maps each
/// token to its id, and the list of all spellings. The id of a token is its
/// position among the tokens in ascending order, and the reverse index holds
/// the tokens' entries in that order. Fails if a spelling recorded for a
/// token is not among `highlight_words`, and on nothing else.
pub fn build_reverse_index(
    highlight_words: &HighlightWords,
    wip_token_counts: &TokenCounts,
) -> (r: Result<(Vec<ReverseIndexEntryBytes>, Vec<u8>, Vec<String>), BuildError>)
    requires
        words_wf(highlight_words),
        counts_wf(wip_token_counts),
    ensures
        match r {
            Ok((reverse_index, fst_bytes, words)) => {
                &&& highlights_known(wip_token_counts@, highlight_words@.dom())
                &&& entries_of(reverse_index@) == reverse_entries(
                    wip_token_counts@,
                    highlight_words@.dom(),
                )
                &&& fst_bytes@ == map_bytes(ranked(wip_token_counts@.dom()))
                &&& texts_of(words@) == listed_values(highlight_words@)
            },
            Err(e) => e == BuildError::MissingHighlight && !highlights_known(
                wip_token_counts@,
                highlight_words@.dom(),
            ),
        },
{
    let mut reverse_index: Vec<ReverseIndexEntryBytes> = Vec::with_capacity(
        wip_token_counts.len(),
    );
    let n: usize = wip_token_counts.len();
    let mut i: usize = 0;
    proof {
        wip_token_counts.lemma_keys_listed();
    }
    while i < n
        invariant
            words_wf(highlight_words),
            counts_wf(wip_token_counts),
            n == wip_token_counts.keys().len(),
            i <= n,
            wip_token_counts.keys() == ascending(wip_token_counts@.dom()),
            reverse_index@.len() == i,
            forall|x: int|
                0 <= x < i ==> (#[trigger] reverse_index@[x])@ == reverse_entry(
                    wip_token_counts@[wip_token_counts.keys()[x]],
                    highlight_words@.dom(),
                ),
            forall|x: int|
                0 <= x < i ==> verses_known(
                    wip_token_counts@[#[trigger] wip_token_counts.keys()[x]],
                    highlight_words@.dom(),
                ),
        decreases n - i,
    {
        let verses = wip_token_counts.value(i);
        proof {
            wip_token_counts.lemma_entry(i as int);
        }
        match reverse_entry_bytes(verses, highlight_words) {
            Ok(entry) => {
                reverse_index.push(entry);
            },
            Err(e) => {
                return Err(e);
            },
        }
        i += 1;
    }
    let fst_bytes = match ranked_bytes(wip_token_counts) {
        Ok(bytes) => bytes,
        Err(e) => {
            return Err(e);
        },
    };
    let words = listed_strings(highlight_words);
    proof {
        assert forall|t: Seq<u8>| wip_token_counts@.contains_key(t) implies verses_known(
            #[trigger] wip_token_counts@[t],
            highlight_words@.dom(),
        ) by {
            let x = wip_token_counts.keys().index_of(t);
            assert(wip_token_counts.keys()[x] == t);
        }
        assert(entries_of(reverse_index@) =~= reverse_entries(
            wip_token_counts@,
            highlight_words@.dom(),
        ));
    }
    Ok((reverse_index, fst_bytes, words))
}

/// Builds the transducer that maps the key of each verse of each
/// translation to a position, and the texts at those positions: the keys in
/// ascending order, each with the text stored under it.
pub fn build_translation_verses_bytes(translation_verses: &TranslationVerses) -> (r: Result<
    (Vec<u8>, Vec<String>),
    BuildError,
>)
    requires
        translation_verses.wf(),
    ensures
        r matches Ok((bytes, strings)) && bytes@ == map_bytes(ranked(translation_verses@.dom()))
            && texts_of(strings@) == listed_values(translation_verses@),
{
    let strings = listed_strings(translation_verses);
    match ranked_bytes(translation_verses) {
        Ok(bytes) => Ok((bytes, strings)),
        Err(e) => Err(e),
    }
}

} // verus!
