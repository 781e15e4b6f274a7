//! The whole build: documents in, search index out.

use crate::bytemap::ByteMap;
use crate::codec::{Translation, VerseKey, TRANSLATION_COUNT};
use crate::consistency::{consistent, lemma_verses_recorded_consistent};
use crate::index::{
    build_reverse_index, build_translation_verses_bytes, entries_of, listed_values, ranked,
    reverse_entries, texts_of, BuildError, ReverseIndexEntryBytes, ReverseIndexEntryView,
};
use crate::proximity::{build_proximity_fst_bytes, proximity_entries, MAX_TOKENS};
use crate::stats::{
    corpus_of, counts_wf, process_verses, proximities_wf, verses_of, verses_recorded, words_wf,
    CorpusView, HighlightWords, Proximities, TokenCounts, TranslationVerses, VerseText,
    VerseTextView,
};
use crate::transducer::map_bytes;
use vstd::prelude::*;

verus! {

/// Where the documents of the corpus are found.
#[derive(Clone, Debug, PartialEq, Eq)]
pub struct Config {
    pub translation_dir: String,
}

/// A verse as a document holds it: the key may be missing.
#[derive(Clone, Debug, PartialEq, Eq)]
pub struct VerseRecord {
    pub key: Option<VerseKey>,
    pub text: String,
}

/// A verse of a document as plain values.
pub struct VerseRecordView {
    pub key: Option<VerseKey>,
    pub text: Seq<char>,
}

impl View for VerseRecord {
    type V = VerseRecordView;

    open spec fn view(&self) -> VerseRecordView {
        VerseRecordView { key: self.key, text: self.text@ }
    }
}

/// A decoded document: the number of a translation and its verses in order.
#[derive(Clone, Debug, PartialEq, Eq)]
pub struct TranslationData {
    pub translation: i32,
    pub verses: Vec<VerseRecord>,
}

/// A document as plain values.
pub struct TranslationDataView {
    pub translation: int,
    pub verses: Seq<VerseRecordView>,
}

impl View for TranslationData {
    type V = TranslationDataView;

    open spec fn view(&self) -> TranslationDataView {
        TranslationDataView {
            translation: self.translation as int,
            verses: self.verses@.map_values(|r: VerseRecord| r@),
        }
    }
}

/// The views of a run of documents.
pub open spec fn documents_of(documents: Seq<TranslationData>) -> Seq<TranslationDataView> {
    documents.map_values(|d: TranslationData| d@)
}

/// The search index: everything the query engine loads.
#[derive(Clone, Debug, PartialEq, Eq)]
pub struct VersearchIndex {
    /// Transducer from each token to its id.
    pub fst_bytes: Vec<u8>,
    /// For each token id, the reverse index of the token.
    pub reverse_index: Vec<ReverseIndexEntryBytes>,
    /// Transducer of the proximity table.
    pub proximities_bytes: Vec<u8>,
    /// All spellings in ascending order.
    pub highlight_words: Vec<String>,
    /// Transducer from the key of each verse of each translation to a
    /// position in `translation_verses_strings`.
    pub translation_verses_bytes: Vec<u8>,
    /// The texts of the verses.
    pub translation_verses_strings: Vec<String>,
}

/// The search index as plain sequences.
pub struct VersearchIndexView {
    pub fst_bytes: Seq<u8>,
    pub reverse_index: Seq<ReverseIndexEntryView>,
    pub proximities_bytes: Seq<u8>,
    pub highlight_words: Seq<Seq<char>>,
    pub translation_verses_bytes: Seq<u8>,
    pub translation_verses_strings: Seq<Seq<char>>,
}

impl View for VersearchIndex {
    type V = VersearchIndexView;

    open spec fn view(&self) -> VersearchIndexView {
        VersearchIndexView {
            fst_bytes: self.fst_bytes@,
            reverse_index: entries_of(self.reverse_index@),
            proximities_bytes: self.proximities_bytes@,
            highlight_words: texts_of(self.highlight_words@),
            translation_verses_bytes: self.translation_verses_bytes@,
            translation_verses_strings: texts_of(self.translation_verses_strings@),
        }
    }
}

impl VersearchIndex {
    /// Puts the compiled parts together.
    pub fn new(
        fst_bytes: Vec<u8>,
        reverse_index: Vec<ReverseIndexEntryBytes>,
        proximities_bytes: Vec<u8>,
        highlight_words: Vec<String>,
        translation_verses_bytes: Vec<u8>,
        translation_verses_strings: Vec<String>,
    ) -> (index: Self)
        ensures
            index.fst_bytes == fst_bytes,
            index.reverse_index == reverse_index,
            index.proximities_bytes == proximities_bytes,
            index.highlight_words == highlight_words,
            index.translation_verses_bytes == translation_verses_bytes,
            index.translation_verses_strings == translation_verses_strings,
    {
        VersearchIndex {
            fst_bytes,
            reverse_index,
            proximities_bytes,
            highlight_words,
            translation_verses_bytes,
            translation_verses_strings,
        }
    }
}

/// A corpus in which nothing has been taken in yet.
pub open spec fn empty_corpus() -> CorpusView {
    CorpusView {
        texts: Map::empty(),
        words: Map::empty(),
        counts: Map::empty(),
        distances: Map::empty(),
    }
}

/// What is wrong with a document, if anything: its translation does not
/// exist, or else one of its verses has no key.
pub open spec fn document_fault(document: TranslationDataView) -> Option<BuildError> {
    if !(0 <= document.translation < TRANSLATION_COUNT) {
        Some(BuildError::UnknownTranslation)
    } else if exists|i: int| 0 <= i < document.verses.len() && (#[trigger] document.verses[i]).key is None {
        Some(BuildError::MissingVerseKey)
    } else {
        None
    }
}

/// What is wrong with the first document with which something is wrong.
pub open spec fn first_fault(documents: Seq<TranslationDataView>) -> Option<BuildError>
    decreases documents.len(),
{
    if documents.len() == 0 {
        None
    } else {
        match first_fault(documents.drop_last()) {
            Some(e) => Some(e),
            None => document_fault(documents.last()),
        }
    }
}

/// The verses of a document with their keys.
pub open spec fn keyed(records: Seq<VerseRecordView>) -> Seq<VerseTextView> {
    records.map_values(|r: VerseRecordView| VerseTextView { key: r.key->0, text: r.text })
}

/// The corpus after the documents have been taken in, one after the other.
pub open spec fn documents_recorded(
    corpus: CorpusView,
    documents: Seq<TranslationDataView>,
) -> CorpusView
    decreases documents.len(),
{
    if documents.len() == 0 {
        corpus
    } else {
        verses_recorded(
            documents_recorded(corpus, documents.drop_last()),
            documents.last().translation as u8,
            keyed(documents.last().verses),
        )
    }
}

/// The index compiled from a corpus. The id of a token is its position
/// among the tokens in ascending order, in the dictionary, in the reverse
/// index and in the proximity table alike.
pub open spec fn index_of(corpus: CorpusView) -> VersearchIndexView {
    VersearchIndexView {
        fst_bytes: map_bytes(ranked(corpus.counts.dom())),
        reverse_index: reverse_entries(corpus.counts, corpus.words.dom()),
        proximities_bytes: map_bytes(proximity_entries(corpus.distances, corpus.counts.dom())),
        highlight_words: listed_values(corpus.words),
        translation_verses_bytes: map_bytes(ranked(corpus.texts.dom())),
        translation_verses_strings: listed_values(corpus.texts),
    }
}

/// What building an index from the documents comes to: the fault of the
/// first faulty document; else an error if the tokens are too many for
/// two-byte ids; else the index compiled from the corpus of the documents.
pub open spec fn build_outcome(documents: Seq<TranslationDataView>) -> Result<
    VersearchIndexView,
    BuildError,
> {
    let corpus = documents_recorded(empty_corpus(), documents);
    match first_fault(documents) {
        Some(e) => Err(e),
        None => if corpus.counts.dom().len() > MAX_TOKENS {
            Err(BuildError::TokenIdOverflow)
        } else {
            Ok(index_of(corpus))
        },
    }
}

proof fn lemma_first_fault_found(documents: Seq<TranslationDataView>, at: int)
    requires
        0 <= at < documents.len(),
        first_fault(documents.take(at)) is None,
        document_fault(documents[at]) is Some,
    ensures
        first_fault(documents) == document_fault(documents[at]),
    decreases documents.len(),
{
    if at == documents.len() - 1 {
        assert(documents.drop_last() =~= documents.take(at));
    } else {
        assert(documents.drop_last().take(at) =~= documents.take(at));
        lemma_first_fault_found(documents.drop_last(), at);
    }
}

/// The verses with their keys, if every verse has one.
fn keyed_verses(records: &Vec<VerseRecord>) -> (r: Option<Vec<VerseText>>)
    ensures
        match r {
            Some(verses) => {
                &&& forall|i: int| 0 <= i < records@.len() ==> (#[trigger] records@[i]).key is Some
                &&& verses_of(verses@) == keyed(records@.map_values(|r: VerseRecord| r@))
            },
            None => exists|i: int| 0 <= i < records@.len() && (#[trigger] records@[i]).key is None,
        },
{
    let mut verses: Vec<VerseText> = Vec::with_capacity(records.len());
    let mut i: usize = 0;
    while i < records.len()
        invariant
            i <= records.len(),
            verses@.len() == i,
            forall|x: int| 0 <= x < i ==> (#[trigger] records@[x]).key is Some,
            forall|x: int|
                0 <= x < i ==> (#[trigger] verses@[x])@ == (VerseTextView {
                    key: records@[x].key->0,
                    text: records@[x].text@,
                }),
        decreases records.len() - i,
    {
        match records[i].key {
            Some(key) => {
                verses.push(VerseText { key, text: records[i].text.clone() });
            },
            None => {
                return None;
            },
        }
        i += 1;
    }
    proof {
        assert(verses_of(verses@) =~= keyed(records@.map_values(|r: VerseRecord| r@)));
    }
    Some(verses)
}

/// Creates a search index from the decoded documents of the corpus.
///
/// The documents are taken in one after the other. A document that names
/// no known translation, or has a verse without a key, ends the build with
/// that fault. The statistics are then compiled into the dictionary, the
/// reverse index, the proximity table and the verse texts.
pub fn get_index(documents: &[TranslationData]) -> (r: Result<VersearchIndex, BuildError>)
    ensures
        match r {
            Ok(index) => build_outcome(documents_of(documents@)) == Ok::<
                VersearchIndexView,
                BuildError,
            >(index@),
            Err(e) => build_outcome(documents_of(documents@)) == Err::<
                VersearchIndexView,
                BuildError,
            >(e),
        },
{
    let mut wip_token_counts: TokenCounts = ByteMap::new();
    let mut wip_proximities: Proximities = ByteMap::new();
    let mut translation_verses: TranslationVerses = ByteMap::new();
    let mut highlight_words: HighlightWords = ByteMap::new();
    let ghost all = documents_of(documents@);
    let mut d: usize = 0;
    proof {
        assert(all.take(0) =~= Seq::<TranslationDataView>::empty());
        assert(corpus_of(&translation_verses, &highlight_words, &wip_token_counts, &wip_proximities)
            == empty_corpus());
    }
    while d < documents.len()
        invariant
            d <= documents.len(),
            all == documents_of(documents@),
            translation_verses.wf(),
            words_wf(&highlight_words),
            counts_wf(&wip_token_counts),
            proximities_wf(&wip_proximities),
            first_fault(all.take(d as int)) is None,
            corpus_of(&translation_verses, &highlight_words, &wip_token_counts, &wip_proximities)
                == documents_recorded(empty_corpus(), all.take(d as int)),
            consistent(
                corpus_of(&translation_verses, &highlight_words, &wip_token_counts, &wip_proximities),
            ),
        decreases documents.len() - d,
    {
        let document = &documents[d];
        proof {
            assert(all[d as int] == document@);
            assert(all.take(d + 1).drop_last() =~= all.take(d as int));
            assert(all.take(d + 1).last() == document@);
        }
        let translation_key = match Translation::from_i32(document.translation) {
            Some(translation_key) => translation_key,
            None => {
                proof {
                    lemma_first_fault_found(all, d as int);
                }
                return Err(BuildError::UnknownTranslation);
            },
        };
        let verses = match keyed_verses(&document.verses) {
            Some(verses) => verses,
            None => {
                proof {
                    let i = choose|i: int|
                        0 <= i < document.verses@.len() && (#[trigger] document.verses@[i]).key is None;
                    assert(document@.verses[i].key is None);
                    lemma_first_fault_found(all, d as int);
                }
                return Err(BuildError::MissingVerseKey);
            },
        };
        proof {
            assert(document_fault(document@) is None) by {
                if exists|i: int| 0 <= i < document@.verses.len() && (#[trigger] document@.verses[i]).key is None {
                    let i = choose|i: int| 0 <= i < document@.verses.len() && (#[trigger] document@.verses[i]).key is None;
                    assert(document.verses@[i].key is Some);
                }
            }
            lemma_verses_recorded_consistent(
                corpus_of(&translation_verses, &highlight_words, &wip_token_counts, &wip_proximities),
                translation_key.index(),
                verses_of(verses@),
            );
        }
        process_verses(
            translation_key,
            verses.as_slice(),
            &mut translation_verses,
            &mut highlight_words,
            &mut wip_token_counts,
            &mut wip_proximities,
        );
        d += 1;
    }
    proof {
        assert(all.take(documents@.len() as int) =~= all);
        wip_token_counts.lemma_keys_listed();
    }
    let (reverse_index, fst_bytes, words) = match build_reverse_index(
        &highlight_words,
        &wip_token_counts,
    ) {
        Ok(parts) => parts,
        Err(e) => {
            return Err(e);
        },
    };
    let proximities_bytes = match build_proximity_fst_bytes(&wip_proximities, &wip_token_counts) {
        Ok(bytes) => bytes,
        Err(e) => {
            return Err(e);
        },
    };
    let (translation_verses_bytes, translation_verses_strings) =
        match build_translation_verses_bytes(&translation_verses) {
        Ok(parts) => parts,
        Err(e) => {
            return Err(e);
        },
    };
    Ok(
        VersearchIndex::new(
            fst_bytes,
            reverse_index,
            proximities_bytes,
            words,
            translation_verses_bytes,
            translation_verses_strings,
        ),
    )
}

} // verus!
