//! Splitting verse text into words, each with its search token and its
//! display form.

use vstd::prelude::*;

verus! {

/// A word of the text: `source` is what is shown, `token` is what is searched.
#[derive(Clone, Debug, PartialEq, Eq, Hash)]
pub struct Tokenized {
    pub source: String,
    pub token: String,
}

/// The two forms of a word as character sequences.
pub struct TokenizedView {
    pub source: Seq<char>,
    pub token: Seq<char>,
}

impl View for Tokenized {
    type V = TokenizedView;

    open spec fn view(&self) -> TokenizedView {
        TokenizedView { source: self.source@, token: self.token@ }
    }
}

/// Characters with the Unicode property White_Space.
pub open spec fn is_space(c: char) -> bool {
    let u = c as u32;
    ||| 0x09 <= u <= 0x0D
    ||| u == 0x20
    ||| u == 0x85
    ||| u == 0xA0
    ||| u == 0x1680
    ||| 0x2000 <= u <= 0x200A
    ||| u == 0x2028
    ||| u == 0x2029
    ||| u == 0x202F
    ||| u == 0x205F
    ||| u == 0x3000
}

/// ASCII letters and digits.
pub open spec fn is_alnum(c: char) -> bool {
    let u = c as u32;
    ||| 0x30 <= u <= 0x39
    ||| 0x41 <= u <= 0x5A
    ||| 0x61 <= u <= 0x7A
}

/// The upper-case form of an ASCII letter; any other character unchanged.
pub open spec fn upper(c: char) -> char {
    let u = c as u32;
    if 0x61 <= u <= 0x7A {
        ((u - 0x20) as u32) as char
    } else {
        c
    }
}

/// Characters that the display form keeps when they are not at the end of
/// the word.
pub open spec fn is_shown(c: char) -> bool {
    is_alnum(c) || c == '\'' || c == ','
}

/// The search token of a word: its ASCII letters and digits, upper-cased.
pub open spec fn token_of(word: Seq<char>) -> Seq<char> {
    word.filter(|c: char| is_alnum(c)).map_values(|c: char| upper(c))
}

/// The display form of a word: its ASCII letters and digits, apostrophes and
/// commas, but not a comma that ends the word.
pub open spec fn source_of(word: Seq<char>) -> Seq<char> {
    if word.len() > 0 && word.last() == ',' {
        word.drop_last().filter(|c: char| is_shown(c))
    } else {
        word.filter(|c: char| is_shown(c))
    }
}

/// The words of a text: its maximal runs of characters that are not white
/// space, in order.
pub open spec fn split_words(s: Seq<char>) -> Seq<Seq<char>>
    decreases s.len(),
{
    if s.len() == 0 {
        Seq::empty()
    } else {
        let before = split_words(s.drop_last());
        if is_space(s.last()) {
            before
        } else if s.len() > 1 && !is_space(s[s.len() - 2]) {
            before.drop_last().push(before.last().push(s.last()))
        } else {
            before.push(seq![s.last()])
        }
    }
}

/// What tokenizing a text yields: one entry per word.
pub open spec fn tokenize_spec(input: Seq<char>) -> Seq<TokenizedView> {
    split_words(input).map_values(
        |w: Seq<char>| forms_of(w),
    )
}

/// `String::push` appends the character to the string.
pub assume_specification[ String::push ](s: &mut String, ch: char)
    ensures
        final(s)@ == old(s)@.push(ch),
;

fn char_is_space(c: char) -> (r: bool)
    ensures
        r == is_space(c),
{
    let u: u32 = c as u32;
    (0x09 <= u && u <= 0x0D) || u == 0x20 || u == 0x85 || u == 0xA0 || u == 0x1680 || (0x2000 <= u
        && u <= 0x200A) || u == 0x2028 || u == 0x2029 || u == 0x202F || u == 0x205F || u == 0x3000
}

fn char_is_alnum(c: char) -> (r: bool)
    ensures
        r == is_alnum(c),
{
    let u: u32 = c as u32;
    (0x30 <= u && u <= 0x39) || (0x41 <= u && u <= 0x5A) || (0x61 <= u && u <= 0x7A)
}

fn char_upper(c: char) -> (r: char)
    ensures
        r == upper(c),
{
    let u: u32 = c as u32;
    if 0x61 <= u && u <= 0x7A {
        let v: u8 = (u - 0x20) as u8;
        v as char
    } else {
        c
    }
}

/// The characters of a string slice as a vector.
fn chars_of(s: &str) -> (v: Vec<char>)
    ensures
        v@ == s@,
{
    broadcast use vstd::string::axiom_spec_iter;

    let mut v: Vec<char> = Vec::new();
    for c in it: s.chars()
        invariant
            it.seq() == s@,
            v@ == it.seq().take(it.index()),
    {
        v.push(c);
    }
    assert(v@ == s@.take(s@.len() as int));
    v
}

/// The views of a run of tokenized words.
pub open spec fn views_of(words: Seq<Tokenized>) -> Seq<TokenizedView> {
    words.map_values(|t: Tokenized| t@)
}

/// The two forms that a word is given.
pub open spec fn forms_of(word: Seq<char>) -> TokenizedView {
    TokenizedView { source: source_of(word), token: token_of(word) }
}

proof fn lemma_token_of_push(w: Seq<char>, c: char)
    ensures
        token_of(w.push(c)) == if is_alnum(c) {
            token_of(w).push(upper(c))
        } else {
            token_of(w)
        },
{
    reveal(Seq::filter);
    assert(w.push(c).drop_last() =~= w);
    if is_alnum(c) {
        assert(token_of(w.push(c)) =~= token_of(w).push(upper(c)));
    }
}

proof fn lemma_shown_push(w: Seq<char>, c: char)
    ensures
        w.push(c).filter(|c: char| is_shown(c)) == if is_shown(c) {
            w.filter(|c: char| is_shown(c)).push(c)
        } else {
            w.filter(|c: char| is_shown(c))
        },
{
    reveal(Seq::filter);
    assert(w.push(c).drop_last() =~= w);
}

/// Builds the two forms of one word.
fn tokenized_of(word: &Vec<char>) -> (t: Tokenized)
    ensures
        t@ == forms_of(word@),
{
    let mut token = String::new();
    let mut source = String::new();
    let n: usize = word.len();
    let mut i: usize = 0;
    proof {
        reveal(Seq::filter);
        assert(word@.take(0) =~= Seq::<char>::empty());
        assert(token_of(Seq::<char>::empty()) =~= Seq::<char>::empty());
    }
    while i < n
        invariant
            n == word.len(),
            i <= n,
            token@ == token_of(word@.take(i as int)),
            source@ == if i == n && n > 0 && word@.last() == ',' {
                word@.drop_last().filter(|c: char| is_shown(c))
            } else {
                word@.take(i as int).filter(|c: char| is_shown(c))
            },
        decreases n - i,
    {
        let c: char = word[i];
        let alnum = char_is_alnum(c);
        proof {
            assert(word@.take(i + 1) =~= word@.take(i as int).push(c));
            lemma_token_of_push(word@.take(i as int), c);
            lemma_shown_push(word@.take(i as int), c);
            if i + 1 == n {
                assert(word@.take(i as int) =~= word@.drop_last());
            }
        }
        if alnum {
            token.push(char_upper(c));
        }
        if alnum || c == '\'' || (c == ',' && i + 1 != n) {
            source.push(c);
        }
        i += 1;
    }
    proof {
        assert(word@.take(n as int) =~= word@);
    }
    Tokenized { source, token }
}

/// Splits a text at white space and gives each word its search token and
/// its display form, in the order of the text.
pub fn tokenize(input: &str) -> (out: Vec<Tokenized>)
    ensures
        views_of(out@) == tokenize_spec(input@),
{
    let chars = chars_of(input);
    let mut out: Vec<Tokenized> = Vec::new();
    let mut word: Vec<char> = Vec::new();
    let ghost mut done: Seq<Seq<char>> = Seq::empty();
    let mut i: usize = 0;
    proof {
        assert(chars@.take(0) =~= Seq::<char>::empty());
    }
    while i < chars.len()
        invariant
            i <= chars.len(),
            word@.len() > 0 <==> (i > 0 && !is_space(chars@[i - 1])),
            split_words(chars@.take(i as int)) == if word@.len() > 0 {
                done.push(word@)
            } else {
                done
            },
            out@.len() == done.len(),
            forall|j: int| 0 <= j < done.len() ==> (#[trigger] out@[j])@ == forms_of(done[j]),
        decreases chars.len() - i,
    {
        let c: char = chars[i];
        let ghost s = chars@.take(i + 1);
        let ghost before = split_words(chars@.take(i as int));
        proof {
            assert(s.drop_last() =~= chars@.take(i as int));
            assert(s.last() == c);
            if i > 0 {
                assert(s[s.len() - 2] == chars@[i - 1]);
            }
        }
        if char_is_space(c) {
            assert(split_words(s) == before);
            if word.len() > 0 {
                let t = tokenized_of(&word);
                proof {
                    done = done.push(word@);
                }
                out.push(t);
                word = Vec::new();
            }
        } else {
            proof {
                if word@.len() > 0 {
                    assert(before.drop_last() =~= done);
                    assert(before.last() == word@);
                    assert(split_words(s) == done.push(word@.push(c)));
                } else {
                    assert(split_words(s) == done.push(seq![c]));
                    assert(seq![c] =~= word@.push(c));
                }
            }
            word.push(c);
        }
        i += 1;
    }
    proof {
        assert(chars@.take(chars@.len() as int) =~= chars@);
    }
    if word.len() > 0 {
        let t = tokenized_of(&word);
        proof {
            done = done.push(word@);
        }
        out.push(t);
    }
    proof {
        assert(done == split_words(input@));
        assert(views_of(out@) =~= tokenize_spec(input@));
    }
    out
}

/// No character of the word is white space.
pub open spec fn spaceless(word: Seq<char>) -> bool {
    forall|i: int| 0 <= i < word.len() ==> !is_space(#[trigger] word[i])
}

/// Every word of a text has at least one character and no white space, and
/// a text that does not end in white space has a last word.
pub proof fn lemma_words_are_runs(s: Seq<char>)
    ensures
        forall|i: int|
            0 <= i < split_words(s).len() ==> (#[trigger] split_words(s)[i]).len() > 0
                && spaceless(split_words(s)[i]),
        s.len() > 0 && !is_space(s.last()) ==> split_words(s).len() > 0,
    decreases s.len(),
{
    if s.len() > 0 {
        let before = split_words(s.drop_last());
        lemma_words_are_runs(s.drop_last());
        if !is_space(s.last()) && s.len() > 1 && !is_space(s[s.len() - 2]) {
            assert(s.drop_last().last() == s[s.len() - 2]);
            assert(spaceless(before.last()));
            assert forall|k: int| 0 <= k < before.last().push(s.last()).len() implies !is_space(
                #[trigger] before.last().push(s.last())[k],
            ) by {
                if k < before.last().len() {
                    assert(!is_space(before.last()[k]));
                }
            }
        }
    }
}

/// A run of characters without white space is a single word.
pub proof fn lemma_one_word(word: Seq<char>)
    requires
        word.len() > 0,
        spaceless(word),
    ensures
        split_words(word) == seq![word],
    decreases word.len(),
{
    if word.len() == 1 {
        assert(word.drop_last().len() == 0);
        assert(split_words(word.drop_last()) =~= Seq::<Seq<char>>::empty());
        assert(seq![word.last()] =~= word);
        assert(split_words(word) =~= seq![word]);
    } else {
        let init = word.drop_last();
        assert(spaceless(init)) by {
            assert forall|i: int| 0 <= i < init.len() implies !is_space(#[trigger] init[i]) by {
                assert(init[i] == word[i]);
            }
        }
        lemma_one_word(init);
        assert(!is_space(word[word.len() - 2]));
        assert(!is_space(word[word.len() - 1]));
        assert(init.push(word.last()) =~= word);
        assert(seq![init].last() == init);
        assert(seq![init].drop_last().push(word) =~= seq![word]);
    }
}

/// Where two texts meet at white space, the words of the whole are the
/// words of the first followed by the words of the second.
pub proof fn lemma_words_of_parts(a: Seq<char>, b: Seq<char>)
    requires
        a.len() == 0 || b.len() == 0 || is_space(a.last()) || is_space(b[0]),
    ensures
        split_words(a + b) == split_words(a) + split_words(b),
    decreases b.len(),
{
    if b.len() == 0 {
        assert(a + b =~= a);
        assert(split_words(a) + split_words(b) =~= split_words(a));
    } else if a.len() == 0 {
        assert(a + b =~= b);
        assert(split_words(a) + split_words(b) =~= split_words(b));
    } else {
        let init = b.drop_last();
        let c = b.last();
        let whole = a + b;
        assert(whole.drop_last() =~= a + init);
        assert(whole.last() == c);
        if init.len() > 0 {
            assert(init[0] == b[0]);
        }
        lemma_words_of_parts(a, init);
        let x = split_words(a + init);
        let y = split_words(init);
        if is_space(c) {
        } else if init.len() > 0 {
            assert(whole[whole.len() - 2] == init.last());
            assert(b[b.len() - 2] == init.last());
            if !is_space(init.last()) {
                lemma_words_are_runs(init);
                assert(x.last() == y.last());
                assert(x.drop_last() =~= split_words(a) + y.drop_last());
                assert(split_words(whole) =~= split_words(a) + split_words(b));
            } else {
                assert(split_words(whole) =~= split_words(a) + split_words(b));
            }
        } else {
            assert(whole[whole.len() - 2] == a.last());
            assert(split_words(whole) =~= split_words(a) + split_words(b));
        }
    }
}

} // verus!
