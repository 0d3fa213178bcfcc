//! From article text to a term vector: tokens, case folding, stop words,
//! two-pass stemming and the term dictionary.

use vstd::prelude::*;

use rust_stemmers::{Algorithm, Stemmer};

use crate::tf::{count_words, counts_of, normalized, produce_vector};
use crate::vector::{valid_vector, Vector};

verus! {

/// The languages of the two stemming passes.
pub enum Language {
    Russian,
    English,
}

/// The whitespace-separated words of a text.
pub uninterp spec fn words_of(text: Seq<char>) -> Seq<Seq<char>>;

/// A word in lower case.
pub uninterp spec fn lower_of(word: Seq<char>) -> Seq<char>;

/// The stem of a lower-case word in a language.
pub uninterp spec fn stem_of(language: Language, word: Seq<char>) -> Seq<char>;

pub open spec fn strings(s: Seq<String>) -> Seq<Seq<char>> {
    s.map_values(|x: String| x@)
}

/// Relies on `str::split_whitespace`: the words of a text, in order.
#[verifier::external_body]
fn split_words(text: &str) -> (r: Vec<String>)
    ensures
        strings(r@) == words_of(text@),
{
    text.split_whitespace().map(|w| w.to_owned()).collect()
}

/// Relies on `str::to_lowercase`: the result depends on the characters alone.
#[verifier::external_body]
pub(crate) fn lowercase(word: &str) -> (r: String)
    ensures
        r@ == lower_of(word@),
{
    word.to_lowercase()
}

/// Relies on `rust_stemmers::Stemmer::stem`, with the stemmer that
/// `Stemmer::create` gives for the language: the stem depends on the
/// language and the word alone.
#[verifier::external_body]
fn stem(language: Language, word: &str) -> (r: String)
    ensures
        r@ == stem_of(language, word@),
{
    let algorithm = match language {
        Language::Russian => Algorithm::Russian,
        Language::English => Algorithm::English,
    };
    Stemmer::create(algorithm).stem(word).into_owned()
}

/// The Russian pass, then the English one.
pub open spec fn stemmed(word: Seq<char>) -> Seq<char> {
    stem_of(Language::English, stem_of(Language::Russian, word))
}

/// Stems a word in both languages, Russian first.
pub fn stem_word(word: String) -> (r: String)
    ensures
        r@ == stemmed(word@),
{
    let word = stem(Language::Russian, word.as_str());
    stem(Language::English, word.as_str())
}

/// The stop words and the term dictionary, fixed for the life of the process.
/// A term's index is its position in `terms` (the last one, for a term listed
/// twice).
pub struct Vocabulary {
    pub stop_words: Vec<String>,
    pub terms: Vec<String>,
}

/// The dictionary index of the word at `word`, if it survives: lower-cased,
/// not a stop word, stemmed, and found in the dictionary.
pub open spec fn word_term(v: Vocabulary, word: Seq<char>) -> Option<int> {
    let lower = lower_of(word);
    if strings(v.stop_words@).contains(lower) {
        None
    } else {
        strings(v.terms@).index_of_last(stemmed(lower))
    }
}

/// The dictionary indices of the words that survive, in order.
pub open spec fn term_indices(v: Vocabulary, words: Seq<Seq<char>>) -> Seq<u32>
    decreases words.len(),
{
    if words.len() == 0 {
        Seq::empty()
    } else {
        let prev = term_indices(v, words.drop_last());
        match word_term(v, words.last()) {
            Some(i) => prev.push(i as u32),
            None => prev,
        }
    }
}

/// `r` is the vector of the term indices `words`: the normalized counts.
pub open spec fn vector_of(r: Seq<(u32, u32)>, words: Seq<u32>) -> bool {
    exists|c: Seq<(u32, u32)>| counts_of(c, words) && normalized(r, c)
}

impl Vocabulary {
    pub open spec fn wf(&self) -> bool {
        self.terms.len() <= u32::MAX
    }

    /// Whether `word` is not a stop word.
    pub fn is_not_stopword(&self, word: &String) -> (r: bool)
        ensures
            r == !strings(self.stop_words@).contains(word@),
    {
        let mut i: usize = 0;
        while i < self.stop_words.len()
            invariant
                i <= self.stop_words.len(),
                forall|j: int| 0 <= j < i ==> self.stop_words@[j]@ != word@,
            decreases self.stop_words.len() - i,
        {
            if self.stop_words[i] == *word {
                assert(strings(self.stop_words@)[i as int] == word@);
                return false;
            }
            i = i + 1;
        }
        proof {
            if strings(self.stop_words@).contains(word@) {
                let j = choose|j: int|
                    0 <= j < self.stop_words.len() && strings(self.stop_words@)[j] == word@;
                assert(self.stop_words@[j]@ == word@);
            }
        }
        true
    }

    /// The dictionary index of a term.
    pub fn get_word_index(&self, word: &String) -> (r: Option<u32>)
        requires
            self.wf(),
        ensures
            match r {
                Some(k) => strings(self.terms@).index_of_last(word@) == Some(k as int),
                None => strings(self.terms@).index_of_last(word@) is None,
            },
    {
        let ghost terms = strings(self.terms@);
        proof {
            terms.index_of_last_ensures(word@);
        }
        let mut i: usize = self.terms.len();
        while i > 0
            invariant
                i <= self.terms.len(),
                self.wf(),
                terms == strings(self.terms@),
                forall|j: int| i <= j < self.terms.len() ==> self.terms@[j]@ != word@,
            decreases i,
        {
            if self.terms[i - 1] == *word {
                proof {
                    terms.index_of_last_ensures(word@);
                    assert(terms[i - 1] == word@);
                    assert(terms.contains(word@));
                    let k = terms.index_of_last(word@)->0;
                    if k > i - 1 {
                        assert(self.terms@[k]@ != word@);
                    } else if k < i - 1 {
                    }
                }
                return Some((i - 1) as u32);
            }
            i = i - 1;
        }
        proof {
            terms.index_of_last_ensures(word@);
            if terms.contains(word@) {
                let j = choose|j: int| 0 <= j < terms.len() && terms[j] == word@;
                assert(self.terms@[j]@ == word@);
            }
        }
        None
    }

    /// The dictionary indices of the words of `text` that survive.
    pub fn term_indices(&self, text: &str) -> (r: Vec<u32>)
        requires
            self.wf(),
        ensures
            r@ == term_indices(*self, words_of(text@)),
    {
        let words = split_words(text);
        let ghost ws = strings(words@);
        let mut indices: Vec<u32> = Vec::new();
        let mut i: usize = 0;
        while i < words.len()
            invariant
                self.wf(),
                ws == strings(words@),
                ws == words_of(text@),
                i <= words.len(),
                indices@ == term_indices(*self, ws.take(i as int)),
            decreases words.len() - i,
        {
            let ghost w = ws[i as int];
            assert(ws.take(i as int + 1).drop_last() =~= ws.take(i as int));
            assert(ws.take(i as int + 1).last() == w);
            let lower = lowercase(words[i].as_str());
            if self.is_not_stopword(&lower) {
                let stem = stem_word(lower);
                match self.get_word_index(&stem) {
                    Some(k) => {
                        proof {
                            strings(self.terms@).index_of_last_ensures(stem@);
                        }
                        indices.push(k);
                    },
                    None => {},
                }
            }
            i = i + 1;
        }
        assert(ws.take(words.len() as int) =~= ws);
        indices
    }
}

/// The term vector of a sequence of term indices.
pub fn vectorize_terms(words: &Vec<u32>) -> (r: Vector)
    requires
        words.len() <= u32::MAX,
    ensures
        vector_of(r@, words@),
        valid_vector(r@),
        r@.len() == 0 <==> words.len() == 0,
{
    let counter = count_words(words);
    let r = produce_vector(&counter);
    proof {
        if words.len() > 0 {
            assert(crate::tf::occurrences(words@, words@.last()) > 0) by {
                assert(words@.drop_last().push(words@.last()) =~= words@);
                crate::tf::lemma_occurrences_push(words@.drop_last(), words@.last(), words@.last());
            }
        }
        if counter.len() > 0 && words.len() == 0 {
            assert(counter@[0].1 == crate::tf::occurrences(words@, counter@[0].0));
        }
    }
    r
}

/// The term vector of a text; `None` when more words survive than a count
/// can hold (`u32::MAX`).
pub fn vectorize(content: &str, vocabulary: &Vocabulary) -> (r: Option<Vector>)
    requires
        vocabulary.wf(),
    ensures
        match r {
            Some(v) => {
                &&& term_indices(*vocabulary, words_of(content@)).len() <= u32::MAX
                &&& vector_of(v@, term_indices(*vocabulary, words_of(content@)))
                &&& valid_vector(v@)
                &&& v@.len() == 0 <==> term_indices(*vocabulary, words_of(content@)).len() == 0
            },
            None => term_indices(*vocabulary, words_of(content@)).len() > u32::MAX,
        },
{
    let indices = vocabulary.term_indices(content);
    if indices.len() > u32::MAX as usize {
        return None;
    }
    Some(vectorize_terms(&indices))
}

} // verus!
