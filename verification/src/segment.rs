use vstd::prelude::*;
use crate::chars::{all_phonetic, is_all_phonetic, concat_all, views_of};
use crate::dict::Dictionary;

verus! {

#[verifier::external_type_specification]
#[verifier::external_body]
pub struct ExJieba(jieba_rs::Jieba);

/// Relies on jieba_rs::Jieba::new: a word segmenter loaded with its
/// built-in default dictionary.
#[verifier::external_body]
fn jieba_new() -> jieba_rs::Jieba {
    jieba_rs::Jieba::new()
}

/// Relies on jieba_rs::Jieba::add_word: registers the word as a preferred
/// segmentation unit with a default frequency. Nothing observable is
/// stated of the segmenter's opaque state.
#[verifier::external_body]
fn jieba_add_word(j: &mut jieba_rs::Jieba, word: &Vec<char>) {
    let w: String = word.iter().collect();
    j.add_word(&w, None, None);
}

/// Relies on jieba_rs::Jieba::cut (without the hidden Markov model): its
/// tokens cover the input in order, with neither loss nor overlap, so the
/// returned segments concatenate back to the input exactly.
#[verifier::external_body]
fn jieba_cut(j: &jieba_rs::Jieba, text: &Vec<char>) -> (r: Vec<Vec<char>>)
    ensures
        concat_all(views_of(r@)) == text@,
{
    let s: String = text.iter().collect();
    j.cut(&s, false).iter().map(|t| t.word.chars().collect()).collect()
}

/// A word-boundary detector over Han text, biased by the multi-character
/// dictionary words so that dictionary phrases are preferred segmentation
/// units.
pub struct Segmenter {
    jieba: jieba_rs::Jieba,
}

/// A dictionary word is registered with the segmenter exactly when it has
/// more than one character and is not composed purely of phonetic symbols.
pub open spec fn should_register_spec(w: Seq<char>) -> bool {
    w.len() > 1 && !all_phonetic(w)
}

pub fn should_register(w: &Vec<char>) -> (r: bool)
    ensures
        r == should_register_spec(w@),
{
    w.len() > 1 && !is_all_phonetic(w)
}

impl Segmenter {
    /// Build the segmenter and register every dictionary word that
    /// `should_register_spec` allows.
    pub fn new(dict: &Dictionary) -> Segmenter {
        let mut jieba = jieba_new();
        let mut i: usize = 0;
        while i < dict.len()
            invariant
                i <= dict@.len(),
            decreases dict@.len() - i,
        {
            let w = dict.word_at(i);
            if should_register(w) {
                jieba_add_word(&mut jieba, w);
            }
            i = i + 1;
        }
        Segmenter { jieba }
    }

    /// Cut `text` into segments whose concatenation is `text` exactly:
    /// segmentation inserts boundaries and never loses or duplicates a
    /// character.
    pub fn cut(&self, text: &Vec<char>) -> (r: Vec<Vec<char>>)
        ensures
            concat_all(views_of(r@)) == text@,
    {
        jieba_cut(&self.jieba, text)
    }
}

} // verus!
