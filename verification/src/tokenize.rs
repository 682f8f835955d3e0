//! The tokenizer: a closed set of splitting strategies selected once per
//! invocation by language code.  The default strategy splits at delimiter
//! characters; for Mandarin (language code `cmn`), which writes no
//! inter-word whitespace, a dictionary-based segmenter from jieba_rs
//! produces the token spans instead.
use vstd::prelude::*;
use crate::text::{chars_eq, chars_of, spec_split_char, split_by, split_tokens, string_from_chars, views};

verus! {

#[verifier::external_type_specification]
#[verifier::external_body]
pub struct ExJieba(jieba_rs::Jieba);

/// What jieba_rs's cut (HMM enabled, on the crate's default dictionary)
/// yields for a text: its segmentation into word spans, a function of the
/// text alone.
pub uninterp spec fn segment_of(s: Seq<char>) -> Seq<Seq<char>>;

/// A segmenter for languages without inter-word whitespace.  Its one
/// constructor loads jieba_rs's default dictionary, so every value holds
/// the same dictionary and segmentation depends on the text alone.
pub struct Segmenter {
    jieba: jieba_rs::Jieba,
}

/// Relies on jieba_rs::Jieba::new: builds a segmenter holding the crate's
/// embedded default dictionary.
#[verifier::external_body]
fn jieba_new() -> Segmenter {
    Segmenter { jieba: jieba_rs::Jieba::new() }
}

/// Relies on jieba_rs::Jieba::cut with hmm enabled: the words of the
/// returned tokens are the segmentation of the text, and on the default
/// dictionary every Segmenter holds they are a function of the text alone.
#[verifier::external_body]
fn jieba_cut(seg: &Segmenter, text: &str) -> (r: Vec<Vec<char>>)
    ensures
        views(r@) == segment_of(text@),
{
    seg.jieba.cut(text, true).into_iter().map(|t| t.word.chars().collect()).collect()
}

/// The splitting strategies a corpus pass can run with.
pub enum Tokenizer {
    /// Split at delimiter characters (`spec_split_char`), keeping empty
    /// pieces for the downstream filter to drop.
    Whitespace,
    /// Segment with the dictionary-based segmenter.
    Segmenting(Segmenter),
}

impl Tokenizer {
    /// The token spans this tokenizer yields for a text.
    pub open spec fn spec_tokenize(self, s: Seq<char>) -> Seq<Seq<char>> {
        match self {
            Tokenizer::Whitespace => split_by(s, |c: char| spec_split_char(c)),
            Tokenizer::Segmenting(_) => segment_of(s),
        }
    }

    pub fn tokenize(&self, text: &Vec<char>) -> (r: Vec<Vec<char>>)
        ensures
            views(r@) == self.spec_tokenize(text@),
    {
        match self {
            Tokenizer::Whitespace => split_tokens(text),
            Tokenizer::Segmenting(seg) => {
                let s = string_from_chars(text);
                jieba_cut(seg, s.as_str())
            },
        }
    }
}

/// The language code whose sentences are segmented rather than
/// delimiter-split.
pub fn segmented_lang_code() -> (r: Vec<char>)
    ensures
        r@ == "cmn"@,
{
    chars_of("cmn")
}

/// Select the splitting strategy for a language code: the segmenter for
/// the configured segmented language, the delimiter splitter otherwise.
pub fn choose_tokenizer(lang: &str) -> (r: Tokenizer)
    ensures
        lang@ == "cmn"@ ==> r is Segmenting,
        lang@ != "cmn"@ ==> r is Whitespace,
{
    let l = chars_of(lang);
    let cmn = segmented_lang_code();
    if chars_eq(&l, &cmn) {
        Tokenizer::Segmenting(jieba_new())
    } else {
        Tokenizer::Whitespace
    }
}

} // verus!
