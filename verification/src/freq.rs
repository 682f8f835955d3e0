//! The frequency indexer: one pass over the corpus counting, per word key,
//! how often it occurs in sentences of the requested language.  The table
//! is an association list in first-occurrence order with unique keys, which
//! makes the whole index a function of the corpus alone.
use vstd::prelude::*;
use crate::CorpusError;
use crate::norm::{filtered_words, word_keys};
use crate::text::{chars_eq, chars_of, split_by, split_cells, views};
use crate::tokenize::Tokenizer;

verus! {

broadcast use vstd::prelude::Seq::lemma_filter_push;

// ---------------------------------------------------------------------------
// Association-list model.
// ---------------------------------------------------------------------------

/// Index of the first entry with key `k`, or `m.len()` if there is none.
pub open spec fn key_idx(m: Seq<(Seq<char>, usize)>, k: Seq<char>) -> int
    decreases m.len(),
{
    if m.len() == 0 {
        0
    } else if m[0].0 == k {
        0
    } else {
        1 + key_idx(m.drop_first(), k)
    }
}

pub open spec fn has_key(m: Seq<(Seq<char>, usize)>, k: Seq<char>) -> bool {
    exists|i: int| 0 <= i < m.len() && m[i].0 == k
}

/// The value associated with key `k`, if any.
pub open spec fn table_get(m: Seq<(Seq<char>, usize)>, k: Seq<char>) -> Option<usize> {
    if has_key(m, k) {
        Some(m[key_idx(m, k)].1)
    } else {
        None
    }
}

pub proof fn lemma_key_idx(m: Seq<(Seq<char>, usize)>, k: Seq<char>)
    ensures
        0 <= key_idx(m, k) <= m.len(),
        key_idx(m, k) < m.len() <==> has_key(m, k),
        key_idx(m, k) < m.len() ==> m[key_idx(m, k)].0 == k,
        forall|j: int| 0 <= j < key_idx(m, k) ==> m[j].0 != k,
    decreases m.len(),
{
    if m.len() == 0 {
    } else if m[0].0 == k {
    } else {
        lemma_key_idx(m.drop_first(), k);
        assert forall|j: int| 0 <= j < key_idx(m, k) implies m[j].0 != k by {
            if j > 0 {
                assert(m[j] == m.drop_first()[j - 1]);
            }
        }
        if has_key(m, k) {
            let w = choose|i: int| 0 <= i < m.len() && m[i].0 == k;
            assert(m.drop_first()[w - 1].0 == k);
        }
        if has_key(m.drop_first(), k) {
            let w = choose|i: int| 0 <= i < m.drop_first().len() && m.drop_first()[i].0 == k;
            assert(m[w + 1].0 == k);
        }
    }
}

// ---------------------------------------------------------------------------
// The counting model.
// ---------------------------------------------------------------------------

/// Key equality, as a predicate value.
pub open spec fn eq_key(w: Seq<char>) -> spec_fn(Seq<char>) -> bool {
    |x: Seq<char>| x == w
}

/// How often word key `w` occurs in `words`.
pub open spec fn occurrences(words: Seq<Seq<char>>, w: Seq<char>) -> nat {
    words.filter(eq_key(w)).len()
}

/// One counting step: a fresh key is appended with count one, a known key's
/// count rises by one.
pub open spec fn bump_model(m: Seq<(Seq<char>, usize)>, w: Seq<char>) -> Seq<(Seq<char>, usize)> {
    if has_key(m, w) {
        let i = key_idx(m, w);
        m.update(i, (w, (m[i].1 + 1) as usize))
    } else {
        m.push((w, 1usize))
    }
}

/// The frequency table a word sequence induces: keys in first-occurrence
/// order, each with its occurrence count.
pub open spec fn counts_model(words: Seq<Seq<char>>) -> Seq<(Seq<char>, usize)>
    decreases words.len(),
{
    if words.len() == 0 {
        Seq::empty()
    } else {
        bump_model(counts_model(words.drop_last()), words.last())
    }
}

pub open spec fn keys_of(m: Seq<(Seq<char>, usize)>) -> Seq<Seq<char>> {
    m.map_values(|e: (Seq<char>, usize)| e.0)
}

pub proof fn lemma_filter_none<A>(s: Seq<A>, p: spec_fn(A) -> bool)
    requires
        forall|i: int| 0 <= i < s.len() ==> !p(s[i]),
    ensures
        s.filter(p).len() == 0,
    decreases s.len(),
{
    if s.len() > 0 {
        lemma_filter_none(s.drop_last(), p);
        assert(s.drop_last().push(s.last()) =~= s);
        assert(!p(s.last()));
        assert(s.drop_last().push(s.last()).filter(p) == s.drop_last().filter(p));
    }
}

/// The frequency table is sound: keys are unique, in order of first
/// occurrence, and each carries exactly its occurrence count - provided the
/// counts never outgrow a machine word.
pub proof fn lemma_counts_model(words: Seq<Seq<char>>)
    requires
        words.len() <= usize::MAX,
    ensures
        keys_of(counts_model(words)).no_duplicates(),
        counts_model(words).len() <= words.len(),
        forall|i: int| 0 <= i < counts_model(words).len() ==> #[trigger] counts_model(words)[i].1
            == occurrences(words, counts_model(words)[i].0),
        forall|w: Seq<char>| has_key(counts_model(words), w) <==> words.contains(w),
    decreases words.len(),
{
    let m = counts_model(words);
    if words.len() == 0 {
        assert(keys_of(m) =~= Seq::<Seq<char>>::empty());
        assert forall|w: Seq<char>| has_key(m, w) <==> words.contains(w) by {}
    } else {
        let dl = words.drop_last();
        let w = words.last();
        lemma_counts_model(dl);
        let prev = counts_model(dl);
        lemma_key_idx(prev, w);
        assert(dl.push(w) =~= words);
        assert forall|x: Seq<char>| #[trigger] occurrences(words, x) == occurrences(dl, x) + (
        if x == w {
            1int
        } else {
            0int
        }) by {
            assert(dl.push(w).filter(eq_key(x)) == if eq_key(x)(w) {
                dl.filter(eq_key(x)).push(w)
            } else {
                dl.filter(eq_key(x))
            });
        }
        if has_key(prev, w) {
            let i = key_idx(prev, w);
            // occurrence counts fit: the old count is at most dl.len().
            assert(prev[i].1 == occurrences(dl, w));
            assert(occurrences(dl, w) <= dl.len()) by {
                dl.lemma_filter_len(eq_key(w));
            }
            assert(keys_of(m) =~= keys_of(prev));
            assert forall|j: int| 0 <= j < m.len() implies #[trigger] m[j].1 == occurrences(
                words,
                m[j].0,
            ) by {
                if j != i {
                    assert(keys_of(prev)[j] != keys_of(prev)[i]);
                    assert(m[j] == prev[j]);
                    assert(m[j].0 != w);
                }
            }
            assert forall|x: Seq<char>| has_key(m, x) <==> words.contains(x) by {
                vstd::seq_lib::lemma_seq_contains_after_push(dl, w, x);
                assert(dl.push(w).contains(x) <==> words.contains(x));
                assert forall|k: int| 0 <= k < m.len() implies m[k].0 == prev[k].0 by {
                    if k == i {
                        assert(prev[i].0 == w);
                    }
                }
                if has_key(m, x) {
                    let ki = choose|ii: int| 0 <= ii < m.len() && m[ii].0 == x;
                    assert(prev[ki].0 == x);
                    assert(has_key(prev, x));
                }
                if has_key(prev, x) {
                    let ki = choose|ii: int| 0 <= ii < prev.len() && prev[ii].0 == x;
                    assert(m[ki].0 == x);
                    assert(has_key(m, x));
                }
                assert(words.contains(x) <==> dl.contains(x) || x == w);
                if x == w {
                    assert(has_key(prev, w));
                }
            }
        } else {
            assert forall|j: int| 0 <= j < prev.len() implies prev[j].0 != w by {}
            assert(occurrences(dl, w) == 0) by {
                assert forall|ii: int| 0 <= ii < dl.len() implies !eq_key(w)(dl[ii]) by {
                    if dl[ii] == w {
                        assert(dl.contains(w));
                        assert(has_key(prev, w));
                        assert(false);
                    }
                }
                lemma_filter_none(dl, eq_key(w));
            }
            assert(keys_of(m) =~= keys_of(prev).push(w));
            assert(!keys_of(prev).contains(w)) by {
                if keys_of(prev).contains(w) {
                    let ki = choose|ii: int|
                        0 <= ii < keys_of(prev).len() && keys_of(prev)[ii] == w;
                    assert(prev[ki].0 == w);
                }
            }
            assert forall|j: int| 0 <= j < m.len() implies #[trigger] m[j].1 == occurrences(
                words,
                m[j].0,
            ) by {
                if j < prev.len() {
                    assert(m[j] == prev[j]);
                    assert(m[j].0 != w);
                } else {
                    assert(m[j] == (w, 1usize));
                }
            }
            assert forall|x: Seq<char>| has_key(m, x) <==> words.contains(x) by {
                vstd::seq_lib::lemma_seq_contains_after_push(dl, w, x);
                assert(dl.push(w).contains(x) <==> words.contains(x));
                assert(words.contains(x) <==> dl.contains(x) || x == w);
                if has_key(m, x) {
                    let ki = choose|ii: int| 0 <= ii < m.len() && m[ii].0 == x;
                    if ki < prev.len() {
                        assert(prev[ki].0 == x);
                        assert(has_key(prev, x));
                    } else {
                        assert(x == w);
                        assert(words.last() == w);
                    }
                }
                if dl.contains(x) {
                    assert(has_key(prev, x));
                    let pi = choose|ii: int| 0 <= ii < prev.len() && prev[ii].0 == x;
                    assert(m[pi].0 == x);
                    assert(has_key(m, x));
                }
                if x == w {
                    assert(m[m.len() - 1].0 == w);
                    assert(has_key(m, x));
                }
            }
        }
    }
}

// ---------------------------------------------------------------------------
// The table type.
// ---------------------------------------------------------------------------

pub struct WordEntry {
    pub key: Vec<char>,
    pub val: usize,
}

pub open spec fn entry_views(s: Seq<WordEntry>) -> Seq<(Seq<char>, usize)> {
    s.map_values(|e: WordEntry| (e.key@, e.val))
}

/// A word-key table: an association list with unique keys, used both for
/// occurrence counts and for frequency ranks.
pub struct WordTable {
    pub entries: Vec<WordEntry>,
}

impl View for WordTable {
    type V = Seq<(Seq<char>, usize)>;

    open spec fn view(&self) -> Seq<(Seq<char>, usize)> {
        entry_views(self.entries@)
    }
}

impl WordTable {
    pub fn new() -> (r: WordTable)
        ensures
            r@ == Seq::<(Seq<char>, usize)>::empty(),
    {
        let t = WordTable { entries: Vec::new() };
        proof {
            assert(t@ =~= Seq::<(Seq<char>, usize)>::empty());
        }
        t
    }

    pub fn len(&self) -> (r: usize)
        ensures
            r == self@.len(),
    {
        self.entries.len()
    }

    /// The first index holding key `k`, or the table's length.
    #[verifier::loop_isolation(false)]
    fn find(&self, k: &Vec<char>) -> (r: usize)
        ensures
            r == key_idx(self@, k@),
            r <= self@.len(),
    {
        proof {
            lemma_key_idx(self@, k@);
        }
        let n = self.entries.len();
        for i in 0..n
            invariant
                n == self.entries.len(),
                forall|j: int| 0 <= j < i ==> self@[j].0 != k@,
        {
            proof {
                assert(self@[i as int].0 == self.entries@[i as int].key@);
            }
            if chars_eq(&self.entries[i].key, k) {
                proof {
                    if key_idx(self@, k@) < i {
                        assert(self@[key_idx(self@, k@)].0 != k@);
                    }
                    assert(key_idx(self@, k@) == i);
                }
                return i;
            }
        }
        proof {
            assert(!has_key(self@, k@));
        }
        n
    }

    pub fn get(&self, k: &Vec<char>) -> (r: Option<usize>)
        ensures
            r == table_get(self@, k@),
    {
        proof {
            lemma_key_idx(self@, k@);
        }
        let i = self.find(k);
        if i < self.entries.len() {
            Some(self.entries[i].val)
        } else {
            None
        }
    }

    /// One counting step; the caller keeps counts below the machine limit.
    pub(crate) fn bump(&mut self, k: Vec<char>)
        requires
            has_key(old(self)@, k@) ==> old(self)@[key_idx(old(self)@, k@)].1 < usize::MAX,
        ensures
            final(self)@ == bump_model(old(self)@, k@),
    {
        proof {
            lemma_key_idx(self@, k@);
        }
        let i = self.find(&k);
        if i < self.entries.len() {
            let v = self.entries[i].val;
            proof {
                assert(self@[i as int].1 == self.entries@[i as int].val);
            }
            self.entries[i] = WordEntry { key: k, val: v + 1 };
            proof {
                assert(self@ =~= bump_model(old(self)@, k@));
            }
        } else {
            self.entries.push(WordEntry { key: k, val: 1 });
            proof {
                assert(self@ =~= bump_model(old(self)@, k@));
            }
        }
    }
}

// ---------------------------------------------------------------------------
// The corpus pass.
// ---------------------------------------------------------------------------

/// The views of the corpus lines.
pub open spec fn line_views(lines: Seq<String>) -> Seq<Seq<char>> {
    lines.map_values(|l: String| l@)
}

/// The tab-separated cells of a line.
pub open spec fn cells_of(line: Seq<char>) -> Seq<Seq<char>> {
    split_by(line, |c: char| c == '\t')
}

/// The word keys of a sentence text under a tokenizer.
pub open spec fn sentence_words(text: Seq<char>, tok: Tokenizer) -> Seq<Seq<char>> {
    word_keys(tok.spec_tokenize(text))
}

/// The word keys one corpus line contributes to the frequency count: those
/// of its text cell when its language cell matches, nothing otherwise.
pub open spec fn line_words(line: Seq<char>, lang: Seq<char>, tok: Tokenizer) -> Seq<Seq<char>> {
    let cs = cells_of(line);
    if cs.len() >= 3 && cs[1] == lang {
        sentence_words(cs[2], tok)
    } else {
        Seq::empty()
    }
}

/// All word keys the corpus contributes for a language, in corpus order.
pub open spec fn corpus_words(lines: Seq<Seq<char>>, lang: Seq<char>, tok: Tokenizer) -> Seq<
    Seq<char>,
>
    decreases lines.len(),
{
    if lines.len() == 0 {
        Seq::empty()
    } else {
        corpus_words(lines.drop_last(), lang, tok) + line_words(lines.last(), lang, tok)
    }
}

/// Count word occurrences for one language over the whole corpus.  The
/// result is the frequency table of the corpus's word keys; the one failure
/// is a corpus whose total word count outgrows a machine word.
#[verifier::loop_isolation(false)]
pub fn word_frequency(lines: &Vec<String>, lang: &str, tok: &Tokenizer) -> (r: Result<
    WordTable,
    CorpusError,
>)
    ensures
        match r {
            Ok(t) => t@ == counts_model(corpus_words(line_views(lines@), lang@, *tok))
                && corpus_words(line_views(lines@), lang@, *tok).len() <= usize::MAX,
            Err(e) => e == CorpusError::TooLarge && corpus_words(line_views(lines@), lang@, *tok).len()
                > usize::MAX,
        },
{
    let ghost lvs = line_views(lines@);
    let langv = chars_of(lang);
    let mut table = WordTable::new();
    let mut total: usize = 0;
    proof {
        assert(lvs.take(0) =~= Seq::<Seq<char>>::empty());
        assert(corpus_words(lvs.take(0), lang@, *tok) =~= Seq::<Seq<char>>::empty());
    }
    let n = lines.len();
    for li in 0..n
        invariant
            n == lines.len(),
            langv@ == lang@,
            total == corpus_words(lvs.take(li as int), lang@, *tok).len(),
            table@ == counts_model(corpus_words(lvs.take(li as int), lang@, *tok)),
    {
        let ghost done = corpus_words(lvs.take(li as int), lang@, *tok);
        proof {
            assert(lvs.take(li + 1) =~= lvs.take(li as int).push(lvs[li as int]));
            assert(lvs[li as int] == lines@[li as int]@);
            assert(lvs.take(li + 1).drop_last() =~= lvs.take(li as int));
            assert(lvs.take(li + 1).last() == lvs[li as int]);
            assert(corpus_words(lvs.take(li + 1), lang@, *tok) == done + line_words(
                lvs[li as int],
                lang@,
                *tok,
            ));
        }
        let lchars = chars_of(&lines[li]);
        let cells = split_cells(&lchars);
        let ghost lw = line_words(lvs[li as int], lang@, *tok);
        if cells.len() >= 3 && chars_eq(&cells[1], &langv) {
            proof {
                assert(cells@[1]@ == cells_of(lvs[li as int])[1]);
                assert(cells@[2]@ == cells_of(lvs[li as int])[2]);
            }
            let tokens = tok.tokenize(&cells[2]);
            let words = filtered_words(&tokens);
            proof {
                assert(views(words@) == lw);
            }
            match total.checked_add(words.len()) {
                Some(new_total) => {
                    total = new_total;
                },
                None => {
                    proof {
                        assert((done + lw).len() > usize::MAX);
                        lemma_corpus_words_prefix(lvs, lang@, *tok, li + 1);
                    }
                    return Err(CorpusError::TooLarge);
                },
            }
            let m = words.len();
            let mut wi: usize = 0;
            proof {
                assert(done + views(words@).take(0) =~= done);
            }
            while wi < m
                invariant
                    m == words.len(),
                    wi <= m,
                    total == done.len() + m,
                    done.len() + m <= usize::MAX,
                    views(words@) == lw,
                    table@ == counts_model(done + views(words@).take(wi as int)),
                decreases m - wi,
            {
                let ghost sofar = done + views(words@).take(wi as int);
                proof {
                    assert(done + views(words@).take(wi + 1) =~= sofar.push(words@[wi as int]@));
                    lemma_counts_model(sofar);
                    assert(sofar.len() <= usize::MAX);
                    lemma_key_idx(table@, words@[wi as int]@);
                    if has_key(table@, words@[wi as int]@) {
                        let ki = key_idx(table@, words@[wi as int]@);
                        assert(table@[ki].1 == occurrences(sofar, table@[ki].0));
                        sofar.lemma_filter_len(eq_key(table@[ki].0));
                        assert(table@[ki].1 <= sofar.len());
                        assert(sofar.len() < done.len() + m);
                    }
                }
                let ghost wv = words@[wi as int]@;
                let w = words[wi].clone();
                proof {
                    assert(w@ == wv);
                }
                table.bump(w);
                proof {
                    assert(sofar.push(wv).drop_last() =~= sofar);
                    assert(sofar.push(wv).last() == wv);
                    assert(counts_model(sofar.push(wv)) == bump_model(counts_model(sofar), wv));
                    assert(table@ == counts_model(done + views(words@).take(wi + 1)));
                }
                wi = wi + 1;
            }
            proof {
                assert(views(words@).take(m as int) =~= views(words@));
                assert(done + views(words@) == corpus_words(lvs.take(li + 1), lang@, *tok));
            }
        } else {
            proof {
                assert(lw =~= Seq::<Seq<char>>::empty());
                assert(done + lw =~= done);
            }
        }
    }
    proof {
        assert(lvs.take(n as int) =~= lvs);
    }
    Ok(table)
}

/// A prefix of the corpus contributes no more word keys than the whole.
pub proof fn lemma_corpus_words_prefix(
    lines: Seq<Seq<char>>,
    lang: Seq<char>,
    tok: Tokenizer,
    k: int,
)
    requires
        0 <= k <= lines.len(),
    ensures
        corpus_words(lines.take(k), lang, tok).len() <= corpus_words(lines, lang, tok).len(),
    decreases lines.len(),
{
    if k == lines.len() {
        assert(lines.take(k) =~= lines);
    } else {
        assert(lines.take(k) =~= lines.drop_last().take(k));
        lemma_corpus_words_prefix(lines.drop_last(), lang, tok, k);
    }
}

} // verus!
