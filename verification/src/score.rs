//! The sentence scorer: a second pass over the corpus.  A source-language
//! sentence's difficulty is the maximum rank among its word keys - it is as
//! hard as its hardest word.  A sentence with no qualifying words, or with
//! a word missing from the rank table, is dropped.  The result is ordered
//! by ascending score, and sentences with equal scores keep their corpus
//! order.
use vstd::prelude::*;
use crate::CorpusError;
use crate::freq::{
    WordTable, cells_of, has_key, key_idx, lemma_key_idx, line_views, sentence_words,
};
use crate::norm::filtered_words;
use crate::text::{chars_eq, chars_of, parse_id, parse_usize_chars, split_cells, string_from_chars, views};
use crate::tokenize::Tokenizer;

verus! {

broadcast use
    vstd::prelude::Seq::lemma_filter_push,
    vstd::prelude::Seq::lemma_filter_prepend,
    vstd::prelude::Seq::filter_distributes_over_add;

/// A source-language sentence with its difficulty score.
pub struct ScoredSentence {
    pub id: usize,
    pub text: String,
    pub score: usize,
}

/// A scored sentence, reduced to plain values.
pub open spec fn scored_view_fn() -> spec_fn(ScoredSentence) -> (usize, Seq<char>, usize) {
    |s: ScoredSentence| (s.id, s.text@, s.score)
}

pub open spec fn scored_views(s: Seq<ScoredSentence>) -> Seq<(usize, Seq<char>, usize)> {
    s.map_values(scored_view_fn())
}

// ---------------------------------------------------------------------------
// Scoring one sentence.
// ---------------------------------------------------------------------------

/// Every word key has a rank.
pub open spec fn all_ranked(ws: Seq<Seq<char>>, rt: Seq<(Seq<char>, usize)>) -> bool {
    forall|i: int| 0 <= i < ws.len() ==> #[trigger] has_key(rt, ws[i])
}

/// The rank of a word key with an entry in the table.
pub open spec fn rank_val(rt: Seq<(Seq<char>, usize)>, w: Seq<char>) -> usize {
    rt[key_idx(rt, w)].1
}

/// The greatest rank among a sentence's word keys (zero for none).
pub open spec fn max_rank(ws: Seq<Seq<char>>, rt: Seq<(Seq<char>, usize)>) -> usize
    decreases ws.len(),
{
    if ws.len() == 0 {
        0
    } else {
        let m = max_rank(ws.drop_last(), rt);
        let r = rank_val(rt, ws.last());
        if r > m {
            r
        } else {
            m
        }
    }
}

/// What one corpus line contributes to the scored list: its id, text and
/// score, provided the line is in the source language, has at least one
/// word key, all its word keys are ranked, and its id parses.
pub open spec fn line_entry(
    line: Seq<char>,
    lang: Seq<char>,
    rt: Seq<(Seq<char>, usize)>,
    tok: Tokenizer,
) -> Option<(usize, Seq<char>, usize)> {
    let cs = cells_of(line);
    if cs.len() >= 3 && cs[1] == lang {
        let ws = sentence_words(cs[2], tok);
        if ws.len() > 0 && all_ranked(ws, rt) {
            match parse_id(cs[0]) {
                Some(id) => Some((id, cs[2], max_rank(ws, rt))),
                None => None,
            }
        } else {
            None
        }
    } else {
        None
    }
}

/// A line that would be scored but whose id does not parse: this aborts
/// the scoring pass.
pub open spec fn line_score_err(
    line: Seq<char>,
    lang: Seq<char>,
    rt: Seq<(Seq<char>, usize)>,
    tok: Tokenizer,
) -> bool {
    let cs = cells_of(line);
    &&& cs.len() >= 3
    &&& cs[1] == lang
    &&& sentence_words(cs[2], tok).len() > 0
    &&& all_ranked(sentence_words(cs[2], tok), rt)
    &&& parse_id(cs[0]) is None
}

pub open spec fn scoring_err(
    lines: Seq<Seq<char>>,
    lang: Seq<char>,
    rt: Seq<(Seq<char>, usize)>,
    tok: Tokenizer,
) -> bool {
    exists|i: int| 0 <= i < lines.len() && line_score_err(lines[i], lang, rt, tok)
}

/// The scored sentences in corpus order, before sorting.
pub open spec fn scored_model(
    lines: Seq<Seq<char>>,
    lang: Seq<char>,
    rt: Seq<(Seq<char>, usize)>,
    tok: Tokenizer,
) -> Seq<(usize, Seq<char>, usize)>
    decreases lines.len(),
{
    if lines.len() == 0 {
        Seq::empty()
    } else {
        let prev = scored_model(lines.drop_last(), lang, rt, tok);
        match line_entry(lines.last(), lang, rt, tok) {
            Some(m) => prev.push(m),
            None => prev,
        }
    }
}

// ---------------------------------------------------------------------------
// The stable ascending sort.
// ---------------------------------------------------------------------------

/// Place `x` before the first element with a strictly greater score, after
/// every element with a smaller or equal one: the stable insertion.
pub open spec fn insert_sorted(
    t: Seq<(usize, Seq<char>, usize)>,
    x: (usize, Seq<char>, usize),
) -> Seq<(usize, Seq<char>, usize)>
    decreases t.len(),
{
    if t.len() == 0 {
        seq![x]
    } else if t[0].2 > x.2 {
        seq![x] + t
    } else {
        seq![t[0]] + insert_sorted(t.drop_first(), x)
    }
}

/// The stable ascending-by-score ordering of a scored list.
pub open spec fn sort_by_score(s: Seq<(usize, Seq<char>, usize)>) -> Seq<(usize, Seq<char>, usize)>
    decreases s.len(),
{
    if s.len() == 0 {
        Seq::empty()
    } else {
        insert_sorted(sort_by_score(s.drop_last()), s.last())
    }
}

pub open spec fn sorted_by_score(s: Seq<(usize, Seq<char>, usize)>) -> bool {
    forall|a: int, b: int| 0 <= a < b < s.len() ==> s[a].2 <= s[b].2
}

/// Score equality, as a predicate value.
pub open spec fn score_eq(sc: usize) -> spec_fn((usize, Seq<char>, usize)) -> bool {
    |e: (usize, Seq<char>, usize)| e.2 == sc
}

proof fn lemma_insert_stable(t: Seq<(usize, Seq<char>, usize)>, x: (usize, Seq<char>, usize), sc: usize)
    requires
        sorted_by_score(t),
    ensures
        sorted_by_score(insert_sorted(t, x)),
        insert_sorted(t, x).len() == t.len() + 1,
        insert_sorted(t, x).filter(score_eq(sc)) == if x.2 == sc {
            t.filter(score_eq(sc)).push(x)
        } else {
            t.filter(score_eq(sc))
        },
    decreases t.len(),
{
    crate::freq::lemma_filter_none(Seq::<(usize, Seq<char>, usize)>::empty(), score_eq(sc));
    assert(Seq::<(usize, Seq<char>, usize)>::empty().filter(score_eq(sc)) =~= Seq::<(
        usize,
        Seq<char>,
        usize,
    )>::empty());
    if t.len() == 0 {
        assert(seq![x] =~= Seq::<(usize, Seq<char>, usize)>::empty().push(x));
        if x.2 == sc {
            assert(seq![x].filter(score_eq(sc)) =~= t.filter(score_eq(sc)).push(x));
        } else {
            assert(seq![x].filter(score_eq(sc)) =~= t.filter(score_eq(sc)));
        }
    } else if t[0].2 > x.2 {
        let r = seq![x] + t;
        assert forall|a: int, b: int| 0 <= a < b < r.len() implies r[a].2 <= r[b].2 by {
            if a == 0 {
                assert(r[b] == t[b - 1]);
                if b > 1 {
                    assert(t[0].2 <= t[b - 1].2);
                }
            } else {
                assert(r[a] == t[a - 1] && r[b] == t[b - 1]);
            }
        }
        // every element of t scores above x, so none of t's equal-score
        // elements can equal x's score on the x == sc side
        assert(r.filter(score_eq(sc)) == (if score_eq(sc)(x) {
            seq![x]
        } else {
            Seq::<(usize, Seq<char>, usize)>::empty()
        }) + t.filter(score_eq(sc)));
        if x.2 == sc {
            assert(t.filter(score_eq(sc)).len() == 0) by {
                crate::freq::lemma_filter_none(t, score_eq(sc));
            }
            assert(t.filter(score_eq(sc)) =~= Seq::<(usize, Seq<char>, usize)>::empty());
            assert(r.filter(score_eq(sc)) =~= t.filter(score_eq(sc)).push(x));
        } else {
            assert(r.filter(score_eq(sc)) =~= t.filter(score_eq(sc)));
        }
    } else {
        let d = t.drop_first();
        assert(sorted_by_score(d)) by {
            assert forall|a: int, b: int| 0 <= a < b < d.len() implies d[a].2 <= d[b].2 by {
                assert(d[a] == t[a + 1] && d[b] == t[b + 1]);
            }
        }
        lemma_insert_stable(d, x, sc);
        let rest = insert_sorted(d, x);
        let r = seq![t[0]] + rest;
        assert(insert_sorted(t, x) == r);
        assert forall|a: int, b: int| 0 <= a < b < r.len() implies r[a].2 <= r[b].2 by {
            if a == 0 {
                // the head is no larger than x and no larger than any of d
                assert(r[b] == rest[b - 1]);
                assert(t[0].2 <= x.2);
                assert forall|k: int| 0 <= k < rest.len() implies t[0].2 <= rest[k].2 by {
                    lemma_insert_elements(d, x, k);
                    if rest[k] == x {
                    } else {
                        let q = choose|q: int| 0 <= q < d.len() && rest[k] == d[q];
                        assert(t[0].2 <= t[q + 1].2);
                    }
                }
            } else {
                assert(r[a] == rest[a - 1] && r[b] == rest[b - 1]);
            }
        }
        assert(r.filter(score_eq(sc)) == (if score_eq(sc)(t[0]) {
            seq![t[0]]
        } else {
            Seq::<(usize, Seq<char>, usize)>::empty()
        }) + rest.filter(score_eq(sc)));
        assert(t =~= seq![t[0]] + d);
        assert(t.filter(score_eq(sc)) == (if score_eq(sc)(t[0]) {
            seq![t[0]]
        } else {
            Seq::<(usize, Seq<char>, usize)>::empty()
        }) + d.filter(score_eq(sc)));
        if x.2 == sc {
            assert(r.filter(score_eq(sc)) =~= t.filter(score_eq(sc)).push(x));
        } else {
            assert(r.filter(score_eq(sc)) =~= t.filter(score_eq(sc)));
        }
    }
}

/// Every element of a stable insertion is the inserted element or one of
/// the list's own.
proof fn lemma_insert_elements(t: Seq<(usize, Seq<char>, usize)>, x: (usize, Seq<char>, usize), k: int)
    requires
        0 <= k < insert_sorted(t, x).len(),
    ensures
        insert_sorted(t, x)[k] == x || exists|q: int| 0 <= q < t.len() && insert_sorted(t, x)[k]
            == t[q],
    decreases t.len(),
{
    if t.len() == 0 {
    } else if t[0].2 > x.2 {
        if k > 0 {
            assert(insert_sorted(t, x)[k] == t[k - 1]);
        }
    } else {
        if k == 0 {
            assert(insert_sorted(t, x)[0] == t[0]);
        } else {
            lemma_insert_elements(t.drop_first(), x, k - 1);
            assert(insert_sorted(t, x)[k] == insert_sorted(t.drop_first(), x)[k - 1]);
            if insert_sorted(t.drop_first(), x)[k - 1] != x {
                let q = choose|q: int|
                    0 <= q < t.drop_first().len() && insert_sorted(t.drop_first(), x)[k - 1]
                        == t.drop_first()[q];
                assert(insert_sorted(t, x)[k] == t[q + 1]);
            }
        }
    }
}

/// Stable ordering: the sorted list is ascending by score, and the
/// sentences holding any one score stand in their original corpus order -
/// the equal-score subsequence is untouched by sorting.
pub proof fn lemma_sort_stable(s: Seq<(usize, Seq<char>, usize)>, sc: usize)
    ensures
        sorted_by_score(sort_by_score(s)),
        sort_by_score(s).len() == s.len(),
        sort_by_score(s).filter(score_eq(sc)) == s.filter(score_eq(sc)),
    decreases s.len(),
{
    if s.len() == 0 {
    } else {
        let dl = s.drop_last();
        lemma_sort_stable(dl, sc);
        lemma_insert_stable(sort_by_score(dl), s.last(), sc);
        assert(dl.push(s.last()) =~= s);
        assert(s.filter(score_eq(sc)) == if score_eq(sc)(s.last()) {
            dl.filter(score_eq(sc)).push(s.last())
        } else {
            dl.filter(score_eq(sc))
        });
    }
}

// ---------------------------------------------------------------------------
// Executable scoring.
// ---------------------------------------------------------------------------

/// The greatest rank among the given word keys, or nothing if one of them
/// is missing from the rank table.
#[verifier::loop_isolation(false)]
fn score_words(rt: &WordTable, words: &Vec<Vec<char>>) -> (r: Option<usize>)
    ensures
        match r {
            Some(mx) => all_ranked(views(words@), rt@) && mx == max_rank(views(words@), rt@),
            None => !all_ranked(views(words@), rt@),
        },
{
    let ghost ws = views(words@);
    let mut mx: usize = 0;
    let n = words.len();
    proof {
        assert(ws.take(0) =~= Seq::<Seq<char>>::empty());
    }
    for i in 0..n
        invariant
            n == words.len(),
            mx == max_rank(ws.take(i as int), rt@),
            forall|k: int| 0 <= k < i ==> #[trigger] has_key(rt@, ws[k]),
    {
        proof {
            assert(ws.take(i + 1) =~= ws.take(i as int).push(ws[i as int]));
            assert(ws.take(i + 1).drop_last() =~= ws.take(i as int));
            assert(ws[i as int] == words@[i as int]@);
            lemma_key_idx(rt@, ws[i as int]);
        }
        match rt.get(&words[i]) {
            Some(rv) => {
                proof {
                    assert(has_key(rt@, ws[i as int]));
                    assert(rv == rank_val(rt@, ws[i as int]));
                }
                if rv > mx {
                    mx = rv;
                }
            },
            None => {
                proof {
                    assert(!has_key(rt@, ws[i as int]));
                }
                return None;
            },
        }
    }
    proof {
        assert(ws.take(n as int) =~= ws);
    }
    Some(mx)
}

/// Insert into a score-sorted vector, after every element scoring no more.
#[verifier::loop_isolation(false)]
fn insert_scored(v: &mut Vec<ScoredSentence>, x: ScoredSentence)
    ensures
        scored_views(final(v)@) == insert_sorted(scored_views(old(v)@), (x.id, x.text@, x.score)),
{
    let ghost t = scored_views(v@);
    let ghost xm = (x.id, x.text@, x.score);
    let n = v.len();
    let mut pos: usize = 0;
    while pos < n && v[pos].score <= x.score
        invariant
            pos <= n,
            forall|k: int| 0 <= k < pos ==> t[k].2 <= xm.2,
        decreases n - pos,
    {
        proof {
            assert(t[pos as int].2 == v@[pos as int].score);
        }
        pos = pos + 1;
    }
    proof {
        if pos < n {
            assert(t[pos as int].2 == v@[pos as int].score);
            assert(t[pos as int].2 > xm.2);
        }
        lemma_insert_at(t, xm, pos as int);
    }
    v.insert(pos, x);
    proof {
        assert(scored_views(v@) =~= t.insert(pos as int, xm));
    }
}

/// Where the first strictly greater score sits, the stable insertion is a
/// plain sequence insertion.
proof fn lemma_insert_at(t: Seq<(usize, Seq<char>, usize)>, x: (usize, Seq<char>, usize), pos: int)
    requires
        0 <= pos <= t.len(),
        forall|k: int| 0 <= k < pos ==> t[k].2 <= x.2,
        pos < t.len() ==> t[pos].2 > x.2,
    ensures
        insert_sorted(t, x) == t.insert(pos, x),
    decreases t.len(),
{
    if t.len() == 0 {
        assert(seq![x] =~= t.insert(0, x));
    } else if t[0].2 > x.2 {
        assert(pos == 0);
        assert(seq![x] + t =~= t.insert(0, x));
    } else {
        assert(pos > 0);
        let d = t.drop_first();
        lemma_insert_at(d, x, pos - 1);
        assert(seq![t[0]] + d.insert(pos - 1, x) =~= t.insert(pos, x));
    }
}

/// Score every source-language sentence of the corpus and order the result
/// by ascending difficulty, corpus order breaking ties.  The one failure is
/// a sentence that would be scored but whose id cell does not parse.
#[verifier::loop_isolation(false)]
pub fn get_sentence_scores(
    lines: &Vec<String>,
    lang_from: &str,
    rt: &WordTable,
    tok: &Tokenizer,
) -> (r: Result<Vec<ScoredSentence>, CorpusError>)
    ensures
        match r {
            Ok(v) => !scoring_err(line_views(lines@), lang_from@, rt@, *tok) && scored_views(v@)
                == sort_by_score(scored_model(line_views(lines@), lang_from@, rt@, *tok)),
            Err(e) => e == CorpusError::InvalidId && scoring_err(
                line_views(lines@),
                lang_from@,
                rt@,
                *tok,
            ),
        },
{
    let ghost lvs = line_views(lines@);
    let langv = chars_of(lang_from);
    let mut acc: Vec<ScoredSentence> = Vec::new();
    proof {
        assert(lvs.take(0) =~= Seq::<Seq<char>>::empty());
        assert(scored_views(acc@) =~= sort_by_score(scored_model(lvs.take(0), langv@, rt@, *tok)));
    }
    let n = lines.len();
    for li in 0..n
        invariant
            n == lines.len(),
            langv@ == lang_from@,
            !scoring_err(lvs.take(li as int), langv@, rt@, *tok),
            scored_views(acc@) == sort_by_score(scored_model(lvs.take(li as int), langv@, rt@, *tok)),
    {
        proof {
            assert(lvs.take(li + 1) =~= lvs.take(li as int).push(lvs[li as int]));
            assert(lvs.take(li + 1).drop_last() =~= lvs.take(li as int));
            assert(lvs[li as int] == lines@[li as int]@);
        }
        let lchars = chars_of(&lines[li]);
        let cells = split_cells(&lchars);
        let ghost cs = cells_of(lvs[li as int]);
        proof {
            assert(views(cells@) == cs);
        }
        if cells.len() >= 3 && chars_eq(&cells[1], &langv) {
            proof {
                assert(cells@[1]@ == cs[1]);
                assert(cells@[2]@ == cs[2]);
            }
            let tokens = tok.tokenize(&cells[2]);
            let words = filtered_words(&tokens);
            proof {
                assert(views(words@) == sentence_words(cs[2], *tok));
            }
            if words.len() > 0 {
                match score_words(rt, &words) {
                    Some(mx) => {
                        match parse_usize_chars(&cells[0]) {
                            Some(id) => {
                                let text = string_from_chars(&cells[2]);
                                proof {
                                    assert(cells@[0]@ == cs[0]);
                                    assert(line_entry(lvs[li as int], langv@, rt@, *tok) == Some(
                                        (id, cs[2], mx),
                                    ));
                                }
                                insert_scored(&mut acc, ScoredSentence { id, text, score: mx });
                                proof {
                                    let prev = scored_model(lvs.take(li as int), langv@, rt@, *tok);
                                    let entry = (id, cs[2], mx);
                                    assert(scored_model(lvs.take(li + 1), langv@, rt@, *tok)
                                        == prev.push(entry));
                                    assert(prev.push(entry).drop_last() =~= prev);
                                    assert(prev.push(entry).last() == entry);
                                    assert(sort_by_score(prev.push(entry)) == insert_sorted(
                                        sort_by_score(prev),
                                        entry,
                                    ));
                                    assert(!line_score_err(lvs[li as int], langv@, rt@, *tok));
                                    lemma_scoring_err_push(lvs, langv@, rt@, *tok, li as int);
                                }
                            },
                            None => {
                                proof {
                                    assert(cells@[0]@ == cs[0]);
                                    assert(line_score_err(lvs[li as int], langv@, rt@, *tok));
                                    assert(scoring_err(lvs, langv@, rt@, *tok));
                                }
                                return Err(CorpusError::InvalidId);
                            },
                        }
                    },
                    None => {
                        proof {
                            assert(line_entry(lvs[li as int], langv@, rt@, *tok) is None);
                            assert(!line_score_err(lvs[li as int], langv@, rt@, *tok));
                            lemma_scoring_err_push(lvs, langv@, rt@, *tok, li as int);
                        }
                    },
                }
            } else {
                proof {
                    assert(line_entry(lvs[li as int], langv@, rt@, *tok) is None);
                    assert(!line_score_err(lvs[li as int], langv@, rt@, *tok));
                    lemma_scoring_err_push(lvs, langv@, rt@, *tok, li as int);
                }
            }
        } else {
            proof {
                assert(line_entry(lvs[li as int], langv@, rt@, *tok) is None);
                assert(!line_score_err(lvs[li as int], langv@, rt@, *tok));
                lemma_scoring_err_push(lvs, langv@, rt@, *tok, li as int);
            }
        }
    }
    proof {
        assert(lvs.take(n as int) =~= lvs);
    }
    Ok(acc)
}

/// Extending an error-free prefix by an error-free line keeps it error
/// free.
proof fn lemma_scoring_err_push(
    lines: Seq<Seq<char>>,
    lang: Seq<char>,
    rt: Seq<(Seq<char>, usize)>,
    tok: Tokenizer,
    li: int,
)
    requires
        0 <= li < lines.len(),
        !scoring_err(lines.take(li), lang, rt, tok),
        !line_score_err(lines[li], lang, rt, tok),
    ensures
        !scoring_err(lines.take(li + 1), lang, rt, tok),
{
    if scoring_err(lines.take(li + 1), lang, rt, tok) {
        let i = choose|i: int|
            0 <= i < lines.take(li + 1).len() && #[trigger] line_score_err(
                lines.take(li + 1)[i],
                lang,
                rt,
                tok,
            );
        if i < li {
            assert(lines.take(li)[i] == lines.take(li + 1)[i]);
            assert(scoring_err(lines.take(li), lang, rt, tok));
        } else {
            assert(lines.take(li + 1)[i] == lines[li]);
        }
    }
}

} // verus!
