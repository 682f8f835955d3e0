//! The top of the pipeline: the language listing, the sorted frequency
//! listing, and the output composer that pairs the easiest sentences with
//! their first resolved translation.
use vstd::prelude::*;
use crate::CorpusError;
use crate::freq::{cells_of, corpus_words, counts_model, line_views, word_frequency};
use crate::links::{
    first_target_model, get_translations, ids_err, lhas_key, links_err, links_model, lkey_idx,
    parse_links, retained, trans_model,
};
use crate::rank::{rank_model, rank_table};
use crate::score::{
    get_sentence_scores, scored_model, scored_views, scoring_err, sort_by_score,
};
use crate::text::{
    chars_eq, chars_of, lemma_lex_total, lemma_lex_trans, lex_le, lex_le_chars, split_cells,
    string_from_chars, views,
};
use crate::tokenize::Tokenizer;

verus! {

broadcast use
    vstd::prelude::Seq::lemma_filter_push,
    vstd::seq_lib::group_to_multiset_ensures;

// ---------------------------------------------------------------------------
// The language listing.
// ---------------------------------------------------------------------------

/// The distinct language codes, in order of first appearance, of the lines
/// with a language cell.
pub open spec fn langs_model(lines: Seq<Seq<char>>) -> Seq<Seq<char>>
    decreases lines.len(),
{
    if lines.len() == 0 {
        Seq::empty()
    } else {
        let prev = langs_model(lines.drop_last());
        let cs = cells_of(lines.last());
        if cs.len() >= 2 && !prev.contains(cs[1]) {
            prev.push(cs[1])
        } else {
            prev
        }
    }
}

/// How many lines carry a language cell at all.
pub open spec fn lang_line_count(lines: Seq<Seq<char>>) -> nat
    decreases lines.len(),
{
    if lines.len() == 0 {
        0
    } else {
        lang_line_count(lines.drop_last()) + (if cells_of(lines.last()).len() >= 2 {
            1nat
        } else {
            0nat
        })
    }
}

fn contains_chars(v: &Vec<Vec<char>>, k: &Vec<char>) -> (r: bool)
    ensures
        r == views(v@).contains(k@),
{
    let n = v.len();
    for i in 0..n
        invariant
            n == v.len(),
            forall|j: int| 0 <= j < i ==> views(v@)[j] != k@,
    {
        proof {
            assert(views(v@)[i as int] == v@[i as int]@);
        }
        if chars_eq(&v[i], k) {
            proof {
                assert(views(v@).contains(k@));
            }
            return true;
        }
    }
    proof {
        assert(!views(v@).contains(k@));
    }
    false
}

/// List each language code once, in order of first appearance, and count
/// the lines that carry a language cell.
#[verifier::loop_isolation(false)]
pub fn list_languages(lines: &Vec<String>) -> (r: (Vec<String>, usize))
    ensures
        line_views(r.0@) == langs_model(line_views(lines@)),
        r.1 == lang_line_count(line_views(lines@)),
{
    let ghost lvs = line_views(lines@);
    let mut seen: Vec<Vec<char>> = Vec::new();
    let mut out: Vec<String> = Vec::new();
    let mut count: usize = 0;
    proof {
        assert(lvs.take(0) =~= Seq::<Seq<char>>::empty());
        assert(views(seen@) =~= langs_model(lvs.take(0)));
        assert(line_views(out@) =~= views(seen@));
    }
    let n = lines.len();
    for li in 0..n
        invariant
            n == lines.len(),
            views(seen@) == langs_model(lvs.take(li as int)),
            line_views(out@) == views(seen@),
            count == lang_line_count(lvs.take(li as int)),
            count <= li,
    {
        proof {
            assert(lvs.take(li + 1) =~= lvs.take(li as int).push(lvs[li as int]));
            assert(lvs.take(li + 1).drop_last() =~= lvs.take(li as int));
            assert(lvs[li as int] == lines@[li as int]@);
        }
        let lchars = chars_of(&lines[li]);
        let cells = split_cells(&lchars);
        let ghost cs = cells_of(lvs[li as int]);
        proof {
            assert(views(cells@) == cs);
        }
        if cells.len() >= 2 {
            count = count + 1;
            proof {
                assert(cells@[1]@ == cs[1]);
            }
            let ghost oldseen = seen@;
            let ghost oldout = out@;
            if !contains_chars(&seen, &cells[1]) {
                let lang_chars = cells[1].clone();
                let lang_string = string_from_chars(&cells[1]);
                proof {
                    assert(lang_chars@ == cs[1]);
                }
                seen.push(lang_chars);
                out.push(lang_string);
                proof {
                    assert(views(seen@) =~= views(oldseen).push(cs[1]));
                    assert(line_views(out@) =~= views(seen@));
                }
            }
        } else {
            proof {
                assert(langs_model(lvs.take(li + 1)) == langs_model(lvs.take(li as int)));
            }
        }
    }
    proof {
        assert(lvs.take(n as int) =~= lvs);
    }
    (out, count)
}

// ---------------------------------------------------------------------------
// The sorted frequency listing.
// ---------------------------------------------------------------------------

/// The listing pairs a frequency table induces: count first, then word.
pub open spec fn pairs_of(m: Seq<(Seq<char>, usize)>) -> Seq<(usize, Seq<char>)> {
    m.map_values(|e: (Seq<char>, usize)| (e.1, e.0))
}

pub open spec fn pair_views(s: Seq<(usize, String)>) -> Seq<(usize, Seq<char>)> {
    s.map_values(|e: (usize, String)| (e.0, e.1@))
}

/// Listing order: ascending count, ascending word key within one count.
pub open spec fn freq_le(a: (usize, Seq<char>), b: (usize, Seq<char>)) -> bool {
    a.0 < b.0 || (a.0 == b.0 && lex_le(a.1, b.1))
}

pub open spec fn sorted_pairs(s: Seq<(usize, Seq<char>)>) -> bool {
    forall|a: int, b: int| 0 <= a < b < s.len() ==> freq_le(s[a], s[b])
}

/// Inserting anywhere adds the element to the sequence's multiset.
proof fn lemma_multiset_insert<A>(t: Seq<A>, pos: int, x: A)
    requires
        0 <= pos <= t.len(),
    ensures
        t.insert(pos, x).to_multiset() =~= t.to_multiset().insert(x),
    decreases t.len(),
{
    if pos == t.len() {
        assert(t.insert(pos, x) =~= t.push(x));
    } else {
        let dl = t.drop_last();
        lemma_multiset_insert(dl, pos, x);
        assert(t.insert(pos, x) =~= dl.insert(pos, x).push(t.last()));
        assert(t =~= dl.push(t.last()));
        assert(dl.insert(pos, x).push(t.last()).to_multiset() =~= dl.insert(
            pos,
            x,
        ).to_multiset().insert(t.last()));
        assert(t.to_multiset() =~= dl.to_multiset().insert(t.last()));
        assert(dl.to_multiset().insert(x).insert(t.last()) =~= dl.to_multiset().insert(
            t.last(),
        ).insert(x));
    }
}

fn pair_le(a: &(usize, String), b: &(usize, String)) -> (r: bool)
    ensures
        r == freq_le((a.0, a.1@), (b.0, b.1@)),
{
    if a.0 < b.0 {
        true
    } else if a.0 == b.0 {
        let av = chars_of(a.1.as_str());
        let bv = chars_of(b.1.as_str());
        lex_le_chars(&av, &bv)
    } else {
        false
    }
}

/// Count word occurrences and list them, ascending by count and then by
/// word key.  The one failure is a corpus whose total word count outgrows
/// a machine word.
#[verifier::loop_isolation(false)]
pub fn word_freqs(lines: &Vec<String>, lang: &str, tok: &Tokenizer) -> (r: Result<
    Vec<(usize, String)>,
    CorpusError,
>)
    ensures
        match r {
            Ok(v) => corpus_words(line_views(lines@), lang@, *tok).len() <= usize::MAX
                && pair_views(v@).to_multiset() == pairs_of(
                counts_model(corpus_words(line_views(lines@), lang@, *tok)),
            ).to_multiset() && sorted_pairs(pair_views(v@)),
            Err(e) => e == CorpusError::TooLarge && corpus_words(line_views(lines@), lang@, *tok).len()
                > usize::MAX,
        },
{
    let table = match word_frequency(lines, lang, tok) {
        Ok(t) => t,
        Err(e) => {
            return Err(e);
        },
    };
    let ghost target = pairs_of(table@);
    let mut out: Vec<(usize, String)> = Vec::new();
    proof {
        assert(target.take(0) =~= Seq::<(usize, Seq<char>)>::empty());
        assert(pair_views(out@) =~= Seq::<(usize, Seq<char>)>::empty());
        assert(pair_views(out@).to_multiset() =~= target.take(0).to_multiset());
    }
    let n = table.entries.len();
    proof {
        assert(target.len() == n);
    }
    for i in 0..n
        invariant
            n == table.entries.len(),
            pair_views(out@).to_multiset() == target.take(i as int).to_multiset(),
            out@.len() == i,
            sorted_pairs(pair_views(out@)),
    {
        let word = string_from_chars(&table.entries[i].key);
        let cnt = table.entries[i].val;
        let x = (cnt, word);
        let ghost xm = (cnt, x.1@);
        proof {
            assert(table@[i as int] == (table.entries@[i as int].key@, table.entries@[i as int].val));
            assert(target[i as int] == (table@[i as int].1, table@[i as int].0));
            assert(xm == target[i as int]);
            assert(target.take(i + 1) =~= target.take(i as int).push(target[i as int]));
        }
        // find the insertion point: after everything ordered at or below x
        let m = out.len();
        let mut pos: usize = 0;
        while pos < m && pair_le(&out[pos], &x)
            invariant
                m == out.len(),
                pos <= m,
                forall|k: int| 0 <= k < pos ==> freq_le(pair_views(out@)[k], xm),
            decreases m - pos,
        {
            proof {
                assert(pair_views(out@)[pos as int] == (out@[pos as int].0, out@[pos as int].1@));
            }
            pos = pos + 1;
        }
        let ghost oldview = pair_views(out@);
        proof {
            if pos < m {
                assert(pair_views(out@)[pos as int] == (out@[pos as int].0, out@[pos as int].1@));
                assert(!freq_le(oldview[pos as int], xm));
            }
        }
        out.insert(pos, x);
        proof {
            assert(pair_views(out@) =~= oldview.insert(pos as int, xm));
            lemma_multiset_insert(oldview, pos as int, xm);
            let newview = pair_views(out@);
            assert forall|a: int, b: int|
                0 <= a < b < newview.len() implies freq_le(newview[a], newview[b]) by {
                let pi = pos as int;
                if b < pi {
                    assert(newview[a] == oldview[a] && newview[b] == oldview[b]);
                } else if a > pi {
                    assert(newview[a] == oldview[a - 1] && newview[b] == oldview[b - 1]);
                } else if a < pi && b == pi {
                    assert(newview[a] == oldview[a] && newview[b] == xm);
                } else if a == pi && b > pi {
                    assert(newview[a] == xm && newview[b] == oldview[b - 1]);
                    assert(!freq_le(oldview[pi], xm));
                    lemma_lex_total(oldview[pi].1, xm.1);
                    assert(freq_le(xm, oldview[pi]));
                    if b - 1 > pi {
                        assert(freq_le(oldview[pi], oldview[b - 1]));
                        lemma_freq_le_trans(xm, oldview[pi], oldview[b - 1]);
                    }
                } else if a < pi && b > pi {
                    assert(newview[a] == oldview[a] && newview[b] == oldview[b - 1]);
                    if b - 1 == pi {
                        assert(!freq_le(oldview[pi], xm));
                        lemma_lex_total(oldview[pi].1, xm.1);
                        lemma_freq_le_trans(newview[a], xm, oldview[pi]);
                    }
                }
            }
        }
    }
    proof {
        assert(target.take(n as int) =~= target);
    }
    Ok(out)
}

/// The listing order is transitive.
pub proof fn lemma_freq_le_trans(a: (usize, Seq<char>), b: (usize, Seq<char>), c: (usize, Seq<char>))
    requires
        freq_le(a, b),
        freq_le(b, c),
    ensures
        freq_le(a, c),
{
    if a.0 == b.0 && b.0 == c.0 {
        lemma_lex_trans(a.1, b.1, c.1);
    }
}

// ---------------------------------------------------------------------------
// The output composer.
// ---------------------------------------------------------------------------

/// One output line: the source sentence and its first resolved
/// translation.
pub struct OutputRow {
    pub source_id: usize,
    pub translation_id: usize,
    pub source_text: String,
    pub translation_text: String,
}

pub open spec fn row_views(s: Seq<OutputRow>) -> Seq<(usize, usize, Seq<char>, Seq<char>)> {
    s.map_values(
        |r: OutputRow| (r.source_id, r.translation_id, r.source_text@, r.translation_text@),
    )
}

/// The rows composed from the scored sentences in order: a row for each
/// sentence whose first linked target id has a fetched text.
pub open spec fn rows_model(
    scored: Seq<(usize, Seq<char>, usize)>,
    lm: Seq<(usize, Seq<usize>)>,
    tm: Seq<(usize, Seq<char>)>,
) -> Seq<(usize, usize, Seq<char>, Seq<char>)>
    decreases scored.len(),
{
    if scored.len() == 0 {
        Seq::empty()
    } else {
        let prev = rows_model(scored.drop_last(), lm, tm);
        let s = scored.last();
        match first_target_model(lm, s.0) {
            Some(tid) => if lhas_key(tm, tid) {
                prev.push((s.0, tid, s.1, tm[lkey_idx(tm, tid)].1))
            } else {
                prev
            },
            None => prev,
        }
    }
}

/// How many scored sentences find no translation.
pub open spec fn skipped_model(
    scored: Seq<(usize, Seq<char>, usize)>,
    lm: Seq<(usize, Seq<usize>)>,
    tm: Seq<(usize, Seq<char>)>,
) -> nat
    decreases scored.len(),
{
    if scored.len() == 0 {
        0
    } else {
        let prev = skipped_model(scored.drop_last(), lm, tm);
        let s = scored.last();
        match first_target_model(lm, s.0) {
            Some(tid) => if lhas_key(tm, tid) {
                prev
            } else {
                prev + 1
            },
            None => prev + 1,
        }
    }
}

/// The ease pipeline's result.
pub struct EaseReport {
    pub rows: Vec<OutputRow>,
    pub skipped: usize,
}

/// The rank table the ease pipeline scores against.
pub open spec fn ease_rank(lines: Seq<Seq<char>>, lang_from: Seq<char>, tok: Tokenizer) -> Seq<
    (Seq<char>, usize),
> {
    rank_model(counts_model(corpus_words(lines, lang_from, tok)))
}

/// The whole pipeline: count, rank, score, resolve links, fetch texts, and
/// pair each scored sentence with its first resolved translation, counting
/// the sentences that find none.  The failures are a corpus whose word
/// count outgrows a machine word, and an id cell that does not parse in
/// any pass that reads it.
#[verifier::loop_isolation(false)]
pub fn make_translations(
    sentence_lines: &Vec<String>,
    link_lines: &Vec<String>,
    lang_from: &str,
    lang_to: &str,
    tok: &Tokenizer,
) -> (r: Result<EaseReport, CorpusError>)
    ensures
        ({
            let lvs = line_views(sentence_lines@);
            let llvs = line_views(link_lines@);
            let rt = ease_rank(lvs, lang_from@, *tok);
            let scored = sort_by_score(scored_model(lvs, lang_from@, rt, *tok));
            let lm = links_model(retained(llvs, lvs, lang_from@, lang_to@));
            let tm = trans_model(lvs, lm);
            match r {
                Ok(rep) => corpus_words(lvs, lang_from@, *tok).len() <= usize::MAX
                    && !scoring_err(lvs, lang_from@, rt, *tok) && !ids_err(lvs) && !links_err(llvs)
                    && row_views(rep.rows@) == rows_model(scored, lm, tm) && rep.skipped
                    == skipped_model(scored, lm, tm),
                Err(e) => (e == CorpusError::TooLarge && corpus_words(lvs, lang_from@, *tok).len()
                    > usize::MAX) || (e == CorpusError::InvalidId && corpus_words(
                    lvs,
                    lang_from@,
                    *tok,
                ).len() <= usize::MAX && (scoring_err(lvs, lang_from@, rt, *tok) || ids_err(lvs)
                    || links_err(llvs))),
            }
        }),
{
    let ghost lvs = line_views(sentence_lines@);
    let ghost llvs = line_views(link_lines@);
    let table = match word_frequency(sentence_lines, lang_from, tok) {
        Ok(t) => t,
        Err(e) => {
            return Err(e);
        },
    };
    let rt = rank_table(&table);
    let scored = match get_sentence_scores(sentence_lines, lang_from, &rt, tok) {
        Ok(v) => v,
        Err(e) => {
            return Err(e);
        },
    };
    let lm = match parse_links(sentence_lines, link_lines, lang_from, lang_to) {
        Ok(v) => v,
        Err(e) => {
            return Err(e);
        },
    };
    let tm = match get_translations(sentence_lines, &lm) {
        Ok(v) => v,
        Err(e) => {
            proof {
                assert(false);
            }
            return Err(e);
        },
    };
    let ghost sm = sort_by_score(scored_model(lvs, lang_from@, rt@, *tok));
    let mut rows: Vec<OutputRow> = Vec::new();
    let mut skipped: usize = 0;
    proof {
        assert(sm.take(0) =~= Seq::<(usize, Seq<char>, usize)>::empty());
        assert(row_views(rows@) =~= rows_model(sm.take(0), lm@, tm@));
    }
    let n = scored.len();
    proof {
        assert(scored_views(scored@).len() == n);
        assert(sm.len() == n);
    }
    for i in 0..n
        invariant
            n == scored.len(),
            sm == scored_views(scored@),
            row_views(rows@) == rows_model(sm.take(i as int), lm@, tm@),
            skipped == skipped_model(sm.take(i as int), lm@, tm@),
            skipped <= i,
    {
        proof {
            assert(sm.take(i + 1) =~= sm.take(i as int).push(sm[i as int]));
            assert(sm.take(i + 1).drop_last() =~= sm.take(i as int));
            assert(sm[i as int] == (scored@[i as int].id, scored@[i as int].text@, scored@[i as int].score));
        }
        let s = &scored[i];
        match lm.first_target(s.id) {
            Some(tid) => {
                match tm.get_text(tid) {
                    Some(text) => {
                        let ghost oldrows = rows@;
                        let row = OutputRow {
                            source_id: s.id,
                            translation_id: tid,
                            source_text: s.text.clone(),
                            translation_text: text.clone(),
                        };
                        rows.push(row);
                        proof {
                            assert(row_views(rows@) =~= row_views(oldrows).push(
                                (sm[i as int].0, tid, sm[i as int].1, tm@[lkey_idx(tm@, tid)].1),
                            ));
                        }
                    },
                    None => {
                        skipped = skipped + 1;
                    },
                }
            },
            None => {
                skipped = skipped + 1;
            },
        }
    }
    proof {
        assert(sm.take(n as int) =~= sm);
    }
    Ok(EaseReport { rows, skipped })
}

} // verus!
