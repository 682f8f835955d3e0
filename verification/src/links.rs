//! The link resolver and translation fetcher.  One pass over the corpus
//! collects the ids of the source and target languages; one pass over the
//! link file keeps the pairs pointing from a source id to a target id, in
//! file order, duplicates included; one more pass over the corpus fetches
//! the text of every referenced target id.
use vstd::prelude::*;
use crate::CorpusError;
use crate::freq::{cells_of, line_views};
use crate::text::{chars_eq, chars_of, parse_id, parse_usize_chars, split_cells, string_from_chars, views};

verus! {

// ---------------------------------------------------------------------------
// Integer-keyed association lists.
// ---------------------------------------------------------------------------

/// Index of the first entry with key `k`, or `m.len()` if there is none.
pub open spec fn lkey_idx<V>(m: Seq<(usize, V)>, k: usize) -> int
    decreases m.len(),
{
    if m.len() == 0 {
        0
    } else if m[0].0 == k {
        0
    } else {
        1 + lkey_idx(m.drop_first(), k)
    }
}

pub open spec fn lhas_key<V>(m: Seq<(usize, V)>, k: usize) -> bool {
    exists|i: int| 0 <= i < m.len() && m[i].0 == k
}

pub proof fn lemma_lkey_idx<V>(m: Seq<(usize, V)>, k: usize)
    ensures
        0 <= lkey_idx(m, k) <= m.len(),
        lkey_idx(m, k) < m.len() <==> lhas_key(m, k),
        lkey_idx(m, k) < m.len() ==> m[lkey_idx(m, k)].0 == k,
        forall|j: int| 0 <= j < lkey_idx(m, k) ==> m[j].0 != k,
    decreases m.len(),
{
    if m.len() == 0 {
    } else if m[0].0 == k {
    } else {
        lemma_lkey_idx(m.drop_first(), k);
        assert forall|j: int| 0 <= j < lkey_idx(m, k) implies m[j].0 != k by {
            if j > 0 {
                assert(m[j] == m.drop_first()[j - 1]);
            }
        }
        if lhas_key(m, k) {
            let w = choose|i: int| 0 <= i < m.len() && m[i].0 == k;
            assert(m.drop_first()[w - 1].0 == k);
        }
        if lhas_key(m.drop_first(), k) {
            let w = choose|i: int| 0 <= i < m.drop_first().len() && m.drop_first()[i].0 == k;
            assert(m[w + 1].0 == k);
        }
    }
}

// ---------------------------------------------------------------------------
// Pass 1: id collection per language.
// ---------------------------------------------------------------------------

/// This pass parses the first cell of every corpus line; one that does not
/// parse aborts the run.
pub open spec fn line_id_err(line: Seq<char>) -> bool {
    parse_id(cells_of(line)[0]) is None
}

pub open spec fn ids_err(lines: Seq<Seq<char>>) -> bool {
    exists|i: int| 0 <= i < lines.len() && line_id_err(lines[i])
}

/// The id of a line whose first cell parses.
pub open spec fn line_id(line: Seq<char>) -> usize {
    match parse_id(cells_of(line)[0]) {
        Some(v) => v,
        None => 0,
    }
}

/// Some line of this language carries this id.
pub open spec fn lang_id_line(line: Seq<char>, lang: Seq<char>, id: usize) -> bool {
    let cs = cells_of(line);
    cs.len() >= 2 && cs[1] == lang && line_id(line) == id
}

pub open spec fn lang_id_present(lines: Seq<Seq<char>>, lang: Seq<char>, id: usize) -> bool {
    exists|i: int| 0 <= i < lines.len() && lang_id_line(#[trigger] lines[i], lang, id)
}

/// Membership in the source-language id set: the line names the language
/// in its second cell.
pub open spec fn from_id(lines: Seq<Seq<char>>, lang_from: Seq<char>, id: usize) -> bool {
    lang_id_present(lines, lang_from, id)
}

/// Membership in the target-language id set.  A language serving as both
/// source and target feeds the source set only, as the collection pass
/// checks the source language first.
pub open spec fn to_id(
    lines: Seq<Seq<char>>,
    lang_from: Seq<char>,
    lang_to: Seq<char>,
    id: usize,
) -> bool {
    lang_to != lang_from && lang_id_present(lines, lang_to, id)
}

#[verifier::loop_isolation(false)]
fn collect_lang_ids(lines: &Vec<String>, lf: &Vec<char>, lt: &Vec<char>) -> (r: Result<
    (Vec<usize>, Vec<usize>),
    CorpusError,
>)
    ensures
        match r {
            Ok(ft) => !ids_err(line_views(lines@)) && (forall|id: usize|
                ft.0@.contains(id) <==> from_id(line_views(lines@), lf@, id)) && (forall|id: usize|
                ft.1@.contains(id) <==> to_id(line_views(lines@), lf@, lt@, id)),
            Err(e) => e == CorpusError::InvalidId && ids_err(line_views(lines@)),
        },
{
    let ghost lvs = line_views(lines@);
    let mut fv: Vec<usize> = Vec::new();
    let mut tv: Vec<usize> = Vec::new();
    let n = lines.len();
    for li in 0..n
        invariant
            n == lines.len(),
            !ids_err(lvs.take(li as int)),
            forall|id: usize| fv@.contains(id) <==> from_id(lvs.take(li as int), lf@, id),
            forall|id: usize| tv@.contains(id) <==> to_id(lvs.take(li as int), lf@, lt@, id),
    {
        proof {
            assert(lvs.take(li + 1) =~= lvs.take(li as int).push(lvs[li as int]));
            assert(lvs[li as int] == lines@[li as int]@);
        }
        let lchars = chars_of(&lines[li]);
        let cells = split_cells(&lchars);
        let ghost cs = cells_of(lvs[li as int]);
        proof {
            assert(views(cells@) == cs);
            assert(cells@[0]@ == cs[0]);
        }
        let id = match parse_usize_chars(&cells[0]) {
            Some(v) => v,
            None => {
                proof {
                    assert(line_id_err(lvs[li as int]));
                    assert(ids_err(lvs)) by {
                        assert(0 <= li < lvs.len() && line_id_err(lvs[li as int]));
                    }
                }
                return Err(CorpusError::InvalidId);
            },
        };
        proof {
            assert(line_id(lvs[li as int]) == id);
        }
        if cells.len() >= 2 && chars_eq(&cells[1], lf) {
            proof {
                assert(cells@[1]@ == cs[1]);
            }
            let ghost oldf = fv@;
            fv.push(id);
            proof {
                assert forall|x: usize|
                    fv@.contains(x) <==> from_id(lvs.take(li + 1), lf@, x) by {
                    vstd::seq_lib::lemma_seq_contains_after_push(oldf, id, x);
                    lemma_lang_id_step(lvs, lf@, x, li as int);
                    assert(oldf.contains(x) <==> from_id(lvs.take(li as int), lf@, x));
                    assert(lang_id_line(lvs[li as int], lf@, x) <==> x == id);
                }
                assert forall|x: usize|
                    tv@.contains(x) <==> to_id(lvs.take(li + 1), lf@, lt@, x) by {
                    lemma_lang_id_step(lvs, lt@, x, li as int);
                    assert(tv@.contains(x) <==> to_id(lvs.take(li as int), lf@, lt@, x));
                    if lt@ != lf@ {
                        assert(!lang_id_line(lvs[li as int], lt@, x));
                    }
                }
            }
        } else if cells.len() >= 2 && chars_eq(&cells[1], lt) {
            proof {
                assert(cells@[1]@ == cs[1]);
                assert(cs[1] != lf@);
            }
            let ghost oldt = tv@;
            tv.push(id);
            proof {
                assert forall|x: usize|
                    tv@.contains(x) <==> to_id(lvs.take(li + 1), lf@, lt@, x) by {
                    vstd::seq_lib::lemma_seq_contains_after_push(oldt, id, x);
                    lemma_lang_id_step(lvs, lt@, x, li as int);
                    assert(oldt.contains(x) <==> to_id(lvs.take(li as int), lf@, lt@, x));
                    assert(lt@ != lf@);
                    assert(lang_id_line(lvs[li as int], lt@, x) <==> x == id);
                }
                assert forall|x: usize|
                    fv@.contains(x) <==> from_id(lvs.take(li + 1), lf@, x) by {
                    lemma_lang_id_step(lvs, lf@, x, li as int);
                    assert(fv@.contains(x) <==> from_id(lvs.take(li as int), lf@, x));
                    assert(!lang_id_line(lvs[li as int], lf@, x));
                }
            }
        } else {
            proof {
                if cells.len() >= 2 {
                    assert(cells@[1]@ == cs[1]);
                }
                assert forall|x: usize|
                    fv@.contains(x) <==> from_id(lvs.take(li + 1), lf@, x) by {
                    lemma_lang_id_step(lvs, lf@, x, li as int);
                    assert(fv@.contains(x) <==> from_id(lvs.take(li as int), lf@, x));
                    assert(!lang_id_line(lvs[li as int], lf@, x));
                }
                assert forall|x: usize|
                    tv@.contains(x) <==> to_id(lvs.take(li + 1), lf@, lt@, x) by {
                    lemma_lang_id_step(lvs, lt@, x, li as int);
                    assert(tv@.contains(x) <==> to_id(lvs.take(li as int), lf@, lt@, x));
                    if lt@ != lf@ {
                        assert(!lang_id_line(lvs[li as int], lt@, x));
                    }
                }
            }
        }
        proof {
            lemma_id_err_push(lvs, li as int);
        }
    }
    proof {
        assert(lvs.take(n as int) =~= lvs);
    }
    Ok((fv, tv))
}

/// A language id set grows by the current line's id exactly when the line
/// names the language.
proof fn lemma_lang_id_step(lines: Seq<Seq<char>>, lang: Seq<char>, id: usize, li: int)
    requires
        0 <= li < lines.len(),
    ensures
        lang_id_present(lines.take(li + 1), lang, id) <==> (lang_id_present(
            lines.take(li),
            lang,
            id,
        ) || lang_id_line(lines[li], lang, id)),
{
    let a = lines.take(li);
    let b = lines.take(li + 1);
    assert(b =~= a.push(lines[li]));
    if lang_id_present(b, lang, id) {
        let i = choose|i: int| 0 <= i < b.len() && lang_id_line(#[trigger] b[i], lang, id);
        if i < li {
            assert(a[i] == b[i]);
            assert(lang_id_present(a, lang, id));
        } else {
            assert(b[i] == lines[li]);
        }
    }
    if lang_id_present(a, lang, id) {
        let i = choose|i: int| 0 <= i < a.len() && lang_id_line(#[trigger] a[i], lang, id);
        assert(b[i] == a[i]);
        assert(lang_id_present(b, lang, id));
    }
    if lang_id_line(lines[li], lang, id) {
        assert(b[li] == lines[li]);
        assert(lang_id_present(b, lang, id));
    }
}

/// An error-free prefix stays error free when the next line's id parses.
proof fn lemma_id_err_push(lines: Seq<Seq<char>>, li: int)
    requires
        0 <= li < lines.len(),
        !ids_err(lines.take(li)),
        !line_id_err(lines[li]),
    ensures
        !ids_err(lines.take(li + 1)),
{
    if ids_err(lines.take(li + 1)) {
        let i = choose|i: int|
            0 <= i < lines.take(li + 1).len() && line_id_err(#[trigger] lines.take(li + 1)[i]);
        if i < li {
            assert(lines.take(li)[i] == lines.take(li + 1)[i]);
            assert(ids_err(lines.take(li)));
        } else {
            assert(lines.take(li + 1)[i] == lines[li]);
        }
    }
}

// ---------------------------------------------------------------------------
// Pass 2: the link file.
// ---------------------------------------------------------------------------

/// A link line aborts the run when its first cell does not parse, or when
/// it has a second cell that does not parse.
pub open spec fn link_line_err(line: Seq<char>) -> bool {
    let cs = cells_of(line);
    parse_id(cs[0]) is None || (cs.len() >= 2 && parse_id(cs[1]) is None)
}

pub open spec fn links_err(lines: Seq<Seq<char>>) -> bool {
    exists|i: int| 0 <= i < lines.len() && link_line_err(lines[i])
}

/// The alignment pairs kept: both cells parse, the first id belongs to the
/// source language, the second to the target language; file order, with
/// duplicates.
pub open spec fn retained(
    link_lines: Seq<Seq<char>>,
    corpus: Seq<Seq<char>>,
    lang_from: Seq<char>,
    lang_to: Seq<char>,
) -> Seq<(usize, usize)>
    decreases link_lines.len(),
{
    if link_lines.len() == 0 {
        Seq::empty()
    } else {
        let prev = retained(link_lines.drop_last(), corpus, lang_from, lang_to);
        let cs = cells_of(link_lines.last());
        if cs.len() >= 2 && parse_id(cs[0]) is Some && parse_id(cs[1]) is Some {
            let id1 = parse_id(cs[0]) -> Some_0;
            let id2 = parse_id(cs[1]) -> Some_0;
            if from_id(corpus, lang_from, id1) && to_id(corpus, lang_from, lang_to, id2) {
                prev.push((id1, id2))
            } else {
                prev
            }
        } else {
            prev
        }
    }
}

/// One resolution step: append the target id to the source id's list,
/// opening a fresh list for a source id not seen before.
pub open spec fn links_step(m: Seq<(usize, Seq<usize>)>, id1: usize, id2: usize) -> Seq<
    (usize, Seq<usize>),
> {
    if lhas_key(m, id1) {
        let i = lkey_idx(m, id1);
        m.update(i, (id1, m[i].1.push(id2)))
    } else {
        m.push((id1, seq![id2]))
    }
}

/// The link map the kept pairs build: source ids in first-appearance
/// order, each with its target ids in file order.
pub open spec fn links_model(pairs: Seq<(usize, usize)>) -> Seq<(usize, Seq<usize>)>
    decreases pairs.len(),
{
    if pairs.len() == 0 {
        Seq::empty()
    } else {
        links_step(links_model(pairs.drop_last()), pairs.last().0, pairs.last().1)
    }
}

// ---------------------------------------------------------------------------
// The link map type.
// ---------------------------------------------------------------------------

pub struct LinkEntry {
    pub key: usize,
    pub targets: Vec<usize>,
}

pub open spec fn link_views(s: Seq<LinkEntry>) -> Seq<(usize, Seq<usize>)> {
    s.map_values(|e: LinkEntry| (e.key, e.targets@))
}

/// The resolved link map: source id to the ordered target ids.
pub struct LinkMap {
    pub entries: Vec<LinkEntry>,
}

impl View for LinkMap {
    type V = Seq<(usize, Seq<usize>)>;

    open spec fn view(&self) -> Seq<(usize, Seq<usize>)> {
        link_views(self.entries@)
    }
}

impl LinkMap {
    pub fn new() -> (r: LinkMap)
        ensures
            r@ == Seq::<(usize, Seq<usize>)>::empty(),
    {
        let m = LinkMap { entries: Vec::new() };
        proof {
            assert(m@ =~= Seq::<(usize, Seq<usize>)>::empty());
        }
        m
    }

    #[verifier::loop_isolation(false)]
    fn find(&self, k: usize) -> (r: usize)
        ensures
            r == lkey_idx(self@, k),
            r <= self@.len(),
    {
        proof {
            lemma_lkey_idx(self@, k);
        }
        let n = self.entries.len();
        for i in 0..n
            invariant
                n == self.entries.len(),
                forall|j: int| 0 <= j < i ==> self@[j].0 != k,
        {
            proof {
                assert(self@[i as int].0 == self.entries@[i as int].key);
            }
            if self.entries[i].key == k {
                proof {
                    if lkey_idx(self@, k) < i {
                        assert(self@[lkey_idx(self@, k)].0 != k);
                    }
                    assert(lkey_idx(self@, k) == i);
                }
                return i;
            }
        }
        proof {
            assert(!lhas_key(self@, k));
        }
        n
    }

    /// Record one kept pair.
    pub(crate) fn append(&mut self, id1: usize, id2: usize)
        ensures
            final(self)@ == links_step(old(self)@, id1, id2),
    {
        proof {
            lemma_lkey_idx(self@, id1);
        }
        let i = self.find(id1);
        if i < self.entries.len() {
            proof {
                assert(self@[i as int].1 == self.entries@[i as int].targets@);
            }
            let e = &mut self.entries[i];
            e.targets.push(id2);
            proof {
                assert(self@ =~= links_step(old(self)@, id1, id2));
            }
        } else {
            let targets = vec![id2];
            proof {
                assert(targets@ =~= seq![id2]);
            }
            self.entries.push(LinkEntry { key: id1, targets });
            proof {
                assert(self@ =~= links_step(old(self)@, id1, id2));
            }
        }
    }

    /// The first target id linked to a source id, if any: "the"
    /// translation for output purposes.
    pub fn first_target(&self, id: usize) -> (r: Option<usize>)
        ensures
            r == first_target_model(self@, id),
    {
        proof {
            lemma_lkey_idx(self@, id);
        }
        let i = self.find(id);
        if i < self.entries.len() {
            proof {
                assert(self@[i as int].1 == self.entries@[i as int].targets@);
            }
            if self.entries[i].targets.len() > 0 {
                Some(self.entries[i].targets[0])
            } else {
                None
            }
        } else {
            None
        }
    }
}

pub open spec fn first_target_model(m: Seq<(usize, Seq<usize>)>, id: usize) -> Option<usize> {
    if lhas_key(m, id) && m[lkey_idx(m, id)].1.len() > 0 {
        Some(m[lkey_idx(m, id)].1[0])
    } else {
        None
    }
}

// ---------------------------------------------------------------------------
// parse_links.
// ---------------------------------------------------------------------------

fn contains_id(v: &Vec<usize>, id: usize) -> (r: bool)
    ensures
        r == v@.contains(id),
{
    let n = v.len();
    for i in 0..n
        invariant
            n == v.len(),
            forall|j: int| 0 <= j < i ==> v@[j] != id,
    {
        if v[i] == id {
            return true;
        }
    }
    proof {
        assert(!v@.contains(id));
    }
    false
}

/// Resolve the link file against the corpus: keep the pairs whose first id
/// belongs to the source language and whose second belongs to the target
/// language, building the source-id to target-ids map in file order.  A
/// corpus or link line whose id cells do not parse aborts the run.
#[verifier::loop_isolation(false)]
pub fn parse_links(
    sentence_lines: &Vec<String>,
    link_lines: &Vec<String>,
    lang_from: &str,
    lang_to: &str,
) -> (r: Result<LinkMap, CorpusError>)
    ensures
        match r {
            Ok(lm) => !ids_err(line_views(sentence_lines@)) && !links_err(line_views(link_lines@))
                && lm@ == links_model(
                retained(
                    line_views(link_lines@),
                    line_views(sentence_lines@),
                    lang_from@,
                    lang_to@,
                ),
            ),
            Err(e) => e == CorpusError::InvalidId && (ids_err(line_views(sentence_lines@))
                || links_err(line_views(link_lines@))),
        },
{
    let ghost corpus = line_views(sentence_lines@);
    let ghost llvs = line_views(link_lines@);
    let lf = chars_of(lang_from);
    let lt = chars_of(lang_to);
    let (from_ids, to_ids) = match collect_lang_ids(sentence_lines, &lf, &lt) {
        Ok(ft) => ft,
        Err(e) => {
            return Err(e);
        },
    };
    let mut lm = LinkMap::new();
    proof {
        assert(llvs.take(0) =~= Seq::<Seq<char>>::empty());
        assert(retained(llvs.take(0), corpus, lf@, lt@) =~= Seq::<(usize, usize)>::empty());
        assert(lm@ =~= links_model(retained(llvs.take(0), corpus, lf@, lt@)));
    }
    let n = link_lines.len();
    for li in 0..n
        invariant
            n == link_lines.len(),
            !links_err(llvs.take(li as int)),
            lm@ == links_model(retained(llvs.take(li as int), corpus, lf@, lt@)),
    {
        proof {
            assert(llvs.take(li + 1) =~= llvs.take(li as int).push(llvs[li as int]));
            assert(llvs.take(li + 1).drop_last() =~= llvs.take(li as int));
            assert(llvs[li as int] == link_lines@[li as int]@);
        }
        let lchars = chars_of(&link_lines[li]);
        let cells = split_cells(&lchars);
        let ghost cs = cells_of(llvs[li as int]);
        proof {
            assert(views(cells@) == cs);
            assert(cells@[0]@ == cs[0]);
        }
        let id1 = match parse_usize_chars(&cells[0]) {
            Some(v) => v,
            None => {
                proof {
                    assert(link_line_err(llvs[li as int]));
                    assert(links_err(llvs)) by {
                        assert(0 <= li < llvs.len() && link_line_err(llvs[li as int]));
                    }
                }
                return Err(CorpusError::InvalidId);
            },
        };
        if cells.len() >= 2 {
            proof {
                assert(cells@[1]@ == cs[1]);
            }
            let id2 = match parse_usize_chars(&cells[1]) {
                Some(v) => v,
                None => {
                    proof {
                        assert(link_line_err(llvs[li as int]));
                        assert(links_err(llvs)) by {
                            assert(0 <= li < llvs.len() && link_line_err(llvs[li as int]));
                        }
                    }
                    return Err(CorpusError::InvalidId);
                },
            };
            let ghost prev = retained(llvs.take(li as int), corpus, lf@, lt@);
            if contains_id(&from_ids, id1) && contains_id(&to_ids, id2) {
                proof {
                    assert(retained(llvs.take(li + 1), corpus, lf@, lt@) == prev.push((id1, id2)));
                    assert(prev.push((id1, id2)).drop_last() =~= prev);
                    assert(prev.push((id1, id2)).last() == (id1, id2));
                }
                lm.append(id1, id2);
            } else {
                proof {
                    assert(retained(llvs.take(li + 1), corpus, lf@, lt@) == prev);
                }
            }
        } else {
            proof {
                assert(retained(llvs.take(li + 1), corpus, lf@, lt@) == retained(
                    llvs.take(li as int),
                    corpus,
                    lf@,
                    lt@,
                ));
            }
        }
        proof {
            lemma_link_err_push(llvs, li as int);
        }
    }
    proof {
        assert(llvs.take(n as int) =~= llvs);
    }
    Ok(lm)
}

proof fn lemma_link_err_push(lines: Seq<Seq<char>>, li: int)
    requires
        0 <= li < lines.len(),
        !links_err(lines.take(li)),
        !link_line_err(lines[li]),
    ensures
        !links_err(lines.take(li + 1)),
{
    if links_err(lines.take(li + 1)) {
        let i = choose|i: int|
            0 <= i < lines.take(li + 1).len() && link_line_err(#[trigger] lines.take(li + 1)[i]);
        if i < li {
            assert(lines.take(li)[i] == lines.take(li + 1)[i]);
            assert(links_err(lines.take(li)));
        } else {
            assert(lines.take(li + 1)[i] == lines[li]);
        }
    }
}

// ---------------------------------------------------------------------------
// The translation fetcher.
// ---------------------------------------------------------------------------

/// A target id some link refers to.
pub open spec fn referenced(lm: Seq<(usize, Seq<usize>)>, id: usize) -> bool {
    exists|i: int, j: int|
        0 <= i < lm.len() && 0 <= j < lm[i].1.len() && #[trigger] lm[i].1[j] == id
}

/// One fetching step: a referenced id with a text cell enters the map,
/// a repeated id keeps the text seen last.
pub open spec fn trans_step(
    m: Seq<(usize, Seq<char>)>,
    lm: Seq<(usize, Seq<usize>)>,
    line: Seq<char>,
) -> Seq<(usize, Seq<char>)> {
    let cs = cells_of(line);
    let id = line_id(line);
    if referenced(lm, id) && cs.len() >= 3 {
        if lhas_key(m, id) {
            m.update(lkey_idx(m, id), (id, cs[2]))
        } else {
            m.push((id, cs[2]))
        }
    } else {
        m
    }
}

/// The texts of all referenced target ids, keyed by id.
pub open spec fn trans_model(lines: Seq<Seq<char>>, lm: Seq<(usize, Seq<usize>)>) -> Seq<
    (usize, Seq<char>),
>
    decreases lines.len(),
{
    if lines.len() == 0 {
        Seq::empty()
    } else {
        trans_step(trans_model(lines.drop_last(), lm), lm, lines.last())
    }
}

pub struct TransEntry {
    pub key: usize,
    pub text: String,
}

pub open spec fn trans_views(s: Seq<TransEntry>) -> Seq<(usize, Seq<char>)> {
    s.map_values(|e: TransEntry| (e.key, e.text@))
}

/// The translation text map: target id to sentence text.
pub struct TransMap {
    pub entries: Vec<TransEntry>,
}

impl View for TransMap {
    type V = Seq<(usize, Seq<char>)>;

    open spec fn view(&self) -> Seq<(usize, Seq<char>)> {
        trans_views(self.entries@)
    }
}

impl TransMap {
    #[verifier::loop_isolation(false)]
    fn find(&self, k: usize) -> (r: usize)
        ensures
            r == lkey_idx(self@, k),
            r <= self@.len(),
    {
        proof {
            lemma_lkey_idx(self@, k);
        }
        let n = self.entries.len();
        for i in 0..n
            invariant
                n == self.entries.len(),
                forall|j: int| 0 <= j < i ==> self@[j].0 != k,
        {
            proof {
                assert(self@[i as int].0 == self.entries@[i as int].key);
            }
            if self.entries[i].key == k {
                proof {
                    if lkey_idx(self@, k) < i {
                        assert(self@[lkey_idx(self@, k)].0 != k);
                    }
                    assert(lkey_idx(self@, k) == i);
                }
                return i;
            }
        }
        proof {
            assert(!lhas_key(self@, k));
        }
        n
    }

    /// The stored text of a target id, if any.
    pub fn get_text(&self, id: usize) -> (r: Option<&String>)
        ensures
            match r {
                Some(s) => lhas_key(self@, id) && s@ == self@[lkey_idx(self@, id)].1,
                None => !lhas_key(self@, id),
            },
    {
        proof {
            lemma_lkey_idx(self@, id);
        }
        let i = self.find(id);
        if i < self.entries.len() {
            proof {
                assert(self@[i as int].1 == self.entries@[i as int].text@);
            }
            Some(&self.entries[i].text)
        } else {
            None
        }
    }
}

/// Fetch the text of every target id the link map refers to, in one more
/// pass over the corpus.  As in every corpus pass, an id cell that does
/// not parse aborts the run.
#[verifier::loop_isolation(false)]
pub fn get_translations(lines: &Vec<String>, links: &LinkMap) -> (r: Result<TransMap, CorpusError>)
    ensures
        match r {
            Ok(tm) => !ids_err(line_views(lines@)) && tm@ == trans_model(
                line_views(lines@),
                links@,
            ),
            Err(e) => e == CorpusError::InvalidId && ids_err(line_views(lines@)),
        },
{
    let ghost lvs = line_views(lines@);
    let ghost lmv = links@;
    let mut tm = TransMap { entries: Vec::new() };
    proof {
        assert(lvs.take(0) =~= Seq::<Seq<char>>::empty());
        assert(tm@ =~= trans_model(lvs.take(0), lmv));
    }
    let n = lines.len();
    for li in 0..n
        invariant
            n == lines.len(),
            !ids_err(lvs.take(li as int)),
            tm@ == trans_model(lvs.take(li as int), lmv),
            links@ == lmv,
    {
        proof {
            assert(lvs.take(li + 1) =~= lvs.take(li as int).push(lvs[li as int]));
            assert(lvs.take(li + 1).drop_last() =~= lvs.take(li as int));
            assert(lvs[li as int] == lines@[li as int]@);
        }
        let lchars = chars_of(&lines[li]);
        let cells = split_cells(&lchars);
        let ghost cs = cells_of(lvs[li as int]);
        proof {
            assert(views(cells@) == cs);
            assert(cells@[0]@ == cs[0]);
        }
        let id = match parse_usize_chars(&cells[0]) {
            Some(v) => v,
            None => {
                proof {
                    assert(line_id_err(lvs[li as int]));
                    assert(ids_err(lvs)) by {
                        assert(0 <= li < lvs.len() && line_id_err(lvs[li as int]));
                    }
                }
                return Err(CorpusError::InvalidId);
            },
        };
        let wanted = referenced_exec(links, id);
        if wanted && cells.len() >= 3 {
            proof {
                assert(cells@[2]@ == cs[2]);
                lemma_lkey_idx(tm@, id);
            }
            let text = string_from_chars(&cells[2]);
            let i = tm.find(id);
            if i < tm.entries.len() {
                tm.entries[i] = TransEntry { key: id, text };
                proof {
                    assert(tm@ =~= trans_step(trans_model(lvs.take(li as int), lmv), lmv, lvs[li as int]));
                }
            } else {
                tm.entries.push(TransEntry { key: id, text });
                proof {
                    assert(tm@ =~= trans_step(trans_model(lvs.take(li as int), lmv), lmv, lvs[li as int]));
                }
            }
        } else {
            proof {
                assert(trans_step(trans_model(lvs.take(li as int), lmv), lmv, lvs[li as int])
                    == trans_model(lvs.take(li as int), lmv));
            }
        }
        proof {
            lemma_id_err_push(lvs, li as int);
        }
    }
    proof {
        assert(lvs.take(n as int) =~= lvs);
    }
    Ok(tm)
}

/// Whether any link's target list holds this id.
#[verifier::loop_isolation(false)]
fn referenced_exec(links: &LinkMap, id: usize) -> (r: bool)
    ensures
        r == referenced(links@, id),
{
    let n = links.entries.len();
    for i in 0..n
        invariant
            n == links.entries.len(),
            forall|a: int, b: int|
                0 <= a < i && 0 <= b < links@[a].1.len() ==> #[trigger] links@[a].1[b] != id,
    {
        proof {
            assert(links@[i as int].1 == links.entries@[i as int].targets@);
        }
        let m = links.entries[i].targets.len();
        for j in 0..m
            invariant
                m == links.entries@[i as int].targets.len(),
                forall|b: int| 0 <= b < j ==> links@[i as int].1[b] != id,
        {
            if links.entries[i].targets[j] == id {
                proof {
                    assert(links@[i as int].1[j as int] == id);
                }
                return true;
            }
        }
    }
    proof {
        if referenced(links@, id) {
            let (a, b) = choose|a: int, b: int|
                0 <= a < links@.len() && 0 <= b < links@[a].1.len() && #[trigger] links@[a].1[b]
                    == id;
            assert(links@[a].1[b] != id);
        }
    }
    false
}

} // verus!
