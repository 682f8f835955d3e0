//! Dense frequency ranks.  A word key's rank is the number of distinct
//! occurrence counts strictly greater than its own, so the most frequent
//! count group gets rank zero, every key in one count group shares a rank,
//! and ranks are contiguous from zero group by group.
use vstd::prelude::*;
use crate::freq::{WordEntry, WordTable, counts_model, entry_views};

verus! {

broadcast use
    vstd::prelude::Seq::lemma_filter_push,
    vstd::prelude::Seq::lemma_push_to_set_commute,
    vstd::seq_lib::seq_to_set_is_finite,
    vstd::set::axiom_set_insert_len;

/// An entry's count, as a function value.
pub open spec fn val_fn() -> spec_fn((Seq<char>, usize)) -> usize {
    |e: (Seq<char>, usize)| e.1
}

/// The distinct occurrence counts a frequency table holds.
pub open spec fn counts_set(m: Seq<(Seq<char>, usize)>) -> Set<usize> {
    m.map_values(val_fn()).to_set()
}

/// Strictly greater than `c`, as a predicate value.
pub open spec fn gt_pred(c: usize) -> spec_fn(usize) -> bool {
    |x: usize| x > c
}

/// The dense rank of a count among a set of counts: how many distinct
/// counts exceed it.
pub open spec fn rank_of(cs: Set<usize>, c: usize) -> nat {
    cs.filter(gt_pred(c)).len()
}

/// The rank table a frequency table induces: the same keys in the same
/// order, each count replaced by its dense rank.
pub open spec fn rank_model(m: Seq<(Seq<char>, usize)>) -> Seq<(Seq<char>, usize)> {
    m.map_values(|e: (Seq<char>, usize)| (e.0, rank_of(counts_set(m), e.1) as usize))
}

pub proof fn lemma_counts_set_finite(m: Seq<(Seq<char>, usize)>)
    ensures
        counts_set(m).finite(),
        counts_set(m).len() <= m.len(),
        forall|i: int| 0 <= i < m.len() ==> counts_set(m).contains(#[trigger] m[i].1),
{
    let vals = m.map_values(val_fn());
    vals.lemma_cardinality_of_set();
    assert forall|i: int| 0 <= i < m.len() implies counts_set(m).contains(#[trigger] m[i].1) by {
        assert(vals[i] == m[i].1);
        assert(vals.contains(m[i].1));
    }
}

/// Ranks stay below the machine limit: there are no more distinct counts
/// than table entries.
pub proof fn lemma_rank_bound(m: Seq<(Seq<char>, usize)>, c: usize)
    ensures
        rank_of(counts_set(m), c) <= m.len(),
{
    lemma_counts_set_finite(m);
    counts_set(m).lemma_len_filter(gt_pred(c));
}

/// For a duplicate-free sequence, counting matching elements in the
/// sequence and in its set of elements is the same.
proof fn lemma_nodup_filter_card(s: Seq<usize>, p: spec_fn(usize) -> bool)
    requires
        s.no_duplicates(),
    ensures
        s.to_set().finite(),
        s.to_set().filter(p).finite(),
        s.to_set().filter(p).len() == s.filter(p).len(),
    decreases s.len(),
{
    if s.len() == 0 {
        assert(s.to_set() =~= Set::<usize>::empty());
        assert(s.to_set().filter(p) =~= Set::<usize>::empty());
        assert(s.filter(p).len() == 0);
    } else {
        let dl = s.drop_last();
        let x = s.last();
        assert(dl.no_duplicates());
        lemma_nodup_filter_card(dl, p);
        assert(dl.push(x) =~= s);
        assert(s.to_set() == dl.to_set().insert(x));
        assert(!dl.to_set().contains(x)) by {
            if dl.to_set().contains(x) {
                let i = choose|i: int| 0 <= i < dl.len() && dl[i] == x;
                assert(s[i] == s[s.len() - 1]);
            }
        }
        dl.to_set().lemma_len_filter(p);
        if p(x) {
            assert(s.filter(p) == dl.filter(p).push(x));
            assert(dl.to_set().insert(x).filter(p) =~= dl.to_set().filter(p).insert(x));
            assert(!dl.to_set().filter(p).contains(x));
        } else {
            assert(s.filter(p) == dl.filter(p));
            assert(dl.to_set().insert(x).filter(p) =~= dl.to_set().filter(p));
        }
    }
}

fn contains_count(d: &Vec<usize>, c: usize) -> (r: bool)
    ensures
        r == d@.contains(c),
{
    let n = d.len();
    for i in 0..n
        invariant
            n == d.len(),
            forall|j: int| 0 <= j < i ==> d@[j] != c,
    {
        if d[i] == c {
            return true;
        }
    }
    proof {
        assert(!d@.contains(c));
    }
    false
}

/// Derive the rank table from a frequency table: same keys, same order,
/// each count replaced by the number of distinct counts above it.
#[verifier::loop_isolation(false)]
pub fn rank_table(freq: &WordTable) -> (r: WordTable)
    ensures
        r@ == rank_model(freq@),
{
    let ghost m = freq@;
    let ghost vals = m.map_values(val_fn());
    let n = freq.entries.len();
    proof {
        assert(m.len() == n);
    }

    // The distinct counts, in first-appearance order.
    let mut dcounts: Vec<usize> = Vec::new();
    proof {
        assert(vals.take(0) =~= Seq::<usize>::empty());
        assert(dcounts@.to_set() =~= vals.take(0).to_set());
    }
    for i in 0..n
        invariant
            dcounts@.no_duplicates(),
            dcounts@.to_set() == vals.take(i as int).to_set(),
    {
        let c = freq.entries[i].val;
        proof {
            assert(vals[i as int] == m[i as int].1);
            assert(m[i as int].1 == freq.entries@[i as int].val);
            assert(vals.take(i + 1) =~= vals.take(i as int).push(c));
            assert(vals.take(i + 1).to_set() == vals.take(i as int).to_set().insert(c));
        }
        if !contains_count(&dcounts, c) {
            let ghost oldd = dcounts@;
            dcounts.push(c);
            proof {
                assert(dcounts@.to_set() == oldd.to_set().insert(c));
                assert forall|a: int, b: int|
                    0 <= a < b < dcounts@.len() implies dcounts@[a] != dcounts@[b] by {
                    if b == dcounts@.len() - 1 {
                        assert(oldd[a] == dcounts@[a]);
                        assert(!oldd.contains(c));
                    }
                }
            }
        } else {
            proof {
                assert(dcounts@.contains(c));
                assert(dcounts@.to_set().insert(c) =~= dcounts@.to_set());
            }
        }
    }
    proof {
        assert(vals.take(n as int) =~= vals);
        assert(dcounts@.to_set() == counts_set(m));
    }

    // Each entry's rank: how many distinct counts exceed its count.
    let dn = dcounts.len();
    let mut out: Vec<WordEntry> = Vec::new();
    proof {
        assert(entry_views(out@) =~= rank_model(m).take(0));
    }
    for i in 0..n
        invariant
            dn == dcounts.len(),
            entry_views(out@) == rank_model(m).take(i as int),
    {
        let c = freq.entries[i].val;
        let mut k: usize = 0;
        proof {
            assert(dcounts@.take(0).filter(gt_pred(c)).len() == 0) by {
                assert(dcounts@.take(0) =~= Seq::<usize>::empty());
            }
        }
        for j in 0..dn
            invariant
                k == dcounts@.take(j as int).filter(gt_pred(c)).len(),
                k <= j,
        {
            proof {
                assert(dcounts@.take(j + 1) =~= dcounts@.take(j as int).push(dcounts@[j as int]));
            }
            if dcounts[j] > c {
                proof {
                    assert(gt_pred(c)(dcounts@[j as int]));
                }
                k = k + 1;
            } else {
                proof {
                    assert(!gt_pred(c)(dcounts@[j as int]));
                }
            }
        }
        proof {
            assert(dcounts@.take(dn as int) =~= dcounts@);
            lemma_nodup_filter_card(dcounts@, gt_pred(c));
            assert(k == rank_of(counts_set(m), c));
        }
        let key = freq.entries[i].key.clone();
        let ghost oldout = out@;
        out.push(WordEntry { key, val: k });
        proof {
            assert(m[i as int].1 == freq.entries@[i as int].val);
            assert(m[i as int].0 == freq.entries@[i as int].key@);
            assert(entry_views(out@) =~= rank_model(m).take(i + 1));
        }
    }
    let r = WordTable { entries: out };
    proof {
        assert(rank_model(m).take(n as int) =~= rank_model(m));
    }
    r
}

// ---------------------------------------------------------------------------
// The rank laws.
// ---------------------------------------------------------------------------

/// Rank monotonicity: of two words in one table, the one counted strictly
/// more often ranks strictly earlier, and words with equal counts share
/// one rank.  The strict step happens exactly where the counts differ.
pub proof fn lemma_rank_monotone(m: Seq<(Seq<char>, usize)>, i: int, j: int)
    requires
        m.len() <= usize::MAX,
        0 <= i < m.len(),
        0 <= j < m.len(),
    ensures
        m[i].1 > m[j].1 ==> rank_model(m)[i].1 < rank_model(m)[j].1,
        m[i].1 == m[j].1 ==> rank_model(m)[i].1 == rank_model(m)[j].1,
{
    lemma_counts_set_finite(m);
    lemma_rank_bound(m, m[i].1);
    lemma_rank_bound(m, m[j].1);
    let cs = counts_set(m);
    let ci = m[i].1;
    let cj = m[j].1;
    assert(rank_model(m)[i].1 == rank_of(cs, ci) as usize);
    assert(rank_model(m)[j].1 == rank_of(cs, cj) as usize);
    if ci > cj {
        let hi = cs.filter(gt_pred(ci));
        let lo = cs.filter(gt_pred(cj));
        cs.lemma_len_filter(gt_pred(ci));
        cs.lemma_len_filter(gt_pred(cj));
        assert(cs.contains(ci));
        assert(lo.contains(ci));
        assert(!hi.contains(ci));
        assert(hi.subset_of(lo.remove(ci))) by {
            assert forall|x: usize| hi.contains(x) implies lo.remove(ci).contains(x) by {}
        }
        lo.lemma_len_filter(gt_pred(cj));
        assert(lo.remove(ci).len() == lo.len() - 1) by {
            vstd::set::axiom_set_insert_len(lo.remove(ci), ci);
            assert(lo.remove(ci).insert(ci) =~= lo);
        }
        vstd::set_lib::lemma_len_subset(hi, lo.remove(ci));
        assert(rank_of(cs, ci) < rank_of(cs, cj));
    }
}

/// Determinism: the frequency index, and with it the rank table, is a
/// function of the corpus's word keys alone, so indexing the same input
/// twice yields the identical rank table.
pub proof fn lemma_indexing_deterministic(
    words: Seq<Seq<char>>,
    t1: Seq<(Seq<char>, usize)>,
    t2: Seq<(Seq<char>, usize)>,
)
    requires
        t1 == counts_model(words),
        t2 == counts_model(words),
    ensures
        t1 == t2,
        rank_model(t1) == rank_model(t2),
{
}

} // verus!
