//! The normalizer/filter: the one pure token-to-word-key function shared by
//! the frequency-counting pass and the scoring pass.  A raw token is
//! rejected if it is empty, contains a numeric character, or still contains
//! a delimiter character; an accepted token is canonically composed (NFC)
//! and then uppercase-folded into its word key.
use vstd::prelude::*;
use unicode_normalization::UnicodeNormalization;
use crate::text::{is_numeric_char, is_split_char, numeric_char, spec_split_char, views};

verus! {

/// What unicode_normalization's nfc yields for a character sequence: its
/// canonical composition, a function of the characters alone.
pub uninterp spec fn nfc_of(s: Seq<char>) -> Seq<char>;

/// Relies on unicode_normalization's UnicodeNormalization::nfc over a char
/// iterator: the canonically composed (NFC) character sequence, a function
/// of the input characters alone.
#[verifier::external_body]
fn nfc_chars(v: &Vec<char>) -> (r: Vec<char>)
    ensures
        r@ == nfc_of(v@),
{
    v.iter().copied().nfc().collect()
}

/// What str::to_uppercase yields for a character sequence: its Unicode
/// uppercase folding, a function of the characters alone.
pub uninterp spec fn upper_of(s: Seq<char>) -> Seq<char>;

/// Relies on str::to_uppercase: the uppercased character sequence, a
/// function of the input characters alone.
#[verifier::external_body]
fn upper_chars(v: &Vec<char>) -> (r: Vec<char>)
    ensures
        r@ == upper_of(v@),
{
    let s: String = v.iter().collect();
    s.to_uppercase().chars().collect()
}

/// The canonical word key of a raw token: canonical composition, then
/// uppercase folding.
pub open spec fn canon(t: Seq<char>) -> Seq<char> {
    upper_of(nfc_of(t))
}

pub fn canon_token(t: &Vec<char>) -> (r: Vec<char>)
    ensures
        r@ == canon(t@),
{
    let composed = nfc_chars(t);
    upper_chars(&composed)
}

/// Whether a raw token passes the shared filter: nonempty, no numeric
/// character, and no residual delimiter character.
pub open spec fn keep(t: Seq<char>) -> bool {
    &&& t.len() > 0
    &&& !(exists|i: int| 0 <= i < t.len() && numeric_char(t[i]))
    &&& !(exists|i: int| 0 <= i < t.len() && spec_split_char(t[i]))
}

#[verifier::loop_isolation(false)]
pub fn keep_token(t: &Vec<char>) -> (r: bool)
    ensures
        r == keep(t@),
{
    if t.len() == 0 {
        return false;
    }
    let n = t.len();
    for i in 0..n
        invariant
            forall|k: int| 0 <= k < i ==> !numeric_char(t@[k]) && !spec_split_char(t@[k]),
    {
        if is_numeric_char(t[i]) {
            return false;
        }
        if is_split_char(t[i]) {
            return false;
        }
    }
    true
}

/// The shared filter, as a predicate value.
pub open spec fn keep_pred() -> spec_fn(Seq<char>) -> bool {
    |t: Seq<char>| keep(t)
}

/// Canonicalization, as a function value.
pub open spec fn canon_fn() -> spec_fn(Seq<char>) -> Seq<char> {
    |t: Seq<char>| canon(t)
}

/// The word keys a token sequence contributes: the tokens that pass the
/// shared filter, canonicalized, in their original order.
pub open spec fn word_keys(tokens: Seq<Seq<char>>) -> Seq<Seq<char>> {
    tokens.filter(keep_pred()).map_values(canon_fn())
}

/// Both corpus passes obtain their word keys through this function, so a
/// raw token rejected by the filter is rejected by both.
#[verifier::loop_isolation(false)]
pub fn filtered_words(tokens: &Vec<Vec<char>>) -> (r: Vec<Vec<char>>)
    ensures
        views(r@) == word_keys(views(tokens@)),
{
    let ghost ts = views(tokens@);
    let mut out: Vec<Vec<char>> = Vec::new();
    proof {
        assert(ts.take(0) =~= Seq::<Seq<char>>::empty());
        assert(Seq::<Seq<char>>::empty().filter(keep_pred()) =~= Seq::<Seq<char>>::empty());
        assert(views(out@) =~= word_keys(ts.take(0)));
    }
    let n = tokens.len();
    for i in 0..n
        invariant
            n == tokens.len(),
            views(out@) == word_keys(ts.take(i as int)),
    {
        proof {
            assert(ts.take(i + 1) =~= ts.take(i as int).push(ts[i as int]));
            broadcast use vstd::prelude::Seq::lemma_filter_push;

            assert(ts[i as int] == tokens@[i as int]@);
        }
        let token = &tokens[i];
        if keep_token(token) {
            let key = canon_token(token);
            let ghost oldout = out@;
            out.push(key);
            proof {
                let kept = ts.take(i as int).filter(keep_pred());
                assert(keep_pred()(ts[i as int]));
                assert(ts.take(i + 1).filter(keep_pred()) == kept.push(ts[i as int]));
                assert(views(oldout) == kept.map_values(canon_fn()));
                assert(out@ == oldout.push(key));
                assert(key@ == canon(ts[i as int]));
                assert(canon_fn()(ts[i as int]) == canon(ts[i as int]));
                assert(views(out@) =~= views(oldout).push(key@));
                assert(kept.push(ts[i as int]).map_values(canon_fn()) =~= kept.map_values(
                    canon_fn(),
                ).push(canon(ts[i as int])));
                assert(views(out@) =~= kept.push(ts[i as int]).map_values(canon_fn()));
            }
        } else {
            proof {
                assert(!keep_pred()(ts[i as int]));
                assert(views(out@) =~= word_keys(ts.take(i + 1)));
            }
        }
    }
    proof {
        assert(ts.take(n as int) =~= ts);
    }
    out
}

/// The shared-filter guarantee: a raw token the filter rejects contributes
/// no word key, so dropping it changes nothing about what either the
/// frequency-counting pass or the scoring pass sees.
pub proof fn lemma_shared_filter(tokens: Seq<Seq<char>>, j: int)
    requires
        0 <= j < tokens.len(),
        !keep(tokens[j]),
    ensures
        word_keys(tokens) == word_keys(tokens.remove(j)),
    decreases tokens.len(),
{
    broadcast use vstd::prelude::Seq::lemma_filter_push;

    let p = keep_pred();
    if tokens.len() == 0 {
    } else if j == tokens.len() - 1 {
        assert(!p(tokens.last()));
        assert(tokens.drop_last().push(tokens.last()) =~= tokens);
        assert(tokens.remove(j) =~= tokens.drop_last());
        assert(tokens.drop_last().push(tokens.last()).filter(p) == tokens.drop_last().filter(p));
    } else {
        let shorter = tokens.drop_last();
        lemma_shared_filter(shorter, j);
        assert(shorter.push(tokens.last()) =~= tokens);
        assert(tokens.remove(j) =~= shorter.remove(j).push(tokens.last()));
        assert(tokens.filter(p) == push_if(shorter.filter(p), tokens.last(), p));
        assert(tokens.remove(j).filter(p) == push_if(
            shorter.remove(j).filter(p),
            tokens.last(),
            p,
        ));
        let a = shorter.filter(p);
        let b = shorter.remove(j).filter(p);
        if p(tokens.last()) {
            assert(a.push(tokens.last()).map_values(canon_fn()) =~= a.map_values(
                canon_fn(),
            ).push(canon(tokens.last())));
            assert(b.push(tokens.last()).map_values(canon_fn()) =~= b.map_values(
                canon_fn(),
            ).push(canon(tokens.last())));
        }
    }
}

/// `push` the element only where the predicate holds; names the common
/// shape of `filter` over `push`.
pub open spec fn push_if(s: Seq<Seq<char>>, t: Seq<char>, p: spec_fn(Seq<char>) -> bool) -> Seq<
    Seq<char>,
> {
    if p(t) {
        s.push(t)
    } else {
        s
    }
}

} // verus!
