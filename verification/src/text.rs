//! Character-level primitives: conversions between strings and character
//! vectors, the delimiter classification shared by the tokenizer and the
//! token filter, splitting a character sequence at delimiters, and parsing
//! sentence ids.
use vstd::prelude::*;

verus! {

// ---------------------------------------------------------------------------
// Conversions between Rust strings and character vectors.
// ---------------------------------------------------------------------------

/// Relies on str::chars: yields exactly the characters of the slice, in
/// order, which is the slice's view.
#[verifier::external_body]
pub fn chars_of(s: &str) -> (r: Vec<char>)
    ensures
        r@ == s@,
{
    s.chars().collect()
}

/// Relies on String's FromIterator over char: collecting characters builds
/// the string whose characters are exactly those collected, in order.
#[verifier::external_body]
pub fn string_from_chars(v: &Vec<char>) -> (r: String)
    ensures
        r@ == v@,
{
    v.iter().collect()
}

// ---------------------------------------------------------------------------
// Character classes.
// ---------------------------------------------------------------------------

/// Whether a character is numeric in the Unicode sense, as
/// char::is_numeric decides it.
pub uninterp spec fn numeric_char(c: char) -> bool;

/// Relies on char::is_numeric: true exactly for characters in the Unicode
/// general categories Nd, Nl and No - a property of the character alone.
#[verifier::external_body]
pub fn is_numeric_char(c: char) -> (r: bool)
    ensures
        r == numeric_char(c),
{
    c.is_numeric()
}

/// Whether a character has the Unicode White_Space property, as
/// char::is_whitespace decides it.
pub uninterp spec fn white_space_char(c: char) -> bool;

/// Relies on char::is_whitespace: true exactly for characters with the
/// Unicode White_Space property - a property of the character alone.
#[verifier::external_body]
pub fn is_white_space_char(c: char) -> (r: bool)
    ensures
        r == white_space_char(c),
{
    c.is_whitespace()
}

/// ASCII punctuation: the four blocks U+0021..U+002F, U+003A..U+0040,
/// U+005B..U+0060 and U+007B..U+007E.
pub open spec fn ascii_punct(c: char) -> bool {
    let u = c as u32;
    (0x21 <= u && u <= 0x2f) || (0x3a <= u && u <= 0x40) || (0x5b <= u && u <= 0x60) || (0x7b <= u
        && u <= 0x7e)
}

/// The extra delimiter characters beyond whitespace and ASCII punctuation:
/// common CJK-adjacent punctuation marks.
pub open spec fn cjk_delimiter(c: char) -> bool {
    c == '\u{201c}' || c == '\u{201d}' || c == '\u{3002}' || c == '\u{ff0c}' || c == '\u{ff1f}'
        || c == '\u{2026}' || c == '\u{ff01}' || c == '\u{3001}' || c == '\u{ff1a}'
}

/// A character that separates tokens: whitespace, ASCII punctuation or one
/// of the configured CJK punctuation marks - except the apostrophe, which
/// is never a delimiter so that contractions survive tokenization.
pub open spec fn spec_split_char(c: char) -> bool {
    c != '\'' && (cjk_delimiter(c) || white_space_char(c) || ascii_punct(c))
}

pub fn is_split_char(c: char) -> (r: bool)
    ensures
        r == spec_split_char(c),
{
    if c == '\'' {
        false
    } else if c == '\u{201c}' || c == '\u{201d}' || c == '\u{3002}' || c == '\u{ff0c}' || c
        == '\u{ff1f}' || c == '\u{2026}' || c == '\u{ff01}' || c == '\u{3001}' || c == '\u{ff1a}' {
        true
    } else if is_white_space_char(c) {
        true
    } else {
        let u = c as u32;
        (0x21 <= u && u <= 0x2f) || (0x3a <= u && u <= 0x40) || (0x5b <= u && u <= 0x60) || (0x7b
            <= u && u <= 0x7e)
    }
}

// ---------------------------------------------------------------------------
// Splitting a character sequence at delimiters.
// ---------------------------------------------------------------------------

/// Index of the first character satisfying `p`, or `s.len()` if none does.
pub open spec fn first_where(s: Seq<char>, p: spec_fn(char) -> bool) -> int
    decreases s.len(),
{
    if s.len() == 0 {
        0
    } else if p(s[0]) {
        0
    } else {
        1 + first_where(s.drop_first(), p)
    }
}

pub proof fn lemma_first_where(s: Seq<char>, p: spec_fn(char) -> bool)
    ensures
        0 <= first_where(s, p) <= s.len(),
        first_where(s, p) < s.len() ==> p(s[first_where(s, p)]),
        forall|k: int| 0 <= k < first_where(s, p) ==> !p(s[k]),
    decreases s.len(),
{
    if s.len() == 0 {
    } else if p(s[0]) {
    } else {
        lemma_first_where(s.drop_first(), p);
        assert forall|k: int| 0 <= k < first_where(s, p) implies !p(s[k]) by {
            if k > 0 {
                assert(s[k] == s.drop_first()[k - 1]);
            }
        }
    }
}

/// The pieces of `s` between characters satisfying `p`, in order.  Empty
/// pieces are kept (adjacent delimiters, or a delimiter at either end), so
/// the result always has one more piece than there are delimiters; in
/// particular it is never empty.
pub open spec fn split_by(s: Seq<char>, p: spec_fn(char) -> bool) -> Seq<Seq<char>>
    decreases s.len(),
{
    let i = first_where(s, p);
    if 0 <= i < s.len() {
        seq![s.take(i)] + split_by(s.skip(i + 1), p)
    } else {
        seq![s]
    }
}

pub proof fn lemma_split_by_len(s: Seq<char>, p: spec_fn(char) -> bool)
    ensures
        split_by(s, p).len() >= 1,
    decreases s.len(),
{
    lemma_first_where(s, p);
    let i = first_where(s, p);
    if i < s.len() {
        lemma_split_by_len(s.skip(i + 1), p);
    }
}

proof fn lemma_first_where_push(s: Seq<char>, p: spec_fn(char) -> bool, c: char)
    ensures
        first_where(s, p) < s.len() ==> first_where(s.push(c), p) == first_where(s, p),
        first_where(s, p) == s.len() ==> first_where(s.push(c), p) == (if p(c) {
            s.len() as int
        } else {
            s.len() + 1 as int
        }),
    decreases s.len(),
{
    lemma_first_where(s, p);
    if s.len() == 0 {
        assert(s.push(c)[0] == c);
        if !p(c) {
            assert(first_where(s.push(c).drop_first(), p) == 0);
        }
    } else {
        assert(s.push(c)[0] == s[0]);
        assert(s.push(c).drop_first() =~= s.drop_first().push(c));
        lemma_first_where_push(s.drop_first(), p, c);
        if !p(s[0]) {
            assert(first_where(s.push(c), p) == 1 + first_where(s.drop_first().push(c), p));
            if first_where(s, p) == s.len() {
                assert(first_where(s.drop_first(), p) == s.drop_first().len());
            }
        }
    }
}

/// Appending a delimiter starts a fresh empty piece; appending any other
/// character extends the last piece.
pub proof fn lemma_split_by_push(s: Seq<char>, p: spec_fn(char) -> bool, c: char)
    ensures
        p(c) ==> split_by(s.push(c), p) == split_by(s, p).push(Seq::<char>::empty()),
        !p(c) ==> split_by(s.push(c), p) == split_by(s, p).drop_last().push(
            split_by(s, p).last().push(c),
        ),
    decreases s.len(),
{
    lemma_first_where(s, p);
    lemma_first_where_push(s, p, c);
    lemma_split_by_len(s, p);
    let i = first_where(s, p);
    if i == s.len() {
        if p(c) {
            assert(s.push(c).take(s.len() as int) =~= s);
            assert(s.push(c).skip(s.len() + 1 as int) =~= Seq::<char>::empty());
            assert(first_where(Seq::<char>::empty(), p) == 0);
            assert(split_by(Seq::<char>::empty(), p) =~= seq![Seq::<char>::empty()]);
            assert(split_by(s.push(c), p) =~= seq![s].push(Seq::<char>::empty()));
        } else {
            assert(split_by(s.push(c), p) =~= seq![s.push(c)]);
            assert(split_by(s, p).drop_last() =~= Seq::<Seq<char>>::empty());
            assert(split_by(s, p).drop_last().push(split_by(s, p).last().push(c)) =~= seq![
                s.push(c),
            ]);
        }
    } else {
        assert(s.push(c).take(i) =~= s.take(i));
        assert(s.push(c).skip(i + 1) =~= s.skip(i + 1).push(c));
        lemma_split_by_push(s.skip(i + 1), p, c);
        lemma_split_by_len(s.skip(i + 1), p);
        let rest = split_by(s.skip(i + 1), p);
        if p(c) {
            assert((seq![s.take(i)] + rest.push(Seq::<char>::empty())) =~= (seq![s.take(i)]
                + rest).push(Seq::<char>::empty()));
        } else {
            assert((seq![s.take(i)] + rest).last() == rest.last());
            assert((seq![s.take(i)] + rest.drop_last().push(rest.last().push(c))) =~= (seq![
                s.take(i),
            ] + rest).drop_last().push(rest.last().push(c)));
        }
    }
}

/// The views of a vector of character vectors.
pub open spec fn views(ts: Seq<Vec<char>>) -> Seq<Seq<char>> {
    ts.map_values(|t: Vec<char>| t@)
}

/// Split at token delimiters (`spec_split_char`), the default tokenizer.
#[verifier::loop_isolation(false)]
pub fn split_tokens(v: &Vec<char>) -> (r: Vec<Vec<char>>)
    ensures
        views(r@) == split_by(v@, |c: char| spec_split_char(c)),
{
    let ghost p = |c: char| spec_split_char(c);
    let mut out: Vec<Vec<char>> = Vec::new();
    let mut cur: Vec<char> = Vec::new();
    proof {
        assert(v@.take(0) =~= Seq::<char>::empty());
        assert(views(out@).push(cur@) =~= split_by(v@.take(0), p));
    }
    let n = v.len();
    for i in 0..n
        invariant
            n == v.len(),
            views(out@).push(cur@) == split_by(v@.take(i as int), p),
    {
        let c = v[i];
        proof {
            assert(v@.take(i + 1) =~= v@.take(i as int).push(c));
            lemma_split_by_push(v@.take(i as int), p, c);
        }
        if is_split_char(c) {
            let ghost oldout = out@;
            let ghost oldcurv = cur;
            out.push(cur);
            cur = Vec::new();
            proof {
                assert(p(c));
                assert(split_by(v@.take(i as int).push(c), p) == split_by(v@.take(i as int), p).push(
                    Seq::<char>::empty(),
                ));
                assert(out@ == oldout.push(oldcurv));
                assert(views(out@).push(cur@) =~= split_by(v@.take(i + 1), p));
            }
        } else {
            cur.push(c);
            proof {
                let prev = split_by(v@.take(i as int), p);
                assert(!p(c));
                assert(views(out@).push(cur@) =~= prev.drop_last().push(prev.last().push(c)));
            }
        }
    }
    out.push(cur);
    proof {
        assert(v@.take(v@.len() as int) =~= v@);
        assert(views(out@) =~= split_by(v@, p));
    }
    out
}

/// Split at tab characters, the corpus and link file column separator.
#[verifier::loop_isolation(false)]
pub fn split_cells(v: &Vec<char>) -> (r: Vec<Vec<char>>)
    ensures
        views(r@) == split_by(v@, |c: char| c == '\t'),
        r@.len() >= 1,
{
    let ghost p = |c: char| c == '\t';
    let mut out: Vec<Vec<char>> = Vec::new();
    let mut cur: Vec<char> = Vec::new();
    proof {
        assert(v@.take(0) =~= Seq::<char>::empty());
        assert(views(out@).push(cur@) =~= split_by(v@.take(0), p));
    }
    let n = v.len();
    for i in 0..n
        invariant
            n == v.len(),
            views(out@).push(cur@) == split_by(v@.take(i as int), p),
    {
        let c = v[i];
        proof {
            assert(v@.take(i + 1) =~= v@.take(i as int).push(c));
            lemma_split_by_push(v@.take(i as int), p, c);
        }
        if c == '\t' {
            out.push(cur);
            cur = Vec::new();
            proof {
                assert(views(out@).push(cur@) =~= split_by(v@.take(i + 1), p));
            }
        } else {
            cur.push(c);
            proof {
                let prev = split_by(v@.take(i as int), p);
                assert(views(out@).push(cur@) =~= prev.drop_last().push(prev.last().push(c)));
            }
        }
    }
    out.push(cur);
    proof {
        assert(v@.take(v@.len() as int) =~= v@);
        assert(views(out@) =~= split_by(v@, p));
        lemma_split_by_len(v@, p);
    }
    out
}

// ---------------------------------------------------------------------------
// Character vector equality.
// ---------------------------------------------------------------------------

pub fn chars_eq(a: &Vec<char>, b: &Vec<char>) -> (r: bool)
    ensures
        r == (a@ == b@),
{
    if a.len() != b.len() {
        return false;
    }
    let n = a.len();
    for i in 0..n
        invariant
            n == a.len() == b.len(),
            forall|k: int| 0 <= k < i ==> a@[k] == b@[k],
    {
        if a[i] != b[i] {
            return false;
        }
    }
    proof {
        assert(a@ =~= b@);
    }
    true
}

// ---------------------------------------------------------------------------
// Lexicographic order on character sequences.
// ---------------------------------------------------------------------------

/// Lexicographic order by character scalar value, the order the standard
/// string comparison uses; a prefix sorts before its extensions.
pub open spec fn lex_le(a: Seq<char>, b: Seq<char>) -> bool
    decreases a.len(),
{
    if a.len() == 0 {
        true
    } else if b.len() == 0 {
        false
    } else if a[0] as u32 == b[0] as u32 {
        lex_le(a.drop_first(), b.drop_first())
    } else {
        (a[0] as u32) < (b[0] as u32)
    }
}

pub proof fn lemma_lex_total(a: Seq<char>, b: Seq<char>)
    ensures
        lex_le(a, b) || lex_le(b, a),
    decreases a.len(),
{
    if a.len() > 0 && b.len() > 0 && a[0] as u32 == b[0] as u32 {
        lemma_lex_total(a.drop_first(), b.drop_first());
    }
}

pub proof fn lemma_lex_trans(a: Seq<char>, b: Seq<char>, c: Seq<char>)
    requires
        lex_le(a, b),
        lex_le(b, c),
    ensures
        lex_le(a, c),
    decreases a.len(),
{
    if a.len() > 0 && b.len() > 0 && c.len() > 0 {
        if a[0] as u32 == b[0] as u32 && b[0] as u32 == c[0] as u32 {
            lemma_lex_trans(a.drop_first(), b.drop_first(), c.drop_first());
        }
    }
}

/// Decide the lexicographic order from position `i` on, the prefixes
/// before `i` being equal.
#[verifier::loop_isolation(false)]
fn lex_le_at(a: &Vec<char>, b: &Vec<char>, i: usize) -> (r: bool)
    requires
        i <= a.len(),
        i <= b.len(),
    ensures
        r == lex_le(a@.skip(i as int), b@.skip(i as int)),
    decreases a@.len() - i,
{
    if i == a.len() {
        proof {
            assert(a@.skip(i as int) =~= Seq::<char>::empty());
        }
        return true;
    }
    if i == b.len() {
        proof {
            assert(b@.skip(i as int) =~= Seq::<char>::empty());
            assert(a@.skip(i as int).len() > 0);
        }
        return false;
    }
    proof {
        assert(a@.skip(i as int)[0] == a@[i as int]);
        assert(b@.skip(i as int)[0] == b@[i as int]);
        assert(a@.skip(i as int).drop_first() =~= a@.skip(i + 1));
        assert(b@.skip(i as int).drop_first() =~= b@.skip(i + 1));
    }
    if (a[i] as u32) == (b[i] as u32) {
        lex_le_at(a, b, i + 1)
    } else {
        (a[i] as u32) < (b[i] as u32)
    }
}

pub fn lex_le_chars(a: &Vec<char>, b: &Vec<char>) -> (r: bool)
    ensures
        r == lex_le(a@, b@),
{
    proof {
        assert(a@.skip(0) =~= a@);
        assert(b@.skip(0) =~= b@);
    }
    lex_le_at(a, b, 0)
}

// ---------------------------------------------------------------------------
// Sentence id parsing.
// ---------------------------------------------------------------------------

pub open spec fn is_digit(c: char) -> bool {
    0x30 <= c as u32 && c as u32 <= 0x39
}

pub open spec fn digit_val(c: char) -> nat {
    (c as u32 - 0x30) as nat
}

/// The value of a digit string read in base ten.
pub open spec fn digits_val(s: Seq<char>) -> nat
    decreases s.len(),
{
    if s.len() == 0 {
        0
    } else {
        digits_val(s.drop_last()) * 10 + digit_val(s.last())
    }
}

/// The digits of an id: an optional leading plus sign is allowed, as the
/// standard unsigned integer parser allows it.
pub open spec fn digits_part(s: Seq<char>) -> Seq<char> {
    if s.len() > 0 && s[0] == '+' {
        s.drop_first()
    } else {
        s
    }
}

/// The id a cell denotes: its digits read in base ten, provided the cell is
/// nonempty digits after the optional sign and the value fits in usize.
pub open spec fn parse_id(s: Seq<char>) -> Option<usize> {
    let d = digits_part(s);
    if d.len() > 0 && (forall|i: int| 0 <= i < d.len() ==> is_digit(d[i])) && digits_val(d)
        <= usize::MAX {
        Some(digits_val(d) as usize)
    } else {
        None
    }
}

proof fn lemma_digits_val_take_step(d: Seq<char>, k: int)
    requires
        0 <= k < d.len(),
    ensures
        digits_val(d.take(k + 1)) == digits_val(d.take(k)) * 10 + digit_val(d[k]),
{
    assert(d.take(k + 1).drop_last() =~= d.take(k));
    assert(d.take(k + 1).last() == d[k]);
}

#[verifier::loop_isolation(false)]
pub fn parse_usize_chars(v: &Vec<char>) -> (r: Option<usize>)
    ensures
        r == parse_id(v@),
{
    let ghost d = digits_part(v@);
    let start: usize = if v.len() > 0 && v[0] == '+' {
        1
    } else {
        0
    };
    proof {
        assert(d =~= v@.skip(start as int));
    }
    if v.len() == start {
        return None;
    }
    let mut acc: usize = 0;
    let n = v.len();
    proof {
        assert(d.take(0) =~= Seq::<char>::empty());
    }
    for i in start..n
        invariant
            n == v.len(),
            start <= i <= n,
            start == 0 || (v@.len() > 0 && v@[0] == '+' && start == 1),
            d == digits_part(v@),
            d == v@.skip(start as int),
            forall|k: int| 0 <= k < i - start ==> is_digit(d[k]),
            acc == digits_val(d.take(i - start)),
    {
        let c = v[i];
        proof {
            assert(d[i - start] == v@[i as int]);
        }
        let u = c as u32;
        if u < 0x30 || u > 0x39 {
            proof {
                assert(!is_digit(d[i - start]));
            }
            return None;
        }
        let dv: usize = (u as usize) - 0x30;
        let stepped = match acc.checked_mul(10) {
            Some(m) => m.checked_add(dv),
            None => None,
        };
        match stepped {
            Some(next) => {
                proof {
                    lemma_digits_val_take_step(d, i - start);
                }
                acc = next;
            },
            None => {
                proof {
                    lemma_digits_val_take_step(d, i - start);
                    assert(digits_val(d.take(i - start + 1)) > usize::MAX);
                    lemma_digits_val_prefix_le(d, i - start + 1);
                }
                return None;
            },
        }
    }
    proof {
        assert(d.take(n - start) =~= d);
    }
    Some(acc)
}

/// The value of a digit string is at least the value of any of its prefixes.
pub proof fn lemma_digits_val_prefix_le(s: Seq<char>, k: int)
    requires
        0 <= k <= s.len(),
    ensures
        digits_val(s.take(k)) <= digits_val(s),
    decreases s.len(),
{
    if k == s.len() {
        assert(s.take(k) =~= s);
    } else {
        assert(s.take(k) =~= s.drop_last().take(k));
        lemma_digits_val_prefix_le(s.drop_last(), k);
        assert(digits_val(s.drop_last()) * 10 >= digits_val(s.drop_last())) by (nonlinear_arith);
    }
}

} // verus!
