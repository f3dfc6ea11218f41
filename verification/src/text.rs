//! Character-level text processing: tokenization, normalization helpers,
//! lexicographic comparison, decimal rendering and paragraph splitting.
//!
//! Unicode character classification and case folding come from std and are
//! taken on trust behind named spec functions; everything built on top of
//! them is verified.

use vstd::prelude::*;
use vstd::std_specs::iter::IteratorSpec;

verus! {

broadcast use vstd::string::group_string_axioms;

// ---------------------------------------------------------------------------
// Character classes and case folding (std's Unicode tables, taken on trust)
// ---------------------------------------------------------------------------

pub uninterp spec fn space_char(c: char) -> bool;

/// Relies on char::is_whitespace: whether a character has the Unicode
/// `White_Space` property depends on the character alone.
#[verifier::external_body]
pub(crate) fn is_space_char(c: char) -> (r: bool)
    ensures
        r == space_char(c),
{
    c.is_whitespace()
}

pub uninterp spec fn alnum_char(c: char) -> bool;

/// Relies on char::is_alphanumeric: whether a character is a Unicode letter
/// or digit depends on the character alone.
#[verifier::external_body]
pub(crate) fn is_alnum_char(c: char) -> (r: bool)
    ensures
        r == alnum_char(c),
{
    c.is_alphanumeric()
}

pub uninterp spec fn lower_of(s: Seq<char>) -> Seq<char>;

/// Relies on str::to_lowercase: the lowercase form of a string depends on
/// its characters alone.
#[verifier::external_body]
pub(crate) fn lowercase_chars(w: &Vec<char>) -> (r: Vec<char>)
    ensures
        r@ == lower_of(w@),
{
    let s: String = w.iter().collect();
    s.to_lowercase().chars().collect()
}

/// Relies on the std character iterator's `String` collector: the collected
/// string holds exactly the characters of the vector, in order.
#[verifier::external_body]
pub(crate) fn string_from_chars(v: &Vec<char>) -> (r: String)
    ensures
        r@ == v@,
{
    v.iter().collect()
}

/// The characters of a string slice, in order.
pub fn chars_of(s: &str) -> (r: Vec<char>)
    ensures
        r@ == s@,
{
    let mut it = s.chars();
    let mut r: Vec<char> = Vec::new();
    loop
        invariant
            r@ + it.remaining() == s@,
            it.decrease() is Some,
        ensures
            r@ == s@,
        decreases it.decrease()->0,
    {
        match it.next() {
            Some(c) => {
                r.push(c);
            },
            None => {
                proof {
                    assert(it.obeys_prophetic_iter_laws());
                    assert(it.remaining().len() == 0);
                    assert(r@ + it.remaining() =~= r@);
                    assert(r@ =~= s@);
                }
                break ;
            },
        }
    }
    r
}

// ---------------------------------------------------------------------------
// Splitting on whitespace
// ---------------------------------------------------------------------------

/// One step-at-a-time account of splitting `s` on whitespace: `i` characters
/// have been consumed, `cur` is the pending (possibly empty) token and `acc`
/// the finished tokens.
pub open spec fn split_ws_rec(s: Seq<char>, i: int, cur: Seq<char>, acc: Seq<Seq<char>>) -> Seq<
    Seq<char>,
>
    decreases s.len() - i,
{
    if i >= s.len() {
        if cur.len() > 0 {
            acc.push(cur)
        } else {
            acc
        }
    } else if space_char(s[i]) {
        if cur.len() > 0 {
            split_ws_rec(s, i + 1, Seq::empty(), acc.push(cur))
        } else {
            split_ws_rec(s, i + 1, cur, acc)
        }
    } else {
        split_ws_rec(s, i + 1, cur.push(s[i]), acc)
    }
}

/// The maximal runs of non-whitespace characters of `s`, in order.
pub open spec fn split_ws(s: Seq<char>) -> Seq<Seq<char>> {
    split_ws_rec(s, 0, Seq::empty(), Seq::empty())
}

/// Split `s` into whitespace-delimited tokens.
pub fn split_whitespace_tokens(s: &Vec<char>) -> (r: Vec<Vec<char>>)
    ensures
        r.deep_view() == split_ws(s@),
{
    let ghost gs: Seq<char> = s@;
    let mut acc: Vec<Vec<char>> = Vec::new();
    let mut cur: Vec<char> = Vec::new();
    let mut i: usize = 0;
    proof {
        assert(acc.deep_view() =~~= Seq::<Seq<char>>::empty());
        assert(cur@ =~= Seq::<char>::empty());
    }
    while i < s.len()
        invariant
            i <= s.len(),
            s@ == gs,
            split_ws(gs) == split_ws_rec(gs, i as int, cur@, acc.deep_view()),
        decreases s.len() - i,
    {
        let c: char = s[i];
        if is_space_char(c) {
            if cur.len() > 0 {
                let ghost acc0 = acc.deep_view();
                let ghost cur0 = cur@;
                acc.push(cur);
                cur = Vec::new();
                proof {
                    assert(acc.deep_view() =~~= acc0.push(cur0));
                }
            }
        } else {
            cur.push(c);
        }
        i = i + 1;
    }
    if cur.len() > 0 {
        let ghost acc0 = acc.deep_view();
        let ghost cur0 = cur@;
        acc.push(cur);
        proof {
            assert(acc.deep_view() =~~= acc0.push(cur0));
        }
    }
    acc
}

// ---------------------------------------------------------------------------
// Trimming non-alphanumeric edges
// ---------------------------------------------------------------------------

/// The first index at or after `i` holding an alphanumeric character, or the
/// length of `s` if there is none.
pub open spec fn first_alnum_from(s: Seq<char>, i: int) -> int
    decreases s.len() - i,
{
    if i < 0 || i >= s.len() {
        s.len() as int
    } else if alnum_char(s[i]) {
        i
    } else {
        first_alnum_from(s, i + 1)
    }
}

/// One past the last alphanumeric character strictly before `j`, or 0 if
/// there is none.
pub open spec fn last_alnum_before(s: Seq<char>, j: int) -> int
    decreases j,
{
    if j <= 0 {
        0
    } else if alnum_char(s[j - 1]) {
        j
    } else {
        last_alnum_before(s, j - 1)
    }
}

/// `s` with every leading and trailing non-alphanumeric character removed.
pub open spec fn trim_non_alnum(s: Seq<char>) -> Seq<char> {
    let a = first_alnum_from(s, 0);
    let b = last_alnum_before(s, s.len() as int);
    if a < b {
        s.subrange(a, b)
    } else {
        Seq::empty()
    }
}

proof fn lemma_first_alnum_from(s: Seq<char>, i: int)
    requires
        0 <= i <= s.len(),
        forall|k: int| 0 <= k < i ==> !alnum_char(s[k]),
    ensures
        first_alnum_from(s, 0) == first_alnum_from(s, i),
    decreases i,
{
    if i > 0 {
        lemma_first_alnum_from(s, i - 1);
    }
}

proof fn lemma_last_alnum_before(s: Seq<char>, j: int)
    requires
        0 <= j <= s.len(),
        forall|k: int| j <= k < s.len() ==> !alnum_char(s[k]),
    ensures
        last_alnum_before(s, s.len() as int) == last_alnum_before(s, j),
    decreases s.len() - j,
{
    if j < s.len() {
        lemma_last_alnum_before(s, j + 1);
    }
}

proof fn lemma_last_alnum_le(s: Seq<char>, j: int)
    requires
        j >= 0,
    ensures
        0 <= last_alnum_before(s, j) <= j,
    decreases j,
{
    if j > 0 && !alnum_char(s[j - 1]) {
        lemma_last_alnum_le(s, j - 1);
    }
}

/// `s` with leading and trailing non-alphanumeric characters stripped.
pub fn trim_token(s: &Vec<char>) -> (r: Vec<char>)
    ensures
        r@ == trim_non_alnum(s@),
{
    let n: usize = s.len();
    let mut a: usize = 0;
    loop
        invariant
            a <= n,
            n == s@.len(),
            forall|k: int| 0 <= k < a ==> !alnum_char(s@[k]),
        ensures
            a <= n,
            a as int == first_alnum_from(s@, 0),
            a < n ==> alnum_char(s@[a as int]),
            forall|k: int| 0 <= k < a ==> !alnum_char(s@[k]),
        decreases n - a,
    {
        if a == n {
            proof {
                lemma_first_alnum_from(s@, a as int);
            }
            break ;
        }
        let c: char = s[a];
        if is_alnum_char(c) {
            proof {
                lemma_first_alnum_from(s@, a as int);
            }
            break ;
        }
        a = a + 1;
    }
    let mut b: usize = n;
    loop
        invariant
            a <= b <= n,
            n == s@.len(),
            a as int == first_alnum_from(s@, 0),
            a < n ==> alnum_char(s@[a as int]),
            forall|k: int| 0 <= k < a ==> !alnum_char(s@[k]),
            forall|k: int| b <= k < n ==> !alnum_char(s@[k]),
        ensures
            a <= b <= n,
            a < b ==> b as int == last_alnum_before(s@, s@.len() as int),
            a == b ==> trim_non_alnum(s@) == Seq::<char>::empty(),
        decreases b,
    {
        if b == a {
            proof {
                if a == n {
                    lemma_last_alnum_le(s@, n as int);
                } else {
                    assert(!alnum_char(s@[a as int]));
                    assert(false);
                }
            }
            break ;
        }
        let c: char = s[b - 1];
        if is_alnum_char(c) {
            proof {
                lemma_last_alnum_before(s@, b as int);
            }
            break ;
        }
        b = b - 1;
    }
    let mut r: Vec<char> = Vec::new();
    let mut i: usize = a;
    while i < b
        invariant
            a <= i <= b <= n,
            n == s@.len(),
            r@ =~= s@.subrange(a as int, i as int),
        decreases b - i,
    {
        let c: char = s[i];
        r.push(c);
        i = i + 1;
    }
    proof {
        assert(r@ =~= trim_non_alnum(s@));
    }
    r
}

// ---------------------------------------------------------------------------
// Lexicographic order by code point
// ---------------------------------------------------------------------------

/// Strict lexicographic order on character sequences, by code point.
pub open spec fn lex_lt(a: Seq<char>, b: Seq<char>) -> bool
    decreases a.len(),
{
    if b.len() == 0 {
        false
    } else if a.len() == 0 {
        true
    } else if (a[0] as u32) < (b[0] as u32) {
        true
    } else if (b[0] as u32) < (a[0] as u32) {
        false
    } else {
        lex_lt(a.drop_first(), b.drop_first())
    }
}

/// Decide the lexicographic order of two character vectors.
pub fn lex_lt_chars(a: &Vec<char>, b: &Vec<char>) -> (r: bool)
    ensures
        r == lex_lt(a@, b@),
{
    let mut i: usize = 0;
    let mut r: bool = false;
    proof {
        assert(a@.skip(0) =~= a@);
        assert(b@.skip(0) =~= b@);
    }
    loop
        invariant
            i <= a.len(),
            i <= b.len(),
            lex_lt(a@, b@) == lex_lt(a@.skip(i as int), b@.skip(i as int)),
        ensures
            r == lex_lt(a@, b@),
        decreases a.len() - i,
    {
        if i == b.len() {
            r = false;
            break ;
        }
        if i == a.len() {
            r = true;
            break ;
        }
        let ca: char = a[i];
        let cb: char = b[i];
        proof {
            assert(a@.skip(i as int)[0] == a@[i as int]);
            assert(b@.skip(i as int)[0] == b@[i as int]);
        }
        if (ca as u32) < (cb as u32) {
            r = true;
            break ;
        }
        if (cb as u32) < (ca as u32) {
            r = false;
            break ;
        }
        proof {
            assert(a@.skip(i as int).drop_first() =~= a@.skip(i as int + 1));
            assert(b@.skip(i as int).drop_first() =~= b@.skip(i as int + 1));
        }
        i = i + 1;
    }
    r
}

// ---------------------------------------------------------------------------
// Decimal rendering
// ---------------------------------------------------------------------------

/// The character for one decimal digit.
pub open spec fn digit_char(d: int) -> char {
    if d == 0 {
        '0'
    } else if d == 1 {
        '1'
    } else if d == 2 {
        '2'
    } else if d == 3 {
        '3'
    } else if d == 4 {
        '4'
    } else if d == 5 {
        '5'
    } else if d == 6 {
        '6'
    } else if d == 7 {
        '7'
    } else if d == 8 {
        '8'
    } else {
        '9'
    }
}

/// The decimal digits of `n`, most significant first.
pub open spec fn dec_str(n: int) -> Seq<char>
    decreases n,
{
    if n < 10 {
        seq![digit_char(n)]
    } else {
        dec_str(n / 10).push(digit_char(n % 10))
    }
}

fn digit_char_exec(d: usize) -> (c: char)
    requires
        d < 10,
    ensures
        c == digit_char(d as int),
{
    if d == 0 {
        '0'
    } else if d == 1 {
        '1'
    } else if d == 2 {
        '2'
    } else if d == 3 {
        '3'
    } else if d == 4 {
        '4'
    } else if d == 5 {
        '5'
    } else if d == 6 {
        '6'
    } else if d == 7 {
        '7'
    } else if d == 8 {
        '8'
    } else {
        '9'
    }
}

/// Append the decimal rendering of `n` to `out`.
pub fn push_decimal(out: &mut Vec<char>, n: usize)
    ensures
        final(out)@ == old(out)@ + dec_str(n as int),
    decreases n,
{
    if n < 10 {
        let c: char = digit_char_exec(n);
        out.push(c);
        proof {
            assert(out@ =~= old(out)@ + dec_str(n as int));
        }
    } else {
        push_decimal(out, n / 10);
        let c: char = digit_char_exec(n % 10);
        out.push(c);
        proof {
            assert(out@ =~= old(out)@ + dec_str(n as int));
        }
    }
}

// ---------------------------------------------------------------------------
// Paragraph splitting
// ---------------------------------------------------------------------------

/// Step-at-a-time account of splitting `s` on blank-line boundaries (two
/// consecutive newline characters): `i` characters have been consumed, `cur`
/// is the pending fragment and `acc` the finished fragments.
pub open spec fn split_par_rec(s: Seq<char>, i: int, cur: Seq<char>, acc: Seq<Seq<char>>) -> Seq<
    Seq<char>,
>
    decreases s.len() - i,
{
    if i >= s.len() {
        acc.push(cur)
    } else if i + 1 < s.len() && s[i] == '\n' && s[i + 1] == '\n' {
        split_par_rec(s, i + 2, Seq::empty(), acc.push(cur))
    } else {
        split_par_rec(s, i + 1, cur.push(s[i]), acc)
    }
}

/// A fragment is blank when every character of it is whitespace.
pub open spec fn blank(p: Seq<char>) -> bool {
    forall|k: int| 0 <= k < p.len() ==> space_char(p[k])
}

/// The non-blank fragments of `s` between blank-line boundaries, in order.
pub open spec fn paragraphs_of(s: Seq<char>) -> Seq<Seq<char>> {
    split_par_rec(s, 0, Seq::empty(), Seq::empty()).filter(|p: Seq<char>| !blank(p))
}

/// Whether every character of `p` is whitespace.
pub fn is_blank(p: &Vec<char>) -> (r: bool)
    ensures
        r == blank(p@),
{
    let mut k: usize = 0;
    let mut r: bool = true;
    loop
        invariant
            k <= p.len(),
            forall|j: int| 0 <= j < k ==> space_char(p@[j]),
        ensures
            r == blank(p@),
        decreases p.len() - k,
    {
        if k == p.len() {
            r = true;
            break ;
        }
        let c: char = p[k];
        if !is_space_char(c) {
            proof {
                assert(!blank(p@));
            }
            r = false;
            break ;
        }
        k = k + 1;
    }
    r
}

pub(crate) proof fn lemma_filter_push(s: Seq<Seq<char>>, p: spec_fn(Seq<char>) -> bool, e: Seq<char>)
    ensures
        s.push(e).filter(p) == if p(e) {
            s.filter(p).push(e)
        } else {
            s.filter(p)
        },
{
    reveal(Seq::filter);
    assert(s.push(e).drop_last() =~= s);
    assert(s.push(e).last() == e);
}

/// Split `s` into its non-blank paragraphs.
pub fn split_paragraphs(s: &Vec<char>) -> (r: Vec<String>)
    ensures
        r.deep_view() == paragraphs_of(s@),
{
    let ghost gs: Seq<char> = s@;
    let n: usize = s.len();
    let mut raw: Vec<Vec<char>> = Vec::new();
    let mut cur: Vec<char> = Vec::new();
    let mut i: usize = 0;
    proof {
        assert(raw.deep_view() =~~= Seq::<Seq<char>>::empty());
        assert(cur@ =~= Seq::<char>::empty());
    }
    while i < n
        invariant
            i <= n,
            n == s@.len(),
            s@ == gs,
            split_par_rec(gs, 0, Seq::empty(), Seq::empty()) == split_par_rec(
                gs,
                i as int,
                cur@,
                raw.deep_view(),
            ),
        decreases n - i,
    {
        let two_newlines: bool = if i + 1 < n {
            let c0: char = s[i];
            let c1: char = s[i + 1];
            c0 == '\n' && c1 == '\n'
        } else {
            false
        };
        if two_newlines {
            let ghost raw0 = raw.deep_view();
            let ghost cur0 = cur@;
            raw.push(cur);
            cur = Vec::new();
            proof {
                assert(raw.deep_view() =~~= raw0.push(cur0));
            }
            i = i + 2;
        } else {
            let c: char = s[i];
            cur.push(c);
            i = i + 1;
        }
    }
    let ghost raw0 = raw.deep_view();
    let ghost cur0 = cur@;
    raw.push(cur);
    proof {
        assert(raw.deep_view() =~~= raw0.push(cur0));
        assert(raw.deep_view() == split_par_rec(gs, 0, Seq::empty(), Seq::empty()));
    }
    let mut out: Vec<String> = Vec::new();
    let mut j: usize = 0;
    proof {
        assert(out.deep_view() =~~= Seq::<Seq<char>>::empty());
        assert(raw.deep_view().take(0) =~= Seq::<Seq<char>>::empty());
        assert(Seq::<Seq<char>>::empty().filter(|p: Seq<char>| !blank(p)) =~= Seq::<
            Seq<char>,
        >::empty()) by {
            reveal(Seq::filter);
        }
    }
    while j < raw.len()
        invariant
            j <= raw.len(),
            raw.deep_view() == split_par_rec(gs, 0, Seq::empty(), Seq::empty()),
            out.deep_view() == raw.deep_view().take(j as int).filter(|p: Seq<char>| !blank(p)),
        decreases raw.len() - j,
    {
        let frag: &Vec<char> = &raw[j];
        let ghost outv = out.deep_view();
        let keep: bool = !is_blank(frag);
        if keep {
            let piece: String = string_from_chars(frag);
            out.push(piece);
            proof {
                assert(out.deep_view() =~~= outv.push(frag@));
            }
        }
        proof {
            let pred = |p: Seq<char>| !blank(p);
            let tv = raw.deep_view().take(j as int);
            lemma_filter_push(tv, pred, frag@);
            assert(raw.deep_view().take(j as int + 1) =~~= tv.push(frag@));
        }
        j = j + 1;
    }
    proof {
        assert(raw.deep_view().take(raw.len() as int) =~= raw.deep_view());
        assert(out.deep_view() == paragraphs_of(gs));
    }
    out
}

/// The number of whitespace-delimited tokens of `s`.
pub fn count_ws_tokens(s: &Vec<char>) -> (r: usize)
    ensures
        r == split_ws(s@).len(),
{
    let tokens = split_whitespace_tokens(s);
    proof {
        assert(tokens.deep_view().len() == tokens@.len());
    }
    tokens.len()
}

} // verus!
