//! Frequency-based keyword summarization.
//!
//! A text is split on whitespace, each token is lowercased and stripped of
//! non-alphanumeric edges, short tokens and (optionally) stopwords are
//! dropped, and the surviving tokens are ranked by descending frequency with
//! lexicographic tie-break. The top entries are rendered as
//! `"word (count)"`, joined by `", "`.

use crate::text::{
    chars_of, lex_lt, lower_of, lowercase_chars, split_whitespace_tokens, split_ws,
    string_from_chars, trim_non_alnum, trim_token, lemma_filter_push, push_decimal, dec_str,
};
use vstd::multiset::Multiset;
use vstd::pervasive::VecAdditionalExecFns;
use vstd::prelude::*;
use vstd::string::StringExecFns;

verus! {

broadcast use vstd::seq_lib::group_filter_ensures;

/// Options for one summarization: how many keywords to return, the minimum
/// token length that qualifies, and whether the stopword set is filtered out.
#[derive(Clone, Copy, Debug, PartialEq, Eq, Structural)]
pub struct SummaryOptions {
    pub length: usize,
    pub min_word_length: usize,
    pub exclude_common: bool,
}

/// The default maximum number of keywords in a summary.
pub fn default_summary_length() -> (r: usize)
    ensures
        r == 20,
{
    20
}

/// The default minimum token length that qualifies for the summary.
pub fn default_min_word_length() -> (r: usize)
    ensures
        r == 4,
{
    4
}

/// The options the ingestion pipeline summarizes with: defaults, with the
/// stopword filter switched on.
pub open spec fn ingest_options() -> SummaryOptions {
    SummaryOptions { length: 20, min_word_length: 4, exclude_common: true }
}

impl SummaryOptions {
    /// The options used at the API boundary when none are supplied.
    pub fn api_defaults() -> (r: SummaryOptions)
        ensures
            r == (SummaryOptions { length: 20, min_word_length: 4, exclude_common: false }),
    {
        SummaryOptions { length: default_summary_length(), min_word_length: default_min_word_length(), exclude_common: false }
    }

    /// The options the ingestion pipeline summarizes with.
    pub fn ingest_defaults() -> (r: SummaryOptions)
        ensures
            r == ingest_options(),
    {
        SummaryOptions { length: default_summary_length(), min_word_length: default_min_word_length(), exclude_common: true }
    }
}

// ---------------------------------------------------------------------------
// The model of the algorithm
// ---------------------------------------------------------------------------

/// The character sequences of a vector of character vectors.
pub open spec fn views(vs: Seq<Vec<char>>) -> Seq<Seq<char>> {
    vs.map_values(|v: Vec<char>| v@)
}

/// The curated stopword set, compared case-sensitively against tokens that
/// have already been lowercased.
pub open spec fn is_stopword(w: Seq<char>) -> bool {
    ||| w == "the"@
    ||| w == "and"@
    ||| w == "a"@
    ||| w == "to"@
    ||| w == "of"@
    ||| w == "in"@
    ||| w == "is"@
    ||| w == "it"@
    ||| w == "you"@
    ||| w == "that"@
    ||| w == "he"@
    ||| w == "was"@
    ||| w == "for"@
    ||| w == "on"@
    ||| w == "are"@
    ||| w == "with"@
    ||| w == "as"@
    ||| w == "this"@
    ||| w == "from"@
    ||| w == "have"@
    ||| w == "been"@
    ||| w == "has"@
    ||| w == "had"@
    ||| w == "not"@
    ||| w == "what"@
    ||| w == "all"@
    ||| w == "were"@
    ||| w == "when"@
    ||| w == "we"@
    ||| w == "there"@
    ||| w == "can"@
    ||| w == "an"@
    ||| w == "which"@
    ||| w == "their"@
    ||| w == "said"@
    ||| w == "if"@
    ||| w == "will"@
    ||| w == "would"@
    ||| w == "about"@
    ||| w == "them"@
    ||| w == "then"@
    ||| w == "she"@
    ||| w == "many"@
    ||| w == "these"@
    ||| w == "so"@
    ||| w == "some"@
    ||| w == "her"@
    ||| w == "like"@
    ||| w == "him"@
    ||| w == "into"@
    ||| w == "time"@
    ||| w == "could"@
    ||| w == "no"@
    ||| w == "make"@
    ||| w == "than"@
    ||| w == "first"@
    ||| w == "its"@
    ||| w == "who"@
    ||| w == "now"@
}

/// A token, normalized: lowercased, then stripped of non-alphanumeric edges.
pub open spec fn normalize_spec(t: Seq<char>) -> Seq<char> {
    trim_non_alnum(lower_of(t))
}

/// Every token of `ts`, normalized.
pub open spec fn normalize_all(ts: Seq<Seq<char>>) -> Seq<Seq<char>> {
    ts.map_values(|t: Seq<char>| normalize_spec(t))
}

/// Whether a normalized token survives filtering under `o`.
pub open spec fn keep_token(w: Seq<char>, o: SummaryOptions) -> bool {
    w.len() >= o.min_word_length && (!o.exclude_common || !is_stopword(w))
}

/// The filter predicate for `o`, as a closed-over function.
pub open spec fn keep_pred(o: SummaryOptions) -> spec_fn(Seq<char>) -> bool {
    |w: Seq<char>| keep_token(w, o)
}

/// The normalized tokens of `text` that survive filtering under `o`.
pub open spec fn kept_tokens(text: Seq<char>, o: SummaryOptions) -> Seq<Seq<char>> {
    normalize_all(split_ws(text)).filter(keep_pred(o))
}

/// Equality-with-`w`, as a closed-over predicate.
pub open spec fn eq_word(w: Seq<char>) -> spec_fn(Seq<char>) -> bool {
    |x: Seq<char>| x == w
}

/// How often `w` occurs in `ws`.
pub open spec fn count_of(ws: Seq<Seq<char>>, w: Seq<char>) -> int {
    ws.filter(eq_word(w)).len() as int
}

/// First-occurrence deduplication of `ws`, from index `i` on, with the
/// already-collected words in `acc`.
pub open spec fn dedup_rec(ws: Seq<Seq<char>>, i: int, acc: Seq<Seq<char>>) -> Seq<Seq<char>>
    decreases ws.len() - i,
{
    if i < 0 || i >= ws.len() {
        acc
    } else if acc.contains(ws[i]) {
        dedup_rec(ws, i + 1, acc)
    } else {
        dedup_rec(ws, i + 1, acc.push(ws[i]))
    }
}

/// The distinct tokens of `ws`, in first-occurrence order.
pub open spec fn distinct_tokens(ws: Seq<Seq<char>>) -> Seq<Seq<char>> {
    dedup_rec(ws, 0, Seq::empty())
}

/// The ranking order: more frequent first, lexicographically smaller first
/// among equally frequent tokens.
pub open spec fn rank_before(ws: Seq<Seq<char>>, a: Seq<char>, b: Seq<char>) -> bool {
    count_of(ws, a) > count_of(ws, b) || (count_of(ws, a) == count_of(ws, b) && lex_lt(a, b))
}

/// Where `w` belongs in the already-ranked `sorted`: before the first entry
/// it outranks nothing of, i.e. the first position whose entry `w` precedes.
pub open spec fn insert_pos(sorted: Seq<Seq<char>>, w: Seq<char>, ws: Seq<Seq<char>>) -> int
    decreases sorted.len(),
{
    if sorted.len() == 0 {
        0
    } else if rank_before(ws, w, sorted[0]) {
        0
    } else {
        1 + insert_pos(sorted.drop_first(), w, ws)
    }
}

/// Insertion sort of the distinct tokens `ds` under the ranking order, from
/// index `i` on, into the already-sorted `sorted`.
pub open spec fn rank_rec(
    ws: Seq<Seq<char>>,
    ds: Seq<Seq<char>>,
    i: int,
    sorted: Seq<Seq<char>>,
) -> Seq<Seq<char>>
    decreases ds.len() - i,
{
    if i < 0 || i >= ds.len() {
        sorted
    } else {
        rank_rec(ws, ds, i + 1, sorted.insert(insert_pos(sorted, ds[i], ws), ds[i]))
    }
}

/// The distinct surviving tokens of `text` under `o`, ranked by descending
/// frequency with lexicographic tie-break.
pub open spec fn ranked_tokens(text: Seq<char>, o: SummaryOptions) -> Seq<Seq<char>> {
    let ws = kept_tokens(text, o);
    rank_rec(ws, distinct_tokens(ws), 0, Seq::empty())
}

/// The at most `o.length` best-ranked tokens of `text` under `o`.
pub open spec fn top_tokens(text: Seq<char>, o: SummaryOptions) -> Seq<Seq<char>> {
    let ranked = ranked_tokens(text, o);
    if o.length < ranked.len() {
        ranked.take(o.length as int)
    } else {
        ranked
    }
}

/// One summary entry: the token, a space, and its count in parentheses.
pub open spec fn render_entry(ws: Seq<Seq<char>>, w: Seq<char>) -> Seq<char> {
    w + seq![' ', '('] + dec_str(count_of(ws, w)) + seq![')']
}

/// The entries of `rs` from index `i` on, rendered after `out`, separated by
/// `", "`.
pub open spec fn render_rec(ws: Seq<Seq<char>>, rs: Seq<Seq<char>>, i: int, out: Seq<char>) -> Seq<
    char,
>
    decreases rs.len() - i,
{
    if i < 0 || i >= rs.len() {
        out
    } else {
        let pre = if i > 0 {
            out + seq![',', ' ']
        } else {
            out
        };
        render_rec(ws, rs, i + 1, pre + render_entry(ws, rs[i]))
    }
}

/// The sentence returned when no token survives filtering.
pub open spec fn no_content_sentinel() -> Seq<char> {
    "No significant content found"@
}

/// The summary of `text` under `o`: the at most `o.length` best-ranked
/// keywords with their counts, or the no-content sentence when nothing
/// survives filtering (with survivors but `o.length == 0`, zero entries are
/// rendered: the empty string).
pub open spec fn summarize_spec(text: Seq<char>, o: SummaryOptions) -> Seq<char> {
    let ws = kept_tokens(text, o);
    if ranked_tokens(text, o).len() == 0 {
        no_content_sentinel()
    } else {
        render_rec(ws, top_tokens(text, o), 0, Seq::empty())
    }
}

// ---------------------------------------------------------------------------
// Executable helpers
// ---------------------------------------------------------------------------

/// Whether two character vectors hold the same characters.
fn eq_chars(a: &Vec<char>, b: &Vec<char>) -> (r: bool)
    ensures
        r == (a@ == b@),
{
    if a.len() != b.len() {
        return false;
    }
    let mut i: usize = 0;
    let mut r: bool = true;
    loop
        invariant
            i <= a.len(),
            a.len() == b.len(),
            forall|k: int| 0 <= k < i ==> a@[k] == b@[k],
        ensures
            r == (a@ == b@),
        decreases a.len() - i,
    {
        if i == a.len() {
            proof {
                assert(a@ =~= b@);
            }
            r = true;
            break ;
        }
        if a[i] != b[i] {
            r = false;
            break ;
        }
        i = i + 1;
    }
    r
}

/// A copy of a character vector.
fn clone_chars(v: &Vec<char>) -> (r: Vec<char>)
    ensures
        r@ == v@,
{
    let mut r: Vec<char> = Vec::new();
    let mut i: usize = 0;
    while i < v.len()
        invariant
            i <= v.len(),
            r@ =~= v@.take(i as int),
        decreases v.len() - i,
    {
        let c: char = v[i];
        r.push(c);
        i = i + 1;
    }
    proof {
        assert(v@.take(v@.len() as int) =~= v@);
    }
    r
}

/// Append the characters of `w` to `out`.
fn push_chars(out: &mut Vec<char>, w: &Vec<char>)
    ensures
        final(out)@ == old(out)@ + w@,
{
    let mut i: usize = 0;
    while i < w.len()
        invariant
            i <= w.len(),
            out@ =~= old(out)@ + w@.take(i as int),
        decreases w.len() - i,
    {
        let c: char = w[i];
        out.push(c);
        i = i + 1;
    }
    proof {
        assert(w@.take(w@.len() as int) =~= w@);
        assert(out@ =~= old(out)@ + w@);
    }
}

/// Whether `w` is in the stopword set.
fn check_stopword(w: &Vec<char>) -> (r: bool)
    ensures
        r == is_stopword(w@),
{
    if eq_chars(w, &chars_of("the")) {
        return true;
    }
    if eq_chars(w, &chars_of("and")) {
        return true;
    }
    if eq_chars(w, &chars_of("a")) {
        return true;
    }
    if eq_chars(w, &chars_of("to")) {
        return true;
    }
    if eq_chars(w, &chars_of("of")) {
        return true;
    }
    if eq_chars(w, &chars_of("in")) {
        return true;
    }
    if eq_chars(w, &chars_of("is")) {
        return true;
    }
    if eq_chars(w, &chars_of("it")) {
        return true;
    }
    if eq_chars(w, &chars_of("you")) {
        return true;
    }
    if eq_chars(w, &chars_of("that")) {
        return true;
    }
    if eq_chars(w, &chars_of("he")) {
        return true;
    }
    if eq_chars(w, &chars_of("was")) {
        return true;
    }
    if eq_chars(w, &chars_of("for")) {
        return true;
    }
    if eq_chars(w, &chars_of("on")) {
        return true;
    }
    if eq_chars(w, &chars_of("are")) {
        return true;
    }
    if eq_chars(w, &chars_of("with")) {
        return true;
    }
    if eq_chars(w, &chars_of("as")) {
        return true;
    }
    if eq_chars(w, &chars_of("this")) {
        return true;
    }
    if eq_chars(w, &chars_of("from")) {
        return true;
    }
    if eq_chars(w, &chars_of("have")) {
        return true;
    }
    if eq_chars(w, &chars_of("been")) {
        return true;
    }
    if eq_chars(w, &chars_of("has")) {
        return true;
    }
    if eq_chars(w, &chars_of("had")) {
        return true;
    }
    if eq_chars(w, &chars_of("not")) {
        return true;
    }
    if eq_chars(w, &chars_of("what")) {
        return true;
    }
    if eq_chars(w, &chars_of("all")) {
        return true;
    }
    if eq_chars(w, &chars_of("were")) {
        return true;
    }
    if eq_chars(w, &chars_of("when")) {
        return true;
    }
    if eq_chars(w, &chars_of("we")) {
        return true;
    }
    if eq_chars(w, &chars_of("there")) {
        return true;
    }
    if eq_chars(w, &chars_of("can")) {
        return true;
    }
    if eq_chars(w, &chars_of("an")) {
        return true;
    }
    if eq_chars(w, &chars_of("which")) {
        return true;
    }
    if eq_chars(w, &chars_of("their")) {
        return true;
    }
    if eq_chars(w, &chars_of("said")) {
        return true;
    }
    if eq_chars(w, &chars_of("if")) {
        return true;
    }
    if eq_chars(w, &chars_of("will")) {
        return true;
    }
    if eq_chars(w, &chars_of("would")) {
        return true;
    }
    if eq_chars(w, &chars_of("about")) {
        return true;
    }
    if eq_chars(w, &chars_of("them")) {
        return true;
    }
    if eq_chars(w, &chars_of("then")) {
        return true;
    }
    if eq_chars(w, &chars_of("she")) {
        return true;
    }
    if eq_chars(w, &chars_of("many")) {
        return true;
    }
    if eq_chars(w, &chars_of("these")) {
        return true;
    }
    if eq_chars(w, &chars_of("so")) {
        return true;
    }
    if eq_chars(w, &chars_of("some")) {
        return true;
    }
    if eq_chars(w, &chars_of("her")) {
        return true;
    }
    if eq_chars(w, &chars_of("like")) {
        return true;
    }
    if eq_chars(w, &chars_of("him")) {
        return true;
    }
    if eq_chars(w, &chars_of("into")) {
        return true;
    }
    if eq_chars(w, &chars_of("time")) {
        return true;
    }
    if eq_chars(w, &chars_of("could")) {
        return true;
    }
    if eq_chars(w, &chars_of("no")) {
        return true;
    }
    if eq_chars(w, &chars_of("make")) {
        return true;
    }
    if eq_chars(w, &chars_of("than")) {
        return true;
    }
    if eq_chars(w, &chars_of("first")) {
        return true;
    }
    if eq_chars(w, &chars_of("its")) {
        return true;
    }
    if eq_chars(w, &chars_of("who")) {
        return true;
    }
    if eq_chars(w, &chars_of("now")) {
        return true;
    }
    false
}

/// The index of `w` in `words`, if present.
fn find_word(words: &Vec<Vec<char>>, w: &Vec<char>) -> (r: Option<usize>)
    ensures
        match r {
            Some(idx) => idx < words@.len() && words@[idx as int]@ == w@,
            None => forall|k: int| 0 <= k < words@.len() ==> words@[k]@ != w@,
        },
{
    let mut i: usize = 0;
    let mut r: Option<usize> = None;
    loop
        invariant
            i <= words.len(),
            forall|k: int| 0 <= k < i ==> words@[k]@ != w@,
        ensures
            match r {
                Some(idx) => idx < words@.len() && words@[idx as int]@ == w@,
                None => forall|k: int| 0 <= k < words@.len() ==> words@[k]@ != w@,
            },
        decreases words.len() - i,
    {
        if i == words.len() {
            r = None;
            break ;
        }
        if eq_chars(&words[i], w) {
            r = Some(i);
            break ;
        }
        i = i + 1;
    }
    r
}

// ---------------------------------------------------------------------------
// Proof helpers
// ---------------------------------------------------------------------------

proof fn lemma_count_absent(s: Seq<Seq<char>>, w: Seq<char>)
    requires
        forall|k: int| 0 <= k < s.len() ==> s[k] != w,
    ensures
        count_of(s, w) == 0,
    decreases s.len(),
{
    reveal(Seq::filter);
    if s.len() > 0 {
        lemma_count_absent(s.drop_last(), w);
    }
}

proof fn lemma_insert_pos_at(sorted: Seq<Seq<char>>, w: Seq<char>, ws: Seq<Seq<char>>, p: int)
    requires
        0 <= p <= sorted.len(),
        forall|k: int| 0 <= k < p ==> !rank_before(ws, w, sorted[k]),
        p < sorted.len() ==> rank_before(ws, w, sorted[p]),
    ensures
        insert_pos(sorted, w, ws) == p,
    decreases p,
{
    if p > 0 {
        lemma_insert_pos_at(sorted.drop_first(), w, ws, p - 1);
    }
}

pub(crate) proof fn lemma_views_deep(v: &Vec<Vec<char>>)
    ensures
        v.deep_view() == views(v@),
{
    assert(v.deep_view() =~~= views(v@));
}

// ---------------------------------------------------------------------------
// The summarizer
// ---------------------------------------------------------------------------

/// Summarize `text` under `options`: the ranked keywords with their counts,
/// rendered as `"word (count)"` entries joined by `", "`, or the no-content
/// sentence when nothing survives filtering.
pub fn advanced_summarize(text: &str, options: &SummaryOptions) -> (r: String)
    ensures
        r@ == summarize_spec(text@, *options),
{
    let ghost o: SummaryOptions = *options;
    let chars: Vec<char> = chars_of(text);
    let tokens: Vec<Vec<char>> = split_whitespace_tokens(&chars);
    proof {
        lemma_views_deep(&tokens);
    }
    let ghost tokensv: Seq<Seq<char>> = views(tokens@);

    // Normalize and filter.
    let mut kept: Vec<Vec<char>> = Vec::new();
    let mut i: usize = 0;
    proof {
        assert(views(kept@) =~= Seq::<Seq<char>>::empty());
        assert(normalize_all(tokensv.take(0)) =~= Seq::<Seq<char>>::empty());
        assert(Seq::<Seq<char>>::empty().filter(keep_pred(o)) =~= Seq::<Seq<char>>::empty()) by {
            reveal(Seq::filter);
        }
    }
    while i < tokens.len()
        invariant
            i <= tokens.len(),
            tokensv == views(tokens@),
            tokensv == split_ws(text@),
            o == *options,
            views(kept@) == normalize_all(tokensv.take(i as int)).filter(keep_pred(o)),
        decreases tokens.len() - i,
    {
        let lowered: Vec<char> = lowercase_chars(&tokens[i]);
        let norm: Vec<char> = trim_token(&lowered);
        proof {
            assert(norm@ == normalize_spec(tokensv[i as int]));
        }
        let long_enough: bool = norm.len() >= options.min_word_length;
        let keep: bool = long_enough && (!options.exclude_common || !check_stopword(&norm));
        proof {
            assert(keep == keep_token(norm@, o));
            let prev = normalize_all(tokensv.take(i as int));
            assert(normalize_all(tokensv.take(i as int + 1)) =~= prev.push(
                normalize_spec(tokensv[i as int]),
            ));
            lemma_filter_push(prev, keep_pred(o), norm@);
        }
        if keep {
            let ghost keptv0 = views(kept@);
            kept.push(norm);
            proof {
                assert(views(kept@) =~= keptv0.push(normalize_spec(tokensv[i as int])));
            }
        }
        i = i + 1;
    }
    proof {
        assert(tokensv.take(tokens@.len() as int) =~= tokensv);
    }
    let ghost ws: Seq<Seq<char>> = kept_tokens(text@, o);
    proof {
        assert(views(kept@) == ws);
    }

    // Count each distinct token, in first-occurrence order.
    let mut words: Vec<Vec<char>> = Vec::new();
    let mut counts: Vec<usize> = Vec::new();
    let mut j: usize = 0;
    proof {
        assert(views(words@) =~= Seq::<Seq<char>>::empty());
    }
    while j < kept.len()
        invariant
            j <= kept.len(),
            ws == views(kept@),
            words@.len() == counts@.len(),
            dedup_rec(ws, j as int, views(words@)) == distinct_tokens(ws),
            forall|k: int|
                0 <= k < words@.len() ==> counts@[k] == count_of(
                    ws.take(j as int),
                    #[trigger] views(words@)[k],
                ),
            forall|k1: int, k2: int|
                0 <= k1 < k2 < words@.len() ==> views(words@)[k1] != views(words@)[k2],
            forall|k: int|
                0 <= k < j ==> views(words@).contains(#[trigger] ws[k]),
        decreases kept.len() - j,
    {
        let ghost wv = views(words@);
        let ghost tw = ws.take(j as int);
        proof {
            assert(ws.take(j as int + 1) =~= tw.push(ws[j as int]));
        }
        let found: Option<usize> = find_word(&words, &kept[j]);
        match found {
            Some(idx) => {
                proof {
                    assert(wv[idx as int] == ws[j as int]);
                    assert(wv.contains(ws[j as int]));
                    assert forall|k: int| 0 <= k < words@.len() implies count_of(
                        ws.take(j as int + 1),
                        wv[k],
                    ) == count_of(tw, wv[k]) + (if k == idx {
                        1int
                    } else {
                        0int
                    }) by {
                        lemma_filter_push(tw, eq_word(wv[k]), ws[j as int]);
                        if k != idx {
                            assert(wv[k] != wv[idx as int]);
                        }
                    }
                }
                let c: usize = counts[idx];
                proof {
                    assert(count_of(tw, wv[idx as int]) <= tw.len());
                }
                counts.set(idx, c + 1);
            },
            None => {
                proof {
                    assert(!wv.contains(ws[j as int]));
                    assert forall|k: int| 0 <= k < words@.len() implies count_of(
                        ws.take(j as int + 1),
                        wv[k],
                    ) == count_of(tw, wv[k]) by {
                        lemma_filter_push(tw, eq_word(wv[k]), ws[j as int]);
                    }
                    assert(count_of(tw, ws[j as int]) == 0) by {
                        if tw.contains(ws[j as int]) {
                            let k0 = choose|k0: int| 0 <= k0 < tw.len() && tw[k0] == ws[j as int];
                            assert(wv.contains(ws[k0]));
                            assert(false);
                        }
                        lemma_count_absent(tw, ws[j as int]);
                    }
                    lemma_filter_push(tw, eq_word(ws[j as int]), ws[j as int]);
                }
                let wcopy: Vec<char> = clone_chars(&kept[j]);
                words.push(wcopy);
                counts.push(1);
                proof {
                    assert(views(words@) =~= wv.push(ws[j as int]));
                    assert forall|k: int| 0 <= k < j + 1 implies views(words@).contains(
                        #[trigger] ws[k],
                    ) by {
                        if k == j {
                            assert(views(words@)[wv.len() as int] == ws[j as int]);
                        } else {
                            assert(wv.contains(ws[k]));
                            let k0 = choose|k0: int| 0 <= k0 < wv.len() && wv[k0] == ws[k];
                            assert(views(words@)[k0] == ws[k]);
                        }
                    }
                }
            },
        }
        j = j + 1;
    }
    proof {
        assert(ws.take(kept@.len() as int) =~= ws);
        assert forall|k: int| 0 <= k < words@.len() implies counts@[k] == count_of(
            ws,
            #[trigger] views(words@)[k],
        ) by {
            assert(counts@[k] == count_of(ws.take(kept@.len() as int), views(words@)[k]));
        }
    }
    let ghost dsv: Seq<Seq<char>> = views(words@);
    proof {
        assert(dsv == distinct_tokens(ws));
    }

    // Insertion sort under the ranking order.
    let mut sw: Vec<Vec<char>> = Vec::new();
    let mut sc: Vec<usize> = Vec::new();
    let mut d: usize = 0;
    proof {
        assert(views(sw@) =~= Seq::<Seq<char>>::empty());
    }
    while d < words.len()
        invariant
            d <= words.len(),
            ws == views(kept@),
            dsv == views(words@),
            words@.len() == counts@.len(),
            sw@.len() == sc@.len(),
            forall|k: int|
                0 <= k < words@.len() ==> counts@[k] == count_of(ws, #[trigger] views(words@)[k]),
            rank_rec(ws, dsv, d as int, views(sw@)) == rank_rec(ws, dsv, 0, Seq::empty()),
            forall|k: int|
                0 <= k < sw@.len() ==> sc@[k] == count_of(ws, #[trigger] views(sw@)[k]),
        decreases words.len() - d,
    {
        let w: &Vec<char> = &words[d];
        let cw: usize = counts[d];
        let ghost swv = views(sw@);
        let mut pos: usize = 0;
        loop
            invariant
                pos <= sw.len(),
                swv == views(sw@),
                sw@.len() == sc@.len(),
                cw == count_of(ws, w@),
                forall|k: int| 0 <= k < sw@.len() ==> sc@[k] == count_of(ws, #[trigger] swv[k]),
                forall|k: int| 0 <= k < pos ==> !rank_before(ws, w@, swv[k]),
            ensures
                pos <= sw@.len(),
                pos as int == insert_pos(swv, w@, ws),
            decreases sw.len() - pos,
        {
            if pos == sw.len() {
                proof {
                    lemma_insert_pos_at(swv, w@, ws, pos as int);
                }
                break ;
            }
            let cp: usize = sc[pos];
            let before: bool = cw > cp || (cw == cp && crate::text::lex_lt_chars(w, &sw[pos]));
            proof {
                assert(before == rank_before(ws, w@, swv[pos as int]));
            }
            if before {
                proof {
                    lemma_insert_pos_at(swv, w@, ws, pos as int);
                }
                break ;
            }
            pos = pos + 1;
        }
        let wcopy: Vec<char> = clone_chars(w);
        sw.insert(pos, wcopy);
        sc.insert(pos, cw);
        proof {
            assert(views(sw@) =~= swv.insert(pos as int, w@));
            swv.insert_ensures(pos as int, w@);
            assert forall|k: int| 0 <= k < sw@.len() implies sc@[k] == count_of(
                ws,
                #[trigger] views(sw@)[k],
            ) by {
                if k < pos {
                    assert(views(sw@)[k] == swv[k]);
                } else if k == pos {
                    assert(views(sw@)[k] == w@);
                } else {
                    assert(views(sw@)[k] == swv[k - 1]);
                }
            }
        }
        d = d + 1;
    }
    proof {
        assert(views(sw@) == ranked_tokens(text@, o));
    }

    if sw.len() == 0 {
        let r: String = String::from_str("No significant content found");
        return r;
    }

    // Render the top entries.
    let limit: usize = if options.length < sw.len() {
        options.length
    } else {
        sw.len()
    };
    let ghost topv: Seq<Seq<char>> = top_tokens(text@, o);
    proof {
        if o.length < views(sw@).len() {
            assert(topv == views(sw@).take(o.length as int));
        } else {
            assert(topv == views(sw@));
            assert(views(sw@).take(views(sw@).len() as int) =~= views(sw@));
        }
        assert(topv =~= views(sw@).take(limit as int));
    }
    let mut out: Vec<char> = Vec::new();
    let mut e: usize = 0;
    while e < limit
        invariant
            e <= limit,
            limit <= sw@.len(),
            sw@.len() == sc@.len(),
            topv == views(sw@).take(limit as int),
            topv.len() == limit,
            ws == views(kept@),
            forall|k: int| 0 <= k < sw@.len() ==> sc@[k] == count_of(ws, #[trigger] views(sw@)[k]),
            render_rec(ws, topv, e as int, out@) == render_rec(ws, topv, 0, Seq::empty()),
        decreases limit - e,
    {
        let ghost out0 = out@;
        if e > 0 {
            out.push(',');
            out.push(' ');
        }
        let ghost pre = if e > 0 {
            out0 + seq![',', ' ']
        } else {
            out0
        };
        proof {
            assert(out@ =~= pre);
        }
        push_chars(&mut out, &sw[e]);
        out.push(' ');
        out.push('(');
        let ce: usize = sc[e];
        push_decimal(&mut out, ce);
        out.push(')');
        proof {
            assert(topv[e as int] == views(sw@)[e as int]);
            assert(ce == count_of(ws, topv[e as int]));
            assert(out@ =~= pre + render_entry(ws, topv[e as int]));
        }
        e = e + 1;
    }
    let r: String = string_from_chars(&out);
    proof {
        assert(render_rec(ws, topv, limit as int, out@) == out@);
    }
    r
}

// ---------------------------------------------------------------------------
// Stated properties
// ---------------------------------------------------------------------------

/// A summary never holds more than `o.length` keyword entries.
pub proof fn lemma_summary_keyword_bound(text: Seq<char>, o: SummaryOptions)
    ensures
        top_tokens(text, o).len() <= o.length,
        summarize_spec(text, o) == if ranked_tokens(text, o).len() == 0 {
            no_content_sentinel()
        } else {
            render_rec(kept_tokens(text, o), top_tokens(text, o), 0, Seq::empty())
        },
{
    let ranked = ranked_tokens(text, o);
    if o.length < ranked.len() {
        assert(top_tokens(text, o).len() == o.length);
    }
}

/// Summarization is deterministic: identical text and identical options give
/// an identical summary, however often it is recomputed.
pub proof fn lemma_summarize_deterministic(
    t1: Seq<char>,
    t2: Seq<char>,
    o1: SummaryOptions,
    o2: SummaryOptions,
)
    requires
        t1 == t2,
        o1 == o2,
    ensures
        summarize_spec(t1, o1) == summarize_spec(t2, o2),
{
}

proof fn lemma_lex_lt_trans(a: Seq<char>, b: Seq<char>, c: Seq<char>)
    requires
        lex_lt(a, b),
        lex_lt(b, c),
    ensures
        lex_lt(a, c),
    decreases a.len(),
{
    if a.len() > 0 && b.len() > 0 && c.len() > 0 {
        if (a[0] as u32) == (b[0] as u32) && (b[0] as u32) == (c[0] as u32) {
            lemma_lex_lt_trans(a.drop_first(), b.drop_first(), c.drop_first());
        }
    }
}

proof fn lemma_lex_lt_connected(a: Seq<char>, b: Seq<char>)
    requires
        a != b,
    ensures
        lex_lt(a, b) || lex_lt(b, a),
    decreases a.len(),
{
    if a.len() > 0 && b.len() > 0 {
        if (a[0] as u32) == (b[0] as u32) {
            assert(a[0] == b[0]) by {
                vstd::utf8::char_u32_cast(a[0], a[0] as u32);
                vstd::utf8::char_u32_cast(b[0], b[0] as u32);
            }
            if a.drop_first() == b.drop_first() {
                assert(a =~= b) by {
                    assert(a.drop_first().len() == b.drop_first().len());
                    assert(a.len() == b.len());
                    assert forall|k: int| 0 <= k < a.len() implies a[k] == b[k] by {
                        if k > 0 {
                            assert(a[k] == a.drop_first()[k - 1]);
                            assert(b[k] == b.drop_first()[k - 1]);
                        }
                    }
                }
            }
            lemma_lex_lt_connected(a.drop_first(), b.drop_first());
        }
    } else if a.len() == 0 && b.len() == 0 {
        assert(a =~= b);
    }
}

proof fn lemma_rank_before_trans(ws: Seq<Seq<char>>, a: Seq<char>, b: Seq<char>, c: Seq<char>)
    requires
        rank_before(ws, a, b),
        rank_before(ws, b, c),
    ensures
        rank_before(ws, a, c),
{
    if count_of(ws, a) == count_of(ws, b) && count_of(ws, b) == count_of(ws, c) {
        lemma_lex_lt_trans(a, b, c);
    }
}

proof fn lemma_rank_before_connected(ws: Seq<Seq<char>>, a: Seq<char>, b: Seq<char>)
    requires
        a != b,
    ensures
        rank_before(ws, a, b) || rank_before(ws, b, a),
{
    if count_of(ws, a) == count_of(ws, b) {
        lemma_lex_lt_connected(a, b);
    }
}

proof fn lemma_insert_pos_props(sorted: Seq<Seq<char>>, w: Seq<char>, ws: Seq<Seq<char>>)
    ensures
        0 <= insert_pos(sorted, w, ws) <= sorted.len(),
        forall|k: int| 0 <= k < insert_pos(sorted, w, ws) ==> !rank_before(ws, w, sorted[k]),
        insert_pos(sorted, w, ws) < sorted.len() ==> rank_before(
            ws,
            w,
            sorted[insert_pos(sorted, w, ws)],
        ),
    decreases sorted.len(),
{
    if sorted.len() > 0 && !rank_before(ws, w, sorted[0]) {
        lemma_insert_pos_props(sorted.drop_first(), w, ws);
        let ip = insert_pos(sorted, w, ws);
        assert forall|k: int| 0 <= k < ip implies !rank_before(ws, w, sorted[k]) by {
            if k > 0 {
                assert(sorted.drop_first()[k - 1] == sorted[k]);
            }
        }
        if ip < sorted.len() {
            assert(sorted.drop_first()[ip - 1] == sorted[ip]);
        }
    }
}

/// `rs` is ranked under `ws`: every entry outranks each later, distinct
/// entry — its count is higher, or equal with the lexicographically smaller
/// token first.
pub open spec fn ranked_order(ws: Seq<Seq<char>>, rs: Seq<Seq<char>>) -> bool {
    forall|k1: int, k2: int|
        0 <= k1 < k2 < rs.len() ==> rs[k1] == rs[k2] || rank_before(ws, rs[k1], rs[k2])
}

proof fn lemma_insert_keeps_order(sorted: Seq<Seq<char>>, w: Seq<char>, ws: Seq<Seq<char>>)
    requires
        ranked_order(ws, sorted),
    ensures
        ranked_order(ws, sorted.insert(insert_pos(sorted, w, ws), w)),
{
    let ip = insert_pos(sorted, w, ws);
    lemma_insert_pos_props(sorted, w, ws);
    sorted.insert_ensures(ip, w);
    let rs = sorted.insert(ip, w);
    assert forall|k1: int, k2: int|
        0 <= k1 < k2 < rs.len() implies rs[k1] == rs[k2] || rank_before(ws, rs[k1], rs[k2]) by {
        if k1 == ip && k2 > ip {
            let j = k2 - 1;
            assert(rs[k2] == sorted[j]);
            assert(rank_before(ws, w, sorted[ip as int]));
            if j > ip {
                if sorted[ip as int] == sorted[j] {
                } else {
                    lemma_rank_before_trans(ws, w, sorted[ip as int], sorted[j]);
                }
            }
        } else if k2 == ip && k1 < ip {
            assert(rs[k1] == sorted[k1]);
            assert(!rank_before(ws, w, sorted[k1]));
            if sorted[k1] != w {
                lemma_rank_before_connected(ws, sorted[k1], w);
            }
        } else if k1 != ip && k2 != ip {
            let j1 = if k1 < ip {
                k1
            } else {
                k1 - 1
            };
            let j2 = if k2 < ip {
                k2
            } else {
                k2 - 1
            };
            assert(rs[k1] == sorted[j1]);
            assert(rs[k2] == sorted[j2]);
        }
    }
}

proof fn lemma_rank_rec_ordered(
    ws: Seq<Seq<char>>,
    ds: Seq<Seq<char>>,
    i: int,
    sorted: Seq<Seq<char>>,
)
    requires
        ranked_order(ws, sorted),
    ensures
        ranked_order(ws, rank_rec(ws, ds, i, sorted)),
    decreases ds.len() - i,
{
    if 0 <= i < ds.len() {
        lemma_insert_keeps_order(sorted, ds[i], ws);
        lemma_rank_rec_ordered(ws, ds, i + 1, sorted.insert(insert_pos(sorted, ds[i], ws), ds[i]));
    }
}

/// The summary's keyword list is ranked: among the chosen tokens, an entry
/// earlier in the list has a strictly higher count than each later one, or an
/// equal count and the lexicographically smaller token. With the counts
/// determined by the text, the ranking — and so the whole summary — is
/// deterministic.
pub proof fn lemma_top_tokens_ordered(text: Seq<char>, o: SummaryOptions)
    ensures
        ranked_order(kept_tokens(text, o), top_tokens(text, o)),
{
    let ws = kept_tokens(text, o);
    lemma_rank_rec_ordered(ws, distinct_tokens(ws), 0, Seq::empty());
    let ranked = ranked_tokens(text, o);
    let top = top_tokens(text, o);
    assert forall|k1: int, k2: int|
        0 <= k1 < k2 < top.len() implies top[k1] == top[k2] || rank_before(ws, top[k1], top[k2]) by {
        assert(top[k1] == ranked[k1]);
        assert(top[k2] == ranked[k2]);
    }
}

proof fn lemma_insert_to_multiset(s: Seq<Seq<char>>, i: int, a: Seq<char>)
    requires
        0 <= i <= s.len(),
    ensures
        s.insert(i, a).to_multiset() == s.to_multiset().insert(a),
{
    broadcast use vstd::seq_lib::group_to_multiset_ensures;

    let t = s.insert(i, a);
    s.insert_ensures(i, a);
    assert(t.remove(i) =~= s);
    assert(t[i] == a);
    assert(t.remove(i).to_multiset() =~= t.to_multiset().remove(t[i]));
    assert(t.contains(a));
    assert(t.to_multiset() =~= s.to_multiset().insert(a));
}

proof fn lemma_rank_rec_multiset(ws: Seq<Seq<char>>, ds: Seq<Seq<char>>, i: int, sorted: Seq<
    Seq<char>,
>)
    requires
        0 <= i <= ds.len(),
    ensures
        rank_rec(ws, ds, i, sorted).to_multiset() == sorted.to_multiset().add(
            ds.skip(i).to_multiset(),
        ),
    decreases ds.len() - i,
{
    broadcast use vstd::seq_lib::group_to_multiset_ensures;

    if i == ds.len() {
        assert(ds.skip(i) =~= Seq::<Seq<char>>::empty());
        assert(ds.skip(i).to_multiset().len() == 0);
        assert(ds.skip(i).to_multiset() =~= Multiset::<Seq<char>>::empty());
        assert(sorted.to_multiset().add(ds.skip(i).to_multiset()) =~= sorted.to_multiset());
    } else {
        let ip = insert_pos(sorted, ds[i], ws);
        lemma_insert_pos_props(sorted, ds[i], ws);
        let sorted2 = sorted.insert(ip, ds[i]);
        lemma_insert_to_multiset(sorted, ip, ds[i]);
        lemma_rank_rec_multiset(ws, ds, i + 1, sorted2);
        assert(ds.skip(i).remove(0) =~= ds.skip(i + 1));
        assert(ds.skip(i)[0] == ds[i]);
        assert(ds.skip(i).remove(0).to_multiset() =~= ds.skip(i).to_multiset().remove(ds[i]));
        assert(ds.skip(i).contains(ds[i]));
        assert(ds.skip(i).to_multiset() =~= ds.skip(i + 1).to_multiset().insert(ds[i]));
        assert(sorted2.to_multiset().add(ds.skip(i + 1).to_multiset()) =~= sorted.to_multiset().add(
            ds.skip(i).to_multiset(),
        ));
    }
}

proof fn lemma_dedup_rec_contains(ws: Seq<Seq<char>>, i: int, acc: Seq<Seq<char>>, w: Seq<char>)
    requires
        0 <= i <= ws.len(),
    ensures
        dedup_rec(ws, i, acc).contains(w) <==> (acc.contains(w) || exists|k: int|
            i <= k < ws.len() && ws[k] == w),
    decreases ws.len() - i,
{
    if i < ws.len() {
        if acc.contains(ws[i]) {
            lemma_dedup_rec_contains(ws, i + 1, acc, w);
            if ws[i] == w {
                assert(acc.contains(w));
            }
        } else {
            let acc2 = acc.push(ws[i]);
            lemma_dedup_rec_contains(ws, i + 1, acc2, w);
            assert(acc2.contains(w) <==> (acc.contains(w) || ws[i] == w)) by {
                if acc2.contains(w) {
                    let k0 = choose|k0: int| 0 <= k0 < acc2.len() && acc2[k0] == w;
                    if k0 < acc.len() {
                        assert(acc[k0] == w);
                    }
                }
                if acc.contains(w) {
                    let k0 = choose|k0: int| 0 <= k0 < acc.len() && acc[k0] == w;
                    assert(acc2[k0] == w);
                }
                assert(acc2[acc.len() as int] == ws[i]);
            }
        }
    }
}

proof fn lemma_dedup_rec_no_dup(ws: Seq<Seq<char>>, i: int, acc: Seq<Seq<char>>)
    requires
        0 <= i <= ws.len(),
        acc.no_duplicates(),
    ensures
        dedup_rec(ws, i, acc).no_duplicates(),
    decreases ws.len() - i,
{
    if i < ws.len() {
        if acc.contains(ws[i]) {
            lemma_dedup_rec_no_dup(ws, i + 1, acc);
        } else {
            let acc2 = acc.push(ws[i]);
            assert(acc2.no_duplicates()) by {
                assert forall|k1: int, k2: int|
                    0 <= k1 < k2 < acc2.len() implies acc2[k1] != acc2[k2] by {
                    if k2 == acc.len() {
                        if acc2[k1] == ws[i] {
                            assert(acc.contains(ws[i]));
                        }
                    }
                }
            }
            lemma_dedup_rec_no_dup(ws, i + 1, acc2);
        }
    }
}

/// The ranked keyword list is a permutation of the distinct surviving
/// tokens: a token stands in it if and only if it survives filtering, and
/// each stands in it exactly once.
pub proof fn lemma_ranked_tokens_complete(text: Seq<char>, o: SummaryOptions)
    ensures
        ranked_tokens(text, o).to_multiset() == distinct_tokens(kept_tokens(text, o)).to_multiset(),
        forall|w: Seq<char>|
            ranked_tokens(text, o).contains(w) <==> kept_tokens(text, o).contains(w),
        ranked_tokens(text, o).no_duplicates(),
{
    broadcast use vstd::seq_lib::group_to_multiset_ensures;

    let ws = kept_tokens(text, o);
    let ds = distinct_tokens(ws);
    let ranked = ranked_tokens(text, o);
    lemma_rank_rec_multiset(ws, ds, 0, Seq::empty());
    assert(Seq::<Seq<char>>::empty().to_multiset().len() == 0);
    assert(Seq::<Seq<char>>::empty().to_multiset() =~= Multiset::<Seq<char>>::empty());
    assert(ds.skip(0) =~= ds);
    assert(ranked.to_multiset() =~= ds.to_multiset());
    assert forall|w: Seq<char>| ranked.contains(w) <==> ws.contains(w) by {
        lemma_dedup_rec_contains(ws, 0, Seq::empty(), w);
        assert(ranked.contains(w) <==> ranked.to_multiset().count(w) > 0);
        assert(ds.contains(w) <==> ds.to_multiset().count(w) > 0);
        if ws.contains(w) {
            let k0 = choose|k0: int| 0 <= k0 < ws.len() && ws[k0] == w;
            assert(0 <= k0 < ws.len() && ws[k0] == w);
        }
    }
    lemma_dedup_rec_no_dup(ws, 0, Seq::empty());
    assert(ranked.no_duplicates()) by {
        ds.lemma_multiset_has_no_duplicates();
        ranked.lemma_multiset_has_no_duplicates_conv();
    }
}

proof fn lemma_dedup_of_empty(ws: Seq<Seq<char>>)
    requires
        ws.len() == 0,
    ensures
        distinct_tokens(ws) == Seq::<Seq<char>>::empty(),
{
}

/// When the stopword filter is on and every token of the text normalizes to
/// a stopword, the summary is the no-content sentence.
pub proof fn lemma_only_stopwords_gives_sentinel(text: Seq<char>, o: SummaryOptions)
    requires
        o.exclude_common,
        forall|k: int|
            0 <= k < split_ws(text).len() ==> is_stopword(
                normalize_spec(#[trigger] split_ws(text)[k]),
            ),
    ensures
        summarize_spec(text, o) == no_content_sentinel(),
{
    let mapped = normalize_all(split_ws(text));
    let pred = keep_pred(o);
    assert forall|k: int| 0 <= k < mapped.len() implies !(#[trigger] pred(mapped[k])) by {
        assert(mapped[k] == normalize_spec(split_ws(text)[k]));
    }
    assert(mapped.all(|w: Seq<char>| !pred(w)));
    mapped.lemma_all_neg_filter_empty(pred);
    let ws = kept_tokens(text, o);
    assert(ws.len() == 0);
    lemma_dedup_of_empty(ws);
    assert(ranked_tokens(text, o) == Seq::<Seq<char>>::empty());
    assert(top_tokens(text, o).len() == 0);
}

} // verus!
