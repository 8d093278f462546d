//! Query parsing into bare terms and quoted phrases, and the search for one
//! such token.

use vstd::prelude::*;
use vstd::utf8::encode_utf8;
use crate::doc_table::DocTable;
use crate::mem_index::{nonempty_lists, MemIndex};
use crate::query_result::{lists_ranks, sat_add, QueryResult};
use crate::text::{is_white, is_white_char, lower_text, lowercase, trim_str, trim_white};

verus! {

/// A token of a query, as a value.
pub enum TokenView {
    Term(Seq<char>),
    Phrase(Seq<char>),
}

impl TokenView {
    pub open spec fn text(self) -> Seq<char> {
        match self {
            TokenView::Term(v) => v,
            TokenView::Phrase(v) => v,
        }
    }

    /// The token with `c` appended to its text.
    pub open spec fn push(self, c: char) -> TokenView {
        match self {
            TokenView::Term(v) => TokenView::Term(v.push(c)),
            TokenView::Phrase(v) => TokenView::Phrase(v.push(c)),
        }
    }
}

/// The state of the tokenizer after reading `q`: the tokens finished so far
/// and the one being read.
///
/// A `"` starts a phrase (dropping an unfinished term) or ends one; a space
/// ends a non-empty term and is kept inside a phrase; any other character
/// extends the token being read.
pub open spec fn scan(q: Seq<char>) -> (Seq<TokenView>, TokenView)
    decreases q.len(),
{
    if q.len() == 0 {
        (Seq::empty(), TokenView::Term(Seq::empty()))
    } else {
        let (done, cur) = scan(q.drop_last());
        let c = q.last();
        if c == '"' {
            match cur {
                TokenView::Term(_) => (done, TokenView::Phrase(Seq::empty())),
                TokenView::Phrase(_) => (done.push(cur), TokenView::Term(Seq::empty())),
            }
        } else if c == ' ' {
            match cur {
                TokenView::Term(v) => if v.len() > 0 {
                    (done.push(cur), TokenView::Term(Seq::empty()))
                } else {
                    (done, cur)
                },
                TokenView::Phrase(v) => (done, cur.push(c)),
            }
        } else {
            (done, cur.push(c))
        }
    }
}

/// The tokens of an already normalised query: those that `scan` finishes,
/// and the last one if it is not empty.
pub open spec fn tokens_of(q: Seq<char>) -> Seq<TokenView> {
    let (done, cur) = scan(q);
    if cur.text().len() > 0 {
        done.push(cur)
    } else {
        done
    }
}

/// The end of the run of non-white characters of `q` that starts at `i`.
pub open spec fn run_end(q: Seq<char>, i: int) -> int
    decreases q.len() - i,
{
    if i < 0 || i >= q.len() || is_white_char(q[i]) {
        i
    } else {
        run_end(q, i + 1)
    }
}

proof fn lemma_run_end(q: Seq<char>, i: int)
    requires
        0 <= i <= q.len(),
    ensures
        i <= run_end(q, i) <= q.len(),
        i < q.len() && !is_white_char(q[i]) ==> run_end(q, i) > i,
    decreases q.len() - i,
{
    if i < q.len() && !is_white_char(q[i]) {
        lemma_run_end(q, i + 1);
    }
}

/// Whether `w` holds an odd number of double quotes.
pub open spec fn odd_quotes(w: Seq<char>) -> bool
    decreases w.len(),
{
    if w.len() == 0 {
        false
    } else {
        odd_quotes(w.drop_last()) != (w.last() == '"')
    }
}

/// `q[i..]` with its stop words removed. `in_phrase` tells whether position
/// `i` lies between double quotes, `started` whether anything has been kept
/// yet, and `gap` whether white space outside quotes came since the last
/// kept word.
///
/// Outside quotes each word (a maximal run of non-white characters) that is
/// a stop word is removed, and the kept words are separated by one space,
/// with none at either end. Between quotes everything is kept as it is.
pub open spec fn stops_removed_from(
    q: Seq<char>,
    stop: Seq<Seq<char>>,
    i: int,
    in_phrase: bool,
    started: bool,
    gap: bool,
) -> Seq<char>
    decreases q.len() - i
        via stops_removed_decreases
{
    if i < 0 || i >= q.len() {
        Seq::empty()
    } else if is_white_char(q[i]) {
        if in_phrase {
            seq![q[i]] + stops_removed_from(q, stop, i + 1, true, started, gap)
        } else {
            stops_removed_from(q, stop, i + 1, false, started, true)
        }
    } else {
        let j = run_end(q, i);
        let w = q.subrange(i, j);
        if !in_phrase && stop.contains(w) {
            stops_removed_from(q, stop, j, false, started, gap)
        } else {
            (if !in_phrase && started && gap {
                seq![' ']
            } else {
                Seq::empty()
            }) + w + stops_removed_from(q, stop, j, in_phrase != odd_quotes(w), true, false)
        }
    }
}

#[via_fn]
proof fn stops_removed_decreases(
    q: Seq<char>,
    stop: Seq<Seq<char>>,
    i: int,
    in_phrase: bool,
    started: bool,
    gap: bool,
) {
    if 0 <= i < q.len() && !is_white_char(q[i]) {
        lemma_run_end(q, i);
    }
}

/// `q` without the stop words that stand alone outside quotes; outside
/// quotes the remaining words are joined by single spaces.
pub open spec fn stops_removed(q: Seq<char>, stop: Seq<Seq<char>>) -> Seq<char> {
    stops_removed_from(q, stop, 0, false, false, false)
}

proof fn lemma_run_end_shift(a: Seq<char>, r: Seq<char>, i: int)
    requires
        a.len() <= i <= a.len() + r.len(),
    ensures
        run_end(a + r, i) == run_end(r, i - a.len()) + a.len(),
    decreases a.len() + r.len() - i,
{
    let q = a + r;
    if i < q.len() {
        assert(q[i] == r[i - a.len()]);
        if !is_white_char(q[i]) {
            lemma_run_end_shift(a, r, i + 1);
        }
    }
}

proof fn lemma_stops_shift(
    a: Seq<char>,
    r: Seq<char>,
    stop: Seq<Seq<char>>,
    i: int,
    p: bool,
    started: bool,
    gap: bool,
)
    requires
        a.len() <= i <= a.len() + r.len(),
    ensures
        stops_removed_from(a + r, stop, i, p, started, gap) == stops_removed_from(
            r,
            stop,
            i - a.len(),
            p,
            started,
            gap,
        ),
    decreases a.len() + r.len() - i,
{
    let q = a + r;
    let m = a.len() as int;
    if i < q.len() {
        assert(q[i] == r[i - m]);
        if is_white_char(q[i]) {
            lemma_stops_shift(a, r, stop, i + 1, p, started, p || gap);
            lemma_stops_shift(a, r, stop, i + 1, p, started, true);
            lemma_stops_shift(a, r, stop, i + 1, p, started, gap);
        } else {
            lemma_run_end_shift(a, r, i);
            lemma_run_end(q, i);
            let j = run_end(q, i);
            assert(q.subrange(i, j) =~= r.subrange(i - m, j - m));
            lemma_stops_shift(a, r, stop, j, p, started, gap);
            lemma_stops_shift(a, r, stop, j, p != odd_quotes(q.subrange(i, j)), true, false);
        }
    }
}

/// Before anything is kept, whether white space came first does not matter.
proof fn lemma_gap_before_start(q: Seq<char>, stop: Seq<Seq<char>>, i: int)
    requires
        0 <= i <= q.len(),
    ensures
        stops_removed_from(q, stop, i, false, false, true) == stops_removed_from(
            q,
            stop,
            i,
            false,
            false,
            false,
        ),
    decreases q.len() - i,
{
    if i < q.len() {
        if is_white_char(q[i]) {
            lemma_gap_before_start(q, stop, i + 1);
        } else {
            lemma_run_end(q, i);
            lemma_gap_before_start(q, stop, run_end(q, i));
        }
    }
}

proof fn lemma_run_end_at(q: Seq<char>, i: int, j: int)
    requires
        0 <= i <= j < q.len(),
        forall|k: int| i <= k < j ==> !is_white_char(#[trigger] q[k]),
        is_white_char(q[j]),
    ensures
        run_end(q, i) == j,
    decreases j - i,
{
    if i < j {
        lemma_run_end_at(q, i + 1, j);
    }
}

/// A query that starts with a stop word and a space filters to the same
/// text as the rest of the query: the stop word is as good as absent.
pub proof fn lemma_leading_stop_word(w: Seq<char>, rest: Seq<char>, stop: Seq<Seq<char>>)
    requires
        stop.contains(w),
        w.len() > 0,
        forall|k: int| 0 <= k < w.len() ==> !is_white_char(#[trigger] w[k]),
    ensures
        stops_removed(w + seq![' '] + rest, stop) == stops_removed(rest, stop),
        tokens_of(stops_removed(w + seq![' '] + rest, stop)) == tokens_of(stops_removed(rest, stop)),
{
    let a = w + seq![' '];
    let q = a + rest;
    let m = w.len() as int;
    assert(q[0] == w[0]);
    assert forall|k: int| 0 <= k < m implies !is_white_char(#[trigger] q[k]) by {
        assert(q[k] == w[k]);
    }
    assert(q[m] == ' ');
    lemma_run_end_at(q, 0, m);
    assert(q.subrange(0, m) =~= w);
    lemma_stops_shift(a, rest, stop, m + 1, false, false, true);
    lemma_gap_before_start(rest, stop, 0);
    assert(stops_removed_from(q, stop, m + 1, false, false, true) == stops_removed(rest, stop));
    assert(stops_removed_from(q, stop, m, false, false, false) == stops_removed_from(
        q,
        stop,
        m + 1,
        false,
        false,
        true,
    ));
    assert(stops_removed_from(q, stop, 0, false, false, false) == stops_removed_from(
        q,
        stop,
        m,
        false,
        false,
        false,
    ));
}

/// The tokens of a raw query: it is trimmed and lower-cased; where there are
/// stop words, those outside quotes are removed; then it is split.
pub open spec fn query_tokens(query: Seq<char>, stop: Seq<Seq<char>>) -> Seq<TokenView> {
    let q = lower_text(trim_white(query));
    tokens_of(
        if stop.len() > 0 {
            stops_removed(q, stop)
        } else {
            q
        },
    )
}

/// The length of the run of non-white characters at the end of `s`.
pub open spec fn word_run(s: Seq<char>) -> nat
    decreases s.len(),
{
    if s.len() == 0 || is_white_char(s.last()) {
        0
    } else {
        1 + word_run(s.drop_last())
    }
}

proof fn lemma_word_run_bound(s: Seq<char>)
    ensures
        word_run(s) <= s.len(),
        s.len() > 0 && !is_white_char(s.last()) ==> word_run(s) >= 1,
    decreases s.len(),
{
    if s.len() > 0 {
        lemma_word_run_bound(s.drop_last());
    }
}

/// The words of `s`: its maximal runs of non-white characters, in order.
pub open spec fn split_words(s: Seq<char>) -> Seq<Seq<char>>
    decreases s.len()
        via split_words_decreases
{
    if s.len() == 0 {
        Seq::empty()
    } else if is_white_char(s.last()) {
        split_words(s.drop_last())
    } else {
        let k = s.len() - word_run(s);
        split_words(s.subrange(0, k)).push(s.subrange(k, s.len() as int))
    }
}

#[via_fn]
proof fn split_words_decreases(s: Seq<char>) {
    lemma_word_run_bound(s);
    if s.len() > 0 && !is_white_char(s.last()) {
        assert(s.subrange(0, s.len() - word_run(s)).len() < s.len());
    }
}

/// The number of bytes of a word in UTF-8.
pub open spec fn byte_len(w: Seq<char>) -> usize {
    encode_utf8(w).len() as usize
}

/// Every term of `idx` names documents below `n` only.
pub open spec fn ids_below(idx: Map<Seq<char>, Map<usize, Seq<usize>>>, n: nat) -> bool {
    forall|t: Seq<char>, d: usize|
        #[trigger] idx.contains_key(t) && #[trigger] idx[t].contains_key(d) ==> d < n
}

/// The documents that hold term `t`, each ranked by the number of times it
/// holds it.
pub open spec fn term_ranks(idx: Map<Seq<char>, Map<usize, Seq<usize>>>, t: Seq<char>) -> Map<
    usize,
    usize,
> {
    Map::new(
        |d: usize| idx.contains_key(t) && idx[t].contains_key(d),
        |d: usize| idx[t][d].len() as usize,
    )
}

/// Words `ws[k..]` of a phrase follow one another in document `d`, given that
/// word `ws[k - 1]` starts at `p`: each starts one byte after the end of the
/// one before.
pub open spec fn follows(
    idx: Map<Seq<char>, Map<usize, Seq<usize>>>,
    ws: Seq<Seq<char>>,
    d: usize,
    k: int,
    p: int,
) -> bool
    decreases ws.len() - k,
{
    if k >= ws.len() || k < 1 {
        true
    } else {
        let q = p + byte_len(ws[k - 1]) + 1;
        &&& q <= usize::MAX
        &&& idx.contains_key(ws[k])
        &&& idx[ws[k]].contains_key(d)
        &&& idx[ws[k]][d].contains(q as usize)
        &&& follows(idx, ws, d, k + 1, q)
    }
}

/// The phrase with words `ws` occurs in document `d`: at some position of its
/// first word, the others follow.
pub open spec fn phrase_in(
    idx: Map<Seq<char>, Map<usize, Seq<usize>>>,
    ws: Seq<Seq<char>>,
    d: usize,
) -> bool {
    &&& ws.len() > 0
    &&& idx.contains_key(ws[0])
    &&& idx[ws[0]].contains_key(d)
    &&& exists|j: int|
        0 <= j < idx[ws[0]][d].len() && follows(idx, ws, d, 1, #[trigger] idx[ws[0]][d][j] as int)
}

/// The rank of a phrase match: the number of times document `d` holds each
/// word of the phrase, summed over its words.
pub open spec fn phrase_rank(
    idx: Map<Seq<char>, Map<usize, Seq<usize>>>,
    ws: Seq<Seq<char>>,
    d: usize,
) -> usize
    decreases ws.len(),
{
    if ws.len() == 0 {
        0
    } else {
        sat_add(phrase_rank(idx, ws.drop_last(), d), idx[ws.last()][d].len() as usize)
    }
}

/// The documents in which the phrase with words `ws` occurs, with their ranks.
pub open spec fn phrase_ranks(idx: Map<Seq<char>, Map<usize, Seq<usize>>>, ws: Seq<Seq<char>>) -> Map<
    usize,
    usize,
> {
    Map::new(|d: usize| phrase_in(idx, ws, d), |d: usize| phrase_rank(idx, ws, d))
}

/// The documents that a token matches, with their ranks.
pub open spec fn token_ranks(idx: Map<Seq<char>, Map<usize, Seq<usize>>>, tok: TokenView) -> Map<
    usize,
    usize,
> {
    match tok {
        TokenView::Term(t) => term_ranks(idx, t),
        TokenView::Phrase(p) => phrase_ranks(idx, split_words(p)),
    }
}

/// A phrase of one word matches the same documents as that word as a term,
/// with the same ranks.
pub proof fn lemma_one_word_phrase(idx: Map<Seq<char>, Map<usize, Seq<usize>>>, w: Seq<char>)
    requires
        nonempty_lists(idx),
    ensures
        phrase_ranks(idx, seq![w]) == term_ranks(idx, w),
{
    let ws = seq![w];
    assert forall|d: usize| phrase_in(idx, ws, d) <==> term_ranks(idx, w).contains_key(d) by {
        if idx.contains_key(w) && idx[w].contains_key(d) {
            assert(idx[ws[0]][d].len() > 0);
            assert(follows(idx, ws, d, 1, idx[ws[0]][d][0] as int));
        }
    }
    assert forall|d: usize| #[trigger] phrase_ranks(idx, ws).contains_key(d) implies phrase_ranks(
        idx,
        ws,
    )[d] == term_ranks(idx, w)[d] by {
        assert(ws.drop_last() =~= Seq::<Seq<char>>::empty());
        assert(phrase_rank(idx, ws.drop_last(), d) == 0);
    }
    assert(phrase_ranks(idx, ws) =~= term_ranks(idx, w));
}

/// A token of a query: a bare term or a quoted phrase.
pub enum QueryToken {
    Term { value: String },
    Phrase { value: String },
}

impl View for QueryToken {
    type V = TokenView;

    open spec fn view(&self) -> TokenView {
        match self {
            QueryToken::Term { value } => TokenView::Term(value@),
            QueryToken::Phrase { value } => TokenView::Phrase(value@),
        }
    }
}

impl PartialEq for QueryToken {
    fn eq(&self, other: &QueryToken) -> (r: bool) {
        match (self, other) {
            (QueryToken::Term { value: a }, QueryToken::Term { value: b }) => <str as PartialEq>::eq(a.as_str(), b.as_str()),
            (QueryToken::Phrase { value: a }, QueryToken::Phrase { value: b }) => <str as PartialEq>::eq(a.as_str(), b.as_str()),
            _ => false,
        }
    }
}

impl vstd::std_specs::cmp::PartialEqSpecImpl for QueryToken {
    open spec fn obeys_eq_spec() -> bool {
        true
    }

    open spec fn eq_spec(&self, other: &QueryToken) -> bool {
        self@ == other@
    }
}

/// The values of a list of tokens.
pub open spec fn token_views(ts: Seq<QueryToken>) -> Seq<TokenView> {
    ts.map_values(|t: QueryToken| t@)
}

impl QueryToken {
    /// Appends `c` to the token's text.
    pub fn push(&mut self, c: char)
        ensures
            final(self)@ == old(self)@.push(c),
    {
        match self {
            QueryToken::Term { value } => value.push(c),
            QueryToken::Phrase { value } => value.push(c),
        }
    }

    /// Whether the token's text is empty.
    pub fn is_empty(&self) -> (r: bool)
        ensures
            r == (self@.text().len() == 0),
    {
        match self {
            QueryToken::Term { value } => value.as_str().is_empty(),
            QueryToken::Phrase { value } => value.as_str().is_empty(),
        }
    }

    fn is_phrase(&self) -> (r: bool)
        ensures
            r == (self@ is Phrase),
    {
        match self {
            QueryToken::Term { .. } => false,
            QueryToken::Phrase { .. } => true,
        }
    }
}

/// The texts of a list of strings.
pub open spec fn string_views(v: Seq<String>) -> Seq<Seq<char>> {
    v.map_values(|s: String| s@)
}

/// Splits an already normalised query into tokens.
fn tokenize(q: &str) -> (r: Vec<QueryToken>)
    ensures
        token_views(r@) == tokens_of(q@),
{
    let n = q.unicode_len();
    let mut tokens: Vec<QueryToken> = Vec::new();
    let mut token = QueryToken::Term { value: String::new() };
    let mut i: usize = 0;
    assert(token_views(tokens@) =~= Seq::<TokenView>::empty());
    assert(q@.subrange(0, 0) =~= Seq::<char>::empty());
    while i < n
        invariant
            n == q@.len(),
            0 <= i <= n,
            (token_views(tokens@), token@) == scan(q@.subrange(0, i as int)),
        decreases n - i,
    {
        let c = q.get_char(i);
        let ghost pre = q@.subrange(0, i as int);
        let ghost next = q@.subrange(0, i + 1);
        let ghost done = tokens@;
        assert(next.drop_last() =~= pre);
        assert(next.last() == c);
        if c == '"' {
            if token.is_phrase() {
                tokens.push(token);
                assert(token_views(tokens@) =~= token_views(done).push(scan(pre).1));
                token = QueryToken::Term { value: String::new() };
            } else {
                token = QueryToken::Phrase { value: String::new() };
            }
        } else if c == ' ' {
            if token.is_phrase() {
                token.push(c);
            } else if !token.is_empty() {
                tokens.push(token);
                assert(token_views(tokens@) =~= token_views(done).push(scan(pre).1));
                token = QueryToken::Term { value: String::new() };
            }
        } else {
            token.push(c);
        }
        i = i + 1;
    }
    assert(q@.subrange(0, n as int) =~= q@);
    if !token.is_empty() {
        let ghost done = tokens@;
        tokens.push(token);
        assert(token_views(tokens@) =~= token_views(done).push(scan(q@).1));
    }
    tokens
}

/// Whether `w` is one of `stop_words`.
fn is_stop_word(w: &String, stop_words: &Vec<String>) -> (r: bool)
    ensures
        r == string_views(stop_words@).contains(w@),
{
    let mut i: usize = 0;
    while i < stop_words.len()
        invariant
            0 <= i <= stop_words.len(),
            forall|k: int| 0 <= k < i ==> stop_words@[k]@ != w@,
        decreases stop_words.len() - i,
    {
        if stop_words[i] == *w {
            assert(string_views(stop_words@)[i as int] == w@);
            return true;
        }
        i = i + 1;
    }
    proof {
        if string_views(stop_words@).contains(w@) {
            let k = choose|k: int|
                0 <= k < string_views(stop_words@).len() && string_views(stop_words@)[k] == w@;
            assert(stop_words@[k]@ == w@);
        }
    }
    false
}

/// Removes the stop words that stand alone outside quotes: each word (a
/// maximal run of non-white characters) outside quotes that is one of
/// `stop_words` goes, and the words kept outside quotes are separated by
/// single spaces, with none at either end. The text between quotes is kept
/// as it is.
pub fn remove_stop_words(query: &str, stop_words: &Vec<String>) -> (r: String)
    ensures
        r@ == stops_removed(query@, string_views(stop_words@)),
{
    let ghost q = query@;
    let ghost stop = string_views(stop_words@);
    let n = query.unicode_len();
    let mut out = String::new();
    let mut in_phrase = false;
    let mut started = false;
    let mut gap = false;
    let mut i: usize = 0;
    assert(out@ + stops_removed_from(q, stop, 0, false, false, false) =~= stops_removed(q, stop));
    while i < n
        invariant
            n == q.len(),
            q == query@,
            stop == string_views(stop_words@),
            0 <= i <= n,
            out@ + stops_removed_from(q, stop, i as int, in_phrase, started, gap) == stops_removed(
                q,
                stop,
            ),
        decreases n - i,
    {
        let c = query.get_char(i);
        if is_white(c) {
            if in_phrase {
                let ghost rest = stops_removed_from(q, stop, i + 1, true, started, gap);
                let ghost before = out@;
                out.push(c);
                assert(before + (seq![c] + rest) =~= out@ + rest);
            } else {
                gap = true;
            }
            i = i + 1;
        } else {
            let mut word = String::new();
            let mut odd = false;
            let mut j: usize = i;
            assert(q.subrange(i as int, i as int) =~= Seq::<char>::empty());
            while j < n && !is_white(query.get_char(j))
                invariant
                    n == q.len(),
                    q == query@,
                    i <= j <= n,
                    word@ == q.subrange(i as int, j as int),
                    odd == odd_quotes(word@),
                    run_end(q, i as int) == run_end(q, j as int),
                decreases n - j,
            {
                let d = query.get_char(j);
                let ghost w0 = word@;
                word.push(d);
                assert(word@.drop_last() =~= w0);
                assert(word@ =~= q.subrange(i as int, j + 1));
                if d == '"' {
                    odd = !odd;
                }
                j = j + 1;
            }
            assert(run_end(q, j as int) == j);
            if in_phrase || !is_stop_word(&word, stop_words) {
                let ghost rest = stops_removed_from(q, stop, j as int, in_phrase != odd, true, false);
                let ghost before = out@;
                let ghost sep = if !in_phrase && started && gap {
                    seq![' ']
                } else {
                    Seq::<char>::empty()
                };
                if !in_phrase && started && gap {
                    out.push(' ');
                }
                out.push_str(word.as_str());
                assert(before + (sep + word@ + rest) =~= out@ + rest);
                in_phrase = in_phrase != odd;
                started = true;
                gap = false;
            }
            i = j;
        }
    }
    assert(stops_removed_from(q, stop, i as int, in_phrase, started, gap) =~= Seq::<char>::empty());
    assert(out@ =~= stops_removed(q, stop));
    out
}

/// Parses a query into its tokens.
///
/// The query is trimmed and lower-cased. With stop words given, those that
/// stand alone outside quotes are removed (see `remove_stop_words`). Then a
/// double quote opens or closes a phrase, whose text keeps its spaces; outside
/// a phrase a space ends a term.
pub fn query_to_tokens(query: &str, stop_words: &Vec<String>) -> (r: Vec<QueryToken>)
    ensures
        token_views(r@) == query_tokens(query@, string_views(stop_words@)),
{
    let q = lowercase(trim_str(query));
    if stop_words.len() > 0 {
        let filtered = remove_stop_words(q.as_str(), stop_words);
        tokenize(filtered.as_str())
    } else {
        tokenize(q.as_str())
    }
}

/// Splits `s` into its words, at runs of white space.
pub fn split_phrase(s: &str) -> (r: Vec<String>)
    ensures
        string_views(r@) == split_words(s@),
{
    let n = s.unicode_len();
    let mut out: Vec<String> = Vec::new();
    let mut word = String::new();
    let mut i: usize = 0;
    assert(s@.subrange(0, 0) =~= Seq::<char>::empty());
    assert(string_views(out@) =~= Seq::<Seq<char>>::empty());
    while i < n
        invariant
            n == s@.len(),
            0 <= i <= n,
            word_run(s@.subrange(0, i as int)) <= i,
            word@ == s@.subrange(i - word_run(s@.subrange(0, i as int)), i as int),
            string_views(out@) == split_words(
                s@.subrange(0, i - word_run(s@.subrange(0, i as int))),
            ),
        decreases n - i,
    {
        let c = s.get_char(i);
        let ghost pre = s@.subrange(0, i as int);
        let ghost next = s@.subrange(0, i + 1);
        assert(next.drop_last() =~= pre);
        assert(next.last() == c);
        proof {
            lemma_word_run_bound(pre);
        }
        if !is_white(c) {
            assert(word_run(next) == 1 + word_run(pre));
            word.push(c);
            assert(word@ =~= s@.subrange(i + 1 - word_run(next), i + 1));
        } else if !word.as_str().is_empty() {
            let ghost k = word_run(pre);
            assert(word_run(next) == 0);
            assert(split_words(next) == split_words(pre));
            assert(pre.subrange(0, i - k) =~= s@.subrange(0, i - k));
            assert(pre.subrange(i - k, i as int) =~= word@);
            let ghost ov = out@;
            out.push(word);
            assert(string_views(out@) =~= string_views(ov).push(pre.subrange(i - k, i as int)));
            word = String::new();
            assert(s@.subrange(0, i + 1 - word_run(next)) =~= next);
            assert(word@ =~= s@.subrange(i + 1 - word_run(next), i + 1));
        } else {
            assert(word_run(next) == 0);
            assert(split_words(next) == split_words(pre));
            assert(s@.subrange(0, i + 1 - word_run(next)) =~= next);
            assert(s@.subrange(0, i - word_run(pre)) =~= pre);
            assert(word@ =~= s@.subrange(i + 1 - word_run(next), i + 1));
        }
        i = i + 1;
    }
    assert(s@.subrange(0, i as int) =~= s@);
    proof {
        lemma_word_run_bound(s@);
    }
    if !word.as_str().is_empty() {
        let ghost k = word_run(s@);
        assert(s@.subrange(i - k, i as int) =~= word@);
        let ghost ov = out@;
        out.push(word);
        assert(string_views(out@) =~= string_views(ov).push(word@));
    } else {
        assert(s@.subrange(0, i - word_run(s@)) =~= s@);
    }
    out
}

/// Searches for a bare term: every document that holds it, ranked by the
/// number of times it holds it.
pub fn handle_term(term: &str, index: &MemIndex, docs: &DocTable) -> (r: Vec<QueryResult>)
    requires
        index.wf(),
        ids_below(index@, docs@.len()),
    ensures
        lists_ranks(r@, term_ranks(index@, term@), docs@),
{
    let mut out: Vec<QueryResult> = Vec::new();
    match index.search(term) {
        None => {
            assert(lists_ranks(out@, term_ranks(index@, term@), docs@));
        },
        Some(p) => {
            proof {
                p.lemma_doc_ids();
            }
            let n = p.len();
            let mut i: usize = 0;
            while i < n
                invariant
                    n == p.doc_ids().len(),
                    0 <= i <= n,
                    p.wf(),
                    index@.contains_key(term@),
                    p@ == index@[term@],
                    ids_below(index@, docs@.len()),
                    p.doc_ids().no_duplicates(),
                    forall|d: usize| #[trigger] p@.contains_key(d) <==> p.doc_ids().contains(d),
                    out.len() == i,
                    forall|k: int|
                        0 <= k < i ==> (#[trigger] out@[k]).doc_id == p.doc_ids()[k] && out@[k].rank
                            == p@[p.doc_ids()[k]].len() && out@[k].doc_id < docs@.len()
                            && out@[k].doc_name@ == docs@[out@[k].doc_id as int],
                decreases n - i,
            {
                let d = p.doc_id(i);
                assert(p.doc_ids().contains(d));
                assert(index@[term@].contains_key(d));
                let ps = p.positions(i);
                out.push(QueryResult::from(d, ps, docs));
                i = i + 1;
            }
            let ghost ranks = term_ranks(index@, term@);
            assert forall|id: usize| #[trigger] ranks.contains_key(id) implies exists|k: int|
                0 <= k < out@.len() && out@[k].doc_id == id by {
                assert(p.doc_ids().contains(id));
                let k = choose|k: int| 0 <= k < n && p.doc_ids()[k] == id;
                assert(out@[k].doc_id == id);
            }
            assert forall|k: int| 0 <= k < out@.len() implies #[trigger] ranks.contains_key(
                out@[k].doc_id,
            ) && out@[k].rank == ranks[out@[k].doc_id] && out@[k].doc_id < docs@.len()
                && out@[k].doc_name@ == docs@[out@[k].doc_id as int] by {
                assert(p.doc_ids().contains(p.doc_ids()[k]));
            }
        },
    }
    out
}

/// Whether `x` is one of `v`.
fn contains_pos(v: &Vec<usize>, x: usize) -> (r: bool)
    ensures
        r == v@.contains(x),
{
    let mut i: usize = 0;
    while i < v.len()
        invariant
            0 <= i <= v.len(),
            forall|k: int| 0 <= k < i ==> v@[k] != x,
        decreases v.len() - i,
    {
        if v[i] == x {
            return true;
        }
        i = i + 1;
    }
    false
}

/// Whether the words after the first follow it in document `d`, the first
/// starting at `p`.
fn follows_from(index: &MemIndex, ws: &Vec<String>, d: usize, p: usize) -> (r: bool)
    requires
        index.wf(),
    ensures
        r == follows(index@, string_views(ws@), d, 1, p as int),
{
    let ghost v = string_views(ws@);
    let mut k: usize = 1;
    let mut cur = p;
    while k < ws.len()
        invariant
            index.wf(),
            v == string_views(ws@),
            1 <= k,
            follows(index@, v, d, 1, p as int) == follows(index@, v, d, k as int, cur as int),
        decreases ws.len() - k,
    {
        let step = ws[k - 1].as_str().len();
        assert(v[k - 1] == ws@[k - 1]@);
        assert(v[k as int] == ws@[k as int]@);
        if step >= usize::MAX - cur {
            return false;
        }
        let q = cur + step + 1;
        match index.search(ws[k].as_str()) {
            None => {
                return false;
            },
            Some(pp) => {
                match pp.get(d) {
                    None => {
                        return false;
                    },
                    Some(list) => {
                        if !contains_pos(list, q) {
                            return false;
                        }
                    },
                }
            },
        }
        cur = q;
        k = k + 1;
    }
    true
}

/// Every word of `ws` occurs in document `d`.
pub open spec fn holds_all(idx: Map<Seq<char>, Map<usize, Seq<usize>>>, ws: Seq<Seq<char>>, d: usize) -> bool {
    forall|k: int|
        0 <= k < ws.len() ==> #[trigger] idx.contains_key(ws[k]) && idx[ws[k]].contains_key(d)
}

proof fn lemma_follows_holds(
    idx: Map<Seq<char>, Map<usize, Seq<usize>>>,
    ws: Seq<Seq<char>>,
    d: usize,
    k: int,
    p: int,
)
    requires
        k >= 1,
        follows(idx, ws, d, k, p),
    ensures
        forall|j: int| k <= j < ws.len() ==> #[trigger] idx.contains_key(ws[j]) && idx[ws[j]].contains_key(d),
    decreases ws.len() - k,
{
    if k < ws.len() {
        lemma_follows_holds(idx, ws, d, k + 1, p + byte_len(ws[k - 1]) + 1);
    }
}

/// The rank of a phrase match in document `d`.
fn rank_of_phrase(index: &MemIndex, ws: &Vec<String>, d: usize) -> (r: usize)
    requires
        index.wf(),
        holds_all(index@, string_views(ws@), d),
    ensures
        r == phrase_rank(index@, string_views(ws@), d),
{
    let ghost v = string_views(ws@);
    let mut acc: usize = 0;
    let mut k: usize = 0;
    assert(v.subrange(0, 0) =~= Seq::<Seq<char>>::empty());
    while k < ws.len()
        invariant
            index.wf(),
            v == string_views(ws@),
            holds_all(index@, v, d),
            0 <= k <= ws.len(),
            acc == phrase_rank(index@, v.subrange(0, k as int), d),
        decreases ws.len() - k,
    {
        assert(v[k as int] == ws@[k as int]@);
        assert(index@.contains_key(v[k as int]));
        let pp = index.search(ws[k].as_str()).unwrap();
        let list = pp.get(d).unwrap();
        let ghost next = v.subrange(0, k + 1);
        assert(next.drop_last() =~= v.subrange(0, k as int));
        assert(next.last() == v[k as int]);
        acc = acc.saturating_add(list.len());
        k = k + 1;
    }
    assert(v.subrange(0, k as int) =~= v);
    acc
}

/// Searches for a phrase: every document in which its words occur one after
/// the other, ranked by the number of times it holds each word of the
/// phrase, summed. A phrase without words matches nothing.
pub fn handle_phrase(phrase: &str, index: &MemIndex, docs: &DocTable) -> (r: Vec<QueryResult>)
    requires
        index.wf(),
        ids_below(index@, docs@.len()),
    ensures
        lists_ranks(r@, phrase_ranks(index@, split_words(phrase@)), docs@),
{
    let ws = split_phrase(phrase);
    let ghost v = string_views(ws@);
    let ghost ranks = phrase_ranks(index@, v);
    let mut out: Vec<QueryResult> = Vec::new();
    if ws.len() == 0 {
        assert(lists_ranks(out@, ranks, docs@));
        return out;
    }
    assert(v[0] == ws@[0]@);
    match index.search(ws[0].as_str()) {
        None => {
            assert(lists_ranks(out@, ranks, docs@));
        },
        Some(p) => {
            proof {
                p.lemma_doc_ids();
            }
            let n = p.len();
            let mut i: usize = 0;
            while i < n
                invariant
                    n == p.doc_ids().len(),
                    0 <= i <= n,
                    p.wf(),
                    index.wf(),
                    ws.len() > 0,
                    v == string_views(ws@),
                    ranks == phrase_ranks(index@, v),
                    index@.contains_key(v[0]),
                    p@ == index@[v[0]],
                    ids_below(index@, docs@.len()),
                    p.doc_ids().no_duplicates(),
                    forall|d: usize| #[trigger] p@.contains_key(d) <==> p.doc_ids().contains(d),
                    forall|a: int, b: int| 0 <= a < b < out.len() ==> out@[a].doc_id != out@[b].doc_id,
                    forall|a: int|
                        0 <= a < out.len() ==> exists|k: int|
                            0 <= k < i && p.doc_ids()[k] == (#[trigger] out@[a]).doc_id,
                    forall|a: int|
                        0 <= a < out.len() ==> #[trigger] ranks.contains_key(out@[a].doc_id)
                            && out@[a].rank == ranks[out@[a].doc_id] && out@[a].doc_id
                            < docs@.len() && out@[a].doc_name@ == docs@[out@[a].doc_id as int],
                    forall|k: int|
                        0 <= k < i && ranks.contains_key(#[trigger] p.doc_ids()[k]) ==> exists|a: int|
                            0 <= a < out.len() && out@[a].doc_id == p.doc_ids()[k],
                decreases n - i,
            {
                let d = p.doc_id(i);
                assert(p.doc_ids().contains(d));
                let ps = p.positions(i);
                let mut found = false;
                let mut j: usize = 0;
                while j < ps.len() && !found
                    invariant
                        index.wf(),
                        0 <= j <= ps.len(),
                        ps@ == index@[v[0]][d],
                        v == string_views(ws@),
                        found ==> phrase_in(index@, v, d),
                        !found ==> forall|jj: int|
                            0 <= jj < j ==> !follows(index@, v, d, 1, #[trigger] ps@[jj] as int),
                        ws.len() > 0,
                        index@.contains_key(v[0]),
                        index@[v[0]].contains_key(d),
                    decreases ps.len() - j + (if found { 0int } else { 1int }),
                {
                    if follows_from(index, &ws, d, ps[j]) {
                        assert(follows(index@, v, d, 1, index@[v[0]][d][j as int] as int));
                        found = true;
                    } else {
                        j = j + 1;
                    }
                }
                if found {
                    proof {
                        let jj = choose|jj: int|
                            0 <= jj < index@[v[0]][d].len() && follows(
                                index@,
                                v,
                                d,
                                1,
                                #[trigger] index@[v[0]][d][jj] as int,
                            );
                        lemma_follows_holds(index@, v, d, 1, index@[v[0]][d][jj] as int);
                        assert(holds_all(index@, v, d));
                    }
                    let rank = rank_of_phrase(index, &ws, d);
                    let name = docs.get_name(d).unwrap();
                    let ghost ov = out@;
                    proof {
                        assert forall|a: int| 0 <= a < ov.len() implies ov[a].doc_id != d by {
                            let k = choose|k: int| 0 <= k < i && p.doc_ids()[k] == ov[a].doc_id;
                        }
                    }
                    out.push(QueryResult::new(d, name.to_owned(), rank));
                    assert forall|a: int| 0 <= a < out.len() implies exists|k: int|
                        0 <= k < i + 1 && p.doc_ids()[k] == (#[trigger] out@[a]).doc_id by {
                        if a < ov.len() {
                            assert(out@[a] == ov[a]);
                            let k = choose|k: int| 0 <= k < i && p.doc_ids()[k] == ov[a].doc_id;
                        } else {
                            assert(p.doc_ids()[i as int] == out@[a].doc_id);
                        }
                    }
                    assert forall|a: int| 0 <= a < out.len() implies #[trigger] ranks.contains_key(
                        out@[a].doc_id,
                    ) && out@[a].rank == ranks[out@[a].doc_id] && out@[a].doc_id < docs@.len()
                        && out@[a].doc_name@ == docs@[out@[a].doc_id as int] by {
                        if a < ov.len() {
                            assert(out@[a] == ov[a]);
                        }
                    }
                    assert forall|k: int|
                        0 <= k < i + 1 && ranks.contains_key(#[trigger] p.doc_ids()[k]) implies exists|a: int|
                        0 <= a < out.len() && out@[a].doc_id == p.doc_ids()[k] by {
                        if k < i {
                            let a = choose|a: int| 0 <= a < ov.len() && ov[a].doc_id == p.doc_ids()[k];
                            assert(out@[a] == ov[a]);
                        } else {
                            assert(out@[ov.len() as int].doc_id == p.doc_ids()[k]);
                        }
                    }
                } else {
                    assert(!phrase_in(index@, v, d));
                }
                i = i + 1;
            }
            assert forall|id: usize| #[trigger] ranks.contains_key(id) implies exists|a: int|
                0 <= a < out@.len() && out@[a].doc_id == id by {
                assert(p@.contains_key(id));
                assert(p.doc_ids().contains(id));
                let k = choose|k: int| 0 <= k < n && p.doc_ids()[k] == id;
                assert(ranks.contains_key(p.doc_ids()[k]));
            }
        },
    }
    out
}

impl QueryToken {
    /// Searches the index for this token.
    pub fn search(&self, index: &MemIndex, docs: &DocTable) -> (r: Vec<QueryResult>)
        requires
            index.wf(),
            ids_below(index@, docs@.len()),
        ensures
            lists_ranks(r@, token_ranks(index@, self@), docs@),
    {
        match self {
            QueryToken::Term { value } => handle_term(value.as_str(), index, docs),
            QueryToken::Phrase { value } => handle_phrase(value.as_str(), index, docs),
        }
    }
}

} // verus!
