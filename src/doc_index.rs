//! Extraction of one document's inverted index: each term with the byte
//! offsets at which it starts, in order.

use vstd::prelude::*;
use crate::text::{
    count_lead_punct, decode_lossy, is_space, is_space_byte, lead_punct, lossy_text, lower_byte,
    to_lower_byte, trim_punct, trim_punctuation,
};

verus! {

/// The length of the run of non-whitespace bytes at the end of `c`.
pub open spec fn run_len(c: Seq<u8>) -> nat
    decreases c.len(),
{
    if c.len() == 0 || is_space_byte(c.last()) {
        0
    } else {
        1 + run_len(c.drop_last())
    }
}

proof fn lemma_run_len_bound(c: Seq<u8>)
    ensures
        run_len(c) <= c.len(),
        c.len() > 0 && !is_space_byte(c.last()) ==> run_len(c) >= 1,
    decreases c.len(),
{
    if c.len() > 0 {
        lemma_run_len_bound(c.drop_last());
    }
}

/// The words of `c` in order: each maximal run of non-whitespace bytes, with
/// the offset at which it starts.
pub open spec fn words(c: Seq<u8>) -> Seq<(int, Seq<u8>)>
    decreases c.len()
        via words_decreases
{
    if c.len() == 0 {
        Seq::empty()
    } else if is_space_byte(c.last()) {
        words(c.drop_last())
    } else {
        let s = c.len() - run_len(c);
        words(c.subrange(0, s)).push((s, c.subrange(s, c.len() as int)))
    }
}

#[via_fn]
proof fn words_decreases(c: Seq<u8>) {
    lemma_run_len_bound(c);
    if c.len() > 0 && !is_space_byte(c.last()) {
        assert(c.subrange(0, c.len() - run_len(c)).len() < c.len());
    }
}

/// The term that a word stands for: its decoded text without leading and
/// trailing punctuation.
pub open spec fn term_of(w: Seq<u8>) -> Seq<char> {
    trim_punct(lossy_text(w))
}

/// `m` with position `p` appended to the list of term `t`.
pub open spec fn with_position(m: Map<Seq<char>, Seq<usize>>, t: Seq<char>, p: usize) -> Map<
    Seq<char>,
    Seq<usize>,
> {
    if m.contains_key(t) {
        m.insert(t, m[t].push(p))
    } else {
        m.insert(t, seq![p])
    }
}

/// The index of a sequence of words: each word whose term is not empty adds
/// the offset at which that term starts to the term's list.
pub open spec fn index_of_words(ws: Seq<(int, Seq<u8>)>) -> Map<Seq<char>, Seq<usize>>
    decreases ws.len(),
{
    if ws.len() == 0 {
        Map::empty()
    } else {
        let m = index_of_words(ws.drop_last());
        let w = ws.last();
        let t = term_of(w.1);
        if t.len() == 0 {
            m
        } else {
            with_position(m, t, (w.0 + lead_punct(w.1)) as usize)
        }
    }
}

/// `c` with ASCII capitals in lower case.
pub open spec fn lowered(c: Seq<u8>) -> Seq<u8> {
    c.map_values(|b: u8| lower_byte(b))
}

/// The inverted index of a document's content.
pub open spec fn index_of(c: Seq<u8>) -> Map<Seq<char>, Seq<usize>> {
    index_of_words(words(lowered(c)))
}

/// The positions increase strictly.
pub open spec fn ascending(s: Seq<usize>) -> bool {
    forall|a: int, b: int| 0 <= a < b < s.len() ==> s[a] < s[b]
}

proof fn lemma_run_len_start(c: Seq<u8>)
    ensures
        run_len(c) <= c.len(),
        c.len() - run_len(c) > 0 ==> is_space_byte(c[c.len() - run_len(c) - 1]),
    decreases c.len(),
{
    if c.len() > 0 && !is_space_byte(c.last()) {
        lemma_run_len_start(c.drop_last());
    }
}

/// Each word lies inside `c`, is not empty, and ends before the next starts.
proof fn lemma_words_ordered(c: Seq<u8>)
    ensures
        forall|i: int|
            0 <= i < words(c).len() ==> 0 <= (#[trigger] words(c)[i]).0 && words(c)[i].1.len() >= 1
                && words(c)[i].0 + words(c)[i].1.len() <= c.len(),
        forall|i: int, j: int|
            0 <= i < j < words(c).len() ==> (#[trigger] words(c)[i]).0 + words(c)[i].1.len() < (
            #[trigger] words(c)[j]).0,
        c.len() > 0 && is_space_byte(c.last()) ==> forall|i: int|
            0 <= i < words(c).len() ==> (#[trigger] words(c)[i]).0 + words(c)[i].1.len() < c.len(),
    decreases c.len(),
{
    if c.len() > 0 {
        if is_space_byte(c.last()) {
            lemma_words_ordered(c.drop_last());
            assert(words(c) == words(c.drop_last()));
        } else {
            lemma_run_len_bound(c);
            lemma_run_len_start(c);
            let k = c.len() - run_len(c);
            let pre = c.subrange(0, k);
            lemma_words_ordered(pre);
            let ws = words(c);
            assert(ws == words(pre).push((k, c.subrange(k, c.len() as int))));
            if k > 0 {
                assert(pre.last() == c[k - 1]);
            }
            assert forall|i: int| 0 <= i < ws.len() implies 0 <= (#[trigger] ws[i]).0 && ws[i].1.len()
                >= 1 && ws[i].0 + ws[i].1.len() <= c.len() by {
                if i < ws.len() - 1 {
                    assert(ws[i] == words(pre)[i]);
                }
            }
            assert forall|i: int, j: int| 0 <= i < j < ws.len() implies (#[trigger] ws[i]).0
                + ws[i].1.len() < (#[trigger] ws[j]).0 by {
                assert(ws[i] == words(pre)[i]);
                if j < ws.len() - 1 {
                    assert(ws[j] == words(pre)[j]);
                }
            }
        }
    }
}

/// The index of words that lie in order holds each term's positions in
/// increasing order, each no later than the end of the last word.
proof fn lemma_index_of_words_ascending(ws: Seq<(int, Seq<u8>)>)
    requires
        forall|i: int|
            0 <= i < ws.len() ==> 0 <= (#[trigger] ws[i]).0 && ws[i].0 + ws[i].1.len()
                <= usize::MAX,
        forall|i: int, j: int|
            0 <= i < j < ws.len() ==> (#[trigger] ws[i]).0 + ws[i].1.len() < (#[trigger] ws[j]).0,
    ensures
        forall|t: Seq<char>|
            #[trigger] index_of_words(ws).contains_key(t) ==> ascending(index_of_words(ws)[t])
                && forall|e: int|
                0 <= e < index_of_words(ws)[t].len() ==> index_of_words(ws)[t][e] <= ws.last().0
                    + ws.last().1.len(),
    decreases ws.len(),
{
    if ws.len() > 0 {
        let prev = ws.drop_last();
        lemma_index_of_words_ascending(prev);
        let m = index_of_words(prev);
        let w = ws.last();
        let t = term_of(w.1);
        lemma_lead_punct_bound(w.1);
        let p = (w.0 + lead_punct(w.1)) as usize;
        assert(p == w.0 + lead_punct(w.1));
        if prev.len() > 0 {
            assert(prev.last() == ws[ws.len() - 2]);
            assert(prev.last().0 + prev.last().1.len() < w.0);
        }
        assert forall|u: Seq<char>| #[trigger] index_of_words(ws).contains_key(u) implies ascending(
            index_of_words(ws)[u],
        ) && forall|e: int|
            0 <= e < index_of_words(ws)[u].len() ==> index_of_words(ws)[u][e] <= w.0 + w.1.len() by {
            if t.len() > 0 && u == t {
                if m.contains_key(t) {
                    let l = m[t];
                    assert(index_of_words(ws)[u] == l.push(p));
                    assert forall|e: int| 0 <= e < l.len() implies l[e] < p by {}
                }
            } else {
                assert(m.contains_key(u));
            }
        }
    }
}

/// The positions of each term of a document's index increase strictly.
pub proof fn lemma_index_ascending(content: Seq<u8>)
    requires
        content.len() <= usize::MAX,
    ensures
        forall|t: Seq<char>| #[trigger] index_of(content).contains_key(t) ==> ascending(index_of(content)[t]),
{
    let low = lowered(content);
    lemma_words_ordered(low);
    lemma_index_of_words_ascending(words(low));
}

/// An inverted index of term positions for a single document.
///
/// Each term maps to the byte offsets at which it starts in the document, in
/// increasing order. For the document "My oh my!" it is
/// `{"my": [0, 6], "oh": [3]}`.
pub struct DocIndex {
    name: String,
    terms: Vec<String>,
    positions: Vec<Vec<usize>>,
    index: Ghost<Map<Seq<char>, Seq<usize>>>,
}

impl View for DocIndex {
    type V = Map<Seq<char>, Seq<usize>>;

    closed spec fn view(&self) -> Map<Seq<char>, Seq<usize>> {
        self.index@
    }
}

impl DocIndex {
    /// The terms and their lists describe the view, each term once, and no
    /// list is empty.
    pub closed spec fn wf(&self) -> bool {
        &&& self.terms.len() == self.positions.len()
        &&& forall|i: int| 0 <= i < self.positions.len() ==> (#[trigger] self.positions[i])@.len() > 0
        &&& forall|i: int, j: int|
            0 <= i < j < self.terms.len() ==> self.terms[i]@ != self.terms[j]@
        &&& forall|i: int|
            0 <= i < self.terms.len() ==> #[trigger] self.index@.contains_key(self.terms[i]@)
                && self.index@[self.terms[i]@] == self.positions[i]@
        &&& forall|t: Seq<char>|
            #[trigger] self.index@.contains_key(t) ==> exists|i: int|
                0 <= i < self.terms.len() && self.terms[i]@ == t
    }

    /// The name of the document.
    pub closed spec fn doc_name(&self) -> Seq<char> {
        self.name@
    }

    /// Creates an empty index for the document called `name`.
    pub fn new(name: &str) -> (r: DocIndex)
        ensures
            r.wf(),
            r@ == Map::<Seq<char>, Seq<usize>>::empty(),
            r.doc_name() == name@,
    {
        DocIndex {
            name: name.to_owned(),
            terms: Vec::new(),
            positions: Vec::new(),
            index: Ghost(Map::empty()),
        }
    }

    /// Returns the name of this document.
    pub fn name(&self) -> (r: &str)
        ensures
            r@ == self.doc_name(),
    {
        self.name.as_str()
    }

    /// Appends position `p` to the list of term `t`.
    fn record(&mut self, t: String, p: usize)
        requires
            old(self).wf(),
        ensures
            final(self).wf(),
            final(self)@ == with_position(old(self)@, t@, p),
            final(self).doc_name() == old(self).doc_name(),
    {
        let mut i: usize = 0;
        while i < self.terms.len() && self.terms[i] != t
            invariant
                0 <= i <= self.terms.len(),
                forall|k: int| 0 <= k < i ==> self.terms[k]@ != t@,
            decreases self.terms.len() - i,
        {
            i = i + 1;
        }
        let ghost m = self.index@;
        if i < self.terms.len() {
            self.positions[i].push(p);
            self.index = Ghost(m.insert(t@, m[t@].push(p)));
            assert forall|j: int| 0 <= j < self.terms.len() implies #[trigger] self.index@.contains_key(
                self.terms[j]@,
            ) && self.index@[self.terms[j]@] == self.positions[j]@ by {
                if j != i {
                    assert(old(self).index@.contains_key(old(self).terms[j]@));
                }
            }
            assert forall|u: Seq<char>| #[trigger] self.index@.contains_key(u) implies exists|k: int|
                0 <= k < self.terms.len() && self.terms[k]@ == u by {
                if u == t@ {
                    assert(self.terms[i as int]@ == u);
                } else {
                    assert(m.contains_key(u));
                }
            }
        } else {
            proof {
                if m.contains_key(t@) {
                    let k = choose|k: int| 0 <= k < self.terms.len() && self.terms[k]@ == t@;
                    assert(self.terms[k]@ != t@);
                }
            }
            self.terms.push(t);
            self.positions.push(vec![p]);
            self.index = Ghost(m.insert(t@, seq![p]));
            assert(self.positions[self.positions.len() - 1]@ =~= seq![p]);
            assert forall|j: int| 0 <= j < self.terms.len() implies #[trigger] self.index@.contains_key(
                self.terms[j]@,
            ) && self.index@[self.terms[j]@] == self.positions[j]@ by {
                if j < self.terms.len() - 1 {
                    assert(old(self).index@.contains_key(old(self).terms[j]@));
                }
            }
            assert forall|u: Seq<char>| #[trigger] self.index@.contains_key(u) implies exists|k: int|
                0 <= k < self.terms.len() && self.terms[k]@ == u by {
                if u == t@ {
                    assert(self.terms[self.terms.len() - 1]@ == u);
                } else {
                    assert(m.contains_key(u));
                    let k = choose|k: int| 0 <= k < old(self).terms.len() && old(self).terms[k]@ == u;
                    assert(self.terms[k]@ == u);
                }
            }
        }
    }

    /// Builds the index of a document from its content.
    ///
    /// The content is scanned byte by byte, with ASCII capitals lowered. Each
    /// maximal run of non-whitespace bytes is a word; the word is decoded as
    /// UTF-8 (invalid sequences replaced) and its leading and trailing ASCII
    /// punctuation removed. A non-empty result is a term, recorded at the
    /// offset where it starts: the word's offset plus its leading punctuation.
    pub fn from_bytes(name: &str, content: &[u8]) -> (r: DocIndex)
        ensures
            r.wf(),
            r@ == index_of(content@),
            r.doc_name() == name@,
            forall|t: Seq<char>| #[trigger] r@.contains_key(t) ==> ascending(r@[t]),
    {

        let ghost low = lowered(content@);
        let mut doc = DocIndex::new(name);
        let mut word: Vec<u8> = Vec::new();
        let mut pos: usize = 0;
        while pos < content.len()
            invariant
                0 <= pos <= content@.len(),
                low == lowered(content@),
                doc.wf(),
                doc.doc_name() == name@,
                run_len(low.subrange(0, pos as int)) <= pos,
                word@ == low.subrange(pos - run_len(low.subrange(0, pos as int)), pos as int),
                doc@ == index_of_words(
                    words(low.subrange(0, pos - run_len(low.subrange(0, pos as int)))),
                ),
            decreases content@.len() - pos,
        {
            let byte = to_lower_byte(content[pos]);
            let ghost pre = low.subrange(0, pos as int);
            let ghost next = low.subrange(0, pos + 1);
            assert(next.drop_last() =~= pre);
            assert(next.last() == byte);
            proof {
                lemma_run_len_bound(pre);
            }
            if !is_space(byte) {
                assert(run_len(next) == 1 + run_len(pre));
                word.push(byte);
                assert(word@ =~= low.subrange(pos + 1 - run_len(next), pos + 1));
            } else if word.len() > 0 {
                let ghost k = run_len(pre);
                assert(run_len(next) == 0);
                assert(words(next) == words(pre));
                assert(pre.len() > 0 && !is_space_byte(pre.last()));
                assert(pre.subrange(0, pos - k) =~= low.subrange(0, pos - k));
                assert(pre.subrange(pos - k, pos as int) =~= word@);
                assert(words(pre) == words(low.subrange(0, pos - k)).push((pos - k, word@)));
                let ghost ws = words(pre);
                assert(ws.drop_last() =~= words(low.subrange(0, pos - k)));
                doc.flush(&word, pos - word.len());
                word = Vec::new();
                assert(low.subrange(0, pos + 1 - run_len(next)) =~= next);
                assert(word@ =~= low.subrange(pos + 1 - run_len(next), pos + 1));
            } else {
                assert(run_len(next) == 0);
                assert(words(next) == words(pre));
                assert(low.subrange(0, pos + 1 - run_len(next)) =~= next);
                assert(low.subrange(0, pos - run_len(pre)) =~= pre);
                assert(word@ =~= low.subrange(pos + 1 - run_len(next), pos + 1));
            }
            pos = pos + 1;
        }
        assert(low.subrange(0, pos as int) =~= low);
        proof {
            lemma_run_len_bound(low);
        }
        if word.len() > 0 {
            let ghost k = run_len(low);
            assert(low.len() > 0 && !is_space_byte(low.last()));
            assert(low.subrange(pos - k, pos as int) =~= word@);
            let ghost ws = words(low);
            assert(ws == words(low.subrange(0, pos - k)).push((pos - k, word@)));
            assert(ws.drop_last() =~= words(low.subrange(0, pos - k)));
            doc.flush(&word, pos - word.len());
        } else {
            assert(low.subrange(0, pos - run_len(low)) =~= low);
        }
        assert(doc@ == index_of(content@));
        proof {
            lemma_index_ascending(content@);
        }
        doc
    }

    /// The positions of `term` in the document, if it occurs there.
    pub fn get(&self, term: &str) -> (r: Option<&Vec<usize>>)
        requires
            self.wf(),
        ensures
            r is Some <==> self@.contains_key(term@),
            r is Some ==> r->0@ == self@[term@],
    {
        let mut i: usize = 0;
        while i < self.terms.len()
            invariant
                self.wf(),
                0 <= i <= self.terms.len(),
                forall|k: int| 0 <= k < i ==> self.terms[k]@ != term@,
            decreases self.terms.len() - i,
        {
            if <str as PartialEq>::eq(self.terms[i].as_str(), term) {
                assert(self.index@.contains_key(self.terms[i as int]@));
                return Some(&self.positions[i]);
            }
            i = i + 1;
        }
        proof {
            if self.index@.contains_key(term@) {
                let k = choose|k: int| 0 <= k < self.terms.len() && self.terms[k]@ == term@;
                assert(self.terms[k]@ != term@);
            }
        }
        None
    }

    /// The number of distinct terms in the document.
    pub fn num_terms(&self) -> (r: usize)
        requires
            self.wf(),
        ensures
            self@.dom().finite(),
            r == self@.dom().len(),
    {
        let ghost names = self.terms@.map_values(|s: String| s@);
        proof {
            assert(names.no_duplicates());
            names.unique_seq_to_set();
            assert forall|t: Seq<char>| #[trigger] self@.dom().contains(t) <==> names.to_set().contains(t) by {
                if names.contains(t) {
                    let i = choose|i: int| 0 <= i < names.len() && names[i] == t;
                    assert(self.index@.contains_key(self.terms[i]@));
                }
                if self@.dom().contains(t) {
                    let i = choose|i: int| 0 <= i < self.terms.len() && self.terms[i]@ == t;
                    assert(names[i] == t);
                }
            }
            assert(self@.dom() =~= names.to_set());
        }
        self.terms.len()
    }

    /// Gives up the index as its terms and their lists, in parallel.
    pub fn into_entries(self) -> (r: (Vec<String>, Vec<Vec<usize>>))
        requires
            self.wf(),
        ensures
            r.0.len() == r.1.len(),
            forall|i: int| 0 <= i < r.1.len() ==> (#[trigger] r.1[i])@.len() > 0,
            forall|i: int, j: int| 0 <= i < j < r.0.len() ==> r.0[i]@ != r.0[j]@,
            forall|i: int|
                0 <= i < r.0.len() ==> #[trigger] self@.contains_key(r.0[i]@) && self@[r.0[i]@]
                    == r.1[i]@,
            forall|t: Seq<char>|
                #[trigger] self@.contains_key(t) ==> exists|i: int| 0 <= i < r.0.len() && r.0[i]@ == t,
    {
        let r = (self.terms, self.positions);
        assert forall|i: int| 0 <= i < r.0.len() implies #[trigger] self@.contains_key(r.0[i]@)
            && self@[r.0[i]@] == r.1[i]@ by {
            assert(self.index@.contains_key(self.terms[i]@));
        }
        r
    }

    /// Records the word `w` that starts at `start`, if its term is not empty.
    fn flush(&mut self, w: &Vec<u8>, start: usize)
        requires
            old(self).wf(),
            start + w@.len() <= usize::MAX,
        ensures
            final(self).wf(),
            final(self).doc_name() == old(self).doc_name(),
            final(self)@ == (if term_of(w@).len() == 0 {
                old(self)@
            } else {
                with_position(old(self)@, term_of(w@), (start + lead_punct(w@)) as usize)
            }),
    {
        let raw = decode_lossy(w.as_slice());
        let key = trim_punctuation(raw.as_str());
        if key.as_str().unicode_len() > 0 {
            let lead = count_lead_punct(w.as_slice());
            proof {
                lemma_lead_punct_bound(w@);
            }
            self.record(key, start + lead);
        }
    }
}

proof fn lemma_lead_punct_bound(w: Seq<u8>)
    ensures
        lead_punct(w) <= w.len(),
    decreases w.len(),
{
    if w.len() > 0 {
        lemma_lead_punct_bound(w.drop_first());
    }
}

/// Extraction depends on the content alone: two indexes extracted from the
/// same content, whatever the documents' names, hold the same terms with the
/// same positions.
pub proof fn lemma_extraction_deterministic(a: &DocIndex, b: &DocIndex, content: Seq<u8>)
    requires
        a@ == index_of(content),
        b@ == index_of(content),
    ensures
        a@ == b@,
        forall|t: Seq<char>| #[trigger] a@.contains_key(t) ==> b@.contains_key(t) && a@[t] == b@[t],
{
}

} // verus!
