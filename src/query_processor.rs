//! The search engine: a document table and an inverted index, built one
//! document at a time, and the evaluation of queries against them.

use vstd::prelude::*;
use crate::text::{is_white_char, lower_text, trim_white};
use crate::doc_index::{index_of, DocIndex};
use crate::doc_table::DocTable;
use crate::mem_index::{merged, MemIndex};
use crate::query_result::{
    is_ranked, Intersect, lemma_intersection_lists, lemma_lists_ranks_permuted,
    lemma_ranked_lists_agree, lists_ranks, meet, rank_results, sat_add, QueryResult,
};
use crate::query_token::{
    ids_below, lemma_leading_stop_word, query_to_tokens, query_tokens, string_views, token_ranks, token_views, QueryToken,
    TokenView,
};

verus! {

broadcast use vstd::seq_lib::group_to_multiset_ensures;

/// The documents that every map of `ms` has, each with its ranks summed; no
/// documents where `ms` is empty.
pub open spec fn meet_all(ms: Seq<Map<usize, usize>>) -> Map<usize, usize>
    decreases ms.len(),
{
    if ms.len() == 0 {
        Map::empty()
    } else if ms.len() == 1 {
        ms[0]
    } else {
        meet(meet_all(ms.drop_last()), ms.last())
    }
}

/// The documents that a query matches, with their ranks: those that every
/// token of the query matches, each with the sum of its ranks.
pub open spec fn query_ranks(
    idx: Map<Seq<char>, Map<usize, Seq<usize>>>,
    query: Seq<char>,
    stop: Seq<Seq<char>>,
) -> Map<usize, usize> {
    meet_all(query_tokens(query, stop).map_values(|t: TokenView| token_ranks(idx, t)))
}

/// Every map of `ms` has document `d`.
pub open spec fn in_all(ms: Seq<Map<usize, usize>>, d: usize) -> bool {
    forall|i: int| 0 <= i < ms.len() ==> (#[trigger] ms[i]).contains_key(d)
}

/// The sum of the ranks that the maps of `ms` give document `d`.
pub open spec fn total(ms: Seq<Map<usize, usize>>, d: usize) -> int
    decreases ms.len(),
{
    if ms.len() == 0 {
        0
    } else {
        total(ms.drop_last(), d) + ms.last()[d]
    }
}

proof fn lemma_total_nonneg(ms: Seq<Map<usize, usize>>, d: usize)
    ensures
        total(ms, d) >= 0,
    decreases ms.len(),
{
    if ms.len() > 0 {
        lemma_total_nonneg(ms.drop_last(), d);
    }
}

/// `meet_all` keeps the documents that every map has, each with the sum of
/// its ranks, capped at `usize::MAX`.
proof fn lemma_meet_all_shape(ms: Seq<Map<usize, usize>>, d: usize)
    requires
        ms.len() > 0,
    ensures
        meet_all(ms).contains_key(d) <==> in_all(ms, d),
        in_all(ms, d) ==> meet_all(ms)[d] == (if total(ms, d) > usize::MAX {
            usize::MAX as int
        } else {
            total(ms, d)
        }),
    decreases ms.len(),
{
    let ms0 = ms.drop_last();
    if ms.len() == 1 {
        assert(ms0.len() == 0);
        assert(ms.last() == ms[0]);
        assert(total(ms0, d) == 0);
        assert(total(ms, d) == ms[0][d]);
    } else {
        lemma_meet_all_shape(ms0, d);
        lemma_total_nonneg(ms0, d);
        assert(ms.last() == ms[ms.len() - 1]);
        if in_all(ms0, d) && ms.last().contains_key(d) {
            assert forall|i: int| 0 <= i < ms.len() implies (#[trigger] ms[i]).contains_key(d) by {
                if i < ms.len() - 1 {
                    assert(ms[i] == ms0[i]);
                }
            }
        }
        if in_all(ms, d) {
            assert forall|i: int| 0 <= i < ms0.len() implies (#[trigger] ms0[i]).contains_key(d) by {
                assert(ms[i] == ms0[i]);
            }
            assert(ms[ms.len() - 1].contains_key(d));
            assert(meet_all(ms) == meet(meet_all(ms0), ms.last()));
            assert(meet_all(ms)[d] == sat_add(meet_all(ms0)[d], ms.last()[d]));
            assert(total(ms, d) == total(ms0, d) + ms.last()[d]);
        }
    }
}

proof fn lemma_remove_one(ms: Seq<Map<usize, usize>>, j: int, d: usize)
    requires
        0 <= j < ms.len(),
    ensures
        total(ms, d) == total(ms.remove(j), d) + ms[j][d],
        in_all(ms, d) <==> in_all(ms.remove(j), d) && ms[j].contains_key(d),
    decreases ms.len(),
{
    let r = ms.remove(j);
    if j == ms.len() - 1 {
        assert(r =~= ms.drop_last());
    } else {
        lemma_remove_one(ms.drop_last(), j, d);
        assert(r.drop_last() =~= ms.drop_last().remove(j));
        assert(r.last() == ms.last());
    }
    if in_all(r, d) && ms[j].contains_key(d) {
        assert forall|i: int| 0 <= i < ms.len() implies (#[trigger] ms[i]).contains_key(d) by {
            if i < j {
                assert(ms[i] == r[i]);
            } else if i > j {
                assert(ms[i] == r[i - 1]);
            }
        }
    }
    if in_all(ms, d) {
        assert forall|i: int| 0 <= i < r.len() implies (#[trigger] r[i]).contains_key(d) by {
            if i < j {
                assert(ms[i] == r[i]);
            } else {
                assert(ms[i + 1] == r[i]);
            }
        }
    }
}

proof fn lemma_permuted_totals(
    idx: Map<Seq<char>, Map<usize, Seq<usize>>>,
    t1: Seq<TokenView>,
    t2: Seq<TokenView>,
    d: usize,
)
    requires
        t1.to_multiset() == t2.to_multiset(),
    ensures
        in_all(t1.map_values(|t: TokenView| token_ranks(idx, t)), d) <==> in_all(
            t2.map_values(|t: TokenView| token_ranks(idx, t)),
            d,
        ),
        total(t1.map_values(|t: TokenView| token_ranks(idx, t)), d) == total(
            t2.map_values(|t: TokenView| token_ranks(idx, t)),
            d,
        ),
    decreases t1.len(),
{
    let m1 = t1.map_values(|t: TokenView| token_ranks(idx, t));
    let m2 = t2.map_values(|t: TokenView| token_ranks(idx, t));
    if t1.len() == 0 {
        assert(t2.to_multiset().len() == 0);
        assert(t2.len() == 0);
        assert(m1.len() == 0 && m2.len() == 0);
    } else {
        let x = t1.last();
        assert(t1 =~= t1.drop_last().push(x));
        assert(t1.to_multiset().count(x) > 0);
        assert(t2.contains(x));
        let j = choose|j: int| 0 <= j < t2.len() && t2[j] == x;
        let t2r = t2.remove(j);
        assert(t2r.to_multiset() =~= t1.drop_last().to_multiset());
        lemma_permuted_totals(idx, t1.drop_last(), t2r, d);
        lemma_remove_one(m2, j, d);
        assert(m2.remove(j) =~= t2r.map_values(|t: TokenView| token_ranks(idx, t)));
        assert(m1.drop_last() =~= t1.drop_last().map_values(|t: TokenView| token_ranks(idx, t)));
        assert(m1.last() == token_ranks(idx, x));
        assert(m2[j] == token_ranks(idx, x));
        if in_all(m1.drop_last(), d) && m1.last().contains_key(d) {
            assert forall|i: int| 0 <= i < m1.len() implies (#[trigger] m1[i]).contains_key(d) by {
                if i < m1.len() - 1 {
                    assert(m1[i] == m1.drop_last()[i]);
                }
            }
        }
        if in_all(m1, d) {
            assert forall|i: int| 0 <= i < m1.drop_last().len() implies (
            #[trigger] m1.drop_last()[i]).contains_key(d) by {
                assert(m1[i] == m1.drop_last()[i]);
            }
            assert(m1[m1.len() - 1].contains_key(d));
        }
    }
}

/// The order of a query's tokens does not matter: two token lists that are
/// permutations of each other match the same documents with the same ranks.
pub proof fn lemma_token_order_free(
    idx: Map<Seq<char>, Map<usize, Seq<usize>>>,
    t1: Seq<TokenView>,
    t2: Seq<TokenView>,
)
    requires
        t1.to_multiset() == t2.to_multiset(),
    ensures
        meet_all(t1.map_values(|t: TokenView| token_ranks(idx, t))) == meet_all(
            t2.map_values(|t: TokenView| token_ranks(idx, t)),
        ),
{
    let m1 = t1.map_values(|t: TokenView| token_ranks(idx, t));
    let m2 = t2.map_values(|t: TokenView| token_ranks(idx, t));
    assert(t1.len() == t1.to_multiset().len());
    assert(t2.len() == t2.to_multiset().len());
    if t1.len() > 0 {
        assert forall|d: usize| #[trigger] meet_all(m1).contains_key(d) == meet_all(m2).contains_key(d)
            && (meet_all(m1).contains_key(d) ==> meet_all(m1)[d] == meet_all(m2)[d]) by {
            lemma_permuted_totals(idx, t1, t2, d);
            lemma_meet_all_shape(m1, d);
            lemma_meet_all_shape(m2, d);
        }
        assert(meet_all(m1) =~= meet_all(m2));
    } else {
        assert(m1.len() == 0 && m2.len() == 0);
    }
}

/// Two queries whose tokens are the same up to order match the same
/// documents with the same ranks.
pub proof fn lemma_query_ranks_token_order(
    idx: Map<Seq<char>, Map<usize, Seq<usize>>>,
    q1: Seq<char>,
    q2: Seq<char>,
    stop: Seq<Seq<char>>,
)
    requires
        query_tokens(q1, stop).to_multiset() == query_tokens(q2, stop).to_multiset(),
    ensures
        query_ranks(idx, q1, stop) == query_ranks(idx, q2, stop),
{
    lemma_token_order_free(idx, query_tokens(q1, stop), query_tokens(q2, stop));
}

/// Two queries whose tokens are the same up to order get the same ranked
/// results: any two ranked lists of their matches agree position by
/// position.
pub proof fn lemma_search_token_order(
    idx: Map<Seq<char>, Map<usize, Seq<usize>>>,
    q1: Seq<char>,
    q2: Seq<char>,
    stop: Seq<Seq<char>>,
    names: Seq<Seq<char>>,
    r1: Seq<QueryResult>,
    r2: Seq<QueryResult>,
)
    requires
        query_tokens(q1, stop).to_multiset() == query_tokens(q2, stop).to_multiset(),
        lists_ranks(r1, query_ranks(idx, q1, stop), names),
        lists_ranks(r2, query_ranks(idx, q2, stop), names),
        is_ranked(r1),
        is_ranked(r2),
    ensures
        r1.len() == r2.len(),
        forall|i: int|
            0 <= i < r1.len() ==> (#[trigger] r1[i]).doc_id == r2[i].doc_id && r1[i].rank
                == r2[i].rank && r1[i].doc_name@ == r2[i].doc_name@,
{
    lemma_query_ranks_token_order(idx, q1, q2, stop);
    lemma_ranked_lists_agree(r1, r2, query_ranks(idx, q1, stop), names);
}

/// A query whose normalised text is a stop word, a space and the normalised
/// text of a second query matches what the second query matches, with the
/// same ranks, and ranks it the same way.
pub proof fn lemma_search_leading_stop_word(
    idx: Map<Seq<char>, Map<usize, Seq<usize>>>,
    q1: Seq<char>,
    q2: Seq<char>,
    w: Seq<char>,
    stop: Seq<Seq<char>>,
    names: Seq<Seq<char>>,
    r1: Seq<QueryResult>,
    r2: Seq<QueryResult>,
)
    requires
        stop.contains(w),
        w.len() > 0,
        forall|k: int| 0 <= k < w.len() ==> !is_white_char(#[trigger] w[k]),
        lower_text(trim_white(q1)) == w + seq![' '] + lower_text(trim_white(q2)),
        lists_ranks(r1, query_ranks(idx, q1, stop), names),
        lists_ranks(r2, query_ranks(idx, q2, stop), names),
        is_ranked(r1),
        is_ranked(r2),
    ensures
        query_ranks(idx, q1, stop) == query_ranks(idx, q2, stop),
        r1.len() == r2.len(),
        forall|i: int|
            0 <= i < r1.len() ==> (#[trigger] r1[i]).doc_id == r2[i].doc_id && r1[i].rank
                == r2[i].rank && r1[i].doc_name@ == r2[i].doc_name@,
{
    lemma_leading_stop_word(w, lower_text(trim_white(q2)), stop);
    assert(stop.len() > 0);
    assert(query_tokens(q1, stop) == query_tokens(q2, stop));
    lemma_ranked_lists_agree(r1, r2, query_ranks(idx, q1, stop), names);
}

/// Processes queries against an inverted index of documents.
pub struct QueryProcessor {
    doc_table: DocTable,
    mem_index: MemIndex,
    stop_words: Vec<String>,
}

impl QueryProcessor {
    /// The names of the documents, by id.
    pub closed spec fn docs(&self) -> Seq<Seq<char>> {
        self.doc_table@
    }

    /// The inverted index.
    pub closed spec fn index(&self) -> Map<Seq<char>, Map<usize, Seq<usize>>> {
        self.mem_index@
    }

    /// The stop words that queries drop.
    pub closed spec fn stop_list(&self) -> Seq<Seq<char>> {
        string_views(self.stop_words@)
    }

    /// The index is well formed and names only documents of the table.
    pub closed spec fn wf(&self) -> bool {
        &&& self.mem_index.wf()
        &&& ids_below(self.mem_index@, self.doc_table@.len())
    }

    /// Creates an engine with no documents; queries drop the bare terms that
    /// are among `stop_words` (none, if it is empty).
    pub fn new(stop_words: Vec<String>) -> (r: QueryProcessor)
        ensures
            r.wf(),
            r.docs() == Seq::<Seq<char>>::empty(),
            r.index() == Map::<Seq<char>, Map<usize, Seq<usize>>>::empty(),
            r.stop_list() == string_views(stop_words@),
    {
        QueryProcessor { doc_table: DocTable::new(), mem_index: MemIndex::new(), stop_words }
    }

    /// Indexes a document under a new id, which it returns.
    pub fn add_document(&mut self, name: &str, content: &[u8]) -> (r: usize)
        requires
            old(self).wf(),
        ensures
            final(self).wf(),
            r == old(self).docs().len(),
            final(self).docs() == old(self).docs().push(name@),
            final(self).index() == merged(old(self).index(), index_of(content@), r),
            final(self).stop_list() == old(self).stop_list(),
    {
        let doc_index = DocIndex::from_bytes(name, content);
        let id = self.doc_table.add(name);
        self.mem_index.add(doc_index, id);
        assert forall|t: Seq<char>, d: usize|
            #[trigger] self.mem_index@.contains_key(t) && #[trigger] self.mem_index@[t].contains_key(
                d,
            ) implies d < self.doc_table@.len() by {
            if d != id {
                assert(old(self).mem_index@.contains_key(t));
                assert(old(self).mem_index@[t].contains_key(d));
            }
        }
        id
    }

    /// The number of documents in the index.
    pub fn num_docs(&self) -> (r: usize)
        ensures
            r == self.docs().len(),
    {
        self.doc_table.num_docs()
    }

    /// The number of terms in the index.
    pub fn num_terms(&self) -> (r: usize)
        requires
            self.wf(),
        ensures
            self.index().dom().finite(),
            r == self.index().dom().len(),
    {
        self.mem_index.num_terms()
    }

    /// Searches for the documents that match a query, best first.
    ///
    /// A document matches when it matches every token of the query: a term
    /// when it holds the term, a phrase when its words occur there one after
    /// the other. Its rank is the sum of its ranks for the tokens. Results
    /// come by decreasing rank, equal ranks by increasing document id.
    pub fn search(&self, query: &str) -> (r: Vec<QueryResult>)
        requires
            self.wf(),
        ensures
            lists_ranks(r@, query_ranks(self.index(), query@, self.stop_list()), self.docs()),
            is_ranked(r@),
    {
        let tokens: Vec<QueryToken> = query_to_tokens(query, &self.stop_words);
        let ghost toks = token_views(tokens@);
        let ghost ms = toks.map_values(|t: TokenView| token_ranks(self.mem_index@, t));
        assert(ms == query_tokens(query@, string_views(self.stop_words@)).map_values(
            |t: TokenView| token_ranks(self.mem_index@, t),
        ));
        let n = tokens.len();
        if n == 0 {
            let r: Vec<QueryResult> = Vec::new();
            assert(ms.len() == 0);
            assert(lists_ranks(r@, meet_all(ms), self.doc_table@));
            return r;
        }
        assert(ms[0] == token_ranks(self.mem_index@, tokens@[0]@));
        let mut results = tokens[0].search(&self.mem_index, &self.doc_table);
        assert(ms.subrange(0, 1).len() == 1 && ms.subrange(0, 1)[0] == ms[0]);
        let mut k: usize = 1;
        while k < n
            invariant
                n == tokens.len(),
                1 <= k <= n,
                self.wf(),
                toks == token_views(tokens@),
                ms == toks.map_values(|t: TokenView| token_ranks(self.mem_index@, t)),
                lists_ranks(results@, meet_all(ms.subrange(0, k as int)), self.doc_table@),
            decreases n - k,
        {
            assert(ms[k as int] == token_ranks(self.mem_index@, tokens@[k as int]@));
            let next = tokens[k].search(&self.mem_index, &self.doc_table);
            let ghost prev = results@;
            results.intersect(&next);
            proof {
                lemma_intersection_lists(
                    prev,
                    next@,
                    meet_all(ms.subrange(0, k as int)),
                    ms[k as int],
                    self.doc_table@,
                );
                let sub = ms.subrange(0, k + 1);
                assert(sub.drop_last() =~= ms.subrange(0, k as int));
                assert(sub.last() == ms[k as int]);
            }
            k = k + 1;
        }
        assert(ms.subrange(0, n as int) =~= ms);
        let ghost unsorted = results@;
        let r = rank_results(results);
        proof {
            lemma_lists_ranks_permuted(unsorted, r@, meet_all(ms), self.doc_table@);
        }
        r
    }
}

} // verus!
