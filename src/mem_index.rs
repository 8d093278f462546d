//! The in-memory inverted index of a whole collection: each term with, for
//! each document that holds it, the term's positions in that document.

use vstd::prelude::*;
use crate::doc_index::DocIndex;

verus! {

/// The documents that hold one term, each with the term's positions in it.
pub struct Postings {
    ids: Vec<usize>,
    lists: Vec<Vec<usize>>,
    map: Ghost<Map<usize, Seq<usize>>>,
}

impl View for Postings {
    type V = Map<usize, Seq<usize>>;

    closed spec fn view(&self) -> Map<usize, Seq<usize>> {
        self.map@
    }
}

impl Postings {
    /// The ids and their lists describe the view, each id once, and no list
    /// is empty.
    pub closed spec fn wf(&self) -> bool {
        &&& self.ids.len() == self.lists.len()
        &&& forall|i: int| 0 <= i < self.lists.len() ==> (#[trigger] self.lists[i])@.len() > 0
        &&& forall|i: int, j: int| 0 <= i < j < self.ids.len() ==> self.ids[i] != self.ids[j]
        &&& forall|i: int|
            0 <= i < self.ids.len() ==> #[trigger] self.map@.contains_key(self.ids[i])
                && self.map@[self.ids[i]] == self.lists[i]@
        &&& forall|d: usize|
            #[trigger] self.map@.contains_key(d) ==> exists|i: int|
                0 <= i < self.ids.len() && self.ids[i] == d
    }

    /// The documents in the order in which they are stored.
    pub closed spec fn doc_ids(&self) -> Seq<usize> {
        self.ids@
    }

    /// The stored documents are those of the view, each once.
    pub proof fn lemma_doc_ids(&self)
        requires
            self.wf(),
        ensures
            self.doc_ids().no_duplicates(),
            forall|d: usize| #[trigger] self@.contains_key(d) <==> self.doc_ids().contains(d),
    {
        assert forall|d: usize| #[trigger] self@.contains_key(d) <==> self.doc_ids().contains(d) by {
            if self.doc_ids().contains(d) {
                let i = choose|i: int| 0 <= i < self.ids.len() && self.ids@[i] == d;
                assert(self.map@.contains_key(self.ids[i]));
            }
        }
    }

    fn new() -> (r: Postings)
        ensures
            r.wf(),
            r@ == Map::<usize, Seq<usize>>::empty(),
    {
        Postings { ids: Vec::new(), lists: Vec::new(), map: Ghost(Map::empty()) }
    }

    /// The number of documents.
    pub fn len(&self) -> (r: usize)
        ensures
            r == self.doc_ids().len(),
    {
        self.ids.len()
    }

    /// The id of the `i`-th stored document.
    pub fn doc_id(&self, i: usize) -> (r: usize)
        requires
            i < self.doc_ids().len(),
        ensures
            r == self.doc_ids()[i as int],
    {
        self.ids[i]
    }

    /// The positions in the `i`-th stored document.
    pub fn positions(&self, i: usize) -> (r: &Vec<usize>)
        requires
            self.wf(),
            i < self.doc_ids().len(),
        ensures
            r@ == self@[self.doc_ids()[i as int]],
    {
        assert(self.map@.contains_key(self.ids[i as int]));
        &self.lists[i]
    }

    /// The positions in document `doc_id`, if the term occurs there.
    pub fn get(&self, doc_id: usize) -> (r: Option<&Vec<usize>>)
        requires
            self.wf(),
        ensures
            r is Some <==> self@.contains_key(doc_id),
            r is Some ==> r->0@ == self@[doc_id],
    {
        let mut i: usize = 0;
        while i < self.ids.len()
            invariant
                self.wf(),
                0 <= i <= self.ids.len(),
                forall|k: int| 0 <= k < i ==> self.ids[k] != doc_id,
            decreases self.ids.len() - i,
        {
            if self.ids[i] == doc_id {
                assert(self.map@.contains_key(self.ids[i as int]));
                return Some(&self.lists[i]);
            }
            i = i + 1;
        }
        None
    }

    /// Sets the positions in document `doc_id`, replacing any there were.
    fn put(&mut self, doc_id: usize, ps: Vec<usize>)
        requires
            old(self).wf(),
            ps@.len() > 0,
        ensures
            final(self).wf(),
            final(self)@ == old(self)@.insert(doc_id, ps@),
    {
        let mut i: usize = 0;
        while i < self.ids.len() && self.ids[i] != doc_id
            invariant
                0 <= i <= self.ids.len(),
                forall|k: int| 0 <= k < i ==> self.ids[k] != doc_id,
            decreases self.ids.len() - i,
        {
            i = i + 1;
        }
        let ghost m = self.map@;
        if i < self.ids.len() {
            self.lists[i] = ps;
            self.map = Ghost(m.insert(doc_id, self.lists[i as int]@));
            assert forall|j: int| 0 <= j < self.ids.len() implies #[trigger] self.map@.contains_key(
                self.ids[j],
            ) && self.map@[self.ids[j]] == self.lists[j]@ by {
                if j != i {
                    assert(old(self).map@.contains_key(old(self).ids[j]));
                }
            }
            assert forall|d: usize| #[trigger] self.map@.contains_key(d) implies exists|k: int|
                0 <= k < self.ids.len() && self.ids[k] == d by {
                if d != doc_id {
                    assert(m.contains_key(d));
                    let k = choose|k: int| 0 <= k < old(self).ids.len() && old(self).ids[k] == d;
                    assert(self.ids[k] == d);
                }
            }
        } else {
            proof {
                if m.contains_key(doc_id) {
                    let k = choose|k: int| 0 <= k < self.ids.len() && self.ids[k] == doc_id;
                    assert(self.ids[k] != doc_id);
                }
            }
            self.ids.push(doc_id);
            self.lists.push(ps);
            self.map = Ghost(m.insert(doc_id, self.lists[self.lists.len() - 1]@));
            assert forall|j: int| 0 <= j < self.ids.len() implies #[trigger] self.map@.contains_key(
                self.ids[j],
            ) && self.map@[self.ids[j]] == self.lists[j]@ by {
                if j < self.ids.len() - 1 {
                    assert(old(self).map@.contains_key(old(self).ids[j]));
                }
            }
            assert forall|d: usize| #[trigger] self.map@.contains_key(d) implies exists|k: int|
                0 <= k < self.ids.len() && self.ids[k] == d by {
                if d == doc_id {
                    assert(self.ids[self.ids.len() - 1] == d);
                } else {
                    assert(m.contains_key(d));
                    let k = choose|k: int| 0 <= k < old(self).ids.len() && old(self).ids[k] == d;
                    assert(self.ids[k] == d);
                }
            }
        }
    }
}

/// The index `m` after merging in the document index `d` under id `id`: every
/// term of `d` gets its positions under `id`, replacing any that were there;
/// every other entry stays.
pub open spec fn merged(
    m: Map<Seq<char>, Map<usize, Seq<usize>>>,
    d: Map<Seq<char>, Seq<usize>>,
    id: usize,
) -> Map<Seq<char>, Map<usize, Seq<usize>>> {
    Map::new(
        |t: Seq<char>| m.contains_key(t) || d.contains_key(t),
        |t: Seq<char>|
            if d.contains_key(t) {
                if m.contains_key(t) {
                    m[t].insert(id, d[t])
                } else {
                    Map::empty().insert(id, d[t])
                }
            } else {
                m[t]
            },
    )
}

/// Merging a document makes each of its terms' positions findable under its
/// id, unchanged and in order, and leaves every other term as it was.
pub proof fn lemma_merged_positions(
    m: Map<Seq<char>, Map<usize, Seq<usize>>>,
    d: Map<Seq<char>, Seq<usize>>,
    id: usize,
    t: Seq<char>,
)
    ensures
        d.contains_key(t) ==> merged(m, d, id).contains_key(t) && merged(m, d, id)[t].contains_key(
            id,
        ) && merged(m, d, id)[t][id] == d[t],
        !d.contains_key(t) ==> (merged(m, d, id).contains_key(t) == m.contains_key(t)) && (
        m.contains_key(t) ==> merged(m, d, id)[t] == m[t]),
{
}

/// `m` after merging each document index of `ds` in turn, under its id.
pub open spec fn merged_all(
    m: Map<Seq<char>, Map<usize, Seq<usize>>>,
    ds: Seq<(Map<Seq<char>, Seq<usize>>, usize)>,
) -> Map<Seq<char>, Map<usize, Seq<usize>>>
    decreases ds.len(),
{
    if ds.len() == 0 {
        m
    } else {
        merged(merged_all(m, ds.drop_last()), ds.last().0, ds.last().1)
    }
}

/// Positions recorded for a term under an id stay as they are, in order,
/// through any number of later merges under other ids.
pub proof fn lemma_positions_survive(
    m: Map<Seq<char>, Map<usize, Seq<usize>>>,
    ds: Seq<(Map<Seq<char>, Seq<usize>>, usize)>,
    t: Seq<char>,
    id: usize,
)
    requires
        m.contains_key(t),
        m[t].contains_key(id),
        forall|k: int| 0 <= k < ds.len() ==> (#[trigger] ds[k]).1 != id,
    ensures
        merged_all(m, ds).contains_key(t),
        merged_all(m, ds)[t].contains_key(id),
        merged_all(m, ds)[t][id] == m[t][id],
    decreases ds.len(),
{
    if ds.len() > 0 {
        let pre = ds.drop_last();
        assert forall|k: int| 0 <= k < pre.len() implies (#[trigger] pre[k]).1 != id by {
            assert(pre[k] == ds[k]);
        }
        lemma_positions_survive(m, pre, t, id);
        assert(ds.last() == ds[ds.len() - 1]);
    }
}

/// No term has an empty list of positions in any document.
pub open spec fn nonempty_lists(idx: Map<Seq<char>, Map<usize, Seq<usize>>>) -> bool {
    forall|t: Seq<char>, d: usize|
        #[trigger] idx.contains_key(t) && #[trigger] idx[t].contains_key(d) ==> idx[t][d].len() > 0
}

/// An in-memory inverted index over many documents.
///
/// Its view maps each term to the documents that hold it, and each of those
/// to the term's positions in that document.
pub struct MemIndex {
    terms: Vec<String>,
    postings: Vec<Postings>,
    index: Ghost<Map<Seq<char>, Map<usize, Seq<usize>>>>,
}

impl View for MemIndex {
    type V = Map<Seq<char>, Map<usize, Seq<usize>>>;

    closed spec fn view(&self) -> Map<Seq<char>, Map<usize, Seq<usize>>> {
        self.index@
    }
}

impl MemIndex {
    /// The terms and their postings describe the view, each term once.
    pub closed spec fn wf(&self) -> bool {
        &&& self.terms.len() == self.postings.len()
        &&& forall|i: int, j: int|
            0 <= i < j < self.terms.len() ==> self.terms[i]@ != self.terms[j]@
        &&& forall|i: int|
            0 <= i < self.terms.len() ==> #[trigger] self.index@.contains_key(self.terms[i]@)
                && self.index@[self.terms[i]@] == self.postings[i]@ && self.postings[i].wf()
        &&& forall|t: Seq<char>|
            #[trigger] self.index@.contains_key(t) ==> exists|i: int|
                0 <= i < self.terms.len() && self.terms[i]@ == t
        &&& forall|t: Seq<char>|
            #[trigger] self.index@.contains_key(t) ==> exists|d: usize| self.index@[t].contains_key(d)
    }

    /// A term occurs at least once in each document listed for it.
    pub proof fn lemma_lists_nonempty(&self)
        requires
            self.wf(),
        ensures
            nonempty_lists(self@),
    {
        assert forall|t: Seq<char>, d: usize|
            #[trigger] self@.contains_key(t) && #[trigger] self@[t].contains_key(d) implies self@[t][d].len() > 0 by {
            let i = choose|i: int| 0 <= i < self.terms.len() && self.terms[i]@ == t;
            assert(self.index@.contains_key(self.terms[i]@));
            let p = self.postings[i];
            let k = choose|k: int| 0 <= k < p.ids.len() && p.ids[k] == d;
            assert(p.map@.contains_key(p.ids[k]));
        }
    }

    /// Every term of the index is held by at least one document.
    pub proof fn lemma_terms_have_documents(&self)
        requires
            self.wf(),
        ensures
            forall|t: Seq<char>| #[trigger] self@.contains_key(t) ==> exists|d: usize| self@[t].contains_key(d),
    {
    }

    /// Creates an empty index.
    pub fn new() -> (r: MemIndex)
        ensures
            r.wf(),
            r@ == Map::<Seq<char>, Map<usize, Seq<usize>>>::empty(),
    {
        MemIndex { terms: Vec::new(), postings: Vec::new(), index: Ghost(Map::empty()) }
    }

    /// The number of terms in the index.
    pub fn num_terms(&self) -> (r: usize)
        requires
            self.wf(),
        ensures
            self@.dom().finite(),
            r == self@.dom().len(),
    {
        let ghost names = self.terms@.map_values(|s: String| s@);
        proof {
            assert(names.no_duplicates());
            names.unique_seq_to_set();
            assert forall|t: Seq<char>| #[trigger] self@.dom().contains(t) <==> names.to_set().contains(t) by {
                if names.contains(t) {
                    let i = choose|i: int| 0 <= i < names.len() && names[i] == t;
                    assert(self.index@.contains_key(self.terms[i]@));
                }
                if self@.dom().contains(t) {
                    let i = choose|i: int| 0 <= i < self.terms.len() && self.terms[i]@ == t;
                    assert(names[i] == t);
                }
            }
            assert(self@.dom() =~= names.to_set());
        }
        self.terms.len()
    }

    /// Sets the positions of `term` in document `doc_id`.
    fn put(&mut self, term: String, doc_id: usize, ps: Vec<usize>)
        requires
            old(self).wf(),
            ps@.len() > 0,
        ensures
            final(self).wf(),
            final(self)@ == old(self)@.insert(
                term@,
                (if old(self)@.contains_key(term@) {
                    old(self)@[term@]
                } else {
                    Map::empty()
                }).insert(doc_id, ps@),
            ),
    {
        let mut i: usize = 0;
        while i < self.terms.len() && self.terms[i] != term
            invariant
                0 <= i <= self.terms.len(),
                forall|k: int| 0 <= k < i ==> self.terms[k]@ != term@,
            decreases self.terms.len() - i,
        {
            i = i + 1;
        }
        let ghost m = self.index@;
        if i < self.terms.len() {
            assert(m.contains_key(self.terms[i as int]@));
            self.postings[i].put(doc_id, ps);
            self.index = Ghost(m.insert(term@, self.postings[i as int]@));
            assert(self.index@[term@].contains_key(doc_id));
            assert forall|u: Seq<char>| #[trigger] self.index@.contains_key(u) implies exists|d: usize|
                self.index@[u].contains_key(d) by {
                if u == term@ {
                    assert(self.index@[u].contains_key(doc_id));
                } else {
                    assert(m.contains_key(u));
                }
            }
            assert forall|j: int| 0 <= j < self.terms.len() implies #[trigger] self.index@.contains_key(
                self.terms[j]@,
            ) && self.index@[self.terms[j]@] == self.postings[j]@ && self.postings[j].wf() by {
                if j != i {
                    assert(old(self).index@.contains_key(old(self).terms[j]@));
                }
            }
            assert forall|u: Seq<char>| #[trigger] self.index@.contains_key(u) implies exists|k: int|
                0 <= k < self.terms.len() && self.terms[k]@ == u by {
                if u == term@ {
                    assert(self.terms[i as int]@ == u);
                } else {
                    assert(m.contains_key(u));
                }
            }
        } else {
            proof {
                if m.contains_key(term@) {
                    let k = choose|k: int| 0 <= k < self.terms.len() && self.terms[k]@ == term@;
                    assert(self.terms[k]@ != term@);
                }
            }
            let mut p = Postings::new();
            p.put(doc_id, ps);
            self.terms.push(term);
            self.postings.push(p);
            self.index = Ghost(m.insert(term@, p@));
            assert forall|u: Seq<char>| #[trigger] self.index@.contains_key(u) implies exists|d: usize|
                self.index@[u].contains_key(d) by {
                if u == term@ {
                    assert(self.index@[u].contains_key(doc_id));
                } else {
                    assert(m.contains_key(u));
                }
            }
            assert forall|j: int| 0 <= j < self.terms.len() implies #[trigger] self.index@.contains_key(
                self.terms[j]@,
            ) && self.index@[self.terms[j]@] == self.postings[j]@ && self.postings[j].wf() by {
                if j < self.terms.len() - 1 {
                    assert(old(self).index@.contains_key(old(self).terms[j]@));
                }
            }
            assert forall|u: Seq<char>| #[trigger] self.index@.contains_key(u) implies exists|k: int|
                0 <= k < self.terms.len() && self.terms[k]@ == u by {
                if u == term@ {
                    assert(self.terms[self.terms.len() - 1]@ == u);
                } else {
                    assert(m.contains_key(u));
                    let k = choose|k: int| 0 <= k < old(self).terms.len() && old(self).terms[k]@ == u;
                    assert(self.terms[k]@ == u);
                }
            }
        }
    }

    /// Adds a document's index under id `doc_id`, consuming it.
    ///
    /// Each term of the document gets the document's positions under
    /// `doc_id`, replacing any that were recorded for that id before.
    pub fn add(&mut self, doc_index: DocIndex, doc_id: usize)
        requires
            old(self).wf(),
            doc_index.wf(),
        ensures
            final(self).wf(),
            final(self)@ == merged(old(self)@, doc_index@, doc_id),
    {
        let ghost d = doc_index@;
        let ghost m0 = self@;
        let (mut terms, mut lists) = doc_index.into_entries();
        let ghost all_terms = terms@;
        let ghost all_lists = lists@;
        let ghost n = terms.len();
        assert forall|i: int| 0 <= i < n implies #[trigger] d.contains_key(all_terms[i]@)
            && d[all_terms[i]@] == all_lists[i]@ by {
            assert(d.contains_key(terms[i]@));
            assert(d[terms[i]@] == lists[i]@);
            assert(terms[i] == all_terms[i]);
            assert(lists[i] == all_lists[i]);
        }
        while terms.len() > 0
            invariant
                self.wf(),
                terms.len() == lists.len(),
                terms.len() <= n,
                all_terms.len() == n,
                all_lists.len() == n,
                forall|i: int| 0 <= i < terms.len() ==> terms[i] == all_terms[i],
                forall|i: int| 0 <= i < lists.len() ==> lists[i] == all_lists[i],
                forall|i: int| 0 <= i < n ==> (#[trigger] all_lists[i])@.len() > 0,
                forall|i: int, j: int| 0 <= i < j < n ==> all_terms[i]@ != all_terms[j]@,
                forall|i: int|
                    0 <= i < n ==> #[trigger] d.contains_key(all_terms[i]@) && d[all_terms[i]@]
                        == all_lists[i]@,
                forall|t: Seq<char>|
                    #[trigger] d.contains_key(t) ==> exists|i: int| 0 <= i < n && all_terms[i]@ == t,
                forall|t: Seq<char>|
                    #[trigger] self@.contains_key(t) <==> (m0.contains_key(t) || exists|i: int|
                        terms.len() <= i < n && all_terms[i]@ == t),
                forall|t: Seq<char>|
                    #[trigger] self@.contains_key(t) ==> self@[t] == (if exists|i: int|
                        terms.len() <= i < n && all_terms[i]@ == t {
                        merged(m0, d, doc_id)[t]
                    } else {
                        m0[t]
                    }),
            decreases terms.len(),
        {
            let term = terms.pop().unwrap();
            let ps = lists.pop().unwrap();
            let ghost k = terms.len() as int;
            let ghost before = self@;
            assert(term == all_terms[k]);
            assert(ps == all_lists[k]);
            assert(ps@.len() > 0);
            assert(d.contains_key(all_terms[k]@));
            self.put(term, doc_id, ps);
            assert forall|t: Seq<char>| #[trigger] self@.contains_key(t) implies self@[t] == (if exists|i: int|
                terms.len() <= i < n && all_terms[i]@ == t {
                merged(m0, d, doc_id)[t]
            } else {
                m0[t]
            }) by {
                if t == all_terms[k]@ {
                    if !(exists|i: int| k + 1 <= i < n && all_terms[i]@ == t) {
                        assert(before.contains_key(t) == m0.contains_key(t));
                    } else {
                        let i = choose|i: int| k + 1 <= i < n && all_terms[i]@ == t;
                        assert(all_terms[i]@ != all_terms[k]@);
                    }
                    assert(self@[t] =~= merged(m0, d, doc_id)[t]);
                } else {
                    assert(before.contains_key(t));
                    if exists|i: int| k <= i < n && all_terms[i]@ == t {
                        let i = choose|i: int| k <= i < n && all_terms[i]@ == t;
                        assert(i != k);
                    }
                }
            }
            assert forall|t: Seq<char>| #[trigger] self@.contains_key(t) <==> (m0.contains_key(t) || exists|i: int|
                terms.len() <= i < n && all_terms[i]@ == t) by {
                if t != all_terms[k]@ && exists|i: int| k <= i < n && all_terms[i]@ == t {
                    let i = choose|i: int| k <= i < n && all_terms[i]@ == t;
                    assert(i != k);
                    assert(exists|i: int| k + 1 <= i < n && all_terms[i]@ == t);
                }
            }
        }
        assert forall|t: Seq<char>| #[trigger] self@.contains_key(t) <==> merged(m0, d, doc_id).contains_key(t) by {
            if d.contains_key(t) {
                let i = choose|i: int| 0 <= i < n && all_terms[i]@ == t;
            }
            if exists|i: int| 0 <= i < n && all_terms[i]@ == t {
                let i = choose|i: int| 0 <= i < n && all_terms[i]@ == t;
                assert(d.contains_key(all_terms[i]@));
            }
        }
        assert forall|t: Seq<char>| #[trigger] self@.contains_key(t) implies self@[t] == merged(m0, d, doc_id)[t] by {
            if !(exists|i: int| 0 <= i < n && all_terms[i]@ == t) {
                if d.contains_key(t) {
                    let i = choose|i: int| 0 <= i < n && all_terms[i]@ == t;
                }
            }
        }
        assert(self@ =~= merged(m0, d, doc_id));
    }

    /// Looks up a term.
    pub fn search(&self, term: &str) -> (r: Option<&Postings>)
        requires
            self.wf(),
        ensures
            r is Some <==> self@.contains_key(term@),
            r is Some ==> r->0.wf() && r->0@ == self@[term@],
    {
        let mut i: usize = 0;
        while i < self.terms.len()
            invariant
                self.wf(),
                0 <= i <= self.terms.len(),
                forall|k: int| 0 <= k < i ==> self.terms[k]@ != term@,
            decreases self.terms.len() - i,
        {
            if <str as PartialEq>::eq(self.terms[i].as_str(), term) {
                assert(self.index@.contains_key(self.terms[i as int]@));
                return Some(&self.postings[i]);
            }
            i = i + 1;
        }
        proof {
            if self.index@.contains_key(term@) {
                let k = choose|k: int| 0 <= k < self.terms.len() && self.terms[k]@ == term@;
                assert(self.terms[k]@ != term@);
            }
        }
        None
    }
}

} // verus!
