//! Query results, their order, and the intersection of two result lists.

use vstd::prelude::*;
use vstd::multiset::Multiset;
use crate::doc_table::DocTable;

verus! {

broadcast use vstd::seq_lib::group_to_multiset_ensures;

/// `a + b`, or `usize::MAX` where the sum does not fit.
pub open spec fn sat_add(a: usize, b: usize) -> usize {
    if a + b > usize::MAX {
        usize::MAX
    } else {
        (a + b) as usize
    }
}

/// A result of a query: a document, by id and name, and its rank.
pub struct QueryResult {
    pub doc_id: usize,
    pub doc_name: String,
    pub rank: usize,
}

/// `a` comes before `b` in a ranked list: a higher rank first, and between
/// equal ranks the lower document id.
pub open spec fn precedes(a: QueryResult, b: QueryResult) -> bool {
    a.rank > b.rank || (a.rank == b.rank && a.doc_id < b.doc_id)
}

/// No result of `s` precedes one that stands before it.
pub open spec fn is_ranked(s: Seq<QueryResult>) -> bool {
    forall|i: int, j: int| 0 <= i < j < s.len() ==> !precedes(s[j], s[i])
}

/// The first result of `s` for document `id`, if there is one.
pub open spec fn first_for(s: Seq<QueryResult>, id: usize) -> Option<QueryResult>
    decreases s.len(),
{
    if s.len() == 0 {
        None
    } else if s[0].doc_id == id {
        Some(s[0])
    } else {
        first_for(s.drop_first(), id)
    }
}

/// `x` with `extra` added to its rank.
pub open spec fn bumped(x: QueryResult, extra: usize) -> QueryResult {
    QueryResult { doc_id: x.doc_id, doc_name: x.doc_name, rank: sat_add(x.rank, extra) }
}

/// The results of `a` whose document also has a result in `b`, in the order
/// of `a`, each with the rank of the first such result of `b` added.
pub open spec fn intersection(a: Seq<QueryResult>, b: Seq<QueryResult>) -> Seq<QueryResult>
    decreases a.len(),
{
    if a.len() == 0 {
        Seq::empty()
    } else {
        let rest = intersection(a.drop_last(), b);
        let x = a.last();
        match first_for(b, x.doc_id) {
            Some(y) => rest.push(bumped(x, y.rank)),
            None => rest,
        }
    }
}

/// The documents that have a result in `s`.
pub open spec fn docs_of(s: Seq<QueryResult>) -> Set<usize> {
    Set::new(|id: usize| first_for(s, id) is Some)
}

/// The rank of the first result of `s` for document `id` (0 where none).
pub open spec fn rank_in(s: Seq<QueryResult>, id: usize) -> usize {
    match first_for(s, id) {
        Some(x) => x.rank,
        None => 0,
    }
}

/// `s` lists the documents of `ranks`, each once, with its rank, under the
/// name that `names` gives its id.
pub open spec fn lists_ranks(
    s: Seq<QueryResult>,
    ranks: Map<usize, usize>,
    names: Seq<Seq<char>>,
) -> bool {
    &&& forall|i: int, j: int| 0 <= i < j < s.len() ==> s[i].doc_id != s[j].doc_id
    &&& forall|i: int|
        0 <= i < s.len() ==> #[trigger] ranks.contains_key(s[i].doc_id) && s[i].rank
            == ranks[s[i].doc_id] && s[i].doc_id < names.len() && s[i].doc_name@
            == names[s[i].doc_id as int]
    &&& forall|id: usize|
        #[trigger] ranks.contains_key(id) ==> exists|i: int| 0 <= i < s.len() && s[i].doc_id == id
}

/// The documents of both `a` and `b`, each with the sum of its two ranks.
pub open spec fn meet(a: Map<usize, usize>, b: Map<usize, usize>) -> Map<usize, usize> {
    Map::new(|id: usize| a.contains_key(id) && b.contains_key(id), |id: usize| sat_add(a[id], b[id]))
}

impl QueryResult {
    /// Creates a new result.
    pub fn new(doc_id: usize, doc_name: String, rank: usize) -> (r: QueryResult)
        ensures
            r == (QueryResult { doc_id, doc_name, rank }),
    {
        QueryResult { doc_id, doc_name, rank }
    }

    /// Creates the result for document `doc_id`, ranked by the number of
    /// positions at which a term occurs in it.
    pub fn from(doc_id: usize, postings: &Vec<usize>, doc_table: &DocTable) -> (r: QueryResult)
        requires
            doc_id < doc_table@.len(),
        ensures
            r.doc_id == doc_id,
            r.doc_name@ == doc_table@[doc_id as int],
            r.rank == postings@.len(),
    {
        let name = doc_table.get_name(doc_id).unwrap();
        QueryResult { doc_id, doc_name: name.to_owned(), rank: postings.len() }
    }

    /// Whether this result comes before `other` in a ranked list.
    pub fn precedes(&self, other: &QueryResult) -> (r: bool)
        ensures
            r == precedes(*self, *other),
    {
        self.rank > other.rank || (self.rank == other.rank && self.doc_id < other.doc_id)
    }
}

/// The first result of `s` for document `id`.
fn find_first(s: &Vec<QueryResult>, id: usize) -> (r: Option<usize>)
    ensures
        r is None <==> first_for(s@, id) is None,
        r is Some ==> r->0 < s@.len() && first_for(s@, id) == Some(s@[r->0 as int]),
{
    let mut i: usize = 0;
    assert(s@.subrange(0, s@.len() as int) =~= s@);
    while i < s.len()
        invariant
            0 <= i <= s.len(),
            first_for(s@, id) == first_for(s@.subrange(i as int, s@.len() as int), id),
        decreases s.len() - i,
    {
        let ghost rest = s@.subrange(i as int, s@.len() as int);
        assert(rest.drop_first() =~= s@.subrange(i + 1, s@.len() as int));
        if s[i].doc_id == id {
            return Some(i);
        }
        i = i + 1;
    }
    None
}

/// Keeps the results of `results` whose document also has a result in
/// `other`, adding to each the rank of the first such result of `other`.
pub fn intersect(results: &mut Vec<QueryResult>, other: &Vec<QueryResult>)
    ensures
        final(results)@ == intersection(old(results)@, other@),
{
    let mut kept: Vec<QueryResult> = Vec::new();
    let mut i: usize = 0;
    while i < results.len()
        invariant
            0 <= i <= results.len(),
            kept@ == intersection(results@.subrange(0, i as int), other@),
        decreases results.len() - i,
    {
        let ghost pre = results@.subrange(0, i + 1);
        assert(pre.drop_last() =~= results@.subrange(0, i as int));
        match find_first(other, results[i].doc_id) {
            Some(j) => {
                let a = &results[i];
                kept.push(
                    QueryResult {
                        doc_id: a.doc_id,
                        doc_name: a.doc_name.clone(),
                        rank: a.rank.saturating_add(other[j].rank),
                    },
                );
            },
            None => {},
        }
        i = i + 1;
    }
    assert(results@.subrange(0, i as int) =~= results@);
    *results = kept;
}

/// Orders results for presentation: higher ranks first, equal ranks by
/// increasing document id.
pub fn rank_results(v: Vec<QueryResult>) -> (r: Vec<QueryResult>)
    ensures
        is_ranked(r@),
        r@.to_multiset() == v@.to_multiset(),
{
    let ghost orig = v@;
    let mut v = v;
    let mut out: Vec<QueryResult> = Vec::new();
    assert(out@.to_multiset().add(v@.to_multiset()) =~= orig.to_multiset());
    while v.len() > 0
        invariant
            is_ranked(out@),
            out@.to_multiset().add(v@.to_multiset()) == orig.to_multiset(),
        decreases v.len(),
    {
        let ghost before = v@;
        let x = v.pop().unwrap();
        assert(before =~= v@.push(x));
        let mut j: usize = 0;
        while j < out.len() && !x.precedes(&out[j])
            invariant
                0 <= j <= out.len(),
                forall|k: int| 0 <= k < j ==> !precedes(x, #[trigger] out@[k]),
            decreases out.len() - j,
        {
            j = j + 1;
        }
        let ghost o = out@;
        out.insert(j, x);
        assert(out@ =~= o.insert(j as int, x));
        assert forall|a: int, b: int| 0 <= a < b < out@.len() implies !precedes(out@[b], out@[a]) by {
            if b < j {
                assert(out@[a] == o[a] && out@[b] == o[b]);
            } else if b == j {
                assert(out@[a] == o[a]);
            } else if a == j {
                assert(out@[b] == o[b - 1]);
                assert(precedes(x, o[j as int]));
                if b - 1 > j {
                    assert(!precedes(o[b - 1], o[j as int]));
                }
            } else if a < j {
                assert(out@[a] == o[a] && out@[b] == o[b - 1]);
            } else {
                assert(out@[a] == o[a - 1] && out@[b] == o[b - 1]);
            }
        }
        assert(out@.to_multiset() =~= o.to_multiset().insert(x));
        assert(before.to_multiset() =~= v@.to_multiset().insert(x));
        assert(out@.to_multiset().add(v@.to_multiset()) =~= orig.to_multiset());
    }
    assert(v@.to_multiset() =~= Multiset::empty());
    assert(out@.to_multiset() =~= orig.to_multiset());
    out
}

/// Narrowing a list of results to the documents of another.
pub trait Intersect {
    /// Keeps the results whose document also has a result in `other`, adding
    /// to each the rank of the first such result of `other`.
    fn intersect(&mut self, other: &Vec<QueryResult>);
}

impl Intersect for Vec<QueryResult> {
    fn intersect(&mut self, other: &Vec<QueryResult>)
        ensures
            final(self)@ == intersection(old(self)@, other@),
    {
        intersect(self, other);
    }
}

/// Intersection with `b` keeps each document of `a` that `b` also has, with
/// the two ranks summed.
pub proof fn lemma_first_in_intersection(a: Seq<QueryResult>, b: Seq<QueryResult>, id: usize)
    ensures
        first_for(intersection(a, b), id) == (match (first_for(a, id), first_for(b, id)) {
            (Some(x), Some(y)) => Some(bumped(x, y.rank)),
            _ => None,
        }),
    decreases a.len(),
{
    if a.len() > 0 {
        lemma_first_in_intersection(a.drop_last(), b, id);
        lemma_first_for_push(intersection(a.drop_last(), b), a.last(), id);
        match first_for(b, a.last().doc_id) {
            Some(y) => lemma_first_for_push(
                intersection(a.drop_last(), b),
                bumped(a.last(), y.rank),
                id,
            ),
            None => {},
        }
        assert(a =~= a.drop_last().push(a.last()));
        lemma_first_for_push(a.drop_last(), a.last(), id);
    }
}

proof fn lemma_first_for_push(s: Seq<QueryResult>, x: QueryResult, id: usize)
    ensures
        first_for(s.push(x), id) == (if first_for(s, id) is Some {
            first_for(s, id)
        } else if x.doc_id == id {
            Some(x)
        } else {
            None
        }),
    decreases s.len(),
{
    let t = s.push(x);
    if s.len() > 0 {
        assert(t[0] == s[0]);
        assert(t.drop_first() =~= s.drop_first().push(x));
        lemma_first_for_push(s.drop_first(), x, id);
        if s[0].doc_id == id {
            assert(first_for(t, id) == Some(s[0]));
        } else {
            assert(first_for(t, id) == first_for(t.drop_first(), id));
            assert(first_for(s, id) == first_for(s.drop_first(), id));
        }
    } else {
        assert(t[0] == x);
        assert(t.drop_first() =~= Seq::<QueryResult>::empty());
        assert(first_for(s, id) is None);
        if x.doc_id != id {
            assert(first_for(t, id) == first_for(t.drop_first(), id));
        }
    }
}

/// The order of the lists does not change what an intersection finds: the
/// same documents, each with the same total rank, whichever list comes
/// first and however three lists are grouped.
pub proof fn lemma_intersection_order_free(
    a: Seq<QueryResult>,
    b: Seq<QueryResult>,
    c: Seq<QueryResult>,
)
    ensures
        docs_of(intersection(a, b)) == docs_of(intersection(b, a)),
        forall|id: usize| rank_in(intersection(a, b), id) == rank_in(intersection(b, a), id),
        docs_of(intersection(intersection(a, b), c)) == docs_of(
            intersection(a, intersection(b, c)),
        ),
        forall|id: usize|
            rank_in(intersection(intersection(a, b), c), id) == rank_in(
                intersection(a, intersection(b, c)),
                id,
            ),
{
    assert forall|id: usize|
        #[trigger] docs_of(intersection(a, b)).contains(id) <==> docs_of(
            intersection(b, a),
        ).contains(id) by {
        lemma_first_in_intersection(a, b, id);
        lemma_first_in_intersection(b, a, id);
    }
    assert forall|id: usize|
        #[trigger] rank_in(intersection(a, b), id) == rank_in(intersection(b, a), id) by {
        lemma_first_in_intersection(a, b, id);
        lemma_first_in_intersection(b, a, id);
    }
    assert forall|id: usize|
        #[trigger] docs_of(intersection(intersection(a, b), c)).contains(id) <==> docs_of(
            intersection(a, intersection(b, c)),
        ).contains(id) by {
        lemma_first_in_intersection(a, b, id);
        lemma_first_in_intersection(intersection(a, b), c, id);
        lemma_first_in_intersection(b, c, id);
        lemma_first_in_intersection(a, intersection(b, c), id);
    }
    assert forall|id: usize|
        #[trigger] rank_in(intersection(intersection(a, b), c), id) == rank_in(
            intersection(a, intersection(b, c)),
            id,
        ) by {
        lemma_first_in_intersection(a, b, id);
        lemma_first_in_intersection(intersection(a, b), c, id);
        lemma_first_in_intersection(b, c, id);
        lemma_first_in_intersection(a, intersection(b, c), id);
    }
    assert(docs_of(intersection(a, b)) =~= docs_of(intersection(b, a)));
    assert(docs_of(intersection(intersection(a, b), c)) =~= docs_of(
        intersection(a, intersection(b, c)),
    ));
}

proof fn lemma_first_for_distinct(s: Seq<QueryResult>, id: usize)
    requires
        forall|i: int, j: int| 0 <= i < j < s.len() ==> s[i].doc_id != s[j].doc_id,
    ensures
        first_for(s, id) is Some <==> exists|i: int| 0 <= i < s.len() && s[i].doc_id == id,
        forall|i: int| 0 <= i < s.len() && s[i].doc_id == id ==> first_for(s, id) == Some(s[i]),
    decreases s.len(),
{
    if s.len() > 0 {
        let t = s.drop_first();
        lemma_first_for_distinct(t, id);
        assert forall|i: int| 0 < i < s.len() implies s[i] == t[i - 1] by {}
        if s[0].doc_id != id {
            if exists|i: int| 0 <= i < s.len() && s[i].doc_id == id {
                let i = choose|i: int| 0 <= i < s.len() && s[i].doc_id == id;
                assert(t[i - 1].doc_id == id);
            }
        }
    }
}

/// `x` is a result of `a` bumped by the first result of `b` for its document.
spec fn from_left(a: Seq<QueryResult>, b: Seq<QueryResult>, x: QueryResult) -> bool {
    exists|i: int|
        0 <= i < a.len() && first_for(b, a[i].doc_id) is Some && x == bumped(
            a[i],
            first_for(b, a[i].doc_id)->0.rank,
        )
}

proof fn lemma_intersection_from_left(a: Seq<QueryResult>, b: Seq<QueryResult>)
    ensures
        forall|k: int|
            0 <= k < intersection(a, b).len() ==> from_left(a, b, #[trigger] intersection(a, b)[k]),
    decreases a.len(),
{
    if a.len() > 0 {
        let a0 = a.drop_last();
        let rest = intersection(a0, b);
        let me = intersection(a, b);
        lemma_intersection_from_left(a0, b);
        assert forall|k: int| 0 <= k < me.len() implies from_left(a, b, #[trigger] me[k]) by {
            if k < rest.len() {
                assert(me[k] == rest[k]);
                assert(from_left(a0, b, rest[k]));
                let i = choose|i: int|
                    0 <= i < a0.len() && first_for(b, a0[i].doc_id) is Some && rest[k] == bumped(
                        a0[i],
                        first_for(b, a0[i].doc_id)->0.rank,
                    );
                assert(a[i] == a0[i]);
            } else {
                assert(a[a.len() - 1] == a.last());
            }
        }
    }
}

proof fn lemma_intersection_ids(a: Seq<QueryResult>, b: Seq<QueryResult>)
    ensures
        forall|k: int|
            0 <= k < intersection(a, b).len() ==> exists|i: int|
                0 <= i < a.len() && a[i].doc_id == (#[trigger] intersection(a, b)[k]).doc_id,
    decreases a.len(),
{
    lemma_intersection_from_left(a, b);
    assert forall|k: int| 0 <= k < intersection(a, b).len() implies exists|i: int|
        0 <= i < a.len() && a[i].doc_id == (#[trigger] intersection(a, b)[k]).doc_id by {
        assert(from_left(a, b, intersection(a, b)[k]));
    }
}

proof fn lemma_intersection_distinct(a: Seq<QueryResult>, b: Seq<QueryResult>)
    requires
        forall|i: int, j: int| 0 <= i < j < a.len() ==> a[i].doc_id != a[j].doc_id,
    ensures
        forall|k: int, l: int|
            0 <= k < l < intersection(a, b).len() ==> intersection(a, b)[k].doc_id
                != intersection(a, b)[l].doc_id,
    decreases a.len(),
{
    if a.len() > 0 {
        let a0 = a.drop_last();
        let rest = intersection(a0, b);
        let me = intersection(a, b);
        lemma_intersection_distinct(a0, b);
        lemma_intersection_ids(a0, b);
        assert forall|k: int, l: int| 0 <= k < l < me.len() implies me[k].doc_id
            != me[l].doc_id by {
            assert(me[k] == rest[k]);
            if l >= rest.len() {
                let i = choose|i: int| 0 <= i < a0.len() && a0[i].doc_id == rest[k].doc_id;
                assert(a[i] == a0[i]);
            } else {
                assert(me[l] == rest[l]);
            }
        }
    }
}

proof fn lemma_intersection_covers(a: Seq<QueryResult>, b: Seq<QueryResult>)
    ensures
        forall|i: int|
            0 <= i < a.len() && first_for(b, #[trigger] a[i].doc_id) is Some ==> exists|k: int|
                0 <= k < intersection(a, b).len() && intersection(a, b)[k].doc_id == a[i].doc_id,
    decreases a.len(),
{
    if a.len() > 0 {
        let a0 = a.drop_last();
        let rest = intersection(a0, b);
        let me = intersection(a, b);
        lemma_intersection_covers(a0, b);
        assert forall|i: int|
            0 <= i < a.len() && first_for(b, #[trigger] a[i].doc_id) is Some implies exists|k: int|
            0 <= k < me.len() && me[k].doc_id == a[i].doc_id by {
            if i < a0.len() {
                assert(a0[i] == a[i]);
                let k = choose|k: int| 0 <= k < rest.len() && rest[k].doc_id == a0[i].doc_id;
                assert(me[k] == rest[k]);
            } else {
                assert(me[me.len() - 1].doc_id == a.last().doc_id);
            }
        }
    }
}

/// Intersecting two lists that list two rank maps lists their meet.
pub proof fn lemma_intersection_lists(
    a: Seq<QueryResult>,
    b: Seq<QueryResult>,
    ma: Map<usize, usize>,
    mb: Map<usize, usize>,
    names: Seq<Seq<char>>,
)
    requires
        lists_ranks(a, ma, names),
        lists_ranks(b, mb, names),
    ensures
        lists_ranks(intersection(a, b), meet(ma, mb), names),
{
    let me = intersection(a, b);
    let m = meet(ma, mb);
    lemma_intersection_from_left(a, b);
    lemma_intersection_distinct(a, b);
    lemma_intersection_covers(a, b);
    assert forall|id: usize| #[trigger] first_for(b, id) is Some <==> mb.contains_key(id) by {
        lemma_first_for_distinct(b, id);
    }
    assert forall|k: int| 0 <= k < me.len() implies #[trigger] m.contains_key(me[k].doc_id)
        && me[k].rank == m[me[k].doc_id] && me[k].doc_id < names.len() && me[k].doc_name@
        == names[me[k].doc_id as int] by {
        assert(from_left(a, b, me[k]));
        let i = choose|i: int|
            0 <= i < a.len() && first_for(b, a[i].doc_id) is Some && me[k] == bumped(
                a[i],
                first_for(b, a[i].doc_id)->0.rank,
            );
        let id = a[i].doc_id;
        lemma_first_for_distinct(b, id);
        let j = choose|j: int| 0 <= j < b.len() && b[j].doc_id == id;
        assert(ma.contains_key(a[i].doc_id));
        assert(mb.contains_key(b[j].doc_id));
    }
    assert forall|id: usize| #[trigger] m.contains_key(id) implies exists|k: int|
        0 <= k < me.len() && me[k].doc_id == id by {
        let i = choose|i: int| 0 <= i < a.len() && a[i].doc_id == id;
        assert(first_for(b, a[i].doc_id) is Some);
    }
}

/// Reordering a list keeps what it lists.
pub proof fn lemma_lists_ranks_permuted(
    s: Seq<QueryResult>,
    t: Seq<QueryResult>,
    m: Map<usize, usize>,
    names: Seq<Seq<char>>,
)
    requires
        lists_ranks(s, m, names),
        t.to_multiset() == s.to_multiset(),
    ensures
        lists_ranks(t, m, names),
{
    assert(s.no_duplicates());
    s.lemma_multiset_has_no_duplicates();
    assert forall|x: QueryResult| t.to_multiset().contains(x) implies t.to_multiset().count(x)
        == 1 by {}
    t.lemma_multiset_has_no_duplicates_conv();
    assert forall|a: int| 0 <= a < t.len() implies exists|i: int|
        0 <= i < s.len() && s[i] == #[trigger] t[a] by {
        assert(t.contains(t[a]));
        assert(t.to_multiset().count(t[a]) > 0);
        assert(s.contains(t[a]));
    }
    assert forall|a: int, b: int| 0 <= a < b < t.len() implies t[a].doc_id != t[b].doc_id by {
        let i = choose|i: int| 0 <= i < s.len() && s[i] == t[a];
        let j = choose|j: int| 0 <= j < s.len() && s[j] == t[b];
        if i != j {
            assert(s[i].doc_id != s[j].doc_id || i > j);
        }
    }
    assert forall|a: int| 0 <= a < t.len() implies #[trigger] m.contains_key(t[a].doc_id)
        && t[a].rank == m[t[a].doc_id] && t[a].doc_id < names.len() && t[a].doc_name@
        == names[t[a].doc_id as int] by {
        let i = choose|i: int| 0 <= i < s.len() && s[i] == t[a];
    }
    assert forall|id: usize| #[trigger] m.contains_key(id) implies exists|a: int|
        0 <= a < t.len() && t[a].doc_id == id by {
        let i = choose|i: int| 0 <= i < s.len() && s[i].doc_id == id;
        assert(s.contains(s[i]));
        assert(s.to_multiset().count(s[i]) > 0);
        assert(t.contains(s[i]));
    }
}

proof fn lemma_ranked_prefix(
    r1: Seq<QueryResult>,
    r2: Seq<QueryResult>,
    m: Map<usize, usize>,
    names: Seq<Seq<char>>,
    k: int,
)
    requires
        lists_ranks(r1, m, names),
        lists_ranks(r2, m, names),
        is_ranked(r1),
        is_ranked(r2),
        0 <= k <= r1.len(),
        k <= r2.len(),
    ensures
        forall|i: int| 0 <= i < k ==> (#[trigger] r1[i]).doc_id == r2[i].doc_id,
    decreases k,
{
    if k > 0 {
        let t = k - 1;
        lemma_ranked_prefix(r1, r2, m, names, t);
        let x = r1[t];
        let y = r2[t];
        if x.doc_id != y.doc_id {
            assert(m.contains_key(r2[t].doc_id));
            let p = choose|p: int| 0 <= p < r1.len() && r1[p].doc_id == y.doc_id;
            if p < t {
                assert(r1[p].doc_id == r2[p].doc_id);
            }
            assert(m.contains_key(r1[t].doc_id));
            let q = choose|q: int| 0 <= q < r2.len() && r2[q].doc_id == x.doc_id;
            if q < t {
                assert(r1[q].doc_id == r2[q].doc_id);
            }
            assert(m.contains_key(r1[p].doc_id));
            assert(m.contains_key(r2[q].doc_id));
            assert(!precedes(r1[p], r1[t]));
            assert(!precedes(r2[q], r2[t]));
        }
    }
}

/// A rank map has one ranked list: two ranked lists of the same documents
/// and ranks agree position by position.
pub proof fn lemma_ranked_lists_agree(
    r1: Seq<QueryResult>,
    r2: Seq<QueryResult>,
    m: Map<usize, usize>,
    names: Seq<Seq<char>>,
)
    requires
        lists_ranks(r1, m, names),
        lists_ranks(r2, m, names),
        is_ranked(r1),
        is_ranked(r2),
    ensures
        r1.len() == r2.len(),
        forall|i: int|
            0 <= i < r1.len() ==> (#[trigger] r1[i]).doc_id == r2[i].doc_id && r1[i].rank
                == r2[i].rank && r1[i].doc_name@ == r2[i].doc_name@,
{
    if r1.len() <= r2.len() {
        lemma_ranked_prefix(r1, r2, m, names, r1.len() as int);
        if r1.len() < r2.len() {
            let t = r1.len() as int;
            assert(m.contains_key(r2[t].doc_id));
            let p = choose|p: int| 0 <= p < r1.len() && r1[p].doc_id == r2[t].doc_id;
            assert(r1[p].doc_id == r2[p].doc_id);
        }
    } else {
        lemma_ranked_prefix(r1, r2, m, names, r2.len() as int);
        let t = r2.len() as int;
        assert(m.contains_key(r1[t].doc_id));
        let p = choose|p: int| 0 <= p < r2.len() && r2[p].doc_id == r1[t].doc_id;
        assert(r1[p].doc_id == r2[p].doc_id);
    }
    assert forall|i: int| 0 <= i < r1.len() implies (#[trigger] r1[i]).doc_id == r2[i].doc_id
        && r1[i].rank == r2[i].rank && r1[i].doc_name@ == r2[i].doc_name@ by {
        assert(m.contains_key(r1[i].doc_id));
        assert(m.contains_key(r2[i].doc_id));
    }
}

/// Where no sum overflows, intersection adds the ranks exactly: a document
/// found in every list gets the sum of its ranks there.
pub proof fn lemma_intersection_sums(
    a: Seq<QueryResult>,
    b: Seq<QueryResult>,
    c: Seq<QueryResult>,
    id: usize,
)
    ensures
        first_for(a, id) is Some && first_for(b, id) is Some && rank_in(a, id) + rank_in(b, id)
            <= usize::MAX ==> docs_of(intersection(a, b)).contains(id) && rank_in(
            intersection(a, b),
            id,
        ) == rank_in(a, id) + rank_in(b, id),
        first_for(a, id) is Some && first_for(b, id) is Some && first_for(c, id) is Some
            && rank_in(a, id) + rank_in(b, id) + rank_in(c, id) <= usize::MAX ==> docs_of(
            intersection(intersection(a, b), c),
        ).contains(id) && rank_in(intersection(intersection(a, b), c), id) == rank_in(a, id)
            + rank_in(b, id) + rank_in(c, id),
{
    lemma_first_in_intersection(a, b, id);
    lemma_first_in_intersection(intersection(a, b), c, id);
}

} // verus!
