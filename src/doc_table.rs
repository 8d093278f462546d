//! A two-way mapping between document names and the dense ids given to them.

use vstd::prelude::*;

verus! {

/// The id that a table with the given names has for `name`: the last position
/// at which the name was added, if it was.
pub open spec fn id_in(names: Seq<Seq<char>>, name: Seq<char>) -> Option<int>
    decreases names.len(),
{
    if names.len() == 0 {
        None
    } else if names.last() == name {
        Some(names.len() - 1)
    } else {
        id_in(names.drop_last(), name)
    }
}

/// A bidirectional mapping of document names to document ids.
///
/// Ids are given densely, from 0, in the order in which names are added; the
/// view is the sequence of names, indexed by id. Adding a name twice gives it
/// a second id; looking the name up then finds the later one.
pub struct DocTable {
    names: Vec<String>,
}

impl View for DocTable {
    type V = Seq<Seq<char>>;

    closed spec fn view(&self) -> Seq<Seq<char>> {
        self.names@.map_values(|s: String| s@)
    }
}

impl DocTable {
    /// Creates an empty table.
    pub fn new() -> (r: DocTable)
        ensures
            r@ == Seq::<Seq<char>>::empty(),
    {
        let r = DocTable { names: Vec::new() };
        assert(r@ =~= Seq::<Seq<char>>::empty());
        r
    }

    /// The number of ids given out.
    pub fn num_docs(&self) -> (r: usize)
        ensures
            r == self@.len(),
    {
        self.names.len()
    }

    /// Adds a document and returns its new id, the next one in order.
    pub fn add(&mut self, doc: &str) -> (r: usize)
        ensures
            r == old(self)@.len(),
            final(self)@ == old(self)@.push(doc@),
    {
        let id = self.names.len();
        self.names.push(doc.to_owned());
        assert(self@ =~= old(self)@.push(doc@));
        id
    }

    /// Returns the id of a document, if it was added.
    pub fn get_id(&self, doc: &str) -> (r: Option<usize>)
        ensures
            r is None <==> id_in(self@, doc@) is None,
            r is Some ==> id_in(self@, doc@) == Some(r->0 as int),
    {
        let mut i: usize = self.names.len();
        assert(self@.subrange(0, i as int) =~= self@);
        while i > 0
            invariant
                0 <= i <= self.names.len(),
                id_in(self@, doc@) == id_in(self@.subrange(0, i as int), doc@),
            decreases i,
        {
            let ghost pre = self@.subrange(0, i as int);
            assert(pre.drop_last() =~= self@.subrange(0, i - 1));
            assert(pre.last() == self.names[i - 1]@);
            if <str as PartialEq>::eq(self.names[i - 1].as_str(), doc) {
                return Some(i - 1);
            }
            i = i - 1;
        }
        None
    }

    /// Returns the name of the document with id `id`, if there is one.
    pub fn get_name(&self, id: usize) -> (r: Option<&str>)
        ensures
            r is Some <==> id < self@.len(),
            r is Some ==> r->0@ == self@[id as int],
    {
        if id < self.names.len() {
            Some(self.names[id].as_str())
        } else {
            None
        }
    }
}

/// Ids name documents: two names that were added have different ids, and
/// the name under the id of an added name is that name.
pub proof fn lemma_ids_name_documents(names: Seq<Seq<char>>, n1: Seq<char>, n2: Seq<char>)
    requires
        names.contains(n1),
        names.contains(n2),
        n1 != n2,
    ensures
        id_in(names, n1) is Some,
        id_in(names, n1) != id_in(names, n2),
        names[id_in(names, n1)->0] == n1,
    decreases names.len(),
{
    lemma_id_in(names, n1);
    lemma_id_in(names, n2);
}

proof fn lemma_id_in(names: Seq<Seq<char>>, n: Seq<char>)
    ensures
        names.contains(n) ==> id_in(names, n) is Some,
        id_in(names, n) is Some ==> 0 <= id_in(names, n)->0 < names.len() && names[id_in(
            names,
            n,
        )->0] == n,
    decreases names.len(),
{
    if names.len() > 0 && names.last() != n {
        let rest = names.drop_last();
        lemma_id_in(rest, n);
        assert(id_in(names, n) == id_in(rest, n));
        if id_in(rest, n) is Some {
            let k = id_in(rest, n)->0;
            assert(names[k] == rest[k]);
        }
        if names.contains(n) {
            let k = choose|k: int| 0 <= k < names.len() && names[k] == n;
            assert(names.drop_last()[k] == n);
        }
    }
}

} // verus!
