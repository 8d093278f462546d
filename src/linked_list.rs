//! A double-ended list: pushes and pops at either end, filtering in place,
//! access by position and iteration from the front.

use std::collections::VecDeque;
use vstd::prelude::*;
use vstd::string::to_string_from_display_ensures;

verus! {

/// The elements of `s` whose entry in `keep` is true, in order.
pub open spec fn kept<T>(s: Seq<T>, keep: Seq<bool>) -> Seq<T>
    decreases s.len(),
{
    if s.len() == 0 || keep.len() == 0 {
        Seq::empty()
    } else if keep.last() {
        kept(s.drop_last(), keep.drop_last()).push(s.last())
    } else {
        kept(s.drop_last(), keep.drop_last())
    }
}

/// `parts` joined, with `sep` between each two.
pub open spec fn joined(parts: Seq<Seq<char>>, sep: Seq<char>) -> Seq<char>
    decreases parts.len(),
{
    if parts.len() == 0 {
        Seq::empty()
    } else if parts.len() == 1 {
        parts[0]
    } else {
        joined(parts.drop_last(), sep) + sep + parts.last()
    }
}

/// A list that can grow and shrink at both ends.
pub struct LinkedList<T> {
    items: VecDeque<T>,
}

impl<T> View for LinkedList<T> {
    type V = Seq<T>;

    closed spec fn view(&self) -> Seq<T> {
        self.items@
    }
}

impl<T: Clone> LinkedList<T> {
    /// Creates an empty list.
    pub fn new() -> (r: LinkedList<T>)
        ensures
            r@ == Seq::<T>::empty(),
    {
        LinkedList { items: VecDeque::new() }
    }

    /// The number of elements.
    pub fn len(&self) -> (r: u64)
        ensures
            r == self@.len(),
    {
        self.items.len() as u64
    }

    /// Adds an element at the front.
    pub fn push_front(&mut self, value: T)
        ensures
            final(self)@ == seq![value] + old(self)@,
    {
        self.items.push_front(value);
    }

    /// Removes the element at the front and returns it; `None` when empty.
    pub fn pop_front(&mut self) -> (r: Option<T>)
        ensures
            old(self)@.len() == 0 ==> r is None && final(self)@ == old(self)@,
            old(self)@.len() > 0 ==> r == Some(old(self)@[0]) && final(self)@ == old(
                self,
            )@.drop_first(),
    {
        let r = self.items.pop_front();
        proof {
            if old(self)@.len() > 0 {
                assert(self@ =~= old(self)@.drop_first());
            }
        }
        r
    }

    /// Adds an element at the back.
    pub fn push_back(&mut self, value: T)
        ensures
            final(self)@ == old(self)@.push(value),
    {
        self.items.push_back(value);
    }

    /// Removes the element at the back and returns it; `None` when empty.
    pub fn pop_back(&mut self) -> (r: Option<T>)
        ensures
            old(self)@.len() == 0 ==> r is None && final(self)@ == old(self)@,
            old(self)@.len() > 0 ==> r == Some(old(self)@.last()) && final(self)@ == old(
                self,
            )@.drop_last(),
    {
        let r = self.items.pop_back();
        proof {
            if old(self)@.len() > 0 {
                assert(self@ =~= old(self)@.drop_last());
            }
        }
        r
    }

    /// Keeps only the elements for which `f` returns true, in order.
    pub fn retain<F: Fn(&T) -> bool>(&mut self, f: F)
        requires
            forall|x: &T| f.requires((x,)),
        ensures
            exists|keep: Seq<bool>|
                keep.len() == old(self)@.len() && (forall|i: int|
                    0 <= i < keep.len() ==> f.ensures((&old(self)@[i],), #[trigger] keep[i]))
                    && final(self)@ == kept(old(self)@, keep),
    {
        let ghost all = self@;
        let mut rest = VecDeque::new();
        std::mem::swap(&mut rest, &mut self.items);
        let ghost mut keep: Seq<bool> = Seq::empty();
        let ghost mut k: int = 0;
        assert(all.subrange(0, 0) =~= Seq::<T>::empty());
        assert(rest@ =~= all.subrange(0, all.len() as int));
        while rest.len() > 0
            invariant
                forall|x: &T| f.requires((x,)),
                0 <= k <= all.len(),
                keep.len() == k,
                rest@ == all.subrange(k, all.len() as int),
                forall|i: int| 0 <= i < k ==> f.ensures((&all[i],), #[trigger] keep[i]),
                self@ == kept(all.subrange(0, k), keep),
            decreases rest.len(),
        {
            let x = rest.pop_front().unwrap();
            assert(x == all[k]);
            let b = f(&x);
            let ghost before = self@;
            if b {
                self.items.push_back(x);
            }
            proof {
                let s1 = all.subrange(0, k + 1);
                let k1 = keep.push(b);
                assert(s1.drop_last() =~= all.subrange(0, k));
                assert(k1.drop_last() =~= keep);
                assert(rest@ =~= all.subrange(k + 1, all.len() as int));
                keep = k1;
                k = k + 1;
            }
        }
        assert(all.subrange(0, k) =~= all);
    }

    /// Removes every element.
    pub fn clear(&mut self)
        ensures
            final(self)@ == Seq::<T>::empty(),
    {
        self.items.clear();
    }

    /// Whether the list has no elements.
    pub fn is_empty(&self) -> (r: bool)
        ensures
            r == (self@.len() == 0),
    {
        self.items.len() == 0
    }

    /// A clone of the element at position `index`; `None` when out of range.
    pub fn get(&self, index: u64) -> (r: Option<T>)
        ensures
            r is Some <==> index < self@.len(),
            r is Some ==> cloned(self@[index as int], r->0),
    {
        if index >= self.items.len() as u64 {
            return None;
        }
        Some(self.items[index as usize].clone())
    }

    /// An iterator over the elements, from the front.
    pub fn iter(&self) -> (r: ListIter<'_, T>)
        ensures
            r.list()@ == self@,
            r.position() == 0,
    {
        ListIter { list: self, pos: 0 }
    }
}

impl<T: Clone + std::fmt::Display> LinkedList<T> {
    /// The elements, each as it displays, joined by " -> ".
    pub fn to_string(&self) -> (r: String)
        ensures
            exists|parts: Seq<String>|
                parts.len() == self@.len() && (forall|i: int|
                    0 <= i < parts.len() ==> to_string_from_display_ensures::<T>(
                        &self@[i],
                        #[trigger] parts[i],
                    )) && r@ == joined(parts.map_values(|s: String| s@), " -> "@),
    {
        let mut out = String::new();
        let ghost mut parts: Seq<String> = Seq::empty();
        let mut i: usize = 0;
        while i < self.items.len()
            invariant
                0 <= i <= self@.len(),
                parts.len() == i,
                forall|j: int|
                    0 <= j < i ==> to_string_from_display_ensures::<T>(&self@[j], #[trigger] parts[j]),
                out@ == joined(parts.map_values(|s: String| s@), " -> "@),
            decreases self@.len() - i,
        {
            let piece = self.items[i].to_string();
            if i > 0 {
                out.push_str(" -> ");
            }
            out.push_str(piece.as_str());
            proof {
                let p1 = parts.push(piece);
                let v1 = p1.map_values(|s: String| s@);
                assert(v1.drop_last() =~= parts.map_values(|s: String| s@));
                assert(v1.last() == piece@);
                if i == 0 {
                    assert(out@ =~= v1[0]);
                }
                parts = p1;
            }
            i = i + 1;
        }
        out
    }
}

/// An iterator over the elements of a `LinkedList`, from the front.
pub struct ListIter<'a, T> {
    list: &'a LinkedList<T>,
    pos: usize,
}

impl<'a, T: Clone> ListIter<'a, T> {
    /// The list being walked.
    pub closed spec fn list(&self) -> &'a LinkedList<T> {
        self.list
    }

    /// The number of elements already handed out.
    pub closed spec fn position(&self) -> nat {
        self.pos as nat
    }

    /// A clone of the next element; `None` past the end.
    pub fn next(&mut self) -> (r: Option<T>)
        ensures
            final(self).list() == old(self).list(),
            old(self).position() < old(self).list()@.len() ==> r is Some && cloned(
                old(self).list()@[old(self).position() as int],
                r->0,
            ) && final(self).position() == old(self).position() + 1,
            old(self).position() >= old(self).list()@.len() ==> r is None && final(self).position()
                == old(self).position(),
    {
        if self.pos < self.list.items.len() {
            let x = self.list.items[self.pos].clone();
            self.pos = self.pos + 1;
            Some(x)
        } else {
            None
        }
    }
}

} // verus!
