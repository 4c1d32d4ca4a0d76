//! Identifier types for the constraint graph: symbolic value names, node
//! identifiers, and the append-only vectors they index.

use vstd::prelude::*;

use crate::digits::{all_digits, dec_digits, dec_value, lemma_dec_digits_value, parse_dec};

verus! {

/// Identifies one node of the constraint graph. Nodes are allocated by a
/// monotonic counter and never reused.
#[derive(Clone, Copy, PartialEq, Eq, Structural, Debug)]
pub struct NodeId(pub usize);

/// An opaque, globally unique identifier for one single-assignment-style
/// symbolic value. A name is bound to exactly one declaration and its
/// external label is stable: the solver round trip depends on it.
#[derive(Clone, Copy, PartialEq, Eq, Structural, Debug)]
pub struct Name(pub usize);

/// A growable vector indexed by `NodeId`.
pub struct NodeVec<V>(pub Vec<V>);

impl<V> View for NodeVec<V> {
    type V = Seq<V>;

    open spec fn view(&self) -> Seq<V> {
        self.0@
    }
}

impl<V> NodeVec<V> {
    /// An empty vector.
    pub fn new() -> (r: NodeVec<V>)
        ensures
            r@ == Seq::<V>::empty(),
    {
        NodeVec(Vec::new())
    }

    /// Appends an item and returns the identifier it now lives under.
    pub fn push(&mut self, item: V) -> (id: NodeId)
        ensures
            final(self)@ == old(self)@.push(item),
            id.0 == old(self)@.len(),
    {
        let ind = self.0.len();
        self.0.push(item);
        NodeId(ind)
    }

    /// The number of items.
    pub fn len(&self) -> (n: usize)
        ensures
            n == self@.len(),
    {
        self.0.len()
    }

    /// Borrows the item under `id`.
    pub fn get(&self, id: NodeId) -> (r: &V)
        requires
            id.0 < self@.len(),
        ensures
            *r == self@[id.0 as int],
    {
        &self.0[id.0]
    }

    /// Mutably borrows the item under `id`.
    pub fn get_mut(&mut self, id: NodeId) -> (r: &mut V)
        requires
            id.0 < old(self)@.len(),
        ensures
            *r == old(self)@[id.0 as int],
            final(self)@ == old(self)@.update(id.0 as int, *final(r)),
    {
        &mut self.0[id.0]
    }
}

/// A growable vector indexed by `Name`.
pub struct NameVec<V>(pub Vec<V>);

impl<V> View for NameVec<V> {
    type V = Seq<V>;

    open spec fn view(&self) -> Seq<V> {
        self.0@
    }
}

impl<V> NameVec<V> {
    /// An empty vector.
    pub fn new() -> (r: NameVec<V>)
        ensures
            r@ == Seq::<V>::empty(),
    {
        NameVec(Vec::new())
    }

    /// Appends an item and returns the name it now lives under.
    pub fn push(&mut self, item: V) -> (nm: Name)
        ensures
            final(self)@ == old(self)@.push(item),
            nm.0 == old(self)@.len(),
    {
        let ind = self.0.len();
        self.0.push(item);
        Name(ind)
    }

    /// The number of items.
    pub fn len(&self) -> (n: usize)
        ensures
            n == self@.len(),
    {
        self.0.len()
    }

    /// Borrows the item under `nm`.
    pub fn get(&self, nm: Name) -> (r: &V)
        requires
            nm.0 < self@.len(),
        ensures
            *r == self@[nm.0 as int],
    {
        &self.0[nm.0]
    }

    /// Mutably borrows the item under `nm`.
    pub fn get_mut(&mut self, nm: Name) -> (r: &mut V)
        requires
            nm.0 < old(self)@.len(),
        ensures
            *r == old(self)@[nm.0 as int],
            final(self)@ == old(self)@.update(nm.0 as int, *final(r)),
    {
        &mut self.0[nm.0]
    }
}

/// Yields every name below a bound, in allocation order.
pub struct NameIter {
    pub curr_index: usize,
    pub num_items: usize,
}

impl NameIter {
    /// An iterator over the names `0 .. num_items`.
    pub fn new(num_items: usize) -> (r: NameIter)
        ensures
            r.curr_index == 0,
            r.num_items == num_items,
    {
        NameIter { curr_index: 0, num_items }
    }

    /// The next name, or `None` once the bound is reached.
    pub fn next(&mut self) -> (r: Option<Name>)
        ensures
            old(self).curr_index < old(self).num_items ==> r == Some(Name(old(self).curr_index))
                && final(self).curr_index == old(self).curr_index + 1,
            old(self).curr_index >= old(self).num_items ==> r is None && final(self).curr_index
                == old(self).curr_index,
            final(self).num_items == old(self).num_items,
    {
        if self.curr_index < self.num_items {
            let item = Some(Name(self.curr_index));
            self.curr_index = self.curr_index + 1;
            item
        } else {
            None
        }
    }
}

/// The stable external label of the name with index `n`: the letter `x`
/// followed by the decimal rendering of `n`.
pub open spec fn name_label(n: nat) -> Seq<char> {
    seq!['x'] + dec_digits(n)
}

/// The label of a name parses back to that name, and to nothing else: it is
/// at least two characters, starts with `x`, and its digits denote `n`.
pub proof fn lemma_name_label_round_trip(n: nat)
    ensures
        name_label(n).len() >= 2,
        name_label(n)[0] == 'x',
        all_digits(name_label(n).skip(1)),
        dec_value(name_label(n).skip(1)) == n,
{
    lemma_dec_digits_value(n);
    assert(name_label(n).skip(1) =~= dec_digits(n));
}

impl Name {
    /// Renders this name's external label.
    pub fn to_id(&self) -> (r: String)
        ensures
            r@ == name_label(self.0 as nat),
    {
        proof {
            reveal_strlit("x");
        }
        let mut out = String::from_str("x");
        crate::digits::append_dec(&mut out, self.0 as u128);
        proof {
            assert(out@ =~= name_label(self.0 as nat));
        }
        out
    }

    /// Reads a name back from an external label: the letter `x` followed by
    /// decimal digits whose value fits the index type.
    pub fn from_str(val: &str) -> (r: Option<Name>)
        ensures
            match r {
                Some(nm) => {
                    &&& val@.len() >= 2
                    &&& val@[0] == 'x'
                    &&& all_digits(val@.skip(1))
                    &&& nm.0 as nat == dec_value(val@.skip(1))
                },
                None => {
                    ||| val@.len() < 2
                    ||| val@[0] != 'x'
                    ||| !all_digits(val@.skip(1))
                    ||| dec_value(val@.skip(1)) > usize::MAX
                },
            },
    {
        let len = val.unicode_len();
        if len < 2 {
            return None;
        }
        if val.get_char(0) != 'x' {
            return None;
        }
        proof {
            assert(val@.skip(1) =~= val@.subrange(1, val@.len() as int));
        }
        match parse_dec(val, 1, len) {
            Some(v) => {
                if v <= usize::MAX as u128 {
                    Some(Name(v as usize))
                } else {
                    None
                }
            },
            None => None,
        }
    }
}

} // verus!
