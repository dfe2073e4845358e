//! Tensors that a background reader sends, in the order they are wanted or not.
use crate::text::same_text;
use vstd::prelude::*;

verus! {

/// Items that arrived before they were wanted.
#[derive(Debug)]
pub struct Prefetch<T> {
    pending: Vec<(String, T)>,
}

/// The name and item of each pending item.
pub open spec fn named<T>(items: Seq<(String, T)>) -> Seq<(Seq<char>, T)> {
    Seq::new(items.len(), |i: int| (items[i].0@, items[i].1))
}

/// Where the first item of this name is, from `i` on.
pub open spec fn position<T>(items: Seq<(Seq<char>, T)>, name: Seq<char>, i: nat) -> Option<nat>
    decreases items.len() - i,
{
    if i >= items.len() {
        None
    } else if items[i as int].0 == name {
        Some(i)
    } else {
        position(items, name, i + 1)
    }
}

impl<T> Prefetch<T> {
    /// What is pending, in the order it arrived.
    pub closed spec fn waiting(self) -> Seq<(Seq<char>, T)> {
        named(self.pending@)
    }

    pub fn new() -> (r: Self)
        ensures
            r.waiting().len() == 0,
    {
        Prefetch { pending: Vec::new() }
    }

    /// Takes an item that arrived earlier.
    pub fn take(&mut self, name: &str) -> (r: Option<T>)
        ensures
            match position(old(self).waiting(), name@, 0) {
                Some(i) => r == Some(old(self).waiting()[i as int].1) && final(self).waiting()
                    == old(self).waiting().remove(i as int),
                None => r is None && final(self).waiting() == old(self).waiting(),
            },
    {
        let ghost all = self.waiting();
        let mut i: usize = 0;
        while i < self.pending.len()
            invariant
                i <= self.pending@.len(),
                self.waiting() == all,
                all == old(self).waiting(),
                position(all, name@, 0) == position(all, name@, i as nat),
            decreases self.pending@.len() - i,
        {
            assert(all[i as int] == (self.pending@[i as int].0@, self.pending@[i as int].1));
            if same_text(self.pending[i].0.as_str(), name) {
                let item: (String, T) = self.pending.remove(i);
                assert(self.waiting() =~= all.remove(i as int));
                return Some(item.1);
            }
            i += 1;
        }
        None
    }

    /// Receives an item: it is handed on where it is the wanted one, else kept.
    pub fn receive(&mut self, wanted: &str, name: String, item: T) -> (r: Option<T>)
        ensures
            if name@ == wanted@ {
                r == Some(item) && final(self).waiting() == old(self).waiting()
            } else {
                r is None && final(self).waiting() == old(self).waiting().push((name@, item))
            },
    {
        if same_text(name.as_str(), wanted) {
            return Some(item);
        }
        let ghost before = self.waiting();
        let ghost text = name@;
        self.pending.push((name, item));
        assert(self.waiting() =~= before.push((text, item)));
        None
    }
}

} // verus!
