//! Layouts: finite sets of component type keys.

use vstd::prelude::*;

verus! {

/// The key that identifies a component type.
pub type TypeKey = u64;

/// A set of component type keys, kept as a list without repetition.
pub struct Layout {
    pub(crate) keys: Vec<TypeKey>,
}

impl Layout {
    /// The set of keys held.
    pub open(crate) spec fn view(&self) -> Set<TypeKey> {
        self.keys@.to_set()
    }

    /// No key is stored twice.
    pub open(crate) spec fn wf(&self) -> bool {
        self.keys@.no_duplicates()
    }

    /// The empty layout.
    pub fn new() -> (layout: Layout)
        ensures
            layout.wf(),
            layout@ == Set::<TypeKey>::empty(),
    {
        let layout = Layout { keys: Vec::new() };
        assert(layout.keys@.to_set() =~= Set::<TypeKey>::empty());
        layout
    }

    /// Number of keys held.
    pub fn len(&self) -> (n: usize)
        requires
            self.wf(),
        ensures
            n == self@.len(),
            self@.finite(),
    {
        proof {
            self.keys@.unique_seq_to_set();
        }
        self.keys.len()
    }

    /// Whether `key` belongs to the layout.
    pub fn contains(&self, key: TypeKey) -> (found: bool)
        ensures
            found == self@.contains(key),
    {
        let mut i: usize = 0;
        while i < self.keys.len()
            invariant
                i <= self.keys.len(),
                forall|j: int| 0 <= j < i ==> self.keys@[j] != key,
            decreases self.keys.len() - i,
        {
            if self.keys[i] == key {
                assert(self.keys@.contains(key));
                return true;
            }
            i += 1;
        }
        false
    }

    /// Adds `key`; a key already present is left as it is.
    pub fn insert(&mut self, key: TypeKey)
        requires
            old(self).wf(),
        ensures
            final(self).wf(),
            final(self)@ == old(self)@.insert(key),
    {
        if !self.contains(key) {
            self.keys.push(key);
            assert(self.keys@.to_set() =~= old(self).keys@.to_set().insert(key)) by {
                assert forall|k: TypeKey| self.keys@.to_set().contains(k) implies old(
                    self,
                ).keys@.to_set().insert(key).contains(k) by {
                    let j = choose|j: int| 0 <= j < self.keys@.len() && self.keys@[j] == k;
                    if j < old(self).keys@.len() {
                        assert(old(self).keys@[j] == k);
                    }
                }
                assert forall|k: TypeKey|
                    old(self).keys@.to_set().insert(key).contains(k) implies self.keys@.to_set().contains(
                    k,
                ) by {
                    if k == key {
                        assert(self.keys@[old(self).keys@.len() as int] == key);
                    } else {
                        let j = choose|j: int| 0 <= j < old(self).keys@.len() && old(self).keys@[j] == k;
                        assert(self.keys@[j] == k);
                    }
                }
            }
        } else {
            assert(old(self)@.insert(key) =~= old(self)@);
        }
    }

    /// Whether every key of `self` belongs to `other`.
    pub fn is_subset(&self, other: &Layout) -> (r: bool)
        ensures
            r == self@.subset_of(other@),
    {
        let mut i: usize = 0;
        while i < self.keys.len()
            invariant
                i <= self.keys.len(),
                forall|j: int| 0 <= j < i ==> other@.contains(self.keys@[j]),
            decreases self.keys.len() - i,
        {
            if !other.contains(self.keys[i]) {
                assert(self@.contains(self.keys@[i as int]));
                return false;
            }
            i += 1;
        }
        true
    }

    /// Whether the two layouts hold the same keys.
    pub fn equals(&self, other: &Layout) -> (r: bool)
        requires
            self.wf(),
            other.wf(),
        ensures
            r == (self@ == other@),
    {
        let n = self.len();
        let m = other.len();
        if n != m {
            return false;
        }
        let sub = self.is_subset(other);
        proof {
            if sub {
                vstd::set_lib::lemma_subset_equality(self@, other@);
            } else {
                assert(!(self@ =~= other@));
            }
        }
        sub
    }

    /// A copy of the layout.
    pub fn duplicate(&self) -> (copy: Layout)
        ensures
            copy.wf() == self.wf(),
            copy@ == self@,
    {
        let mut keys: Vec<TypeKey> = Vec::new();
        let mut i: usize = 0;
        while i < self.keys.len()
            invariant
                i <= self.keys.len(),
                keys@ == self.keys@.take(i as int),
            decreases self.keys.len() - i,
        {
            keys.push(self.keys[i]);
            assert(self.keys@.take(i as int + 1) =~= self.keys@.take(i as int).push(self.keys@[i as int]));
            i += 1;
        }
        assert(self.keys@.take(i as int) =~= self.keys@);
        Layout { keys }
    }
}

} // verus!
