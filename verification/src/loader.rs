//! A container for resource loaders, keyed by the loader's kind.
//!
//! Each loader reports a key identifying its concrete kind, and the
//! container keeps at most one loader per kind: setting a loader whose kind
//! is already present replaces the old one and hands it back.

use vstd::prelude::*;

verus! {

/// A resource loader. Implementors report a key that identifies the
/// loader's concrete kind; the container stores at most one loader per key.
pub trait ResourceLoader: Sized {
    /// The kind key in specifications. An implementation written outside
    /// the verifier may leave this default in place.
    open spec fn spec_type_key(&self) -> u64 {
        0u64
    }

    /// The key identifying this loader's kind. Two loaders of the same kind
    /// report the same key; loaders of different kinds report different
    /// keys.
    fn type_key(&self) -> (k: u64)
        ensures
            k == self.spec_type_key(),
    ;
}

/// Some index of `s` holds a loader with key `k`, and no earlier one does.
pub open spec fn loader_found_at<L: ResourceLoader>(s: Seq<L>, k: u64, i: int) -> bool {
    &&& 0 <= i < s.len()
    &&& s[i].spec_type_key() == k
    &&& forall|j: int| 0 <= j < i ==> (#[trigger] s[j].spec_type_key()) != k
}

/// `s` holds some loader with key `k`.
pub open spec fn has_loader<L: ResourceLoader>(s: Seq<L>, k: u64) -> bool {
    exists|i: int| 0 <= i < s.len() && (#[trigger] s[i].spec_type_key()) == k
}

/// No two stored loaders share a kind key.
pub open spec fn keys_unique<L: ResourceLoader>(s: Seq<L>) -> bool {
    forall|i: int, j: int|
        0 <= i < j < s.len() ==> (#[trigger] s[i].spec_type_key()) != (
        #[trigger] s[j].spec_type_key())
}

/// Container for resource loaders: at most one per kind, when grown through
/// [`ResourceLoadersContainer::set`].
pub struct ResourceLoadersContainer<L: ResourceLoader> {
    /// The stored loaders.
    loaders: Vec<L>,
}

impl<L: ResourceLoader> ResourceLoadersContainer<L> {
    /// The stored loaders, in insertion order.
    pub closed spec fn view(self) -> Seq<L> {
        self.loaders@
    }

    /// Creates an empty container.
    pub fn new() -> (r: ResourceLoadersContainer<L>)
        ensures
            r@ == Seq::<L>::empty(),
    {
        ResourceLoadersContainer { loaders: Vec::new() }
    }

    /// Adds a loader, or replaces the loader of the same kind: if one with
    /// the same key is present, the first such is handed back and the new
    /// one takes its slot; otherwise the new loader is appended.
    pub fn set(&mut self, loader: L) -> (r: Option<L>)
        ensures
            match r {
                Some(prev) => exists|i: int|
                    {
                        &&& #[trigger] loader_found_at(old(self)@, loader.spec_type_key(), i)
                        &&& prev == old(self)@[i]
                        &&& final(self)@ == old(self)@.update(i, loader)
                    },
                None => {
                    &&& !has_loader(old(self)@, loader.spec_type_key())
                    &&& final(self)@ == old(self)@.push(loader)
                },
            },
            keys_unique(old(self)@) ==> keys_unique(final(self)@),
    {
        let key = loader.type_key();
        let mut i: usize = 0;
        while i < self.loaders.len()
            invariant
                0 <= i <= self.loaders@.len(),
                key == loader.spec_type_key(),
                self.loaders@ == old(self).loaders@,
                forall|j: int| 0 <= j < i ==> (#[trigger] self.loaders@[j].spec_type_key()) != key,
            decreases self.loaders@.len() - i,
        {
            if self.loaders[i].type_key() == key {
                proof {
                    assert(old(self)@ == self.loaders@);
                    assert(loader_found_at(old(self)@, key, i as int));
                }
                let mut prev = loader;
                core::mem::swap(&mut prev, &mut self.loaders[i]);
                proof {
                    assert(self.loaders@ =~= old(self).loaders@.update(i as int, loader));
                    assert(final(self)@ == old(self)@.update(i as int, loader));
                    assert(prev == old(self)@[i as int]);
                    if keys_unique(old(self)@) {
                        assert forall|i2: int, j2: int|
                            0 <= i2 < j2 < self.loaders@.len() implies (
                        #[trigger] self.loaders@[i2].spec_type_key()) != (
                        #[trigger] self.loaders@[j2].spec_type_key()) by {
                            if i2 != i as int && j2 != i as int {
                                assert(self.loaders@[i2] == old(self)@[i2]);
                                assert(self.loaders@[j2] == old(self)@[j2]);
                            } else if i2 == i as int {
                                assert(self.loaders@[j2] == old(self)@[j2]);
                                assert(old(self)@[j2].spec_type_key() != key);
                            } else {
                                assert(self.loaders@[i2] == old(self)@[i2]);
                                assert(old(self)@[i2].spec_type_key() != key);
                            }
                        }
                    }
                }
                return Some(prev);
            }
            i += 1;
        }
        proof {
            assert forall|j: int| 0 <= j < old(self)@.len() implies (#[trigger] old(
                self,
            )@[j].spec_type_key()) != key by {
                assert(old(self)@[j] == self.loaders@[j]);
            }
            assert(!has_loader(old(self)@, key));
        }
        self.loaders.push(loader);
        proof {
            if keys_unique(old(self)@) {
                assert forall|i2: int, j2: int|
                    0 <= i2 < j2 < self.loaders@.len() implies (
                #[trigger] self.loaders@[i2].spec_type_key()) != (
                #[trigger] self.loaders@[j2].spec_type_key()) by {
                    if j2 < self.loaders@.len() - 1 {
                        assert(self.loaders@[i2] == old(self)@[i2]);
                        assert(self.loaders@[j2] == old(self)@[j2]);
                    } else {
                        assert(self.loaders@[i2] == old(self)@[i2]);
                        assert(self.loaders@[j2] == loader);
                        assert(old(self)@[i2].spec_type_key() != key);
                    }
                }
            }
        }
        None
    }

    /// Replaces the first loader whose key is `prev_key` with `new_loader`
    /// and hands the old one back; without such a loader nothing changes.
    pub fn try_replace(&mut self, prev_key: u64, new_loader: L) -> (r: Option<L>)
        ensures
            match r {
                Some(prev) => exists|i: int|
                    {
                        &&& #[trigger] loader_found_at(old(self)@, prev_key, i)
                        &&& prev == old(self)@[i]
                        &&& final(self)@ == old(self)@.update(i, new_loader)
                    },
                None => !has_loader(old(self)@, prev_key) && final(self)@ == old(self)@,
            },
    {
        let mut i: usize = 0;
        while i < self.loaders.len()
            invariant
                0 <= i <= self.loaders@.len(),
                self.loaders@ == old(self).loaders@,
                forall|j: int|
                    0 <= j < i ==> (#[trigger] self.loaders@[j].spec_type_key()) != prev_key,
            decreases self.loaders@.len() - i,
        {
            if self.loaders[i].type_key() == prev_key {
                proof {
                    assert(old(self)@ == self.loaders@);
                    assert(loader_found_at(old(self)@, prev_key, i as int));
                }
                let mut prev = new_loader;
                core::mem::swap(&mut prev, &mut self.loaders[i]);
                proof {
                    assert(self.loaders@ =~= old(self).loaders@.update(i as int, new_loader));
                    assert(final(self)@ == old(self)@.update(i as int, new_loader));
                    assert(prev == old(self)@[i as int]);
                }
                return Some(prev);
            }
            i += 1;
        }
        proof {
            assert forall|j: int| 0 <= j < old(self)@.len() implies (#[trigger] old(
                self,
            )@[j].spec_type_key()) != prev_key by {
                assert(old(self)@[j] == self.loaders@[j]);
            }
            assert(!has_loader(old(self)@, prev_key));
        }
        None
    }

    /// Shared reference to the first loader whose key is `key`.
    pub fn find(&self, key: u64) -> (r: Option<&L>)
        ensures
            match r {
                Some(l) => exists|i: int|
                    (#[trigger] loader_found_at(self@, key, i)) && *l == self@[i],
                None => !has_loader(self@, key),
            },
    {
        let mut i: usize = 0;
        while i < self.loaders.len()
            invariant
                0 <= i <= self.loaders@.len(),
                forall|j: int| 0 <= j < i ==> (#[trigger] self.loaders@[j].spec_type_key()) != key,
            decreases self.loaders@.len() - i,
        {
            if self.loaders[i].type_key() == key {
                proof {
                    assert(self@ == self.loaders@);
                    assert(loader_found_at(self@, key, i as int));
                }
                return Some(&self.loaders[i]);
            }
            i += 1;
        }
        proof {
            assert(!has_loader(self@, key));
        }
        None
    }

    /// Mutable reference to the first loader whose key is `key`.
    pub fn find_mut(&mut self, key: u64) -> (r: Option<&mut L>)
        ensures
            match r {
                Some(l) => exists|i: int|
                    {
                        &&& #[trigger] loader_found_at(old(self)@, key, i)
                        &&& *l == old(self)@[i]
                        &&& final(self)@ == old(self)@.update(i, *final(l))
                    },
                None => !has_loader(old(self)@, key) && final(self)@ == old(self)@,
            },
    {
        let mut i: usize = 0;
        while i < self.loaders.len()
            invariant
                0 <= i <= self.loaders@.len(),
                self.loaders@ == old(self).loaders@,
                forall|j: int| 0 <= j < i ==> (#[trigger] self.loaders@[j].spec_type_key()) != key,
            decreases self.loaders@.len() - i,
        {
            if self.loaders[i].type_key() == key {
                proof {
                    assert(old(self)@ == self.loaders@);
                    assert(loader_found_at(old(self)@, key, i as int));
                }
                return Some(&mut self.loaders[i]);
            }
            i += 1;
        }
        proof {
            assert forall|j: int| 0 <= j < old(self)@.len() implies (#[trigger] old(
                self,
            )@[j].spec_type_key()) != key by {
                assert(old(self)@[j] == self.loaders@[j]);
            }
            assert(!has_loader(old(self)@, key));
        }
        None
    }

    /// Total number of loaders in the container.
    pub fn len(&self) -> (r: usize)
        ensures
            r == self@.len(),
    {
        self.loaders.len()
    }

    /// Whether the container holds no loaders.
    pub fn is_empty(&self) -> (r: bool)
        ensures
            r == (self@.len() == 0),
    {
        self.loaders.is_empty()
    }

    /// Shared view of the stored loaders, in insertion order.
    pub fn iter(&self) -> (r: &[L])
        ensures
            r@ == self@,
    {
        self.loaders.as_slice()
    }

    /// Mutable view of the stored loaders, in insertion order.
    pub fn iter_mut(&mut self) -> (r: &mut [L])
        ensures
            r@ == old(self)@,
            final(self)@ == final(r)@,
    {
        self.loaders.as_mut_slice()
    }
}

impl<L: ResourceLoader> Default for ResourceLoadersContainer<L> {
    /// An empty container.
    fn default() -> (r: ResourceLoadersContainer<L>)
        ensures
            r@ == Seq::<L>::empty(),
    {
        ResourceLoadersContainer::new()
    }
}

} // verus!
