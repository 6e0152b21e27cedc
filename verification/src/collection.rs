//! A generic ordered container keyed by a unique string identifier.
//!
//! Entities expose their own identifier through the [`Id`] trait. The
//! collection preserves insertion order, rejects duplicate identifiers at
//! its single insertion choke point, and offers lookup by identifier for
//! both reading and mutation.

use vstd::prelude::*;
use crate::Error;

verus! {

/// An entity with a stable textual identifier.
pub trait Id {
    /// The identifier, as a sequence of characters.
    spec fn spec_id(&self) -> Seq<char>;

    /// The identifier of the entity.
    fn id(&self) -> (r: &String)
        ensures
            r@ == self.spec_id(),
    ;
}

/// Whether all entities of `s` carry pairwise distinct identifiers.
pub open spec fn unique_ids<T: Id>(s: Seq<T>) -> bool {
    forall|i: int, j: int| 0 <= i < j < s.len() ==> s[i].spec_id() != s[j].spec_id()
}

/// Whether some entity of `s` carries the identifier `id`.
pub open spec fn contains_id<T: Id>(s: Seq<T>, id: Seq<char>) -> bool {
    exists|i: int| 0 <= i < s.len() && s[i].spec_id() == id
}

/// Position of the first entity of `s` with identifier `id`, or -1 when
/// no entity carries it.
pub open spec fn spec_find<T: Id>(s: Seq<T>, id: Seq<char>) -> int
    decreases s.len(),
{
    if s.len() == 0 {
        -1
    } else if s[0].spec_id() == id {
        0
    } else {
        let r = spec_find(s.drop_first(), id);
        if r < 0 {
            -1
        } else {
            r + 1
        }
    }
}

/// `spec_find` returns -1 exactly when the identifier is absent and
/// otherwise the position of its first occurrence.
pub proof fn lemma_spec_find<T: Id>(s: Seq<T>, id: Seq<char>)
    ensures
        spec_find(s, id) == -1 <==> !contains_id(s, id),
        contains_id(s, id) ==> 0 <= spec_find(s, id) < s.len() && s[spec_find(s, id)].spec_id()
            == id,
        forall|k: int| 0 <= k < spec_find(s, id) ==> s[k].spec_id() != id,
    decreases s.len(),
{
    if s.len() == 0 {
    } else if s[0].spec_id() == id {
        assert(contains_id(s, id));
    } else {
        let t = s.drop_first();
        lemma_spec_find(t, id);
        assert forall|k: int| 0 <= k < t.len() implies t[k] == s[k + 1] by {}
        if contains_id(s, id) {
            let i = choose|i: int| 0 <= i < s.len() && s[i].spec_id() == id;
            assert(i > 0);
            assert(t[i - 1] == s[i]);
            assert(contains_id(t, id));
        }
        if contains_id(t, id) {
            let i = choose|i: int| 0 <= i < t.len() && t[i].spec_id() == id;
            assert(s[i + 1] == t[i]);
            assert(contains_id(s, id));
        }
        assert forall|k: int| 0 <= k < spec_find(s, id) implies s[k].spec_id() != id by {
            if k > 0 {
                assert(t[k - 1] == s[k]);
                assert(t[k - 1].spec_id() != id);
            }
        }
    }
}

/// When `s[j]` carries `id` and no earlier entity does, `spec_find`
/// returns `j`.
pub proof fn lemma_find_at<T: Id>(s: Seq<T>, id: Seq<char>, j: int)
    requires
        0 <= j < s.len(),
        s[j].spec_id() == id,
        forall|k: int| 0 <= k < j ==> s[k].spec_id() != id,
    ensures
        spec_find(s, id) == j,
        contains_id(s, id),
{
    assert(contains_id(s, id));
    lemma_spec_find(s, id);
    let f = spec_find(s, id);
    if f < j {
        assert(s[f].spec_id() == id);
        assert(false);
    }
    if f > j {
        assert(s[j].spec_id() != id);
        assert(false);
    }
}

/// An ordered collection of entities with pairwise distinct identifiers.
pub struct CollectionWithId<T: Id> {
    items: Vec<T>,
}

impl<T: Id> View for CollectionWithId<T> {
    type V = Seq<T>;

    closed spec fn view(&self) -> Seq<T> {
        self.items@
    }
}

impl<T: Id> CollectionWithId<T> {
    /// The collection's invariant: identifiers are unique.
    pub open spec fn wf(&self) -> bool {
        unique_ids(self@)
    }

    /// The empty collection.
    pub fn empty() -> (r: CollectionWithId<T>)
        ensures
            r@ == Seq::<T>::empty(),
            r.wf(),
    {
        CollectionWithId { items: Vec::new() }
    }

    /// Builds a collection holding the given entities in the given order;
    /// fails with `DuplicateIdentifier` when two of them share an identifier.
    pub fn new(items: Vec<T>) -> (r: Result<CollectionWithId<T>, Error>)
        ensures
            match r {
                Ok(c) => unique_ids(items@) && c@ == items@ && c.wf(),
                Err(e) => !unique_ids(items@) && e == Error::DuplicateIdentifier,
            },
    {
        let n = items.len();
        let mut i: usize = 0;
        while i < n
            invariant
                n == items@.len(),
                i <= n,
                forall|a: int, b: int| 0 <= a < b < i ==> items@[a].spec_id() != items@[b].spec_id(),
            decreases n - i,
        {
            let mut j: usize = 0;
            while j < i
                invariant
                    n == items@.len(),
                    i < n,
                    j <= i,
                    forall|k: int| 0 <= k < j ==> items@[k].spec_id() != items@[i as int].spec_id(),
                decreases i - j,
            {
                if <String as PartialEq>::eq(items[j].id(), items[i].id()) {
                    return Err(Error::DuplicateIdentifier);
                }
                j = j + 1;
            }
            i = i + 1;
        }
        Ok(CollectionWithId { items })
    }

    /// Number of entities in the collection.
    pub fn len(&self) -> (n: usize)
        ensures
            n == self@.len(),
    {
        self.items.len()
    }

    /// The entities, in insertion order.
    pub fn values(&self) -> (r: &Vec<T>)
        ensures
            r@ == self@,
    {
        &self.items
    }

    /// Appends one entity; fails with `DuplicateIdentifier` when its
    /// identifier is already present, leaving the collection unchanged.
    pub fn push(&mut self, item: T) -> (r: Result<(), Error>)
        ensures
            match r {
                Ok(()) => !contains_id(old(self)@, item.spec_id()) && final(self)@ == old(self)@.push(item),
                Err(e) => contains_id(old(self)@, item.spec_id()) && *final(self) == *old(self)
                    && e == Error::DuplicateIdentifier,
            },
            old(self).wf() ==> final(self).wf(),
    {
        let n = self.items.len();
        let mut j: usize = 0;
        while j < n
            invariant
                n == self@.len(),
                j <= n,
                *self == *old(self),
                forall|k: int| 0 <= k < j ==> self@[k].spec_id() != item.spec_id(),
            decreases n - j,
        {
            if <String as PartialEq>::eq(self.items[j].id(), item.id()) {
                return Err(Error::DuplicateIdentifier);
            }
            j = j + 1;
        }
        self.items.push(item);
        proof {
            if old(self).wf() {
                assert forall|i: int, j2: int|
                    0 <= i < j2 < final(self)@.len() implies final(self)@[i].spec_id() != final(self)@[j2].spec_id() by {
                    if j2 < final(self)@.len() - 1 {
                        assert(final(self)@[i] == old(self)@[i]);
                        assert(final(self)@[j2] == old(self)@[j2]);
                    } else {
                        assert(final(self)@[i] == old(self)@[i]);
                    }
                }
            }
        }
        Ok(())
    }

    /// Looks the entity with identifier `id` up, or `None` when absent.
    pub fn get(&self, id: &String) -> (r: Option<&T>)
        ensures
            match r {
                Some(t) => contains_id(self@, id@) && 0 <= spec_find(self@, id@) < self@.len()
                    && *t == self@[spec_find(self@, id@)],
                None => !contains_id(self@, id@),
            },
    {
        proof {
            lemma_spec_find(self@, id@);
        }
        let n = self.items.len();
        let mut j: usize = 0;
        while j < n
            invariant
                n == self@.len(),
                j <= n,
                forall|k: int| 0 <= k < j ==> self@[k].spec_id() != id@,
            decreases n - j,
        {
            if <String as PartialEq>::eq(self.items[j].id(), id) {
                proof {
                    assert(self@[j as int].spec_id() == id@);
                    lemma_find_at(self@, id@, j as int);
                }
                return Some(&self.items[j]);
            }
            j = j + 1;
        }
        None
    }

    /// Looks the entity with identifier `id` up for mutation, or `None`
    /// when absent; the rest of the collection is unchanged.
    pub fn get_mut(&mut self, id: &String) -> (r: Option<&mut T>)
        ensures
            match r {
                Some(t) => contains_id(old(self)@, id@) && 0 <= spec_find(old(self)@, id@) < old(self)@.len() && *t == old(self)@[spec_find(old(self)@, id@)] && final(self)@ == old(self)@.update(spec_find(old(self)@, id@), *final(t)),
                None => !contains_id(old(self)@, id@) && *final(self) == *old(self),
            },
    {
        proof {
            lemma_spec_find(old(self)@, id@);
        }
        let n = self.items.len();
        let mut j: usize = 0;
        while j < n
            invariant
                n == self@.len(),
                j <= n,
                *self == *old(self),
                forall|k: int| 0 <= k < j ==> self@[k].spec_id() != id@,
            decreases n - j,
        {
            if <String as PartialEq>::eq(self.items[j].id(), id) {
                proof {
                    assert(self@[j as int].spec_id() == id@);
                    lemma_find_at(self@, id@, j as int);
                }
                return Some(&mut self.items[j]);
            }
            j = j + 1;
        }
        None
    }
}

} // verus!
