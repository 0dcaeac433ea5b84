//! Bounded generators: a finite sequence whose elements come from a factory.

use vstd::prelude::*;
use vstd::std_specs::iter::IteratorSpecImpl;

verus! {

/// A source of items by position, as the generators store it.
///
/// Every closure and function that takes a position and returns an item is
/// a factory: what it accepts is its precondition, what it may produce is
/// its postcondition.
trait Factory<T> {
    /// Whether the factory may be asked for the item at `position`.
    spec fn accepts(&self, position: usize) -> bool;

    /// Whether `item` is a possible answer for `position`.
    spec fn produces(&self, position: usize, item: T) -> bool;

    /// The item at `position`.
    fn make(&self, position: usize) -> (item: T)
        requires
            self.accepts(position),
        ensures
            self.produces(position, item),
    ;
}

impl<T, F: Fn(usize) -> T> Factory<T> for F {
    spec fn accepts(&self, position: usize) -> bool {
        call_requires(*self, (position,))
    }

    spec fn produces(&self, position: usize, item: T) -> bool {
        call_ensures(*self, (position,), item)
    }

    fn make(&self, position: usize) -> (item: T) {
        self(position)
    }
}

/// Whether `factory` may be called on every position from 1 to `length`.
pub open spec fn accepts_all<T, F: Fn(usize) -> T>(factory: &F, length: usize) -> bool {
    forall|position: usize| 1 <= position <= length ==> call_requires(*factory, (position,))
}

/// The possible answers of `factory`, as a relation between positions and
/// items.
pub open spec fn answers_of<T, F: Fn(usize) -> T>(factory: &F) -> spec_fn(usize, T) -> bool {
    |position: usize, item: T| call_ensures(*factory, (position,), item)
}

/// Whether `answers` holds a single item for each position from 1 to
/// `length`.
pub open spec fn single_valued<T>(answers: spec_fn(usize, T) -> bool, length: usize) -> bool {
    forall|position: usize, a: T, b: T|
        1 <= position <= length && #[trigger] answers(position, a) && #[trigger] answers(
            position,
            b,
        ) ==> a == b
}

/// An item that `answers` holds for `position`.
pub open spec fn item_at<T>(answers: spec_fn(usize, T) -> bool, position: usize) -> T {
    choose|item: T| #[trigger] answers(position, item)
}

/// The items that single-valued `answers` hold at the positions after
/// `yielded` up to `length`.
pub open spec fn items_after<T>(
    answers: spec_fn(usize, T) -> bool,
    yielded: usize,
    length: usize,
) -> Seq<T> {
    Seq::new((length - yielded) as nat, |k: int| item_at(answers, (yielded + 1 + k) as usize))
}

/// Yields `factory(1)`, `factory(2)`, ..., `factory(length)`, one per pull.
#[verifier::reject_recursive_types(T)]
pub struct RepeatIterator<'a, T> {
    idx: usize,
    length: usize,
    factory: Box<&'a dyn Factory<T>>,
}

impl<'a, T> RepeatIterator<'a, T> {
    #[verifier::type_invariant]
    spec fn inv(self) -> bool {
        &&& self.idx <= self.length
        &&& forall|position: usize|
            self.idx < position <= self.length ==> #[trigger] self.factory.accepts(position)
    }

    /// How many items have been yielded so far.
    pub closed spec fn yielded(&self) -> usize {
        self.idx
    }

    /// How many items the generator yields in all.
    pub closed spec fn length(&self) -> usize {
        self.length
    }

    /// The possible answers of the factory that makes the items.
    pub closed spec fn answers(&self) -> spec_fn(usize, T) -> bool {
        |position: usize, item: T| self.factory.produces(position, item)
    }

    /// A generator of `length` items that has yielded none yet. `factory`
    /// must accept the positions 1 to `length`: it is called on each as
    /// the item is pulled, and not before.
    pub fn new<F: Fn(usize) -> T>(factory: &'a F, length: usize) -> (it: Self)
        requires
            accepts_all(factory, length),
        ensures
            it.yielded() == 0,
            it.length() == length,
            it.answers() == answers_of(factory),
    {
        Self { idx: 0, length, factory: Box::new(factory) }
    }

    /// A generator of `length` default values.
    pub fn n_items(length: usize) -> (it: Self) where T: Default
        ensures
            it.yielded() == 0,
            it.length() == length,
            forall|position: usize, item: T| #[trigger]
                (it.answers())(position, item) ==> call_ensures(T::default, (), item),
    {
        Self::new(&default_item::<T>, length)
    }
}

/// The default value of `T`, whatever the position.
fn default_item<T: Default>(_position: usize) -> (item: T)
    ensures
        call_ensures(T::default, (), item),
{
    T::default()
}

impl<'a, T> Iterator for RepeatIterator<'a, T> {
    type Item = T;

    /// Pulls the next item: the factory's answer for the next position, or
    /// `None` once `length` items have been yielded.
    fn next(&mut self) -> (ret: Option<T>)
        ensures
            final(self).length() == old(self).length(),
            final(self).answers() == old(self).answers(),
            old(self).yielded() >= old(self).length() ==> ret is None && final(self).yielded()
                == old(self).yielded(),
            old(self).yielded() < old(self).length() ==> final(self).yielded() == old(
                self,
            ).yielded() + 1 && ret is Some && (old(self).answers())(final(self).yielded(), ret->0),
    {
        proof {
            use_type_invariant(&*self);
        }
        if self.idx >= self.length {
            None
        } else {
            self.idx += 1;
            let item = self.factory.make(self.idx);
            proof {
                let answers = self.answers();
                assert(answers(self.idx, item));
                if single_valued(answers, self.length) {
                    let now = items_after(answers, self.idx, self.length);
                    let before = items_after(answers, old(self).idx, self.length);
                    assert forall|k: int| 0 <= k < now.len() implies now[k]
                        == before.drop_first()[k] by {
                        assert(self.idx + 1 + k == old(self).idx + 1 + (k + 1));
                    }
                    assert(now =~= before.drop_first());
                    assert(before[0] == item_at(answers, self.idx));
                    assert(answers(self.idx, item_at(answers, self.idx)));
                    assert(before[0] == item);
                    assert(old(self).answers() == answers);
                }
            }
            Some(item)
        }
    }
}

impl<'a, T> IteratorSpecImpl for RepeatIterator<'a, T> {
    open spec fn obeys_prophetic_iter_laws(&self) -> bool {
        single_valued(self.answers(), self.length())
    }

    open spec fn remaining(&self) -> Seq<T> {
        items_after(self.answers(), self.yielded(), self.length())
    }

    open spec fn will_return_none(&self) -> bool {
        true
    }

    open spec fn decrease(&self) -> Option<nat> {
        Some((self.length() - self.yielded()) as nat)
    }

    open spec fn initial_value_relation(&self, init: &Self) -> bool {
        self == init
    }

    open spec fn peek(&self, index: int) -> Option<T> {
        let items = items_after(self.answers(), self.yielded(), self.length());
        if 0 <= index < items.len() {
            Some(items[index])
        } else {
            None
        }
    }
}

/// A generator that has not been started: a length and a factory.
#[verifier::reject_recursive_types(T)]
pub struct Repeat<'a, T> {
    length: usize,
    factory: Option<&'a dyn Factory<T>>,
}

impl<'a, T> Repeat<'a, T> {
    #[verifier::type_invariant]
    spec fn inv(self) -> bool {
        &&& self.factory is Some
        &&& forall|position: usize|
            1 <= position <= self.length ==> #[trigger] self.factory->0.accepts(position)
    }

    /// How many items the generator will yield.
    pub closed spec fn length(&self) -> usize {
        self.length
    }

    /// The possible answers of the factory that will make the items.
    pub closed spec fn answers(&self) -> spec_fn(usize, T) -> bool {
        |position: usize, item: T| self.factory->0.produces(position, item)
    }

    /// A generator of `length` items made by `factory`, which must accept
    /// the positions 1 to `length`.
    pub fn new<F: Fn(usize) -> T>(length: usize, factory: &'a F) -> (repeat: Self)
        requires
            accepts_all(factory, length),
        ensures
            repeat.length() == length,
            repeat.answers() == answers_of(factory),
    {
        Self { length, factory: Some(factory) }
    }
}

impl<'a, T> IntoIterator for Repeat<'a, T> {
    type IntoIter = RepeatIterator<'a, T>;

    type Item = T;

    /// Starts the generator.
    fn into_iter(self) -> (it: RepeatIterator<'a, T>)
        ensures
            it.yielded() == 0,
            it.length() == self.length(),
            it.answers() == self.answers(),
    {
        proof {
            use_type_invariant(&self);
        }
        RepeatIterator { idx: 0, length: self.length, factory: Box::new(self.factory.unwrap()) }
    }
}

} // verus!
