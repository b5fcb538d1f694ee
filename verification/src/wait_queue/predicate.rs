//! Predicates that are asked.

use vstd::prelude::*;

verus! {

/// A predicate, with the answers that it has given. It can be asked by [`Questioned::ask`] only, so
/// that no answer is missing.
pub struct Questioned<P, T> {
    predicate: P,
    answers: Ghost<Seq<Option<T>>>,
}

impl<P, T> Questioned<P, T> {
    /// The predicate.
    pub closed spec fn predicate(&self) -> P {
        self.predicate
    }

    /// The answers that it has given, in order.
    pub closed spec fn answers(&self) -> Seq<Option<T>> {
        self.answers@
    }

    /// A predicate that has not been asked.
    pub fn new(predicate: P) -> (questioned: Self)
        ensures
            questioned.predicate() == predicate,
            questioned.answers() == Seq::<Option<T>>::empty(),
    {
        Questioned { predicate, answers: Ghost(Seq::empty()) }
    }

    /// Asks the predicate once. This is the one place where a predicate of this kind is called; what it
    /// changes in itself then is not seen from outside.
    pub fn ask<A>(&mut self, about: &A) -> (answer: Option<T>) where P: FnMut(&A) -> Option<T>
        requires
            call_requires(old(self).predicate(), (about,)),
        ensures
            call_ensures(old(self).predicate(), (about,), answer),
            final(self).predicate() == old(self).predicate(),
            final(self).answers() == old(self).answers().push(answer),
    {
        let predicate = &mut self.predicate;
        let answer = predicate(about);
        self.answers = Ghost(self.answers@.push(answer));
        answer
    }
}

/// What a predicate gave, in order.
pub open spec fn given<T>(answers: Seq<Option<T>>) -> Seq<T>
    decreases answers.len(),
{
    if answers.len() == 0 {
        Seq::empty()
    } else {
        match answers.last() {
            Some(value) => given(answers.drop_last()).push(value),
            None => given(answers.drop_last()),
        }
    }
}

} // verus!
