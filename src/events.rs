//! The handle/apply capability that an event-sourced aggregate offers.

use vstd::prelude::*;

verus! {

/// Handles causes by producing effects, and applies effects to its state.
///
/// `handle` only decides: it reads the state and returns the effects that a
/// cause would have, or why the cause is refused. `apply` is the only way the
/// state changes.
pub trait Actor<C: Cause, E: Effect>: Sized {
    type Id;
    type Error;

    /// The state is well formed.
    spec fn inv(&self) -> bool;

    /// What handling `command` yields from the current state.
    spec fn decision(&self, command: C) -> Result<Seq<E>, Self::Error>;

    /// `events` can be applied to the current state.
    spec fn can_take(&self, events: Seq<E>) -> bool;

    /// `next` is the current state with `events` applied in order.
    spec fn applied(&self, events: Seq<E>, next: &Self) -> bool;

    fn handle(&self, command: C) -> (r: Result<Vec<E>, Self::Error>)
        requires
            self.inv(),
        ensures
            match r {
                Ok(events) => self.decision(command) == Ok::<Seq<E>, Self::Error>(events@),
                Err(e) => self.decision(command) == Err::<Seq<E>, Self::Error>(e),
            },
    ;

    fn apply(&mut self, events: Vec<E>)
        requires
            old(self).inv(),
            old(self).can_take(events@),
        ensures
            final(self).inv(),
            old(self).applied(events@, final(self)),
    ;
}

/// Contributes to the production of an effect, on behalf of one actor.
pub trait Cause {
    type ActorId;

    fn actor_id(&self) -> Self::ActorId;
}

/// Produced from a cause; changes the state of an actor when applied.
pub trait Effect {
    type Version;

    fn version(&self) -> Self::Version;
}

} // verus!
