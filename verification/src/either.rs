//! Chips of two kinds on one board.

use vstd::prelude::*;
use crate::traits::{BusContention, Chip, ChipInterface, PinId, PinMetadata, PinSpec};

verus! {

/// A chip that is of one of two kinds. A board holds chips of one type; with
/// this type it holds chips of two, and, nested, of any number.
#[derive(Debug)]
pub enum Either<A, B> {
    Left(A),
    Right(B),
}

/// What the contracts see of an `Either`.
pub enum EitherState<S, T> {
    Left(S),
    Right(T),
}

impl<A: ChipInterface, B: ChipInterface<Value = A::Value>> ChipInterface for Either<A, B> {
    type Value = A::Value;

    type State = EitherState<A::State, B::State>;

    open spec fn state(&self) -> EitherState<A::State, B::State> {
        match self {
            Either::Left(a) => EitherState::Left(a.state()),
            Either::Right(b) => EitherState::Right(b.state()),
        }
    }

    open spec fn inv(s: EitherState<A::State, B::State>) -> bool {
        match s {
            EitherState::Left(a) => A::inv(a),
            EitherState::Right(b) => B::inv(b),
        }
    }

    open spec fn pins(s: EitherState<A::State, B::State>) -> Map<Seq<char>, PinSpec> {
        match s {
            EitherState::Left(a) => A::pins(a),
            EitherState::Right(b) => B::pins(b),
        }
    }

    open spec fn value(s: EitherState<A::State, B::State>, name: Seq<char>) -> A::Value {
        match s {
            EitherState::Left(a) => A::value(a, name),
            EitherState::Right(b) => B::value(b, name),
        }
    }

    open spec fn tristated(s: EitherState<A::State, B::State>, name: Seq<char>) -> bool {
        match s {
            EitherState::Left(a) => A::tristated(a, name),
            EitherState::Right(b) => B::tristated(b, name),
        }
    }

    open spec fn input_mode(s: EitherState<A::State, B::State>, name: Seq<char>) -> bool {
        match s {
            EitherState::Left(a) => A::input_mode(a, name),
            EitherState::Right(b) => B::input_mode(b, name),
        }
    }

    open spec fn written(s: EitherState<A::State, B::State>, name: Seq<char>, v: A::Value) -> EitherState<
        A::State,
        B::State,
    > {
        match s {
            EitherState::Left(a) => EitherState::Left(A::written(a, name, v)),
            EitherState::Right(b) => EitherState::Right(B::written(b, name, v)),
        }
    }

    fn get_pin_list(&self) -> (r: Vec<(String, PinMetadata)>) {
        match self {
            Either::Left(a) => a.get_pin_list(),
            Either::Right(b) => b.get_pin_list(),
        }
    }

    fn get_pin_value(&self, name: &str) -> (r: Option<A::Value>) {
        match self {
            Either::Left(a) => a.get_pin_value(name),
            Either::Right(b) => b.get_pin_value(name),
        }
    }

    fn set_pin_value(&mut self, name: &str, val: &A::Value) {
        match self {
            Either::Left(a) => a.set_pin_value(name, val),
            Either::Right(b) => b.set_pin_value(name, val),
        }
    }

    fn is_pin_tristated(&self, name: &str) -> (r: bool) {
        match self {
            Either::Left(a) => a.is_pin_tristated(name),
            Either::Right(b) => b.is_pin_tristated(name),
        }
    }

    fn in_input_mode(&self, name: &str) -> (r: bool) {
        match self {
            Either::Left(a) => a.in_input_mode(name),
            Either::Right(b) => b.in_input_mode(name),
        }
    }
}

impl<A: ChipInterface + Chip, B: ChipInterface<Value = A::Value> + Chip> Chip for Either<A, B> {
    open spec fn ticked(s: EitherState<A::State, B::State>) -> EitherState<A::State, B::State> {
        match s {
            EitherState::Left(a) => EitherState::Left(A::ticked(a)),
            EitherState::Right(b) => EitherState::Right(B::ticked(b)),
        }
    }

    open spec fn fault(s: EitherState<A::State, B::State>) -> Option<(PinId, PinId)> {
        match s {
            EitherState::Left(a) => A::fault(a),
            EitherState::Right(b) => B::fault(b),
        }
    }

    fn tick(&mut self) -> (r: Result<(), BusContention>) {
        match self {
            Either::Left(a) => a.tick(),
            Either::Right(b) => b.tick(),
        }
    }
}

} // verus!
