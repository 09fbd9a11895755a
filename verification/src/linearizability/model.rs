//! Operations, events and the model of a sequential object.
use vstd::prelude::*;

verus! {

/// The payload of an event: the input of a call, the output of a return, or
/// nothing.
#[derive(Debug)]
pub enum Value<I, O> {
    Input(I),
    Output(O),
    Empty,
}

impl<I, O> Value<I, O> {
    /// The input of a call event.
    pub fn input(&self) -> (i: &I)
        requires
            self is Input,
        ensures
            *i == self->Input_0,
    {
        match self {
            Value::Input(i) => i,
            _ => vstd::pervasive::unreached(),
        }
    }

    /// The output of a return event.
    pub fn output(&self) -> (o: &O)
        requires
            self is Output,
        ensures
            *o == self->Output_0,
    {
        match self {
            Value::Output(o) => o,
            _ => vstd::pervasive::unreached(),
        }
    }
}

/// A completed operation: its input and output, and when it was called and
/// when it returned.
#[derive(Debug)]
pub struct Operation<I, O> {
    pub input: I,
    pub call: i64,
    pub output: O,
    pub finish: i64,
}

/// Whether an event is a call or a return.
pub enum EventKind {
    CallEvent,
    ReturnEvent,
}

/// A call or a return of the operation `id`.
pub struct Event<T> {
    pub kind: EventKind,
    pub value: T,
    pub id: usize,
}

/// A sequential object against which histories are checked.
pub trait Model: Sized {
    type State;
    type Input;
    type Output;

    /// Splits a history into parts that are linearizable exactly when the
    /// whole is; by default the whole history is one part.
    fn partition(
        &self,
        history: Vec<Operation<Self::Input, Self::Output>>,
    ) -> (parts: Vec<Vec<Operation<Self::Input, Self::Output>>>)
        default_ensures
            parts@.len() == 1,
            parts@[0]@ == history@,
    {
        let mut parts = Vec::new();
        parts.push(history);
        parts
    }

    /// Splits a history of events the same way; by default it is one part.
    fn partition_event(
        &self,
        history: Vec<Event<Value<Self::Input, Self::Output>>>,
    ) -> (parts: Vec<Vec<Event<Value<Self::Input, Self::Output>>>>)
        default_ensures
            parts@.len() == 1,
            parts@[0]@ == history@,
    {
        let mut parts = Vec::new();
        parts.push(history);
        parts
    }

    /// The initial state of the object.
    fn init(&self) -> Self::State;

    /// Whether the object can step from `state` with this input and output,
    /// and the state it steps to; `state` itself is not changed.
    fn step(&self, state: &Self::State, input: &Self::Input, output: &Self::Output) -> (bool, Self::State);

    /// Equality of states.
    fn equal(&self, state1: &Self::State, state2: &Self::State) -> bool;
}

} // verus!
