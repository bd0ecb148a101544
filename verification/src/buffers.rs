//! Double buffering of a flock's state: one buffer holds the latest state,
//! the next state is computed from it and written into the other buffer,
//! which then becomes the latest.
use vstd::prelude::*;

verus! {

/// Two buffers and which of them holds the latest state.
pub struct DoubleBuffer<T> {
    b0: T,
    b1: T,
    switch: bool,
}

impl<T> View for DoubleBuffer<T> {
    /// The first buffer, the second buffer, and whether the second one holds
    /// the latest state.
    type V = (T, T, bool);

    closed spec fn view(&self) -> (T, T, bool) {
        (self.b0, self.b1, self.switch)
    }
}

/// The buffer that holds the latest state.
pub open spec fn latest<T>(v: (T, T, bool)) -> T {
    if v.2 {
        v.1
    } else {
        v.0
    }
}

/// The buffer that the next state is written into.
pub open spec fn stale<T>(v: (T, T, bool)) -> T {
    if v.2 {
        v.0
    } else {
        v.1
    }
}

/// The buffers after `state` is put into the second one and made the latest.
pub open spec fn with_second_set<T>(v: (T, T, bool), state: T) -> (T, T, bool) {
    (v.0, state, true)
}

impl<T> DoubleBuffer<T> {
    /// Two buffers, the first one holding the latest state.
    pub fn new(b0: T, b1: T) -> (buffers: Self)
        ensures
            buffers@ == (b0, b1, false),
    {
        DoubleBuffer { b0, b1, switch: false }
    }

    /// The buffer that holds the latest state.
    pub fn current(&self) -> (latest_state: &T)
        ensures
            *latest_state == latest(self@),
    {
        if self.switch {
            &self.b1
        } else {
            &self.b0
        }
    }

    /// Whether the second buffer holds the latest state.
    pub fn switched(&self) -> (switch: bool)
        ensures
            switch == self@.2,
    {
        self.switch
    }

    /// Writes the next state into the stale buffer and makes it the latest;
    /// the state that was latest stays in the other buffer.
    pub fn write_next(&mut self, next: T)
        ensures
            final(self)@ == (if old(self)@.2 {
                (next, old(self)@.1, false)
            } else {
                (old(self)@.0, next, true)
            }),
            latest(final(self)@) == next,
            stale(final(self)@) == latest(old(self)@),
    {
        if self.switch {
            self.b0 = next;
        } else {
            self.b1 = next;
        }
        self.switch = !self.switch;
    }

    /// Fills both buffers anew, the first one holding the latest state.
    pub fn reset(&mut self, b0: T, b1: T)
        ensures
            final(self)@ == (b0, b1, false),
    {
        self.b0 = b0;
        self.b1 = b1;
        self.switch = false;
    }

    /// Puts `state` into the second buffer and makes it the latest, leaving
    /// the first buffer as it was.
    pub fn set_second(&mut self, state: T)
        ensures
            final(self)@ == with_second_set(old(self)@, state),
            latest(final(self)@) == state,
    {
        self.b1 = state;
        self.switch = true;
    }

    /// The same as `set_second`, taking and giving back the buffers by value.
    pub fn with_second(self, state: T) -> (buffers: Self)
        ensures
            buffers@ == with_second_set(self@, state),
    {
        DoubleBuffer { b1: state, switch: true, ..self }
    }
}

} // verus!
