//! The run state of a simulation that evolves two billiards side by side.

use vstd::prelude::*;

verus! {

/// Two billiards started from the same initial conditions, and whether
/// time currently flows for them.
///
/// `C` holds the initial conditions and `B` the state of one billiard;
/// both are carried, never inspected.
pub struct Simulation<C, B> {
    initial_conditions: C,
    billiard_1: B,
    billiard_2: B,
    is_running: bool,
}

/// The billiard numbers a simulation answers to.
pub open spec fn is_billiard_number(billiard_number: u8) -> bool {
    billiard_number == 1 || billiard_number == 2
}

impl<C, B> Simulation<C, B> {
    pub closed spec fn spec_initial_conditions(&self) -> C {
        self.initial_conditions
    }

    pub closed spec fn spec_billiard(&self, billiard_number: u8) -> B {
        if billiard_number == 1 {
            self.billiard_1
        } else {
            self.billiard_2
        }
    }

    pub closed spec fn spec_is_running(&self) -> bool {
        self.is_running
    }

    /// The same simulation, paused if it ran and running if it was paused.
    pub closed spec fn spec_toggled(self) -> Self {
        Simulation { is_running: !self.is_running, ..self }
    }

    /// A simulation of the two given billiards; it starts paused.
    pub fn init(initial_conditions: C, billiard_1: B, billiard_2: B) -> (s: Self)
        ensures
            s.spec_initial_conditions() == initial_conditions,
            s.spec_billiard(1) == billiard_1,
            s.spec_billiard(2) == billiard_2,
            !s.spec_is_running(),
    {
        Simulation { initial_conditions, billiard_1, billiard_2, is_running: false }
    }

    /// The initial conditions both billiards were started from.
    pub fn initial_conditions(&self) -> (c: &C)
        ensures
            *c == self.spec_initial_conditions(),
    {
        &self.initial_conditions
    }

    /// The billiard numbered `billiard_number` (1 or 2).
    pub fn balls(&self, billiard_number: u8) -> (b: &B)
        requires
            is_billiard_number(billiard_number),
        ensures
            *b == self.spec_billiard(billiard_number),
    {
        if billiard_number == 1 {
            &self.billiard_1
        } else {
            &self.billiard_2
        }
    }

    /// The billiard numbered `billiard_number` (1 or 2), to be updated in place.
    pub fn balls_mut(&mut self, billiard_number: u8) -> (b: &mut B)
        requires
            is_billiard_number(billiard_number),
        ensures
            *b == old(self).spec_billiard(billiard_number),
            final(self).spec_billiard(billiard_number) == *final(b),
            final(self).spec_billiard((3 - billiard_number) as u8) == old(self).spec_billiard(
                (3 - billiard_number) as u8,
            ),
            final(self).spec_initial_conditions() == old(self).spec_initial_conditions(),
            final(self).spec_is_running() == old(self).spec_is_running(),
    {
        if billiard_number == 1 {
            &mut self.billiard_1
        } else {
            &mut self.billiard_2
        }
    }

    /// Whether time currently flows; a billiard is updated only then.
    pub fn is_running(&self) -> (r: bool)
        ensures
            r == self.spec_is_running(),
    {
        self.is_running
    }

    /// Pauses a running simulation, or resumes a paused one.
    pub fn toggle_pause(&mut self)
        ensures
            *final(self) == old(self).spec_toggled(),
            final(self).spec_is_running() == !old(self).spec_is_running(),
            final(self).spec_billiard(1) == old(self).spec_billiard(1),
            final(self).spec_billiard(2) == old(self).spec_billiard(2),
            final(self).spec_initial_conditions() == old(self).spec_initial_conditions(),
    {
        self.is_running = !self.is_running;
    }

    /// Pausing flips only the run state, and a second toggle undoes the first.
    pub proof fn lemma_toggle_pause_twice(self)
        ensures
            self.spec_toggled().spec_is_running() == !self.spec_is_running(),
            self.spec_toggled().spec_billiard(1) == self.spec_billiard(1),
            self.spec_toggled().spec_billiard(2) == self.spec_billiard(2),
            self.spec_toggled().spec_initial_conditions() == self.spec_initial_conditions(),
            self.spec_toggled().spec_toggled() == self,
    {
    }
}

} // verus!
