//! The history of a run: generations in the order in which they arose.

use vstd::prelude::*;

use crate::state::State;

verus! {

/// The boards held by a vector of states, oldest first.
pub open spec fn history_view(states: Seq<State>) -> Seq<Seq<Seq<u8>>> {
    Seq::new(states.len(), |i: int| states[i]@)
}

/// An ordered history of generations. Index 0 is generation 0; the last entry
/// is the current state.
#[derive(Debug)]
pub struct Grid {
    history: Vec<State>,
}

impl View for Grid {
    type V = Seq<Seq<Seq<u8>>>;

    closed spec fn view(&self) -> Seq<Seq<Seq<u8>>> {
        history_view(self.history@)
    }
}

impl Default for Grid {
    /// The empty history.
    fn default() -> (grid: Grid)
        ensures
            grid@ == Seq::<Seq<Seq<u8>>>::empty(),
    {
        let grid = Grid { history: Vec::new() };
        assert(grid@ =~= Seq::<Seq<Seq<u8>>>::empty());
        grid
    }
}

impl Grid {
    /// The history made of the given generations, in their order.
    pub fn new(history: Vec<State>) -> (grid: Grid)
        ensures
            grid@ == history_view(history@),
    {
        Grid { history }
    }

    /// The latest generation, if there is one.
    pub fn current_state(&self) -> (current: Option<&State>)
        ensures
            current is None <==> self@.len() == 0,
            current matches Some(s) ==> s@ == self@.last() && s.wf(),
    {
        let n = self.history.len();
        if n == 0 {
            None
        } else {
            let s = &self.history[n - 1];
            proof {
                use_type_invariant(s);
            }
            Some(s)
        }
    }

    /// Appends a generation; what was there stays, in its order.
    pub fn push_history(&mut self, state: State)
        ensures
            final(self)@ == old(self)@.push(state@),
    {
        self.history.push(state);
        assert(self@ =~= old(self)@.push(state@));
    }

    /// Forgets the whole history and starts again from `state`.
    pub fn reset(&mut self, state: State)
        ensures
            final(self)@ == seq![state@],
    {
        let mut history: Vec<State> = Vec::new();
        history.push(state);
        self.history = history;
        assert(self@ =~= seq![state@]);
    }

    /// Every generation, oldest first.
    pub fn get_history(&self) -> (history: &Vec<State>)
        ensures
            history_view(history@) == self@,
    {
        &self.history
    }

    /// Number of generations held.
    pub fn len(&self) -> (n: usize)
        ensures
            n == self@.len(),
    {
        self.history.len()
    }
}

} // verus!
