//! What a search asks of the states it moves through.

use vstd::prelude::*;

verus! {

/// A state of a neighbourhood search. Its view is all of it that the search
/// can tell apart; a move is known by a number other than 0.
pub trait State: View + Sized {
    /// The state is one that a search may work on.
    spec fn legal(v: Self::V) -> bool;

    /// What the state costs.
    spec fn cost(v: Self::V) -> int;

    /// `movement` is a move that can be made from the state.
    spec fn admits(v: Self::V, movement: int) -> bool;

    /// What the state costs once `movement` has been made.
    spec fn move_cost(v: Self::V, movement: int) -> int;

    /// The activities that `movement` touches.
    spec fn move_set(v: Self::V, movement: int) -> Seq<u32>;

    /// The state once `movement` has been made.
    spec fn after(v: Self::V, movement: int) -> Self::V;

    /// The state is sure to find a move when it looks for one.
    spec fn offers(&self) -> bool;

    /// Looks for a move at random: its cost, the move and the activities it
    /// touches, or the move 0 with the cost of the state itself where none
    /// was found. A state that is sure to find a move finds one, and is as
    /// sure of it afterwards. The state stays as it is.
    fn get_neighbor(&mut self) -> (r: (u32, usize, Vec<u32>))
        requires
            Self::legal(old(self)@),
        ensures
            final(self)@ == old(self)@,
            final(self).offers() == old(self).offers(),
            old(self).offers() ==> r.1 != 0,
            r.1 != 0 ==> Self::admits(old(self)@, r.1 as int) && r.0 == Self::move_cost(
                old(self)@,
                r.1 as int,
            ) && r.2@ == Self::move_set(old(self)@, r.1 as int),
            r.1 == 0 ==> r.0 == Self::cost(old(self)@) && r.2@.len() == 0,
    ;

    /// Makes the move `movement`.
    fn set_neighbor(&mut self, movement: usize)
        requires
            Self::legal(old(self)@),
            Self::admits(old(self)@, movement as int),
        ensures
            final(self)@ == Self::after(old(self)@, movement as int),
            Self::legal(final(self)@),
            Self::cost(final(self)@) == Self::move_cost(old(self)@, movement as int),
    ;

    /// What the state costs.
    fn get_cost(&self) -> (c: u32)
        requires
            Self::legal(self@),
        ensures
            c == Self::cost(self@),
    ;

    /// The state as text.
    fn to_string(&self) -> String;

    /// The state as the text of a file that shows it.
    fn to_file(&self) -> String;
}

} // verus!
