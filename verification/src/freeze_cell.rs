//! A cell written during assembly, frozen for the running phase and emptied
//! at shutdown.
//!
//! ```text
//! Building --freeze--> Ready --take--> Building (empty)
//! ```
//!
//! While building, only the assembly task may read and only then may the
//! value be written; once ready, everyone may read and nobody may write;
//! `take` hands the value back and leaves the cell empty. Mutation goes
//! through `&mut self`, so no reader can overlap a writer.
use vstd::prelude::*;

verus! {

/// Phase of a [`FreezeCell`].
#[derive(PartialEq, Eq, Structural, Clone, Copy, Debug)]
pub enum CellState {
    /// Assembly: the assembly task reads and writes.
    Building,
    /// Running: the value is immutable and readable by everyone.
    Ready,
}

/// Readers see the value: anyone once ready, only the assembly task while
/// building.
pub open spec fn readable(state: CellState, in_assembly: bool) -> bool {
    state == CellState::Ready || (state == CellState::Building && in_assembly)
}

/// State and contents after `freeze`.
pub open spec fn after_freeze<T>(m: (CellState, Option<T>)) -> (CellState, Option<T>) {
    (CellState::Ready, m.1)
}

/// State and contents after `take`, and what `take` returns.
pub open spec fn after_take<T>(m: (CellState, Option<T>)) -> ((CellState, Option<T>), Option<T>) {
    if m.0 == CellState::Ready {
        ((CellState::Building, None), m.1)
    } else {
        (m, None)
    }
}

/// State and contents after `set(v)`, and whether the write happened.
pub open spec fn after_set<T>(m: (CellState, Option<T>), v: T) -> ((CellState, Option<T>), bool) {
    if m.0 == CellState::Building {
        ((CellState::Building, Some(v)), true)
    } else {
        (m, false)
    }
}

/// Freeze-once cell.
pub struct FreezeCell<T> {
    state: CellState,
    value: Option<T>,
}

impl<T> View for FreezeCell<T> {
    type V = (CellState, Option<T>);

    closed spec fn view(&self) -> (CellState, Option<T>) {
        (self.state, self.value)
    }
}

impl<T> FreezeCell<T> {
    /// An empty cell, building.
    pub fn empty() -> (r: Self)
        ensures
            r@ == (CellState::Building, None::<T>),
    {
        FreezeCell { state: CellState::Building, value: None }
    }

    /// A cell holding `value`, building.
    pub fn new(value: T) -> (r: Self)
        ensures
            r@ == (CellState::Building, Some(value)),
    {
        FreezeCell { state: CellState::Building, value: Some(value) }
    }

    /// Current phase.
    pub fn state(&self) -> (r: CellState)
        ensures
            r == self@.0,
    {
        self.state
    }

    /// Reads the value: once ready, for anyone; while building, only for the
    /// assembly task (`in_assembly`); otherwise `None`.
    pub fn get(&self, in_assembly: bool) -> (r: Option<&T>)
        ensures
            match r {
                Some(x) => readable(self@.0, in_assembly) && self@.1 == Some(*x),
                None => !readable(self@.0, in_assembly) || self@.1 is None,
            },
    {
        match self.state {
            CellState::Ready => self.value.as_ref(),
            CellState::Building => {
                if in_assembly {
                    self.value.as_ref()
                } else {
                    None
                }
            },
        }
    }

    /// Mutable access to the value while building; `None` once frozen.
    pub fn get_mut(&mut self) -> (r: Option<&mut T>)
        ensures
            final(self)@.0 == old(self)@.0,
            match r {
                Some(x) => {
                    &&& old(self)@.0 == CellState::Building
                    &&& old(self)@.1 == Some(*x)
                    &&& final(self)@.1 == Some(*final(x))
                },
                None => {
                    &&& old(self)@.0 != CellState::Building || old(self)@.1 is None
                    &&& final(self)@.1 == old(self)@.1
                },
            },
    {
        if self.state == CellState::Building {
            self.value.as_mut()
        } else {
            None
        }
    }

    /// Freezes the cell: from now on the value is read-only. A cell is
    /// frozen once, while building.
    pub fn freeze(&mut self)
        requires
            old(self)@.0 == CellState::Building,
        ensures
            final(self)@ == after_freeze(old(self)@),
    {
        self.state = CellState::Ready;
    }

    /// Takes the value out of a ready cell, leaving it empty and building;
    /// on a cell that is not ready, returns `None` and changes nothing.
    pub fn take(&mut self) -> (r: Option<T>)
        ensures
            (final(self)@, r) == after_take(old(self)@),
    {
        if self.state != CellState::Ready {
            return None;
        }
        let value = self.value.take();
        self.state = CellState::Building;
        value
    }

    /// Writes or replaces the value while building; once frozen, hands the
    /// value back in `Err` and changes nothing.
    pub fn set(&mut self, value: T) -> (r: Result<(), T>)
        ensures
            (final(self)@, r is Ok) == after_set(old(self)@, value),
            r matches Err(v) ==> v == value,
    {
        if self.state == CellState::Building {
            self.value = Some(value);
            Ok(())
        } else {
            Err(value)
        }
    }

    /// Empties the cell as `take` does, dropping the value.
    pub fn clear(&mut self)
        ensures
            final(self)@ == after_take(old(self)@).0,
    {
        let _ = self.take();
    }
}

impl<T: Default> Default for FreezeCell<T> {
    /// A cell holding `T::default()`, building.
    fn default() -> (r: Self)
        ensures
            r@.0 == CellState::Building,
            r@.1 is Some,
    {
        FreezeCell::new(T::default())
    }
}

/// Once frozen, the value can no longer be written: `set` is refused and
/// changes nothing.
pub proof fn law_frozen_is_read_only<T>(m: (CellState, Option<T>), v: T)
    ensures
        after_set(after_freeze(m), v) == (after_freeze(m), false),
{
}

/// Once frozen, every reader sees the value, whether or not it is the
/// assembly task.
pub proof fn law_frozen_is_readable_by_all<T>(m: (CellState, Option<T>), in_assembly: bool)
    ensures
        readable(after_freeze(m).0, in_assembly),
        after_freeze(m).1 == m.1,
{
}

/// Taking is idempotent: a second `take` returns nothing.
pub proof fn law_take_idempotent<T>(m: (CellState, Option<T>))
    ensures
        after_take(after_take(m).0).1 is None,
        after_take(after_take(m).0).0 == after_take(m).0,
{
}

/// A value written while building, then frozen, is what `take` hands back;
/// the cell is then empty and building again.
pub proof fn law_set_freeze_take<T>(m: (CellState, Option<T>), v: T)
    requires
        m.0 == CellState::Building,
    ensures
        after_set(m, v).1,
        after_take(after_freeze(after_set(m, v).0)) == ((CellState::Building, None::<T>), Some(v)),
{
}

} // verus!
