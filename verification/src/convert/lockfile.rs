//! The progress record of a conversion.

use vstd::prelude::*;

verus! {

/// Progress of one stage: its name, the number of steps it expects and the
/// number it has taken.
#[derive(Debug)]
pub struct LockFile {
    pub state: String,
    pub total: u64,
    pub current: u64,
    pub error: Option<String>,
}

/// Completed share of the work in percent, rounded down. With no work
/// expected it is zero before the first step and the largest number after it.
pub open spec fn percent_of(current: u64, total: u64) -> u64 {
    if total == 0 {
        if current == 0 {
            0
        } else {
            u64::MAX
        }
    } else if current * 100 / (total as int) > u64::MAX {
        u64::MAX
    } else {
        (current * 100 / (total as int)) as u64
    }
}

/// The step count after `steps` more steps; it stays at the largest number.
pub open spec fn advanced(current: u64, steps: nat) -> u64 {
    if current + steps <= u64::MAX {
        (current + steps) as u64
    } else {
        u64::MAX
    }
}

impl LockFile {
    /// A record in the stage `state` with nothing expected and nothing done.
    pub fn lock(state: &str) -> (r: LockFile)
        ensures
            r.state@ == state@,
            r.total == 0,
            r.current == 0,
            r.error.is_none(),
    {
        LockFile { state: String::from_str(state), total: 0, current: 0, error: None }
    }

    pub fn percent(&self) -> (p: u64)
        ensures
            p == percent_of(self.current, self.total),
    {
        if self.total == 0 {
            if self.current == 0 {
                0
            } else {
                u64::MAX
            }
        } else {
            let done: u128 = (self.current as u128) * 100;
            let p: u128 = done / (self.total as u128);
            if p > u64::MAX as u128 {
                u64::MAX
            } else {
                p as u64
            }
        }
    }

    /// Begins a stage of `total` steps.
    pub fn start(&mut self, total: u64)
        ensures
            final(self).total == total,
            final(self).current == 0,
            final(self).state == old(self).state,
            final(self).error == old(self).error,
    {
        self.total = total;
        self.current = 0;
    }

    /// Names the stage.
    pub fn state(&mut self, state: &str)
        ensures
            final(self).state@ == state@,
            final(self).total == old(self).total,
            final(self).current == old(self).current,
            final(self).error == old(self).error,
    {
        self.state = String::from_str(state);
    }

    /// Counts one step. The result says whether the percentage rose, which
    /// is when the record is worth writing out.
    pub fn inc(&mut self) -> (rose: bool)
        ensures
            final(self).current == advanced(old(self).current, 1),
            final(self).total == old(self).total,
            final(self).state == old(self).state,
            final(self).error == old(self).error,
            rose == (percent_of(final(self).current, final(self).total) > percent_of(
                old(self).current,
                old(self).total,
            )),
    {
        let before = self.percent();
        if self.current < u64::MAX {
            self.current = self.current + 1;
        }
        let after = self.percent();
        after > before
    }

    /// Records a failure with its message.
    pub fn error(&mut self, message: &str)
        ensures
            final(self).error.is_some(),
            final(self).error.unwrap()@ == "Error: "@ + message@,
            final(self).total == old(self).total,
            final(self).current == old(self).current,
            final(self).state == old(self).state,
    {
        let text = String::from_str("Error: ").concat(message);
        self.error = Some(text);
    }

    /// Marks every expected step as taken.
    pub fn finish(&mut self)
        ensures
            final(self).current == old(self).total,
            final(self).total == old(self).total,
            final(self).state == old(self).state,
            final(self).error == old(self).error,
    {
        self.current = self.total;
    }
}

} // verus!
