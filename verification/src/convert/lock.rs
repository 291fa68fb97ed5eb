//! A progress counter that reports in percent under a name.

use crate::convert::lockfile::{advanced, percent_of};
use vstd::prelude::*;

verus! {

/// The progress of a named piece of work.
#[derive(Debug)]
pub struct Lock {
    pub name: String,
    pub total: u64,
    pub current: u64,
    pub quiet: bool,
}

impl Lock {
    /// A counter without a name, with nothing expected and nothing done.
    pub fn new(quiet: bool) -> (r: Lock)
        ensures
            r.name@ == Seq::<char>::empty(),
            r.total == 0,
            r.current == 0,
            r.quiet == quiet,
    {
        Lock { name: String::new(), total: 0, current: 0, quiet }
    }

    /// Names the work.
    pub fn name(&mut self, name: String)
        ensures
            final(self).name == name,
            final(self).total == old(self).total,
            final(self).current == old(self).current,
            final(self).quiet == old(self).quiet,
    {
        self.name = name;
    }

    pub fn percent(&self) -> (p: u64)
        ensures
            p == percent_of(self.current, self.total),
    {
        if self.total == 0 {
            if self.current == 0 {
                0
            } else {
                u64::MAX
            }
        } else {
            let done: u128 = (self.current as u128) * 100;
            let p: u128 = done / (self.total as u128);
            if p > u64::MAX as u128 {
                u64::MAX
            } else {
                p as u64
            }
        }
    }

    /// Begins work of `total` steps.
    pub fn start(&mut self, total: u64)
        ensures
            final(self).total == total,
            final(self).current == 0,
            final(self).name == old(self).name,
            final(self).quiet == old(self).quiet,
    {
        self.total = total;
        self.current = 0;
    }

    /// Counts one step. The result says whether the percentage rose, which
    /// is when the progress is worth reporting.
    pub fn inc(&mut self) -> (rose: bool)
        ensures
            final(self).current == advanced(old(self).current, 1),
            final(self).total == old(self).total,
            final(self).name == old(self).name,
            final(self).quiet == old(self).quiet,
            rose == (percent_of(final(self).current, final(self).total) > percent_of(
                old(self).current,
                old(self).total,
            )),
    {
        let before = self.percent();
        if self.current < u64::MAX {
            self.current = self.current + 1;
        }
        let after = self.percent();
        after > before
    }

    /// Marks every expected step as taken.
    pub fn finish(&mut self)
        ensures
            final(self).current == old(self).total,
            final(self).total == old(self).total,
            final(self).name == old(self).name,
            final(self).quiet == old(self).quiet,
    {
        self.current = self.total;
    }
}

} // verus!
