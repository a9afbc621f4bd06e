use vstd::prelude::*;

verus! {

/// What the waiting side of a debouncer does after it woke up.
#[derive(Clone, Copy, Debug, PartialEq, Eq, Structural)]
pub enum DebounceStep {
    /// The quiet period ran out with no bump since the last snapshot: the
    /// debouncer is now terminal and the deferred action runs.
    Fire,
    /// Nothing new happened since the snapshot: keep waiting for the current
    /// deadline.
    Keep,
    /// A bump arrived: take the given serial as the new snapshot and wait a
    /// full timeout from now.
    Restart(usize),
}

/// The serial slot of a debouncer: `Some(n)` while it is live, after `n`
/// bumps (counted modulo the word size), and `None` once it has fired.
pub struct HashDebouncer {
    pub serial: Option<usize>,
    pub timeout_ms: u64,
}

/// The serial after one bump: a live slot counts up, a terminal one stays
/// terminal.
pub open spec fn bumped(serial: Option<usize>) -> Option<usize> {
    match serial {
        Some(n) => Some(if n == usize::MAX { 0usize } else { (n + 1) as usize }),
        None => None,
    }
}

/// The serial after `n` bumps in a row.
pub open spec fn bumped_times(serial: Option<usize>, n: nat) -> Option<usize>
    decreases n,
{
    if n == 0 {
        serial
    } else {
        bumped(bumped_times(serial, (n - 1) as nat))
    }
}

/// What the waiter does on waking, given the snapshot it holds, the current
/// serial and whether its deadline passed.
pub open spec fn step_of(observed: usize, current: usize, expired: bool) -> DebounceStep {
    if current == observed {
        if expired {
            DebounceStep::Fire
        } else {
            DebounceStep::Keep
        }
    } else {
        DebounceStep::Restart(current)
    }
}

impl HashDebouncer {
    pub open spec fn is_live(&self) -> bool {
        self.serial is Some
    }

    /// A live debouncer that has seen no bump yet.
    pub fn new(timeout_ms: u64) -> (r: Self)
        ensures
            r.serial == Some(0usize),
            r.timeout_ms == timeout_ms,
    {
        HashDebouncer { serial: Some(0), timeout_ms }
    }

    /// Records a change. Returns whether the debouncer was still live; a
    /// terminal debouncer is left as it is.
    pub fn bump(&mut self) -> (r: bool)
        ensures
            r == old(self).is_live(),
            final(self).serial == bumped(old(self).serial),
            final(self).timeout_ms == old(self).timeout_ms,
    {
        match self.serial {
            None => false,
            Some(previous) => {
                let next: usize = if previous == usize::MAX { 0 } else { previous + 1 };
                self.serial = Some(next);
                true
            },
        }
    }

    /// The serial the waiting side starts from.
    pub fn snapshot(&self) -> (r: usize)
        requires
            self.is_live(),
        ensures
            self.serial == Some(r),
    {
        self.serial.unwrap()
    }

    /// Decides what the waiting side does when it wakes up holding the
    /// snapshot `observed`, either because its deadline passed
    /// (`expired`) or because a bump notified it. Firing makes the debouncer
    /// terminal.
    pub fn debounce_step(&mut self, observed: usize, expired: bool) -> (r: DebounceStep)
        requires
            old(self).is_live(),
        ensures
            r == step_of(observed, old(self).serial.unwrap(), expired),
            r == DebounceStep::Fire ==> final(self).serial is None,
            r != DebounceStep::Fire ==> final(self).serial == old(self).serial,
            final(self).timeout_ms == old(self).timeout_ms,
    {
        let current = self.serial.unwrap();
        if current == observed {
            if expired {
                self.serial = None;
                DebounceStep::Fire
            } else {
                DebounceStep::Keep
            }
        } else {
            DebounceStep::Restart(current)
        }
    }
}

} // verus!
