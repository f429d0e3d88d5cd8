//! A shared value that is replaced as a whole, together with a version.
//!
//! Each replacement is a new record; records are never changed and never freed.
//! The records are kept in the order in which they were installed, so a record
//! is found again by its index there, and the current record is the last one.
use vstd::prelude::*;
use vstd::std_specs::cmp::PartialEqSpec;

use crate::contention::{Contention, ContentionMeasure};

verus! {

/// One record: a value and its version.
pub struct CasByRcu<T> {
    /// How often the value had been replaced when this record was installed.
    pub version: u64,
    /// The value.
    pub value: T,
}

/// A value that can be read, and replaced by comparing and exchanging.
pub struct Atomic<T> {
    records: Vec<CasByRcu<T>>,
}

impl<T> View for Atomic<T> {
    type V = Seq<CasByRcu<T>>;

    /// All records, in the order in which they were installed.
    closed spec fn view(&self) -> Seq<CasByRcu<T>> {
        self.records@
    }
}

/// What a comparison against a record that was read calls for.
pub enum CasPlan {
    /// The value is not the expected one.
    Mismatch,
    /// The value is the expected one, but not in the expected version.
    Stale,
    /// The value is the expected one and is not to change.
    Unchanged,
    /// The value is the expected one and is to be replaced.
    Install,
}

impl<T> Atomic<T> {
    /// There is a current record, and versions count the installations.
    pub open spec fn wf(&self) -> bool {
        &&& self@.len() > 0
        &&& forall|i: int| 0 <= i < self@.len() ==> (#[trigger] self@[i]).version == i
    }

    /// The current record.
    pub open spec fn current(&self) -> CasByRcu<T> {
        self@.last()
    }
}

impl<T> Atomic<T> where T: Eq + PartialEq {
    /// What comparing and exchanging calls for, given the record that was read.
    pub open spec fn plan_spec(
        seen: CasByRcu<T>,
        expected: T,
        value: T,
        version: Option<u64>,
    ) -> CasPlan {
        if !seen.value.eq_spec(&expected) {
            CasPlan::Mismatch
        } else if version is Some && version != Some(seen.version) {
            CasPlan::Stale
        } else if expected.eq_spec(&value) {
            CasPlan::Unchanged
        } else {
            CasPlan::Install
        }
    }

    /// What setting the value makes of the records: `value` is installed in the
    /// next version, unless it equals the current value.
    pub open spec fn after_set(records: Seq<CasByRcu<T>>, value: T) -> Seq<CasByRcu<T>> {
        if records.last().value.eq_spec(&value) {
            records
        } else {
            records.push(CasByRcu { version: (records.last().version + 1) as u64, value })
        }
    }

    /// A shared value that starts out as `initial`, in version 0.
    pub fn new(initial: T) -> (atomic: Self)
        ensures
            atomic.wf(),
            atomic@ == seq![CasByRcu { version: 0, value: initial }],
    {
        let mut records: Vec<CasByRcu<T>> = Vec::new();
        records.push(CasByRcu { version: 0, value: initial });
        let atomic = Atomic { records };
        assert(atomic@ =~= seq![CasByRcu { version: 0, value: initial }]);
        atomic
    }

    /// Which record is current, as its place in the order of installation.
    pub fn get(&self) -> (seen: usize)
        requires
            self.wf(),
        ensures
            seen == self@.len() - 1,
            seen == self.current().version,
    {
        self.records.len() - 1
    }

    /// The current value and its version.
    pub fn get2(&self) -> (current: (&T, u64))
        requires
            self.wf(),
        ensures
            *current.0 == self.current().value,
            current.1 == self.current().version,
    {
        let this = &self.records[self.get()];
        (&this.value, this.version)
    }

    /// Hands the current value and its version to `f`.
    pub fn with<F, R>(&self, f: F) -> (r: R) where F: FnOnce(&T, u64) -> R
        requires
            self.wf(),
            f.requires((&self.current().value, self.current().version)),
        ensures
            f.ensures((&self.current().value, self.current().version), r),
    {
        let this = &self.records[self.get()];
        f(&this.value, this.version)
    }

    /// The current value.
    pub fn value(&self) -> (value: &T)
        requires
            self.wf(),
        ensures
            *value == self.current().value,
    {
        &self.records[self.get()].value
    }

    /// Installs `value` in the next version, unless it equals the current value.
    pub fn _set(&mut self, value: T)
        requires
            old(self).wf(),
            T::obeys_eq_spec(),
        ensures
            final(self).wf(),
            final(self)@ == Self::after_set(old(self)@, value),
    {
        let seen: usize = self.get();
        if self.records[seen].value != value {
            let _ = self.try_install(seen, value);
        }
    }

    /// Installs `value` in the version after that of record `seen`, if that
    /// record is still current; says whether it did.
    pub fn try_install(&mut self, seen: usize, value: T) -> (done: bool)
        requires
            old(self).wf(),
            seen < old(self)@.len(),
        ensures
            final(self).wf(),
            done == (seen == old(self)@.len() - 1),
            final(self)@ == if done {
                old(self)@.push(CasByRcu { version: (seen + 1) as u64, value })
            } else {
                old(self)@
            },
    {
        if seen != self.get() {
            return false;
        }
        let version: u64 = self.records[seen].version;
        assert(self.records.len() <= usize::MAX);
        self.records.push(CasByRcu { version: version + 1, value });
        true
    }

    /// Decides what the record that was read calls for.
    pub fn plan(
        &self,
        seen: usize,
        expected: &T,
        value: &T,
        version: Option<u64>,
    ) -> (plan: CasPlan)
        requires
            self.wf(),
            seen < self@.len(),
            T::obeys_eq_spec(),
        ensures
            plan == Self::plan_spec(self@[seen as int], *expected, *value, version),
    {
        let this = &self.records[seen];
        if &this.value == expected {
            if let Some(v) = version {
                if v != this.version {
                    return CasPlan::Stale;
                }
            }
            if expected != value {
                return CasPlan::Install;
            }
            return CasPlan::Unchanged;
        }
        CasPlan::Mismatch
    }

    /// Compares and exchanges after record `seen` has been read, however many
    /// records have been installed since.
    pub fn compare_and_set_from(
        &mut self,
        seen: usize,
        expected: &T,
        value: T,
        contention: &mut ContentionMeasure,
        version: Option<u64>,
    ) -> (done: Result<bool, Contention>)
        requires
            old(self).wf(),
            seen < old(self)@.len(),
            T::obeys_eq_spec(),
            ({
                let plan = Self::plan_spec(old(self)@[seen as int], *expected, value, version);
                plan is Stale || (plan is Install && seen < old(self)@.len() - 1)
            }) ==> old(contention)@ < usize::MAX,
        ensures
            final(self).wf(),
            ({
                let plan = Self::plan_spec(old(self)@[seen as int], *expected, value, version);
                let current = seen == old(self)@.len() - 1;
                let contended = plan is Stale || (plan is Install && !current);
                &&& final(contention)@ == old(contention)@ + if contended {
                    1int
                } else {
                    0int
                }
                &&& final(self)@ == if plan is Install && current {
                    old(self)@.push(CasByRcu { version: (seen + 1) as u64, value })
                } else {
                    old(self)@
                }
                &&& done == if contended && final(contention)@
                    <= crate::contention::CONTENTION_THRESHOLD {
                    Err::<bool, Contention>(Contention)
                } else {
                    Ok(plan is Unchanged || (plan is Install && current))
                }
            }),
    {
        match self.plan(seen, expected, &value, version) {
            CasPlan::Mismatch => Ok(false),
            CasPlan::Stale => {
                match contention.detected() {
                    Ok(()) => Ok(false),
                    Err(met) => Err(met),
                }
            },
            CasPlan::Unchanged => Ok(true),
            CasPlan::Install => {
                if self.try_install(seen, value) {
                    return Ok(true);
                }
                match contention.detected() {
                    Ok(()) => Ok(false),
                    Err(met) => Err(met),
                }
            },
        }
    }

    /// Replaces the current value by `value` if it equals `expected` and, where
    /// a version is given, has that version. Says whether the value is `value`
    /// now; a version that has passed is contention.
    pub fn compare_and_set(
        &mut self,
        expected: &T,
        value: T,
        contention: &mut ContentionMeasure,
        version: Option<u64>,
    ) -> (done: Result<bool, Contention>)
        requires
            old(self).wf(),
            T::obeys_eq_spec(),
            Self::plan_spec(old(self).current(), *expected, value, version) is Stale ==> old(
                contention,
            )@ < usize::MAX,
        ensures
            final(self).wf(),
            ({
                let plan = Self::plan_spec(old(self).current(), *expected, value, version);
                &&& final(contention)@ == old(contention)@ + if plan is Stale {
                    1int
                } else {
                    0int
                }
                &&& final(self)@ == if plan is Install {
                    old(self)@.push(
                        CasByRcu { version: (old(self).current().version + 1) as u64, value },
                    )
                } else {
                    old(self)@
                }
                &&& done == if plan is Stale && final(contention)@
                    <= crate::contention::CONTENTION_THRESHOLD {
                    Err::<bool, Contention>(Contention)
                } else {
                    Ok(plan is Unchanged || plan is Install)
                }
            }),
    {
        let seen: usize = self.get();
        self.compare_and_set_from(seen, expected, value, contention, version)
    }
}

} // verus!
