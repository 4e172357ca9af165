//! Control of the allocator's heap profiling and a snapshot of its statistics.

use vstd::prelude::*;

verus! {

/// The allocator's sampling interval for heap profiles, as a base-2 logarithm
/// of bytes; the process configures the allocator with the same value.
pub const LG_PROF_SAMPLE: usize = 19;

/// The allocator's error code for a failed control call.
#[verifier::external_type_specification]
#[verifier::external_body]
pub struct ExJemallocError(tikv_jemalloc_ctl::Error);

/// Relies on `tikv_jemalloc_ctl::epoch::advance`: refreshes the cached statistics.
#[verifier::external_body]
fn advance_epoch() -> (r: Result<u64, tikv_jemalloc_ctl::Error>) {
    tikv_jemalloc_ctl::epoch::advance()
}

/// Relies on `tikv_jemalloc_ctl::stats::active::read`: bytes in active pages.
#[verifier::external_body]
fn read_active() -> (r: Result<usize, tikv_jemalloc_ctl::Error>) {
    tikv_jemalloc_ctl::stats::active::read()
}

/// Relies on `tikv_jemalloc_ctl::stats::allocated::read`: bytes allocated.
#[verifier::external_body]
fn read_allocated() -> (r: Result<usize, tikv_jemalloc_ctl::Error>) {
    tikv_jemalloc_ctl::stats::allocated::read()
}

/// Relies on `tikv_jemalloc_ctl::stats::metadata::read`: bytes of metadata.
#[verifier::external_body]
fn read_metadata() -> (r: Result<usize, tikv_jemalloc_ctl::Error>) {
    tikv_jemalloc_ctl::stats::metadata::read()
}

/// Relies on `tikv_jemalloc_ctl::stats::resident::read`: bytes in resident pages.
#[verifier::external_body]
fn read_resident() -> (r: Result<usize, tikv_jemalloc_ctl::Error>) {
    tikv_jemalloc_ctl::stats::resident::read()
}

/// Relies on `tikv_jemalloc_ctl::stats::retained::read`: bytes retained in mappings.
#[verifier::external_body]
fn read_retained() -> (r: Result<usize, tikv_jemalloc_ctl::Error>) {
    tikv_jemalloc_ctl::stats::retained::read()
}

/// A point in time of the process's monotonic clock.
#[verifier::external_type_specification]
#[verifier::external_body]
pub struct ExInstant(std::time::Instant);

/// Relies on `std::time::Instant::now`: the current instant; nothing is known of it.
#[verifier::external_body]
fn now() -> (r: std::time::Instant) {
    std::time::Instant::now()
}

/// When heap profiling was (last) switched on.
#[derive(Copy, Clone, Debug)]
pub enum ProfStartTime {
    /// Switched on at this instant.
    Instant(std::time::Instant),
    /// Switched on since the process started.
    TimeImmemorial,
}

/// What is known of the current profiling session.
#[derive(Copy, Clone, Debug)]
pub struct JemallocProfMetadata {
    /// `None` while profiling is off.
    pub start_time: Option<ProfStartTime>,
}

/// The process's handle on the allocator's profiling switches.
#[derive(Debug)]
pub struct JemallocProfCtl {
    md: JemallocProfMetadata,
}

impl JemallocProfCtl {
    /// The handle for an allocator whose profiling support is `prof_enabled`
    /// and whose profiling is currently `prof_active`; `None` without support.
    pub fn get(prof_enabled: bool, prof_active: bool) -> (r: Option<JemallocProfCtl>)
        ensures
            r is Some <==> prof_enabled,
            r matches Some(c) ==> (c.md_view().start_time is Some <==> prof_active),
            r matches Some(c) ==> (prof_active ==> c.md_view().start_time == Some(
                ProfStartTime::TimeImmemorial,
            )),
    {
        if prof_enabled {
            let start_time = if prof_active {
                Some(ProfStartTime::TimeImmemorial)
            } else {
                None
            };
            Some(JemallocProfCtl { md: JemallocProfMetadata { start_time } })
        } else {
            None
        }
    }

    /// What is known of the current profiling session.
    pub closed spec fn md_view(&self) -> JemallocProfMetadata {
        self.md
    }

    pub fn get_md(&self) -> (r: JemallocProfMetadata)
        ensures
            r == self.md_view(),
    {
        self.md
    }

    /// Records that profiling was switched on: a session already running keeps
    /// its start time, otherwise the session starts now.
    pub fn mark_activated(&mut self)
        ensures
            old(self).md_view().start_time is Some ==> final(self).md_view() == old(self).md_view(),
            final(self).md_view().start_time matches Some(ProfStartTime::Instant(_))
                || final(self).md_view() == old(self).md_view(),
            final(self).md_view().start_time is Some,
    {
        if self.md.start_time.is_none() {
            self.md.start_time = Some(ProfStartTime::Instant(now()));
        }
    }

    /// Records that profiling was switched off.
    pub fn mark_deactivated(&mut self)
        ensures
            final(self).md_view().start_time is None,
    {
        self.md.start_time = None;
    }

    /// A fresh snapshot of the allocator's statistics.
    pub fn stats(&self) -> (r: Result<JemallocStats, tikv_jemalloc_ctl::Error>) {
        JemallocStats::get()
    }
}

/// A snapshot of the allocator's byte counters.
pub struct JemallocStats {
    pub active: usize,
    pub allocated: usize,
    pub metadata: usize,
    pub resident: usize,
    pub retained: usize,
}

impl JemallocStats {
    /// Assembles a snapshot from the five counters, in field order.
    pub fn from_counters(
        active: usize,
        allocated: usize,
        metadata: usize,
        resident: usize,
        retained: usize,
    ) -> (r: JemallocStats)
        ensures
            r.active == active,
            r.allocated == allocated,
            r.metadata == metadata,
            r.resident == resident,
            r.retained == retained,
    {
        JemallocStats { active, allocated, metadata, resident, retained }
    }

    /// Advances the statistics epoch and reads the counters; the first failing
    /// call's error is returned.
    pub fn get() -> (r: Result<JemallocStats, tikv_jemalloc_ctl::Error>) {
        let _ = advance_epoch()?;
        let active = read_active()?;
        let allocated = read_allocated()?;
        let metadata = read_metadata()?;
        let resident = read_resident()?;
        let retained = read_retained()?;
        Ok(JemallocStats::from_counters(active, allocated, metadata, resident, retained))
    }
}

} // verus!
