//! Bookkeeping of background maintenance: pending flush and compaction
//! requests, the flush and compactions under way, progress and the last
//! unreported error. The workers that wait on it hold it behind a lock.

use vstd::prelude::*;
use crate::error::Error;
use crate::range_tombstone::{ranges_overlap, spec_ranges_overlap};
use crate::types::{bound_view, KeyRange, SpecBound};

verus! {

/// Work asked of the background workers.
#[derive(Debug, Clone, Copy, PartialEq, Eq, Structural)]
pub struct MaintenanceRequest {
    pub flush: bool,
    pub compaction: bool,
}

impl MaintenanceRequest {
    pub fn any(self) -> (r: bool)
        ensures
            r == (self.flush || self.compaction),
    {
        self.flush || self.compaction
    }
}

/// Whether writes should wait for a flush or a compaction.
#[derive(Debug, Clone, Copy, PartialEq, Eq, Structural)]
pub struct WritePressure {
    pub flush: bool,
    pub compaction: bool,
}

impl WritePressure {
    pub fn none(self) -> (r: bool)
        ensures
            r == (!self.flush && !self.compaction),
    {
        !self.flush && !self.compaction
    }

    pub fn request(self) -> (r: MaintenanceRequest)
        ensures
            r.flush == self.flush && r.compaction == self.compaction,
    {
        MaintenanceRequest { flush: self.flush, compaction: self.compaction }
    }
}

/// A compaction's claim on a key range of a bucket.
#[derive(Debug, Clone, PartialEq, Eq)]
pub struct CompactionReservation {
    pub bucket: String,
    pub range: KeyRange,
}

/// The mathematical value of a reservation: bucket name and range bounds.
pub type ReservationView = (Seq<char>, SpecBound, SpecBound);

pub open spec fn reservation_view(r: CompactionReservation) -> ReservationView {
    (r.bucket@, r.range.start_view(), r.range.end_view())
}

pub open spec fn reservation_views(rs: Seq<CompactionReservation>) -> Seq<ReservationView> {
    rs.map_values(|r: CompactionReservation| reservation_view(r))
}

/// Two reservations conflict when they name the same bucket and their
/// ranges overlap.
pub open spec fn conflicts(left: CompactionReservation, right: CompactionReservation) -> bool {
    left.bucket@ == right.bucket@ && spec_ranges_overlap(left.range, right.range)
}

pub fn compaction_reservations_conflict(left: &CompactionReservation, right: &CompactionReservation) -> (r: bool)
    ensures
        r == conflicts(*left, *right),
{
    left.bucket == right.bucket && ranges_overlap(&left.range, &right.range)
}

fn bounds_equal(a: &crate::types::Bound<Vec<u8>>, b: &crate::types::Bound<Vec<u8>>) -> (r: bool)
    ensures
        r == (bound_view(*a) == bound_view(*b)),
{
    match (a, b) {
        (crate::types::Bound::Included(x), crate::types::Bound::Included(y)) => crate::bytes::bytes_equal(x.as_slice(), y.as_slice()),
        (crate::types::Bound::Excluded(x), crate::types::Bound::Excluded(y)) => crate::bytes::bytes_equal(x.as_slice(), y.as_slice()),
        (crate::types::Bound::Unbounded, crate::types::Bound::Unbounded) => true,
        _ => false,
    }
}

/// Reservations with the same view.
pub fn same_reservation(a: &CompactionReservation, b: &CompactionReservation) -> (r: bool)
    ensures
        r == (reservation_view(*a) == reservation_view(*b)),
{
    a.bucket == b.bucket && bounds_equal(&a.range.start, &b.range.start) && bounds_equal(
        &a.range.end,
        &b.range.end,
    )
}

fn duplicate_reservation(r: &CompactionReservation) -> (c: CompactionReservation)
    ensures
        reservation_view(c) == reservation_view(*r),
        conflicts(c, *r) == conflicts(*r, *r),
        forall|x: CompactionReservation| conflicts(x, c) == conflicts(x, *r),
{
    CompactionReservation { bucket: r.bucket.clone(), range: crate::types::clone_range(&r.range) }
}

/// What a worker does next.
#[derive(Debug, Clone, Copy, PartialEq, Eq, Structural)]
pub enum MaintenanceStep {
    /// Nothing is pending: wait for a request.
    Wait,
    /// The store shuts down.
    Stop,
    /// Run the requested work; the pending requests are cleared.
    Run(MaintenanceRequest),
}

/// The reservations a compaction pass holds.
#[derive(Debug)]
pub struct MaintenanceCompactionGuard {
    pub reservations: Vec<CompactionReservation>,
}

impl MaintenanceCompactionGuard {
    /// A reservation of `range` in `bucket` is held.
    pub fn contains(&self, bucket: &str, range: &KeyRange) -> (r: bool)
        ensures
            r == exists|i: int|
                0 <= i < self.reservations@.len() && #[trigger] reservation_view(self.reservations@[i])
                    == (bucket@, range.start_view(), range.end_view()),
    {
        let probe = CompactionReservation {
            bucket: bucket.to_owned(),
            range: crate::types::clone_range(range),
        };
        let mut i: usize = 0;
        while i < self.reservations.len()
            invariant
                i <= self.reservations@.len(),
                reservation_view(probe) == (bucket@, range.start_view(), range.end_view()),
                forall|j: int|
                    0 <= j < i ==> #[trigger] reservation_view(self.reservations@[j]) != reservation_view(probe),
            decreases self.reservations@.len() - i,
        {
            if same_reservation(&self.reservations[i], &probe) {
                return true;
            }
            i = i + 1;
        }
        false
    }
}

/// The shared state of the background workers.
#[derive(Debug)]
pub struct MaintenanceState {
    flush_requests: usize,
    compaction_requests: usize,
    active_flushes: usize,
    active_compactions: Vec<CompactionReservation>,
    progress: u64,
    shutdown: bool,
    last_error: Option<String>,
}

pub struct MaintenanceView {
    pub flush_requests: usize,
    pub compaction_requests: usize,
    pub active_flushes: usize,
    pub active_compactions: Seq<CompactionReservation>,
    pub progress: u64,
    pub shutdown: bool,
    pub last_error: Option<Seq<char>>,
}

impl View for MaintenanceState {
    type V = MaintenanceView;

    closed spec fn view(&self) -> MaintenanceView {
        MaintenanceView {
            flush_requests: self.flush_requests,
            compaction_requests: self.compaction_requests,
            active_flushes: self.active_flushes,
            active_compactions: self.active_compactions@,
            progress: self.progress,
            shutdown: self.shutdown,
            last_error: match self.last_error {
                Some(s) => Some(s@),
                None => None,
            },
        }
    }
}

pub open spec fn sat_inc(n: usize) -> usize {
    if n == usize::MAX {
        n
    } else {
        (n + 1) as usize
    }
}

pub open spec fn sat_inc64(n: u64) -> u64 {
    if n == u64::MAX {
        n
    } else {
        (n + 1) as u64
    }
}

/// Reserves, in order, each candidate that conflicts with no reservation
/// held so far, those made earlier in the same pass included. Returns the
/// reservations held afterwards and those made.
pub open spec fn reserve_spec(active: Seq<CompactionReservation>, candidates: Seq<CompactionReservation>) -> (Seq<CompactionReservation>, Seq<CompactionReservation>)
    decreases candidates.len(),
{
    if candidates.len() == 0 {
        (active, Seq::empty())
    } else {
        let (held, made) = reserve_spec(active, candidates.drop_last());
        let c = candidates.last();
        if exists|i: int| 0 <= i < held.len() && conflicts(#[trigger] held[i], c) {
            (held, made)
        } else {
            (held.push(c), made.push(c))
        }
    }
}

/// The active reservations with every finished one taken out.
pub open spec fn finished_removed(active: Seq<CompactionReservation>, finished: Seq<CompactionReservation>) -> Seq<ReservationView> {
    reservation_views(active).filter(
        |a: ReservationView| !reservation_views(finished).contains(a),
    )
}

impl MaintenanceState {
    pub fn new() -> (r: Self)
        ensures
            r@.flush_requests == 0,
            r@.compaction_requests == 0,
            r@.active_flushes == 0,
            r@.active_compactions.len() == 0,
            r@.progress == 0,
            !r@.shutdown,
            r@.last_error is None,
    {
        MaintenanceState {
            flush_requests: 0,
            compaction_requests: 0,
            active_flushes: 0,
            active_compactions: Vec::new(),
            progress: 0,
            shutdown: false,
            last_error: None,
        }
    }

    /// Counts a request for a flush, a compaction or both.
    pub fn request(&mut self, request: MaintenanceRequest)
        ensures
            final(self)@ == (MaintenanceView {
                flush_requests: if request.flush {
                    sat_inc(old(self)@.flush_requests)
                } else {
                    old(self)@.flush_requests
                },
                compaction_requests: if request.compaction {
                    sat_inc(old(self)@.compaction_requests)
                } else {
                    old(self)@.compaction_requests
                },
                ..old(self)@
            }),
    {
        if !request.any() {
            return;
        }
        if request.flush {
            self.flush_requests = self.flush_requests.saturating_add(1);
        }
        if request.compaction {
            self.compaction_requests = self.compaction_requests.saturating_add(1);
        }
    }

    /// What a waiting worker does: stop on shutdown, wait while nothing is
    /// pending, else take every pending request.
    pub fn next_step(&mut self) -> (r: MaintenanceStep)
        ensures
            old(self)@.shutdown ==> r == MaintenanceStep::Stop && final(self)@ == old(self)@,
            !old(self)@.shutdown && old(self)@.flush_requests == 0 && old(self)@.compaction_requests == 0
                ==> r == MaintenanceStep::Wait && final(self)@ == old(self)@,
            !old(self)@.shutdown && (old(self)@.flush_requests != 0 || old(self)@.compaction_requests != 0)
                ==> r == MaintenanceStep::Run(
                MaintenanceRequest {
                    flush: old(self)@.flush_requests != 0,
                    compaction: old(self)@.compaction_requests != 0,
                },
            ) && final(self)@ == (MaintenanceView {
                flush_requests: 0,
                compaction_requests: 0,
                ..old(self)@
            }),
    {
        if self.shutdown {
            return MaintenanceStep::Stop;
        }
        if self.flush_requests == 0 && self.compaction_requests == 0 {
            return MaintenanceStep::Wait;
        }
        let request = MaintenanceRequest {
            flush: self.flush_requests != 0,
            compaction: self.compaction_requests != 0,
        };
        self.flush_requests = 0;
        self.compaction_requests = 0;
        MaintenanceStep::Run(request)
    }

    pub fn progress(&self) -> (r: u64)
        ensures
            r == self@.progress,
    {
        self.progress
    }

    /// A waiter that saw `observed_progress` may stop waiting: progress was
    /// made, the store shuts down, or an error is pending.
    pub fn progress_since(&self, observed_progress: u64) -> (r: bool)
        ensures
            r == (self@.progress != observed_progress || self@.shutdown || self@.last_error is Some),
    {
        self.progress != observed_progress || self.shutdown || self.last_error.is_some()
    }

    /// No flush and no compaction is under way.
    pub fn is_idle(&self) -> (r: bool)
        ensures
            r == (self@.active_flushes == 0 && self@.active_compactions.len() == 0),
    {
        self.active_flushes == 0 && self.active_compactions.len() == 0
    }

    /// A waiter for flushes may stop: none is pending or running, or the
    /// store shuts down, or an error is pending.
    pub fn flush_settled(&self) -> (r: bool)
        ensures
            r == ((self@.flush_requests == 0 && self@.active_flushes == 0) || self@.shutdown
                || self@.last_error is Some),
    {
        (self.flush_requests == 0 && self.active_flushes == 0) || self.shutdown || self.last_error.is_some()
    }

    /// A waiter for compactions may stop: none is pending or running, or
    /// the store shuts down, or an error is pending.
    pub fn compaction_settled(&self) -> (r: bool)
        ensures
            r == ((self@.compaction_requests == 0 && self@.active_compactions.len() == 0)
                || self@.shutdown || self@.last_error is Some),
    {
        (self.compaction_requests == 0 && self.active_compactions.len() == 0) || self.shutdown
            || self.last_error.is_some()
    }

    pub fn has_pending_compaction(&self) -> (r: bool)
        ensures
            r == (self@.compaction_requests != 0 || self@.active_compactions.len() != 0),
    {
        self.compaction_requests != 0 || self.active_compactions.len() != 0
    }

    /// Starts the one flush allowed at a time, unless the store shuts down.
    pub fn try_start_flush(&mut self) -> (r: bool)
        ensures
            r == (!old(self)@.shutdown && old(self)@.active_flushes == 0),
            r ==> final(self)@ == (MaintenanceView { active_flushes: 1, ..old(self)@ }),
            !r ==> final(self)@ == old(self)@,
    {
        if self.shutdown || self.active_flushes != 0 {
            return false;
        }
        self.active_flushes = 1;
        true
    }

    /// Reserves the candidates that conflict with no reservation held, in
    /// order; `None` when none could be reserved or the store shuts down.
    pub fn reserve_compactions(&mut self, candidates: Vec<CompactionReservation>) -> (r: Option<MaintenanceCompactionGuard>)
        ensures
            old(self)@.shutdown ==> r is None && final(self)@ == old(self)@,
            !old(self)@.shutdown ==> {
                let (held, made) = reserve_spec(old(self)@.active_compactions, candidates@);
                &&& reservation_views(final(self)@.active_compactions) == reservation_views(held)
                &&& final(self)@ == (MaintenanceView { active_compactions: final(self)@.active_compactions, ..old(self)@ })
                &&& match r {
                    Some(guard) => made.len() > 0 && reservation_views(guard.reservations@) == reservation_views(made),
                    None => made.len() == 0,
                }
            },
    {
        if self.shutdown {
            return None;
        }
        let ghost start = self.active_compactions@;
        let mut reservations: Vec<CompactionReservation> = Vec::new();
        let mut i: usize = 0;
        while i < candidates.len()
            invariant
                i <= candidates@.len(),
                !self.shutdown,
                self@ == (MaintenanceView { active_compactions: self@.active_compactions, ..old(self)@ }),
                ({
                    let (held, made) = reserve_spec(start, candidates@.take(i as int));
                    reservation_views(self.active_compactions@) == reservation_views(held)
                        && reservation_views(reservations@) == reservation_views(made)
                        && self.active_compactions@.len() == held.len()
                        && (forall|k: int| 0 <= k < held.len() ==> forall|x: CompactionReservation|
                            conflicts(x, #[trigger] self.active_compactions@[k]) == conflicts(x, held[k]))
                }),
            decreases candidates@.len() - i,
        {
            let candidate = &candidates[i];
            proof {
                assert(candidates@.take(i + 1).drop_last() =~= candidates@.take(i as int));
                assert(candidates@.take(i + 1).last() == *candidate);
            }
            let ghost (held, made) = reserve_spec(start, candidates@.take(i as int));
            let mut conflict = false;
            let mut j: usize = 0;
            while j < self.active_compactions.len()
                invariant
                    j <= self.active_compactions@.len(),
                    self.active_compactions@.len() == held.len(),
                    forall|k: int| 0 <= k < held.len() ==> forall|x: CompactionReservation|
                        conflicts(x, #[trigger] self.active_compactions@[k]) == conflicts(x, held[k]),
                    conflict == exists|k: int| 0 <= k < j && conflicts(#[trigger] held[k], *candidate),
                decreases self.active_compactions@.len() - j,
            {
                proof {
                    let a = self.active_compactions@[j as int];
                    assert(conflicts(*candidate, a) == conflicts(*candidate, held[j as int]));
                    assert(conflicts(a, *candidate) == conflicts(*candidate, a));
                    assert(conflicts(held[j as int], *candidate) == conflicts(*candidate, held[j as int]));
                }
                if compaction_reservations_conflict(&self.active_compactions[j], candidate) {
                    conflict = true;
                }
                j = j + 1;
            }
            if !conflict {
                let ghost before_active = self.active_compactions@;
                let ghost before_made = reservations@;
                self.active_compactions.push(duplicate_reservation(candidate));
                reservations.push(duplicate_reservation(candidate));
                proof {
                    assert(reservation_views(self.active_compactions@) =~= reservation_views(before_active).push(
                        reservation_view(*candidate),
                    ));
                    assert(reservation_views(reservations@) =~= reservation_views(before_made).push(
                        reservation_view(*candidate),
                    ));
                    assert(reservation_views(held.push(*candidate)) =~= reservation_views(held).push(
                        reservation_view(*candidate),
                    ));
                    assert(reservation_views(made.push(*candidate)) =~= reservation_views(made).push(
                        reservation_view(*candidate),
                    ));
                }
            }
            i = i + 1;
        }
        proof {
            assert(candidates@.take(candidates@.len() as int) =~= candidates@);
        }
        if reservations.len() == 0 {
            return None;
        }
        Some(MaintenanceCompactionGuard { reservations })
    }

    /// Keeps the error for the next caller that asks, and counts progress.
    pub fn record_error(&mut self, error: &Error)
        ensures
            final(self)@ == (MaintenanceView {
                last_error: Some(crate::error::error_prefix(error.kind())@ + error.message_view()),
                progress: sat_inc64(old(self)@.progress),
                ..old(self)@
            }),
    {
        self.last_error = Some(error.describe());
        self.progress = self.progress.saturating_add(1);
    }

    /// Hands out the pending error, once.
    pub fn take_error(&mut self) -> (r: Option<String>)
        ensures
            match r {
                Some(s) => old(self)@.last_error == Some(s@),
                None => old(self)@.last_error is None,
            },
            final(self)@ == (MaintenanceView { last_error: None, ..old(self)@ }),
    {
        let error = self.last_error.take();
        error
    }

    pub fn shutdown(&mut self)
        ensures
            final(self)@ == (MaintenanceView { shutdown: true, ..old(self)@ }),
    {
        self.shutdown = true;
    }

    /// Ends the running flush and counts progress.
    pub fn finish_flush(&mut self)
        ensures
            final(self)@ == (MaintenanceView {
                active_flushes: if old(self)@.active_flushes == 0 {
                    0
                } else {
                    (old(self)@.active_flushes - 1) as usize
                },
                progress: sat_inc64(old(self)@.progress),
                ..old(self)@
            }),
    {
        self.active_flushes = self.active_flushes.saturating_sub(1);
        self.progress = self.progress.saturating_add(1);
    }

    /// Releases finished reservations and counts progress.
    pub fn finish_compactions(&mut self, reservations: &[CompactionReservation])
        ensures
            reservation_views(final(self)@.active_compactions) == finished_removed(
                old(self)@.active_compactions,
                reservations@,
            ),
            final(self)@ == (MaintenanceView {
                active_compactions: final(self)@.active_compactions,
                progress: sat_inc64(old(self)@.progress),
                ..old(self)@
            }),
    {
        let ghost all = self.active_compactions@;
        let ghost pred = |a: ReservationView| !reservation_views(reservations@).contains(a);
        let mut rest = Vec::new();
        std::mem::swap(&mut rest, &mut self.active_compactions);
        let mut kept: Vec<CompactionReservation> = Vec::new();
        let ghost mut i: int = 0;
        while rest.len() > 0
            invariant
                0 <= i <= all.len(),
                rest@ == all.skip(i),
                reservation_views(kept@) == reservation_views(all.take(i)).filter(pred),
                pred == (|a: ReservationView| !reservation_views(reservations@).contains(a)),
            decreases rest@.len(),
        {
            let active = rest.remove(0);
            let mut finished = false;
            let mut j: usize = 0;
            while j < reservations.len()
                invariant
                    j <= reservations@.len(),
                    finished == exists|k: int|
                        0 <= k < j && reservation_view(#[trigger] reservations@[k]) == reservation_view(active),
                decreases reservations@.len() - j,
            {
                if same_reservation(&reservations[j], &active) {
                    finished = true;
                }
                j = j + 1;
            }
            proof {
                reveal(Seq::filter);
                assert(active == all[i]);
                assert(all.take(i + 1).drop_last() =~= all.take(i));
                assert(reservation_views(all.take(i + 1)).drop_last() =~= reservation_views(all.take(i)));
                assert(reservation_views(all.take(i + 1)).last() == reservation_view(active));
                if finished {
                    let k = choose|k: int|
                        0 <= k < reservations@.len() && reservation_view(#[trigger] reservations@[k]) == reservation_view(active);
                    assert(reservation_views(reservations@)[k] == reservation_view(active));
                } else {
                    assert forall|k: int| 0 <= k < reservation_views(reservations@).len() implies
                        reservation_views(reservations@)[k] != reservation_view(active) by {
                        assert(reservation_views(reservations@)[k] == reservation_view(reservations@[k]));
                    }
                }
                assert(rest@ =~= all.skip(i + 1));
            }
            if !finished {
                let ghost before = kept@;
                kept.push(active);
                proof {
                    assert(reservation_views(kept@) =~= reservation_views(before).push(reservation_view(active)));
                }
            }
            proof {
                i = i + 1;
            }
        }
        proof {
            assert(all.take(i) =~= all);
        }
        self.active_compactions = kept;
        self.progress = self.progress.saturating_add(1);
    }
}

/// A successful maintenance pass leaves the pending error alone: only
/// `take_error` clears it.
pub fn record_maintenance_success(_state: &MaintenanceState) {
}

} // verus!
