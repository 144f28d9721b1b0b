//! One run of an instrumented program: its switches, its anchor table and its
//! table of known labels, and what the switches make of an entry and of the
//! report.

use vstd::prelude::*;
use vstd::bytes::spec_u128_from_le_bytes;
use vstd::string::StringSliceAdditionalSpecFns;
use crate::anchor::written_label;
use crate::collision::{collides, DebugAnchors, HashCollision};
use crate::hash::ARRAY_LEN;
use crate::profiler::{Profiler, __Timer};
use crate::report::{report_rows, reported, rows_view, ReportRow, Row};

verus! {

/// Where the report is written.
#[derive(Clone, Copy, PartialEq, Eq, Structural, Debug)]
pub enum Sink {
    /// The hosted standard output.
    Hosted,
    /// A print path that needs no hosted standard output.
    Freestanding,
}

/// The switches of a run.
#[derive(Clone, Copy, Debug)]
pub struct Toggles {
    /// Scopes are timed and reported. Where this is off, entries leave no
    /// trace and the report is its head alone.
    pub profile: bool,
    /// The hosted standard output is there to write to.
    pub std: bool,
    /// Entries are held against the labels that their slots are known by.
    pub debug: bool,
}

impl Toggles {
    /// Where a run with these switches writes its report.
    pub fn sink(&self) -> (sink: Sink)
        ensures
            sink == if self.std {
                Sink::Hosted
            } else {
                Sink::Freestanding
            },
    {
        if self.std {
            Sink::Hosted
        } else {
            Sink::Freestanding
        }
    }
}

/// The state of one run.
pub struct Session {
    pub toggles: Toggles,
    pub profiler: Profiler,
    pub debug: DebugAnchors,
}

impl Session {
    /// The label that an entry into slot `index` under `name` would leave
    /// there, packed.
    pub open spec fn incoming(self, name: Seq<u8>, index: int) -> u128 {
        spec_u128_from_le_bytes(written_label(self.profiler@.anchors[index].label, name))
    }

    /// An entry into slot `index` under `name` is refused: the run checks for
    /// collisions and the slot is known by another label.
    pub open spec fn refuses(self, name: Seq<u8>, index: int) -> bool {
        self.toggles.profile && self.toggles.debug && collides(
            self.debug@[index],
            self.incoming(name, index),
        )
    }

    /// A run at its start.
    pub fn new(toggles: Toggles) -> (session: Self)
        ensures
            session.toggles == toggles,
            session.profiler@ == crate::profiler::Table::fresh(),
            session.debug@ == Seq::new(ARRAY_LEN as nat, |i: int| 0u128),
    {
        Session { toggles, profiler: Profiler::new(), debug: DebugAnchors::new() }
    }

    /// Enters a scope as the switches say. With profiling off nothing
    /// happens and there is no timer. With the collision check on, an entry
    /// into a slot that is known by another label is refused and changes
    /// nothing. Every other entry follows the timer protocol and, with the
    /// check on, makes its label known.
    pub fn enter(&mut self, name: &str, bytes: u64, index: usize, start: u64) -> (entry: Result<
        Option<__Timer>,
        HashCollision,
    >)
        requires
            index < ARRAY_LEN,
        ensures
            final(self).toggles == old(self).toggles,
            (entry is Err) == old(self).refuses(name.spec_bytes(), index as int),
            (entry is Ok && entry->Ok_0 is Some) == (old(self).toggles.profile && !old(
                self,
            ).refuses(name.spec_bytes(), index as int)),
            entry is Err ==> {
                &&& entry->Err_0.index == index
                &&& entry->Err_0.known == old(self).debug@[index as int]
                &&& entry->Err_0.name@ == name.spec_bytes()
            },
            entry is Ok && entry->Ok_0 is Some ==> {
                &&& entry->Ok_0->Some_0@ == old(self).profiler@.frame(
                    index as int,
                    bytes as int,
                    start as int,
                )
                &&& final(self).profiler@ == old(self).profiler@.enter(
                    name.spec_bytes(),
                    index as int,
                )
            },
            !(entry is Ok && entry->Ok_0 is Some) ==> final(self).profiler@ == old(
                self,
            ).profiler@,
            final(self).debug@ == if entry is Ok && entry->Ok_0 is Some && old(
                self,
            ).toggles.debug {
                old(self).debug@.update(
                    index as int,
                    old(self).incoming(name.spec_bytes(), index as int),
                )
            } else {
                old(self).debug@
            },
    {
        if !self.toggles.profile {
            Ok(None)
        } else if self.toggles.debug {
            match __Timer::new_debug(&mut self.profiler, &mut self.debug, name, bytes, index, start) {
                Ok(timer) => Ok(Some(timer)),
                Err(collision) => Err(collision),
            }
        } else {
            Ok(Some(__Timer::new(&mut self.profiler, name, bytes, index, start)))
        }
    }

    /// The rows that the run's report shows: those of the anchor table, and
    /// none with profiling off.
    pub open spec fn shown(self) -> Seq<Row> {
        if self.toggles.profile {
            reported(self.profiler@)
        } else {
            Seq::empty()
        }
    }

    /// Selects the rows of the run's report.
    pub fn rows(&self) -> (rows: Vec<ReportRow>)
        ensures
            rows_view(rows@) == self.shown(),
    {
        if self.toggles.profile {
            report_rows(&self.profiler)
        } else {
            let rows: Vec<ReportRow> = Vec::new();
            proof {
                assert(rows_view(rows@) =~= Seq::empty());
            }
            rows
        }
    }
}

} // verus!
