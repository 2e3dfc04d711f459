//! The command dispatcher: an update step from a snapshot and one command to
//! the next snapshot. Every mutation of the ledger flows through here; the
//! caller persists the whole snapshot after each command.

use vstd::prelude::*;
use crate::codec::{import_json, spec_export};
use crate::ledger::{
    spec_find, spec_new_route, spec_record, spec_retire, spec_upsert, Snapshot, SnapshotView,
};
use crate::order::spec_sort;
use crate::route::{RouteId, Tick, TickKind};

verus! {

/// A mutating command against the snapshot, as the interface layer issues
/// them. Creation may record an immediate first tick.
pub enum Command {
    CreateRoute {
        title: String,
        color: String,
        section: String,
        grade: String,
        first_tick: Option<TickKind>,
    },
    EditRoute { id: RouteId, title: String, color: String, section: String, grade: String },
    RetireRoute { id: RouteId },
    RecordTick { id: RouteId, kind: TickKind },
    ImportData { json: String },
}

impl Snapshot {
    /// Applies one command. Creation and editing re-sort the ledger;
    /// retiring and ticking never do; a command naming an absent identifier
    /// is a silent no-op; importing replaces the whole snapshot when the
    /// text parses, and leaves it untouched otherwise.
    pub fn apply(&mut self, cmd: Command)
        ensures
            (cmd matches Command::CreateRoute { title, color, section, grade, first_tick } ==> (
            final(self)@.settings == old(self)@.settings && (first_tick matches Some(k) ==> exists|
                id: RouteId,
                ts: i64,
            |
                final(self)@.routes == #[trigger] spec_record(
                    spec_sort(
                        old(self)@.settings,
                        spec_upsert(
                            old(self)@.routes,
                            id,
                            spec_new_route(title@, color@, section@, grade@),
                        ),
                    ),
                    id,
                    Tick { kind: k, timestamp: ts },
                )) && (first_tick is None ==> exists|id: RouteId|
                final(self)@.routes == spec_sort(
                    old(self)@.settings,
                    #[trigger] spec_upsert(
                        old(self)@.routes,
                        id,
                        spec_new_route(title@, color@, section@, grade@),
                    ),
                )))),
            (cmd matches Command::EditRoute { id, title, color, section, grade } ==> (
            final(self)@.settings == old(self)@.settings && final(self)@.routes == match spec_find(
                old(self)@.routes,
                id,
            ) {
                Some(_) => spec_sort(
                    old(self)@.settings,
                    crate::ledger::spec_edit(
                        old(self)@.routes,
                        id,
                        title@,
                        color@,
                        section@,
                        grade@,
                    ),
                ),
                None => old(self)@.routes,
            })),
            (cmd matches Command::RetireRoute { id } ==> (final(self)@.settings == old(
                self,
            )@.settings && final(self)@.routes == spec_retire(old(self)@.routes, id))),
            (cmd matches Command::RecordTick { id, kind } ==> (final(self)@.settings == old(
                self,
            )@.settings && exists|ts: i64|
                final(self)@.routes == spec_record(
                    old(self)@.routes,
                    id,
                    Tick { kind, timestamp: ts },
                ))),
            (cmd matches Command::ImportData { json } ==> (forall|v: SnapshotView|
                json@ == #[trigger] spec_export(v) ==> final(self)@ == v)),
    {
        match cmd {
            Command::CreateRoute { title, color, section, grade, first_tick } => {
                let id = self.create(title, color, section, grade);
                let ghost base = self@.routes;
                match first_tick {
                    Some(k) => {
                        self.record_tick_now(id, k);
                        proof {
                            let ts = choose|ts: i64|
                                self@.routes == spec_record(
                                    base,
                                    id,
                                    Tick { kind: k, timestamp: ts },
                                );
                            assert(self@.routes == spec_record(
                                base,
                                id,
                                Tick { kind: k, timestamp: ts },
                            ));
                        }
                    },
                    None => {},
                }
            },
            Command::EditRoute { id, title, color, section, grade } => {
                self.edit(id, title, color, section, grade);
            },
            Command::RetireRoute { id } => {
                self.retire(id);
            },
            Command::RecordTick { id, kind } => {
                self.record_tick_now(id, kind);
            },
            Command::ImportData { json } => {
                match import_json(json.as_str()) {
                    Some(snap) => {
                        *self = snap;
                    },
                    None => {},
                }
            },
        }
    }
}

} // verus!
