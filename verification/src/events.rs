//! Self-telemetry event types: markers for state-store operations and the
//! event stream of the live component view. The label each operation carries
//! on the wire is fixed here; emission itself is transport and lives outside
//! the library.

use vstd::prelude::*;

verus! {

#[derive(Debug)]
pub struct StateItemAdded;

#[derive(Debug)]
pub struct StateItemUpdated;

#[derive(Debug)]
pub struct StateItemDeleted;

#[derive(Debug)]
pub struct StateResynced;

#[derive(Debug)]
pub struct StateMaintenanceRequested;

#[derive(Debug)]
pub struct StateMaintenancePerformed;

/// The operation kinds a state store reports, each with its wire label.
pub enum OpKind {
    ItemAdded,
    ItemDeleted,
    ItemUpdated,
    MaintenancePerformed,
    MaintenanceRequested,
    Resynced,
}

impl OpKind {
    pub open spec fn spec_label(&self) -> Seq<char> {
        match self {
            OpKind::ItemAdded => "item_added"@,
            OpKind::ItemDeleted => "item_deleted"@,
            OpKind::ItemUpdated => "item_updated"@,
            OpKind::MaintenancePerformed => "maintenance_performed"@,
            OpKind::MaintenanceRequested => "maintenance_requested"@,
            OpKind::Resynced => "resynced"@,
        }
    }

    /// The label attached to the operation counter for this kind.
    pub fn to_str(&self) -> (r: &str)
        ensures
            r@ == self.spec_label(),
    {
        match self {
            OpKind::ItemAdded => "item_added",
            OpKind::ItemDeleted => "item_deleted",
            OpKind::ItemUpdated => "item_updated",
            OpKind::MaintenancePerformed => "maintenance_performed",
            OpKind::MaintenanceRequested => "maintenance_requested",
            OpKind::Resynced => "resynced",
        }
    }
}

/// One update on the component event stream.
#[derive(Debug)]
pub enum EventType {
    EventsProcessedTotal(i64),
}

} // verus!
