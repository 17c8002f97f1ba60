//! The request that the worker serves, and the notifications that tell the
//! debug adapter how far the helper has come.

use crate::helper_requests::{EventModel, HelperEvent};
use vstd::prelude::*;

verus! {

/// A request for a window of disassembly, as the worker takes it.
#[derive(Debug)]
pub struct DisasmRequest {
    /// The reference address of the request.
    pub memory_reference: u64,
    /// The reference address with the offset in bytes applied.
    pub start_addr: u64,
    /// The offset in instructions; where negative, so many instructions in
    /// front of `start_addr` are asked for.
    pub instr_offset: i64,
    /// The number of instructions asked for.
    pub instr_count: u64,
    /// The sequence number of the request, which the response repeats.
    pub seq_id: u64,
}

/// A notification: an event in the envelope in which it travels.
#[derive(Debug)]
pub struct Notification {
    pub jsonrpc: String,
    pub method: String,
    pub args: HelperEvent,
}

/// A notification as a mathematical value.
pub struct NotificationModel {
    pub jsonrpc: Seq<char>,
    pub method: Seq<char>,
    pub args: EventModel,
}

impl View for Notification {
    type V = NotificationModel;

    open spec fn view(&self) -> NotificationModel {
        NotificationModel { jsonrpc: self.jsonrpc@, method: self.method@, args: self.args@ }
    }
}

/// Puts an event into its envelope: version `2.0`, method `HelperEvent`.
pub fn wrap_event_as_notification(event: HelperEvent) -> (r: Notification)
    ensures
        r@ == (NotificationModel { jsonrpc: "2.0"@, method: "HelperEvent"@, args: event@ }),
        r.args == event,
{
    Notification { jsonrpc: "2.0".to_owned(), method: "HelperEvent".to_owned(), args: event }
}

/// The notification that the symbols are loaded.
pub fn symbol_table_ready_notification(session_id: &str, version: &str) -> (r: Notification)
    ensures
        r@ == (NotificationModel {
            jsonrpc: "2.0"@,
            method: "HelperEvent"@,
            args: EventModel::SymbolTableReady { session_id: session_id@, version: version@ },
        }),
{
    let event = HelperEvent::SymbolTableReady {
        session_id: session_id.to_owned(),
        version: version.to_owned(),
    };
    wrap_event_as_notification(event)
}

/// The notification that the disassembly is loaded.
pub fn disassembly_ready_notification(session_id: &str, instruction_count: u64) -> (r: Notification)
    ensures
        r@ == (NotificationModel {
            jsonrpc: "2.0"@,
            method: "HelperEvent"@,
            args: EventModel::DisassemblyReady { session_id: session_id@, instruction_count },
        }),
{
    let event = HelperEvent::DisassemblyReady {
        session_id: session_id.to_owned(),
        instruction_count,
    };
    wrap_event_as_notification(event)
}

/// The notification that the RTT control block was found at `address`,
/// which is given in base sixteen.
pub fn rtt_found_notification(session_id: &str, address: &str) -> (r: Notification)
    ensures
        r@ == (NotificationModel {
            jsonrpc: "2.0"@,
            method: "HelperEvent"@,
            args: EventModel::RTTFound { session_id: session_id@, address: address@ },
        }),
{
    let event = HelperEvent::RTTFound {
        session_id: session_id.to_owned(),
        address: address.to_owned(),
    };
    wrap_event_as_notification(event)
}

} // verus!
