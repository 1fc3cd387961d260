//! Read histories of multi-chapter works, kept in `_HISTORIES` records.
use vstd::prelude::*;

use crate::models::common::{zip_history, zipped, mismatch_message, HistoryEntry};

verus! {

/// Parsed history for a multi-chapter work.
///
/// A temporary value: after loading, each `History` is merged into the
/// listing with the same `id`, and the list of histories is discarded.
#[derive(Debug)]
pub struct History {
    pub id: String,
    pub entries: Vec<HistoryEntry>,
}

impl History {
    /// Builds a history from a record's id and its parallel `history` /
    /// `historyUNIX` arrays. Fails when the arrays differ in length.
    pub fn from_parts(id: String, history: Vec<String>, history_unix: Vec<i64>) -> (r: Result<
        History,
        String,
    >)
        ensures
            r is Ok <==> history@.len() == history_unix@.len(),
            r matches Ok(h) ==> h.id == id && h.entries@ == zipped(history@, history_unix@),
            r matches Err(e) ==> e@ == mismatch_message(history@.len(), history_unix@.len()),
    {
        match zip_history(history, history_unix) {
            Ok(entries) => Ok(History { id, entries }),
            Err(e) => Err(e),
        }
    }
}

} // verus!
