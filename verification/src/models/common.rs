//! Timestamps and read-history entries.
use vstd::prelude::*;

use crate::text::{decimal, push_decimal};

verus! {

/// Division rounded toward zero, as integer `/` does in Rust.
pub open spec fn trunc_div(a: int, b: int) -> int {
    if a >= 0 {
        a / b
    } else {
        -((-a) / b)
    }
}

/// A Unix timestamp in milliseconds (as produced by JavaScript's `Date.now()`).
///
/// All timestamps in the source data are millisecond-precision, so division
/// by 1000 is required before comparing to second-precision values.
#[derive(Debug, Clone, Copy, PartialEq, Eq, Structural)]
pub struct UnixMillis(pub i64);

impl UnixMillis {
    /// The timestamp in milliseconds.
    pub fn as_millis(&self) -> (r: i64)
        ensures
            r == self.0,
    {
        self.0
    }

    /// The timestamp in whole seconds, rounded toward zero.
    pub fn as_seconds(&self) -> (r: i64)
        ensures
            r == trunc_div(self.0 as int, 1000),
    {
        self.0 / 1000
    }
}

/// A single entry in a read history pairing a human-readable date label
/// with its Unix millisecond timestamp.
///
/// The label is `"04 Apr 2012"` in listing records and `"2026-04-11"` in
/// history records; it is stored as written. Use `unix` for date arithmetic.
#[derive(Debug, Clone)]
pub struct HistoryEntry {
    pub label: String,
    pub unix: UnixMillis,
}

/// The message given when the two history arrays differ in length.
pub open spec fn mismatch_message(labels: nat, stamps: nat) -> Seq<char> {
    "history/historyUNIX length mismatch: "@ + decimal(labels) + " labels vs "@ + decimal(stamps)
        + " timestamps"@
}

/// The entries that pair `labels[i]` with `unix_values[i]`.
pub open spec fn zipped(labels: Seq<String>, unix_values: Seq<i64>) -> Seq<HistoryEntry> {
    Seq::new(
        labels.len(),
        |i: int| HistoryEntry { label: labels[i], unix: UnixMillis(unix_values[i]) },
    )
}

/// Zips two parallel arrays (labels and Unix timestamps) into history entries.
/// Fails with a message when the arrays have different lengths.
pub fn zip_history(labels: Vec<String>, unix_values: Vec<i64>) -> (r: Result<
    Vec<HistoryEntry>,
    String,
>)
    ensures
        r is Ok <==> labels@.len() == unix_values@.len(),
        r matches Ok(v) ==> v@ == zipped(labels@, unix_values@),
        r matches Err(e) ==> e@ == mismatch_message(labels@.len(), unix_values@.len()),
{
    if labels.len() != unix_values.len() {
        let mut msg = String::from_str("history/historyUNIX length mismatch: ");
        push_decimal(&mut msg, labels.len() as u64);
        msg.append(" labels vs ");
        push_decimal(&mut msg, unix_values.len() as u64);
        msg.append(" timestamps");
        return Err(msg);
    }
    let ghost label_seq = labels@;
    let mut out: Vec<HistoryEntry> = Vec::new();
    let n = unix_values.len();
    for label in it: labels
        invariant
            it.seq() == label_seq,
            label_seq.len() == n,
            n == unix_values@.len(),
            out@ == zipped(label_seq, unix_values@).take(it.index() as int),
    {
        let i = out.len();
        out.push(HistoryEntry { label, unix: UnixMillis(unix_values[i]) });
        assert(out@ == zipped(label_seq, unix_values@).take(i + 1));
    }
    assert(out@ == zipped(label_seq, unix_values@));
    Ok(out)
}

/// The entries keep the pairing: reading the labels and the timestamps back
/// out of zipped entries gives the two arrays that went in.
pub proof fn lemma_zipped_unzips(labels: Seq<String>, unix_values: Seq<i64>)
    requires
        labels.len() == unix_values.len(),
    ensures
        zipped(labels, unix_values).map_values(|e: HistoryEntry| e.label) == labels,
        zipped(labels, unix_values).map_values(|e: HistoryEntry| e.unix.0) == unix_values,
{
    assert(zipped(labels, unix_values).map_values(|e: HistoryEntry| e.label) =~= labels);
    assert(zipped(labels, unix_values).map_values(|e: HistoryEntry| e.unix.0) =~= unix_values);
}

/// A copy of a list of history entries.
pub fn copy_entries(v: &Vec<HistoryEntry>) -> (r: Vec<HistoryEntry>)
    ensures
        r@ == v@,
{
    let mut out: Vec<HistoryEntry> = Vec::new();
    let mut i: usize = 0;
    while i < v.len()
        invariant
            i <= v@.len(),
            out@ == v@.take(i as int),
        decreases v@.len() - i,
    {
        let e = &v[i];
        out.push(HistoryEntry { label: e.label.clone(), unix: UnixMillis(e.unix.0) });
        assert(out@ == v@.take(i + 1));
        i = i + 1;
    }
    assert(out@ == v@);
    out
}

} // verus!
