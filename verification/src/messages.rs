//! What the commands say when they are done.

use crate::keys::{decimal, push_decimal};
use crate::paths::{file_name, file_name_of};
use crate::text::{chars_of, string_of};
use vstd::prelude::*;

verus! {

/// The first twelve characters of a hash; all of it where it has fewer.
pub open spec fn short_hash_of(hash: Seq<char>) -> Seq<char> {
    if hash.len() <= 12 {
        hash
    } else {
        hash.take(12)
    }
}

/// What is said when a single file was added: its name and the start of its hash.
pub open spec fn added_message_of(path: Seq<char>, hash: Seq<char>) -> Seq<char> {
    "Added: "@ + file_name_of(path) + " ("@ + short_hash_of(hash) + ")"@
}

/// What is said when a scan is done: how many files it indexed, and its name.
pub open spec fn scan_message_of(indexed: nat, snapshot_name: Seq<char>) -> Seq<char> {
    "Indexed "@ + decimal(indexed) + " files. Snapshot '"@ + snapshot_name + "' saved."@
}

/// What is said when a folder went to the bin: how many records left the index.
pub open spec fn bin_message_of(count: nat) -> Seq<char> {
    "Moved "@ + decimal(count) + " files to Recycle Bin."@
}

/// The start of a hash, as it is shown.
pub fn short_hash(hash: &str) -> (short: String)
    ensures
        short@ == short_hash_of(hash@),
{
    let mut chars = chars_of(hash);
    if chars.len() > 12 {
        chars.truncate(12);
    }
    string_of(&chars)
}

/// The message for a single file that was added.
pub fn added_message(path: &str, hash: &str) -> (message: String)
    ensures
        message@ == added_message_of(path@, hash@),
{
    let mut message = "Added: ".to_owned();
    message.append(file_name(path).as_str());
    message.append(" (");
    message.append(short_hash(hash).as_str());
    message.append(")");
    message
}

/// The message for a scan that is done.
pub fn scan_message(indexed: usize, snapshot_name: &str) -> (message: String)
    ensures
        message@ == scan_message_of(indexed as nat, snapshot_name@),
{
    let mut message = "Indexed ".to_owned();
    push_decimal(&mut message, indexed as u64);
    message.append(" files. Snapshot '");
    message.append(snapshot_name);
    message.append("' saved.");
    message
}

/// The message for a folder that went to the bin.
pub fn bin_message(count: usize) -> (message: String)
    ensures
        message@ == bin_message_of(count as nat),
{
    let mut message = "Moved ".to_owned();
    push_decimal(&mut message, count as u64);
    message.append(" files to Recycle Bin.");
    message
}

} // verus!
