use vstd::prelude::*;

use crate::error::KvsError;

verus! {

/// A command as it is kept in the log. Reads are never logged.
pub enum LogEntry {
    Put { key: String, value: String },
    Remove { key: String },
}

impl LogEntry {
    pub fn set(key: String, value: String) -> (r: Self)
        ensures
            r == (LogEntry::Put { key, value }),
    {
        LogEntry::Put { key, value }
    }

    pub fn remove(key: String) -> (r: Self)
        ensures
            r == (LogEntry::Remove { key }),
    {
        LogEntry::Remove { key }
    }

    pub open spec fn key_spec(&self) -> Seq<char> {
        match self {
            LogEntry::Put { key, .. } => key@,
            LogEntry::Remove { key } => key@,
        }
    }

    /// The key that the command is about.
    pub fn key(&self) -> (r: &String)
        ensures
            r@ == self.key_spec(),
    {
        match self {
            LogEntry::Put { key, .. } => key,
            LogEntry::Remove { key } => key,
        }
    }
}

/// The value that a record read back for a lookup holds. The index only
/// points at `Put` records, so any other record means that index and log
/// disagree.
pub fn value_of_record(entry: LogEntry) -> (r: Result<String, KvsError>)
    ensures
        entry matches LogEntry::Put { value, .. } ==> r == Ok::<String, KvsError>(value),
        entry is Remove ==> r matches Err(KvsError::UnexpectedCommandType),
{
    match entry {
        LogEntry::Put { value, .. } => Ok(value),
        LogEntry::Remove { .. } => Err(KvsError::UnexpectedCommandType),
    }
}

} // verus!
