//! The records of the log, the rows that listings hand out, and their models.
use vstd::prelude::*;

verus! {

/// The columns of the persisted log table, and the table itself.
#[derive(Debug, Clone, Copy, PartialEq, Eq, Structural)]
pub enum Environments {
    Table,
    Env,
    Key,
    Value,
    CreatedAt,
}

/// The persisted name of a column or of the table.
pub open spec fn column_name(c: Environments) -> Seq<char> {
    match c {
        Environments::Table => "environments"@,
        Environments::Env => "env"@,
        Environments::Key => "key"@,
        Environments::Value => "value"@,
        Environments::CreatedAt => "created_at"@,
    }
}

impl Environments {
    /// The name under which the column (or the table) is persisted.
    pub fn as_str(&self) -> (r: &'static str)
        ensures
            r@ == column_name(*self),
    {
        match self {
            Environments::Table => {
                proof { reveal_strlit("environments"); }
                "environments"
            },
            Environments::Env => {
                proof { reveal_strlit("env"); }
                "env"
            },
            Environments::Key => {
                proof { reveal_strlit("key"); }
                "key"
            },
            Environments::Value => {
                proof { reveal_strlit("value"); }
                "value"
            },
            Environments::CreatedAt => {
                proof { reveal_strlit("created_at"); }
                "created_at"
            },
        }
    }
}

/// A known environment, as enumerated by the store.
#[derive(Debug)]
pub struct Environment {
    pub env: String,
}

/// One live variable of an environment: its key, its (possibly windowed)
/// value and the stamp of the record that holds it.
#[derive(Debug)]
pub struct EnvironmentRow {
    pub env: String,
    pub key: String,
    pub value: String,
    pub created_at: i64,
}

/// One record of the log. A record whose `value` is `None` is a tombstone.
#[derive(Debug)]
pub struct VariableRecord {
    pub env: String,
    pub key: String,
    pub value: Option<String>,
    pub created_at: i64,
}

/// The mathematical model of a record.
pub struct Entry {
    pub env: Seq<char>,
    pub key: Seq<char>,
    pub value: Option<Seq<char>>,
    pub created_at: i64,
}

/// The model of an optional text value.
pub open spec fn opt_view(v: Option<String>) -> Option<Seq<char>> {
    match v {
        Some(s) => Some(s@),
        None => None,
    }
}

impl View for VariableRecord {
    type V = Entry;

    open spec fn view(&self) -> Entry {
        Entry {
            env: self.env@,
            key: self.key@,
            value: opt_view(self.value),
            created_at: self.created_at,
        }
    }
}

impl VariableRecord {
    /// A copy of the record.
    pub fn copy(&self) -> (r: VariableRecord)
        ensures
            r@ == self@,
    {
        let value = match &self.value {
            Some(v) => Some(v.clone()),
            None => None,
        };
        VariableRecord {
            env: self.env.clone(),
            key: self.key.clone(),
            value,
            created_at: self.created_at,
        }
    }
}

/// How listed values are shown: whole, or as a window of at most `length`
/// characters from the 1-based position `start`.
#[derive(Debug, Clone, Copy, PartialEq, Eq, Structural)]
pub enum Truncate {
    Full,
    Range(u32, u32),
}

/// The failures that the store reports.
#[derive(Debug, PartialEq, Eq)]
pub enum EnvelopeError {
    /// The storage medium has not been set up.
    NotInitialized,
    /// No record, live or tombstone, names the environment.
    EnvironmentNotFound(String),
    /// The underlying storage failed; the text says where.
    StorageFailure(String),
}

} // verus!
