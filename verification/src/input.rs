//! Turning the lines of the input into the pool of records, all or nothing.

use crate::parse::{parse_line, record_of};
use crate::password::{Password, Record};
use vstd::prelude::*;

verus! {

/// Why the input gave no pool.
#[derive(Debug, Clone, Copy, PartialEq, Eq)]
pub enum Failure {
    /// A line could not be read.
    Input,
    /// A line was read and is not a record.
    Validation,
}

/// What one line of the input gives: its record, or the failure it stands
/// for. `None` is a line that could not be read.
pub open spec fn line_record(line: Option<Seq<char>>) -> Result<Record, Failure> {
    match line {
        None => Err(Failure::Input),
        Some(text) => match record_of(text) {
            Ok(record) => Ok(record),
            Err(_) => Err(Failure::Validation),
        },
    }
}

/// Is line `i` the first line that gives no record?
pub open spec fn first_failing(lines: Seq<Option<Seq<char>>>, i: int) -> bool {
    &&& 0 <= i < lines.len()
    &&& line_record(lines[i]) is Err
    &&& forall|j: int| 0 <= j < i ==> line_record(#[trigger] lines[j]) is Ok
}

/// Reads every line as a record. The pool has one record for each line, in
/// the order of the lines. The first line that could not be read (`None`) or
/// that is no record decides the failure, and then there is no pool.
pub fn read_passwords(lines: &Vec<Option<String>>) -> (pool: Result<Vec<Password>, Failure>)
    ensures
        match pool {
            Ok(records) => {
                &&& records.len() == lines.len()
                &&& forall|i: int|
                    0 <= i < lines.len() ==> {
                        &&& line_record(#[trigger] lines.deep_view()[i]) matches Ok(record)
                        &&& record == records[i]@
                    }
            },
            Err(failure) => exists|i: int|
                {
                    &&& first_failing(lines.deep_view(), i)
                    &&& line_record(lines.deep_view()[i]) matches Err(reason)
                    &&& reason == failure
                },
        },
{
    let ghost given = lines.deep_view();
    let mut records: Vec<Password> = Vec::new();
    let mut i: usize = 0;
    while i < lines.len()
        invariant
            0 <= i <= lines.len(),
            given == lines.deep_view(),
            records.len() == i,
            forall|j: int|
                0 <= j < i ==> {
                    &&& line_record(#[trigger] given[j]) matches Ok(record)
                    &&& record == records[j]@
                },
        decreases lines.len() - i,
    {
        match &lines[i] {
            None => {
                assert(first_failing(given, i as int));
                return Err(Failure::Input);
            },
            Some(text) => match parse_line(text.as_str()) {
                Err(_) => {
                    assert(first_failing(given, i as int));
                    return Err(Failure::Validation);
                },
                Ok(password) => {
                    records.push(password);
                },
            },
        }
        i = i + 1;
    }
    Ok(records)
}

/// At most one line is the first that gives no record.
pub proof fn lemma_first_failing_is_unique(lines: Seq<Option<Seq<char>>>, i: int, j: int)
    requires
        first_failing(lines, i),
        first_failing(lines, j),
    ensures
        i == j,
{
}

} // verus!
