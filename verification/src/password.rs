//! The record model: a word of the pool, either a plain candidate or a
//! witness that carries how close it was found to be to the sought word.

use crate::closeness::{closeness, count_matching};
use crate::parse::{parse_line, record_of};
use std::str::FromStr;
use vstd::prelude::*;

verus! {

/// One word of the input. The sought word is among the words of the pool; a
/// witness is a word that was tried before, with the count of positions at
/// which it matched the sought word.
#[derive(Debug)]
pub enum Password {
    Candidate(String),
    Witness(String, usize),
}

/// Why a line could not be read as a [`Password`].
#[derive(Debug, Clone, Copy, PartialEq, Eq)]
pub enum PasswordParseError {
    /// The line holds no word at all.
    NoInput,
    /// The line holds a second token that is not a distance.
    BadDistance,
}

/// What a [`Password`] stands for: its word as a sequence of characters and,
/// for a witness, the distance as a natural number.
pub ghost enum Record {
    Candidate { word: Seq<char> },
    Witness { word: Seq<char>, distance: nat },
}

impl Record {
    /// The word of the record, whichever variant it is.
    pub open spec fn word(self) -> Seq<char> {
        match self {
            Record::Candidate { word } => word,
            Record::Witness { word, .. } => word,
        }
    }

    /// The distance of a witness; a candidate has none.
    pub open spec fn distance(self) -> Option<nat> {
        match self {
            Record::Candidate { .. } => None,
            Record::Witness { distance, .. } => Some(distance),
        }
    }
}

impl View for Password {
    type V = Record;

    open spec fn view(&self) -> Record {
        match *self {
            Password::Candidate(word) => Record::Candidate { word: word@ },
            Password::Witness(word, distance) => Record::Witness {
                word: word@,
                distance: distance as nat,
            },
        }
    }
}

impl DeepView for Password {
    type V = Record;

    open spec fn deep_view(&self) -> Record {
        self@
    }
}

impl Password {
    /// A candidate: a word of which nothing is known.
    pub fn candidate(word: &str) -> (password: Password)
        ensures
            password@ == (Record::Candidate { word: word@ }),
    {
        Password::Candidate(word.to_owned())
    }

    /// A witness: a word together with its known distance to the sought word.
    pub fn witness(word: &str, distance: usize) -> (password: Password)
        ensures
            password@ == (Record::Witness { word: word@, distance: distance as nat }),
    {
        Password::Witness(word.to_owned(), distance)
    }

    /// The word, for either variant.
    pub fn word(&self) -> (word: &str)
        ensures
            word@ == self@.word(),
    {
        match self {
            Password::Candidate(word) => word.as_str(),
            Password::Witness(word, _) => word.as_str(),
        }
    }

    /// The known distance of a witness, and `None` for a candidate.
    pub fn distance(&self) -> (distance: Option<usize>)
        ensures
            distance is Some <==> self@.distance() is Some,
            distance matches Some(d) ==> self@.distance() == Some(d as nat),
    {
        match self {
            Password::Candidate(_) => None,
            Password::Witness(_, distance) => Some(*distance),
        }
    }

    /// The number of positions at which the two words hold the same
    /// character, counted up to the end of the shorter word.
    pub fn closeness_to(&self, other: &Password) -> (count: usize)
        ensures
            count == closeness(self@.word(), other@.word()),
    {
        count_matching(self.word(), other.word())
    }
}

impl FromStr for Password {
    type Err = PasswordParseError;

    /// Reads one line, as [`parse_line`] does.
    fn from_str(line: &str) -> (parsed: Result<Password, PasswordParseError>)
        ensures
            record_of(line@) == match parsed {
                Ok(password) => Ok::<Record, PasswordParseError>(password@),
                Err(error) => Err(error),
            },
    {
        parse_line(line)
    }
}

} // verus!
