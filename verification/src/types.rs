//! The record types of the dataset and its error taxonomy.

use vstd::prelude::*;

use crate::assoc::Keyed;
use crate::sort::TimeKeyed;
use crate::strings::str_eq;

verus! {

/// A competitor's gender. Only the literal input tokens `m` and `f` map to
/// `Male` and `Female`; every other token maps to `Unknown` by design.
#[derive(Clone, Copy, PartialEq, Eq, Structural, Debug)]
pub enum Gender {
    Male,
    Female,
    Unknown,
}

/// Which of the two ranking lists of an event a query asks for.
#[derive(Clone, Copy, PartialEq, Eq, Structural, Debug)]
pub enum ResultType {
    Single,
    Average,
}

/// One recorded result value (a time or score; smaller is better).
#[derive(Clone, Copy, PartialEq, Eq, Structural, Debug)]
pub struct CompResult {
    pub time: u32,
}

/// The best results of one competitor for one event: the best single
/// attempt, and optionally the best averaged attempt.
#[derive(Clone, Copy, PartialEq, Eq, Structural, Debug)]
pub struct Record {
    pub single: CompResult,
    pub average: Option<CompResult>,
}

/// One entry of an event's ranking list: a result value and the competitor
/// who achieved it.
#[derive(Debug)]
pub struct Ranking {
    pub result: CompResult,
    pub competitor_id: String,
}

impl TimeKeyed for Ranking {
    open spec fn time_key(self) -> u32 {
        self.result.time
    }

    fn read_time_key(&self) -> u32 {
        self.result.time
    }
}

/// A competitor of the identity store. `competition_count` is derived: the
/// number of distinct competitions the competitor appears in, backfilled
/// once after ingestion.
#[derive(Debug)]
pub struct Competitor {
    pub id: String,
    pub name: String,
    pub country: String,
    pub gender: Gender,
    pub competition_count: u32,
}

impl Keyed for Competitor {
    open spec fn key(&self) -> Seq<char> {
        self.id@
    }

    fn key_matches(&self, k: &str) -> (r: bool) {
        str_eq(self.id.as_str(), k)
    }
}

/// A record joined with the competitor it belongs to, as returned by
/// ranking queries over a caller-supplied set of competitors.
#[derive(Debug)]
pub struct RecordWithCompetitor {
    pub competitor_id: String,
    pub single: CompResult,
    pub average: Option<CompResult>,
}

impl TimeKeyed for RecordWithCompetitor {
    open spec fn time_key(self) -> u32 {
        self.single.time
    }

    fn read_time_key(&self) -> u32 {
        self.single.time
    }
}

/// An event definition: a short event code and a display name.
#[derive(Debug)]
pub struct Event {
    pub id: String,
    pub name: String,
}

/// Which of the five input files a failure was found in.
#[derive(Clone, Copy, PartialEq, Eq, Structural, Debug)]
pub enum SourceFile {
    Persons,
    Results,
    SingleRanks,
    AverageRanks,
    Events,
}

/// Why building the dataset was aborted. There is no partial, queryable
/// dataset on failure.
#[derive(Clone, Copy, PartialEq, Eq, Structural, Debug)]
pub enum IngestionError {
    /// A row of a source file could not be parsed. `line` is 1-based and
    /// counts the header row as line 1.
    MalformedRow { file: SourceFile, line: usize },
    /// An average result was submitted for a competitor/event pair that has
    /// no single result yet: an ingestion-order violation.
    MissingPrerequisite { file: SourceFile, line: usize },
}

impl Gender {
    /// Parses a gender token: `m` and `f` map to `Male` and `Female`, every
    /// other token (including the empty one) to `Unknown`. Lenient by
    /// design: an unrecognized token is a deliberate default, not an error.
    pub fn from_token(token: &str) -> (g: Gender)
        ensures
            g == Gender::spec_from_token(token@),
    {
        proof {
            reveal_strlit("m");
            reveal_strlit("f");
        }
        if token.unicode_len() == 1 {
            let c = token.get_char(0);
            if c == 'm' {
                proof {
                    assert(token@ =~= "m"@);
                }
                Gender::Male
            } else if c == 'f' {
                proof {
                    assert(token@ =~= "f"@);
                }
                Gender::Female
            } else {
                Gender::Unknown
            }
        } else {
            Gender::Unknown
        }
    }

    /// What `from_token` returns, as a function of the token's characters.
    pub open spec fn spec_from_token(token: Seq<char>) -> Gender {
        if token == "m"@ {
            Gender::Male
        } else if token == "f"@ {
            Gender::Female
        } else {
            Gender::Unknown
        }
    }
}

/// The token a gender is rendered back to: the inverse of `from_token` for
/// recognized tokens, and the empty token for `Unknown`.
pub fn gender_to_str(gender: &Gender) -> (s: &'static str)
    ensures
        match gender {
            Gender::Male => s@ == "m"@,
            Gender::Female => s@ == "f"@,
            Gender::Unknown => s@ == ""@,
        },
{
    proof {
        reveal_strlit("m");
        reveal_strlit("f");
        reveal_strlit("");
    }
    match gender {
        Gender::Male => "m",
        Gender::Female => "f",
        Gender::Unknown => "",
    }
}

} // verus!
