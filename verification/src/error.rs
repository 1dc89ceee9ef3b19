//! The errors that can occur while processing kanji data. Failures of the
//! surrounding file and serialization machinery are carried as plain
//! messages; the domain failures carry the offending value.

use vstd::prelude::*;
use crate::text::push_char;
use crate::Kanji;

verus! {

/// A typed failure value: the core never reports failures as silent
/// defaults, and never retries.
#[derive(Debug)]
pub enum Error {
    /// A lower-level failure involving file input or output.
    IO(String),
    /// A lower-level failure involving record (de)serialization.
    JSON(String),
    /// A lower-level failure involving time measurement.
    Time(String),
    /// The given kanji already has an entry in the store, so the attempted
    /// insertion collided and the store must not be persisted.
    Exists(Kanji),
    /// The given kanji has no entry in the store.
    Missing(Kanji),
    /// The given text does not denote a single kanji.
    NotKanji(String),
}

/// The message a failure prints with.
pub open spec fn spec_describe(e: &Error) -> Seq<char> {
    match e {
        Error::IO(m) => m@,
        Error::JSON(m) => m@,
        Error::Time(m) => m@,
        Error::Exists(k) => seq![k.spec_get()] + " already has an entry in the database."@,
        Error::Missing(k) => seq![k.spec_get()] + " is missing from the database."@,
        Error::NotKanji(s) => s@ + " is not Kanji."@,
    }
}

impl Error {
    /// Render the failure as a human-readable message.
    pub fn describe(&self) -> (r: String)
        ensures
            r@ == spec_describe(self),
    {
        match self {
            Error::IO(m) => m.clone(),
            Error::JSON(m) => m.clone(),
            Error::Time(m) => m.clone(),
            Error::Exists(k) => {
                let mut r = String::new();
                push_char(&mut r, k.get());
                r.append(" already has an entry in the database.");
                proof {
                    assert(r@ =~= spec_describe(self));
                }
                r
            },
            Error::Missing(k) => {
                let mut r = String::new();
                push_char(&mut r, k.get());
                r.append(" is missing from the database.");
                proof {
                    assert(r@ =~= spec_describe(self));
                }
                r
            },
            Error::NotKanji(s) => {
                let mut r = s.clone();
                r.append(" is not Kanji.");
                r
            },
        }
    }
}

} // verus!
