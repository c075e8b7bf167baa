//! What can go wrong.

use vstd::prelude::*;

verus! {

/// Library error type
#[derive(Debug)]
pub enum Error {
    /// A required environment variable was not set.
    MissingEnv(&'static str),
}

impl Error {
    /// The error in words.
    pub open spec fn words(&self) -> Seq<char> {
        match self {
            Error::MissingEnv(name) => "missing environment variable `"@ + name@ + "`"@,
        }
    }

    /// The error in words
    pub fn message(&self) -> (s: String)
        ensures
            s@ == self.words(),
    {
        match self {
            Error::MissingEnv(name) => {
                let mut s = "missing environment variable `".to_string();
                s.append(name);
                s.append("`");
                s
            },
        }
    }
}

/// The message names the variable between backquotes.
pub proof fn lemma_message_names_the_variable(error: &Error, s: String)
    requires
        call_ensures(Error::message, (error,), s),
    ensures
        match error {
            Error::MissingEnv(name) => {
                let n = s@.len() - name@.len();
                &&& s@ == "missing environment variable `"@ + name@ + seq!['`']
                &&& n == 31
                &&& s@.subrange(n - 1, s@.len() - 1) == name@
            },
        },
{
    match error {
        Error::MissingEnv(name) => {
            reveal_strlit("missing environment variable `");
            reveal_strlit("`");
            assert("`"@ =~= seq!['`']);
            let n = s@.len() - name@.len();
            assert(s@.subrange(n - 1, s@.len() - 1) =~= name@);
        },
    }
}

} // verus!
