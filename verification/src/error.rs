//! Crate-wide error type.

use vstd::prelude::*;

verus! {

#[derive(Debug, Clone, PartialEq, Eq)]
pub enum SemcastError {
    /// The query engine refused a plan or failed to run it.
    DataFusion(String),
    Model(String),
    Calibration(String),
    Index(String),
}

impl SemcastError {
    /// The error as users read it.
    pub open spec fn shown(self) -> Seq<char> {
        match self {
            SemcastError::DataFusion(s) => "datafusion error: "@ + s@,
            SemcastError::Model(s) => "model error: "@ + s@,
            SemcastError::Calibration(s) => "calibration error: "@ + s@,
            SemcastError::Index(s) => "index error: "@ + s@,
        }
    }

    /// Whether it is a failure of a model with a message.
    pub open spec fn is_model(self, message: Seq<char>) -> bool {
        self matches SemcastError::Model(m) && m@ == message
    }

    /// The error as users read it.
    pub fn text(&self) -> (r: String)
        ensures
            r@ == self.shown(),
    {
        match self {
            SemcastError::DataFusion(s) => "datafusion error: ".to_owned().concat(s.as_str()),
            SemcastError::Model(s) => "model error: ".to_owned().concat(s.as_str()),
            SemcastError::Calibration(s) => "calibration error: ".to_owned().concat(s.as_str()),
            SemcastError::Index(s) => "index error: ".to_owned().concat(s.as_str()),
        }
    }
}

/// Errors are read apart: the same words stand for the same kind of failure with the
/// same message.
pub proof fn errors_are_read_apart(a: SemcastError, b: SemcastError)
    requires
        a.shown() == b.shown(),
    ensures
        match (a, b) {
            (SemcastError::DataFusion(s), SemcastError::DataFusion(t)) => s@ == t@,
            (SemcastError::Model(s), SemcastError::Model(t)) => s@ == t@,
            (SemcastError::Calibration(s), SemcastError::Calibration(t)) => s@ == t@,
            (SemcastError::Index(s), SemcastError::Index(t)) => s@ == t@,
            _ => false,
        },
{
    lemma_first_letter(a);
    lemma_first_letter(b);
    match (a, b) {
        (SemcastError::DataFusion(s), SemcastError::DataFusion(t)) => {
            lemma_behind("datafusion error: "@, s@, t@);
        },
        (SemcastError::Model(s), SemcastError::Model(t)) => {
            lemma_behind("model error: "@, s@, t@);
        },
        (SemcastError::Calibration(s), SemcastError::Calibration(t)) => {
            lemma_behind("calibration error: "@, s@, t@);
        },
        (SemcastError::Index(s), SemcastError::Index(t)) => {
            lemma_behind("index error: "@, s@, t@);
        },
        _ => {},
    }
}

proof fn lemma_first_letter(e: SemcastError)
    ensures
        e.shown()[0] == match e {
            SemcastError::DataFusion(_) => 'd',
            SemcastError::Model(_) => 'm',
            SemcastError::Calibration(_) => 'c',
            SemcastError::Index(_) => 'i',
        },
{
    reveal_strlit("datafusion error: ");
    reveal_strlit("model error: ");
    reveal_strlit("calibration error: ");
    reveal_strlit("index error: ");
    assert("datafusion error: "@[0] == 'd' && "model error: "@[0] == 'm');
    assert("calibration error: "@[0] == 'c' && "index error: "@[0] == 'i');
}

proof fn lemma_behind(head: Seq<char>, a: Seq<char>, b: Seq<char>)
    requires
        head + a == head + b,
    ensures
        a == b,
{
    let n = head.len() as int;
    assert((head + a).skip(n) =~= a);
    assert((head + b).skip(n) =~= b);
}

}
