use vstd::prelude::*;
use vstd::string::StringExecFns;

verus! {

/// The failures a run can end with. None of them is recovered from: the
/// driver reports the message and exits nonzero.
#[derive(Debug, PartialEq, Eq)]
pub enum QError {
    /// A resolved rule file could not be opened.
    FileAccess { path: String },
    /// A line of a rule file could not be decoded as text.
    LineRead { path: String },
    /// The combined alternation failed to compile.
    PatternCompile { message: String },
    /// The named input file could not be opened.
    InputOpen { path: String },
    /// A line of the input stream could not be decoded.
    InputRead,
}

impl QError {
    /// The human-readable text of the error.
    pub open spec fn spec_message(&self) -> Seq<char> {
        match self {
            QError::FileAccess { path } => "cannot open rule file "@ + path@,
            QError::LineRead { path } => "cannot read a line from rule file "@ + path@,
            QError::PatternCompile { message } => "cannot compile rule pattern: "@ + message@,
            QError::InputOpen { path } => "cannot open input file "@ + path@,
            QError::InputRead => "cannot read a line from the input"@,
        }
    }

    pub fn message(&self) -> (r: String)
        ensures
            r@ == self.spec_message(),
    {
        match self {
            QError::FileAccess { path } => {
                let mut m = "cannot open rule file ".to_owned();
                m.append(path.as_str());
                m
            },
            QError::LineRead { path } => {
                let mut m = "cannot read a line from rule file ".to_owned();
                m.append(path.as_str());
                m
            },
            QError::PatternCompile { message } => {
                let mut m = "cannot compile rule pattern: ".to_owned();
                m.append(message.as_str());
                m
            },
            QError::InputOpen { path } => {
                let mut m = "cannot open input file ".to_owned();
                m.append(path.as_str());
                m
            },
            QError::InputRead => "cannot read a line from the input".to_owned(),
        }
    }
}

} // verus!
