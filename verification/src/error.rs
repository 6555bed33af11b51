use vstd::prelude::*;
use vstd::string::StringExecFns;

verus! {

/// Why a text could not be read as a number.
#[derive(Debug, Clone, Copy, PartialEq, Eq, Structural)]
pub enum Base62Error {
    /// The text holds a character that is none of the 62 digits.
    NonAlphanumeric,
    /// The value of the text does not fit a `usize`.
    Overflow,
}

impl Base62Error {
    /// The short description of each variant, as a sequence of characters.
    pub open spec fn description_text(self) -> Seq<char> {
        match self {
            Base62Error::NonAlphanumeric => "contains non-alphanumeric"@,
            Base62Error::Overflow => "overflow"@,
        }
    }

    /// The full sentence shown for each variant, as a sequence of characters.
    pub open spec fn display_text(self) -> Seq<char> {
        match self {
            Base62Error::NonAlphanumeric => "Input contains non-alphanumeric."@,
            Base62Error::Overflow => "Return is overflow."@,
        }
    }

    /// A short description of the failure.
    pub fn description(&self) -> (text: &'static str)
        ensures
            text@ == self.description_text(),
    {
        match self {
            Base62Error::NonAlphanumeric => "contains non-alphanumeric",
            Base62Error::Overflow => "overflow",
        }
    }

    /// The sentence that reports the failure to a reader.
    pub fn to_string(&self) -> (text: String)
        ensures
            text@ == self.display_text(),
    {
        match self {
            Base62Error::NonAlphanumeric => String::from_str("Input contains non-alphanumeric."),
            Base62Error::Overflow => String::from_str("Return is overflow."),
        }
    }
}

} // verus!
