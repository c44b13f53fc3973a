//! The failures of the byte layer, and decimal text for error messages.

use vstd::prelude::*;
use vstd::string::StringExecFns;

verus! {

/// The coarse class of an [`IoError`].
#[derive(Debug, Clone, Copy, PartialEq, Eq, Structural)]
pub enum ErrorKind {
    /// An argument did not fit the bytes it was applied to.
    InvalidInput,
}

/// A byte-level operation that could not be carried out.
#[derive(Debug, Clone, Copy, PartialEq, Eq, Structural)]
pub enum IoError {
    /// An offset or range reaches past the end of the branch.
    OutOfBounds,
    /// An offset plus a length is more than a `u64` can hold.
    OffsetOverflow,
    /// A range whose start lies after its end.
    InvertedRange { start: u64, end: u64 },
    /// A range that reaches past the bytes of a view.
    RangePastView { end: u64, view_len: u64 },
}

impl IoError {
    /// What [`IoError::to_string`] returns.
    pub open spec fn message(self) -> Seq<char> {
        match self {
            IoError::OutOfBounds => "offset or range exceeds branch length"@,
            IoError::OffsetOverflow => "offset arithmetic overflowed u64"@,
            IoError::InvertedRange { start, end } => "normalised_range is inverted: start ("@
                + decimal(start as nat) + ") > end ("@ + decimal(end as nat) + ")"@,
            IoError::RangePastView { end, view_len } => "normalised_range.end ("@ + decimal(
                end as nat,
            ) + ") exceeds view length ("@ + decimal(view_len as nat) + ")"@,
        }
    }

    /// The class of this failure.
    pub fn kind(&self) -> (kind: ErrorKind)
        ensures
            kind == ErrorKind::InvalidInput,
    {
        ErrorKind::InvalidInput
    }

    /// A description for people.
    pub fn to_string(&self) -> (text: String)
        ensures
            text@ == self.message(),
    {
        match *self {
            IoError::OutOfBounds => "offset or range exceeds branch length".to_owned(),
            IoError::OffsetOverflow => "offset arithmetic overflowed u64".to_owned(),
            IoError::InvertedRange { start, end } => {
                let mut text = "normalised_range is inverted: start (".to_owned();
                text.append(decimal_text(start).as_str());
                text.append(") > end (");
                text.append(decimal_text(end).as_str());
                text.append(")");
                text
            },
            IoError::RangePastView { end, view_len } => {
                let mut text = "normalised_range.end (".to_owned();
                text.append(decimal_text(end).as_str());
                text.append(") exceeds view length (");
                text.append(decimal_text(view_len).as_str());
                text.append(")");
                text
            },
        }
    }
}

/// The character of one decimal digit.
pub open spec fn digit(d: nat) -> Seq<char> {
    if d == 0 {
        "0"@
    } else if d == 1 {
        "1"@
    } else if d == 2 {
        "2"@
    } else if d == 3 {
        "3"@
    } else if d == 4 {
        "4"@
    } else if d == 5 {
        "5"@
    } else if d == 6 {
        "6"@
    } else if d == 7 {
        "7"@
    } else if d == 8 {
        "8"@
    } else {
        "9"@
    }
}

/// `n` in decimal, without leading zeros.
pub open spec fn decimal(n: nat) -> Seq<char>
    decreases n,
{
    if n < 10 {
        digit(n)
    } else {
        decimal(n / 10) + digit(n % 10)
    }
}

/// A decimal numeral is a digit, `'0'` being 48, or the numeral of all tens and a
/// digit for what is left; it starts with `'0'` for 0 alone.
pub proof fn lemma_decimal_notation(tens: nat, d: nat)
    requires
        d < 10,
    ensures
        decimal(d).len() == 1,
        decimal(d)[0] as int == 48 + d,
        tens > 0 ==> decimal(10 * tens + d).len() == decimal(tens).len() + 1,
        tens > 0 ==> forall|i: int|
            0 <= i < decimal(tens).len() ==> #[trigger] decimal(10 * tens + d)[i] == decimal(
                tens,
            )[i],
        tens > 0 ==> decimal(10 * tens + d)[decimal(tens).len() as int] as int == 48 + d,
{
    reveal_strlit("0");
    reveal_strlit("1");
    reveal_strlit("2");
    reveal_strlit("3");
    reveal_strlit("4");
    reveal_strlit("5");
    reveal_strlit("6");
    reveal_strlit("7");
    reveal_strlit("8");
    reveal_strlit("9");
    let n = 10 * tens + d;
    assert(n / 10 == tens && n % 10 == d);
}

fn digit_text(d: u64) -> (text: &'static str)
    requires
        d < 10,
    ensures
        text@ == digit(d as nat),
{
    match d {
        0 => "0",
        1 => "1",
        2 => "2",
        3 => "3",
        4 => "4",
        5 => "5",
        6 => "6",
        7 => "7",
        8 => "8",
        _ => "9",
    }
}

/// Write `n` in decimal.
pub(crate) fn decimal_text(n: u64) -> (text: String)
    ensures
        text@ == decimal(n as nat),
    decreases n,
{
    if n < 10 {
        digit_text(n).to_owned()
    } else {
        let mut text = decimal_text(n / 10);
        text.append(digit_text(n % 10));
        text
    }
}

} // verus!
