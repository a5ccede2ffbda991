//! Human-readable text for [`ValidationError`].
use vstd::prelude::*;
use vstd::string::StringExecFns;
use crate::problem::ValidationError;

verus! {

/// The decimal digit `d` as a character.
pub open spec fn digit_char(d: nat) -> char {
    if d == 0 {
        '0'
    } else if d == 1 {
        '1'
    } else if d == 2 {
        '2'
    } else if d == 3 {
        '3'
    } else if d == 4 {
        '4'
    } else if d == 5 {
        '5'
    } else if d == 6 {
        '6'
    } else if d == 7 {
        '7'
    } else if d == 8 {
        '8'
    } else {
        '9'
    }
}

/// The decimal representation of `n`, without leading zeros.
pub open spec fn decimal(n: nat) -> Seq<char>
    decreases n,
{
    if n < 10 {
        seq![digit_char(n)]
    } else {
        decimal(n / 10).push(digit_char(n % 10))
    }
}

/// Returns the one-character string of decimal digit `d`.
fn digit_str(d: usize) -> (s: &'static str)
    requires
        d < 10,
    ensures
        s@ == seq![digit_char(d as nat)],
{
    proof {
        reveal_strlit("0");
        reveal_strlit("1");
        reveal_strlit("2");
        reveal_strlit("3");
        reveal_strlit("4");
        reveal_strlit("5");
        reveal_strlit("6");
        reveal_strlit("7");
        reveal_strlit("8");
        reveal_strlit("9");
    }
    if d == 0 {
        "0"
    } else if d == 1 {
        "1"
    } else if d == 2 {
        "2"
    } else if d == 3 {
        "3"
    } else if d == 4 {
        "4"
    } else if d == 5 {
        "5"
    } else if d == 6 {
        "6"
    } else if d == 7 {
        "7"
    } else if d == 8 {
        "8"
    } else {
        "9"
    }
}

/// Appends the decimal representation of `n` to `s`.
fn append_decimal(s: &mut String, n: usize)
    ensures
        final(s)@ == old(s)@ + decimal(n as nat),
    decreases n,
{
    if n >= 10 {
        append_decimal(s, n / 10);
    }
    s.append(digit_str(n % 10));
    proof {
        if n >= 10 {
            assert(old(s)@ + decimal(n as nat) =~= old(s)@ + decimal((n / 10) as nat) + seq![digit_char((n % 10) as nat)]);
        } else {
            assert(old(s)@ + decimal(n as nat) =~= old(s)@ + seq![digit_char((n % 10) as nat)]);
        }
    }
}

impl ValidationError {
    /// The message describing the error.
    pub open spec fn spec_message(self) -> Seq<char> {
        match self {
            ValidationError::ColorLengthMismatch { expected, actual } => "square_colors has length "@ + decimal(
                actual as nat,
            ) + ", expected "@ + decimal(expected as nat) + " (= num_squares)"@,
            ValidationError::UnknownPiece => "constraint references a piece not in the alphabet"@,
            ValidationError::UnknownColor => "CountOnColor references a colour not in square_colors"@,
            ValidationError::SquareOutOfRange { square, num_squares } => "constraint references square "@
                + decimal(square as nat) + " but num_squares is "@ + decimal(num_squares as nat),
            ValidationError::InstanceOutOfRange { instance, declared } => "Order / Relative references instance "@
                + decimal(instance as nat) + " of a piece declared with count "@ + decimal(declared as nat),
        }
    }

    /// Returns the message describing the error, as its `Display` would
    /// print it.
    pub fn message(&self) -> (s: String)
        ensures
            s@ == self.spec_message(),
    {
        match self {
            ValidationError::ColorLengthMismatch { expected, actual } => {
                let mut s = String::from_str("square_colors has length ");
                append_decimal(&mut s, *actual);
                s.append(", expected ");
                append_decimal(&mut s, *expected);
                s.append(" (= num_squares)");
                s
            },
            ValidationError::UnknownPiece => String::from_str("constraint references a piece not in the alphabet"),
            ValidationError::UnknownColor => String::from_str(
                "CountOnColor references a colour not in square_colors",
            ),
            ValidationError::SquareOutOfRange { square, num_squares } => {
                let mut s = String::from_str("constraint references square ");
                append_decimal(&mut s, *square);
                s.append(" but num_squares is ");
                append_decimal(&mut s, *num_squares);
                s
            },
            ValidationError::InstanceOutOfRange { instance, declared } => {
                let mut s = String::from_str("Order / Relative references instance ");
                append_decimal(&mut s, *instance);
                s.append(" of a piece declared with count ");
                append_decimal(&mut s, *declared);
                s
            },
        }
    }
}

} // verus!
