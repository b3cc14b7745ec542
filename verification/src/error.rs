use vstd::prelude::*;
use vstd::string::StringExecFns;

verus! {

/// Everything that can go wrong while decoding a container.
///
/// Every condition is terminal for the operation that reports it.
#[derive(Debug, Clone, Copy, PartialEq, Eq)]
pub enum DecodeError {
    /// Reached the end of the available bytes before a value could be
    /// obtained.
    UnexpectedEof {
        /// The reader's cursor when the read was attempted.
        cursor: usize,
        /// The number of bytes asked for (for a seek: the target position).
        wanted: usize,
        /// The bytes left after the cursor.
        remaining: usize,
    },
    /// The header does not start with the expected magic number.
    UnknownFileMagic,
    /// The checksum stored with a key differs from the checksum of its bytes.
    StringTableHashMismatch,
    /// The size stored inside the string table differs from the header's.
    StringTableSizeMismatch,
    /// A name index points outside the string table.
    InvalidNameOffset,
    /// The tag bits of a packed value are outside `0..=4`.
    UnknownValueType,
    /// A pair index of the Huffman table points outside the table.
    MalformedDecompressionNodes,
}

/// Result of a decoding operation.
pub type DecodeResult<T> = Result<T, DecodeError>;

/// The text of a digit.
pub open spec fn digit_text(d: int) -> Seq<char> {
    if d == 0 {
        "0"@
    } else if d == 1 {
        "1"@
    } else if d == 2 {
        "2"@
    } else if d == 3 {
        "3"@
    } else if d == 4 {
        "4"@
    } else if d == 5 {
        "5"@
    } else if d == 6 {
        "6"@
    } else if d == 7 {
        "7"@
    } else if d == 8 {
        "8"@
    } else {
        "9"@
    }
}

/// The text of a number in decimal digits, without leading zeros.
pub open spec fn decimal(n: nat) -> Seq<char>
    decreases n,
{
    if n < 10 {
        digit_text(n as int)
    } else {
        decimal(n / 10) + digit_text((n % 10) as int)
    }
}

/// The text of a digit.
fn digit_str(d: usize) -> (s: &'static str)
    requires
        d < 10,
    ensures
        s@ == digit_text(d as int),
{
    if d == 0 {
        "0"
    } else if d == 1 {
        "1"
    } else if d == 2 {
        "2"
    } else if d == 3 {
        "3"
    } else if d == 4 {
        "4"
    } else if d == 5 {
        "5"
    } else if d == 6 {
        "6"
    } else if d == 7 {
        "7"
    } else if d == 8 {
        "8"
    } else {
        "9"
    }
}

/// Writes a number in decimal digits.
pub fn decimal_string(n: usize) -> (s: String)
    ensures
        s@ == decimal(n as nat),
    decreases n,
{
    if n < 10 {
        String::from_str(digit_str(n))
    } else {
        let mut s = decimal_string(n / 10);
        s.append(digit_str(n % 10));
        s
    }
}

impl DecodeError {
    /// The message of the error.
    pub open spec fn message_text(self) -> Seq<char> {
        match self {
            DecodeError::UnexpectedEof { cursor, wanted, remaining } => {
                "Unexpected end of file (cursor: "@ + decimal(cursor as nat) + ", wanted: "@
                    + decimal(wanted as nat) + ", remaining: "@ + decimal(remaining as nat) + ")"@
            },
            DecodeError::UnknownFileMagic => "Unexpected file magic bytes"@,
            DecodeError::StringTableHashMismatch => "String table hash didn't match"@,
            DecodeError::StringTableSizeMismatch => "String table size didn't match"@,
            DecodeError::InvalidNameOffset => "Invalid name offset"@,
            DecodeError::UnknownValueType => "Unknown value type"@,
            DecodeError::MalformedDecompressionNodes => "Decompression nodes are malformed"@,
        }
    }

    /// The message of the error, for display.
    pub fn message(&self) -> (text: String)
        ensures
            text@ == self.message_text(),
    {
        match self {
            DecodeError::UnexpectedEof { cursor, wanted, remaining } => {
                let mut text = String::from_str("Unexpected end of file (cursor: ");
                text.append(decimal_string(*cursor).as_str());
                text.append(", wanted: ");
                text.append(decimal_string(*wanted).as_str());
                text.append(", remaining: ");
                text.append(decimal_string(*remaining).as_str());
                text.append(")");
                text
            },
            DecodeError::UnknownFileMagic => String::from_str("Unexpected file magic bytes"),
            DecodeError::StringTableHashMismatch => String::from_str(
                "String table hash didn't match",
            ),
            DecodeError::StringTableSizeMismatch => String::from_str(
                "String table size didn't match",
            ),
            DecodeError::InvalidNameOffset => String::from_str("Invalid name offset"),
            DecodeError::UnknownValueType => String::from_str("Unknown value type"),
            DecodeError::MalformedDecompressionNodes => String::from_str(
                "Decompression nodes are malformed",
            ),
        }
    }
}

} // verus!
