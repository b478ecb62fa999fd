//! Reading and writing stones and vertices as text.

use vstd::prelude::*;
use vstd::string::{StringExecFns, StringSliceAdditionalSpecFns};
use crate::stone::Stone;
use crate::vertex::{Vertex, col_of, row_of};

verus! {

/// Why a text is no stone or no vertex.
#[derive(Copy, Clone, Debug, PartialEq, Eq, Structural)]
pub enum ParseError {
    /// The text names no color.
    UnknownColor,
    /// The text of a vertex has fewer than two or more than three bytes.
    BadFormat,
    /// The first byte is no column letter.
    BadColumn,
    /// What follows the column letter is no number.
    BadRow,
}

impl ParseError {
    /// The message of the error.
    pub open spec fn spec_message(self) -> Seq<char> {
        match self {
            ParseError::UnknownColor => "unknown color"@,
            ParseError::BadFormat => "expected Vertex of format A1"@,
            ParseError::BadColumn => "column must be A - T"@,
            ParseError::BadRow => "row must be integer"@,
        }
    }

    /// A description of the error.
    pub fn message(self) -> (r: String)
        ensures
            r@ == self.spec_message(),
    {
        match self {
            ParseError::UnknownColor => "unknown color".to_owned(),
            ParseError::BadFormat => "expected Vertex of format A1".to_owned(),
            ParseError::BadColumn => "column must be A - T".to_owned(),
            ParseError::BadRow => "row must be integer".to_owned(),
        }
    }
}

/// The text has the one byte `a`.
pub open spec fn spells1(s: Seq<u8>, a: u8) -> bool {
    s.len() == 1 && s[0] == a
}

/// The text has the five bytes `a` to `e`.
pub open spec fn spells5(s: Seq<u8>, a: u8, b: u8, c: u8, d: u8, e: u8) -> bool {
    s.len() == 5 && s[0] == a && s[1] == b && s[2] == c && s[3] == d && s[4] == e
}

/// The text is one of `w`, `W`, `white`, `WHITE`.
pub open spec fn names_white(s: Seq<u8>) -> bool {
    spells1(s, 0x77) || spells1(s, 0x57) || spells5(s, 0x77, 0x68, 0x69, 0x74, 0x65) || spells5(s, 0x57, 0x48, 0x49, 0x54, 0x45)
}

/// The text is one of `b`, `B`, `black`, `BLACK`.
pub open spec fn names_black(s: Seq<u8>) -> bool {
    spells1(s, 0x62) || spells1(s, 0x42) || spells5(s, 0x62, 0x6c, 0x61, 0x63, 0x6b) || spells5(s, 0x42, 0x4c, 0x41, 0x43, 0x4b)
}

/// The color that the text names.
pub open spec fn stone_of_text(s: Seq<u8>) -> Result<Stone, ParseError> {
    if names_white(s) {
        Ok(Stone::White)
    } else if names_black(s) {
        Ok(Stone::Black)
    } else {
        Err(ParseError::UnknownColor)
    }
}

/// The byte as a lower case letter, if it is an upper case letter.
pub open spec fn lowered(b: u8) -> int {
    if 0x41 <= b <= 0x5a {
        b + 0x20
    } else {
        b as int
    }
}

/// The text is `pass` in upper or lower case letters.
pub open spec fn names_pass(s: Seq<u8>) -> bool {
    s.len() == 4 && lowered(s[0]) == 0x70 && lowered(s[1]) == 0x61 && lowered(s[2]) == 0x73 && lowered(s[3]) == 0x73
}

/// The column that the letter `b` names, or -1: the letters from `A` to
/// `T` without `I`.
pub open spec fn column_of_letter(b: u8) -> int {
    if 0x41 <= b <= 0x48 {
        b - 0x41
    } else if 0x4a <= b <= 0x54 {
        b - 0x42
    } else {
        -1
    }
}

/// The byte is a decimal digit.
pub open spec fn is_digit(b: u8) -> bool {
    0x30 <= b <= 0x39
}

/// The number that one or two bytes spell: one or two digits, or a sign
/// and a digit.
pub open spec fn number_of_text(s: Seq<u8>) -> Option<int> {
    if s.len() == 1 && is_digit(s[0]) {
        Some(s[0] - 0x30)
    } else if s.len() == 2 && is_digit(s[0]) && is_digit(s[1]) {
        Some((s[0] - 0x30) * 10 + (s[1] - 0x30))
    } else if s.len() == 2 && s[0] == 0x2b && is_digit(s[1]) {
        Some(s[1] - 0x30)
    } else if s.len() == 2 && s[0] == 0x2d && is_digit(s[1]) {
        Some(-(s[1] - 0x30))
    } else {
        None
    }
}

/// The index of the vertex that the text names: the pass, or a column
/// letter and a row number that counts from one.
pub open spec fn vertex_of_text(s: Seq<u8>) -> Result<int, ParseError> {
    if names_pass(s) {
        Ok(-1)
    } else if s.len() < 2 || s.len() > 3 {
        Err(ParseError::BadFormat)
    } else if column_of_letter(s[0]) < 0 {
        Err(ParseError::BadColumn)
    } else {
        match number_of_text(s.subrange(1, s.len() as int)) {
            Some(row) => Ok(column_of_letter(s[0]) + 1 + row * 21),
            None => Err(ParseError::BadRow),
        }
    }
}

/// The result with the index of the vertex in place of the vertex.
pub open spec fn index_of_result(r: Result<Vertex, ParseError>) -> Result<int, ParseError> {
    match r {
        Ok(v) => Ok(v.0 as int),
        Err(e) => Err(e),
    }
}

fn lower(b: u8) -> (r: u8)
    ensures
        r == lowered(b),
{
    if 0x41 <= b && b <= 0x5a {
        b + 0x20
    } else {
        b
    }
}

fn digit_value(b: u8) -> (r: Option<i16>)
    ensures
        r.is_some() == is_digit(b),
        r.is_some() ==> r.unwrap() == b - 0x30,
{
    if 0x30 <= b && b <= 0x39 {
        Some((b - 0x30) as i16)
    } else {
        None
    }
}

impl Stone {
    /// The color that the text names: `b`, `B`, `black` or `BLACK` for
    /// Black, `w`, `W`, `white` or `WHITE` for White.
    pub fn from_str(s: &str) -> (r: Result<Stone, ParseError>)
        ensures
            r == stone_of_text(s.spec_bytes()),
    {
        let b = s.as_bytes();
        let n = b.len();
        if n == 1 {
            if b[0] == 0x77 || b[0] == 0x57 {
                return Ok(Stone::White);
            }
            if b[0] == 0x62 || b[0] == 0x42 {
                return Ok(Stone::Black);
            }
        } else if n == 5 {
            if (b[0] == 0x77 && b[1] == 0x68 && b[2] == 0x69 && b[3] == 0x74 && b[4] == 0x65) || (b[0] == 0x57 && b[1] == 0x48 && b[2] == 0x49 && b[3]
                == 0x54 && b[4] == 0x45) {
                return Ok(Stone::White);
            }
            if (b[0] == 0x62 && b[1] == 0x6c && b[2] == 0x61 && b[3] == 0x63 && b[4] == 0x6b) || (b[0] == 0x42 && b[1] == 0x4c && b[2] == 0x41 && b[3]
                == 0x43 && b[4] == 0x4b) {
                return Ok(Stone::Black);
            }
        }
        Err(ParseError::UnknownColor)
    }

    /// The name of the stone.
    pub open spec fn spec_name(self) -> Seq<char> {
        match self {
            Stone::Empty => "empty"@,
            Stone::Black => "black"@,
            Stone::White => "white"@,
            Stone::Border => "border"@,
        }
    }

    /// The name of the stone in lower case letters.
    pub fn name(self) -> (r: String)
        ensures
            r@ == self.spec_name(),
    {
        match self {
            Stone::Empty => "empty".to_owned(),
            Stone::Black => "black".to_owned(),
            Stone::White => "white".to_owned(),
            Stone::Border => "border".to_owned(),
        }
    }
}

/// The letter of the column `x` of the virtual board, from -1 to 19.
pub open spec fn column_label(x: int) -> Seq<char> {
    if x == -1 {
        "a"@
    } else if x == 0 {
        "A"@
    } else if x == 1 {
        "B"@
    } else if x == 2 {
        "C"@
    } else if x == 3 {
        "D"@
    } else if x == 4 {
        "E"@
    } else if x == 5 {
        "F"@
    } else if x == 6 {
        "G"@
    } else if x == 7 {
        "H"@
    } else if x == 8 {
        "J"@
    } else if x == 9 {
        "K"@
    } else if x == 10 {
        "L"@
    } else if x == 11 {
        "M"@
    } else if x == 12 {
        "N"@
    } else if x == 13 {
        "O"@
    } else if x == 14 {
        "P"@
    } else if x == 15 {
        "Q"@
    } else if x == 16 {
        "R"@
    } else if x == 17 {
        "S"@
    } else if x == 18 {
        "T"@
    } else {
        "u"@
    }
}

/// The decimal digit `d`.
pub open spec fn digit_label(d: int) -> Seq<char> {
    if d == 0 {
        "0"@
    } else if d == 1 {
        "1"@
    } else if d == 2 {
        "2"@
    } else if d == 3 {
        "3"@
    } else if d == 4 {
        "4"@
    } else if d == 5 {
        "5"@
    } else if d == 6 {
        "6"@
    } else if d == 7 {
        "7"@
    } else if d == 8 {
        "8"@
    } else {
        "9"@
    }
}

/// The number `n` in decimal digits.
pub open spec fn decimal(n: int) -> Seq<char>
    decreases n,
{
    if n < 10 {
        digit_label(n)
    } else {
        decimal(n / 10) + digit_label(n % 10)
    }
}

fn column_text(x: i16) -> (r: &'static str)
    ensures
        r@ == column_label(x as int),
{
    if x == -1 {
        "a"
    } else if x == 0 {
        "A"
    } else if x == 1 {
        "B"
    } else if x == 2 {
        "C"
    } else if x == 3 {
        "D"
    } else if x == 4 {
        "E"
    } else if x == 5 {
        "F"
    } else if x == 6 {
        "G"
    } else if x == 7 {
        "H"
    } else if x == 8 {
        "J"
    } else if x == 9 {
        "K"
    } else if x == 10 {
        "L"
    } else if x == 11 {
        "M"
    } else if x == 12 {
        "N"
    } else if x == 13 {
        "O"
    } else if x == 14 {
        "P"
    } else if x == 15 {
        "Q"
    } else if x == 16 {
        "R"
    } else if x == 17 {
        "S"
    } else if x == 18 {
        "T"
    } else {
        "u"
    }
}

fn digit_text(d: u16) -> (r: &'static str)
    requires
        d < 10,
    ensures
        r@ == digit_label(d as int),
{
    if d == 0 {
        "0"
    } else if d == 1 {
        "1"
    } else if d == 2 {
        "2"
    } else if d == 3 {
        "3"
    } else if d == 4 {
        "4"
    } else if d == 5 {
        "5"
    } else if d == 6 {
        "6"
    } else if d == 7 {
        "7"
    } else if d == 8 {
        "8"
    } else {
        "9"
    }
}

/// The number `n` in decimal digits.
pub fn decimal_text(n: u16) -> (r: String)
    ensures
        r@ == decimal(n as int),
    decreases n,
{
    if n < 10 {
        digit_text(n).to_owned()
    } else {
        let mut r = decimal_text(n / 10);
        r.append(digit_text(n % 10));
        r
    }
}

impl Vertex {
    /// The vertex that the text names: `pass` in any case for the pass,
    /// else a column letter from `A` to `T` without `I` and a row number
    /// that counts from one.
    pub fn from_str(s: &str) -> (r: Result<Vertex, ParseError>)
        ensures
            index_of_result(r) == vertex_of_text(s.spec_bytes()),
    {
        let b = s.as_bytes();
        let n = b.len();
        if n == 4 && lower(b[0]) == 0x70 && lower(b[1]) == 0x61 && lower(b[2]) == 0x73 && lower(b[3]) == 0x73 {
            return Ok(Vertex::pass());
        }
        if n < 2 || n > 3 {
            return Err(ParseError::BadFormat);
        }
        let letter = b[0];
        let col: i16 = if 0x41 <= letter && letter <= 0x48 {
            (letter - 0x41) as i16
        } else if 0x4a <= letter && letter <= 0x54 {
            (letter - 0x42) as i16
        } else {
            return Err(ParseError::BadColumn);
        };
        let ghost rest = s.spec_bytes().subrange(1, n as int);
        assert(rest.len() == n - 1);
        assert(rest[0] == b@[1]);
        let row: i16 = if n == 2 {
            match digit_value(b[1]) {
                Some(d) => d,
                None => {
                    return Err(ParseError::BadRow);
                },
            }
        } else {
            assert(rest[1] == b@[2]);
            match digit_value(b[2]) {
                Some(d) => {
                    match digit_value(b[1]) {
                        Some(tens) => tens * 10 + d,
                        None => {
                            if b[1] == 0x2b {
                                d
                            } else if b[1] == 0x2d {
                                -d
                            } else {
                                return Err(ParseError::BadRow);
                            }
                        },
                    }
                },
                None => {
                    return Err(ParseError::BadRow);
                },
            }
        };
        Ok(Vertex::new(col, row - 1))
    }

    /// The text of the vertex: `PASS`, or the letter of its column and the
    /// number of its row, counted from one.
    pub open spec fn spec_label(self) -> Seq<char> {
        if self.0 == -1 {
            "PASS"@
        } else {
            column_label(col_of(self.0 as int)) + decimal(row_of(self.0 as int) + 1)
        }
    }

    /// The vertex as text.
    pub fn label(self) -> (r: String)
        requires
            self.0 >= -1,
        ensures
            r@ == self.spec_label(),
    {
        if self.0 == -1 {
            return "PASS".to_owned();
        }
        let (x, y) = self.to_coords();
        let mut r = column_text(x).to_owned();
        let row = decimal_text((y + 1) as u16);
        r.append(row.as_str());
        r
    }
}

} // verus!
