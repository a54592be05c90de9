//! One grid cell: a set of still-possible digits, held as a bitset.
//!
//! Bit `d` of the mask is set exactly when digit `d` (1 through 9) is still a
//! candidate for the cell. A cell is *final* when exactly one candidate
//! remains; a well-formed cell is never empty.

use vstd::prelude::*;

verus! {

/// Why a digit or a textual grid is rejected.
#[derive(Clone, Copy, Debug, PartialEq, Eq, Structural)]
pub enum Error {
    /// A digit lies outside 1 through 9 (`'0'` among them).
    ValueOutOfRange,
    /// A character that is neither a digit nor a space stood where a cell was
    /// expected.
    ParseFailure,
}

/// The mask with bit `d` set for every digit `d` in 1 through 9.
pub const ALL_DIGITS: u16 = 0x3FE;

/// A cell's candidate set: bit `d` (1 through 9) is set while digit `d` is
/// still possible for the cell.
#[derive(Clone, Copy, Debug, PartialEq, Eq, Structural)]
pub struct Value {
    mask: u16,
}

impl Value {
    /// Well-formed: only digit bits 1 through 9, and never empty.
    pub closed spec fn wf(self) -> bool {
        self.mask != 0 && self.mask & ALL_DIGITS == self.mask
    }

    /// Digit `d` is still a candidate.
    pub closed spec fn has(self, d: u16) -> bool {
        (self.mask >> d) & 1u16 == 1u16
    }

    /// Exactly one candidate remains.
    pub closed spec fn is_final_spec(self) -> bool {
        exists|d: u16| 1 <= d <= 9 && self.mask == (1u16 << d)
    }

    /// The single remaining digit of a final cell; 0 for a cell that is not
    /// final.
    pub closed spec fn value_spec(self) -> u16 {
        if self.is_final_spec() {
            choose|d: u16| 1 <= d <= 9 && self.mask == (1u16 << d)
        } else {
            0
        }
    }

    /// The cell that still allows every digit.
    pub closed spec fn unknown() -> Value {
        Value { mask: ALL_DIGITS }
    }

    /// The cell forced to the single digit `d`.
    pub closed spec fn singleton(d: u16) -> Value {
        Value { mask: 1u16 << d }
    }
}

/// The unknown cell allows every digit and is not final.
pub proof fn lemma_unknown()
    ensures
        Value::unknown().wf(),
        !Value::unknown().is_final_spec(),
        Value::unknown().value_spec() == 0,
        forall|d: u16| 1 <= d <= 9 ==> Value::unknown().has(d),
{
    assert(0x3FEu16 != 0 && 0x3FEu16 & 0x3FEu16 == 0x3FEu16) by (bit_vector);
    assert(forall|d: u16| 1 <= d <= 9 ==> 0x3FEu16 != (1u16 << d)) by (bit_vector);
    assert(forall|d: u16| 1 <= d <= 9 ==> (0x3FEu16 >> d) & 1u16 == 1u16) by (bit_vector);
}

/// A singleton cell is final, carries exactly its one digit, and admits no
/// other candidate.
pub proof fn lemma_singleton(d: u16)
    requires
        1 <= d <= 9,
    ensures
        Value::singleton(d).wf(),
        Value::singleton(d).is_final_spec(),
        Value::singleton(d).value_spec() == d,
        forall|e: u16| 1 <= e <= 9 ==> (Value::singleton(d).has(e) <==> e == d),
{
    let s = Value::singleton(d);
    assert(s.mask == (1u16 << d));
    assert((1u16 << d) != 0 && (1u16 << d) & 0x3FEu16 == (1u16 << d)) by (bit_vector)
        requires
            1 <= d <= 9,
    ;
    assert(forall|e: u16| 1 <= e <= 9 ==> (((1u16 << d) >> e) & 1u16 == 1u16 <==> e == d))
        by (bit_vector)
        requires
            1 <= d <= 9,
    ;
    assert(s.is_final_spec());
    let c = s.value_spec();
    assert(1 <= c <= 9 && s.mask == (1u16 << c));
    assert((1u16 << d) == (1u16 << c) ==> c == d) by (bit_vector)
        requires
            1 <= d <= 9 && 1 <= c <= 9,
    ;
}

/// A final cell is the singleton of its digit, which lies in 1 through 9.
pub proof fn lemma_final_is_singleton(v: Value)
    requires
        v.is_final_spec(),
    ensures
        1 <= v.value_spec() <= 9,
        v == Value::singleton(v.value_spec()),
{
    let d = v.value_spec();
    assert(1 <= d <= 9 && v.mask == (1u16 << d));
    assert(v == Value::singleton(d));
}

/// Finality coincides with the power-of-two test on the mask.
proof fn lemma_final_iff_power(m: u16)
    requires
        m != 0,
        m & ALL_DIGITS == m,
    ensures
        (exists|d: u16| 1 <= d <= 9 && m == (1u16 << d)) <==> (m & ((m - 1) as u16) == 0),
{
    assert((m & ((m - 1) as u16) == 0) <==> (m == 2 || m == 4 || m == 8 || m == 16 || m == 32
        || m == 64 || m == 128 || m == 256 || m == 512)) by (bit_vector)
        requires
            m != 0 && m & 0x3FEu16 == m,
    ;
    assert((1u16 << 1u16) == 2 && (1u16 << 2u16) == 4 && (1u16 << 3u16) == 8 && (1u16 << 4u16)
        == 16 && (1u16 << 5u16) == 32 && (1u16 << 6u16) == 64 && (1u16 << 7u16) == 128 && (1u16
        << 8u16) == 256 && (1u16 << 9u16) == 512) by (bit_vector);
    assert(forall|d: u16| 1 <= d <= 9 ==> ((1u16 << d) == 2 || (1u16 << d) == 4 || (1u16 << d)
        == 8 || (1u16 << d) == 16 || (1u16 << d) == 32 || (1u16 << d) == 64 || (1u16 << d) == 128
        || (1u16 << d) == 256 || (1u16 << d) == 512)) by (bit_vector);
}

impl Value {
    /// Builds a cell from a plain digit: 0 gives the unknown cell (every
    /// digit open), 1 through 9 give the cell forced to that digit, and
    /// anything larger is out of range.
    pub fn new(value: u8) -> (r: Result<Self, Error>)
        ensures
            value == 0 ==> r == Ok::<Value, Error>(Value::unknown()),
            1 <= value <= 9 ==> r == Ok::<Value, Error>(Value::singleton(value as u16)),
            value > 9 ==> r == Err::<Value, Error>(Error::ValueOutOfRange),
    {
        if value > 9 {
            Err(Error::ValueOutOfRange)
        } else if value == 0 {
            Ok(Value { mask: ALL_DIGITS })
        } else {
            Ok(Value { mask: 1u16 << (value as u16) })
        }
    }

    /// True exactly when one candidate remains, by the power-of-two test on
    /// the mask.
    pub fn is_final(&self) -> (r: bool)
        requires
            self.wf(),
        ensures
            r == self.is_final_spec(),
    {
        proof {
            lemma_final_iff_power(self.mask);
        }
        self.mask & (self.mask - 1) == 0
    }

    /// The single digit of a final cell; 0 when the cell is still open.
    pub fn value(self) -> (r: u8)
        requires
            self.wf(),
        ensures
            r == self.value_spec(),
            self.is_final_spec() ==> 1 <= r <= 9,
            !self.is_final_spec() ==> r == 0,
    {
        proof {
            let m = self.mask;
            lemma_final_iff_power(m);
            if self.is_final_spec() {
                lemma_final_is_singleton(self);
                let d = self.value_spec();
                assert((m == 2 ==> d == 1) && (m == 4 ==> d == 2) && (m == 8 ==> d == 3)
                    && (m == 16 ==> d == 4) && (m == 32 ==> d == 5) && (m == 64 ==> d == 6)
                    && (m == 128 ==> d == 7) && (m == 256 ==> d == 8) && (m == 512 ==> d == 9)
                    && (m == 2 || m == 4 || m == 8 || m == 16 || m == 32 || m == 64 || m == 128
                        || m == 256 || m == 512)) by (bit_vector)
                    requires
                        1 <= d <= 9 && m == (1u16 << d),
                ;
            }
        }
        if self.mask & (self.mask - 1) != 0 {
            0
        } else if self.mask == 2 {
            1
        } else if self.mask == 4 {
            2
        } else if self.mask == 8 {
            3
        } else if self.mask == 16 {
            4
        } else if self.mask == 32 {
            5
        } else if self.mask == 64 {
            6
        } else if self.mask == 128 {
            7
        } else if self.mask == 256 {
            8
        } else {
            9
        }
    }

    /// Membership test: is digit `value` still a candidate?
    pub fn contains(&self, value: u8) -> (r: bool)
        requires
            self.wf(),
            1 <= value <= 9,
        ensures
            r == self.has(value as u16),
    {
        (self.mask >> (value as u16)) & 1 == 1
    }

    /// Forces the cell to the single digit `value`, whatever it held before.
    pub fn set(&mut self, value: u8)
        requires
            1 <= value <= 9,
        ensures
            *final(self) == Value::singleton(value as u16),
            final(self).wf(),
            final(self).is_final_spec(),
            final(self).value_spec() == value,
            forall|d: u16| 1 <= d <= 9 ==> (final(self).has(d) <==> d == value),
    {
        proof {
            lemma_singleton(value as u16);
        }
        self.mask = 1u16 << (value as u16);
    }

    /// Eliminates digit `value` from the candidate set. A final cell is left
    /// untouched, so a forced digit can never be corrupted by elimination.
    pub fn remove(&mut self, value: u8)
        requires
            old(self).wf(),
            1 <= value <= 9,
        ensures
            final(self).wf(),
            old(self).is_final_spec() ==> *final(self) == *old(self),
            !old(self).is_final_spec() ==> forall|d: u16|
                1 <= d <= 9 ==> (final(self).has(d) <==> old(self).has(d) && d != value),
            !old(self).is_final_spec() ==> !final(self).has(value as u16),
    {
        proof {
            lemma_final_iff_power(self.mask);
        }
        if self.mask & (self.mask - 1) != 0 {
            let ghost m = self.mask;
            self.mask = self.mask & !(1u16 << (value as u16));
            proof {
                let mm = self.mask;
                assert(mm != 0 && mm & 0x3FEu16 == mm && forall|d: u16|
                    1 <= d <= 9 ==> (((mm >> d) & 1u16 == 1u16) <==> (((m >> d) & 1u16 == 1u16)
                        && d != value))) by (bit_vector)
                    requires
                        m != 0,
                        m & 0x3FEu16 == m,
                        m & ((m - 1) as u16) != 0,
                        1 <= value <= 9,
                        mm == m & !(1u16 << (value as u16)),
                ;
            }
        }
    }
}

/// The digit a grid character denotes; 0 when it is not a digit 1 through 9.
pub open spec fn char_digit(c: char) -> u8 {
    if c == '1' {
        1
    } else if c == '2' {
        2
    } else if c == '3' {
        3
    } else if c == '4' {
        4
    } else if c == '5' {
        5
    } else if c == '6' {
        6
    } else if c == '7' {
        7
    } else if c == '8' {
        8
    } else if c == '9' {
        9
    } else {
        0
    }
}

/// The character a cell shows in the textual grid: its digit when final, a
/// space while it is still open.
pub open spec fn display_char(v: Value) -> char {
    if v.is_final_spec() {
        if v.value_spec() == 1 {
            '1'
        } else if v.value_spec() == 2 {
            '2'
        } else if v.value_spec() == 3 {
            '3'
        } else if v.value_spec() == 4 {
            '4'
        } else if v.value_spec() == 5 {
            '5'
        } else if v.value_spec() == 6 {
            '6'
        } else if v.value_spec() == 7 {
            '7'
        } else if v.value_spec() == 8 {
            '8'
        } else {
            '9'
        }
    } else {
        ' '
    }
}

impl Value {
    /// Reads one grid character: a space gives the unknown cell, a digit 1
    /// through 9 gives the cell forced to it, `'0'` is out of range, and any
    /// other character cannot be read as a cell.
    pub fn from_char(c: char) -> (r: Result<Value, Error>)
        ensures
            c == ' ' ==> r == Ok::<Value, Error>(Value::unknown()),
            char_digit(c) != 0 ==> r == Ok::<Value, Error>(Value::singleton(char_digit(c) as u16)),
            c == '0' ==> r == Err::<Value, Error>(Error::ValueOutOfRange),
            c != ' ' && c != '0' && char_digit(c) == 0 ==> r == Err::<Value, Error>(
                Error::ParseFailure,
            ),
    {
        if c == ' ' {
            return Value::new(0);
        }
        let d: u8 = match c {
            '1' => 1,
            '2' => 2,
            '3' => 3,
            '4' => 4,
            '5' => 5,
            '6' => 6,
            '7' => 7,
            '8' => 8,
            '9' => 9,
            '0' => {
                return Err(Error::ValueOutOfRange);
            },
            _ => {
                return Err(Error::ParseFailure);
            },
        };
        Value::new(d)
    }

    /// The one-character text of the cell: its digit when final, a space
    /// while it is still open.
    pub fn as_str(&self) -> (s: &'static str)
        requires
            self.wf(),
        ensures
            s@.len() == 1,
            s@[0] == display_char(*self),
    {
        proof {
            reveal_strlit(" ");
            reveal_strlit("1");
            reveal_strlit("2");
            reveal_strlit("3");
            reveal_strlit("4");
            reveal_strlit("5");
            reveal_strlit("6");
            reveal_strlit("7");
            reveal_strlit("8");
            reveal_strlit("9");
        }
        let d = self.value();
        match d {
            0 => " ",
            1 => "1",
            2 => "2",
            3 => "3",
            4 => "4",
            5 => "5",
            6 => "6",
            7 => "7",
            8 => "8",
            _ => "9",
        }
    }
}

impl Default for Value {
    /// A fresh cell allows every digit.
    fn default() -> (r: Self)
        ensures
            r == Value::unknown(),
    {
        Value { mask: ALL_DIGITS }
    }
}

} // verus!
