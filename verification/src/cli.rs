//! What the command line says: the byte budget and the name of the output.
use vstd::prelude::*;
use vstd::string::StrSliceExecFns;
use vstd::string::StringExecFns;
use vstd::string::StringSliceAdditionalSpecFns;

use crate::ascii;

verus! {

/// Why an output size cannot be used.
#[derive(Clone, Copy, Debug, PartialEq, Eq, Structural)]
pub enum SizeError {
    /// No size is given.
    Missing,
    /// The size is shorter than a digit and a unit.
    InvalidLength,
    /// The size ends with no unit that is known.
    InvalidFormat,
    /// What stands before the unit is no number, or the size does not fit
    /// the machine.
    InvalidNumber,
}

impl SizeError {
    /// The text that reports this error.
    pub open spec fn message(self) -> Seq<char> {
        match self {
            SizeError::Missing => "output-size is required"@,
            SizeError::InvalidLength => "output-size has invalid length."@,
            SizeError::InvalidFormat => "output-size has invalid format. choose from kb, mb or gb."@,
            SizeError::InvalidNumber => "unable to parse number output-size number"@,
        }
    }

    /// The text that reports this error.
    pub fn text(self) -> (text: &'static str)
        ensures
            text@ == self.message(),
    {
        match self {
            SizeError::Missing => "output-size is required",
            SizeError::InvalidLength => "output-size has invalid length.",
            SizeError::InvalidFormat => "output-size has invalid format. choose from kb, mb or gb.",
            SizeError::InvalidNumber => "unable to parse number output-size number",
        }
    }
}

/// `+`
pub const PLUS: u8 = 43;

/// `0`
pub const ZERO: u8 = 48;

/// `b`
pub const LOWER_B: u8 = 98;

/// `g`
pub const LOWER_G: u8 = 103;

/// `k`
pub const LOWER_K: u8 = 107;

/// `m`
pub const LOWER_M: u8 = 109;

/// The number of bytes that a unit of size stands for.
pub open spec fn unit_bytes(unit: Seq<u8>) -> Option<nat> {
    if unit == seq![LOWER_K, LOWER_B] {
        Some(1024nat)
    } else if unit == seq![LOWER_M, LOWER_B] {
        Some(1024nat * 1024)
    } else if unit == seq![LOWER_G, LOWER_B] {
        Some(1024nat * 1024 * 1024)
    } else {
        None
    }
}

/// The number that decimal `digits` write.
pub open spec fn decimal(digits: Seq<u8>) -> nat
    decreases digits.len(),
{
    if digits.len() == 0 {
        0
    } else {
        decimal(digits.drop_last()) * 10 + (digits.last() - ZERO) as nat
    }
}

/// The digits of a number that may have a `+` before it.
pub open spec fn unsigned(number: Seq<u8>) -> Seq<u8> {
    if number.len() > 0 && number[0] == PLUS {
        number.skip(1)
    } else {
        number
    }
}

/// Whether `number` is one or more decimal digits, with or without a `+`
/// before them.
pub open spec fn is_number(number: Seq<u8>) -> bool {
    let digits = unsigned(number);
    digits.len() > 0 && forall|i: int| 0 <= i < digits.len() ==> ascii::is_digit(#[trigger] digits[i])
}

/// The byte budget that `size` asks for: a number and behind it one of the
/// units `kb`, `mb` and `gb`, which count 1024 bytes, 1024 times that and 1024
/// times that again.
pub open spec fn output_size(size: Option<Seq<u8>>) -> Result<nat, SizeError> {
    match size {
        None => Err(SizeError::Missing),
        Some(val) => if val.len() < 3 {
            Err(SizeError::InvalidLength)
        } else {
            let number = val.take(val.len() - 2);
            match unit_bytes(val.skip(val.len() - 2)) {
                None => Err(SizeError::InvalidFormat),
                Some(unit) => if is_number(number) && unit * decimal(unsigned(number))
                    <= usize::MAX {
                    Ok(unit * decimal(unsigned(number)))
                } else {
                    Err(SizeError::InvalidNumber)
                },
            }
        },
    }
}

/// The number that the bytes of `digits` from `from` up to `to` write, where
/// they are digits and the number fits the machine.
fn parse_number(digits: &[u8], from: usize, to: usize) -> (r: Option<usize>)
    requires
        from <= to <= digits@.len(),
    ensures
        ({
            let span = digits@.subrange(from as int, to as int);
            match r {
                Some(n) => n == decimal(span) && span.len() > 0 && forall|i: int|
                    0 <= i < span.len() ==> ascii::is_digit(#[trigger] span[i]),
                None => span.len() == 0 || decimal(span) > usize::MAX || exists|i: int|
                    0 <= i < span.len() && !ascii::is_digit(#[trigger] span[i]),
            }
        }),
{
    let ghost span = digits@.subrange(from as int, to as int);
    if from == to {
        return None;
    }
    let mut value: usize = 0;
    let mut i: usize = from;
    assert(span.take(0) =~= Seq::<u8>::empty());
    while i < to
        invariant
            from <= i <= to <= digits@.len(),
            span == digits@.subrange(from as int, to as int),
            value == decimal(span.take(i - from)),
            forall|j: int| 0 <= j < i - from ==> ascii::is_digit(#[trigger] span[j]),
        decreases to - i,
    {
        let byte = digits[i];
        if !ascii::numeric(byte) {
            assert(!ascii::is_digit(span[i - from]));
            return None;
        }
        let ghost more = span.take(i - from + 1);
        proof {
            assert(more.drop_last() =~= span.take(i - from));
            assert(more.last() == byte);
            lemma_decimal_grows(span, i - from + 1);
        }
        let digit = (byte - ZERO) as usize;
        value = match value.checked_mul(10) {
            Some(tens) => match tens.checked_add(digit) {
                Some(sum) => sum,
                None => {
                    return None;
                },
            },
            None => {
                return None;
            },
        };
        i += 1;
    }
    assert(span.take(span.len() as int) =~= span);
    Some(value)
}

/// The number that the first digits of `digits` write is no greater than
/// the number that all of them write.
proof fn lemma_decimal_grows(digits: Seq<u8>, n: int)
    requires
        0 <= n <= digits.len(),
        forall|i: int| 0 <= i < digits.len() && i < n ==> ascii::is_digit(#[trigger] digits[i]),
    ensures
        decimal(digits.take(n)) <= decimal(digits) || exists|i: int|
            0 <= i < digits.len() && !ascii::is_digit(#[trigger] digits[i]),
    decreases digits.len() - n,
{
    if n < digits.len() {
        if ascii::is_digit(digits[n]) {
            lemma_decimal_grows(digits, n + 1);
            assert(digits.take(n + 1).drop_last() =~= digits.take(n));
        }
    } else {
        assert(digits.take(n) =~= digits);
    }
}

/// Reads the byte budget that the command line asks for.
pub fn get_output_size(input: Option<&str>) -> (r: Result<usize, SizeError>)
    ensures
        match output_size(
            match input {
                Some(val) => Some(val.spec_bytes()),
                None => None,
            },
        ) {
            Ok(size) => r == Ok::<usize, SizeError>(size as usize) && size <= usize::MAX,
            Err(e) => r == Err::<usize, SizeError>(e),
        },
{
    let val = match input {
        Some(val) => val.as_bytes(),
        None => {
            return Err(SizeError::Missing);
        },
    };
    if val.len() < 3 {
        return Err(SizeError::InvalidLength);
    }
    let at = val.len() - 2;
    let ghost unit = val@.skip(at as int);
    let ghost number = val@.take(at as int);
    assert(unit =~= seq![val@[at as int], val@[at + 1]]);
    let offset: usize = if val[at + 1] != LOWER_B {
        0
    } else if val[at] == LOWER_K {
        1024
    } else if val[at] == LOWER_M {
        1024 * 1024
    } else if val[at] == LOWER_G {
        1024 * 1024 * 1024
    } else {
        0
    };
    if offset == 0 {
        assert(unit_bytes(unit) is None) by {
            assert(seq![LOWER_K, LOWER_B][0] == LOWER_K && seq![LOWER_K, LOWER_B][1] == LOWER_B);
            assert(seq![LOWER_M, LOWER_B][0] == LOWER_M && seq![LOWER_M, LOWER_B][1] == LOWER_B);
            assert(seq![LOWER_G, LOWER_B][0] == LOWER_G && seq![LOWER_G, LOWER_B][1] == LOWER_B);
        }
        return Err(SizeError::InvalidFormat);
    }
    assert(unit_bytes(unit) == Some(offset as nat));
    let from: usize = if val[0] == PLUS {
        1
    } else {
        0
    };
    let ghost digits = unsigned(number);
    proof {
        assert(val@.subrange(from as int, at as int) =~= digits);
    }
    match parse_number(val, from, at) {
        Some(n) => {
            match offset.checked_mul(n) {
                Some(size) => Ok(size),
                None => Err(SizeError::InvalidNumber),
            }
        },
        None => {
            proof {
                if decimal(digits) > usize::MAX {
                    assert(offset * decimal(digits) > usize::MAX) by (nonlinear_arith)
                        requires
                            offset >= 1,
                            decimal(digits) > usize::MAX,
                    ;
                }
            }
            Err(SizeError::InvalidNumber)
        },
    }
}

/// The characters of `name`, with `_` in place of each space.
pub open spec fn underscored(name: Seq<char>) -> Seq<char> {
    Seq::new(
        name.len(),
        |i: int|
            if name[i] == ' ' {
                '_'
            } else {
                name[i]
            },
    )
}

/// The number of characters of `name` before its first `.`, or the number
/// of all of them where it has none.
pub open spec fn stem_len(name: Seq<char>) -> int
    decreases name.len(),
{
    if name.len() == 0 || name[0] == '.' {
        0
    } else {
        1 + stem_len(name.skip(1))
    }
}

/// The name of the output for a dump in the file `name`: what stands before
/// the first `.`, with `_` in place of each space.
pub open spec fn dir_name(name: Seq<char>) -> Seq<char> {
    underscored(name.take(stem_len(name)))
}

/// The stem of a name ends at its first `.`, or with the name.
proof fn lemma_stem_found(name: Seq<char>, n: int)
    requires
        0 <= n <= name.len(),
        forall|i: int| 0 <= i < n ==> name[i] != '.',
        n < name.len() ==> name[n] == '.',
    ensures
        stem_len(name) == n,
    decreases name.len(),
{
    if n > 0 {
        assert forall|i: int| 0 <= i < n - 1 implies name.skip(1)[i] != '.' by {
            assert(name.skip(1)[i] == name[i + 1]);
        }
        lemma_stem_found(name.skip(1), n - 1);
    }
}

/// Names the output after the file of the dump.
pub fn get_dir_name(name: &str) -> (dir: String)
    ensures
        dir@ == dir_name(name@),
{
    let len = name.unicode_len();
    let mut dir = String::new();
    let mut i: usize = 0;
    proof {
        reveal_strlit("_");
        assert(underscored(name@.take(0)) =~= Seq::<char>::empty());
    }
    while i < len
        invariant
            i <= len,
            len == name@.len(),
            "_"@ == seq!['_'],
            dir@ == underscored(name@.take(i as int)),
            forall|j: int| 0 <= j < i ==> name@[j] != '.',
        ensures
            i <= len,
            dir@ == underscored(name@.take(i as int)),
            forall|j: int| 0 <= j < i ==> name@[j] != '.',
            i < len ==> name@[i as int] == '.',
        decreases len - i,
    {
        let c = name.get_char(i);
        if c == '.' {
            break ;
        }
        if c == ' ' {
            dir.append("_");
        } else {
            dir.append(name.substring_char(i, i + 1));
        }
        proof {
            assert(dir@ =~= underscored(name@.take(i + 1)));
        }
        i += 1;
    }
    proof {
        lemma_stem_found(name@, i as int);
    }
    dir
}

} // verus!
