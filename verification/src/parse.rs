//! Classification of instruction lines.
//!
//! A line is either a mask line, `mask = ` followed by exactly 36 characters
//! from `{X, 1, 0}`, or a memory line, `mem[<address>] = <value>` with both
//! numbers in decimal.  Anything else is malformed.  A number whose decimal
//! value does not fit in 64 bits cannot be represented and makes its line
//! malformed as well.

use vstd::prelude::*;
use vstd::string::StrSliceExecFns;

use crate::mask::MaskBit;
use crate::mask::MaskPattern;

verus! {

/// One parsed instruction line.
pub enum Instruction {
    /// `mask = <pattern>`: install a new mask.
    Mask(MaskPattern),
    /// `mem[<address>] = <value>`: write `value` at `address`.
    Write { address: u64, value: u64 },
}

/// The mathematical form of an instruction.
pub enum LineInstr {
    Mask(Seq<MaskBit>),
    Write { address: u64, value: u64 },
}

impl View for Instruction {
    type V = LineInstr;

    open spec fn view(&self) -> LineInstr {
        match self {
            Instruction::Mask(p) => LineInstr::Mask(p@),
            Instruction::Write { address, value } => LineInstr::Write {
                address: *address,
                value: *value,
            },
        }
    }
}

/// A decimal digit.
pub open spec fn is_digit(c: char) -> bool {
    48 <= c as u32 <= 57
}

/// The value of one decimal digit.
pub open spec fn digit_val(c: char) -> int {
    c as u32 - 48
}

/// The decimal value of a digit string, leftmost digit most significant.
pub open spec fn digits_val(s: Seq<char>) -> int
    decreases s.len(),
{
    if s.len() == 0 {
        0
    } else {
        digits_val(s.drop_last()) * 10 + digit_val(s.last())
    }
}

/// Every character is a decimal digit.
pub open spec fn all_digits(s: Seq<char>) -> bool {
    forall|i: int| 0 <= i < s.len() ==> is_digit(s[i])
}

/// The index just past the maximal digit run starting at `i`.
pub open spec fn digit_run_end(s: Seq<char>, i: int) -> int
    decreases s.len() - i,
{
    if i < 0 || i >= s.len() {
        i
    } else if !is_digit(s[i]) {
        i
    } else {
        digit_run_end(s, i + 1)
    }
}

/// A mask pattern character.
pub open spec fn is_mask_char(c: char) -> bool {
    c == 'X' || c == '1' || c == '0'
}

/// The mask symbol a pattern character stands for (meaningful only for
/// characters from `{X, 1, 0}`).
pub open spec fn char_mask_bit(c: char) -> MaskBit {
    if c == '1' {
        MaskBit::One
    } else if c == '0' {
        MaskBit::Zero
    } else {
        MaskBit::Floating
    }
}

/// The line starts with `mask = `.
pub open spec fn has_mask_prefix(s: Seq<char>) -> bool {
    s.len() >= 7 && s[0] == 'm' && s[1] == 'a' && s[2] == 's' && s[3] == 'k' && s[4] == ' '
        && s[5] == '=' && s[6] == ' '
}

/// A well-formed mask line: `mask = ` and exactly 36 pattern characters.
pub open spec fn is_mask_line(s: Seq<char>) -> bool {
    s.len() == 43 && has_mask_prefix(s) && (forall|i: int| 7 <= i < 43 ==> is_mask_char(s[i]))
}

/// The 36 mask symbols of a mask line, leftmost first.
pub open spec fn mask_bits(s: Seq<char>) -> Seq<MaskBit> {
    Seq::new(36, |i: int| char_mask_bit(s[7 + i]))
}

/// The line starts with `mem[`.
pub open spec fn has_mem_prefix(s: Seq<char>) -> bool {
    s.len() >= 4 && s[0] == 'm' && s[1] == 'e' && s[2] == 'm' && s[3] == '['
}

/// The index just past the address digits of a memory line.
pub open spec fn addr_end(s: Seq<char>) -> int {
    digit_run_end(s, 4)
}

/// The shape of a memory line: `mem[`, at least one address digit, `] = `,
/// and at least one value digit running to the end of the line.
pub open spec fn is_mem_line_shape(s: Seq<char>) -> bool {
    has_mem_prefix(s) && addr_end(s) > 4 && addr_end(s) + 4 < s.len() && s[addr_end(s)] == ']'
        && s[addr_end(s) + 1] == ' ' && s[addr_end(s) + 2] == '=' && s[addr_end(s) + 3] == ' '
        && all_digits(s.subrange(addr_end(s) + 4, s.len() as int))
}

/// The decimal value of the address field.
pub open spec fn mem_addr_val(s: Seq<char>) -> int {
    digits_val(s.subrange(4, addr_end(s)))
}

/// The decimal value of the value field.
pub open spec fn mem_value_val(s: Seq<char>) -> int {
    digits_val(s.subrange(addr_end(s) + 4, s.len() as int))
}

/// A well-formed memory line: the right shape, with both numbers
/// representable in 64 bits.
pub open spec fn is_mem_line(s: Seq<char>) -> bool {
    is_mem_line_shape(s) && mem_addr_val(s) <= u64::MAX && mem_value_val(s) <= u64::MAX
}

/// What a line of input means: a mask instruction, a write instruction, or
/// nothing (the line is malformed).
pub open spec fn parse_line(s: Seq<char>) -> Option<LineInstr> {
    if is_mask_line(s) {
        Some(LineInstr::Mask(mask_bits(s)))
    } else if is_mem_line(s) {
        Some(
            LineInstr::Write {
                address: mem_addr_val(s) as u64,
                value: mem_value_val(s) as u64,
            },
        )
    } else {
        None
    }
}

/// A digit string has a non-negative value.
pub proof fn lemma_digits_val_nonneg(s: Seq<char>)
    requires
        all_digits(s),
    ensures
        digits_val(s) >= 0,
    decreases s.len(),
{
    if s.len() > 0 {
        assert(all_digits(s.drop_last()));
        lemma_digits_val_nonneg(s.drop_last());
    }
}

/// A prefix of a digit string is worth no more than the whole string.
pub proof fn lemma_digits_val_prefix(s: Seq<char>, m: int)
    requires
        all_digits(s),
        0 <= m <= s.len(),
    ensures
        digits_val(s.take(m)) <= digits_val(s),
    decreases s.len(),
{
    if m == s.len() {
        assert(s.take(m) =~= s);
    } else {
        assert(all_digits(s.drop_last()));
        assert(s.drop_last().take(m) =~= s.take(m));
        lemma_digits_val_prefix(s.drop_last(), m);
        lemma_digits_val_nonneg(s.drop_last());
    }
}

/// What the digit-run bound promises: the run holds only digits and either
/// reaches the end of the string or stops just before a non-digit.
pub proof fn lemma_digit_run_end(s: Seq<char>, i: int)
    requires
        0 <= i <= s.len(),
    ensures
        i <= digit_run_end(s, i) <= s.len(),
        forall|k: int| i <= k < digit_run_end(s, i) ==> is_digit(s[k]),
        digit_run_end(s, i) == s.len() || !is_digit(s[digit_run_end(s, i)]),
    decreases s.len() - i,
{
    if i < s.len() && is_digit(s[i]) {
        lemma_digit_run_end(s, i + 1);
    }
}

/// A stretch of digits followed by the end of the string or a non-digit is
/// exactly the maximal digit run.
pub proof fn lemma_digit_run_end_at(s: Seq<char>, i: int, e: int)
    requires
        0 <= i <= e <= s.len(),
        forall|k: int| i <= k < e ==> is_digit(s[k]),
        e == s.len() || !is_digit(s[e]),
    ensures
        digit_run_end(s, i) == e,
    decreases e - i,
{
    if i < e {
        lemma_digit_run_end_at(s, i + 1, e);
    }
}

/// The maximal digit run reaches past any stretch of digits.
pub proof fn lemma_digit_run_end_ge(s: Seq<char>, i: int, k: int)
    requires
        0 <= i <= k <= s.len(),
        forall|j: int| i <= j < k ==> is_digit(s[j]),
    ensures
        digit_run_end(s, i) >= k,
{
    lemma_digit_run_end(s, i);
    if digit_run_end(s, i) < k {
        assert(is_digit(s[digit_run_end(s, i)]));
    }
}

/// Scan the maximal digit run starting at `start` and accumulate its decimal
/// value.  `Err` means the value does not fit in 64 bits.
fn scan_number(line: &str, start: usize, n: usize) -> (r: Result<(usize, u64), ()>)
    requires
        n == line@.len(),
        start <= n,
    ensures
        match r {
            Ok((end, v)) => {
                &&& end == digit_run_end(line@, start as int)
                &&& start <= end <= n
                &&& v == digits_val(line@.subrange(start as int, end as int))
            },
            Err(()) => digits_val(
                line@.subrange(start as int, digit_run_end(line@, start as int)),
            ) > u64::MAX,
        },
{
    let ghost s = line@;
    let mut i: usize = start;
    let mut val: u64 = 0;
    proof {
        assert(s.subrange(start as int, start as int) =~= Seq::<char>::empty());
    }
    while i < n
        invariant
            n == s.len(),
            s == line@,
            start <= i <= n,
            forall|j: int| start <= j < i ==> is_digit(s[j]),
            val == digits_val(s.subrange(start as int, i as int)),
        ensures
            n == s.len(),
            s == line@,
            start <= i <= n,
            forall|j: int| start <= j < i ==> is_digit(s[j]),
            val == digits_val(s.subrange(start as int, i as int)),
            i == n || !is_digit(s[i as int]),
        decreases n - i,
    {
        let c = line.get_char(i);
        let u = c as u32;
        if 48 <= u && u <= 57 {
            let d = (u - 48) as u64;
            proof {
                assert(s.subrange(start as int, i + 1).drop_last() =~= s.subrange(
                    start as int,
                    i as int,
                ));
                assert(s.subrange(start as int, i + 1).last() == s[i as int]);
            }
            let scaled = match val.checked_mul(10) {
                Some(x) => x,
                None => {
                    proof {
                        overflow_run_exceeds(s, start as int, i as int, 10 * val as int + d);
                    }
                    return Err(());
                },
            };
            val = match scaled.checked_add(d) {
                Some(x) => x,
                None => {
                    proof {
                        overflow_run_exceeds(s, start as int, i as int, 10 * val as int + d);
                    }
                    return Err(());
                },
            };
            i = i + 1;
        } else {
            break;
        }
    }
    proof {
        lemma_digit_run_end_at(s, start as int, i as int);
    }
    Ok((i, val))
}

/// A digit at `i` whose extended value already exceeds `u64::MAX` pushes the
/// value of the whole digit run past `u64::MAX`.
proof fn overflow_run_exceeds(s: Seq<char>, start: int, i: int, extended: int)
    requires
        0 <= start <= i < s.len(),
        forall|j: int| start <= j < i ==> is_digit(s[j]),
        is_digit(s[i]),
        extended == digits_val(s.subrange(start, i)) * 10 + digit_val(s[i]),
        extended > u64::MAX,
    ensures
        digits_val(s.subrange(start, digit_run_end(s, start))) > u64::MAX,
{
    lemma_digit_run_end_ge(s, start, i + 1);
    lemma_digit_run_end(s, start);
    let run = s.subrange(start, digit_run_end(s, start));
    assert(all_digits(run));
    assert(run.take(i + 1 - start) =~= s.subrange(start, i + 1));
    assert(s.subrange(start, i + 1).drop_last() =~= s.subrange(start, i));
    assert(s.subrange(start, i + 1).last() == s[i]);
    assert(digits_val(s.subrange(start, i + 1)) == extended);
    lemma_digits_val_prefix(run, i + 1 - start);
}

/// Parse a line as a memory line, if it is one.
fn parse_mem_line(line: &str) -> (r: Option<Instruction>)
    ensures
        match r {
            Some(ins) => is_mem_line(line@) && ins@ == (LineInstr::Write {
                address: mem_addr_val(line@) as u64,
                value: mem_value_val(line@) as u64,
            }),
            None => !is_mem_line(line@),
        },
{
    let ghost s = line@;
    let n = line.unicode_len();
    if n < 4 {
        return None;
    }
    if !(line.get_char(0) == 'm' && line.get_char(1) == 'e' && line.get_char(2) == 'm'
        && line.get_char(3) == '[') {
        return None;
    }
    let (end, address) = match scan_number(line, 4, n) {
        Ok(p) => p,
        Err(()) => {
            return None;
        },
    };
    if end == 4 {
        return None;
    }
    if n - end < 5 {
        return None;
    }
    if !(line.get_char(end) == ']' && line.get_char(end + 1) == ' ' && line.get_char(end + 2)
        == '=' && line.get_char(end + 3) == ' ') {
        return None;
    }
    let (vend, value) = match scan_number(line, end + 4, n) {
        Ok(p) => p,
        Err(()) => {
            proof {
                value_run_breaks_line(s, end as int);
            }
            return None;
        },
    };
    if vend < n {
        proof {
            lemma_digit_run_end(s, end + 4);
            if is_mem_line(s) {
                let tail = s.subrange(end + 4, n as int);
                assert(is_digit(tail[vend - (end + 4)]));
                assert(is_digit(s[vend as int]));
            }
        }
        return None;
    }
    proof {
        lemma_digit_run_end(s, 4);
        lemma_digit_run_end(s, end + 4);
        let addr_digits = s.subrange(4, end as int);
        assert forall|j: int| 0 <= j < addr_digits.len() implies is_digit(addr_digits[j]) by {
            assert(is_digit(s[4 + j]));
        }
        let tail = s.subrange(end + 4, n as int);
        assert forall|j: int| 0 <= j < tail.len() implies is_digit(tail[j]) by {
            assert(is_digit(s[end + 4 + j]));
        }
        lemma_digits_val_nonneg(addr_digits);
        lemma_digits_val_nonneg(tail);
        assert(is_mem_line(s));
    }
    Some(Instruction::Write { address, value })
}

/// A value field whose maximal digit run exceeds `u64::MAX` rules the line
/// out, whether or not the run reaches the end of the line.
proof fn value_run_breaks_line(s: Seq<char>, end: int)
    requires
        0 <= end,
        end + 4 <= s.len(),
        digits_val(s.subrange(end + 4, digit_run_end(s, end + 4))) > u64::MAX,
    ensures
        !(is_mem_line(s) && addr_end(s) == end),
{
    lemma_digit_run_end(s, end + 4);
    if is_mem_line(s) && addr_end(s) == end {
        let tail = s.subrange(end + 4, s.len() as int);
        assert(all_digits(tail));
        assert forall|j: int| end + 4 <= j < s.len() implies is_digit(s[j]) by {
            assert(is_digit(tail[j - (end + 4)]));
        }
        lemma_digit_run_end_at(s, end + 4, s.len() as int);
        assert(s.subrange(end + 4, digit_run_end(s, end + 4)) =~= tail);
    }
}

/// Classify one line of input.  `None` means the line is malformed: it is
/// neither a mask line nor a memory line.
pub fn parse_instruction(line: &str) -> (r: Option<Instruction>)
    ensures
        match r {
            Some(ins) => parse_line(line@) == Some(ins@),
            None => parse_line(line@) is None,
        },
{
    let ghost s = line@;
    let n = line.unicode_len();
    if n == 43 && line.get_char(0) == 'm' && line.get_char(1) == 'a' && line.get_char(2) == 's'
        && line.get_char(3) == 'k' && line.get_char(4) == ' ' && line.get_char(5) == '='
        && line.get_char(6) == ' ' {
        let mut bits: Vec<MaskBit> = Vec::new();
        let mut i: usize = 7;
        while i < 43
            invariant
                s == line@,
                s.len() == 43,
                has_mask_prefix(s),
                7 <= i <= 43,
                bits@.len() == i - 7,
                forall|j: int| 7 <= j < i ==> is_mask_char(s[j]),
                forall|j: int| 7 <= j < i ==> bits@[j - 7] == char_mask_bit(s[j]),
            decreases 43 - i,
        {
            let c = line.get_char(i);
            if c == '1' {
                bits.push(MaskBit::One);
            } else if c == '0' {
                bits.push(MaskBit::Zero);
            } else if c == 'X' {
                bits.push(MaskBit::Floating);
            } else {
                assert(!is_mask_char(s[i as int]));
                assert(!is_mask_line(s));
                assert(s[2] != 'm');
                assert(!has_mem_prefix(s));
                return None;
            }
            i = i + 1;
        }
        proof {
            assert(is_mask_line(s));
            assert(bits@ =~= mask_bits(s));
        }
        Some(Instruction::Mask(MaskPattern { bits }))
    } else {
        assert(!is_mask_line(s));
        parse_mem_line(line)
    }
}

} // verus!
