//! The two decoders: value masking and address floating.
//!
//! Both fold the instruction lines over a state of current masks plus a
//! sparse memory, and report the sum of the values left in memory, reduced
//! modulo `2^64`.  The whole run is specified by the spec-level state
//! machines `part1_run` and `part2_run`.

use vstd::prelude::*;

use crate::mask::MaskBit;
use crate::mask::false_mask_of;
use crate::mask::floating_of;
use crate::mask::true_mask_of;
use crate::memory::Memory;
use crate::memory::assoc_get;
use crate::memory::assoc_put;
use crate::memory::lemma_assoc_get_put;
use crate::memory::lemma_assoc_put_put_same;
use crate::memory::lemma_assoc_put_same;
use crate::memory::sum_values;
use crate::parse::Instruction;
use crate::parse::LineInstr;
use crate::parse::parse_line;
use crate::parse::parse_instruction;

verus! {

/// A line that could not be classified; `line` is its position in the
/// input, counted from zero.
#[derive(Clone, Copy, PartialEq, Eq, Structural, Debug)]
pub struct DecodeError {
    pub line: usize,
}

/// The state of the first decoder: the two value masks and the memory.
pub struct Part1State {
    pub true_mask: u64,
    pub false_mask: u64,
    pub mem: Seq<(u64, u64)>,
}

/// The state of the second decoder: the forced-on mask, the floating bit
/// positions, and the memory.
pub struct Part2State {
    pub true_mask: u64,
    pub floating: Seq<u64>,
    pub mem: Seq<(u64, u64)>,
}

/// The first decoder's transformation of a written value: force the `1`
/// bits on and the `0` bits off.  It depends on nothing but the value and
/// the two masks; in particular not on the address written to.
pub open spec fn apply_value_mask(value: u64, true_mask: u64, false_mask: u64) -> u64 {
    (value | true_mask) & !false_mask
}

/// Before any mask line, both masks are all zero and memory is empty.
pub open spec fn part1_init() -> Part1State {
    Part1State { true_mask: 0u64, false_mask: 0u64, mem: Seq::empty() }
}

/// One instruction of the first decoder.
pub open spec fn part1_step(st: Part1State, ins: LineInstr) -> Part1State {
    match ins {
        LineInstr::Mask(bits) => Part1State {
            true_mask: true_mask_of(bits),
            false_mask: false_mask_of(bits),
            mem: st.mem,
        },
        LineInstr::Write { address, value } => Part1State {
            true_mask: st.true_mask,
            false_mask: st.false_mask,
            mem: assoc_put(st.mem, address, apply_value_mask(value, st.true_mask, st.false_mask)),
        },
    }
}

/// The first decoder's state after all the given lines (malformed lines, on
/// which the executable decoder stops, change nothing here).
pub open spec fn part1_run(lines: Seq<Seq<char>>) -> Part1State
    decreases lines.len(),
{
    if lines.len() == 0 {
        part1_init()
    } else {
        let st = part1_run(lines.drop_last());
        match parse_line(lines.last()) {
            Some(ins) => part1_step(st, ins),
            None => st,
        }
    }
}

/// Every line is a well-formed instruction.
pub open spec fn lines_ok(lines: Seq<Seq<char>>) -> bool {
    forall|i: int| 0 <= i < lines.len() ==> parse_line(lines[i]) is Some
}

/// The character sequences of a sequence of input lines.
pub open spec fn line_views(lines: Seq<String>) -> Seq<Seq<char>> {
    lines.map_values(|l: String| l@)
}

/// The first decoder's answer: the sum of the final memory, modulo `2^64`.
pub open spec fn part1_sum(lines: Seq<Seq<char>>) -> int {
    sum_values(part1_run(lines).mem) % 0x1_0000_0000_0000_0000
}

/// The bits a floating combination forces on: bit `j` of the combination
/// index selects whether floating position `j` is forced on.
pub open spec fn combo_true(float: Seq<u64>, i: u64) -> u64
    decreases float.len(),
{
    if float.len() == 0 {
        0u64
    } else {
        (if i & 1 == 1 {
            1u64 << float[0]
        } else {
            0u64
        }) | combo_true(float.drop_first(), i >> 1)
    }
}

/// The bits a floating combination forces off: the floating positions whose
/// combination-index bit is clear.
pub open spec fn combo_false(float: Seq<u64>, i: u64) -> u64
    decreases float.len(),
{
    if float.len() == 0 {
        0u64
    } else {
        (if i & 1 == 0 {
            1u64 << float[0]
        } else {
            0u64
        }) | combo_false(float.drop_first(), i >> 1)
    }
}

/// The concrete address of combination `i`: the base address with the
/// combination's bits forced on and off.
pub open spec fn combo_addr(base: u64, float: Seq<u64>, i: u64) -> u64 {
    (base | combo_true(float, i)) & !combo_false(float, i)
}

/// How many addresses one write expands into: `2^N` for `N` floating bits.
pub open spec fn combo_count(float: Seq<u64>) -> u64 {
    1u64 << float.len() as u64
}

/// The memory after writing `value` to the first `n` combination addresses.
pub open spec fn write_combos(
    mem: Seq<(u64, u64)>,
    base: u64,
    float: Seq<u64>,
    value: u64,
    n: nat,
) -> Seq<(u64, u64)>
    decreases n,
{
    if n == 0 {
        mem
    } else {
        assoc_put(
            write_combos(mem, base, float, value, (n - 1) as nat),
            combo_addr(base, float, (n - 1) as u64),
            value,
        )
    }
}

/// Before any mask line, nothing is forced and nothing floats.
pub open spec fn part2_init() -> Part2State {
    Part2State { true_mask: 0u64, floating: Seq::empty(), mem: Seq::empty() }
}

/// One instruction of the second decoder.
pub open spec fn part2_step(st: Part2State, ins: LineInstr) -> Part2State {
    match ins {
        LineInstr::Mask(bits) => Part2State {
            true_mask: true_mask_of(bits),
            floating: floating_of(bits),
            mem: st.mem,
        },
        LineInstr::Write { address, value } => Part2State {
            true_mask: st.true_mask,
            floating: st.floating,
            mem: write_combos(
                st.mem,
                address | st.true_mask,
                st.floating,
                value,
                combo_count(st.floating) as nat,
            ),
        },
    }
}

/// The second decoder's state after all the given lines.
pub open spec fn part2_run(lines: Seq<Seq<char>>) -> Part2State
    decreases lines.len(),
{
    if lines.len() == 0 {
        part2_init()
    } else {
        let st = part2_run(lines.drop_last());
        match parse_line(lines.last()) {
            Some(ins) => part2_step(st, ins),
            None => st,
        }
    }
}

/// The second decoder's answer: the sum of the final memory, modulo `2^64`.
pub open spec fn part2_sum(lines: Seq<Seq<char>>) -> int {
    sum_values(part2_run(lines).mem) % 0x1_0000_0000_0000_0000
}

/// Bitwise-or is associative.
proof fn lemma_or_assoc(a: u64, b: u64, c: u64)
    ensures
        (a | b) | c == a | (b | c),
{
    assert((a | b) | c == a | (b | c)) by (bit_vector);
}

/// Bitwise-or with zero on the left changes nothing.
proof fn lemma_zero_or(x: u64)
    ensures
        0u64 | x == x,
{
    assert(0u64 | x == x) by (bit_vector);
}

/// The lowest bit is zero or one.
proof fn lemma_and_one(x: u64)
    ensures
        x & 1 == 0 || x & 1 == 1,
{
    assert(x & 1 == 0 || x & 1 == 1) by (bit_vector);
}

/// Shifting right by zero changes nothing.
proof fn lemma_shr_zero(i: u64)
    ensures
        i >> 0u64 == i,
{
    assert(i >> 0u64 == i) by (bit_vector);
}

/// Two single right shifts are one longer shift.
proof fn lemma_shr_shr(i: u64, j: u64)
    requires
        j <= 62,
    ensures
        (i >> j) >> 1u64 == i >> (j + 1),
{
    assert((i >> j) >> 1u64 == i >> (j + 1)) by (bit_vector)
        requires
            j <= 62,
    ;
}

/// Write `value` to every address of the current floating combination
/// family over `base`.
pub fn write_floating(memory: &mut Memory, base: u64, floating: &Vec<u64>, value: u64)
    requires
        floating@.len() <= 36,
        forall|k: int| 0 <= k < floating@.len() ==> floating@[k] < 36,
    ensures
        final(memory)@ == write_combos(
            old(memory)@,
            base,
            floating@,
            value,
            combo_count(floating@) as nat,
        ),
{
    let ghost m0 = memory@;
    let n = floating.len();
    let count: u64 = 1u64 << (n as u64);
    let mut i: u64 = 0;
    while i < count
        invariant
            n == floating@.len(),
            n <= 36,
            forall|k: int| 0 <= k < floating@.len() ==> floating@[k] < 36,
            count == combo_count(floating@),
            i <= count,
            memory@ == write_combos(m0, base, floating@, value, i as nat),
        decreases count - i,
    {
        let mut t: u64 = 0;
        let mut f: u64 = 0;
        let mut bits: u64 = i;
        let mut j: usize = 0;
        proof {
            lemma_shr_zero(i);
            assert(floating@.skip(0) =~= floating@);
            lemma_zero_or(combo_true(floating@, i));
            lemma_zero_or(combo_false(floating@, i));
        }
        while j < n
            invariant
                n == floating@.len(),
                n <= 36,
                forall|k: int| 0 <= k < floating@.len() ==> floating@[k] < 36,
                j <= n,
                bits == i >> (j as u64),
                combo_true(floating@, i) == t | combo_true(floating@.skip(j as int), bits),
                combo_false(floating@, i) == f | combo_false(floating@.skip(j as int), bits),
            decreases n - j,
        {
            proof {
                assert(floating@.skip(j as int)[0] == floating@[j as int]);
                assert(floating@.skip(j as int).drop_first() =~= floating@.skip(j + 1));
                lemma_shr_shr(i, j as u64);
                lemma_and_one(bits);
            }
            let ghost rest_t = combo_true(floating@.skip(j + 1), bits >> 1u64);
            let ghost rest_f = combo_false(floating@.skip(j + 1), bits >> 1u64);
            if bits & 1 == 1 {
                proof {
                    lemma_or_assoc(t, 1u64 << floating@[j as int], rest_t);
                    lemma_zero_or(rest_f);
                }
                t = t | (1u64 << floating[j]);
            } else {
                proof {
                    lemma_or_assoc(f, 1u64 << floating@[j as int], rest_f);
                    lemma_zero_or(rest_t);
                }
                f = f | (1u64 << floating[j]);
            }
            bits = bits >> 1u64;
            j = j + 1;
        }
        proof {
            assert(floating@.skip(n as int).len() == 0);
            crate::mask::lemma_u64_or_zero(t);
            crate::mask::lemma_u64_or_zero(f);
        }
        let addr = (base | t) & !f;
        memory.write(addr, value);
        i = i + 1;
    }
}

/// Decode the lines with the first rule, value masking, and sum the final
/// memory.  A malformed line stops the run at once: `Err` names the first
/// such line and nothing is summed.
pub fn solve_part_1(lines: &Vec<String>) -> (r: Result<u64, DecodeError>)
    ensures
        r is Ok <==> lines_ok(line_views(lines@)),
        r matches Ok(s) ==> s as int == part1_sum(line_views(lines@)),
        r matches Ok(s) ==> sum_values(part1_run(line_views(lines@)).mem) <= u64::MAX ==> s
            == sum_values(part1_run(line_views(lines@)).mem),
        r matches Err(e) ==> e.line < lines@.len() && parse_line(lines@[e.line as int]@)
            is None && (forall|j: int| 0 <= j < e.line ==> parse_line(lines@[j]@) is Some),
{
    let ghost lv = line_views(lines@);
    let mut true_mask: u64 = 0;
    let mut false_mask: u64 = 0;
    let mut memory = Memory::new();
    let mut idx: usize = 0;
    while idx < lines.len()
        invariant
            lv == line_views(lines@),
            lv.len() == lines@.len(),
            idx <= lines@.len(),
            forall|j: int| 0 <= j < idx ==> parse_line(lines@[j]@) is Some,
            true_mask == part1_run(lv.take(idx as int)).true_mask,
            false_mask == part1_run(lv.take(idx as int)).false_mask,
            memory@ == part1_run(lv.take(idx as int)).mem,
        decreases lines@.len() - idx,
    {
        proof {
            assert(lv.take(idx + 1).drop_last() =~= lv.take(idx as int));
            assert(lv.take(idx + 1).last() == lv[idx as int]);
            assert(lv[idx as int] == lines@[idx as int]@);
        }
        match parse_instruction(lines[idx].as_str()) {
            None => {
                return Err(DecodeError { line: idx });
            },
            Some(Instruction::Mask(p)) => {
                let masks = p.part1_masks();
                true_mask = masks.0;
                false_mask = masks.1;
            },
            Some(Instruction::Write { address, value }) => {
                memory.write(address, (value | true_mask) & !false_mask);
            },
        }
        idx = idx + 1;
    }
    proof {
        assert(lv.take(lines@.len() as int) =~= lv);
    }
    Ok(memory.wrapped_sum())
}

/// Decode the lines with the second rule, address floating, and sum the
/// final memory.  A malformed line stops the run at once: `Err` names the
/// first such line and nothing is summed.
pub fn solve_part_2(lines: &Vec<String>) -> (r: Result<u64, DecodeError>)
    ensures
        r is Ok <==> lines_ok(line_views(lines@)),
        r matches Ok(s) ==> s as int == part2_sum(line_views(lines@)),
        r matches Ok(s) ==> sum_values(part2_run(line_views(lines@)).mem) <= u64::MAX ==> s
            == sum_values(part2_run(line_views(lines@)).mem),
        r matches Err(e) ==> e.line < lines@.len() && parse_line(lines@[e.line as int]@)
            is None && (forall|j: int| 0 <= j < e.line ==> parse_line(lines@[j]@) is Some),
{
    let ghost lv = line_views(lines@);
    let mut true_mask: u64 = 0;
    let mut floating: Vec<u64> = Vec::new();
    let mut memory = Memory::new();
    let mut idx: usize = 0;
    while idx < lines.len()
        invariant
            lv == line_views(lines@),
            lv.len() == lines@.len(),
            idx <= lines@.len(),
            forall|j: int| 0 <= j < idx ==> parse_line(lines@[j]@) is Some,
            true_mask == part2_run(lv.take(idx as int)).true_mask,
            floating@ == part2_run(lv.take(idx as int)).floating,
            memory@ == part2_run(lv.take(idx as int)).mem,
            floating@.len() <= 36,
            forall|k: int| 0 <= k < floating@.len() ==> floating@[k] < 36,
        decreases lines@.len() - idx,
    {
        proof {
            assert(lv.take(idx + 1).drop_last() =~= lv.take(idx as int));
            assert(lv.take(idx + 1).last() == lv[idx as int]);
            assert(lv[idx as int] == lines@[idx as int]@);
        }
        match parse_instruction(lines[idx].as_str()) {
            None => {
                return Err(DecodeError { line: idx });
            },
            Some(Instruction::Mask(p)) => {
                proof {
                    crate::mask::lemma_floating_of_wf(p@);
                }
                let masks = p.part2_masks();
                true_mask = masks.0;
                floating = masks.1;
            },
            Some(Instruction::Write { address, value }) => {
                write_floating(&mut memory, address | true_mask, &floating, value);
            },
        }
        idx = idx + 1;
    }
    proof {
        assert(lv.take(lines@.len() as int) =~= lv);
    }
    Ok(memory.wrapped_sum())
}

/// Law: the value stored by a part-1 write is a pure function of the
/// written value and the two masks; the address only selects where it goes.
/// Writing the same value under the same masks at any two addresses stores
/// the same masked value, `apply_value_mask(value, true_mask, false_mask)`.
pub proof fn lemma_part1_mask_pure(st: Part1State, a1: u64, a2: u64, value: u64)
    ensures
        assoc_get(
            part1_step(st, LineInstr::Write { address: a1, value }).mem,
            a1,
        ) == Some(apply_value_mask(value, st.true_mask, st.false_mask)),
        assoc_get(
            part1_step(st, LineInstr::Write { address: a2, value }).mem,
            a2,
        ) == Some(apply_value_mask(value, st.true_mask, st.false_mask)),
{
    lemma_assoc_get_put(st.mem, a1, apply_value_mask(value, st.true_mask, st.false_mask), a1);
    lemma_assoc_get_put(st.mem, a2, apply_value_mask(value, st.true_mask, st.false_mask), a2);
}

/// Law: one memory line of the first decoder writes the masked value to
/// its address and leaves every other address as it was.
pub proof fn lemma_part1_write_effect(st: Part1State, address: u64, value: u64, a: u64)
    ensures
        assoc_get(part1_step(st, LineInstr::Write { address, value }).mem, a) == if a
            == address {
            Some(apply_value_mask(value, st.true_mask, st.false_mask))
        } else {
            assoc_get(st.mem, a)
        },
{
    lemma_assoc_get_put(st.mem, address, apply_value_mask(value, st.true_mask, st.false_mask), a);
}

/// Law: part-1 writes are idempotent.  Performing the same write twice in a
/// row, under the same mask, leaves exactly the state one write leaves.
pub proof fn lemma_part1_write_twice(st: Part1State, address: u64, value: u64)
    ensures
        part1_step(
            part1_step(st, LineInstr::Write { address, value }),
            LineInstr::Write { address, value },
        ) == part1_step(st, LineInstr::Write { address, value }),
{
    lemma_assoc_put_put_same(
        st.mem,
        address,
        apply_value_mask(value, st.true_mask, st.false_mask),
    );
}

/// Every combination address of the family is left holding `value`.
proof fn lemma_combos_all_written(
    mem: Seq<(u64, u64)>,
    base: u64,
    float: Seq<u64>,
    value: u64,
    n: nat,
    i: u64,
)
    requires
        n <= 0x1_0000_0000_0000_0000,
        (i as nat) < n,
    ensures
        assoc_get(write_combos(mem, base, float, value, n), combo_addr(base, float, i)) == Some(
            value,
        ),
    decreases n,
{
    let prev = write_combos(mem, base, float, value, (n - 1) as nat);
    lemma_assoc_get_put(prev, combo_addr(base, float, (n - 1) as u64), value, combo_addr(
        base,
        float,
        i,
    ));
    if combo_addr(base, float, i) != combo_addr(base, float, (n - 1) as u64) {
        lemma_combos_all_written(mem, base, float, value, (n - 1) as nat, i);
    }
}

/// Writing a combination family changes nothing when every address of the
/// family already holds the written value.
proof fn lemma_combos_rewrite_noop(
    mem: Seq<(u64, u64)>,
    base: u64,
    float: Seq<u64>,
    value: u64,
    n: nat,
)
    requires
        n <= 0x1_0000_0000_0000_0000,
        forall|i: u64|
            (i as nat) < n ==> assoc_get(mem, #[trigger] combo_addr(base, float, i)) == Some(
                value,
            ),
    ensures
        write_combos(mem, base, float, value, n) == mem,
    decreases n,
{
    if n > 0 {
        lemma_combos_rewrite_noop(mem, base, float, value, (n - 1) as nat);
        lemma_assoc_put_same(mem, combo_addr(base, float, (n - 1) as u64), value);
    }
}

/// Law: part-2 writes are idempotent.  Expanding and writing the same
/// memory line twice in a row, under the same mask, leaves exactly the
/// state one write leaves.
pub proof fn lemma_part2_write_twice(st: Part2State, address: u64, value: u64)
    ensures
        part2_step(
            part2_step(st, LineInstr::Write { address, value }),
            LineInstr::Write { address, value },
        ) == part2_step(st, LineInstr::Write { address, value }),
{
    let base = address | st.true_mask;
    let n = combo_count(st.floating) as nat;
    let once = write_combos(st.mem, base, st.floating, value, n);
    assert forall|i: u64| (i as nat) < n implies assoc_get(
        once,
        #[trigger] combo_addr(base, st.floating, i),
    ) == Some(value) by {
        lemma_combos_all_written(st.mem, base, st.floating, value, n, i);
    }
    lemma_combos_rewrite_noop(once, base, st.floating, value, n);
}

/// What one combination family leaves at each address: the written value
/// at every combination address, and the old contents everywhere else.
proof fn lemma_write_combos_get(
    mem: Seq<(u64, u64)>,
    base: u64,
    float: Seq<u64>,
    value: u64,
    n: nat,
    a: u64,
)
    requires
        n <= 0x1_0000_0000_0000_0000,
    ensures
        assoc_get(write_combos(mem, base, float, value, n), a) == if exists|i: u64|
            (i as nat) < n && a == #[trigger] combo_addr(base, float, i) {
            Some(value)
        } else {
            assoc_get(mem, a)
        },
    decreases n,
{
    if n > 0 {
        let prev = write_combos(mem, base, float, value, (n - 1) as nat);
        lemma_assoc_get_put(prev, combo_addr(base, float, (n - 1) as u64), value, a);
        lemma_write_combos_get(mem, base, float, value, (n - 1) as nat, a);
        if a == combo_addr(base, float, (n - 1) as u64) {
            assert(((n - 1) as u64 as nat) < n && a == combo_addr(
                base,
                float,
                (n - 1) as u64,
            ));
        } else {
            assert((exists|i: u64| (i as nat) < n && a == #[trigger] combo_addr(base, float, i))
                == (exists|i: u64|
                (i as nat) < n - 1 && a == #[trigger] combo_addr(base, float, i)));
        }
    }
}

/// Law: one memory line of the second decoder writes `value` to exactly
/// the `2^N` combination addresses over its base address: afterwards each
/// of them holds `value`, and every other address holds what it held
/// before.
pub proof fn lemma_part2_write_effect(st: Part2State, address: u64, value: u64, a: u64)
    ensures
        assoc_get(part2_step(st, LineInstr::Write { address, value }).mem, a) == if exists|i: u64|
            i < combo_count(st.floating) && a == #[trigger] combo_addr(
                address | st.true_mask,
                st.floating,
                i,
            ) {
            Some(value)
        } else {
            assoc_get(st.mem, a)
        },
{
    lemma_write_combos_get(
        st.mem,
        address | st.true_mask,
        st.floating,
        value,
        combo_count(st.floating) as nat,
        a,
    );
}

/// Single bits at distinct positions do not overlap.
proof fn lemma_bit_disjoint(q: u64, p: u64)
    requires
        q < 64,
        p < 64,
        q != p,
    ensures
        (1u64 << q) & (1u64 << p) == 0,
{
    assert((1u64 << q) & (1u64 << p) == 0) by (bit_vector)
        requires
            q < 64,
            p < 64,
            q != p,
    ;
}

/// A bit clear in both operands is clear in their or.
proof fn lemma_or_keeps_clear(x: u64, y: u64, p: u64)
    requires
        x & (1u64 << p) == 0,
        y & (1u64 << p) == 0,
    ensures
        (x | y) & (1u64 << p) == 0,
{
    assert((x | y) & (1u64 << p) == 0) by (bit_vector)
        requires
            x & (1u64 << p) == 0,
            y & (1u64 << p) == 0,
    ;
}

/// Combination masks only use the floating positions: any other bit
/// position stays clear in both masks.
proof fn lemma_combo_bits_clear(float: Seq<u64>, i: u64, p: u64)
    requires
        p < 64,
        forall|k: int| 0 <= k < float.len() ==> float[k] < 64,
        forall|k: int| 0 <= k < float.len() ==> float[k] != p,
    ensures
        combo_true(float, i) & (1u64 << p) == 0,
        combo_false(float, i) & (1u64 << p) == 0,
    decreases float.len(),
{
    if float.len() == 0 {
        assert(0u64 & (1u64 << p) == 0) by (bit_vector);
    } else {
        let rest = float.drop_first();
        lemma_combo_bits_clear(rest, i >> 1, p);
        lemma_bit_disjoint(float[0], p);
        assert(0u64 & (1u64 << p) == 0) by (bit_vector);
        lemma_or_keeps_clear(
            if i & 1 == 1 { 1u64 << float[0] } else { 0u64 },
            combo_true(rest, i >> 1),
            p,
        );
        lemma_or_keeps_clear(
            if i & 1 == 0 { 1u64 << float[0] } else { 0u64 },
            combo_false(rest, i >> 1),
            p,
        );
    }
}

/// Forcing a bit on at a position both masks leave alone commutes with the
/// rest of the combination.
proof fn lemma_bit_or_set(base: u64, t: u64, f: u64, p: u64)
    requires
        f & (1u64 << p) == 0,
    ensures
        (base | ((1u64 << p) | t)) & !(0u64 | f) == (((base | t) & !f) | (1u64 << p)),
{
    assert((base | ((1u64 << p) | t)) & !(0u64 | f) == (((base | t) & !f) | (1u64 << p)))
        by (bit_vector)
        requires
            f & (1u64 << p) == 0,
    ;
}

/// Forcing a bit off commutes with the rest of the combination.
proof fn lemma_bit_and_clear(base: u64, t: u64, f: u64, p: u64)
    requires
        t & (1u64 << p) == 0,
    ensures
        (base | (0u64 | t)) & !((1u64 << p) | f) == (((base | t) & !f) & !(1u64 << p)),
{
    assert((base | (0u64 | t)) & !((1u64 << p) | f) == (((base | t) & !f) & !(1u64 << p)))
        by (bit_vector)
        requires
            t & (1u64 << p) == 0,
    ;
}

/// A word with a bit forced on differs from one with the same bit forced
/// off.
proof fn lemma_set_vs_clear(x: u64, y: u64, p: u64)
    requires
        p < 64,
    ensures
        (x | (1u64 << p)) != (y & !(1u64 << p)),
{
    assert((x | (1u64 << p)) != (y & !(1u64 << p))) by (bit_vector)
        requires
            p < 64,
    ;
}

/// Forcing one common bit, on or off, in two distinct words keeps them
/// distinct, provided they agreed on that bit.
proof fn lemma_force_keeps_distinct(x: u64, y: u64, p: u64)
    requires
        x != y,
        x & (1u64 << p) == y & (1u64 << p),
    ensures
        (x | (1u64 << p)) != (y | (1u64 << p)),
        (x & !(1u64 << p)) != (y & !(1u64 << p)),
{
    assert((x | (1u64 << p)) != (y | (1u64 << p)) && (x & !(1u64 << p)) != (y & !(1u64 << p)))
        by (bit_vector)
        requires
            x != y,
            x & (1u64 << p) == y & (1u64 << p),
    ;
}

/// A combination address reads the base at a position both masks leave
/// alone.
proof fn lemma_base_bit(base: u64, t: u64, f: u64, p: u64)
    requires
        t & (1u64 << p) == 0,
        f & (1u64 << p) == 0,
    ensures
        ((base | t) & !f) & (1u64 << p) == base & (1u64 << p),
{
    assert(((base | t) & !f) & (1u64 << p) == base & (1u64 << p)) by (bit_vector)
        requires
            t & (1u64 << p) == 0,
            f & (1u64 << p) == 0,
    ;
}

/// Halving keeps a combination index within the halved family.
proof fn lemma_shr1_lt(i: u64, len: u64)
    requires
        1 <= len <= 36,
        i < (1u64 << len),
    ensures
        i >> 1u64 < (1u64 << ((len - 1) as u64)),
{
    assert(i >> 1u64 < (1u64 << ((len - 1) as u64))) by (bit_vector)
        requires
            1 <= len <= 36,
            i < (1u64 << len),
    ;
}

/// A word is its lowest bit plus the rest.
proof fn lemma_low_split(i: u64, j: u64)
    requires
        i & 1 == j & 1,
        i >> 1u64 == j >> 1u64,
    ensures
        i == j,
{
    assert(i & 1 == j & 1 && i >> 1u64 == j >> 1u64 ==> i == j) by (bit_vector);
}

/// Law: one memory line of the second decoder expands into exactly
/// `2^N` addresses, `combo_addr(base, float, i)` for `0 <= i < 2^N` where
/// `N` is the number of floating positions, and these addresses are
/// pairwise distinct: distinct combination indices give distinct addresses.
pub proof fn lemma_combo_addrs_distinct(base: u64, float: Seq<u64>, i: u64, j: u64)
    requires
        float.len() <= 36,
        forall|k: int| 0 <= k < float.len() ==> float[k] < 36,
        forall|a: int, b: int| 0 <= a < b < float.len() ==> float[a] != float[b],
        i < combo_count(float),
        j < combo_count(float),
        i != j,
    ensures
        combo_addr(base, float, i) != combo_addr(base, float, j),
    decreases float.len(),
{
    if float.len() == 0 {
        assert(1u64 << 0u64 == 1) by (bit_vector);
    } else {
        let p = float[0];
        let rest = float.drop_first();
        assert(forall|k: int| 0 <= k < rest.len() ==> rest[k] == float[k + 1]);
        lemma_and_one(i);
        lemma_and_one(j);
        let ti = combo_true(rest, i >> 1);
        let fi = combo_false(rest, i >> 1);
        let tj = combo_true(rest, j >> 1);
        let fj = combo_false(rest, j >> 1);
        lemma_combo_bits_clear(rest, i >> 1, p);
        lemma_combo_bits_clear(rest, j >> 1, p);
        let ai = (base | ti) & !fi;
        let aj = (base | tj) & !fj;
        if i & 1 != j & 1 {
            if i & 1 == 1 {
                lemma_bit_or_set(base, ti, fi, p);
                lemma_bit_and_clear(base, tj, fj, p);
                lemma_set_vs_clear(ai, aj, p);
            } else {
                lemma_bit_or_set(base, tj, fj, p);
                lemma_bit_and_clear(base, ti, fi, p);
                lemma_set_vs_clear(aj, ai, p);
            }
        } else {
            if i >> 1u64 == j >> 1u64 {
                lemma_low_split(i, j);
            }
            lemma_shr1_lt(i, float.len() as u64);
            lemma_shr1_lt(j, float.len() as u64);
            lemma_combo_addrs_distinct(base, rest, i >> 1, j >> 1);
            lemma_base_bit(base, ti, fi, p);
            lemma_base_bit(base, tj, fj, p);
            lemma_force_keeps_distinct(ai, aj, p);
            if i & 1 == 1 {
                lemma_bit_or_set(base, ti, fi, p);
                lemma_bit_or_set(base, tj, fj, p);
            } else {
                lemma_bit_and_clear(base, ti, fi, p);
                lemma_bit_and_clear(base, tj, fj, p);
            }
        }
    }
}

} // verus!
