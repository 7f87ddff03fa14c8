use vstd::prelude::*;
use crate::comm::{Comm, Fault, SyntaxFault, TAPE_LEN};
use crate::machine::{
    in_tape, landing, lowered, offered, run_of, start, step_of, Effect, State, Status, Step, Trace,
};
use crate::nesting::{lemma_translate_well_formed, paired};
use crate::scan::{
    block, committed, lemma_block_step, run, translate, CLOSE, COMMA, DOT, LEFT, MINUS, OPEN, PLUS,
    RIGHT,
};

verus! {

/// The byte `c`, `n` times.
pub open spec fn repeated(c: u8, n: nat) -> Seq<u8> {
    Seq::new(n, |i: int| c)
}

/// A stretch of `k` bytes `c` that ends with the source, or before another
/// byte, is a run of length `k`.
proof fn lemma_run_of_same(s: Seq<u8>, pos: nat, c: u8, k: nat)
    requires
        pos + k <= s.len(),
        forall|i: int| pos <= i < pos + k ==> s[i] == c,
        pos + k == s.len() || s[pos as int + k] != c,
    ensures
        run(s, pos, c) == k,
    decreases k,
{
    if k > 0 {
        lemma_run_of_same(s, pos + 1, c, (k - 1) as nat);
    }
}

/// The scan over `n` times `>` at the head of `s`: they are folded into a
/// pending offset of `n`, and nothing is emitted.
proof fn lemma_moves_fold(s: Seq<u8>, n: nat)
    requires
        n < s.len(),
        forall|i: int| 0 <= i < n ==> s[i] == RIGHT,
        s[n as int] != RIGHT,
    ensures
        block(s, 0, 0, Seq::empty(), 0) == block(s, n, n as int, Seq::empty(), 0),
{
    if n > 0 {
        lemma_run_of_same(s, 1, RIGHT, (n - 1) as nat);
        lemma_block_step(s, 0, 0, Seq::empty(), 0);
    }
}

/// Pointer moves fold into the offset of the next instruction: `n` times
/// `>` and one `+` translate into the single instruction `Plus(n, 1)`.
pub proof fn law_moves_fold_into_offset(n: nat)
    requires
        n <= i32::MAX,
    ensures
        translate(repeated(RIGHT, n).push(PLUS)) == Ok::<Seq<Comm>, SyntaxFault>(
            seq![Comm::Plus(n as i32, 1u8)],
        ),
{
    let s = repeated(RIGHT, n).push(PLUS);
    let out = Seq::<Comm>::empty().push(Comm::Plus(n as i32, 1u8));
    lemma_moves_fold(s, n);
    lemma_run_of_same(s, n + 1, PLUS, 0);
    lemma_block_step(s, n, n as int, Seq::empty(), 0);
    lemma_block_step(s, n + 1, n as int, out, 0);
    assert(out =~= seq![Comm::Plus(n as i32, 1u8)]);
}

/// `Plus` adds its amount to the cell modulo 256, and `Minus` takes it away
/// modulo 256; no other cell changes, and neither faults on a cell of the
/// tape, whatever the cell holds.
pub proof fn law_cells_wrap(code: Seq<Comm>, st: State, input: Option<u8>, off: i32, amount: u8)
    requires
        st.pc < code.len(),
        st.cells.len() == TAPE_LEN,
        in_tape(st.index + off),
    ensures
        code[st.pc as int] == Comm::Plus(off, amount) ==> step_of(code, st, input) == Ok::<
            Step,
            Fault,
        >(
            Step {
                state: State {
                    cells: st.cells.update(
                        st.index + off,
                        ((st.cells[st.index + off] + amount) % 256) as u8,
                    ),
                    index: st.index,
                    pc: st.pc + 1,
                },
                effect: Effect::Silent,
            },
        ),
        code[st.pc as int] == Comm::Minus(off, amount) ==> step_of(code, st, input) == Ok::<
            Step,
            Fault,
        >(
            Step {
                state: State {
                    cells: st.cells.update(
                        st.index + off,
                        ((st.cells[st.index + off] - amount) % 256) as u8,
                    ),
                    index: st.index,
                    pc: st.pc + 1,
                },
                effect: Effect::Silent,
            },
        ),
        (st.cells[st.index + off] + amount) % 256 == if st.cells[st.index + off] + amount < 256 {
            st.cells[st.index + off] + amount
        } else {
            st.cells[st.index + off] + amount - 256
        },
        (st.cells[st.index + off] - amount) % 256 == if st.cells[st.index + off] >= amount {
            st.cells[st.index + off] - amount
        } else {
            st.cells[st.index + off] - amount + 256
        },
{
}

/// A loop that is reached with its cell at zero is skipped whole: in the
/// program of a source text, an `LP` that finds zero leaves the program
/// counter just behind the `RP` that closes its body, in one step that
/// changes nothing else.
pub proof fn law_zero_skips_loop(
    s: Seq<u8>,
    code: Seq<Comm>,
    st: State,
    input: Option<u8>,
    target: usize,
)
    requires
        s.len() <= i32::MAX,
        translate(s) == Ok::<Seq<Comm>, SyntaxFault>(code),
        st.pc < code.len(),
        code[st.pc as int] == Comm::LP(target),
        st.cells.len() == TAPE_LEN,
        in_tape(st.index),
        st.cells[st.index] == 0,
    ensures
        st.pc < target < code.len(),
        code[target as int] == Comm::RP(st.pc as usize),
        paired(code, st.pc as int + 1, target as int),
        step_of(code, st, input) == Ok::<Step, Fault>(
            Step {
                state: State { cells: st.cells, index: st.index, pc: (target + 1) as nat },
                effect: Effect::Silent,
            },
        ),
{
    lemma_translate_well_formed(s);
    assert(code[st.pc as int] is LP);
}

/// A loop whose cell is not zero at its end is gone through again: in the
/// program of a source text, an `RP` that finds the cell not zero leaves
/// the program counter on the first instruction of its body, just behind
/// the `LP` that opens it, in one step that changes nothing else.
pub proof fn law_nonzero_repeats_loop(
    s: Seq<u8>,
    code: Seq<Comm>,
    st: State,
    input: Option<u8>,
    target: usize,
)
    requires
        s.len() <= i32::MAX,
        translate(s) == Ok::<Seq<Comm>, SyntaxFault>(code),
        st.pc < code.len(),
        code[st.pc as int] == Comm::RP(target),
        st.cells.len() == TAPE_LEN,
        in_tape(st.index),
        st.cells[st.index] != 0,
    ensures
        target < st.pc,
        code[target as int] == Comm::LP(st.pc as usize),
        step_of(code, st, input) == Ok::<Step, Fault>(
            Step {
                state: State { cells: st.cells, index: st.index, pc: (target + 1) as nat },
                effect: Effect::Silent,
            },
        ),
{
    lemma_translate_well_formed(s);
    assert(code[st.pc as int] is RP);
}

/// The cell that an instruction addresses when the data pointer is `index`.
pub open spec fn touched(c: Comm, index: int) -> Option<int> {
    match c {
        Comm::Pointer(_) => None,
        Comm::Plus(off, _) => Some(index + off),
        Comm::Minus(off, _) => Some(index + off),
        Comm::Dot(off) => Some(index + off),
        Comm::Comma(off) => Some(index + off),
        Comm::LP(_) => Some(index),
        Comm::RP(_) => Some(index),
        Comm::Clear(off) => Some(index + off),
    }
}

/// An instruction that addresses a cell outside the tape is a `Bounds`
/// fault, whatever the input, and the run ends there: the state stays as it
/// was, and nothing more is emitted or consumed.
pub proof fn law_out_of_tape_faults(
    code: Seq<Comm>,
    st: State,
    input: Seq<u8>,
    taken: nat,
    output: Seq<u8>,
    fuel: nat,
)
    requires
        st.pc < code.len(),
        touched(code[st.pc as int], st.index) matches Some(a) && !in_tape(a),
        fuel > 0,
    ensures
        forall|offer: Option<u8>| #[trigger] step_of(code, st, offer) == Err::<Step, Fault>(Fault::Bounds),
        run_of(code, st, input, taken, output, fuel) == (Trace {
            state: st,
            output,
            taken,
            status: Status::Faulted(Fault::Bounds),
        }),
{
}

/// The data pointer after the first `m` instructions of `code`, where they
/// are moves: the sum of their offsets.
pub open spec fn moved(code: Seq<Comm>, m: nat) -> int
    decreases m,
{
    if m == 0 {
        0
    } else {
        moved(code, (m - 1) as nat) + match code[m - 1] {
            Comm::Pointer(i) => i as int,
            _ => 0,
        }
    }
}

/// The run through the moves from the `j`th to the `m`th.
proof fn lemma_moves_run(code: Seq<Comm>, m: nat, j: nat, input: Seq<u8>, fuel: nat)
    requires
        j <= m < code.len(),
        forall|i: int| 0 <= i < m ==> #[trigger] code[i] is Pointer,
        fuel >= m - j,
    ensures
        run_of(
            code,
            State { cells: start().cells, index: moved(code, j), pc: j },
            input,
            0,
            Seq::empty(),
            fuel,
        ) == run_of(
            code,
            State { cells: start().cells, index: moved(code, m), pc: m },
            input,
            0,
            Seq::empty(),
            (fuel - (m - j)) as nat,
        ),
    decreases m - j,
{
    if j < m {
        assert(code[j as int] is Pointer);
        lemma_run_step(
            code,
            State { cells: start().cells, index: moved(code, j), pc: j },
            input,
            0,
            Seq::empty(),
            fuel,
        );
        lemma_moves_run(code, m, j + 1, input, (fuel - 1) as nat);
    }
}

/// A program that begins with `m` moves and then addresses a cell outside
/// the tape ends in a `Bounds` fault on that instruction: the tape is
/// untouched, nothing was emitted or consumed, and nothing is executed
/// after it.
pub proof fn law_moving_off_the_tape(code: Seq<Comm>, m: nat, input: Seq<u8>, fuel: nat)
    requires
        m < code.len(),
        forall|i: int| 0 <= i < m ==> #[trigger] code[i] is Pointer,
        touched(code[m as int], moved(code, m)) matches Some(a) && !in_tape(a),
        fuel > m,
    ensures
        run_of(code, start(), input, 0, Seq::empty(), fuel) == (Trace {
            state: State { cells: start().cells, index: moved(code, m), pc: m },
            output: Seq::empty(),
            taken: 0,
            status: Status::Faulted(Fault::Bounds),
        }),
{
    lemma_moves_run(code, m, 0, input, fuel);
    law_out_of_tape_faults(
        code,
        State { cells: start().cells, index: moved(code, m), pc: m },
        input,
        0,
        Seq::empty(),
        (fuel - m) as nat,
    );
}

/// One step of [`run_of`].
pub proof fn lemma_run_step(
    code: Seq<Comm>,
    st: State,
    input: Seq<u8>,
    taken: nat,
    output: Seq<u8>,
    fuel: nat,
)
    ensures
        st.pc >= code.len() ==> run_of(code, st, input, taken, output, fuel) == (Trace {
            state: st,
            output,
            taken,
            status: Status::Halted,
        }),
        st.pc < code.len() && fuel == 0 ==> run_of(code, st, input, taken, output, fuel) == (Trace {
            state: st,
            output,
            taken,
            status: Status::Unfinished,
        }),
        st.pc < code.len() && fuel > 0 ==> (step_of(code, st, offered(input, taken)) matches Err(
            fault,
        ) ==> run_of(code, st, input, taken, output, fuel) == (Trace {
            state: st,
            output,
            taken,
            status: Status::Faulted(fault),
        })),
        st.pc < code.len() && fuel > 0 ==> (step_of(
            code,
            st,
            offered(input, taken),
        ) matches Ok(next) ==> run_of(code, st, input, taken, output, fuel) == run_of(
            code,
            next.state,
            input,
            match next.effect {
                Effect::Read => taken + 1,
                _ => taken,
            },
            match next.effect {
                Effect::Wrote(byte) => output.push(byte),
                _ => output,
            },
            (fuel - 1) as nat,
        )),
{
}

/// The loop that clears the cell at `k` from the data pointer, as the
/// translator emits a loop whose body is one `-`: the pointer is moved by
/// `k` unless `k` is zero, then the cell is counted down to zero.
pub open spec fn clear_loop(k: i32) -> Seq<Comm> {
    let head = committed(Seq::empty(), k as int);
    head.push(Comm::LP((head.len() + 2) as usize)).push(Comm::Minus(0, 1)).push(
        Comm::RP(head.len() as usize),
    )
}

/// The run of [`clear_loop`] from its body on, with the cell not yet zero.
proof fn lemma_clear_loop_counts_down(
    k: i32,
    st: State,
    input: Seq<u8>,
    taken: nat,
    output: Seq<u8>,
    fuel: nat,
)
    requires
        st.pc == committed(Seq::empty(), k as int).len() + 1,
        st.cells.len() == TAPE_LEN,
        in_tape(st.index),
        st.cells[st.index] >= 1,
        fuel >= 2 * st.cells[st.index],
    ensures
        run_of(clear_loop(k), st, input, taken, output, fuel) == (Trace {
            state: State {
                cells: st.cells.update(st.index, 0u8),
                index: st.index,
                pc: clear_loop(k).len(),
            },
            output,
            taken,
            status: Status::Halted,
        }),
    decreases st.cells[st.index],
{
    let code = clear_loop(k);
    let at = committed(Seq::empty(), k as int).len();
    let v = st.cells[st.index];
    assert(code[at as int + 1] == Comm::Minus(0, 1));
    assert(code[at as int + 2] == Comm::RP(at as usize));
    let lower = State {
        cells: st.cells.update(st.index, (v - 1) as u8),
        index: st.index,
        pc: at + 2,
    };
    lemma_run_step(code, st, input, taken, output, fuel);
    assert(lowered(v, 1) == (v - 1) as u8);
    assert(run_of(code, st, input, taken, output, fuel) == run_of(
        code,
        lower,
        input,
        taken,
        output,
        (fuel - 1) as nat,
    ));
    lemma_run_step(code, lower, input, taken, output, (fuel - 1) as nat);
    if v == 1 {
        let done = State { cells: lower.cells, index: st.index, pc: at + 3 };
        lemma_run_step(code, done, input, taken, output, (fuel - 2) as nat);
        assert(lower.cells =~= st.cells.update(st.index, 0u8));
    } else {
        let again = State { cells: lower.cells, index: st.index, pc: at + 1 };
        assert(landing(code.len(), at as usize) == at + 1);
        lemma_clear_loop_counts_down(k, again, input, taken, output, (fuel - 2) as nat);
        assert(again.cells.update(st.index, 0u8) =~= st.cells.update(st.index, 0u8));
    }
}

/// Clearing a cell by `[-]` and by a loop that counts it down come to the
/// same: from a state at the head of either program, with the cell at `k`
/// from the data pointer on the tape, both runs halt with that cell at zero
/// and every other cell, the output and the input as they were. `Clear`
/// takes one step and leaves the data pointer alone; the loop takes two
/// steps for each unit that the cell held, and has moved the data pointer
/// onto the cell.
pub proof fn law_clear_is_loop(
    k: i32,
    st: State,
    input: Seq<u8>,
    taken: nat,
    output: Seq<u8>,
    fuel: nat,
)
    requires
        st.pc == 0,
        st.cells.len() == TAPE_LEN,
        in_tape(st.index + k),
        fuel >= 2 + 2 * st.cells[st.index + k],
    ensures
        run_of(seq![Comm::Clear(k)], st, input, taken, output, 1) == (Trace {
            state: State { cells: st.cells.update(st.index + k, 0u8), index: st.index, pc: 1 },
            output,
            taken,
            status: Status::Halted,
        }),
        run_of(clear_loop(k), st, input, taken, output, fuel) == (Trace {
            state: State {
                cells: st.cells.update(st.index + k, 0u8),
                index: st.index + k,
                pc: clear_loop(k).len(),
            },
            output,
            taken,
            status: Status::Halted,
        }),
{
    let a = st.index + k;
    // the idiom
    let idiom = seq![Comm::Clear(k)];
    let cleared = State { cells: st.cells.update(a, 0u8), index: st.index, pc: 1 };
    lemma_run_step(idiom, st, input, taken, output, 1);
    lemma_run_step(idiom, cleared, input, taken, output, 0);
    // the loop
    let code = clear_loop(k);
    let at = committed(Seq::empty(), k as int).len();
    let moved = State { cells: st.cells, index: a, pc: at };
    let mut left = fuel;
    if k != 0 {
        assert(code[0] == Comm::Pointer(k));
        lemma_run_step(code, st, input, taken, output, fuel);
        left = (fuel - 1) as nat;
    } else {
        assert(moved == st);
    }
    assert(run_of(code, st, input, taken, output, fuel) == run_of(
        code,
        moved,
        input,
        taken,
        output,
        left,
    ));
    assert(code[at as int] == Comm::LP((at + 2) as usize));
    lemma_run_step(code, moved, input, taken, output, left);
    if st.cells[a] == 0 {
        let past = State { cells: st.cells, index: a, pc: at + 3 };
        assert(landing(code.len(), (at + 2) as usize) == at + 3);
        lemma_run_step(code, past, input, taken, output, (left - 1) as nat);
        assert(st.cells =~= st.cells.update(a, 0u8));
    } else {
        let body = State { cells: st.cells, index: a, pc: at + 1 };
        lemma_clear_loop_counts_down(k, body, input, taken, output, (left - 1) as nat);
    }
}

/// What the translator makes of the two ways to clear the cell at `k`:
/// `k` times `>` and `[-]` become the one instruction `Clear(k)`; with a
/// byte that is no command between `[` and `-`, they become [`clear_loop`].
pub proof fn law_clear_translations(k: nat, gap: u8)
    requires
        k <= i32::MAX,
        gap != RIGHT && gap != LEFT && gap != PLUS && gap != MINUS,
        gap != DOT && gap != COMMA && gap != OPEN && gap != CLOSE,
    ensures
        translate(repeated(RIGHT, k) + seq![OPEN, MINUS, CLOSE]) == Ok::<Seq<Comm>, SyntaxFault>(
            seq![Comm::Clear(k as i32)],
        ),
        translate(repeated(RIGHT, k) + seq![OPEN, gap, MINUS, CLOSE]) == Ok::<
            Seq<Comm>,
            SyntaxFault,
        >(clear_loop(k as i32)),
{
    let none = Seq::<Comm>::empty();
    // the idiom
    let s = repeated(RIGHT, k) + seq![OPEN, MINUS, CLOSE];
    let out = none.push(Comm::Clear(k as i32));
    lemma_moves_fold(s, k);
    lemma_block_step(s, k, k as int, none, 0);
    lemma_block_step(s, k + 3, k as int, out, 0);
    assert(out =~= seq![Comm::Clear(k as i32)]);
    // the loop
    let t = repeated(RIGHT, k) + seq![OPEN, gap, MINUS, CLOSE];
    let head = committed(none, k as int);
    let at = head.len();
    let opened = head.push(Comm::Clear(0));
    let counted = opened.push(Comm::Minus(0, 1));
    let closed = counted.push(Comm::RP(at as usize));
    let patched = closed.update(at as int, Comm::LP((at + 2) as usize));
    lemma_moves_fold(t, k);
    lemma_block_step(t, k, k as int, none, 0);
    lemma_block_step(t, k + 1, 0, opened, at);
    lemma_run_of_same(t, k + 3, MINUS, 0);
    lemma_block_step(t, k + 2, 0, opened, at);
    lemma_block_step(t, k + 3, 0, counted, at);
    lemma_block_step(t, k + 4, 0, patched, 0);
    assert(patched =~= clear_loop(k as i32));
}

} // verus!
