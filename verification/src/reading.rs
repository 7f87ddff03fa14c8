use vstd::prelude::*;
use crate::comm::{Comm, Fault, TAPE_LEN};
use crate::machine::{in_tape, lowered, offered, raised};
use crate::scan::{
    block, committed, is_clear, left, lemma_block_extends, lemma_token, opens_loop, run, token,
    CLOSE, COMMA, DOT, LEFT, MINUS, OPEN, PLUS, RIGHT,
};

verus! {

/// The state of a source text that is read byte by byte: the tape, the data
/// pointer, and what was consumed and emitted so far.
pub struct Reading {
    /// The cells of the tape.
    pub cells: Seq<u8>,
    /// The data pointer.
    pub index: int,
    /// How many bytes of input were consumed.
    pub taken: nat,
    /// The bytes emitted, in order.
    pub output: Seq<u8>,
}

/// How the reading of a stretch of source text ended.
pub enum Ending {
    /// With the source text.
    Ended,
    /// On the `]` at this position, which ends the loop body that the
    /// stretch began in.
    Closed(nat),
    /// With a fault.
    Faulted(Fault),
    /// Nowhere: the step limit was used up.
    Unfinished,
}

/// A stretch of source text that was read.
pub struct Outcome {
    /// The state in which it ended.
    pub state: Reading,
    /// How it ended.
    pub ending: Ending,
    /// How many steps were left.
    pub fuel: nat,
}

/// The position of the first `]` from `pos` on that closes none of the `[`
/// from `pos` on, with `depth` more of them to pass.
pub open spec fn closing(s: Seq<u8>, pos: nat, depth: nat) -> Option<nat>
    decreases left(s, pos),
{
    if pos >= s.len() {
        None
    } else if s[pos as int] == CLOSE {
        if depth == 0 {
            Some(pos)
        } else {
            closing(s, pos + 1, (depth - 1) as nat)
        }
    } else if s[pos as int] == OPEN {
        closing(s, pos + 1, depth + 1)
    } else {
        closing(s, pos + 1, depth)
    }
}

/// `r` with the data pointer moved by `by`.
pub open spec fn shifted(r: Reading, by: int) -> Reading {
    Reading { cells: r.cells, index: r.index + by, taken: r.taken, output: r.output }
}

/// `r` with `cell` written at the data pointer.
pub open spec fn written(r: Reading, cell: u8) -> Reading {
    Reading {
        cells: r.cells.update(r.index, cell),
        index: r.index,
        taken: r.taken,
        output: r.output,
    }
}

/// The state in which every reading begins: a tape of zeros, the data
/// pointer on its first cell, nothing consumed and nothing emitted.
pub open spec fn fresh() -> Reading {
    Reading {
        cells: Seq::new(TAPE_LEN as nat, |i: int| 0u8),
        index: 0,
        taken: 0,
        output: Seq::empty(),
    }
}

/// The source text `s` read as it stands, one byte for each step, from
/// `pos` on, for at most `fuel` steps: to the end of the text, or to the
/// `]` that ends the loop body in which `pos` lies.
///
/// - `>` and `<` move the data pointer by one cell.
/// - `+` and `-` raise and lower the cell at the data pointer by one,
///   modulo 256.
/// - `.` emits the cell, and `,` stores the next byte of input in it.
/// - `[` reads the body that follows it again and again, as long as the
///   cell is not zero when the body is entered, and then goes on behind the
///   `]` that ends the body.
/// - any other byte is passed over.
///
/// A cell outside the tape is a `Bounds` fault, and so is a `[` that tests
/// it. A `,` with nothing to read is an `InputExhausted` fault.
///
/// A body never leaves more steps than it was given; that the loop asks
/// for it only lets the recursion be seen to end.
#[verifier::opaque]
pub open spec fn read(s: Seq<u8>, pos: nat, r: Reading, input: Seq<u8>, fuel: nat) -> Outcome
    decreases fuel,
{
    if pos >= s.len() {
        Outcome { state: r, ending: Ending::Ended, fuel }
    } else if s[pos as int] == CLOSE {
        Outcome { state: r, ending: Ending::Closed(pos), fuel }
    } else if fuel == 0 {
        Outcome { state: r, ending: Ending::Unfinished, fuel }
    } else {
        let c = s[pos as int];
        let rest = (fuel - 1) as nat;
        let bounds = Outcome { state: r, ending: Ending::Faulted(Fault::Bounds), fuel: rest };
        if c == RIGHT {
            read(s, pos + 1, shifted(r, 1), input, rest)
        } else if c == LEFT {
            read(s, pos + 1, shifted(r, -1), input, rest)
        } else if c == PLUS {
            if in_tape(r.index) {
                read(s, pos + 1, written(r, raised(r.cells[r.index], 1)), input, rest)
            } else {
                bounds
            }
        } else if c == MINUS {
            if in_tape(r.index) {
                read(s, pos + 1, written(r, lowered(r.cells[r.index], 1)), input, rest)
            } else {
                bounds
            }
        } else if c == DOT {
            if in_tape(r.index) {
                read(
                    s,
                    pos + 1,
                    Reading {
                        cells: r.cells,
                        index: r.index,
                        taken: r.taken,
                        output: r.output.push(r.cells[r.index]),
                    },
                    input,
                    rest,
                )
            } else {
                bounds
            }
        } else if c == COMMA {
            if !in_tape(r.index) {
                bounds
            } else {
                match offered(input, r.taken) {
                    Some(byte) => read(
                        s,
                        pos + 1,
                        Reading {
                            cells: r.cells.update(r.index, byte),
                            index: r.index,
                            taken: r.taken + 1,
                            output: r.output,
                        },
                        input,
                        rest,
                    ),
                    None => Outcome {
                        state: r,
                        ending: Ending::Faulted(Fault::InputExhausted),
                        fuel: rest,
                    },
                }
            }
        } else if c == OPEN {
            if !in_tape(r.index) {
                bounds
            } else if r.cells[r.index] == 0 {
                match closing(s, pos + 1, 0) {
                    Some(q) => read(s, q + 1, r, input, rest),
                    None => Outcome { state: r, ending: Ending::Ended, fuel: rest },
                }
            } else {
                let body = read(s, pos + 1, r, input, rest);
                if body.ending is Closed && body.fuel <= rest {
                    read(s, pos, body.state, input, body.fuel)
                } else {
                    body
                }
            }
        } else {
            read(s, pos + 1, r, input, rest)
        }
    }
}

/// One step of [`read`]: what it is, by the byte at `pos`.
pub proof fn lemma_read_step(s: Seq<u8>, pos: nat, r: Reading, input: Seq<u8>, fuel: nat)
    ensures
        pos >= s.len() ==> read(s, pos, r, input, fuel) == (Outcome {
            state: r,
            ending: Ending::Ended,
            fuel,
        }),
        pos < s.len() && s[pos as int] == CLOSE ==> read(s, pos, r, input, fuel) == (Outcome {
            state: r,
            ending: Ending::Closed(pos),
            fuel,
        }),
        pos < s.len() && s[pos as int] != CLOSE && fuel == 0 ==> read(s, pos, r, input, fuel)
            == (Outcome { state: r, ending: Ending::Unfinished, fuel }),
        pos < s.len() && fuel > 0 && !in_tape(r.index) && (s[pos as int] == PLUS || s[pos as int]
            == MINUS || s[pos as int] == DOT || s[pos as int] == COMMA || s[pos as int] == OPEN)
            ==> read(s, pos, r, input, fuel) == (Outcome {
            state: r,
            ending: Ending::Faulted(Fault::Bounds),
            fuel: (fuel - 1) as nat,
        }),
        pos < s.len() && fuel > 0 && in_tape(r.index) && s[pos as int] == DOT ==> read(
            s,
            pos,
            r,
            input,
            fuel,
        ) == read(
            s,
            pos + 1,
            Reading {
                cells: r.cells,
                index: r.index,
                taken: r.taken,
                output: r.output.push(r.cells[r.index]),
            },
            input,
            (fuel - 1) as nat,
        ),
        pos < s.len() && fuel > 0 && in_tape(r.index) && s[pos as int] == COMMA ==> read(
            s,
            pos,
            r,
            input,
            fuel,
        ) == (match offered(input, r.taken) {
            Some(byte) => read(
                s,
                pos + 1,
                Reading {
                    cells: r.cells.update(r.index, byte),
                    index: r.index,
                    taken: r.taken + 1,
                    output: r.output,
                },
                input,
                (fuel - 1) as nat,
            ),
            None => Outcome {
                state: r,
                ending: Ending::Faulted(Fault::InputExhausted),
                fuel: (fuel - 1) as nat,
            },
        }),
        pos < s.len() && fuel > 0 && in_tape(r.index) && s[pos as int] == OPEN ==> read(
            s,
            pos,
            r,
            input,
            fuel,
        ) == (if r.cells[r.index] == 0 {
            match closing(s, pos + 1, 0) {
                Some(q) => read(s, q + 1, r, input, (fuel - 1) as nat),
                None => Outcome { state: r, ending: Ending::Ended, fuel: (fuel - 1) as nat },
            }
        } else {
            let body = read(s, pos + 1, r, input, (fuel - 1) as nat);
            if body.ending is Closed && body.fuel <= fuel - 1 {
                read(s, pos, body.state, input, body.fuel)
            } else {
                body
            }
        }),
        pos < s.len() && fuel > 0 && s[pos as int] != RIGHT && s[pos as int] != LEFT && s[pos as int]
            != PLUS && s[pos as int] != MINUS && s[pos as int] != DOT && s[pos as int] != COMMA
            && s[pos as int] != OPEN && s[pos as int] != CLOSE ==> read(s, pos, r, input, fuel)
            == read(s, pos + 1, r, input, (fuel - 1) as nat),
{
    reveal(read);
}

/// Reading uses up steps and makes none, and leaves the tape its length.
pub proof fn lemma_read_fuel(s: Seq<u8>, pos: nat, r: Reading, input: Seq<u8>, fuel: nat)
    requires
        r.cells.len() == TAPE_LEN,
    ensures
        read(s, pos, r, input, fuel).fuel <= fuel,
        read(s, pos, r, input, fuel).state.cells.len() == TAPE_LEN,
    decreases fuel,
{
    reveal(read);
    if pos < s.len() && s[pos as int] != CLOSE && fuel > 0 {
        let c = s[pos as int];
        let rest = (fuel - 1) as nat;
        if c == RIGHT {
            lemma_read_fuel(s, pos + 1, shifted(r, 1), input, rest);
        } else if c == LEFT {
            lemma_read_fuel(s, pos + 1, shifted(r, -1), input, rest);
        } else if c == PLUS || c == MINUS || c == DOT || c == COMMA || c == OPEN {
            if in_tape(r.index) {
                if c == PLUS {
                    lemma_read_fuel(
                        s,
                        pos + 1,
                        written(r, raised(r.cells[r.index], 1)),
                        input,
                        rest,
                    );
                } else if c == MINUS {
                    lemma_read_fuel(
                        s,
                        pos + 1,
                        written(r, lowered(r.cells[r.index], 1)),
                        input,
                        rest,
                    );
                } else if c == DOT {
                    lemma_read_fuel(
                        s,
                        pos + 1,
                        Reading {
                            cells: r.cells,
                            index: r.index,
                            taken: r.taken,
                            output: r.output.push(r.cells[r.index]),
                        },
                        input,
                        rest,
                    );
                } else if c == COMMA {
                    if let Some(byte) = offered(input, r.taken) {
                        lemma_read_fuel(
                            s,
                            pos + 1,
                            Reading {
                                cells: r.cells.update(r.index, byte),
                                index: r.index,
                                taken: r.taken + 1,
                                output: r.output,
                            },
                            input,
                            rest,
                        );
                    }
                } else if r.cells[r.index] == 0 {
                    if let Some(q) = closing(s, pos + 1, 0) {
                        lemma_read_fuel(s, q + 1, r, input, rest);
                    }
                } else {
                    let body = read(s, pos + 1, r, input, rest);
                    lemma_read_fuel(s, pos + 1, r, input, rest);
                    if body.ending is Closed && body.fuel <= rest {
                        lemma_read_fuel(s, pos, body.state, input, body.fuel);
                    }
                }
            }
        } else {
            lemma_read_fuel(s, pos + 1, r, input, rest);
        }
    }
}

/// A reading that has ended ends in the same way with more steps, and has
/// as many more left.
pub proof fn lemma_read_more(
    s: Seq<u8>,
    pos: nat,
    r: Reading,
    input: Seq<u8>,
    fuel: nat,
    more: nat,
)
    requires
        r.cells.len() == TAPE_LEN,
        !(read(s, pos, r, input, fuel).ending is Unfinished),
    ensures
        read(s, pos, r, input, fuel + more) == (Outcome {
            state: read(s, pos, r, input, fuel).state,
            ending: read(s, pos, r, input, fuel).ending,
            fuel: read(s, pos, r, input, fuel).fuel + more,
        }),
    decreases fuel,
{
    reveal(read);
    if pos < s.len() && s[pos as int] != CLOSE && fuel > 0 {
        let c = s[pos as int];
        let rest = (fuel - 1) as nat;
        if c == RIGHT {
            lemma_read_more(s, pos + 1, shifted(r, 1), input, rest, more);
        } else if c == LEFT {
            lemma_read_more(s, pos + 1, shifted(r, -1), input, rest, more);
        } else if c == PLUS || c == MINUS || c == DOT || c == COMMA || c == OPEN {
            if in_tape(r.index) {
                if c == PLUS {
                    lemma_read_more(
                        s,
                        pos + 1,
                        written(r, raised(r.cells[r.index], 1)),
                        input,
                        rest,
                        more,
                    );
                } else if c == MINUS {
                    lemma_read_more(
                        s,
                        pos + 1,
                        written(r, lowered(r.cells[r.index], 1)),
                        input,
                        rest,
                        more,
                    );
                } else if c == DOT {
                    lemma_read_more(
                        s,
                        pos + 1,
                        Reading {
                            cells: r.cells,
                            index: r.index,
                            taken: r.taken,
                            output: r.output.push(r.cells[r.index]),
                        },
                        input,
                        rest,
                        more,
                    );
                } else if c == COMMA {
                    if let Some(byte) = offered(input, r.taken) {
                        lemma_read_more(
                            s,
                            pos + 1,
                            Reading {
                                cells: r.cells.update(r.index, byte),
                                index: r.index,
                                taken: r.taken + 1,
                                output: r.output,
                            },
                            input,
                            rest,
                            more,
                        );
                    }
                } else if r.cells[r.index] == 0 {
                    if let Some(q) = closing(s, pos + 1, 0) {
                        lemma_read_more(s, q + 1, r, input, rest, more);
                    }
                } else {
                    let body = read(s, pos + 1, r, input, rest);
                    lemma_read_fuel(s, pos + 1, r, input, rest);
                    lemma_read_more(s, pos + 1, r, input, rest, more);
                    if body.ending is Closed {
                        lemma_read_more(s, pos, body.state, input, body.fuel, more);
                    }
                }
            }
        } else {
            lemma_read_more(s, pos + 1, r, input, rest, more);
        }
    }
}

/// Reading a run of `>` or of `<` moves the data pointer by its length.
pub proof fn lemma_read_moves(s: Seq<u8>, pos: nat, c: u8, r: Reading, input: Seq<u8>, fuel: nat)
    requires
        pos <= s.len(),
        c == RIGHT || c == LEFT,
    ensures
        ({
            let n = run(s, pos, c);
            let by = if c == RIGHT {
                n as int
            } else {
                -(n as int)
            };
            &&& fuel < n ==> read(s, pos, r, input, fuel).ending is Unfinished
            &&& fuel >= n ==> read(s, pos, r, input, fuel) == read(
                s,
                pos + n,
                shifted(r, by),
                input,
                (fuel - n) as nat,
            )
        }),
    decreases s.len() - pos,
{
    reveal(read);
    if pos < s.len() && s[pos as int] == c {
        if fuel > 0 {
            let one = if c == RIGHT {
                1int
            } else {
                -1int
            };
            lemma_read_moves(s, pos + 1, c, shifted(r, one), input, (fuel - 1) as nat);
            let n = run(s, pos, c);
            let by = if c == RIGHT {
                n as int
            } else {
                -(n as int)
            };
            assert(shifted(shifted(r, one), by - one) == shifted(r, by));
        }
    } else {
        assert(shifted(r, 0) == r);
    }
}

/// Adding one and then `m`, each modulo 256, adds `m + 1` modulo 256.
proof fn lemma_raise_twice(v: int, m: int)
    ensures
        ((v + 1) % 256 + m) % 256 == (v + 1 + m) % 256,
        ((v - 1) % 256 - m) % 256 == (v - 1 - m) % 256,
{
}

/// Reading a run of `+` on a cell of the tape raises the cell by the run's
/// length, modulo 256.
pub proof fn lemma_read_pluses(s: Seq<u8>, pos: nat, r: Reading, input: Seq<u8>, fuel: nat)
    requires
        pos <= s.len(),
        in_tape(r.index),
        r.cells.len() > r.index,
    ensures
        ({
            let n = run(s, pos, PLUS);
            &&& fuel < n ==> read(s, pos, r, input, fuel).ending is Unfinished
            &&& fuel >= n ==> read(s, pos, r, input, fuel) == read(
                s,
                pos + n,
                written(r, ((r.cells[r.index] + n) % 256) as u8),
                input,
                (fuel - n) as nat,
            )
        }),
    decreases s.len() - pos,
{
    reveal(read);
    let v = r.cells[r.index];
    if pos < s.len() && s[pos as int] == PLUS {
        if fuel > 0 {
            let one = raised(v, 1);
            let n = run(s, pos, PLUS);
            let m = (n - 1) as nat;
            let next = written(r, one);
            lemma_read_pluses(s, pos + 1, next, input, (fuel - 1) as nat);
            assert(read(s, pos, r, input, fuel) == read(s, pos + 1, next, input, (fuel - 1) as nat));
            assert(next.cells[next.index] == one);
            lemma_raise_twice(v as int, m as int);
            let cell = ((v + n) % 256) as u8;
            assert(((one + m) % 256) as u8 == cell);
            assert(written(next, cell).cells =~= written(r, cell).cells);
            assert(written(next, cell) == written(r, cell));
        }
    } else {
        assert(r.cells.update(r.index, v) =~= r.cells);
        assert(written(r, v) == r);
    }
}

/// Reading a run of `-` on a cell of the tape lowers the cell by the run's
/// length, modulo 256.
pub proof fn lemma_read_minuses(s: Seq<u8>, pos: nat, r: Reading, input: Seq<u8>, fuel: nat)
    requires
        pos <= s.len(),
        in_tape(r.index),
        r.cells.len() > r.index,
    ensures
        ({
            let n = run(s, pos, MINUS);
            &&& fuel < n ==> read(s, pos, r, input, fuel).ending is Unfinished
            &&& fuel >= n ==> read(s, pos, r, input, fuel) == read(
                s,
                pos + n,
                written(r, ((r.cells[r.index] - n) % 256) as u8),
                input,
                (fuel - n) as nat,
            )
        }),
    decreases s.len() - pos,
{
    reveal(read);
    let v = r.cells[r.index];
    if pos < s.len() && s[pos as int] == MINUS {
        if fuel > 0 {
            let one = lowered(v, 1);
            let n = run(s, pos, MINUS);
            let m = (n - 1) as nat;
            let next = written(r, one);
            lemma_read_minuses(s, pos + 1, next, input, (fuel - 1) as nat);
            assert(read(s, pos, r, input, fuel) == read(s, pos + 1, next, input, (fuel - 1) as nat));
            assert(next.cells[next.index] == one);
            lemma_raise_twice(v as int, m as int);
            let cell = ((v - n) % 256) as u8;
            assert(((one - m) % 256) as u8 == cell);
            assert(written(next, cell).cells =~= written(r, cell).cells);
            assert(written(next, cell) == written(r, cell));
        }
    } else {
        assert(r.cells.update(r.index, v) =~= r.cells);
        assert(written(r, v) == r);
    }
}

/// Reading `[-]` on a cell of the tape sets the cell to zero: it takes one
/// step, and two more for each unit that the cell held.
pub proof fn lemma_read_clear(s: Seq<u8>, pos: nat, r: Reading, input: Seq<u8>, fuel: nat)
    requires
        is_clear(s, pos),
        in_tape(r.index),
        r.cells.len() > r.index,
    ensures
        ({
            let cost = 1 + 2 * r.cells[r.index];
            &&& fuel < cost ==> read(s, pos, r, input, fuel).ending is Unfinished
            &&& fuel >= cost ==> read(s, pos, r, input, fuel) == read(
                s,
                pos + 3,
                written(r, 0),
                input,
                (fuel - cost) as nat,
            )
        }),
    decreases r.cells[r.index],
{
    reveal(read);
    let v = r.cells[r.index];
    assert(closing(s, pos + 2, 0) == Some(pos + 2));
    assert(closing(s, pos + 1, 0) == Some(pos + 2));
    if fuel > 0 {
        let rest = (fuel - 1) as nat;
        if v == 0 {
            assert(r.cells.update(r.index, 0u8) =~= r.cells);
            assert(written(r, 0) == r);
        } else {
            let less = written(r, lowered(v, 1));
            let body = read(s, pos + 1, r, input, rest);
            if rest > 0 {
                assert(read(s, pos + 2, less, input, (rest - 1) as nat) == Outcome {
                    state: less,
                    ending: Ending::Closed(pos + 2),
                    fuel: (rest - 1) as nat,
                });
                assert(body == read(s, pos + 2, less, input, (rest - 1) as nat));
                lemma_read_clear(s, pos, less, input, (rest - 1) as nat);
                assert(less.cells[less.index] == v - 1);
                assert(written(less, 0).cells =~= written(r, 0).cells);
                assert(written(less, 0) == written(r, 0));
            } else {
                assert(body.ending is Unfinished);
            }
        }
    }
}

/// A run of a byte that is no bracket holds no closing `]`.
proof fn lemma_run_closes_nothing(s: Seq<u8>, pos: nat, c: u8, depth: nat)
    requires
        pos <= s.len(),
        c != OPEN,
        c != CLOSE,
    ensures
        closing(s, pos, depth) == closing(s, pos + run(s, pos, c), depth),
    decreases s.len() - pos,
{
    if pos < s.len() && s[pos as int] == c {
        lemma_run_closes_nothing(s, pos + 1, c, depth);
    }
}

/// A token that is no loop bracket holds no closing `]`.
proof fn lemma_token_closes_nothing(s: Seq<u8>, pos: nat, offset: int, code: Seq<Comm>, depth: nat)
    requires
        pos < s.len(),
        s[pos as int] != CLOSE,
        !opens_loop(s, pos),
    ensures
        closing(s, pos, depth) == closing(s, token(s, pos, offset, code).pos, depth),
{
    let c = s[pos as int];
    if c == RIGHT || c == LEFT || c == PLUS || c == MINUS {
        lemma_run_closes_nothing(s, pos + 1, c, depth);
    } else if is_clear(s, pos) {
        assert(closing(s, pos, depth) == closing(s, pos + 1, depth + 1));
        assert(closing(s, pos + 1, depth + 1) == closing(s, pos + 2, depth + 1));
        assert(closing(s, pos + 2, depth + 1) == closing(s, pos + 3, depth));
    }
}

/// The `]` on which a block stops is the closing `]` of its stretch, and a
/// block that ends with the source has none.
pub proof fn lemma_block_closing(
    s: Seq<u8>,
    pos: nat,
    offset: int,
    code: Seq<Comm>,
    init: nat,
    depth: nat,
)
    requires
        pos <= s.len(),
    ensures
        block(s, pos, offset, code, init) matches Ok(b) ==> closing(s, pos, depth) == if !b.closed {
            None
        } else if depth == 0 {
            Some(b.stop)
        } else {
            closing(s, b.stop + 1, (depth - 1) as nat)
        },
    decreases left(s, pos),
{
    reveal(block);
    lemma_block_extends(s, pos, offset, code, init);
    if pos < s.len() {
        if s[pos as int] == CLOSE {
        } else if opens_loop(s, pos) {
            let head = committed(code, offset);
            let opened = head.push(Comm::Clear(0));
            lemma_block_extends(s, pos + 1, 0, opened, head.len());
            lemma_block_closing(s, pos + 1, 0, opened, head.len(), depth + 1);
            if let Ok(body) = block(s, pos + 1, 0, opened, head.len()) {
                if body.closed {
                    let patched = body.code.update(
                        head.len() as int,
                        Comm::LP((body.code.len() - 1) as usize),
                    );
                    lemma_block_closing(s, body.stop + 1, 0, patched, init, depth);
                }
            }
        } else {
            let t = token(s, pos, offset, code);
            lemma_token(s, pos, offset, code);
            lemma_token_closes_nothing(s, pos, offset, code, depth);
            lemma_block_closing(s, t.pos, t.offset, t.code, init, depth);
        }
    }
}

} // verus!
