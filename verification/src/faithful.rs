use vstd::prelude::*;
use crate::comm::{Comm, Fault, SyntaxFault, TAPE_LEN};
use crate::laws::lemma_run_step;
use crate::machine::{
    in_tape, landing, lowered, offered, raised, run_of, start, step_of, Effect, State, Status,
    Step, Trace,
};
use crate::nesting::agree;
use crate::reading::{
    closing, fresh, lemma_block_closing, lemma_read_clear, lemma_read_fuel, lemma_read_minuses,
    lemma_read_more, lemma_read_moves, lemma_read_pluses, lemma_read_step, read, shifted,
    written, Ending, Outcome, Reading,
};
use crate::scan::{
    block, committed, is_clear, keeps, left, lemma_block_extends, lemma_block_step, lemma_token,
    opens_loop, resume, run, token, translate, Block, CLOSE, COMMA, DOT, LEFT, MINUS, OPEN, PLUS,
    RIGHT,
};

verus! {

/// A state of the machine with what was consumed and emitted so far.
struct Config {
    state: State,
    taken: nat,
    output: Seq<u8>,
}

/// From `a` the program comes to `b` in `k` steps, and not before: a run
/// from `a` that has `k` steps or more goes on from `b` with what is left
/// of them, and one that has fewer does not end.
#[verifier::opaque]
spec fn leads(code: Seq<Comm>, input: Seq<u8>, a: Config, b: Config, k: nat) -> bool {
    forall|g: nat|
        {
            let whole = #[trigger] run_of(code, a.state, input, a.taken, a.output, g);
            &&& g >= k ==> whole == run_of(
                code,
                b.state,
                input,
                b.taken,
                b.output,
                (g - k) as nat,
            )
            &&& g < k ==> whole.status is Unfinished
        }
}

/// The configuration that one instruction leads to.
spec fn stepped(code: Seq<Comm>, input: Seq<u8>, a: Config) -> Config {
    let next = step_of(code, a.state, offered(input, a.taken))->Ok_0;
    Config {
        state: next.state,
        taken: match next.effect {
            Effect::Read => a.taken + 1,
            _ => a.taken,
        },
        output: match next.effect {
            Effect::Wrote(byte) => a.output.push(byte),
            _ => a.output,
        },
    }
}

proof fn lemma_leads_nowhere(code: Seq<Comm>, input: Seq<u8>, a: Config)
    ensures
        leads(code, input, a, a, 0),
{
    reveal(leads);
}

proof fn lemma_leads_step(code: Seq<Comm>, input: Seq<u8>, a: Config)
    requires
        a.state.pc < code.len(),
        step_of(code, a.state, offered(input, a.taken)) is Ok,
    ensures
        leads(code, input, a, stepped(code, input, a), 1),
{
    reveal(leads);
    let b = stepped(code, input, a);
    assert forall|g: nat|
        {
            let whole = #[trigger] run_of(code, a.state, input, a.taken, a.output, g);
            &&& g >= 1 ==> whole == run_of(code, b.state, input, b.taken, b.output, (g - 1) as nat)
            &&& g < 1 ==> whole.status is Unfinished
        } by {
        lemma_run_step(code, a.state, input, a.taken, a.output, g);
    }
}

proof fn lemma_leads_join(
    code: Seq<Comm>,
    input: Seq<u8>,
    a: Config,
    b: Config,
    c: Config,
    k: nat,
    l: nat,
)
    requires
        leads(code, input, a, b, k),
        leads(code, input, b, c, l),
    ensures
        leads(code, input, a, c, k + l),
{
    reveal(leads);
    assert forall|g: nat|
        {
            let whole = #[trigger] run_of(code, a.state, input, a.taken, a.output, g);
            &&& g >= k + l ==> whole == run_of(
                code,
                c.state,
                input,
                c.taken,
                c.output,
                (g - (k + l)) as nat,
            )
            &&& g < k + l ==> whole.status is Unfinished
        } by {
        if g >= k {
            let h = (g - k) as nat;
            let part = run_of(code, b.state, input, b.taken, b.output, h);
            assert(run_of(code, a.state, input, a.taken, a.output, g) == part);
            assert(h >= l ==> part == run_of(
                code,
                c.state,
                input,
                c.taken,
                c.output,
                (h - l) as nat,
            ));
            assert(h < l ==> part.status is Unfinished);
        }
    }
}

/// A run from `a` does not end where what is left of it from `b` does not.
proof fn lemma_not_yet(code: Seq<Comm>, input: Seq<u8>, a: Config, b: Config, k: nat, g: nat)
    requires
        leads(code, input, a, b, k),
        g >= k ==> run_of(code, b.state, input, b.taken, b.output, (g - k) as nat).status
            is Unfinished,
    ensures
        run_of(code, a.state, input, a.taken, a.output, g).status is Unfinished,
{
    reveal(leads);
}

/// The configuration of the machine that stands for the reading `r` while
/// the pointer offset `offset` is pending: the machine's data pointer lags
/// behind by it.
spec fn machine(r: Reading, offset: int, pc: nat) -> Config {
    Config {
        state: State { cells: r.cells, index: r.index - offset, pc },
        taken: r.taken,
        output: r.output,
    }
}

/// The block at `pos` is part of the translation that made `code`: the
/// instructions that it emits stand in `code`.
spec fn placed(
    s: Seq<u8>,
    code: Seq<Comm>,
    pos: nat,
    offset: int,
    emitted: Seq<Comm>,
    init: nat,
) -> bool {
    &&& pos <= s.len() <= i32::MAX
    &&& -pos <= offset <= pos
    &&& code.len() <= usize::MAX
    &&& block(s, pos, offset, emitted, init) matches Ok(b) && agree(
        code,
        b.code,
        emitted.len() as int,
        b.code.len() as int,
    )
}

/// The program has come, from `a`, to where the reading `rd` of the block
/// `b` ended: `w` holds the steps that it took, the offset that is pending
/// there, and the program counter.
spec fn follows(
    code: Seq<Comm>,
    input: Seq<u8>,
    a: Config,
    rd: Outcome,
    b: Block,
    w: (nat, int, nat),
) -> bool {
    rd.ending is Unfinished || ({
        let end = machine(rd.state, w.1, w.2);
        &&& leads(code, input, a, end, w.0)
        &&& match rd.ending {
            Ending::Closed(q) => b.closed && q == b.stop && w.1 == 0 && w.2 == b.code.len() - 1,
            Ending::Ended => !b.closed && w.2 == b.code.len(),
            Ending::Faulted(fault) => w.2 < code.len() && step_of(
                code,
                end.state,
                offered(input, end.taken),
            ) == Err::<Step, Fault>(fault),
            Ending::Unfinished => true,
        }
    })
}

proof fn lemma_follows_later(
    code: Seq<Comm>,
    input: Seq<u8>,
    a: Config,
    mid: Config,
    k: nat,
    rd: Outcome,
    b: Block,
    w: (nat, int, nat),
)
    requires
        leads(code, input, a, mid, k),
        follows(code, input, mid, rd, b, w),
    ensures
        follows(code, input, a, rd, b, (k + w.0, w.1, w.2)),
{
    if !(rd.ending is Unfinished) {
        lemma_leads_join(code, input, a, mid, machine(rd.state, w.1, w.2), k, w.0);
    }
}

/// What a token that is no loop bracket leaves in the program: the block
/// goes on behind it, and the instruction that it emits, if any, stands in
/// the program.
proof fn lemma_token_placed(
    s: Seq<u8>,
    code: Seq<Comm>,
    pos: nat,
    offset: int,
    emitted: Seq<Comm>,
    init: nat,
)
    requires
        placed(s, code, pos, offset, emitted, init),
        pos < s.len(),
        s[pos as int] != CLOSE,
        !opens_loop(s, pos),
    ensures
        ({
            let t = token(s, pos, offset, emitted);
            &&& placed(s, code, t.pos, t.offset, t.code, init)
            &&& block(s, pos, offset, emitted, init) == block(s, t.pos, t.offset, t.code, init)
            &&& emitted.len() < code.len() || t.code == emitted
            &&& t.code.len() > emitted.len() ==> code[emitted.len() as int]
                == t.code[emitted.len() as int]
            &&& pos + run(s, pos, s[pos as int]) <= s.len()
        }),
{
    let t = token(s, pos, offset, emitted);
    lemma_block_step(s, pos, offset, emitted, init);
    lemma_token(s, pos, offset, emitted);
    lemma_block_extends(s, t.pos, t.offset, t.code, init);
    crate::scan::lemma_run_fits(s, pos, s[pos as int]);
    let b = block(s, pos, offset, emitted, init)->Ok_0;
    if t.code.len() > emitted.len() {
        assert(b.code[emitted.len() as int] == t.code[emitted.len() as int]);
        assert(code[emitted.len() as int] == b.code[emitted.len() as int]);
    } else {
        assert(t.code =~= emitted);
    }
}

/// The loop that opens at `p`, behind the instructions `head`, is part of
/// the translation that made `code`.
spec fn looped(s: Seq<u8>, code: Seq<Comm>, p: nat, head: Seq<Comm>, init: nat) -> bool {
    &&& p < s.len() <= i32::MAX
    &&& opens_loop(s, p)
    &&& code.len() <= usize::MAX
    &&& block(s, p + 1, 0, head.push(Comm::Clear(0)), head.len()) matches Ok(body) && body.closed
        && p < body.stop && (block(
        s,
        body.stop + 1,
        0,
        body.code.update(head.len() as int, Comm::LP((body.code.len() - 1) as usize)),
        init,
    ) matches Ok(b) && agree(code, b.code, head.len() as int, b.code.len() as int))
}

/// The body of the loop at `p`.
spec fn body_of(s: Seq<u8>, p: nat, head: Seq<Comm>) -> Block {
    block(s, p + 1, 0, head.push(Comm::Clear(0)), head.len())->Ok_0
}

/// What has been emitted when the loop at `p` is closed.
spec fn patched_of(s: Seq<u8>, p: nat, head: Seq<Comm>) -> Seq<Comm> {
    let body = body_of(s, p, head);
    body.code.update(head.len() as int, Comm::LP((body.code.len() - 1) as usize))
}

/// The block that the loop at `p` stands in, from the loop on.
spec fn rest_of(s: Seq<u8>, p: nat, head: Seq<Comm>, init: nat) -> Block {
    block(s, body_of(s, p, head).stop + 1, 0, patched_of(s, p, head), init)->Ok_0
}

proof fn lemma_looped(s: Seq<u8>, code: Seq<Comm>, p: nat, head: Seq<Comm>, init: nat)
    requires
        looped(s, code, p, head, init),
    ensures
        ({
            let body = body_of(s, p, head);
            let at = head.len();
            let last = (body.code.len() - 1) as nat;
            &&& at < last < code.len()
            &&& last < usize::MAX
            &&& code[at as int] == Comm::LP(last as usize)
            &&& code[last as int] == Comm::RP(at as usize)
            &&& closing(s, p + 1, 0) == Some(body.stop)
            &&& placed(s, code, p + 1, 0, head.push(Comm::Clear(0)), at)
            &&& placed(s, code, body.stop + 1, 0, patched_of(s, p, head), init)
            &&& patched_of(s, p, head).len() == last + 1
        }),
{
    let at = head.len();
    let opened = head.push(Comm::Clear(0));
    let body = body_of(s, p, head);
    let last = (body.code.len() - 1) as nat;
    let patched = patched_of(s, p, head);
    let b = rest_of(s, p, head, init);
    lemma_block_extends(s, p + 1, 0, opened, at);
    lemma_block_closing(s, p + 1, 0, opened, at, 0);
    lemma_block_extends(s, body.stop + 1, 0, patched, init);
    assert(keeps(b.code, patched));
    assert(b.code[at as int] == patched[at as int]);
    assert(b.code[last as int] == patched[last as int]);
    assert(body.code.last() == Comm::RP(at as usize));
    assert(agree(code, body.code, opened.len() as int, body.code.len() as int)) by {
        assert forall|k: int| opened.len() <= k < body.code.len() implies #[trigger] code[k]
            == body.code[k] by {
            assert(b.code[k] == patched[k]);
            assert(code[k] == b.code[k]);
        }
    }
}

/// The program of a source text does what the text does when it is read as
/// it stands: where the reading of a block ends, with the text, on the
/// block's `]` or with a fault, the program comes to the same tape, input
/// and output, and there halts, stands before the `RP` of that `]`, or
/// faults alike.
proof fn lemma_reads_as_runs(
    s: Seq<u8>,
    code: Seq<Comm>,
    pos: nat,
    offset: int,
    emitted: Seq<Comm>,
    init: nat,
    r: Reading,
    input: Seq<u8>,
    fuel: nat,
) -> (w: (nat, int, nat))
    requires
        placed(s, code, pos, offset, emitted, init),
        r.cells.len() == TAPE_LEN,
    ensures
        follows(
            code,
            input,
            machine(r, offset, emitted.len()),
            read(s, pos, r, input, fuel),
            block(s, pos, offset, emitted, init)->Ok_0,
            w,
        ),
    decreases fuel, 2nat,
{
    let a = machine(r, offset, emitted.len());
    let rd = read(s, pos, r, input, fuel);
    let b = block(s, pos, offset, emitted, init)->Ok_0;
    let at = emitted.len();
    lemma_read_step(s, pos, r, input, fuel);
    if pos >= s.len() {
        lemma_block_step(s, pos, offset, emitted, init);
        lemma_leads_nowhere(code, input, a);
        (0, offset, at)
    } else if s[pos as int] == CLOSE {
        lemma_case_close(s, code, pos, offset, emitted, init, r, input, fuel)
    } else if fuel == 0 {
        (0, 0, 0)
    } else if opens_loop(s, pos) {
        lemma_case_loop(s, code, pos, offset, emitted, init, r, input, fuel)
    } else {
        let c = s[pos as int];
        if c == RIGHT || c == LEFT {
            lemma_case_move(s, code, pos, offset, emitted, init, r, input, fuel)
        } else if c == PLUS || c == MINUS {
            lemma_case_count(s, code, pos, offset, emitted, init, r, input, fuel)
        } else if c == DOT {
            lemma_case_dot(s, code, pos, offset, emitted, init, r, input, fuel)
        } else if c == COMMA {
            lemma_case_comma(s, code, pos, offset, emitted, init, r, input, fuel)
        } else if is_clear(s, pos) {
            lemma_case_clear(s, code, pos, offset, emitted, init, r, input, fuel)
        } else {
            lemma_case_skip(s, code, pos, offset, emitted, init, r, input, fuel)
        }
    }
}

/// The case of a `]`: the pending offset is committed.
proof fn lemma_case_close(
    s: Seq<u8>,
    code: Seq<Comm>,
    pos: nat,
    offset: int,
    emitted: Seq<Comm>,
    init: nat,
    r: Reading,
    input: Seq<u8>,
    fuel: nat,
) -> (w: (nat, int, nat))
    requires
        placed(s, code, pos, offset, emitted, init),
        r.cells.len() == TAPE_LEN,
        pos < s.len(),
        s[pos as int] == CLOSE,
    ensures
        follows(
            code,
            input,
            machine(r, offset, emitted.len()),
            read(s, pos, r, input, fuel),
            block(s, pos, offset, emitted, init)->Ok_0,
            w,
        ),
{
    let a = machine(r, offset, emitted.len());
    let b = block(s, pos, offset, emitted, init)->Ok_0;
    let at = emitted.len();
    lemma_read_step(s, pos, r, input, fuel);
    lemma_block_step(s, pos, offset, emitted, init);
    if offset != 0 {
        assert(b.code[at as int] == Comm::Pointer(offset as i32));
        assert(code[at as int] == b.code[at as int]);
        lemma_leads_step(code, input, a);
        assert(stepped(code, input, a) == machine(r, 0, at + 1));
        (1, 0, at + 1)
    } else {
        lemma_leads_nowhere(code, input, a);
        (0, 0, at)
    }
}

/// The case of a `[` that opens a loop: the pending offset is committed, and the loop is gone through.
proof fn lemma_case_loop(
    s: Seq<u8>,
    code: Seq<Comm>,
    pos: nat,
    offset: int,
    emitted: Seq<Comm>,
    init: nat,
    r: Reading,
    input: Seq<u8>,
    fuel: nat,
) -> (w: (nat, int, nat))
    requires
        placed(s, code, pos, offset, emitted, init),
        r.cells.len() == TAPE_LEN,
        pos < s.len(),
        fuel > 0,
        opens_loop(s, pos),
    ensures
        follows(
            code,
            input,
            machine(r, offset, emitted.len()),
            read(s, pos, r, input, fuel),
            block(s, pos, offset, emitted, init)->Ok_0,
            w,
        ),
    decreases fuel, 1nat,
{
    let a = machine(r, offset, emitted.len());
    let rd = read(s, pos, r, input, fuel);
    let b = block(s, pos, offset, emitted, init)->Ok_0;
    let at = emitted.len();
    let head = committed(emitted, offset);
    lemma_block_step(s, pos, offset, emitted, init);
    lemma_block_extends(s, pos + 1, 0, head.push(Comm::Clear(0)), head.len());
    let body = body_of(s, pos, head);
    assert(resume(pos, body.stop) == body.stop + 1);
    assert(b == rest_of(s, pos, head, init));
    assert(looped(s, code, pos, head, init));
    let ready = machine(r, 0, head.len());
    let w = lemma_loop(s, code, pos, head, init, r, input, fuel, head.len());
    if offset != 0 {
        lemma_block_extends(s, body.stop + 1, 0, patched_of(s, pos, head), init);
        assert(head[at as int] == Comm::Pointer(offset as i32));
        assert(b.code[at as int] == patched_of(s, pos, head)[at as int]);
        assert(code[at as int] == b.code[at as int]);
        lemma_leads_step(code, input, a);
        assert(stepped(code, input, a) == ready);
        lemma_follows_later(code, input, a, ready, 1, rd, b, w);
        (1 + w.0, w.1, w.2)
    } else {
        assert(a == ready);
        w
    }
}

/// The case of a run of `>` or of `<`: nothing is executed, and the pending offset takes the move up.
proof fn lemma_case_move(
    s: Seq<u8>,
    code: Seq<Comm>,
    pos: nat,
    offset: int,
    emitted: Seq<Comm>,
    init: nat,
    r: Reading,
    input: Seq<u8>,
    fuel: nat,
) -> (w: (nat, int, nat))
    requires
        placed(s, code, pos, offset, emitted, init),
        r.cells.len() == TAPE_LEN,
        pos < s.len(),
        fuel > 0,
        s[pos as int] == RIGHT || s[pos as int] == LEFT,
    ensures
        follows(
            code,
            input,
            machine(r, offset, emitted.len()),
            read(s, pos, r, input, fuel),
            block(s, pos, offset, emitted, init)->Ok_0,
            w,
        ),
    decreases fuel, 1nat,
{
    let a = machine(r, offset, emitted.len());
    let rd = read(s, pos, r, input, fuel);
    let b = block(s, pos, offset, emitted, init)->Ok_0;
    let at = emitted.len();
    lemma_token_placed(s, code, pos, offset, emitted, init);
    lemma_read_step(s, pos, r, input, fuel);
    let t = token(s, pos, offset, emitted);
    let v = r.cells[r.index];
    let c = s[pos as int];
    lemma_read_moves(s, pos, c, r, input, fuel);
    let n = run(s, pos, c);
    let by = if c == RIGHT {
        n as int
    } else {
        -(n as int)
    };
    if rd.ending is Unfinished {
        (0, 0, 0)
    } else {
        assert(machine(shifted(r, by), t.offset, at) == a);
        lemma_reads_as_runs(
            s,
            code,
            t.pos,
            t.offset,
            t.code,
            init,
            shifted(r, by),
            input,
            (fuel - n) as nat,
        )
    }
}

/// The case of a run of `+` or of `-`: one instruction with the folded amount.
proof fn lemma_case_count(
    s: Seq<u8>,
    code: Seq<Comm>,
    pos: nat,
    offset: int,
    emitted: Seq<Comm>,
    init: nat,
    r: Reading,
    input: Seq<u8>,
    fuel: nat,
) -> (w: (nat, int, nat))
    requires
        placed(s, code, pos, offset, emitted, init),
        r.cells.len() == TAPE_LEN,
        pos < s.len(),
        fuel > 0,
        s[pos as int] == PLUS || s[pos as int] == MINUS,
    ensures
        follows(
            code,
            input,
            machine(r, offset, emitted.len()),
            read(s, pos, r, input, fuel),
            block(s, pos, offset, emitted, init)->Ok_0,
            w,
        ),
    decreases fuel, 1nat,
{
    let a = machine(r, offset, emitted.len());
    let rd = read(s, pos, r, input, fuel);
    let b = block(s, pos, offset, emitted, init)->Ok_0;
    let at = emitted.len();
    lemma_token_placed(s, code, pos, offset, emitted, init);
    lemma_read_step(s, pos, r, input, fuel);
    let t = token(s, pos, offset, emitted);
    let v = r.cells[r.index];
    let c = s[pos as int];
    let n = run(s, pos, c);
    if !in_tape(r.index) {
        lemma_leads_nowhere(code, input, a);
        (0, offset, at)
    } else {
        if c == PLUS {
            lemma_read_pluses(s, pos, r, input, fuel);
        } else {
            lemma_read_minuses(s, pos, r, input, fuel);
        }
        if rd.ending is Unfinished {
            (0, 0, 0)
        } else {
            let cell = if c == PLUS {
                ((v + n) % 256) as u8
            } else {
                ((v - n) % 256) as u8
            };
            let next = written(r, cell);
            let left = (fuel - n) as nat;
            lemma_folded(v, n);
            let w = lemma_reads_as_runs(s, code, t.pos, t.offset, t.code, init, next, input, left);
            lemma_leads_step(code, input, a);
            assert(stepped(code, input, a) == machine(next, offset, at + 1));
            lemma_follows_later(code, input, a, machine(next, offset, at + 1), 1, rd, b, w);
            (1 + w.0, w.1, w.2)
        }
    }
}

/// The case of a `.`.
proof fn lemma_case_dot(
    s: Seq<u8>,
    code: Seq<Comm>,
    pos: nat,
    offset: int,
    emitted: Seq<Comm>,
    init: nat,
    r: Reading,
    input: Seq<u8>,
    fuel: nat,
) -> (w: (nat, int, nat))
    requires
        placed(s, code, pos, offset, emitted, init),
        r.cells.len() == TAPE_LEN,
        pos < s.len(),
        fuel > 0,
        s[pos as int] == DOT,
    ensures
        follows(
            code,
            input,
            machine(r, offset, emitted.len()),
            read(s, pos, r, input, fuel),
            block(s, pos, offset, emitted, init)->Ok_0,
            w,
        ),
    decreases fuel, 1nat,
{
    let a = machine(r, offset, emitted.len());
    let rd = read(s, pos, r, input, fuel);
    let b = block(s, pos, offset, emitted, init)->Ok_0;
    let at = emitted.len();
    lemma_token_placed(s, code, pos, offset, emitted, init);
    lemma_read_step(s, pos, r, input, fuel);
    let t = token(s, pos, offset, emitted);
    let v = r.cells[r.index];
    if !in_tape(r.index) {
        lemma_leads_nowhere(code, input, a);
        (0, offset, at)
    } else {
        let next = Reading {
            cells: r.cells,
            index: r.index,
            taken: r.taken,
            output: r.output.push(v),
        };
        let left = (fuel - 1) as nat;
        let w = lemma_reads_as_runs(s, code, t.pos, t.offset, t.code, init, next, input, left);
        lemma_leads_step(code, input, a);
        assert(stepped(code, input, a) == machine(next, offset, at + 1));
        lemma_follows_later(code, input, a, machine(next, offset, at + 1), 1, rd, b, w);
        (1 + w.0, w.1, w.2)
    }
}

/// The case of a `,`.
proof fn lemma_case_comma(
    s: Seq<u8>,
    code: Seq<Comm>,
    pos: nat,
    offset: int,
    emitted: Seq<Comm>,
    init: nat,
    r: Reading,
    input: Seq<u8>,
    fuel: nat,
) -> (w: (nat, int, nat))
    requires
        placed(s, code, pos, offset, emitted, init),
        r.cells.len() == TAPE_LEN,
        pos < s.len(),
        fuel > 0,
        s[pos as int] == COMMA,
    ensures
        follows(
            code,
            input,
            machine(r, offset, emitted.len()),
            read(s, pos, r, input, fuel),
            block(s, pos, offset, emitted, init)->Ok_0,
            w,
        ),
    decreases fuel, 1nat,
{
    let a = machine(r, offset, emitted.len());
    let rd = read(s, pos, r, input, fuel);
    let b = block(s, pos, offset, emitted, init)->Ok_0;
    let at = emitted.len();
    lemma_token_placed(s, code, pos, offset, emitted, init);
    lemma_read_step(s, pos, r, input, fuel);
    let t = token(s, pos, offset, emitted);
    let v = r.cells[r.index];
    if !in_tape(r.index) {
        lemma_leads_nowhere(code, input, a);
        (0, offset, at)
    } else if offered(input, r.taken) is None {
        lemma_leads_nowhere(code, input, a);
        (0, offset, at)
    } else {
        let next = Reading {
            cells: r.cells.update(r.index, offered(input, r.taken)->Some_0),
            index: r.index,
            taken: r.taken + 1,
            output: r.output,
        };
        let left = (fuel - 1) as nat;
        let w = lemma_reads_as_runs(s, code, t.pos, t.offset, t.code, init, next, input, left);
        lemma_leads_step(code, input, a);
        assert(stepped(code, input, a) == machine(next, offset, at + 1));
        lemma_follows_later(code, input, a, machine(next, offset, at + 1), 1, rd, b, w);
        (1 + w.0, w.1, w.2)
    }
}

/// The case of `[-]`: one instruction for the whole loop.
proof fn lemma_case_clear(
    s: Seq<u8>,
    code: Seq<Comm>,
    pos: nat,
    offset: int,
    emitted: Seq<Comm>,
    init: nat,
    r: Reading,
    input: Seq<u8>,
    fuel: nat,
) -> (w: (nat, int, nat))
    requires
        placed(s, code, pos, offset, emitted, init),
        r.cells.len() == TAPE_LEN,
        pos < s.len(),
        fuel > 0,
        is_clear(s, pos),
    ensures
        follows(
            code,
            input,
            machine(r, offset, emitted.len()),
            read(s, pos, r, input, fuel),
            block(s, pos, offset, emitted, init)->Ok_0,
            w,
        ),
    decreases fuel, 1nat,
{
    let a = machine(r, offset, emitted.len());
    let rd = read(s, pos, r, input, fuel);
    let b = block(s, pos, offset, emitted, init)->Ok_0;
    let at = emitted.len();
    lemma_token_placed(s, code, pos, offset, emitted, init);
    lemma_read_step(s, pos, r, input, fuel);
    let t = token(s, pos, offset, emitted);
    let v = r.cells[r.index];
    if !in_tape(r.index) {
        lemma_leads_nowhere(code, input, a);
        (0, offset, at)
    } else {
        lemma_read_clear(s, pos, r, input, fuel);
        if rd.ending is Unfinished {
            (0, 0, 0)
        } else {
            let next = written(r, 0);
            let left = (fuel - (1 + 2 * v)) as nat;
            let w = lemma_reads_as_runs(s, code, t.pos, t.offset, t.code, init, next, input, left);
            lemma_leads_step(code, input, a);
            assert(stepped(code, input, a) == machine(next, offset, at + 1));
            lemma_follows_later(code, input, a, machine(next, offset, at + 1), 1, rd, b, w);
            (1 + w.0, w.1, w.2)
        }
    }
}

/// The case of a byte that is no command.
proof fn lemma_case_skip(
    s: Seq<u8>,
    code: Seq<Comm>,
    pos: nat,
    offset: int,
    emitted: Seq<Comm>,
    init: nat,
    r: Reading,
    input: Seq<u8>,
    fuel: nat,
) -> (w: (nat, int, nat))
    requires
        placed(s, code, pos, offset, emitted, init),
        r.cells.len() == TAPE_LEN,
        pos < s.len(),
        fuel > 0,
        s[pos as int] != RIGHT && s[pos as int] != LEFT && s[pos as int] != PLUS,
        s[pos as int] != MINUS && s[pos as int] != DOT && s[pos as int] != COMMA,
        s[pos as int] != OPEN && s[pos as int] != CLOSE,
    ensures
        follows(
            code,
            input,
            machine(r, offset, emitted.len()),
            read(s, pos, r, input, fuel),
            block(s, pos, offset, emitted, init)->Ok_0,
            w,
        ),
    decreases fuel, 1nat,
{
    let a = machine(r, offset, emitted.len());
    let rd = read(s, pos, r, input, fuel);
    let b = block(s, pos, offset, emitted, init)->Ok_0;
    let at = emitted.len();
    lemma_token_placed(s, code, pos, offset, emitted, init);
    lemma_read_step(s, pos, r, input, fuel);
    let t = token(s, pos, offset, emitted);
    let v = r.cells[r.index];
    lemma_reads_as_runs(s, code, t.pos, t.offset, t.code, init, r, input, (fuel - 1) as nat)
}

/// One instruction with the folded amount does what the run does.
proof fn lemma_folded(v: u8, n: nat)
    ensures
        raised(v, (n % 256) as u8) == ((v + n) % 256) as u8,
        lowered(v, (n % 256) as u8) == ((v - n) % 256) as u8,
{
}

/// The same for a loop, from its test on: the machine stands on the loop's
/// `LP` or, after the body, on its `RP`, and the text is read from its `[`.
proof fn lemma_loop(
    s: Seq<u8>,
    code: Seq<Comm>,
    p: nat,
    head: Seq<Comm>,
    init: nat,
    r: Reading,
    input: Seq<u8>,
    fuel: nat,
    pc: nat,
) -> (w: (nat, int, nat))
    requires
        looped(s, code, p, head, init),
        r.cells.len() == TAPE_LEN,
        pc == head.len() || pc == body_of(s, p, head).code.len() - 1,
    ensures
        follows(
            code,
            input,
            machine(r, 0, pc),
            read(s, p, r, input, fuel),
            rest_of(s, p, head, init),
            w,
        ),
    decreases fuel, 0nat,
{
    let a = machine(r, 0, pc);
    let rd = read(s, p, r, input, fuel);
    let at = head.len();
    let body = body_of(s, p, head);
    let last = (body.code.len() - 1) as nat;
    let patched = patched_of(s, p, head);
    let b = rest_of(s, p, head, init);
    lemma_looped(s, code, p, head, init);
    lemma_read_step(s, p, r, input, fuel);
    if fuel == 0 {
        (0, 0, 0)
    } else if !in_tape(r.index) {
        lemma_leads_nowhere(code, input, a);
        (0, 0, pc)
    } else if r.cells[r.index] == 0 {
        let behind = machine(r, 0, last + 1);
        lemma_leads_step(code, input, a);
        assert(landing(code.len(), last as usize) == last + 1);
        assert(stepped(code, input, a) == behind);
        let w = lemma_reads_as_runs(
            s,
            code,
            body.stop + 1,
            0,
            patched,
            init,
            r,
            input,
            (fuel - 1) as nat,
        );
        lemma_follows_later(code, input, a, behind, 1, rd, b, w);
        (1 + w.0, w.1, w.2)
    } else {
        let inside = machine(r, 0, at + 1);
        lemma_leads_step(code, input, a);
        assert(landing(code.len(), at as usize) == at + 1);
        assert(stepped(code, input, a) == inside);
        let round = read(s, p + 1, r, input, (fuel - 1) as nat);
        let w = lemma_reads_as_runs(
            s,
            code,
            p + 1,
            0,
            head.push(Comm::Clear(0)),
            at,
            r,
            input,
            (fuel - 1) as nat,
        );
        lemma_read_fuel(s, p + 1, r, input, (fuel - 1) as nat);
        if round.ending is Unfinished {
            (0, 0, 0)
        } else if round.ending is Closed {
            let again = machine(round.state, 0, last);
            let v = lemma_loop(s, code, p, head, init, round.state, input, round.fuel, last);
            lemma_leads_join(code, input, a, inside, again, 1, w.0);
            lemma_follows_later(code, input, a, again, 1 + w.0, rd, b, v);
            (1 + w.0 + v.0, v.1, v.2)
        } else {
            lemma_leads_join(code, input, a, inside, machine(round.state, w.1, w.2), 1, w.0);
            (1 + w.0, w.1, w.2)
        }
    }
}

/// The run from `a` with `g` steps does not end.
spec fn unended(code: Seq<Comm>, input: Seq<u8>, a: Config, g: nat) -> bool {
    run_of(code, a.state, input, a.taken, a.output, g).status is Unfinished
}

/// A run from `a` with `g` steps does not end where, after one step, what
/// is left of it does not.
proof fn lemma_not_yet_if(
    code: Seq<Comm>,
    input: Seq<u8>,
    a: Config,
    b: Config,
    g: nat,
    open: bool,
)
    requires
        g >= 1,
        leads(code, input, a, b, 1),
        open ==> unended(code, input, b, (g - 1) as nat),
    ensures
        open ==> unended(code, input, a, g),
{
    if open {
        lemma_not_yet(code, input, a, b, 1, g);
    }
}

/// The other way round: a run of the program that ends takes the reading
/// of the text to an end with it. `need` steps are enough for the reading
/// of the block to end, unless the run from where the block begins, with
/// `g` steps, does not end.
proof fn lemma_runs_as_reads(
    s: Seq<u8>,
    code: Seq<Comm>,
    pos: nat,
    offset: int,
    emitted: Seq<Comm>,
    init: nat,
    r: Reading,
    input: Seq<u8>,
    g: nat,
) -> (need: nat)
    requires
        placed(s, code, pos, offset, emitted, init),
        r.cells.len() == TAPE_LEN,
    ensures
        read(s, pos, r, input, need).ending is Unfinished ==> unended(
            code,
            input,
            machine(r, offset, emitted.len()),
            g,
        ),
    decreases g, left(s, pos), 2nat,
{
    let a = machine(r, offset, emitted.len());
    let at = emitted.len();
    lemma_read_step(s, pos, r, input, 0);
    if pos >= s.len() {
        0
    } else if s[pos as int] == CLOSE {
        0
    } else if opens_loop(s, pos) {
        lemma_back_loop(s, code, pos, offset, emitted, init, r, input, g)
    } else {
        let c = s[pos as int];
        if c == RIGHT || c == LEFT {
            lemma_back_move(s, code, pos, offset, emitted, init, r, input, g)
        } else if c == PLUS || c == MINUS {
            lemma_back_count(s, code, pos, offset, emitted, init, r, input, g)
        } else if c == DOT {
            lemma_back_dot(s, code, pos, offset, emitted, init, r, input, g)
        } else if c == COMMA {
            lemma_back_comma(s, code, pos, offset, emitted, init, r, input, g)
        } else if is_clear(s, pos) {
            lemma_back_clear(s, code, pos, offset, emitted, init, r, input, g)
        } else {
            lemma_back_skip(s, code, pos, offset, emitted, init, r, input, g)
        }
    }
}

/// The case of a run of `>` or of `<`.
proof fn lemma_back_move(
    s: Seq<u8>,
    code: Seq<Comm>,
    pos: nat,
    offset: int,
    emitted: Seq<Comm>,
    init: nat,
    r: Reading,
    input: Seq<u8>,
    g: nat,
) -> (need: nat)
    requires
        placed(s, code, pos, offset, emitted, init),
        r.cells.len() == TAPE_LEN,
        pos < s.len(),
        s[pos as int] == RIGHT || s[pos as int] == LEFT,
    ensures
        read(s, pos, r, input, need).ending is Unfinished ==> unended(
            code,
            input,
            machine(r, offset, emitted.len()),
            g,
        ),
    decreases g, left(s, pos), 1nat,
{
    let a = machine(r, offset, emitted.len());
    let at = emitted.len();
    lemma_token_placed(s, code, pos, offset, emitted, init);
    let t = token(s, pos, offset, emitted);
    let v = r.cells[r.index];
    let c = s[pos as int];
    let n = run(s, pos, c);
    let by = if c == RIGHT {
        n as int
    } else {
        -(n as int)
    };
    assert(machine(shifted(r, by), t.offset, at) == a);
    let rest = lemma_runs_as_reads(s, code, t.pos, t.offset, t.code, init, shifted(r, by), input, g);
    lemma_read_moves(s, pos, c, r, input, n + rest);
    n + rest
}

/// The case of a byte that is no command.
proof fn lemma_back_skip(
    s: Seq<u8>,
    code: Seq<Comm>,
    pos: nat,
    offset: int,
    emitted: Seq<Comm>,
    init: nat,
    r: Reading,
    input: Seq<u8>,
    g: nat,
) -> (need: nat)
    requires
        placed(s, code, pos, offset, emitted, init),
        r.cells.len() == TAPE_LEN,
        pos < s.len(),
        s[pos as int] != RIGHT && s[pos as int] != LEFT && s[pos as int] != PLUS,
        s[pos as int] != MINUS && s[pos as int] != DOT && s[pos as int] != COMMA,
        s[pos as int] != OPEN && s[pos as int] != CLOSE,
    ensures
        read(s, pos, r, input, need).ending is Unfinished ==> unended(
            code,
            input,
            machine(r, offset, emitted.len()),
            g,
        ),
    decreases g, left(s, pos), 1nat,
{
    let a = machine(r, offset, emitted.len());
    let at = emitted.len();
    lemma_token_placed(s, code, pos, offset, emitted, init);
    let t = token(s, pos, offset, emitted);
    let v = r.cells[r.index];
    let rest = lemma_runs_as_reads(s, code, t.pos, t.offset, t.code, init, r, input, g);
    lemma_read_step(s, pos, r, input, 1 + rest);
    1 + rest
}

/// The case of a run of `+` or of `-`.
proof fn lemma_back_count(
    s: Seq<u8>,
    code: Seq<Comm>,
    pos: nat,
    offset: int,
    emitted: Seq<Comm>,
    init: nat,
    r: Reading,
    input: Seq<u8>,
    g: nat,
) -> (need: nat)
    requires
        placed(s, code, pos, offset, emitted, init),
        r.cells.len() == TAPE_LEN,
        pos < s.len(),
        s[pos as int] == PLUS || s[pos as int] == MINUS,
    ensures
        read(s, pos, r, input, need).ending is Unfinished ==> unended(
            code,
            input,
            machine(r, offset, emitted.len()),
            g,
        ),
    decreases g, left(s, pos), 1nat,
{
    let a = machine(r, offset, emitted.len());
    let at = emitted.len();
    lemma_token_placed(s, code, pos, offset, emitted, init);
    let t = token(s, pos, offset, emitted);
    let v = r.cells[r.index];
    let c = s[pos as int];
    let n = run(s, pos, c);
    if !in_tape(r.index) {
        lemma_read_step(s, pos, r, input, 1);
        1
    } else {
        let cell = if c == PLUS {
            ((v + n) % 256) as u8
        } else {
            ((v - n) % 256) as u8
        };
        let next = written(r, cell);
        lemma_folded(v, n);
        let need = if g == 0 {
            lemma_leads_step(code, input, a);
            lemma_not_yet(code, input, a, stepped(code, input, a), 1, g);
            0
        } else {
            let rest = lemma_runs_as_reads(
                s,
                code,
                t.pos,
                t.offset,
                t.code,
                init,
                next,
                input,
                (g - 1) as nat,
            );
            lemma_leads_step(code, input, a);
            assert(stepped(code, input, a) == machine(next, offset, at + 1));
            lemma_not_yet_if(
                code,
                input,
                a,
                machine(next, offset, at + 1),
                g,
                read(s, t.pos, next, input, rest).ending is Unfinished,
            );
            n + rest
        };
        if c == PLUS {
            lemma_read_pluses(s, pos, r, input, need);
        } else {
            lemma_read_minuses(s, pos, r, input, need);
        }
        need
    }
}

/// The case of a `.`.
proof fn lemma_back_dot(
    s: Seq<u8>,
    code: Seq<Comm>,
    pos: nat,
    offset: int,
    emitted: Seq<Comm>,
    init: nat,
    r: Reading,
    input: Seq<u8>,
    g: nat,
) -> (need: nat)
    requires
        placed(s, code, pos, offset, emitted, init),
        r.cells.len() == TAPE_LEN,
        pos < s.len(),
        s[pos as int] == DOT,
    ensures
        read(s, pos, r, input, need).ending is Unfinished ==> unended(
            code,
            input,
            machine(r, offset, emitted.len()),
            g,
        ),
    decreases g, left(s, pos), 1nat,
{
    let a = machine(r, offset, emitted.len());
    let at = emitted.len();
    lemma_token_placed(s, code, pos, offset, emitted, init);
    let t = token(s, pos, offset, emitted);
    let v = r.cells[r.index];
    if !in_tape(r.index) {
        lemma_read_step(s, pos, r, input, 1);
        1
    } else {
        let next = Reading {
            cells: r.cells,
            index: r.index,
            taken: r.taken,
            output: r.output.push(v),
        };
        let need = if g == 0 {
            lemma_leads_step(code, input, a);
            lemma_not_yet(code, input, a, stepped(code, input, a), 1, g);
            0
        } else {
            let rest = lemma_runs_as_reads(
                s,
                code,
                t.pos,
                t.offset,
                t.code,
                init,
                next,
                input,
                (g - 1) as nat,
            );
            lemma_leads_step(code, input, a);
            assert(stepped(code, input, a) == machine(next, offset, at + 1));
            lemma_not_yet_if(
                code,
                input,
                a,
                machine(next, offset, at + 1),
                g,
                read(s, t.pos, next, input, rest).ending is Unfinished,
            );
            1 + rest
        };
        lemma_read_step(s, pos, r, input, need);
        need
    }
}

/// The case of a `,`.
proof fn lemma_back_comma(
    s: Seq<u8>,
    code: Seq<Comm>,
    pos: nat,
    offset: int,
    emitted: Seq<Comm>,
    init: nat,
    r: Reading,
    input: Seq<u8>,
    g: nat,
) -> (need: nat)
    requires
        placed(s, code, pos, offset, emitted, init),
        r.cells.len() == TAPE_LEN,
        pos < s.len(),
        s[pos as int] == COMMA,
    ensures
        read(s, pos, r, input, need).ending is Unfinished ==> unended(
            code,
            input,
            machine(r, offset, emitted.len()),
            g,
        ),
    decreases g, left(s, pos), 1nat,
{
    let a = machine(r, offset, emitted.len());
    let at = emitted.len();
    lemma_token_placed(s, code, pos, offset, emitted, init);
    let t = token(s, pos, offset, emitted);
    let v = r.cells[r.index];
    if !in_tape(r.index) || offered(input, r.taken) is None {
        lemma_read_step(s, pos, r, input, 1);
        1
    } else {
        let next = Reading {
            cells: r.cells.update(r.index, offered(input, r.taken)->Some_0),
            index: r.index,
            taken: r.taken + 1,
            output: r.output,
        };
        let need = if g == 0 {
            lemma_leads_step(code, input, a);
            lemma_not_yet(code, input, a, stepped(code, input, a), 1, g);
            0
        } else {
            let rest = lemma_runs_as_reads(
                s,
                code,
                t.pos,
                t.offset,
                t.code,
                init,
                next,
                input,
                (g - 1) as nat,
            );
            lemma_leads_step(code, input, a);
            assert(stepped(code, input, a) == machine(next, offset, at + 1));
            lemma_not_yet_if(
                code,
                input,
                a,
                machine(next, offset, at + 1),
                g,
                read(s, t.pos, next, input, rest).ending is Unfinished,
            );
            1 + rest
        };
        lemma_read_step(s, pos, r, input, need);
        need
    }
}

/// The case of `[-]`.
proof fn lemma_back_clear(
    s: Seq<u8>,
    code: Seq<Comm>,
    pos: nat,
    offset: int,
    emitted: Seq<Comm>,
    init: nat,
    r: Reading,
    input: Seq<u8>,
    g: nat,
) -> (need: nat)
    requires
        placed(s, code, pos, offset, emitted, init),
        r.cells.len() == TAPE_LEN,
        pos < s.len(),
        is_clear(s, pos),
    ensures
        read(s, pos, r, input, need).ending is Unfinished ==> unended(
            code,
            input,
            machine(r, offset, emitted.len()),
            g,
        ),
    decreases g, left(s, pos), 1nat,
{
    let a = machine(r, offset, emitted.len());
    let at = emitted.len();
    lemma_token_placed(s, code, pos, offset, emitted, init);
    let t = token(s, pos, offset, emitted);
    let v = r.cells[r.index];
    if !in_tape(r.index) {
        lemma_read_step(s, pos, r, input, 1);
        1
    } else {
        let next = written(r, 0);
        let need = if g == 0 {
            lemma_leads_step(code, input, a);
            lemma_not_yet(code, input, a, stepped(code, input, a), 1, g);
            0
        } else {
            let rest = lemma_runs_as_reads(
                s,
                code,
                t.pos,
                t.offset,
                t.code,
                init,
                next,
                input,
                (g - 1) as nat,
            );
            lemma_leads_step(code, input, a);
            assert(stepped(code, input, a) == machine(next, offset, at + 1));
            lemma_not_yet_if(
                code,
                input,
                a,
                machine(next, offset, at + 1),
                g,
                read(s, t.pos, next, input, rest).ending is Unfinished,
            );
            1 + 2 * (v as nat) + rest
        };
        lemma_read_clear(s, pos, r, input, need);
        need
    }
}

/// The case of a `[` that opens a loop.
proof fn lemma_back_loop(
    s: Seq<u8>,
    code: Seq<Comm>,
    pos: nat,
    offset: int,
    emitted: Seq<Comm>,
    init: nat,
    r: Reading,
    input: Seq<u8>,
    g: nat,
) -> (need: nat)
    requires
        placed(s, code, pos, offset, emitted, init),
        r.cells.len() == TAPE_LEN,
        pos < s.len(),
        opens_loop(s, pos),
    ensures
        read(s, pos, r, input, need).ending is Unfinished ==> unended(
            code,
            input,
            machine(r, offset, emitted.len()),
            g,
        ),
    decreases g, left(s, pos), 1nat,
{
    let a = machine(r, offset, emitted.len());
    let at = emitted.len();
    let b = block(s, pos, offset, emitted, init)->Ok_0;
    let head = committed(emitted, offset);
    lemma_block_step(s, pos, offset, emitted, init);
    lemma_block_extends(s, pos + 1, 0, head.push(Comm::Clear(0)), head.len());
    let body = body_of(s, pos, head);
    assert(resume(pos, body.stop) == body.stop + 1);
    assert(b == rest_of(s, pos, head, init));
    assert(looped(s, code, pos, head, init));
    let ready = machine(r, 0, head.len());
    if offset != 0 {
        lemma_block_extends(s, body.stop + 1, 0, patched_of(s, pos, head), init);
        assert(head[at as int] == Comm::Pointer(offset as i32));
        assert(b.code[at as int] == patched_of(s, pos, head)[at as int]);
        assert(code[at as int] == b.code[at as int]);
        lemma_leads_step(code, input, a);
        assert(stepped(code, input, a) == ready);
        if g == 0 {
            lemma_not_yet(code, input, a, ready, 1, g);
            0
        } else {
            let need = lemma_loop_back(
                s,
                code,
                pos,
                head,
                init,
                r,
                input,
                (g - 1) as nat,
                head.len(),
            );
            lemma_not_yet_if(
                code,
                input,
                a,
                ready,
                g,
                read(s, pos, r, input, need).ending is Unfinished,
            );
            need
        }
    } else {
        assert(a == ready);
        lemma_loop_back(s, code, pos, head, init, r, input, g, head.len())
    }
}

/// The same for a loop, from its test on.
proof fn lemma_loop_back(
    s: Seq<u8>,
    code: Seq<Comm>,
    p: nat,
    head: Seq<Comm>,
    init: nat,
    r: Reading,
    input: Seq<u8>,
    g: nat,
    pc: nat,
) -> (need: nat)
    requires
        looped(s, code, p, head, init),
        r.cells.len() == TAPE_LEN,
        pc == head.len() || pc == body_of(s, p, head).code.len() - 1,
    ensures
        read(s, p, r, input, need).ending is Unfinished ==> unended(
            code,
            input,
            machine(r, 0, pc),
            g,
        ),
    decreases g, left(s, p), 0nat,
{
    let a = machine(r, 0, pc);
    let at = head.len();
    let body = body_of(s, p, head);
    let last = (body.code.len() - 1) as nat;
    let patched = patched_of(s, p, head);
    lemma_looped(s, code, p, head, init);
    if !in_tape(r.index) {
        lemma_read_step(s, p, r, input, 1);
        1
    } else if g == 0 {
        lemma_run_step(code, a.state, input, a.taken, a.output, 0);
        0
    } else if r.cells[r.index] == 0 {
        let behind = machine(r, 0, last + 1);
        lemma_leads_step(code, input, a);
        assert(landing(code.len(), last as usize) == last + 1);
        assert(stepped(code, input, a) == behind);
        let rest = lemma_runs_as_reads(
            s,
            code,
            body.stop + 1,
            0,
            patched,
            init,
            r,
            input,
            (g - 1) as nat,
        );
        lemma_read_step(s, p, r, input, 1 + rest);
        lemma_not_yet_if(
            code,
            input,
            a,
            behind,
            g,
            read(s, body.stop + 1, r, input, rest).ending is Unfinished,
        );
        1 + rest
    } else {
        let inside = machine(r, 0, at + 1);
        lemma_leads_step(code, input, a);
        assert(landing(code.len(), at as usize) == at + 1);
        assert(stepped(code, input, a) == inside);
        let opened = head.push(Comm::Clear(0));
        let first = lemma_runs_as_reads(s, code, p + 1, 0, opened, at, r, input, (g - 1) as nat);
        let round = read(s, p + 1, r, input, first);
        if round.ending is Unfinished {
            lemma_not_yet(code, input, a, inside, 1, g);
            0
        } else if round.ending is Closed {
            let w = lemma_reads_as_runs(s, code, p + 1, 0, opened, at, r, input, first);
            let again = machine(round.state, 0, last);
            lemma_leads_join(code, input, a, inside, again, 1, w.0);
            lemma_read_fuel(s, p + 1, r, input, first);
            if g < 1 + w.0 {
                lemma_not_yet(code, input, a, again, 1 + w.0, g);
                0
            } else {
                let second = lemma_loop_back(
                    s,
                    code,
                    p,
                    head,
                    init,
                    round.state,
                    input,
                    (g - 1 - w.0) as nat,
                    last,
                );
                let need = 1 + first + second;
                lemma_read_step(s, p, r, input, need);
                lemma_read_more(s, p + 1, r, input, first, second);
                let whole = read(s, p, round.state, input, round.fuel + second);
                assert(read(s, p, r, input, need) == whole);
                if whole.ending is Unfinished {
                    if !(read(s, p, round.state, input, second).ending is Unfinished) {
                        lemma_read_more(s, p, round.state, input, second, round.fuel);
                    }
                    lemma_not_yet(code, input, a, again, 1 + w.0, g);
                }
                need
            }
        } else {
            lemma_read_step(s, p, r, input, 1 + first);
            1 + first
        }
    }
}

/// A run of the program has ended as the reading of the source text did:
/// with the same tape, the same input consumed and the same output, halted
/// where the reading came to the end of the text, and with the same fault
/// where it faulted.
pub open spec fn ends_alike(t: Trace, rd: Outcome) -> bool {
    &&& t.state.cells == rd.state.cells
    &&& t.taken == rd.state.taken
    &&& t.output == rd.state.output
    &&& match rd.ending {
        Ending::Ended => t.status == Status::Halted,
        Ending::Faulted(fault) => t.status == Status::Faulted(fault),
        _ => false,
    }
}

/// The program of a source text does what the text does when it is read as
/// it stands, byte by byte: where the reading comes to the end of the text
/// or to a fault within `fuel` steps, every run of the program that has `k`
/// steps or more ends alike.
pub proof fn law_program_is_faithful(s: Seq<u8>, code: Seq<Comm>, input: Seq<u8>, fuel: nat) -> (k:
    nat)
    requires
        s.len() <= i32::MAX,
        translate(s) == Ok::<Seq<Comm>, SyntaxFault>(code),
    ensures
        read(s, 0, fresh(), input, fuel).ending is Unfinished || (forall|g: nat|
            g >= k ==> ends_alike(
                #[trigger] run_of(code, start(), input, 0, Seq::empty(), g),
                read(s, 0, fresh(), input, fuel),
            )),
{
    let rd = read(s, 0, fresh(), input, fuel);
    let none = Seq::<Comm>::empty();
    lemma_block_extends(s, 0, 0, none, 0);
    let b = block(s, 0, 0, none, 0)->Ok_0;
    assert(b.code == code);
    assert(fresh().cells =~= start().cells);
    let w = lemma_reads_as_runs(s, code, 0, 0, none, 0, fresh(), input, fuel);
    if rd.ending is Unfinished {
        0
    } else {
        reveal(leads);
        let a = machine(fresh(), 0, 0);
        let end = machine(rd.state, w.1, w.2);
        assert(a.state == start());
        let k = if rd.ending is Ended {
            w.0
        } else {
            w.0 + 1
        };
        assert forall|g: nat| g >= k implies ends_alike(
            #[trigger] run_of(code, start(), input, 0, Seq::empty(), g),
            rd,
        ) by {
            assert(run_of(code, a.state, input, a.taken, a.output, g) == run_of(
                code,
                end.state,
                input,
                end.taken,
                end.output,
                (g - w.0) as nat,
            ));
            lemma_run_step(code, end.state, input, end.taken, end.output, (g - w.0) as nat);
        }
        k
    }
}

/// And the other way round: a run of the program that ends within `g`
/// steps ends as the reading of the source text does, which takes no more
/// than `fuel` steps for it. So the program halts, or faults, exactly if
/// the text read as it stands does, and then with the same tape, input and
/// output.
pub proof fn law_text_ends_as_program(s: Seq<u8>, code: Seq<Comm>, input: Seq<u8>, g: nat) -> (fuel:
    nat)
    requires
        s.len() <= i32::MAX,
        translate(s) == Ok::<Seq<Comm>, SyntaxFault>(code),
    ensures
        run_of(code, start(), input, 0, Seq::empty(), g).status is Unfinished || ends_alike(
            run_of(code, start(), input, 0, Seq::empty(), g),
            read(s, 0, fresh(), input, fuel),
        ),
{
    let none = Seq::<Comm>::empty();
    lemma_block_extends(s, 0, 0, none, 0);
    let b = block(s, 0, 0, none, 0)->Ok_0;
    assert(b.code == code);
    assert(fresh().cells =~= start().cells);
    let a = machine(fresh(), 0, 0);
    assert(a.state == start());
    let fuel = lemma_runs_as_reads(s, code, 0, 0, none, 0, fresh(), input, g);
    let rd = read(s, 0, fresh(), input, fuel);
    let whole = run_of(code, start(), input, 0, Seq::empty(), g);
    if !(whole.status is Unfinished) {
        let w = lemma_reads_as_runs(s, code, 0, 0, none, 0, fresh(), input, fuel);
        let end = machine(rd.state, w.1, w.2);
        reveal(leads);
        assert(run_of(code, a.state, input, a.taken, a.output, g) == whole);
        assert(g >= w.0);
        lemma_run_step(code, end.state, input, end.taken, end.output, (g - w.0) as nat);
    }
    fuel
}

} // verus!
