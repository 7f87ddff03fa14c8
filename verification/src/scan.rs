use vstd::prelude::*;
use crate::comm::{Comm, SyntaxFault};

verus! {

/// The byte `>`: move the data pointer right.
pub const RIGHT: u8 = 62;

/// The byte `<`: move the data pointer left.
pub const LEFT: u8 = 60;

/// The byte `+`: raise the cell.
pub const PLUS: u8 = 43;

/// The byte `-`: lower the cell.
pub const MINUS: u8 = 45;

/// The byte `.`: emit the cell.
pub const DOT: u8 = 46;

/// The byte `,`: read into the cell.
pub const COMMA: u8 = 44;

/// The byte `[`: open a loop.
pub const OPEN: u8 = 91;

/// The byte `]`: close a loop.
pub const CLOSE: u8 = 93;

/// Length of the longest run of the byte `c` that starts at `pos`.
pub open spec fn run(s: Seq<u8>, pos: nat, c: u8) -> nat
    decreases s.len() - pos,
{
    if pos < s.len() && s[pos as int] == c {
        1 + run(s, pos + 1, c)
    } else {
        0
    }
}

/// Whether the three bytes at `pos` are the clear idiom `[-]`.
pub open spec fn is_clear(s: Seq<u8>, pos: nat) -> bool {
    &&& pos + 2 < s.len()
    &&& s[pos as int] == OPEN
    &&& s[pos as int + 1] == MINUS
    &&& s[pos as int + 2] == CLOSE
}

/// `code` with a pending pointer offset committed: a `Pointer` instruction
/// is appended unless the offset is zero.
pub open spec fn committed(code: Seq<Comm>, offset: int) -> Seq<Comm> {
    if offset != 0 {
        code.push(Comm::Pointer(offset as i32))
    } else {
        code
    }
}

/// The state of a scan between two tokens.
pub struct Scan {
    /// The position of the next byte.
    pub pos: nat,
    /// The pointer offset that is pending.
    pub offset: int,
    /// The instructions emitted so far.
    pub code: Seq<Comm>,
}

/// What translating one block gives.
pub struct Block {
    /// The program so far, the block's instructions appended.
    pub code: Seq<Comm>,
    /// Where the scan stopped: on the `]` that ends the block, or at the
    /// end of the source.
    pub stop: nat,
    /// Whether it stopped on a `]`.
    pub closed: bool,
}

/// Whether a loop opens at `pos`: a `[` that does not begin `[-]`.
pub open spec fn opens_loop(s: Seq<u8>, pos: nat) -> bool {
    s[pos as int] == OPEN && !is_clear(s, pos)
}

/// The scan after the token at `pos`, for a token that neither opens nor
/// closes a loop.
///
/// - `>` and `<`: a run adds its length to the pending offset, or takes it
///   away. Nothing is emitted.
/// - `+` and `-`: a run emits one `Plus` or `Minus` at the pending offset,
///   with the run's length modulo 256.
/// - `.` and `,`: emit `Dot` or `Comma` at the pending offset.
/// - `[-]`: emits `Clear` at the pending offset.
/// - any other byte is skipped.
///
/// The pending offset stays as it is behind an instruction that carries it:
/// only a `Pointer` instruction takes it up.
pub open spec fn token(s: Seq<u8>, pos: nat, offset: int, code: Seq<Comm>) -> Scan {
    let c = s[pos as int];
    if c == RIGHT {
        let n = run(s, pos + 1, RIGHT) + 1;
        Scan { pos: pos + n, offset: offset + n, code }
    } else if c == LEFT {
        let n = run(s, pos + 1, LEFT) + 1;
        Scan { pos: pos + n, offset: offset - n, code }
    } else if c == PLUS {
        let n = run(s, pos + 1, PLUS) + 1;
        Scan { pos: pos + n, offset, code: code.push(Comm::Plus(offset as i32, (n % 256) as u8)) }
    } else if c == MINUS {
        let n = run(s, pos + 1, MINUS) + 1;
        Scan { pos: pos + n, offset, code: code.push(Comm::Minus(offset as i32, (n % 256) as u8)) }
    } else if c == DOT {
        Scan { pos: pos + 1, offset, code: code.push(Comm::Dot(offset as i32)) }
    } else if c == COMMA {
        Scan { pos: pos + 1, offset, code: code.push(Comm::Comma(offset as i32)) }
    } else if is_clear(s, pos) {
        Scan { pos: pos + 3, offset, code: code.push(Comm::Clear(offset as i32)) }
    } else {
        Scan { pos: pos + 1, offset, code }
    }
}

/// Where the scan goes on after a nested block that began behind `pos` and
/// stopped at `stop`. Such a block always stops behind `pos`, so this is
/// `stop + 1`; the other arm only lets the recursion of [`block`] be seen
/// to end.
pub open spec fn resume(pos: nat, stop: nat) -> nat {
    if stop > pos {
        stop + 1
    } else {
        pos + 2
    }
}

/// Number of bytes of `s` from `pos` on.
pub open spec fn left(s: Seq<u8>, pos: nat) -> nat {
    if pos <= s.len() {
        (s.len() - pos) as nat
    } else {
        0
    }
}

/// The translation of one block of the source `s`, scanned from `pos` with
/// the pointer offset `offset` pending and `code` already emitted. The block
/// is the body of the loop whose opening instruction has index `init`; it
/// ends at the first `]` that no `[` inside it opens, or with the source.
///
/// - `]`: the pending offset is committed, `RP(init)` is emitted, and the
///   block ends.
/// - `[` that opens a loop: the pending offset is committed and reset, a
///   placeholder is emitted, and the body is translated as a block of its
///   own. The placeholder then becomes an `LP` whose target is the index of
///   the `RP` that closes the body, and the scan goes on behind the `]`. A
///   body that ends with the source is a fault.
/// - any other token: see [`token`].
#[verifier::opaque]
pub open spec fn block(s: Seq<u8>, pos: nat, offset: int, code: Seq<Comm>, init: nat) -> Result<
    Block,
    SyntaxFault,
>
    decreases left(s, pos),
{
    if pos >= s.len() {
        Ok(Block { code, stop: s.len(), closed: false })
    } else if s[pos as int] == CLOSE {
        Ok(
            Block {
                code: committed(code, offset).push(Comm::RP(init as usize)),
                stop: pos,
                closed: true,
            },
        )
    } else if opens_loop(s, pos) {
        let head = committed(code, offset);
        match block(s, pos + 1, 0, head.push(Comm::Clear(0)), head.len()) {
            Err(e) => Err(e),
            Ok(body) => if body.closed {
                let target = (body.code.len() - 1) as usize;
                block(
                    s,
                    resume(pos, body.stop),
                    0,
                    body.code.update(head.len() as int, Comm::LP(target)),
                    init,
                )
            } else {
                Err(SyntaxFault::Unclosed { pos: pos as usize })
            },
        }
    } else {
        let t = token(s, pos, offset, code);
        block(s, t.pos, t.offset, t.code, init)
    }
}

/// The translation of a whole source text: its outermost block, which must
/// end with the source. A `]` that ends it closes no loop and is a fault.
pub open spec fn translate(s: Seq<u8>) -> Result<Seq<Comm>, SyntaxFault> {
    match block(s, 0, 0, Seq::empty(), 0) {
        Err(e) => Err(e),
        Ok(b) => if b.closed {
            Err(SyntaxFault::Unmatched { pos: b.stop as usize })
        } else {
            Ok(b.code)
        },
    }
}

/// One step of [`block`]: what it is, by the token at `pos`.
pub proof fn lemma_block_step(s: Seq<u8>, pos: nat, offset: int, code: Seq<Comm>, init: nat)
    ensures
        pos >= s.len() ==> block(s, pos, offset, code, init) == Ok::<Block, SyntaxFault>(
            Block { code, stop: s.len(), closed: false },
        ),
        pos < s.len() && s[pos as int] == CLOSE ==> block(s, pos, offset, code, init) == Ok::<
            Block,
            SyntaxFault,
        >(
            Block {
                code: committed(code, offset).push(Comm::RP(init as usize)),
                stop: pos,
                closed: true,
            },
        ),
        pos < s.len() && s[pos as int] != CLOSE && !opens_loop(s, pos) ==> block(
            s,
            pos,
            offset,
            code,
            init,
        ) == block(
            s,
            token(s, pos, offset, code).pos,
            token(s, pos, offset, code).offset,
            token(s, pos, offset, code).code,
            init,
        ),
        pos < s.len() && opens_loop(s, pos) ==> block(s, pos, offset, code, init) == ({
            let head = committed(code, offset);
            match block(s, pos + 1, 0, head.push(Comm::Clear(0)), head.len()) {
                Err(e) => Err(e),
                Ok(body) => if body.closed {
                    block(
                        s,
                        resume(pos, body.stop),
                        0,
                        body.code.update(
                            head.len() as int,
                            Comm::LP((body.code.len() - 1) as usize),
                        ),
                        init,
                    )
                } else {
                    Err(SyntaxFault::Unclosed { pos: pos as usize })
                },
            }
        }),
{
    reveal(block);
}

/// `out` begins with `code`.
pub open spec fn keeps(out: Seq<Comm>, code: Seq<Comm>) -> bool {
    &&& code.len() <= out.len()
    &&& forall|k: int| 0 <= k < code.len() ==> #[trigger] out[k] == code[k]
}

/// A run ends inside the source.
pub proof fn lemma_run_fits(s: Seq<u8>, pos: nat, c: u8)
    requires
        pos <= s.len(),
    ensures
        pos + run(s, pos, c) <= s.len(),
    decreases s.len() - pos,
{
    if pos < s.len() && s[pos as int] == c {
        lemma_run_fits(s, pos + 1, c);
    }
}

/// A token moves the scan forward inside the source and emits at most one
/// instruction, which is no jump.
pub proof fn lemma_token(s: Seq<u8>, pos: nat, offset: int, code: Seq<Comm>)
    requires
        pos < s.len(),
    ensures
        ({
            let t = token(s, pos, offset, code);
            &&& pos < t.pos <= s.len()
            &&& keeps(t.code, code)
            &&& t.code.len() <= code.len() + 1
            &&& t.code.len() == code.len() + 1 ==> !(t.code.last() is LP) && !(t.code.last() is RP)
        }),
{
    let c = s[pos as int];
    lemma_run_fits(s, pos + 1, c);
}

/// A block keeps what was emitted before it, stops inside the source and not
/// before its start, emits at most two instructions for each byte, and,
/// where it stops on a `]`, has emitted the `RP` that stands last.
pub proof fn lemma_block_extends(s: Seq<u8>, pos: nat, offset: int, code: Seq<Comm>, init: nat)
    requires
        pos <= s.len(),
    ensures
        block(s, pos, offset, code, init) matches Ok(b) ==> {
            &&& pos <= b.stop <= s.len()
            &&& keeps(b.code, code)
            &&& b.closed ==> {
                &&& b.stop < s.len()
                &&& s[b.stop as int] == CLOSE
                &&& code.len() < b.code.len() <= code.len() + 2 * (b.stop - pos) + 2
                &&& b.code.last() == Comm::RP(init as usize)
            }
            &&& !b.closed ==> {
                &&& b.stop == s.len()
                &&& b.code.len() <= code.len() + 2 * (b.stop - pos)
            }
        },
    decreases left(s, pos),
{
    reveal(block);
    if pos < s.len() {
        if s[pos as int] == CLOSE {
        } else if opens_loop(s, pos) {
            let head = committed(code, offset);
            let opened = head.push(Comm::Clear(0));
            lemma_block_extends(s, pos + 1, 0, opened, head.len());
            if let Ok(body) = block(s, pos + 1, 0, opened, head.len()) {
                if body.closed {
                    let target = (body.code.len() - 1) as usize;
                    let patched = body.code.update(head.len() as int, Comm::LP(target));
                    lemma_block_extends(s, body.stop + 1, 0, patched, init);
                    assert(keeps(patched, code));
                }
            }
        } else {
            let t = token(s, pos, offset, code);
            lemma_token(s, pos, offset, code);
            lemma_block_extends(s, t.pos, t.offset, t.code, init);
        }
    }
}

} // verus!
