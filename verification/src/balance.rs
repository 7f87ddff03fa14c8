use vstd::prelude::*;
use crate::comm::{Comm, SyntaxFault};
use crate::scan::{
    block, committed, is_clear, left, lemma_block_extends, lemma_token, opens_loop, run, token,
    translate, CLOSE, LEFT, MINUS, OPEN, PLUS, RIGHT,
};

verus! {

/// How many `[` are without their `]` at the end of the source `s`, counted
/// from `pos` with `depth` of them open there; `None` where a `]` finds
/// none open. Only the bytes `[` and `]` count.
pub open spec fn open_at_end(s: Seq<u8>, pos: nat, depth: nat) -> Option<nat>
    decreases left(s, pos),
{
    if pos >= s.len() {
        Some(depth)
    } else if s[pos as int] == CLOSE {
        if depth == 0 {
            None
        } else {
            open_at_end(s, pos + 1, (depth - 1) as nat)
        }
    } else if s[pos as int] == OPEN {
        open_at_end(s, pos + 1, depth + 1)
    } else {
        open_at_end(s, pos + 1, depth)
    }
}

/// The brackets of `s` from `pos` on balance: they form a bracket string,
/// in which no `]` comes before its `[` and no `[` stays without its `]`.
pub open spec fn balanced_from(s: Seq<u8>, pos: nat) -> bool {
    open_at_end(s, pos, 0) == Some(0nat)
}

/// The brackets of `s` balance.
pub open spec fn balanced(s: Seq<u8>) -> bool {
    balanced_from(s, 0)
}

/// A run of a byte that is no bracket opens and closes nothing.
proof fn lemma_run_is_level(s: Seq<u8>, pos: nat, c: u8, depth: nat)
    requires
        pos <= s.len(),
        c != OPEN,
        c != CLOSE,
    ensures
        open_at_end(s, pos, depth) == open_at_end(s, pos + run(s, pos, c), depth),
    decreases s.len() - pos,
{
    if pos < s.len() && s[pos as int] == c {
        lemma_run_is_level(s, pos + 1, c, depth);
    }
}

/// A token that is no loop bracket opens and closes nothing.
proof fn lemma_token_is_level(s: Seq<u8>, pos: nat, offset: int, code: Seq<Comm>, depth: nat)
    requires
        pos < s.len(),
        s[pos as int] != CLOSE,
        !opens_loop(s, pos),
    ensures
        open_at_end(s, pos, depth) == open_at_end(s, token(s, pos, offset, code).pos, depth),
{
    let c = s[pos as int];
    if c == RIGHT || c == LEFT || c == PLUS || c == MINUS {
        lemma_run_is_level(s, pos + 1, c, depth);
    } else if is_clear(s, pos) {
        // `[-]` opens a loop and closes it again
        assert(open_at_end(s, pos, depth) == open_at_end(s, pos + 1, depth + 1));
        assert(open_at_end(s, pos + 1, depth + 1) == open_at_end(s, pos + 2, depth + 1));
        assert(open_at_end(s, pos + 2, depth + 1) == open_at_end(s, pos + 3, depth));
    }
}

/// What a block's outcome says of the brackets from `pos` on, with `depth`
/// loops open around the block: a block that ends on a `]` has closed the
/// innermost of them, or found none to close; one that ends with the source
/// has left them as they were; and a fault has left more open.
pub proof fn lemma_block_levels(
    s: Seq<u8>,
    pos: nat,
    offset: int,
    code: Seq<Comm>,
    init: nat,
    depth: nat,
)
    requires
        pos <= s.len(),
    ensures
        match block(s, pos, offset, code, init) {
            Ok(b) => if !b.closed {
                open_at_end(s, pos, depth) == Some(depth)
            } else if depth == 0 {
                open_at_end(s, pos, depth) is None
            } else {
                open_at_end(s, pos, depth) == open_at_end(s, b.stop + 1, (depth - 1) as nat)
            },
            Err(e) => e is Unclosed && (open_at_end(s, pos, depth) matches Some(n) && n > depth),
        },
    decreases left(s, pos),
{
    reveal(block);
    lemma_block_extends(s, pos, offset, code, init);
    if pos < s.len() {
        if s[pos as int] == CLOSE {
        } else if opens_loop(s, pos) {
            let head = committed(code, offset);
            let opened = head.push(Comm::Clear(0));
            lemma_block_extends(s, pos + 1, 0, opened, head.len());
            lemma_block_levels(s, pos + 1, 0, opened, head.len(), depth + 1);
            if let Ok(body) = block(s, pos + 1, 0, opened, head.len()) {
                if body.closed {
                    let patched = body.code.update(
                        head.len() as int,
                        Comm::LP((body.code.len() - 1) as usize),
                    );
                    lemma_block_levels(s, body.stop + 1, 0, patched, init, depth);
                }
            }
        } else {
            let t = token(s, pos, offset, code);
            lemma_token(s, pos, offset, code);
            lemma_token_is_level(s, pos, offset, code, depth);
            lemma_block_levels(s, t.pos, t.offset, t.code, init, depth);
        }
    }
}

/// A source text has a program exactly if its brackets balance. Where they
/// do not, the fault is `Unmatched` exactly if some `]` finds no loop open,
/// and `Unclosed` exactly if every `]` finds one and a loop is left open at
/// the end.
pub proof fn law_faults_are_imbalance(s: Seq<u8>)
    ensures
        translate(s) is Ok <==> balanced(s),
        (translate(s) matches Err(e) && e is Unmatched) <==> open_at_end(s, 0, 0) is None,
        (translate(s) matches Err(e) && e is Unclosed) <==> (open_at_end(s, 0, 0) matches Some(n)
            && n > 0),
{
    lemma_block_levels(s, 0, 0, Seq::empty(), 0, 0);
}

} // verus!
