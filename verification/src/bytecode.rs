use vstd::prelude::*;
use crate::comm::{Comm, SyntaxFault};
use crate::balance::{balanced, balanced_from, lemma_block_levels};
use crate::nesting::{lemma_translate_well_formed, well_formed};
use crate::scan::{
    block, lemma_block_step, lemma_run_fits, resume, run, translate, Block, CLOSE, COMMA, DOT,
    LEFT, MINUS, OPEN, PLUS, RIGHT,
};

verus! {

/// A translation in progress.
pub struct Bytecode {
    /// The source text.
    pub chars: Vec<u8>,
    /// The scan position in `chars`.
    pub index: usize,
    /// The instructions emitted so far.
    pub v: Vec<Comm>,
}

impl Bytecode {
    /// A translation of `chars` that has not begun.
    pub fn new(chars: Vec<u8>) -> (b: Bytecode)
        ensures
            b.chars == chars,
            b.index == 0,
            b.v@ == Seq::<Comm>::empty(),
    {
        Bytecode { chars, index: 0, v: Vec::new() }
    }

    /// The scan position lies in the source or at its end, and every
    /// position of the source fits a signed offset.
    pub open spec fn wf(&self) -> bool {
        &&& self.index <= self.chars.len()
        &&& self.chars.len() <= i32::MAX
    }

    /// Consumes the run of `chr` at the scan position and returns its
    /// length. The scan position is left on the last byte of the run.
    pub fn read_chars(&mut self, chr: char) -> (n: i32)
        requires
            old(self).wf(),
            old(self).index < old(self).chars.len(),
            old(self).chars[old(self).index as int] as char == chr,
        ensures
            n == run(old(self).chars@, old(self).index as nat, chr as u8),
            final(self).index == old(self).index + n - 1,
            final(self).chars == old(self).chars,
            final(self).v == old(self).v,
    {
        let mut i: i32 = 0;
        while self.index != self.chars.len() && self.chars[self.index] as char == chr
            invariant
                self.wf(),
                self.chars == old(self).chars,
                self.v == old(self).v,
                self.index == old(self).index + i,
                0 <= i,
                run(old(self).chars@, old(self).index as nat, chr as u8) == i + run(
                    self.chars@,
                    self.index as nat,
                    chr as u8,
                ),
            decreases self.chars.len() - self.index,
        {
            i += 1;
            self.index += 1;
        }
        self.index -= 1;
        i
    }

    /// Translates the source from the scan position to its end and appends
    /// the instructions to `v`.
    ///
    /// Fails exactly where the brackets from the scan position on do not
    /// balance: with `Unmatched` at the first `]` that closes no loop, else
    /// with `Unclosed` at the innermost `[` that the source leaves open.
    ///
    /// `init` is the index at which the model aims the `RP` of a `]` outside
    /// every loop. Such a `]` is a fault, so that no program that is
    /// returned holds that instruction.
    ///
    /// The loops that are open are kept on a stack of their own, so that no
    /// nesting is too deep for it.
    pub fn to_bytecode(&mut self, init: usize) -> (r: Result<(), SyntaxFault>)
        requires
            old(self).wf(),
        ensures
            final(self).wf(),
            final(self).chars == old(self).chars,
            match block(old(self).chars@, old(self).index as nat, 0, old(self).v@, init as nat) {
                Ok(b) => if b.closed {
                    r == Err::<(), SyntaxFault>(SyntaxFault::Unmatched { pos: b.stop as usize })
                } else {
                    &&& r is Ok
                    &&& final(self).v@ == b.code
                    &&& final(self).index == b.stop
                    &&& final(self).index == final(self).chars.len()
                },
                Err(e) => r == Err::<(), SyntaxFault>(e),
            },
            r is Ok <==> balanced_from(old(self).chars@, old(self).index as nat),
    {
        let mut offset: i32 = 0;
        // for each open loop, the position of its `[` and the index of its
        // placeholder
        let mut open: Vec<(usize, usize)> = Vec::new();
        while self.index < self.chars.len()
            invariant
                self.wf(),
                self.chars == old(self).chars,
                old(self).index <= self.index,
                -(self.index - old(self).index) <= offset <= self.index - old(self).index,
                forall|j: int|
                    0 <= j < open.len() ==> (#[trigger] open[j]).0 < self.index && open[j].1
                        < self.v.len(),
                block(old(self).chars@, old(self).index as nat, 0, old(self).v@, init as nat)
                    == unwind(
                    self.chars@,
                    open@,
                    block(
                        self.chars@,
                        self.index as nat,
                        offset as int,
                        self.v@,
                        innermost(open@, init as nat),
                    ),
                    init as nat,
                ),
            decreases self.chars.len() - self.index,
        {
            let c = self.chars[self.index];
            proof {
                lemma_run_fits(self.chars@, self.index as nat, c);
                lemma_block_step(
                    self.chars@,
                    self.index as nat,
                    offset as int,
                    self.v@,
                    innermost(open@, init as nat),
                );
            }
            if c == RIGHT {
                let i = self.read_chars('>');
                offset += i;
            } else if c == LEFT {
                let i = self.read_chars('<');
                offset -= i;
            } else if c == PLUS {
                let i = self.read_chars('+');
                self.v.push(Comm::Plus(offset, (i % 256) as u8));
            } else if c == MINUS {
                let i = self.read_chars('-');
                self.v.push(Comm::Minus(offset, (i % 256) as u8));
            } else if c == DOT {
                self.v.push(Comm::Dot(offset));
            } else if c == COMMA {
                self.v.push(Comm::Comma(offset));
            } else if c == OPEN {
                if self.index + 2 < self.chars.len() && self.chars[self.index + 1] == MINUS
                    && self.chars[self.index + 2] == CLOSE {
                    self.v.push(Comm::Clear(offset));
                    self.index += 2;
                } else {
                    if offset != 0 {
                        self.v.push(Comm::Pointer(offset));
                        offset = 0;
                    }
                    let ghost outer = open@;
                    let frame = (self.index, self.v.len());
                    open.push(frame);
                    self.v.push(Comm::Clear(0));
                    proof {
                        assert(open@.drop_last() =~= outer);
                        assert(open@.last() == frame);
                        lemma_unwind_fault(self.chars@, outer, init as nat);
                    }
                }
            } else if c == CLOSE {
                let ghost inner = open@;
                match open.pop() {
                    None => {
                        proof {
                            lemma_block_levels(
                                old(self).chars@,
                                old(self).index as nat,
                                0,
                                old(self).v@,
                                init as nat,
                                0,
                            );
                        }
                        return Err(SyntaxFault::Unmatched { pos: self.index });
                    },
                    Some(frame) => {
                        if offset != 0 {
                            self.v.push(Comm::Pointer(offset));
                        }
                        proof {
                            assert(open@ == inner.drop_last());
                            assert(frame == inner.last());
                            assert(inner[inner.len() - 1].0 < self.index);
                        }
                        self.v.push(Comm::RP(frame.1));
                        let target = self.v.len() - 1;
                        self.v.set(frame.1, Comm::LP(target));
                        offset = 0;
                    },
                }
            }
            self.index += 1;
        }
        proof {
            lemma_block_step(
                self.chars@,
                self.index as nat,
                offset as int,
                self.v@,
                innermost(open@, init as nat),
            );
            lemma_block_levels(
                old(self).chars@,
                old(self).index as nat,
                0,
                old(self).v@,
                init as nat,
                0,
            );
        }
        if open.len() > 0 {
            let frame = open[open.len() - 1];
            Err(SyntaxFault::Unclosed { pos: frame.0 })
        } else {
            Ok(())
        }
    }
}

/// The index that the `RP` of the innermost open loop aims at: that of the
/// loop's placeholder, or `init` where no loop is open.
spec fn innermost(open: Seq<(usize, usize)>, init: nat) -> nat {
    if open.len() == 0 {
        init
    } else {
        open.last().1 as nat
    }
}

/// What the outermost block comes to, once the body of
/// the innermost loop in `open` has come to `r`: each open loop, from the
/// innermost out, goes on behind its body as [`block`] says.
spec fn unwind(s: Seq<u8>, open: Seq<(usize, usize)>, r: Result<Block, SyntaxFault>, init: nat)
    -> Result<Block, SyntaxFault>
    decreases open.len(),
{
    if open.len() == 0 {
        r
    } else {
        match r {
            Err(e) => Err(e),
            Ok(body) => if body.closed {
                let outer = open.drop_last();
                unwind(
                    s,
                    outer,
                    block(
                        s,
                        resume(open.last().0 as nat, body.stop),
                        0,
                        body.code.update(
                            open.last().1 as int,
                            Comm::LP((body.code.len() - 1) as usize),
                        ),
                        innermost(outer, init),
                    ),
                    init,
                )
            } else {
                Err(SyntaxFault::Unclosed { pos: open.last().0 })
            },
        }
    }
}

/// A fault in the innermost body is the fault of the whole.
proof fn lemma_unwind_fault(s: Seq<u8>, open: Seq<(usize, usize)>, init: nat)
    ensures
        forall|e: SyntaxFault| #[trigger]
            unwind(s, open, Err(e), init) == Err::<Block, SyntaxFault>(e),
{
}

/// Translates a whole source text into its program, in which every jump
/// has its partner.
///
/// Fails exactly where the brackets do not balance: with `Unmatched` at the
/// first `]` that closes no loop, else with `Unclosed` at the innermost `[`
/// that the source leaves open.
pub fn compile(source: Vec<u8>) -> (r: Result<Vec<Comm>, SyntaxFault>)
    requires
        source.len() <= i32::MAX,
    ensures
        match translate(source@) {
            Ok(code) => r is Ok && r->Ok_0@ == code,
            Err(e) => r == Err::<Vec<Comm>, SyntaxFault>(e),
        },
        r matches Ok(code) ==> well_formed(code@),
        r is Ok <==> balanced(source@),
{
    proof {
        lemma_translate_well_formed(source@);
    }
    let mut bytecode = Bytecode::new(source);
    match bytecode.to_bytecode(0) {
        Err(e) => Err(e),
        Ok(()) => Ok(bytecode.v),
    }
}

} // verus!
