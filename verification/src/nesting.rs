use vstd::prelude::*;
use crate::comm::Comm;
use crate::scan::{
    block, committed, keeps, left, lemma_block_extends, lemma_token, opens_loop, token, translate,
    CLOSE,
};

verus! {

/// Every jump among the instructions `lo..hi` has its partner among them:
/// an `LP` aims at a later `RP` that aims back at it, and an `RP` at an
/// earlier `LP` that aims at it.
pub open spec fn paired(code: Seq<Comm>, lo: int, hi: int) -> bool {
    forall|k: int|
        lo <= k < hi ==> match #[trigger] code[k] {
            Comm::LP(t) => k < t < hi && code[t as int] == Comm::RP(k as usize),
            Comm::RP(t) => lo <= t < k && code[t as int] == Comm::LP(k as usize),
            _ => true,
        }
}

/// The body of every loop that opens among the instructions `lo..hi` is
/// paired in itself: no jump leads into a loop's body or out of it.
pub open spec fn bodies_paired(code: Seq<Comm>, lo: int, hi: int) -> bool {
    forall|k: int|
        lo <= k < hi ==> (#[trigger] code[k] matches Comm::LP(t) ==> paired(
            code,
            k + 1,
            t as int,
        ))
}

/// The jumps of `code` form a bracket structure: each has its partner, and
/// loops lie apart or one inside the other.
pub open spec fn well_formed(code: Seq<Comm>) -> bool {
    &&& paired(code, 0, code.len() as int)
    &&& bodies_paired(code, 0, code.len() as int)
}

/// The instructions `lo..hi` are the same in `a` and `b`.
pub open spec fn agree(a: Seq<Comm>, b: Seq<Comm>, lo: int, hi: int) -> bool {
    &&& hi <= a.len()
    &&& hi <= b.len()
    &&& forall|k: int| lo <= k < hi ==> #[trigger] a[k] == b[k]
}

proof fn lemma_paired_agree(a: Seq<Comm>, b: Seq<Comm>, lo: int, hi: int)
    requires
        0 <= lo,
        agree(a, b, lo, hi),
        paired(a, lo, hi),
    ensures
        paired(b, lo, hi),
{
    assert forall|k: int| lo <= k < hi implies match #[trigger] b[k] {
        Comm::LP(t) => k < t < hi && b[t as int] == Comm::RP(k as usize),
        Comm::RP(t) => lo <= t < k && b[t as int] == Comm::LP(k as usize),
        _ => true,
    } by {
        assert(a[k] == b[k]);
        match a[k] {
            Comm::LP(t) => {
                assert(a[t as int] == b[t as int]);
            },
            Comm::RP(t) => {
                assert(a[t as int] == b[t as int]);
            },
            _ => {},
        }
    }
}

proof fn lemma_bodies_agree(a: Seq<Comm>, b: Seq<Comm>, lo: int, hi: int)
    requires
        0 <= lo,
        agree(a, b, lo, hi),
        paired(a, lo, hi),
        bodies_paired(a, lo, hi),
    ensures
        bodies_paired(b, lo, hi),
{
    assert forall|k: int| lo <= k < hi implies (#[trigger] b[k] matches Comm::LP(t) ==> paired(
        b,
        k + 1,
        t as int,
    )) by {
        assert(a[k] == b[k]);
        if let Comm::LP(t) = a[k] {
            assert(agree(a, b, k + 1, t as int));
            lemma_paired_agree(a, b, k + 1, t as int);
        }
    }
}

/// Two adjoining stretches that are paired make one that is.
proof fn lemma_paired_join(code: Seq<Comm>, lo: int, mid: int, hi: int)
    requires
        lo <= mid <= hi,
        paired(code, lo, mid),
        paired(code, mid, hi),
    ensures
        paired(code, lo, hi),
{
}

proof fn lemma_bodies_join(code: Seq<Comm>, lo: int, mid: int, hi: int)
    requires
        lo <= mid <= hi,
        bodies_paired(code, lo, mid),
        bodies_paired(code, mid, hi),
    ensures
        bodies_paired(code, lo, hi),
{
}

/// The instructions that a block emits, but for the `RP` that ends it, are
/// paired among themselves, and so is the body of each loop among them.
pub proof fn lemma_block_paired(s: Seq<u8>, pos: nat, offset: int, code: Seq<Comm>, init: nat)
    requires
        pos <= s.len(),
        code.len() + 2 * (s.len() - pos) <= usize::MAX,
    ensures
        block(s, pos, offset, code, init) matches Ok(b) ==> {
            let end = b.code.len() - if b.closed {
                1int
            } else {
                0int
            };
            &&& code.len() <= end
            &&& paired(b.code, code.len() as int, end)
            &&& bodies_paired(b.code, code.len() as int, end)
        },
    decreases left(s, pos),
{
    reveal(block);
    lemma_block_extends(s, pos, offset, code, init);
    let n0 = code.len() as int;
    if pos < s.len() {
        if s[pos as int] == CLOSE {
        } else if opens_loop(s, pos) {
            let head = committed(code, offset);
            let at = head.len() as int;
            let opened = head.push(Comm::Clear(0));
            lemma_block_extends(s, pos + 1, 0, opened, head.len());
            lemma_block_paired(s, pos + 1, 0, opened, head.len());
            if let Ok(body) = block(s, pos + 1, 0, opened, head.len()) {
                if body.closed {
                    let last = body.code.len() - 1;
                    let patched = body.code.update(at, Comm::LP(last as usize));
                    lemma_block_extends(s, body.stop + 1, 0, patched, init);
                    lemma_block_paired(s, body.stop + 1, 0, patched, init);
                    let b = block(s, body.stop + 1, 0, patched, init)->Ok_0;
                    if block(s, body.stop + 1, 0, patched, init) is Ok {
                        let end = b.code.len() - if b.closed {
                            1int
                        } else {
                            0int
                        };
                        // the loop's body
                        assert(agree(body.code, patched, at + 1, last));
                        lemma_paired_agree(body.code, patched, at + 1, last);
                        lemma_bodies_agree(body.code, patched, at + 1, last);
                        // the loop with what stands before it
                        assert(patched[at] == Comm::LP(last as usize));
                        assert(patched[last] == Comm::RP(at as usize));
                        assert(forall|k: int| n0 <= k < at ==> patched[k] == head[k]);
                        assert(paired(patched, n0, last + 1)) by {
                            assert forall|k: int| n0 <= k < last + 1 implies match #[trigger] patched[k] {
                                Comm::LP(t) => k < t < last + 1 && patched[t as int] == Comm::RP(
                                    k as usize,
                                ),
                                Comm::RP(t) => n0 <= t < k && patched[t as int] == Comm::LP(
                                    k as usize,
                                ),
                                _ => true,
                            } by {
                                if k < at {
                                    assert(patched[k] == head[k]);
                                } else if k == at {
                                } else if k < last {
                                    assert(paired(patched, at + 1, last));
                                } else {
                                }
                            }
                        }
                        assert(bodies_paired(patched, n0, last + 1)) by {
                            assert forall|k: int| n0 <= k < last + 1 implies (
                            #[trigger] patched[k] matches Comm::LP(t) ==> paired(
                                patched,
                                k + 1,
                                t as int,
                            )) by {
                                if k < at {
                                    assert(patched[k] == head[k]);
                                } else if k == at {
                                } else if k < last {
                                    assert(bodies_paired(patched, at + 1, last));
                                } else {
                                }
                            }
                        }
                        // carried over into the whole
                        assert(agree(patched, b.code, n0, last + 1));
                        lemma_paired_agree(patched, b.code, n0, last + 1);
                        lemma_bodies_agree(patched, b.code, n0, last + 1);
                        lemma_paired_join(b.code, n0, last + 1, end);
                        lemma_bodies_join(b.code, n0, last + 1, end);
                    }
                }
            }
        } else {
            let t = token(s, pos, offset, code);
            lemma_token(s, pos, offset, code);
            lemma_block_extends(s, t.pos, t.offset, t.code, init);
            lemma_block_paired(s, t.pos, t.offset, t.code, init);
            if let Ok(b) = block(s, t.pos, t.offset, t.code, init) {
                let end = b.code.len() - if b.closed {
                    1int
                } else {
                    0int
                };
                let mid = t.code.len() as int;
                if mid > n0 {
                    assert(b.code[n0] == t.code[n0]);
                    assert(t.code[n0] == t.code.last());
                }
                assert(paired(b.code, n0, mid));
                assert(bodies_paired(b.code, n0, mid));
                lemma_paired_join(b.code, n0, mid, end);
                lemma_bodies_join(b.code, n0, mid, end);
            }
        }
    }
}

/// The program of a source text whose brackets balance is well formed.
pub proof fn lemma_translate_well_formed(s: Seq<u8>)
    requires
        s.len() <= i32::MAX,
    ensures
        translate(s) matches Ok(code) ==> well_formed(code),
{
    lemma_block_paired(s, 0, 0, Seq::empty(), 0);
}

} // verus!
