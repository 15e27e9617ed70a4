//! Peephole optimisation of the intermediate representation.
//!
//! A rewrite replaces a node by one that does the work of the node and of
//! its one or two successors, and links it past them. The nodes that were
//! skipped stay in the vector and are no longer reachable.
use crate::ir::{chain_from, lemma_chain_frame, links_forward, IrCode, IrOp, Link};
use vstd::prelude::*;

verus! {

/// Sum modulo 256.
pub open spec fn wrap_add(x: u8, y: u8) -> u8 {
    ((x + y) % 256) as u8
}

/// Difference modulo 256.
pub open spec fn wrap_sub(x: u8, y: u8) -> u8 {
    ((x - y) % 256) as u8
}

/// Whether `x - y`, read as a signed 8 bit number, is positive.
pub open spec fn exceeds(x: u8, y: u8) -> bool {
    0 < wrap_sub(x, y) < 128
}

/// The node that stands for a clear loop, if the three nodes are one: a
/// loop whose body only decrements, or only increments, the cell by one.
pub open spec fn fuse_triple(first: IrOp, second: IrOp, third: IrOp) -> Option<IrOp> {
    match (first, second, third) {
        (IrOp::JumpIfZero(_, _), IrOp::Sub(_, n), IrOp::JumpIfNotZero(far, _)) => if n == 1 {
            Some(IrOp::SetIndirect(far, 0))
        } else {
            None
        },
        (IrOp::JumpIfZero(_, _), IrOp::Add(_, n), IrOp::JumpIfNotZero(far, _)) => if n == 1 {
            Some(IrOp::SetIndirect(far, 0))
        } else {
            None
        },
        _ => None,
    }
}

/// The node that does the work of two neighbours, if a rule applies to
/// them. It is linked to the successor of the second. All sums and
/// differences are taken modulo 256; where two moves or two changes go in
/// opposite directions, the sign of their difference as a signed 8 bit
/// number decides the direction of the result.
pub open spec fn fuse_pair(first: IrOp, second: IrOp) -> Option<IrOp> {
    match (first, second) {
        (IrOp::Add(_, x), IrOp::Add(far, y)) => Some(IrOp::Add(far, wrap_add(x, y))),
        (IrOp::Sub(_, x), IrOp::Sub(far, y)) => Some(IrOp::Sub(far, wrap_add(x, y))),
        (IrOp::Sub(_, x), IrOp::Add(far, y)) => Some(
            if exceeds(y, x) {
                IrOp::Add(far, wrap_sub(y, x))
            } else {
                IrOp::Sub(far, wrap_sub(x, y))
            },
        ),
        (IrOp::Add(_, x), IrOp::Sub(far, y)) => Some(
            if exceeds(x, y) {
                IrOp::Add(far, wrap_sub(x, y))
            } else {
                IrOp::Sub(far, wrap_sub(y, x))
            },
        ),
        (IrOp::Right(_, x), IrOp::Right(far, y)) => Some(IrOp::Right(far, wrap_add(x, y))),
        (IrOp::Left(_, x), IrOp::Left(far, y)) => Some(IrOp::Left(far, wrap_add(x, y))),
        (IrOp::Right(_, x), IrOp::Left(far, y)) => Some(
            if exceeds(x, y) {
                IrOp::Right(far, wrap_sub(x, y))
            } else {
                IrOp::Left(far, wrap_sub(y, x))
            },
        ),
        (IrOp::Left(_, x), IrOp::Right(far, y)) => Some(
            if exceeds(y, x) {
                IrOp::Right(far, wrap_sub(y, x))
            } else {
                IrOp::Left(far, wrap_sub(x, y))
            },
        ),
        (IrOp::SetIndirect(_, c), IrOp::Add(far, x)) => Some(IrOp::SetIndirect(far, wrap_add(c, x))),
        (IrOp::SetIndirect(_, c), IrOp::Sub(far, x)) => Some(IrOp::SetIndirect(far, wrap_sub(c, x))),
        (IrOp::Add(_, _), IrOp::SetIndirect(far, c)) => Some(IrOp::SetIndirect(far, c)),
        (IrOp::Sub(_, _), IrOp::SetIndirect(far, c)) => Some(IrOp::SetIndirect(far, c)),
        (IrOp::SetIndirect(_, _), IrOp::SetIndirect(far, c)) => Some(IrOp::SetIndirect(far, c)),
        _ => None,
    }
}

/// The node that takes the place of the node at `idx` in one rewrite: the
/// clear loop if the node and its two successors are one, else the fusion
/// of the node with its successor if a rule applies, else the node itself.
pub open spec fn replacement(ops: Seq<IrOp>, idx: int) -> IrOp {
    let current = ops[idx];
    match current.link() {
        None => current,
        Some(next_idx) => {
            let next = ops[next_idx as int];
            let triple = match next.link() {
                Some(t) => fuse_triple(current, next, ops[t as int]),
                None => None,
            };
            match triple {
                Some(r) => r,
                None => match fuse_pair(current, next) {
                    Some(r) => r,
                    None => current,
                },
            }
        },
    }
}

/// The vector after one pass that starts at `idx`: the node there is
/// replaced, and the pass goes on at the successor of the replacement.
pub open spec fn pass_from(ops: Seq<IrOp>, idx: int) -> Seq<IrOp>
    decreases ops.len() - idx,
{
    if 0 <= idx < ops.len() {
        let r = replacement(ops, idx);
        let rewired = ops.update(idx, r);
        match r.link() {
            Some(n) => if idx < n < ops.len() {
                pass_from(rewired, n as int)
            } else {
                rewired
            },
            None => rewired,
        }
    } else {
        ops
    }
}

/// The vector after one pass over the whole chain.
pub open spec fn pass(ops: Seq<IrOp>) -> Seq<IrOp> {
    pass_from(ops, 0)
}

/// The vector after `n` passes.
pub open spec fn passes(ops: Seq<IrOp>, n: nat) -> Seq<IrOp>
    decreases n,
{
    if n == 0 {
        ops
    } else {
        pass(passes(ops, (n - 1) as nat))
    }
}

/// The length of the chain.
pub open spec fn chain_len(ops: Seq<IrOp>) -> nat {
    chain_from(ops, 0).len()
}

/// Sum modulo 256.
fn wrapping_sum(x: u8, y: u8) -> (r: u8)
    ensures
        r == wrap_add(x, y),
{
    ((x as u16 + y as u16) % 256) as u8
}

/// Difference modulo 256.
fn wrapping_difference(x: u8, y: u8) -> (r: u8)
    ensures
        r == wrap_sub(x, y),
{
    ((x as u16 + 256 - y as u16) % 256) as u8
}

/// Whether `x - y`, read as a signed 8 bit number, is positive.
fn is_gain(x: u8, y: u8) -> (r: bool)
    ensures
        r == exceeds(x, y),
{
    let d = wrapping_difference(x, y);
    0 < d && d < 128
}

/// The clear loop that three nodes in a row stand for, if they do.
pub fn clear_loop(first: &IrOp, second: &IrOp, third: &IrOp) -> (r: Option<IrOp>)
    ensures
        r == fuse_triple(*first, *second, *third),
{
    match first {
        IrOp::JumpIfZero(_, _) => match third {
            IrOp::JumpIfNotZero(far, _) => match second {
                IrOp::Sub(_, n) => if *n == 1 {
                    Some(IrOp::SetIndirect(*far, 0))
                } else {
                    None
                },
                IrOp::Add(_, n) => if *n == 1 {
                    Some(IrOp::SetIndirect(*far, 0))
                } else {
                    None
                },
                _ => None,
            },
            _ => None,
        },
        _ => None,
    }
}

/// The fusion of two nodes in a row, if a rule applies to them.
pub fn fusion(first: &IrOp, second: &IrOp) -> (r: Option<IrOp>)
    ensures
        r == fuse_pair(*first, *second),
{
    match first {
        IrOp::Add(_, x) => match second {
            IrOp::Add(far, y) => Some(IrOp::Add(*far, wrapping_sum(*x, *y))),
            IrOp::Sub(far, y) => if is_gain(*x, *y) {
                Some(IrOp::Add(*far, wrapping_difference(*x, *y)))
            } else {
                Some(IrOp::Sub(*far, wrapping_difference(*y, *x)))
            },
            IrOp::SetIndirect(far, c) => Some(IrOp::SetIndirect(*far, *c)),
            _ => None,
        },
        IrOp::Sub(_, x) => match second {
            IrOp::Sub(far, y) => Some(IrOp::Sub(*far, wrapping_sum(*x, *y))),
            IrOp::Add(far, y) => if is_gain(*y, *x) {
                Some(IrOp::Add(*far, wrapping_difference(*y, *x)))
            } else {
                Some(IrOp::Sub(*far, wrapping_difference(*x, *y)))
            },
            IrOp::SetIndirect(far, c) => Some(IrOp::SetIndirect(*far, *c)),
            _ => None,
        },
        IrOp::Right(_, x) => match second {
            IrOp::Right(far, y) => Some(IrOp::Right(*far, wrapping_sum(*x, *y))),
            IrOp::Left(far, y) => if is_gain(*x, *y) {
                Some(IrOp::Right(*far, wrapping_difference(*x, *y)))
            } else {
                Some(IrOp::Left(*far, wrapping_difference(*y, *x)))
            },
            _ => None,
        },
        IrOp::Left(_, x) => match second {
            IrOp::Left(far, y) => Some(IrOp::Left(*far, wrapping_sum(*x, *y))),
            IrOp::Right(far, y) => if is_gain(*y, *x) {
                Some(IrOp::Right(*far, wrapping_difference(*y, *x)))
            } else {
                Some(IrOp::Left(*far, wrapping_difference(*x, *y)))
            },
            _ => None,
        },
        IrOp::SetIndirect(_, c) => match second {
            IrOp::Add(far, x) => Some(IrOp::SetIndirect(*far, wrapping_sum(*c, *x))),
            IrOp::Sub(far, x) => Some(IrOp::SetIndirect(*far, wrapping_difference(*c, *x))),
            IrOp::SetIndirect(far, c2) => Some(IrOp::SetIndirect(*far, *c2)),
            _ => None,
        },
        _ => None,
    }
}

impl IrCode {
    /// The node that one rewrite puts at `current_idx`.
    pub fn find_replacement(&self, current_idx: usize) -> (r: IrOp)
        requires
            self.wf(),
            current_idx < self@.len(),
        ensures
            r == replacement(self@, current_idx as int),
    {
        let current = &self.ops[current_idx];
        let next_idx = match current.next() {
            Some(t) => t,
            None => return *current,
        };
        let next = &self.ops[next_idx];

        /* three consecutive ops */
        if let Some(t) = next.next() {
            let subsequent = &self.ops[t];
            if let Some(r) = clear_loop(current, next, subsequent) {
                return r;
            }
        }
        /* two consecutive ops */

        match fusion(current, next) {
            Some(r) => r,
            None => *current,
        }
    }
}


/// A clear loop is linked to the successor of its third node.
pub proof fn lemma_fuse_triple_link(first: IrOp, second: IrOp, third: IrOp)
    ensures
        fuse_triple(first, second, third) matches Some(r) ==> r.link() == third.link()
            && first is JumpIfZero,
{
}

/// A fusion is linked to the successor of its second node.
pub proof fn lemma_fuse_pair_link(first: IrOp, second: IrOp)
    ensures
        fuse_pair(first, second) matches Some(r) ==> r.link() == second.link(),
{
}

/// A replacement is the node itself, or it is linked past the node's
/// successor, or past the successor of that; either way the links still
/// lead forward.
pub proof fn lemma_replacement_shape(ops: Seq<IrOp>, idx: int)
    requires
        links_forward(ops),
        0 <= idx < ops.len(),
    ensures
        links_forward(ops.update(idx, replacement(ops, idx))),
        replacement(ops, idx) == ops[idx] || (ops[idx].link() matches Some(m) && (replacement(
            ops,
            idx,
        ).link() == ops[m as int].link() || (ops[m as int].link() matches Some(m2) && replacement(
            ops,
            idx,
        ).link() == ops[m2 as int].link()))),
{
    let r = replacement(ops, idx);
    let rewired = ops.update(idx, r);
    let current = ops[idx];
    match current.link() {
        None => {},
        Some(m) => {
            let next = ops[m as int];
            assert(idx < m < ops.len());
            lemma_fuse_pair_link(current, next);
            match next.link() {
                Some(t) => {
                    assert(m < t < ops.len());
                    let third = ops[t as int];
                    assert(third.link() matches Some(u) ==> t < u < ops.len());
                    lemma_fuse_triple_link(current, next, third);
                },
                None => {},
            }
        },
    }
    assert forall|i: int| 0 <= i < rewired.len() implies match (#[trigger] rewired[i]).link() {
        Some(j) => i < j < rewired.len(),
        None => true,
    } by {
        if i != idx {
            assert(rewired[i] == ops[i]);
        }
    }
}

/// A pass from `idx` on keeps the length of the vector, the nodes in front
/// of `idx` and the forward direction of the links.
pub proof fn lemma_pass_from_frame(ops: Seq<IrOp>, idx: int)
    requires
        links_forward(ops),
    ensures
        pass_from(ops, idx).len() == ops.len(),
        links_forward(pass_from(ops, idx)),
        forall|k: int| 0 <= k < idx && k < ops.len() ==> #[trigger] pass_from(ops, idx)[k] == ops[k],
        0 <= idx < ops.len() ==> pass_from(ops, idx)[idx] == replacement(ops, idx),
    decreases ops.len() - idx,
{
    if 0 <= idx < ops.len() {
        let r = replacement(ops, idx);
        let rewired = ops.update(idx, r);
        let res = pass_from(ops, idx);
        lemma_replacement_shape(ops, idx);
        assert(rewired[idx] == r);
        match r.link() {
            Some(n) => {
                assert(idx < n < ops.len());
                assert(res == pass_from(rewired, n as int));
                lemma_pass_from_frame(rewired, n as int);
                assert forall|k: int| 0 <= k < idx && k < ops.len() implies #[trigger] res[k]
                    == ops[k] by {
                    assert(res[k] == rewired[k]);
                }
                assert(res[idx] == rewired[idx]);
            },
            None => {
                assert(res == rewired);
            },
        }
    }
}

/// A pass from `idx` on does not lengthen the chain from `idx` on, and it
/// keeps the length only if it changes nothing.
pub proof fn lemma_pass_from_shrinks(ops: Seq<IrOp>, idx: int)
    requires
        links_forward(ops),
        0 <= idx < ops.len(),
    ensures
        chain_from(pass_from(ops, idx), idx).len() <= chain_from(ops, idx).len(),
        chain_from(pass_from(ops, idx), idx).len() == chain_from(ops, idx).len() ==> pass_from(
            ops,
            idx,
        ) == ops,
    decreases ops.len() - idx,
{
    let r = replacement(ops, idx);
    let rewired = ops.update(idx, r);
    let res = pass_from(ops, idx);
    lemma_replacement_shape(ops, idx);
    assert(rewired[idx] == r);
    match r.link() {
        None => {
            assert(res == rewired);
            assert(chain_from(res, idx) == seq![idx]);
            match ops[idx].link() {
                None => {
                    assert(rewired =~= ops);
                },
                Some(m) => {
                    assert(idx < m < ops.len());
                    assert(chain_from(ops, idx) == seq![idx] + chain_from(ops, m as int));
                    assert(chain_from(ops, m as int).len() >= 1);
                },
            }
        },
        Some(n) => {
            assert(idx < n < ops.len());
            assert(res == pass_from(rewired, n as int));
            lemma_pass_from_frame(rewired, n as int);
            lemma_pass_from_shrinks(rewired, n as int);
            lemma_chain_frame(rewired, ops, n as int);
            assert(res[idx] == rewired[idx]);
            assert(chain_from(res, idx) == seq![idx] + chain_from(res, n as int));
            let m = ops[idx].link().unwrap();
            assert(idx < m < ops.len());
            assert(chain_from(ops, idx) == seq![idx] + chain_from(ops, m as int));
            assert(chain_from(ops, n as int).len() >= 1);
            if r == ops[idx] {
                assert(rewired =~= ops);
            } else {
                // the chain of `ops` from `m` on holds the one from `n` on
                // and one or two nodes more
                if r.link() == ops[m as int].link() {
                    assert(chain_from(ops, m as int).len() == 1 + chain_from(ops, n as int).len());
                } else {
                    let m2 = ops[m as int].link().unwrap();
                    assert(m < m2 < ops.len());
                    assert(chain_from(ops, m2 as int).len() == 1 + chain_from(
                        ops,
                        n as int,
                    ).len());
                    assert(chain_from(ops, m as int).len() == 1 + chain_from(
                        ops,
                        m2 as int,
                    ).len());
                }
            }
        },
    }
}

/// One pass does not lengthen the chain, and it shortens the chain unless
/// it changes nothing: the length of the chain falls strictly from pass to
/// pass until a pass leaves the vector as it is.
pub proof fn lemma_pass_shrinks(ops: Seq<IrOp>)
    requires
        links_forward(ops),
    ensures
        links_forward(pass(ops)),
        pass(ops).len() == ops.len(),
        chain_len(pass(ops)) <= chain_len(ops),
        chain_len(pass(ops)) == chain_len(ops) ==> pass(ops) == ops,
{
    lemma_pass_from_frame(ops, 0);
    if ops.len() > 0 {
        lemma_pass_from_shrinks(ops, 0);
    }
}

/// Passes never lengthen the chain.
pub proof fn lemma_passes_shrink(ops: Seq<IrOp>, n: nat)
    requires
        links_forward(ops),
    ensures
        links_forward(passes(ops, n)),
        passes(ops, n).len() == ops.len(),
        chain_len(passes(ops, n)) <= chain_len(ops),
    decreases n,
{
    if n > 0 {
        lemma_passes_shrink(ops, (n - 1) as nat);
        lemma_pass_shrinks(passes(ops, (n - 1) as nat));
    }
}

/// Once a pass has changed nothing, no number of further passes changes
/// anything.
pub proof fn lemma_fixed_point_stays(ops: Seq<IrOp>, n: nat)
    requires
        pass(ops) == ops,
    ensures
        passes(ops, n) == ops,
    decreases n,
{
    if n > 0 {
        lemma_fixed_point_stays(ops, (n - 1) as nat);
    }
}

/// A store of a constant that follows another store of a constant takes
/// its place.
pub proof fn lemma_set_then_set(ops: Seq<IrOp>, idx: int, next: usize, far: Link, c: u8, d: u8)
    requires
        0 <= idx < ops.len(),
        ops[idx] == IrOp::SetIndirect(Some(next), c),
        ops[next as int] == IrOp::SetIndirect(far, d),
    ensures
        replacement(ops, idx) == IrOp::SetIndirect(far, d),
{
}

impl IrCode {
    /// One pass over the chain: every node that is met is replaced in place
    /// by its replacement, and the pass goes on at the replacement's
    /// successor. Returns the number of nodes visited, which is the length
    /// of the chain after the pass.
    pub fn optimize_program_once(&mut self) -> (len: usize)
        requires
            old(self).wf(),
        ensures
            final(self)@ == pass(old(self)@),
            final(self).wf(),
            final(self)@.len() == old(self)@.len(),
            len == chain_len(final(self)@),
            chain_len(final(self)@) <= chain_len(old(self)@),
            chain_len(final(self)@) == chain_len(old(self)@) ==> final(self)@ == old(self)@,
    {
        let ghost init = self@;
        let ghost result = pass(init);
        proof {
            lemma_pass_shrinks(init);
        }
        if self.ops.len() == 0 {
            return 0;
        }
        let mut idx: usize = 0;
        let mut len: usize = 0;
        loop
            invariant
                self.wf(),
                links_forward(old(self)@),
                result == pass(old(self)@),
                self.ops.len() == old(self)@.len(),
                idx < self.ops.len(),
                len <= idx,
                pass_from(self@, idx as int) == result,
                len + chain_from(result, idx as int).len() == chain_len(result),
            decreases self.ops.len() - idx,
        {
            let replacement = self.find_replacement(idx);
            let ghost before = self@;
            proof {
                lemma_replacement_shape(self@, idx as int);
                lemma_pass_from_frame(self@, idx as int);
                let rewired = self@.update(idx as int, replacement);
                assert(rewired[idx as int] == replacement);
                match replacement.link() {
                    Some(n) => {
                        assert(idx < n < self@.len());
                        assert(result == pass_from(rewired, n as int));
                        assert(chain_from(result, idx as int) == seq![idx as int] + chain_from(
                            result,
                            n as int,
                        ));
                    },
                    None => {
                        assert(result == rewired);
                    },
                }
            }
            self.ops[idx] = replacement;
            assert(self@ =~= before.update(idx as int, replacement));
            len += 1;
            idx =
            match replacement.next() {
                Some(t) => t,
                None => {
                    proof {
                        lemma_pass_shrinks(old(self)@);
                    }
                    return len;
                },
            };
        }
    }

    /// Runs passes until one does not shorten the chain any more. What is
    /// left is a fixed point: a further pass changes nothing.
    pub fn optimize(&mut self)
        requires
            old(self).wf(),
        ensures
            final(self).wf(),
            final(self)@.len() == old(self)@.len(),
            exists|n: nat| final(self)@ == passes(old(self)@, n),
            pass(final(self)@) == final(self)@,
            chain_len(final(self)@) <= chain_len(old(self)@),
    {
        let ghost init = self@;
        let ghost mut done: nat = 1;
        let mut old_len = self.optimize_program_once();
        assert(self@ == passes(init, 1)) by {
            reveal_with_fuel(passes, 2);
        }
        loop
            invariant
                self.wf(),
                init == old(self)@,
                links_forward(init),
                self@ == passes(init, done),
                old_len == chain_len(self@),
            decreases old_len,
        {
            let ghost before = self@;
            let new_len = self.optimize_program_once();
            if new_len >= old_len {
                proof {
                    lemma_passes_shrink(init, done);
                }
                return ;
            }
            proof {
                done = done + 1;
            }
            old_len = new_len;
        }
    }
}

} // verus!
