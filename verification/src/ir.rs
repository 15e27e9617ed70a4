//! The intermediate representation: a vector of operations that are chained
//! by index, and the peephole optimiser that rewires the chain.
use crate::brackets::{
    all_matched, is_bracket_word, lemma_balanced_all_matched, match_end, match_start,
};
use crate::brainfuck::{brackets_of, Op, Program};
use vstd::prelude::*;

verus! {

/// Index of the operation that comes next in the chain; `None` ends it.
pub type Link = Option<usize>;

/// Operations of the intermediate representation. The first field of each
/// is the link to its successor.
#[derive(Debug, Copy, Clone, PartialEq, Eq)]
pub enum IrOp {
    Noop(Link),
    Right(Link, u8),
    Left(Link, u8),
    Add(Link, u8),
    Sub(Link, u8),
    SetIndirect(Link, u8),
    /* offset, factor */
    MulCopy(Link, i8, u8),
    Write(Link),
    Read(Link),
    /* next, addr if 0 */
    JumpIfZero(Link, Link),
    /* next, addr if not 0 */
    JumpIfNotZero(Link, Link),
}

impl IrOp {
    /// The link to the successor.
    pub open spec fn link(self) -> Link {
        match self {
            IrOp::Noop(l) => l,
            IrOp::Right(l, _) => l,
            IrOp::Left(l, _) => l,
            IrOp::Add(l, _) => l,
            IrOp::Sub(l, _) => l,
            IrOp::SetIndirect(l, _) => l,
            IrOp::MulCopy(l, _, _) => l,
            IrOp::Write(l) => l,
            IrOp::Read(l) => l,
            IrOp::JumpIfZero(l, _) => l,
            IrOp::JumpIfNotZero(l, _) => l,
        }
    }

    /// The link to the successor.
    pub fn next(&self) -> (l: Link)
        ensures
            l == self.link(),
    {
        match self {
            IrOp::Noop(l) => *l,
            IrOp::Right(l, _) => *l,
            IrOp::Left(l, _) => *l,
            IrOp::Add(l, _) => *l,
            IrOp::Sub(l, _) => *l,
            IrOp::SetIndirect(l, _) => *l,
            IrOp::MulCopy(l, _, _) => *l,
            IrOp::Write(l) => *l,
            IrOp::Read(l) => *l,
            IrOp::JumpIfZero(l, _) => *l,
            IrOp::JumpIfNotZero(l, _) => *l,
        }
    }
}

/// How an operation changes the nesting depth.
pub open spec fn ir_bracket_kind(op: IrOp) -> int {
    match op {
        IrOp::JumpIfZero(_, _) => 1,
        IrOp::JumpIfNotZero(_, _) => -1,
        _ => 0,
    }
}

/// The changes of depth along a sequence of operations.
pub open spec fn ir_brackets(chain: Seq<IrOp>) -> Seq<int> {
    Seq::new(chain.len(), |i: int| ir_bracket_kind(chain[i]))
}

/// Every link leads forward to an operation that exists.
pub open spec fn links_forward(ops: Seq<IrOp>) -> bool {
    forall|i: int|
        0 <= i < ops.len() ==> match (#[trigger] ops[i]).link() {
            Some(j) => i < j < ops.len(),
            None => true,
        }
}

/// The indices that are met from `i` on when the links are followed.
pub open spec fn chain_from(ops: Seq<IrOp>, i: int) -> Seq<int>
    decreases ops.len() - i,
{
    if 0 <= i < ops.len() {
        match ops[i].link() {
            Some(j) => if i < j < ops.len() {
                seq![i] + chain_from(ops, j as int)
            } else {
                seq![i]
            },
            None => seq![i],
        }
    } else {
        Seq::empty()
    }
}

/// The operations that are met from `i` on when the links are followed.
pub open spec fn reachable_from(ops: Seq<IrOp>, i: int) -> Seq<IrOp> {
    chain_from(ops, i).map_values(|k: int| ops[k])
}

/// The chain from `j` on depends on the nodes from `j` on only.
pub proof fn lemma_chain_frame(a: Seq<IrOp>, b: Seq<IrOp>, j: int)
    requires
        a.len() == b.len(),
        forall|k: int| j <= k < a.len() ==> a[k] == b[k],
    ensures
        chain_from(a, j) == chain_from(b, j),
    decreases a.len() - j,
{
    if 0 <= j < a.len() {
        match a[j].link() {
            Some(n) => {
                if j < n < a.len() {
                    lemma_chain_frame(a, b, n as int);
                }
            },
            None => {},
        }
    }
}

/// The operations from a node on are the node and the operations from its
/// successor on.
pub proof fn lemma_reachable_unfold(ops: Seq<IrOp>, i: int)
    requires
        links_forward(ops),
        0 <= i < ops.len(),
    ensures
        reachable_from(ops, i) == match ops[i].link() {
            Some(j) => seq![ops[i]] + reachable_from(ops, j as int),
            None => seq![ops[i]],
        },
        reachable_from(ops, i).len() >= 1,
        reachable_from(ops, i)[0] == ops[i],
{
    let f = |k: int| ops[k];
    match ops[i].link() {
        Some(j) => {
            assert(chain_from(ops, i) == seq![i] + chain_from(ops, j as int));
            assert((seq![i] + chain_from(ops, j as int)).map_values(f) =~= seq![ops[i]]
                + chain_from(ops, j as int).map_values(f));
        },
        None => {
            assert(chain_from(ops, i) == seq![i]);
            assert(seq![i].map_values(f) =~= seq![ops[i]]);
        },
    }
}

/// The operations from a node on depend on the nodes from it on only.
pub proof fn lemma_reachable_frame(a: Seq<IrOp>, b: Seq<IrOp>, j: int)
    requires
        a.len() == b.len(),
        forall|k: int| j <= k < a.len() ==> a[k] == b[k],
    ensures
        reachable_from(a, j) == reachable_from(b, j),
{
    lemma_chain_frame(a, b, j);
    let chain = chain_from(a, j);
    lemma_chain_bounds(a, j);
    assert(chain.map_values(|k: int| a[k]) =~= chain.map_values(|k: int| b[k]));
}

/// The chain from `j` on is no longer than the rest of the vector.
pub proof fn lemma_chain_len_bound(ops: Seq<IrOp>, j: int)
    requires
        0 <= j <= ops.len(),
    ensures
        chain_from(ops, j).len() <= ops.len() - j,
    decreases ops.len() - j,
{
    if j < ops.len() {
        match ops[j].link() {
            Some(n) => {
                if j < n < ops.len() {
                    lemma_chain_len_bound(ops, n as int);
                }
            },
            None => {},
        }
    }
}

/// The chain from `j` on holds indices from `j` on only.
pub proof fn lemma_chain_bounds(ops: Seq<IrOp>, j: int)
    ensures
        forall|k: int|
            0 <= k < chain_from(ops, j).len() ==> j <= #[trigger] chain_from(ops, j)[k]
                < ops.len(),
    decreases ops.len() - j,
{
    if 0 <= j < ops.len() {
        match ops[j].link() {
            Some(n) => {
                if j < n < ops.len() {
                    lemma_chain_bounds(ops, n as int);
                    let rest = chain_from(ops, n as int);
                    assert forall|k: int| 0 <= k < chain_from(ops, j).len() implies j
                        <= #[trigger] chain_from(ops, j)[k] < ops.len() by {
                        if k > 0 {
                            assert(chain_from(ops, j)[k] == rest[k - 1]);
                        }
                    }
                }
            },
            None => {},
        }
    }
}

/// The node that the builder makes of the operation at position `i`.
pub open spec fn ir_node(ops: Seq<Op>, i: int) -> IrOp {
    let next = if i + 1 == ops.len() {
        None
    } else {
        Some((i + 1) as usize)
    };
    match ops[i] {
        Op::IncrementPtr => IrOp::Right(next, 1),
        Op::DecrementPtr => IrOp::Left(next, 1),
        Op::IncrementMemory => IrOp::Add(next, 1),
        Op::DecrementMemory => IrOp::Sub(next, 1),
        Op::ReadByte => IrOp::Read(next),
        Op::WriteByte => IrOp::Write(next),
        Op::JumpForward => IrOp::JumpIfZero(
            next,
            Some((match_end(brackets_of(ops), i) + 1) as usize),
        ),
        Op::JumpBackward => IrOp::JumpIfNotZero(
            next,
            Some(match_start(brackets_of(ops), i) as usize),
        ),
    }
}

/// The representation that the builder makes of a program: one node for
/// each operation, each linked to the one behind it.
pub open spec fn ir_of(ops: Seq<Op>) -> Seq<IrOp> {
    Seq::new(ops.len(), |i: int| ir_node(ops, i))
}

/// Graph representation of a program.
pub struct IrCode {
    pub ops: Vec<IrOp>,
}

impl View for IrCode {
    type V = Seq<IrOp>;

    open spec fn view(&self) -> Seq<IrOp> {
        self.ops@
    }
}

impl IrCode {
    /// Every link leads forward to an operation that exists, so the chain
    /// ends after finitely many steps.
    pub open spec fn wf(&self) -> bool {
        links_forward(self@)
    }

    /// The indices of the operations on the chain, in order.
    pub open spec fn chain(&self) -> Seq<int> {
        chain_from(self@, 0)
    }

    /// The operations on the chain, in order.
    pub open spec fn reachable(&self) -> Seq<IrOp> {
        reachable_from(self@, 0)
    }

    /// Builds the identity chain of a program: one node of unit size for
    /// each operation; a jump also holds the position of its partner.
    pub fn new(program: &Program) -> (code: Self)
        requires
            program.well_nested(),
        ensures
            code@ == ir_of(program@),
            code.wf(),
    {
        let mut ops: Vec<IrOp> = Vec::new();
        let n: usize = program.instructions.len();
        let mut idx: usize = 0;
        proof {
            assert(is_bracket_word(program.brackets()));
            lemma_balanced_all_matched(program.brackets());
        }
        while idx < n
            invariant
                n == program@.len(),
                idx <= n,
                all_matched(program.brackets()),
                ops@ == Seq::new(idx as nat, |i: int| ir_node(program@, i)),
            decreases n - idx,
        {
            let is_last = n - 1 == idx;
            let next: Link = if is_last {
                None
            } else {
                Some(idx + 1)
            };
            let ghost b = program.brackets();
            assert(b[idx as int] == crate::brainfuck::bracket_kind(program@[idx as int]));
            let node = match program.instructions[idx] {
                Op::IncrementPtr => IrOp::Right(next, 1),
                Op::DecrementPtr => IrOp::Left(next, 1),
                Op::IncrementMemory => IrOp::Add(next, 1),
                Op::DecrementMemory => IrOp::Sub(next, 1),
                Op::ReadByte => IrOp::Read(next),
                Op::WriteByte => IrOp::Write(next),
                Op::JumpForward => {
                    let end = program.find_matching_jump_end(idx);
                    proof {
                        crate::brackets::lemma_match_end_unique(
                            b,
                            idx as int,
                            end as int,
                            match_end(b, idx as int),
                        );
                    }
                    IrOp::JumpIfZero(next, Some(end + 1))
                },
                Op::JumpBackward => {
                    let start = program.find_matching_jump_start(idx);
                    proof {
                        crate::brackets::lemma_match_start_unique(
                            b,
                            idx as int,
                            start as int,
                            match_start(b, idx as int),
                        );
                    }
                    IrOp::JumpIfNotZero(next, Some(start))
                },
            };
            ops.push(node);
            assert(ops@ =~= Seq::new((idx + 1) as nat, |i: int| ir_node(program@, i)));
            idx += 1;
        }
        assert(ops@ =~= ir_of(program@));
        IrCode { ops }
    }

    /// Whether every link leads forward to an operation that exists.
    pub fn is_wf(&self) -> (ok: bool)
        ensures
            ok == self.wf(),
    {
        let total: usize = self.ops.len();
        let mut i: usize = 0;
        while i < total
            invariant
                total == self@.len(),
                i <= total,
                forall|k: int|
                    0 <= k < i ==> match (#[trigger] self@[k]).link() {
                        Some(j) => k < j < self@.len(),
                        None => true,
                    },
            decreases total - i,
        {
            match self.ops[i].next() {
                Some(j) => {
                    if j <= i || j >= total {
                        return false;
                    }
                },
                None => {},
            }
            i += 1;
        }
        true
    }

    /// The number of operations on the chain.
    pub fn len(&self) -> (n: usize)
        requires
            self.wf(),
        ensures
            n == self.chain().len(),
    {
        if self.ops.len() == 0 {
            return 0;
        }
        let mut idx: usize = 0;
        let mut len: usize = 0;
        loop
            invariant
                self.wf(),
                idx < self.ops.len(),
                len <= idx,
                len + chain_from(self@, idx as int).len() == self.chain().len(),
            decreases self.ops.len() - idx,
        {
            len += 1;
            idx = match self.ops[idx].next() {
                Some(t) => t,
                None => return len,
            };
        }
    }

    /// The operations on the chain, in order.
    pub fn to_vec(&self) -> (chain: Vec<IrOp>)
        requires
            self.wf(),
        ensures
            chain@ == self.reachable(),
    {
        let mut chain: Vec<IrOp> = Vec::new();
        let total: usize = self.ops.len();
        let mut idx: usize = 0;
        proof {
            assert(chain@ + reachable_from(self@, 0) =~= self.reachable());
            if total == 0 {
                assert(self.reachable() =~= Seq::<IrOp>::empty());
            }
        }
        while idx < total
            invariant
                self.wf(),
                total == self@.len(),
                idx < total ==> chain@ + reachable_from(self@, idx as int) == self.reachable(),
                idx >= total ==> chain@ == self.reachable(),
            decreases total - idx,
        {
            let op = self.ops[idx];
            proof {
                lemma_reachable_unfold(self@, idx as int);
                match op.link() {
                    Some(t) => {
                        assert(chain@.push(op) + reachable_from(self@, t as int) =~= chain@ + (seq![
                            op,
                        ] + reachable_from(self@, t as int)));
                    },
                    None => {
                        assert(chain@.push(op) =~= chain@ + seq![op]);
                    },
                }
            }
            chain.push(op);
            idx =
            match op.next() {
                Some(t) => t,
                None => total,
            };
        }
        chain
    }

    /// A cursor over the operations on the chain, from the first on.
    pub fn iter(&self) -> (it: Iter<'_>)
        ensures
            it.ir_code == self,
            it.idx == 0,
    {
        Iter { ir_code: self, idx: 0 }
    }
}

/// A cursor over the chain of an [`IrCode`].
pub struct Iter<'a> {
    pub ir_code: &'a IrCode,
    pub idx: usize,
}

impl<'a> Iter<'a> {
    /// The operations that the cursor has still to give.
    pub open spec fn remaining(&self) -> Seq<IrOp> {
        reachable_from(self.ir_code@, self.idx as int)
    }

    /// Gives the operation under the cursor and moves on to its successor;
    /// `None` once the chain has ended.
    pub fn next(&mut self) -> (item: Option<&'a IrOp>)
        ensures
            final(self).ir_code == old(self).ir_code,
            old(self).idx >= old(self).ir_code@.len() ==> item is None && final(self).idx == old(
                self,
            ).idx,
            old(self).idx < old(self).ir_code@.len() ==> item == Some(
                &old(self).ir_code@[old(self).idx as int],
            ) && final(self).idx == match old(self).ir_code@[old(self).idx as int].link() {
                Some(t) => t,
                None => usize::MAX,
            },
            old(self).ir_code.wf() && old(self).remaining().len() > 0 ==> item == Some(
                &old(self).remaining()[0],
            ) && final(self).remaining() == old(self).remaining().skip(1),
            old(self).ir_code.wf() && old(self).remaining().len() == 0 ==> item is None,
    {
        if self.idx < self.ir_code.ops.len() {
            let t = &self.ir_code.ops[self.idx];
            proof {
                let ops = self.ir_code@;
                let i = self.idx as int;
                if self.ir_code.wf() {
                    match ops[i].link() {
                        Some(j) => {
                            assert(chain_from(ops, i) =~= seq![i] + chain_from(ops, j as int));
                            assert(reachable_from(ops, i).skip(1) =~= reachable_from(
                                ops,
                                j as int,
                            ));
                        },
                        None => {
                            assert(reachable_from(ops, i).skip(1) =~= reachable_from(
                                ops,
                                usize::MAX as int,
                            ));
                        },
                    }
                }
            }
            self.idx = match t.next() {
                Some(n) => n,
                None => usize::MAX,
            };
            Some(t)
        } else {
            None
        }
    }
}

} // verus!
