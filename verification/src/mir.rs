//! The control-flow-graph input the front end hands to the engine, per entry
//! function: typed local slots and an ordered list of basic blocks, each a
//! run of statements closed by one terminator.
//!
//! Every dispatch on this data is an exhaustive match with one designated
//! case for constructs outside the supported subset; the engine surfaces
//! those as an error instead of guessing.

use vstd::prelude::*;

verus! {

/// Why the analysis of one entry function aborted. Analysis never guesses:
/// input outside the supported subset, or a read of a storage location that
/// holds no value (moved out, dead, or never live), stops the function's
/// analysis and is surfaced as a diagnostic distinct from a finding.
#[derive(Clone, Copy, PartialEq, Eq, Structural, Debug)]
pub enum ExecError {
    UnsupportedConstruct,
    UnboundPlace,
    UnknownLocal,
}

/// The static type of a local slot. The supported subset is booleans,
/// integers and raw pointers; everything else is `Unsupported` and makes the
/// analysis of the function abort.
#[derive(Clone, Copy, PartialEq, Eq, Structural, Debug)]
pub enum StaticTy {
    Bool,
    Int,
    Uint,
    RawPtr,
    Unsupported,
}

/// A binary operator of the source program.
#[derive(Clone, Copy, PartialEq, Eq, Structural, Debug)]
pub enum MirBinOp {
    Add,
    Sub,
    Mul,
    Div,
    Rem,
    Eq,
    Lt,
    Le,
    Gt,
    Ge,
    Ne,
    Unsupported,
}

/// A unary operator of the source program.
#[derive(Clone, Copy, PartialEq, Eq, Structural, Debug)]
pub enum MirUnOp {
    Not,
    Neg,
}

/// A storage location: a base local variable with some number of dereference
/// projections applied to it. `derefs == 0` is the local itself; each
/// further level reads through the pointer held one level below.
#[derive(Clone, Copy, PartialEq, Eq, Structural, Debug)]
pub struct Place {
    pub local: usize,
    pub derefs: usize,
}

impl Place {
    /// The place of a base local variable.
    pub fn base_local(local: usize) -> (r: Place)
        ensures
            r.local == local,
            r.derefs == 0,
    {
        Place { local, derefs: 0 }
    }

    /// Whether this place is a base local, not a projection.
    pub open spec fn is_base(self) -> bool {
        self.derefs == 0
    }

    /// The place this projection reads through.
    pub open spec fn base(self) -> Place
        recommends
            self.derefs >= 1,
    {
        Place { local: self.local, derefs: (self.derefs - 1) as usize }
    }

    /// The dereference projection of this place.
    pub fn deref(self) -> (r: Place)
        requires
            self.derefs < usize::MAX,
        ensures
            r.local == self.local,
            r.derefs == self.derefs + 1,
            r.base() == self,
    {
        Place { local: self.local, derefs: self.derefs + 1 }
    }
}

/// An operand of a statement: a copied place, a moved place, or a constant
/// scalar with its static type.
#[derive(Clone, Copy, PartialEq, Eq, Structural, Debug)]
pub enum Operand {
    Copy(Place),
    Move(Place),
    Constant(u128, StaticTy),
}

/// The right-hand side of an assignment.
#[derive(Clone, Copy, PartialEq, Eq, Structural, Debug)]
pub enum Rvalue {
    Use(Operand),
    BinaryOp(MirBinOp, Operand, Operand),
    UnaryOp(MirUnOp, Operand),
    Cast(Operand),
    Ref(Place),
    Unsupported,
}

/// One straight-line statement of a basic block.
#[derive(Clone, Copy, PartialEq, Eq, Structural, Debug)]
pub enum Statement {
    Assign(Place, Rvalue),
    StorageLive(usize),
    StorageDead(usize),
    Nop,
    Unsupported,
}

/// The closing instruction of a basic block. For `SwitchInt` the last target
/// is the `otherwise` branch; the rest pair up with `values`.
pub enum Terminator {
    Goto { target: usize },
    SwitchInt { discr: Operand, switch_ty: StaticTy, values: Vec<u128>, targets: Vec<usize> },
    Assert { cond: Operand, expected: bool, target: usize },
    Call { destination: Place, next: usize },
    Return,
    Unsupported,
}

/// One basic block: straight-line statements closed by one terminator.
pub struct BasicBlockData {
    pub statements: Vec<Statement>,
    pub terminator: Terminator,
}

/// A source location of the entry function, used only to label findings.
#[derive(Clone, Copy, PartialEq, Eq, Structural, Debug)]
pub struct SourceSpan {
    pub lo: u32,
    pub hi: u32,
}

/// The control-flow graph of one entry function. Local slot `0` is the
/// return slot; slots `1 ..= arg_count` are the arguments; execution starts
/// at block `0`.
pub struct FnBody {
    pub def_id: u64,
    pub span: SourceSpan,
    pub arg_count: usize,
    pub local_types: Vec<StaticTy>,
    pub blocks: Vec<BasicBlockData>,
}

/// How many successor blocks a terminator can schedule.
pub open spec fn succ_count(t: Terminator) -> nat {
    match t {
        Terminator::Goto { .. } => 1,
        Terminator::SwitchInt { targets, .. } => targets@.len(),
        Terminator::Assert { .. } => 1,
        Terminator::Call { .. } => 1,
        Terminator::Return => 0,
        Terminator::Unsupported => 0,
    }
}

/// Structural soundness of one terminator against the number of blocks.
pub open spec fn terminator_wf(t: Terminator, nblocks: nat) -> bool {
    match t {
        Terminator::Goto { target } => target < nblocks,
        Terminator::SwitchInt { discr, switch_ty, values, targets } => {
            &&& values@.len() >= 1
            &&& targets@.len() == values@.len() + 1
            &&& forall|i: int| 0 <= i < targets@.len() ==> #[trigger] targets@[i] < nblocks
        },
        Terminator::Assert { cond, expected, target } => target < nblocks,
        Terminator::Call { destination, next } => next < nblocks,
        Terminator::Return => true,
        Terminator::Unsupported => true,
    }
}

impl FnBody {
    /// Structural soundness of the whole body: the entry block exists, the
    /// return slot and every argument have a typed slot, and every
    /// terminator's targets point at existing blocks.
    pub open spec fn wf(self) -> bool {
        &&& self.blocks@.len() >= 1
        &&& self.local_types@.len() >= 1 + self.arg_count
        &&& forall|i: int|
            0 <= i < self.blocks@.len() ==> terminator_wf(
                #[trigger] self.blocks@[i].terminator,
                self.blocks@.len(),
            )
    }

    /// Checks structural soundness; the engine requires it.
    pub fn check(&self) -> (r: bool)
        ensures
            r == self.wf(),
    {
        if self.blocks.len() < 1 {
            return false;
        }
        if self.arg_count >= self.local_types.len() {
            return false;
        }
        let nblocks = self.blocks.len();
        let mut i: usize = 0;
        while i < nblocks
            invariant
                0 <= i <= nblocks,
                nblocks == self.blocks@.len(),
                forall|j: int|
                    0 <= j < i ==> terminator_wf(
                        #[trigger] self.blocks@[j].terminator,
                        nblocks as nat,
                    ),
            decreases nblocks - i,
        {
            let ok = match &self.blocks[i].terminator {
                Terminator::Goto { target } => *target < nblocks,
                Terminator::SwitchInt { discr, switch_ty, values, targets } => {
                    if targets.len() < 2 || values.len() != targets.len() - 1 {
                        false
                    } else {
                        let mut k: usize = 0;
                        let mut in_range = true;
                        while k < targets.len()
                            invariant
                                0 <= k <= targets@.len(),
                                in_range == forall|j: int|
                                    0 <= j < k ==> #[trigger] targets@[j] < nblocks,
                            decreases targets@.len() - k,
                        {
                            if targets[k] >= nblocks {
                                in_range = false;
                            }
                            k = k + 1;
                        }
                        in_range
                    }
                },
                Terminator::Assert { cond, expected, target } => *target < nblocks,
                Terminator::Call { destination, next } => *next < nblocks,
                Terminator::Return => true,
                Terminator::Unsupported => true,
            };
            if !ok {
                return false;
            }
            i = i + 1;
        }
        true
    }

    /// The widest fan-out of any block's terminator.
    pub open spec fn fanout(self) -> nat {
        fanout_upto(self.blocks@, self.blocks@.len() as int)
    }
}

/// The widest fan-out among the first `n` blocks.
pub open spec fn fanout_upto(blocks: Seq<BasicBlockData>, n: int) -> nat
    decreases n,
{
    if n <= 0 {
        0
    } else {
        let rest = fanout_upto(blocks, n - 1);
        let here = succ_count(blocks[n - 1].terminator);
        if here > rest {
            here
        } else {
            rest
        }
    }
}

/// Every block's fan-out is bounded by the body-wide fan-out.
pub proof fn lemma_fanout_bound(blocks: Seq<BasicBlockData>, i: int, n: int)
    requires
        0 <= i < n <= blocks.len(),
    ensures
        succ_count(blocks[i].terminator) <= fanout_upto(blocks, n),
    decreases n,
{
    if i < n - 1 {
        lemma_fanout_bound(blocks, i, n - 1);
    }
}

} // verus!
