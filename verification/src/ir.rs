//! MIR-shaped intermediate representation.
//!
//! Just the fragment of Rust MIR that decides atomic context: guard acquisition, guard drop
//! points, FFI calls and control flow. Each type has a model, its view, in which texts are
//! sequences of characters and collections are mathematical.

use crate::names::NameMap;
use crate::text::same_text;
use vstd::prelude::*;

verus! {

/// A MIR local, such as the slot that holds a lock guard.
pub type Local = String;

/// The identifier of a basic block, such as `bb0`.
pub type BbId = String;

/// How a lock guard relates to atomic context.
///
/// Only guards that disable preemption establish it. A sleepable lock does not forbid sleeping.
#[derive(Debug, Clone, Copy, PartialEq, Eq, Structural)]
pub enum GuardKind {
    /// `spin_lock`, `raw_spin_lock` and their kin: raises the context.
    PreemptDisabling,
    /// `mutex_lock`, `down` and all others: does not raise the context.
    Sleepable,
}

/// The acquire names whose guards disable preemption.
pub open spec fn disables_preemption(name: Seq<char>) -> bool {
    ||| name == "spin_lock"@
    ||| name == "raw_spin_lock"@
    ||| name == "spin_lock_irqsave"@
    ||| name == "spin_lock_bh"@
    ||| name == "local_irq_save"@
    ||| name == "preempt_disable"@
}

/// The guard kind that an acquire name stands for.
pub open spec fn guard_kind(name: Seq<char>) -> GuardKind {
    if disables_preemption(name) {
        GuardKind::PreemptDisabling
    } else {
        GuardKind::Sleepable
    }
}

impl GuardKind {
    /// Classifies the guard that a kernel acquire name hands out.
    pub fn from_acquire_name(name: &str) -> (kind: GuardKind)
        ensures
            kind == guard_kind(name@),
    {
        if same_text(name, "spin_lock") || same_text(name, "raw_spin_lock") || same_text(
            name,
            "spin_lock_irqsave",
        ) || same_text(name, "spin_lock_bh") || same_text(name, "local_irq_save") || same_text(
            name,
            "preempt_disable",
        ) {
            GuardKind::PreemptDisabling
        } else {
            GuardKind::Sleepable
        }
    }

    /// Whether a live guard of this kind means atomic context.
    pub fn raises_atomic(self) -> (raises: bool)
        ensures
            raises == (self == GuardKind::PreemptDisabling),
    {
        match self {
            GuardKind::PreemptDisabling => true,
            GuardKind::Sleepable => false,
        }
    }
}

/// A straight-line statement of a basic block.
#[derive(Debug, Clone)]
pub enum Stmt {
    /// `LOCAL = acquire KIND`: unconditional guard acquisition.
    Acquire { local: Local, kind: GuardKind },
    /// `drop LOCAL`: the guard's drop point.
    Drop { local: Local },
    /// `storage_dead LOCAL`: the same as `Drop` for guard liveness.
    StorageDead { local: Local },
}

/// The model of a [`Stmt`].
pub enum StmtModel {
    Acquire { local: Seq<char>, kind: GuardKind },
    Drop { local: Seq<char> },
    StorageDead { local: Seq<char> },
}

impl View for Stmt {
    type V = StmtModel;

    open spec fn view(&self) -> StmtModel {
        match self {
            Stmt::Acquire { local, kind } => StmtModel::Acquire { local: local@, kind: *kind },
            Stmt::Drop { local } => StmtModel::Drop { local: local@ },
            Stmt::StorageDead { local } => StmtModel::StorageDead { local: local@ },
        }
    }
}

/// The terminator of a basic block: control flow, and calls, which are terminators in MIR.
#[derive(Debug, Clone)]
pub enum Term {
    /// `call SYMBOL -> BB`: an FFI call site.
    Call { symbol: String, target: BbId },
    /// `drop_call LOCAL -> BB`: `core::mem::drop`, which releases the guard.
    MemDrop { local: Local, target: BbId },
    /// `forget_call LOCAL -> BB`: `core::mem::forget`, after which the guard is still held.
    MemForget { local: Local, target: BbId },
    /// `try LOCAL = KIND -> BB BB`: conditional acquire, with a guard on success only.
    TryAcquire { local: Local, kind: GuardKind, success: BbId, fail: BbId },
    /// `goto BB`.
    Goto { target: BbId },
    /// `ret`.
    Ret,
}

/// The model of a [`Term`].
pub enum TermModel {
    Call { symbol: Seq<char>, target: Seq<char> },
    MemDrop { local: Seq<char>, target: Seq<char> },
    MemForget { local: Seq<char>, target: Seq<char> },
    TryAcquire { local: Seq<char>, kind: GuardKind, success: Seq<char>, fail: Seq<char> },
    Goto { target: Seq<char> },
    Ret,
}

impl View for Term {
    type V = TermModel;

    open spec fn view(&self) -> TermModel {
        match self {
            Term::Call { symbol, target } => TermModel::Call {
                symbol: symbol@,
                target: target@,
            },
            Term::MemDrop { local, target } => TermModel::MemDrop {
                local: local@,
                target: target@,
            },
            Term::MemForget { local, target } => TermModel::MemForget {
                local: local@,
                target: target@,
            },
            Term::TryAcquire { local, kind, success, fail } => TermModel::TryAcquire {
                local: local@,
                kind: *kind,
                success: success@,
                fail: fail@,
            },
            Term::Goto { target } => TermModel::Goto { target: target@ },
            Term::Ret => TermModel::Ret,
        }
    }
}

/// A basic block.
#[derive(Debug, Clone)]
pub struct Block {
    pub id: BbId,
    pub stmts: Vec<Stmt>,
    pub term: Term,
}

/// The model of a [`Block`].
#[verifier::ext_equal]
pub struct BlockModel {
    pub id: Seq<char>,
    pub stmts: Seq<StmtModel>,
    pub term: TermModel,
}

impl View for Block {
    type V = BlockModel;

    open spec fn view(&self) -> BlockModel {
        BlockModel {
            id: self.id@,
            stmts: self.stmts@.map_values(|stmt: Stmt| stmt@),
            term: self.term@,
        }
    }
}

/// A function: its blocks by identifier, and the order in which they were written.
#[derive(Debug, Clone)]
pub struct Function {
    pub name: String,
    pub entry: BbId,
    pub blocks: NameMap<Block>,
    /// Source order of the blocks.
    pub order: Vec<BbId>,
}

/// The model of a [`Function`].
#[verifier::ext_equal]
pub struct FunctionModel {
    pub name: Seq<char>,
    pub entry: Seq<char>,
    pub blocks: Map<Seq<char>, BlockModel>,
    pub order: Seq<Seq<char>>,
}

impl View for Function {
    type V = FunctionModel;

    open spec fn view(&self) -> FunctionModel {
        FunctionModel {
            name: self.name@,
            entry: self.entry@,
            blocks: self.blocks@.map_values(|block: Block| block@),
            order: self.order@.map_values(|id: BbId| id@),
        }
    }
}

impl FunctionModel {
    /// Every block that the order names is there.
    pub open spec fn wf(self) -> bool {
        forall|i: int|
            0 <= i < self.order.len() ==> self.blocks.contains_key(#[trigger] self.order[i])
    }
}

impl Function {
    /// The block with identifier `id`.
    pub fn block(&self, id: &str) -> (block: Option<&Block>)
        ensures
            block == if self.blocks@.contains_key(id@) {
                Some(&self.blocks@[id@])
            } else {
                None::<&Block>
            },
    {
        self.blocks.get(id)
    }
}

/// The model of a block holds all of its statements, in their order, and its terminator.
pub proof fn law_block_model_is_faithful(b: Block)
    ensures
        b@.id == b.id@,
        b@.stmts.len() == b.stmts@.len(),
        forall|i: int| 0 <= i < b.stmts@.len() ==> #[trigger] b@.stmts[i] == b.stmts@[i]@,
        b@.term == b.term@,
{
}

/// The model of a function holds all of its blocks and the whole of its order.
pub proof fn law_function_model_is_faithful(f: Function, id: Seq<char>)
    ensures
        f@.name == f.name@,
        f@.entry == f.entry@,
        f@.order.len() == f.order@.len(),
        forall|i: int| 0 <= i < f.order@.len() ==> #[trigger] f@.order[i] == f.order@[i]@,
        f@.blocks.contains_key(id) <==> f.blocks@.contains_key(id),
        f.blocks@.contains_key(id) ==> f@.blocks[id] == f.blocks@[id]@,
{
}

/// The model of a statement says which statement it is, of what local, and with what kind.
pub proof fn law_stmt_model_is_faithful(local: Local, kind: GuardKind)
    ensures
        (Stmt::Acquire { local, kind })@ == (StmtModel::Acquire { local: local@, kind }),
        (Stmt::Drop { local })@ == (StmtModel::Drop { local: local@ }),
        (Stmt::StorageDead { local })@ == (StmtModel::StorageDead { local: local@ }),
{
}

/// The model of a terminator says which terminator it is, and with what operands.
pub proof fn law_term_model_is_faithful(
    local: Local,
    kind: GuardKind,
    symbol: String,
    one: BbId,
    other: BbId,
)
    ensures
        (Term::Call { symbol, target: one })@ == (TermModel::Call {
            symbol: symbol@,
            target: one@,
        }),
        (Term::MemDrop { local, target: one })@ == (TermModel::MemDrop {
            local: local@,
            target: one@,
        }),
        (Term::MemForget { local, target: one })@ == (TermModel::MemForget {
            local: local@,
            target: one@,
        }),
        (Term::TryAcquire { local, kind, success: one, fail: other })@ == (TermModel::TryAcquire {
            local: local@,
            kind,
            success: one@,
            fail: other@,
        }),
        (Term::Goto { target: one })@ == (TermModel::Goto { target: one@ }),
        Term::Ret@ == TermModel::Ret,
{
}

} // verus!
