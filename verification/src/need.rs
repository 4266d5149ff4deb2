//! What is required of statements, blocks and functions.
use crate::context::{Context, RequiredContext};
use crate::part::{reqs_of, PartReq, Req};
use std::collections::{HashMap, VecDeque};
use vstd::prelude::*;
use vstd::std_specs::vecdeque::axiom_vec_dequeue_index_decreases;

verus! {

/// What a [`StatementReq`] says.
pub enum StmtNeed {
    Emit(Seq<bool>),
    BlockStmt(BlockNeed),
    If { condition: bool, accept: BlockNeed, reject: BlockNeed },
    Switch { selector: bool, cases: Seq<BlockNeed> },
    Loop { body: BlockNeed, continuing: BlockNeed, required: bool },
    Break(bool),
    Continue(bool),
    Return(bool),
    Kill,
    Barrier,
    Store(bool),
    ImageStore(bool),
    Atomic(bool),
    Call { call_required: bool, result_required: bool },
}

/// What a [`BlockReq`] says.
pub struct BlockNeed {
    pub stmts: Seq<StmtNeed>,
    pub context: Context,
}

/// What a [`FunctionReq`] says.
pub struct FnNeed {
    pub body: BlockNeed,
    pub exprs: Map<usize, Req>,
}

/// Whether one of the statements makes its block required.
pub open spec fn any_required(stmts: Seq<StmtNeed>) -> bool
    decreases stmts,
{
    exists|i: int| 0 <= i < stmts.len() && (#[trigger] stmts[i]).required()
}

impl StmtNeed {
    /// Whether the statement makes its block required.
    ///
    /// A barrier is output with its block but does not make the block
    /// required. A kill always does. A break, a continue and a return do so
    /// only inside a scope that is required, or where the returned value is.
    pub open spec fn required(self) -> bool
        decreases self,
    {
        match self {
            StmtNeed::Emit(flags) => flags.contains(true),
            StmtNeed::BlockStmt(block) => any_required(block.stmts),
            StmtNeed::If { condition, .. } => condition,
            StmtNeed::Switch { selector, .. } => selector,
            StmtNeed::Loop { required, .. } => required,
            StmtNeed::Barrier => false,
            StmtNeed::Return(r) => r,
            StmtNeed::Break(r) => r,
            StmtNeed::Continue(r) => r,
            StmtNeed::Kill => true,
            StmtNeed::Store(r) => r,
            StmtNeed::ImageStore(r) => r,
            StmtNeed::Atomic(r) => r,
            StmtNeed::Call { call_required, .. } => call_required,
        }
    }

    /// What the two together require of the same statement. `None` where they
    /// are not about statements of one kind.
    pub open spec fn add(self, other: StmtNeed) -> Option<StmtNeed>
        decreases self,
    {
        match (self, other) {
            (StmtNeed::Emit(a), StmtNeed::Emit(b)) => Some(StmtNeed::Emit(flags_or(a, b))),
            (StmtNeed::BlockStmt(a), StmtNeed::BlockStmt(b)) => match a.add(b) {
                Some(block) => Some(StmtNeed::BlockStmt(block)),
                None => None,
            },
            (
                StmtNeed::If { condition: c1, accept: a1, reject: r1 },
                StmtNeed::If { condition: c2, accept: a2, reject: r2 },
            ) => match (a1.add(a2), r1.add(r2)) {
                (Some(accept), Some(reject)) => Some(
                    StmtNeed::If { condition: c1 || c2, accept, reject },
                ),
                _ => None,
            },
            (
                StmtNeed::Switch { selector: s1, cases: c1 },
                StmtNeed::Switch { selector: s2, cases: c2 },
            ) => match add_blocks(c1, c2, shorter(c1.len(), c2.len())) {
                Some(cases) => Some(StmtNeed::Switch { selector: s1 || s2, cases }),
                None => None,
            },
            (
                StmtNeed::Loop { body: b1, continuing: c1, required: r1 },
                StmtNeed::Loop { body: b2, continuing: c2, required: r2 },
            ) => match (b1.add(b2), c1.add(c2)) {
                (Some(body), Some(continuing)) => Some(
                    StmtNeed::Loop { body, continuing, required: r1 || r2 },
                ),
                _ => None,
            },
            (StmtNeed::Break(a), StmtNeed::Break(b)) => Some(StmtNeed::Break(a || b)),
            (StmtNeed::Continue(a), StmtNeed::Continue(b)) => Some(StmtNeed::Continue(a || b)),
            (StmtNeed::Return(a), StmtNeed::Return(b)) => Some(StmtNeed::Return(a || b)),
            (StmtNeed::Kill, StmtNeed::Kill) => Some(StmtNeed::Kill),
            (StmtNeed::Barrier, StmtNeed::Barrier) => Some(StmtNeed::Barrier),
            (StmtNeed::Store(a), StmtNeed::Store(b)) => Some(StmtNeed::Store(a || b)),
            (StmtNeed::ImageStore(a), StmtNeed::ImageStore(b)) => Some(
                StmtNeed::ImageStore(a || b),
            ),
            (StmtNeed::Atomic(a), StmtNeed::Atomic(b)) => Some(StmtNeed::Atomic(a || b)),
            (
                StmtNeed::Call { call_required: c1, result_required: r1 },
                StmtNeed::Call { call_required: c2, result_required: r2 },
            ) => Some(
                StmtNeed::Call { call_required: c1 || c2, result_required: r1 || r2 },
            ),
            _ => None,
        }
    }
}

/// The smaller of two lengths.
pub open spec fn shorter(a: nat, b: nat) -> nat {
    if a <= b {
        a
    } else {
        b
    }
}

/// Position by position, whether one of the two flags is set.
pub open spec fn flags_or(a: Seq<bool>, b: Seq<bool>) -> Seq<bool> {
    Seq::new(shorter(a.len(), b.len()), |i: int| a[i] || b[i])
}

/// What `a` and `b` together require of the first `n` statements.
pub open spec fn add_stmts(a: Seq<StmtNeed>, b: Seq<StmtNeed>, n: nat) -> Option<Seq<StmtNeed>>
    decreases a, n,
{
    if n == 0 {
        Some(Seq::empty())
    } else if n > a.len() {
        None
    } else {
        match (add_stmts(a, b, (n - 1) as nat), a[n - 1].add(b[n - 1])) {
            (Some(stmts), Some(stmt)) => Some(stmts.push(stmt)),
            _ => None,
        }
    }
}

/// What `a` and `b` together require of the first `n` blocks.
pub open spec fn add_blocks(a: Seq<BlockNeed>, b: Seq<BlockNeed>, n: nat) -> Option<Seq<BlockNeed>>
    decreases a, n,
{
    if n == 0 {
        Some(Seq::empty())
    } else if n > a.len() {
        None
    } else {
        match (add_blocks(a, b, (n - 1) as nat), a[n - 1].add(b[n - 1])) {
            (Some(blocks), Some(block)) => Some(blocks.push(block)),
            _ => None,
        }
    }
}

impl BlockNeed {
    /// Whether the block is required.
    pub open spec fn is_required(self) -> bool {
        any_required(self.stmts)
    }

    /// What the two together require of the same block. `None` where they are
    /// about blocks of different kinds of statements.
    pub open spec fn add(self, other: BlockNeed) -> Option<BlockNeed>
        decreases self,
    {
        match add_stmts(self.stmts, other.stmts, shorter(self.stmts.len(), other.stmts.len())) {
            Some(stmts) => Some(
                BlockNeed { stmts, context: self.context.merge(other.context) },
            ),
            None => None,
        }
    }
}

/// What is required of a statement.
#[derive(Debug)]
pub enum StatementReq {
    Emit(Vec<bool>),
    BlockStmt(BlockReq),
    If { condition: bool, accept: BlockReq, reject: BlockReq },
    Switch { selector: bool, cases: Vec<BlockReq> },
    Loop { body: BlockReq, continuing: BlockReq, required: bool },
    Break(bool),
    Continue(bool),
    Return(bool),
    Kill(),
    Barrier(),
    Store(bool),
    ImageStore(bool),
    Atomic(bool),
    Call { call_required: bool, result_required: bool },
}

/// What is required of a block: of each of its statements, and in front of it.
#[derive(Debug)]
pub struct BlockReq {
    pub required_statements: VecDeque<StatementReq>,
    pub context: RequiredContext,
}

/// What is required of a function: of its body, and of its expressions.
#[derive(Debug)]
pub struct FunctionReq {
    pub body_required: BlockReq,
    pub exprs_required: HashMap<usize, PartReq>,
}

impl StatementReq {
    /// What this says.
    pub open spec fn need(self) -> StmtNeed
        decreases self,
    {
        match self {
            StatementReq::Emit(flags) => StmtNeed::Emit(flags@),
            StatementReq::BlockStmt(block) => StmtNeed::BlockStmt(block.need()),
            StatementReq::If { condition, accept, reject } => StmtNeed::If {
                condition,
                accept: accept.need(),
                reject: reject.need(),
            },
            StatementReq::Switch { selector, cases } => StmtNeed::Switch {
                selector,
                cases: Seq::new(
                    cases@.len(),
                    |i: int|
                        if 0 <= i < cases@.len() {
                            cases@[i].need()
                        } else {
                            arbitrary()
                        },
                ),
            },
            StatementReq::Loop { body, continuing, required } => StmtNeed::Loop {
                body: body.need(),
                continuing: continuing.need(),
                required,
            },
            StatementReq::Break(r) => StmtNeed::Break(r),
            StatementReq::Continue(r) => StmtNeed::Continue(r),
            StatementReq::Return(r) => StmtNeed::Return(r),
            StatementReq::Kill() => StmtNeed::Kill,
            StatementReq::Barrier() => StmtNeed::Barrier,
            StatementReq::Store(r) => StmtNeed::Store(r),
            StatementReq::ImageStore(r) => StmtNeed::ImageStore(r),
            StatementReq::Atomic(r) => StmtNeed::Atomic(r),
            StatementReq::Call { call_required, result_required } => StmtNeed::Call {
                call_required,
                result_required,
            },
        }
    }
}

impl BlockReq {
    /// What this says.
    pub open spec fn need(self) -> BlockNeed
        decreases self,
    {
        proof {
            assert(decreases_to!(self => self.required_statements));
            assert forall|i: int|
                0 <= i < self.required_statements@.len() implies #[trigger] decreases_to!(
                self.required_statements => self.required_statements@[i]) by {
                axiom_vec_dequeue_index_decreases(self.required_statements, i);
            }
        }
        BlockNeed {
            stmts: Seq::new(
                self.required_statements@.len(),
                |i: int|
                    if 0 <= i < self.required_statements@.len() {
                        self.required_statements@[i].need()
                    } else {
                        arbitrary()
                    },
            ),
            context: self.context@,
        }
    }
}

impl View for StatementReq {
    type V = StmtNeed;

    open spec fn view(&self) -> StmtNeed {
        self.need()
    }
}

impl View for BlockReq {
    type V = BlockNeed;

    open spec fn view(&self) -> BlockNeed {
        self.need()
    }
}

impl View for FunctionReq {
    type V = FnNeed;

    open spec fn view(&self) -> FnNeed {
        FnNeed { body: self.body_required@, exprs: reqs_of(self.exprs_required@) }
    }
}

/// What a list of statement requirements says.
pub open spec fn needs(stmts: Seq<StatementReq>) -> Seq<StmtNeed> {
    Seq::new(stmts.len(), |i: int| stmts[i]@)
}

/// What a list of block requirements says.
pub open spec fn block_needs(blocks: Seq<BlockReq>) -> Seq<BlockNeed> {
    Seq::new(blocks.len(), |i: int| blocks[i]@)
}

/// What a block requirement says, by its statements.
pub proof fn lemma_block_view(block: BlockReq)
    ensures
        block@ == (BlockNeed {
            stmts: needs(block.required_statements@),
            context: block.context@,
        }),
{
    assert(block@.stmts =~= needs(block.required_statements@));
}

/// What a switch requirement says, by its cases.
pub proof fn lemma_switch_view(selector: bool, cases: Vec<BlockReq>)
    ensures
        (StatementReq::Switch { selector, cases })@ == (StmtNeed::Switch {
            selector,
            cases: block_needs(cases@),
        }),
{
    assert((StatementReq::Switch { selector, cases })@->cases =~= block_needs(cases@));
}

impl StatementReq {
    /// Whether the statement makes its block required.
    pub fn required(&self) -> (r: bool)
        ensures
            r == self@.required(),
        decreases self,
    {
        match self {
            StatementReq::Emit(flags) => {
                let mut i: usize = 0;
                while i < flags.len()
                    invariant
                        self == StatementReq::Emit(*flags),
                        i <= flags.len(),
                        forall|j: int| 0 <= j < i ==> !(#[trigger] flags@[j]),
                    decreases flags.len() - i,
                {
                    if flags[i] {
                        assert(flags@[i as int]);
                        return true;
                    }
                    i = i + 1;
                }
                false
            },
            StatementReq::BlockStmt(block) => block.is_required(),
            StatementReq::If { condition, .. } => *condition,
            StatementReq::Switch { selector, .. } => *selector,
            StatementReq::Loop { required, .. } => *required,
            StatementReq::Barrier() => false,
            StatementReq::Return(r) => *r,
            StatementReq::Break(r) => *r,
            StatementReq::Continue(r) => *r,
            StatementReq::Kill() => true,
            StatementReq::Store(r) => *r,
            StatementReq::ImageStore(r) => *r,
            StatementReq::Atomic(r) => *r,
            StatementReq::Call { call_required, .. } => *call_required,
        }
    }

    /// What the two together require of the same statement.
    fn add(&self, other: &StatementReq) -> (r: Option<StatementReq>)
        ensures
            r is Some <==> self@.add(other@) is Some,
            r matches Some(sum) ==> Some(sum@) == self@.add(other@),
        decreases self,
    {
        match (self, other) {
            (StatementReq::Emit(a), StatementReq::Emit(b)) => {
                let mut flags: Vec<bool> = Vec::new();
                let mut i: usize = 0;
                while i < a.len() && i < b.len()
                    invariant
                        i <= a.len(),
                        i <= b.len(),
                        flags.len() == i,
                        forall|j: int| 0 <= j < i ==> #[trigger] flags@[j] == (a@[j] || b@[j]),
                    decreases a.len() - i,
                {
                    flags.push(a[i] || b[i]);
                    i = i + 1;
                }
                assert(flags@ =~= flags_or(a@, b@));
                Some(StatementReq::Emit(flags))
            },
            (StatementReq::BlockStmt(a), StatementReq::BlockStmt(b)) => match a.add(b) {
                Some(block) => Some(StatementReq::BlockStmt(block)),
                None => None,
            },
            (
                StatementReq::If { condition: c1, accept: a1, reject: r1 },
                StatementReq::If { condition: c2, accept: a2, reject: r2 },
            ) => match (a1.add(a2), r1.add(r2)) {
                (Some(accept), Some(reject)) => Some(
                    StatementReq::If { condition: *c1 || *c2, accept, reject },
                ),
                _ => None,
            },
            (
                StatementReq::Switch { selector: s1, cases: c1 },
                StatementReq::Switch { selector: s2, cases: c2 },
            ) => {
                proof {
                    lemma_switch_view(*s1, *c1);
                    lemma_switch_view(*s2, *c2);
                }
                let ghost n = shorter(c1@.len(), c2@.len());
                let mut cases: Vec<BlockReq> = Vec::new();
                let mut i: usize = 0;
                while i < c1.len() && i < c2.len()
                    invariant
                        self == (StatementReq::Switch { selector: *s1, cases: *c1 }),
                        self@ == (StmtNeed::Switch { selector: *s1, cases: block_needs(c1@) }),
                        other@ == (StmtNeed::Switch { selector: *s2, cases: block_needs(c2@) }),
                        n == shorter(c1@.len(), c2@.len()),
                        i <= n,
                        add_blocks(block_needs(c1@), block_needs(c2@), i as nat) == Some(
                            block_needs(cases@),
                        ),
                    ensures
                        i == n,
                    decreases c1.len() - i,
                {
                    assert(decreases_to!(self => c1@[i as int]));
                    match c1[i].add(&c2[i]) {
                        Some(block) => {
                            let ghost before = cases@;
                            cases.push(block);
                            assert(block_needs(cases@) =~= block_needs(before).push(block@));
                        },
                        None => {
                            proof {
                                lemma_add_blocks_none(
                                    block_needs(c1@),
                                    block_needs(c2@),
                                    (i + 1) as nat,
                                    n,
                                );
                            }
                            return None;
                        },
                    }
                    i = i + 1;
                }
                proof {
                    lemma_switch_view(*s1 || *s2, cases);
                }
                Some(StatementReq::Switch { selector: *s1 || *s2, cases })
            },
            (
                StatementReq::Loop { body: b1, continuing: c1, required: r1 },
                StatementReq::Loop { body: b2, continuing: c2, required: r2 },
            ) => match (b1.add(b2), c1.add(c2)) {
                (Some(body), Some(continuing)) => Some(
                    StatementReq::Loop { body, continuing, required: *r1 || *r2 },
                ),
                _ => None,
            },
            (StatementReq::Break(a), StatementReq::Break(b)) => Some(
                StatementReq::Break(*a || *b),
            ),
            (StatementReq::Continue(a), StatementReq::Continue(b)) => Some(
                StatementReq::Continue(*a || *b),
            ),
            (StatementReq::Return(a), StatementReq::Return(b)) => Some(
                StatementReq::Return(*a || *b),
            ),
            (StatementReq::Kill(), StatementReq::Kill()) => Some(StatementReq::Kill()),
            (StatementReq::Barrier(), StatementReq::Barrier()) => Some(StatementReq::Barrier()),
            (StatementReq::Store(a), StatementReq::Store(b)) => Some(
                StatementReq::Store(*a || *b),
            ),
            (StatementReq::ImageStore(a), StatementReq::ImageStore(b)) => Some(
                StatementReq::ImageStore(*a || *b),
            ),
            (StatementReq::Atomic(a), StatementReq::Atomic(b)) => Some(
                StatementReq::Atomic(*a || *b),
            ),
            (
                StatementReq::Call { call_required: c1, result_required: r1 },
                StatementReq::Call { call_required: c2, result_required: r2 },
            ) => Some(
                StatementReq::Call { call_required: *c1 || *c2, result_required: *r1 || *r2 },
            ),
            _ => None,
        }
    }
}

/// Blocks that cannot be added stop the sum of any longer list.
proof fn lemma_add_blocks_none(a: Seq<BlockNeed>, b: Seq<BlockNeed>, k: nat, n: nat)
    requires
        k <= n,
        add_blocks(a, b, k) is None,
    ensures
        add_blocks(a, b, n) is None,
    decreases n,
{
    if k < n {
        lemma_add_blocks_none(a, b, k, (n - 1) as nat);
    }
}

/// Statements that cannot be added stop the sum of any longer list.
proof fn lemma_add_stmts_none(a: Seq<StmtNeed>, b: Seq<StmtNeed>, k: nat, n: nat)
    requires
        k <= n,
        add_stmts(a, b, k) is None,
    ensures
        add_stmts(a, b, n) is None,
    decreases n,
{
    if k < n {
        lemma_add_stmts_none(a, b, k, (n - 1) as nat);
    }
}

impl BlockReq {
    /// Whether the block is required.
    pub fn is_required(&self) -> (r: bool)
        ensures
            r == self@.is_required(),
        decreases self,
    {
        proof {
            lemma_block_view(*self);
        }
        let mut i: usize = 0;
        while i < self.required_statements.len()
            invariant
                i <= self.required_statements@.len(),
                self@.stmts == needs(self.required_statements@),
                forall|j: int| 0 <= j < i ==> !(#[trigger] self@.stmts[j]).required(),
            decreases self.required_statements.len() - i,
        {
            proof {
                assert(decreases_to!(self => self.required_statements));
                axiom_vec_dequeue_index_decreases(self.required_statements, i as int);
            }
            assert(self@.stmts[i as int] == self.required_statements@[i as int]@);
            if self.required_statements[i].required() {
                return true;
            }
            i = i + 1;
        }
        false
    }

    /// What the two together require of the same block.
    pub fn add(&self, other: &BlockReq) -> (r: Option<BlockReq>)
        ensures
            r is Some <==> self@.add(other@) is Some,
            r matches Some(sum) ==> Some(sum@) == self@.add(other@),
        decreases self,
    {
        proof {
            lemma_block_view(*self);
            lemma_block_view(*other);
        }
        let ghost n = shorter(self@.stmts.len(), other@.stmts.len());
        let mut stmts: VecDeque<StatementReq> = VecDeque::new();
        let mut i: usize = 0;
        assert(needs(stmts@) =~= Seq::empty());
        while i < self.required_statements.len() && i < other.required_statements.len()
            invariant
                self@.stmts == needs(self.required_statements@),
                other@.stmts == needs(other.required_statements@),
                n == shorter(self@.stmts.len(), other@.stmts.len()),
                i <= n,
                add_stmts(self@.stmts, other@.stmts, i as nat) == Some(needs(stmts@)),
            ensures
                i == n,
            decreases self.required_statements.len() - i,
        {
            proof {
                assert(decreases_to!(self => self.required_statements));
                axiom_vec_dequeue_index_decreases(self.required_statements, i as int);
            }
            match self.required_statements[i].add(&other.required_statements[i]) {
                Some(stmt) => {
                    let ghost before = stmts@;
                    stmts.push_back(stmt);
                    assert(needs(stmts@) =~= needs(before).push(stmt@));
                },
                None => {
                    proof {
                        lemma_add_stmts_none(self@.stmts, other@.stmts, (i + 1) as nat, n);
                    }
                    return None;
                },
            }
            i = i + 1;
        }
        let context = self.context.merge(&other.context);
        let sum = BlockReq { required_statements: stmts, context };
        proof {
            lemma_block_view(sum);
        }
        Some(sum)
    }
}

impl FunctionReq {
    /// Whether the expression `h` is required.
    pub fn requires_expr(&self, h: usize) -> (r: bool)
        ensures
            r == self@.exprs.dom().contains(h),
    {
        assert(self@.exprs.dom().contains(h) == self.exprs_required@.contains_key(h));
        self.exprs_required.contains_key(&h)
    }

    /// Whether the local variable `h` is required.
    pub fn requires_local(&self, h: usize) -> (r: bool)
        ensures
            r == self@.body.context.locals.dom().contains(h),
    {
        proof {
            lemma_block_view(self.body_required);
        }
        assert(self@.body.context.locals.dom().contains(h)
            == self.body_required.context.locals@.contains_key(h));
        self.body_required.context.locals.contains_key(&h)
    }

    /// Whether the result is required.
    pub fn requires_result(&self) -> (r: bool)
        ensures
            r == (self@.body.context.retval is Some),
    {
        proof {
            lemma_block_view(self.body_required);
        }
        self.body_required.context.retval.is_some()
    }
}

} // verus!
