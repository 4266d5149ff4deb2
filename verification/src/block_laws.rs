//! Laws of rewriting blocks and expressions.
use crate::flow::span;
use crate::flow_laws::{agrees, block_agrees, lemma_stmts_each, Seen};
use crate::ir::{Block, Expression, Statement};
use crate::need::{shorter, BlockNeed, StmtNeed};
use crate::prune::{
    any_kept, block_rewritten, flagged, kept, lemma_any_kept, rewritten, stmts_rewritten,
};
use crate::remap::{lemma_operands, maps_some, operands, remappable, remapped, Handles};
use vstd::prelude::*;

verus! {

/// Whether what is required of a statement is required of one of its kind, and
/// so on in the blocks that stand in it by themselves.
pub open spec fn matched(stmt: Statement, need: StmtNeed) -> bool
    decreases stmt,
{
    match (stmt, need) {
        (Statement::Emit(range), StmtNeed::Emit(flags)) => flags.len() == span(range),
        (Statement::Block(block), StmtNeed::BlockStmt(need)) => block_matched(block, need),
        (Statement::If { .. }, StmtNeed::If { .. }) => true,
        (Statement::Switch { .. }, StmtNeed::Switch { .. }) => true,
        (Statement::Loop { .. }, StmtNeed::Loop { .. }) => true,
        (Statement::Break, StmtNeed::Break(_)) => true,
        (Statement::Continue, StmtNeed::Continue(_)) => true,
        (Statement::Return { .. }, StmtNeed::Return(_)) => true,
        (Statement::Kill, StmtNeed::Kill) => true,
        (Statement::Barrier(_), StmtNeed::Barrier) => true,
        (Statement::Store { .. }, StmtNeed::Store(_)) => true,
        (Statement::ImageStore { .. }, StmtNeed::ImageStore(_)) => true,
        (Statement::Atomic { .. }, StmtNeed::Atomic(_)) => true,
        (Statement::Call { .. }, StmtNeed::Call { .. }) => true,
        _ => false,
    }
}

/// The same of the first `n` statements.
pub open spec fn stmts_matched(stmts: Seq<Statement>, needs: Seq<StmtNeed>, n: nat) -> bool
    decreases stmts, n,
{
    if n == 0 || n > stmts.len() {
        n == 0
    } else {
        stmts_matched(stmts, needs, (n - 1) as nat) && matched(stmts[n - 1], needs[n - 1])
    }
}

/// Whether for each statement of a block there is a requirement of its kind.
pub open spec fn block_matched(block: Block, need: BlockNeed) -> bool
    decreases block,
{
    need.stmts.len() == block.body@.len() && stmts_matched(
        block.body@,
        need.stmts,
        block.body@.len(),
    )
}

/// A statement that makes its block required is kept.
pub proof fn law_required_kept(stmt: Statement, need: StmtNeed)
    requires
        matched(stmt, need),
        need.required(),
    ensures
        kept(stmt, need),
    decreases stmt, 0nat,
{
    match (stmt, need) {
        (Statement::Emit(range), StmtNeed::Emit(flags)) => {
            let i = choose|i: int| 0 <= i < flags.len() && flags[i] == true;
            assert(0 <= i < flagged(range, flags) && flags[i]);
        },
        (Statement::Block(block), StmtNeed::BlockStmt(need)) => {
            let i = choose|i: int|
                0 <= i < need.stmts.len() && (#[trigger] need.stmts[i]).required();
            lemma_required_among(block.body@, need.stmts, block.body@.len(), i);
        },
        _ => {},
    }
}

/// Where a statement makes its block required, one is kept.
proof fn lemma_required_among(stmts: Seq<Statement>, needs: Seq<StmtNeed>, n: nat, i: int)
    requires
        0 <= i < n <= stmts.len(),
        stmts_matched(stmts, needs, n),
        needs[i].required(),
    ensures
        any_kept(stmts, needs, n),
    decreases stmts, n,
{
    if i == n - 1 {
        law_required_kept(stmts[i], needs[i]);
    } else {
        lemma_required_among(stmts, needs, (n - 1) as nat, i);
    }
}

/// The places of the kept statements among the first `n`.
pub open spec fn kept_places(stmts: Seq<Statement>, needs: Seq<StmtNeed>, n: nat) -> Seq<int>
    decreases n,
{
    if n == 0 || n > stmts.len() {
        Seq::empty()
    } else if kept(stmts[n - 1], needs[n - 1]) {
        kept_places(stmts, needs, (n - 1) as nat).push(n - 1)
    } else {
        kept_places(stmts, needs, (n - 1) as nat)
    }
}

/// What is left of the statements stands at the kept places, in their order.
proof fn lemma_kept_places(
    stmts: Seq<Statement>,
    needs: Seq<StmtNeed>,
    n: nat,
    retval: bool,
    exprs: Map<usize, usize>,
    functions: Map<usize, usize>,
    new: Seq<Statement>,
)
    requires
        n <= stmts.len(),
        stmts_rewritten(stmts, needs, n, retval, exprs, functions, new),
    ensures
        ({
            let places = kept_places(stmts, needs, n);
            &&& places.len() == new.len() <= n
            &&& forall|i: int|
                0 <= i < new.len() ==> 0 <= #[trigger] places[i] < n && rewritten(
                    stmts[places[i]],
                    needs[places[i]],
                    retval,
                    exprs,
                    functions,
                    new[i],
                )
            &&& forall|i: int, j: int|
                0 <= i < j < new.len() ==> #[trigger] places[i] < #[trigger] places[j]
        }),
    decreases n,
{
    if n > 0 {
        let m = (n - 1) as nat;
        if kept(stmts[n - 1], needs[n - 1]) {
            let rest = new.drop_last();
            lemma_kept_places(stmts, needs, m, retval, exprs, functions, rest);
            let before = kept_places(stmts, needs, m);
            let places = kept_places(stmts, needs, n);
            assert forall|i: int| 0 <= i < new.len() implies 0 <= #[trigger] places[i] < n
                && rewritten(
                stmts[places[i]],
                needs[places[i]],
                retval,
                exprs,
                functions,
                new[i],
            ) by {
                if i < rest.len() {
                    assert(places[i] == before[i]);
                    assert(rest[i] == new[i]);
                }
            }
            assert forall|i: int, j: int| 0 <= i < j < new.len() implies #[trigger] places[i]
                < #[trigger] places[j] by {
                assert(places[i] == before[i]);
                if j < rest.len() {
                    assert(places[j] == before[j]);
                }
            }
        } else {
            lemma_kept_places(stmts, needs, m, retval, exprs, functions, new);
        }
    }
}

/// What is left of a block is no longer than the block, and its statements
/// stand in the order of those that they come from. Where the block is
/// required, something is left of it.
pub proof fn law_block_left(
    block: Block,
    need: BlockNeed,
    exprs: Map<usize, usize>,
    functions: Map<usize, usize>,
    new: Block,
)
    requires
        block_rewritten(block, need, exprs, functions, new),
    ensures
        ({
            let n = shorter(block.body@.len(), need.stmts.len());
            let places = kept_places(block.body@, need.stmts, n);
            &&& new.body@.len() <= block.body@.len()
            &&& places.len() == new.body@.len()
            &&& forall|i: int|
                0 <= i < places.len() ==> 0 <= #[trigger] places[i] < n && rewritten(
                    block.body@[places[i]],
                    need.stmts[places[i]],
                    need.context.retval is Some,
                    exprs,
                    functions,
                    new.body@[i],
                )
            &&& forall|i: int, j: int|
                0 <= i < j < places.len() ==> #[trigger] places[i] < #[trigger] places[j]
        }),
        block_matched(block, need) && need.is_required() ==> new.body@.len() > 0,
{
    let n = shorter(block.body@.len(), need.stmts.len());
    let retval = need.context.retval is Some;
    lemma_kept_places(block.body@, need.stmts, n, retval, exprs, functions, new.body@);
    lemma_any_kept(block.body@, need.stmts, n, retval, exprs, functions, new.body@);
    if block_matched(block, need) && need.is_required() {
        let i = choose|i: int| 0 <= i < need.stmts.len() && (#[trigger] need.stmts[i]).required();
        lemma_required_among(block.body@, need.stmts, n, i);
    }
}

/// A return is left wherever it stands in a block of which something is
/// required of each statement.
pub proof fn law_return_left(block: Block, need: BlockNeed, i: int)
    requires
        block_matched(block, need),
        0 <= i < block.body@.len(),
        block.body@[i] is Return,
    ensures
        kept(block.body@[i], need.stmts[i]),
{
    lemma_matched_at(block.body@, need.stmts, block.body@.len(), i);
}

/// Each of the first `n` statements has a requirement of its kind.
proof fn lemma_matched_at(stmts: Seq<Statement>, needs: Seq<StmtNeed>, n: nat, i: int)
    requires
        0 <= i < n <= stmts.len(),
        stmts_matched(stmts, needs, n),
    ensures
        matched(stmts[i], needs[i]),
    decreases n,
{
    if i < n - 1 {
        lemma_matched_at(stmts, needs, (n - 1) as nat, i);
    }
}

/// What the analysis requires of a statement is required of its kind.
proof fn lemma_agrees_matched(stmt: Statement, need: StmtNeed, retval: bool, seen: Seen)
    requires
        agrees(stmt, need, retval, seen),
    ensures
        matched(stmt, need),
    decreases stmt, 0nat,
{
    if let (Statement::Block(block), StmtNeed::BlockStmt(need)) = (stmt, need) {
        law_agrees_matched(block, need, seen);
    }
}

/// The same of the first `n` statements.
proof fn lemma_stmts_matched(
    stmts: Seq<Statement>,
    needs: Seq<StmtNeed>,
    n: nat,
    retval: bool,
    seen: Seen,
)
    requires
        n <= stmts.len(),
        needs.len() == stmts.len(),
        forall|i: int| 0 <= i < stmts.len() ==> agrees(stmts[i], #[trigger] needs[i], retval, seen),
    ensures
        stmts_matched(stmts, needs, n),
    decreases stmts, n,
{
    if n > 0 {
        lemma_stmts_matched(stmts, needs, (n - 1) as nat, retval, seen);
        assert(agrees(stmts[n - 1], needs[n - 1], retval, seen));
        lemma_agrees_matched(stmts[n - 1], needs[n - 1], retval, seen);
    }
}

/// What the analysis requires of a block matches the block.
pub proof fn law_agrees_matched(block: Block, need: BlockNeed, seen: Seen)
    requires
        block_agrees(block, need, seen),
    ensures
        block_matched(block, need),
    decreases block, 0nat,
{
    let stmts = block.body@;
    let retval = need.context.retval is Some;
    lemma_stmts_each(stmts, need.stmts, stmts.len(), retval, seen);
    lemma_stmts_matched(stmts, need.stmts, stmts.len(), retval, seen);
}

/// Whether two expressions are the same.
pub open spec fn same_expression(a: Expression, b: Expression) -> bool {
    match (a, b) {
        (
            Expression::Compose { ty: s, components: p },
            Expression::Compose { ty: t, components: q },
        ) => s == t && p@ == q@,
        _ => a == b,
    }
}

/// Whether the new handle of a handle is the handle.
pub open spec fn stays(map: Map<usize, usize>, h: usize) -> bool {
    map.contains_key(h) && map[h] == h
}

/// Whether the new handles of all that an expression names are the old ones.
pub open spec fn all_stay(
    expr: Expression,
    handles: Handles,
    locals: Map<usize, usize>,
    exprs: Map<usize, usize>,
) -> bool {
    &&& forall|i: int| 0 <= i < operands(expr).len() ==> stays(exprs, #[trigger] operands(expr)[i])
    &&& match expr {
        Expression::Constant(c) => stays(handles.constants, c),
        Expression::Compose { ty, .. } => stays(handles.types, ty),
        Expression::GlobalVariable(gv) => stays(handles.globals, gv),
        Expression::LocalVariable(lv) => stays(locals, lv),
        Expression::ImageSample { offset, .. } => offset is Some ==> stays(
            handles.constants,
            offset->0,
        ),
        Expression::CallResult(f) => stays(handles.functions, f),
        _ => true,
    }
}

/// An expression whose handles all stay can be rewritten, and is left as it
/// is. A composed value has to have a component.
pub proof fn law_remap_identity(
    expr: Expression,
    handles: Handles,
    locals: Map<usize, usize>,
    exprs: Map<usize, usize>,
    new: Expression,
)
    requires
        all_stay(expr, handles, locals, exprs),
        expr matches Expression::Compose { components, .. } ==> components@.len() > 0,
    ensures
        remappable(expr, handles, locals, exprs),
        remapped(expr, handles, locals, exprs, new) ==> same_expression(expr, new),
{
    let ops = operands(expr);
    let same = Map::<usize, usize>::new(|h: usize| stays(exprs, h), |h: usize| h);
    assert forall|i: int| 0 <= i < ops.len() implies same.contains_key(#[trigger] ops[i])
        && exprs.contains_key(ops[i]) by {
        assert(stays(exprs, ops[i]));
    }
    lemma_operands(expr, same);
    lemma_operands(expr, exprs);
    if let Expression::Compose { ty, components } = expr {
        assert(exprs.contains_key(components@[0]));
        if remapped(expr, handles, locals, exprs, new) {
            let new_components = new->Compose_components@;
            assert(maps_some(exprs, components@, new_components));
            assert forall|i: int| 0 <= i < components@.len() implies new_components[i]
                == components@[i] by {
                assert(stays(exprs, ops[i]));
            }
            assert(new_components =~= components@);
        }
    }
}

} // verus!
