//! Laws of control flow: what is required in front of branches and loops, and
//! which statements that leave them are.
use crate::context::Context;
use crate::flow::{block_flow, need_opt, rounds_flow, stmt_flow, stmts_flow};
use crate::ir::{Block, Function, Module, Statement};
use crate::live::Live;
use crate::need::{any_required, BlockNeed, StmtNeed};
use vstd::prelude::*;

verus! {

/// Whether a statement, or one that stands in a branch of it, leaves the block
/// that it stands in.
pub open spec fn leaves(stmt: Statement) -> bool
    decreases stmt,
{
    match stmt {
        Statement::Break => true,
        Statement::Continue => true,
        Statement::Return { .. } => true,
        Statement::Kill => true,
        Statement::Block(block) => block_leaves(block),
        Statement::If { accept, reject, .. } => block_leaves(accept) || block_leaves(reject),
        _ => false,
    }
}

/// Whether one of the last `n` statements leaves the block.
pub open spec fn any_leaves(stmts: Seq<Statement>, n: nat) -> bool
    decreases stmts, n,
{
    if n == 0 || n > stmts.len() {
        false
    } else {
        any_leaves(stmts, (n - 1) as nat) || leaves(stmts[stmts.len() - n])
    }
}

/// Whether one of the statements of a block leaves it.
pub open spec fn block_leaves(block: Block) -> bool
    decreases block,
{
    any_leaves(block.body@, block.body@.len())
}

/// Whether each break, continue, return and kill in a statement is required,
/// and each branch around one.
pub open spec fn exits_required(stmt: Statement, need: StmtNeed) -> bool
    decreases stmt,
{
    match stmt {
        Statement::Break => need == StmtNeed::Break(true),
        Statement::Continue => need == StmtNeed::Continue(true),
        Statement::Return { .. } => need == StmtNeed::Return(true),
        Statement::Kill => need == StmtNeed::Kill,
        Statement::Block(block) => match need {
            StmtNeed::BlockStmt(need) => block_exits_required(block, need),
            _ => false,
        },
        Statement::If { accept, reject, .. } => match need {
            StmtNeed::If { condition, accept: accept_need, reject: reject_need } => {
                &&& leaves(stmt) ==> condition
                &&& block_exits_required(accept, accept_need)
                &&& block_exits_required(reject, reject_need)
            },
            _ => false,
        },
        _ => true,
    }
}

/// The same of the last `n` statements.
pub open spec fn stmts_exits_required(
    stmts: Seq<Statement>,
    needs: Seq<StmtNeed>,
    n: nat,
) -> bool
    decreases stmts, n,
{
    if n == 0 || n > stmts.len() {
        n == 0
    } else {
        &&& stmts_exits_required(stmts, needs, (n - 1) as nat)
        &&& exits_required(stmts[stmts.len() - n], needs[needs.len() - n])
    }
}

/// The same of a block.
pub open spec fn block_exits_required(block: Block, need: BlockNeed) -> bool
    decreases block,
{
    &&& need.stmts.len() == block.body@.len()
    &&& stmts_exits_required(block.body@, need.stmts, block.body@.len())
}

/// One statement more in front.
proof fn lemma_exits_front(
    stmts: Seq<Statement>,
    needs: Seq<StmtNeed>,
    need: StmtNeed,
    n: nat,
)
    requires
        stmts_exits_required(stmts, needs, n),
        n <= needs.len(),
    ensures
        stmts_exits_required(stmts, seq![need] + needs, n),
    decreases n,
{
    if n > 0 {
        lemma_exits_front(stmts, needs, need, (n - 1) as nat);
        let longer = seq![need] + needs;
        assert(longer[longer.len() - n] == needs[needs.len() - n]);
    }
}

/// Each of the last `n` statements.
proof fn lemma_exits_each(stmts: Seq<Statement>, needs: Seq<StmtNeed>, n: nat, i: int)
    requires
        stmts_exits_required(stmts, needs, n),
        n <= stmts.len() == needs.len(),
        stmts.len() - n <= i < stmts.len(),
    ensures
        exits_required(stmts[i], needs[i]),
    decreases n,
{
    if i > stmts.len() - n {
        lemma_exits_each(stmts, needs, (n - 1) as nat, i);
    }
}

/// In a required scope a statement that leaves it is required.
proof fn lemma_stmt_exits(
    shader: Module,
    function: Function,
    depth: nat,
    stmt: Statement,
    base: Context,
    s: Live,
)
    requires
        stmt_flow(shader, function, depth, stmt, true, base, s) is Some,
    ensures
        ({
            let (_, need) = stmt_flow(shader, function, depth, stmt, true, base, s)->0;
            &&& exits_required(stmt, need)
            &&& leaves(stmt) ==> need.required()
        }),
    decreases stmt, 0nat,
{
    let (_, need) = stmt_flow(shader, function, depth, stmt, true, base, s)->0;
    match stmt {
        Statement::Block(block) => {
            law_scope_exits(shader, function, depth, block, s);
        },
        Statement::If { accept, reject, .. } => {
            law_scope_exits(shader, function, depth, accept, s);
            let (s1, _) = block_flow(shader, function, depth, accept, true, s)->0;
            law_scope_exits(shader, function, depth, reject, s1);
        },
        _ => {},
    }
}

/// In a required scope the last `n` statements that leave it are required.
proof fn lemma_stmts_exits(
    shader: Module,
    function: Function,
    depth: nat,
    stmts: Seq<Statement>,
    n: nat,
    s: Live,
)
    requires
        stmts_flow(shader, function, depth, stmts, n, true, s) is Some,
    ensures
        ({
            let (_, needs, required) = stmts_flow(shader, function, depth, stmts, n, true, s)->0;
            &&& required
            &&& needs.len() == n <= stmts.len()
            &&& stmts_exits_required(stmts, needs, n)
            &&& any_leaves(stmts, n) ==> any_required(needs)
        }),
    decreases stmts, n,
{
    if n > 0 {
        let m = (n - 1) as nat;
        lemma_stmts_exits(shader, function, depth, stmts, m, s);
        let (s1, before, required) = stmts_flow(shader, function, depth, stmts, m, true, s)->0;
        let stmt = stmts[stmts.len() - n];
        lemma_stmt_exits(shader, function, depth, stmt, s.context, s1);
        let (_, need) = stmt_flow(shader, function, depth, stmt, true, s.context, s1)->0;
        let needs = seq![need] + before;
        lemma_exits_front(stmts, before, need, m);
        assert(needs[needs.len() - n] == need);
        lemma_any_required_front(before, need);
    }
}

/// A list of statements with one more in front is required where one of them
/// is.
pub proof fn lemma_any_required_front(before: Seq<StmtNeed>, need: StmtNeed)
    ensures
        any_required(seq![need] + before) <==> need.required() || any_required(before),
{
    let all = seq![need] + before;
    if any_required(before) {
        let i = choose|i: int| 0 <= i < before.len() && (#[trigger] before[i]).required();
        assert(all[i + 1] == before[i]);
        assert(all[i + 1].required());
    }
    if need.required() {
        assert(all[0].required());
    }
    if any_required(all) {
        let i = choose|i: int| 0 <= i < all.len() && (#[trigger] all[i]).required();
        if i > 0 {
            assert(before[i - 1] == all[i]);
            assert(before[i - 1].required());
        }
    }
}

/// In a required scope each break, continue, return and kill is required, at
/// whatever place of a block and of the branches in it, and so is each branch
/// around one. A block with one of them is required.
pub proof fn law_scope_exits(
    shader: Module,
    function: Function,
    depth: nat,
    block: Block,
    s: Live,
)
    requires
        block_flow(shader, function, depth, block, true, s) is Some,
    ensures
        ({
            let (_, need) = block_flow(shader, function, depth, block, true, s)->0;
            &&& block_exits_required(block, need)
            &&& forall|i: int|
                0 <= i < block.body@.len() ==> exits_required(
                    block.body@[i],
                    #[trigger] need.stmts[i],
                )
            &&& block_leaves(block) ==> need.is_required()
        }),
    decreases block, 0nat,
{
    let stmts = block.body@;
    lemma_stmts_exits(shader, function, depth, stmts, stmts.len(), s);
    let (_, need) = block_flow(shader, function, depth, block, true, s)->0;
    assert forall|i: int| 0 <= i < stmts.len() implies exits_required(
        stmts[i],
        #[trigger] need.stmts[i],
    ) by {
        lemma_exits_each(stmts, need.stmts, stmts.len(), i);
    }
}

/// The statements that leave the blocks of a loop are required once these are
/// gone through again.
proof fn lemma_rounds_exits(
    shader: Module,
    function: Function,
    depth: nat,
    stmt: Statement,
    s: Live,
)
    requires
        rounds_flow(shader, function, depth, stmt, s) is Some,
    ensures
        ({
            let (_, need) = rounds_flow(shader, function, depth, stmt, s)->0;
            &&& stmt matches Statement::Loop { body, continuing, .. }
            &&& need matches StmtNeed::Loop {
                body: body_need,
                continuing: continuing_need,
                required,
            }
            &&& required
            &&& block_exits_required(body, body_need)
            &&& block_exits_required(continuing, continuing_need)
            &&& block_leaves(body) ==> body_need.is_required()
            &&& block_leaves(continuing) ==> continuing_need.is_required()
        }),
    decreases depth,
{
    if let Statement::Loop { body, continuing, .. } = stmt {
        law_scope_exits(shader, function, depth, body, s);
        let (s1, body_need) = block_flow(shader, function, depth, body, true, s)->0;
        law_scope_exits(shader, function, depth, continuing, s1);
        let (s2, continuing_need) = block_flow(shader, function, depth, continuing, true, s1)->0;
        if !s.context.contains(body_need.context.merge(continuing_need.context)) {
            lemma_rounds_exits(shader, function, (depth - 1) as nat, stmt, s2);
        }
    }
}

/// In a required loop each break, continue, return and kill of its blocks is
/// required, at whatever place, and so is each branch around one.
pub proof fn law_loop_exits(
    shader: Module,
    function: Function,
    depth: nat,
    body: Block,
    continuing: Block,
    break_if: Option<usize>,
    scope_required: bool,
    base: Context,
    s: Live,
)
    requires
        stmt_flow(
            shader,
            function,
            depth,
            Statement::Loop { body, continuing, break_if },
            scope_required,
            base,
            s,
        ) is Some,
    ensures
        ({
            let (_, need) = stmt_flow(
                shader,
                function,
                depth,
                Statement::Loop { body, continuing, break_if },
                scope_required,
                base,
                s,
            )->0;
            &&& need matches StmtNeed::Loop {
                body: body_need,
                continuing: continuing_need,
                required,
            }
            &&& required ==> {
                &&& forall|i: int|
                    0 <= i < body.body@.len() ==> exits_required(
                        body.body@[i],
                        #[trigger] body_need.stmts[i],
                    )
                &&& forall|i: int|
                    0 <= i < continuing.body@.len() ==> exits_required(
                        continuing.body@[i],
                        #[trigger] continuing_need.stmts[i],
                    )
                &&& block_exits_required(body, body_need)
                &&& block_exits_required(continuing, continuing_need)
                &&& block_leaves(body) ==> body_need.is_required()
                &&& block_leaves(continuing) ==> continuing_need.is_required()
            }
        }),
{
    let stmt = Statement::Loop { body, continuing, break_if };
    let (s1, first_body) = block_flow(shader, function, depth, body, false, s)->0;
    let (s2, first_continuing) = block_flow(shader, function, depth, continuing, false, s1)->0;
    if first_body.is_required() || first_continuing.is_required() {
        let s3 = need_opt(shader, function, depth, break_if, s2)->0;
        let s4 = s3.at(first_body.context.merge(first_continuing.context));
        lemma_rounds_exits(shader, function, depth, stmt, s4);
        let (_, need) = stmt_flow(shader, function, depth, stmt, scope_required, base, s)->0;
        if let StmtNeed::Loop { body: body_need, continuing: continuing_need, .. } = need {
            assert forall|i: int| 0 <= i < body.body@.len() implies exits_required(
                body.body@[i],
                #[trigger] body_need.stmts[i],
            ) by {
                lemma_exits_each(body.body@, body_need.stmts, body.body@.len(), i);
            }
            assert forall|i: int| 0 <= i < continuing.body@.len() implies exits_required(
                continuing.body@[i],
                #[trigger] continuing_need.stmts[i],
            ) by {
                lemma_exits_each(
                    continuing.body@,
                    continuing_need.stmts,
                    continuing.body@.len(),
                    i,
                );
            }
        }
    }
}

/// What is required of statements in front of a required one.
proof fn lemma_exits_before(
    shader: Module,
    function: Function,
    depth: nat,
    stmts: Seq<Statement>,
    n: nat,
    scope_required: bool,
    s: Live,
)
    requires
        stmts_flow(shader, function, depth, stmts, n, scope_required, s) is Some,
    ensures
        ({
            let (_, needs, required) = stmts_flow(
                shader,
                function,
                depth,
                stmts,
                n,
                scope_required,
                s,
            )->0;
            &&& required <==> scope_required || any_required(needs)
            &&& needs.len() == n <= stmts.len()
            &&& forall|i: int, j: int|
                0 <= i < j < n && (#[trigger] needs[j]).required() ==> {
                    &&& exits_required(stmts[stmts.len() - n + i], #[trigger] needs[i])
                    &&& leaves(stmts[stmts.len() - n + i]) ==> needs[i].required()
                }
        }),
    decreases n,
{
    if n > 0 {
        let m = (n - 1) as nat;
        lemma_exits_before(shader, function, depth, stmts, m, scope_required, s);
        let (s1, before, required) = stmts_flow(
            shader,
            function,
            depth,
            stmts,
            m,
            scope_required,
            s,
        )->0;
        let stmt = stmts[stmts.len() - n];
        let (_, need) = stmt_flow(shader, function, depth, stmt, required, s.context, s1)->0;
        let needs = seq![need] + before;
        lemma_any_required_front(before, need);
        if required {
            lemma_stmt_exits(shader, function, depth, stmt, s.context, s1);
        }
        assert forall|i: int, j: int| 0 <= i < j < n && (#[trigger] needs[j]).required() implies {
            &&& exits_required(stmts[stmts.len() - n + i], #[trigger] needs[i])
            &&& leaves(stmts[stmts.len() - n + i]) ==> needs[i].required()
        } by {
            assert(needs[j] == before[j - 1]);
            if i > 0 {
                let k = i - 1;
                assert(needs[i] == before[k]);
                assert(stmts[stmts.len() - m + k] == stmts[stmts.len() - n + i]);
            } else {
                assert(before[j - 1].required());
                assert(any_required(before));
            }
        }
    }
}

/// A break, continue, return or kill in front of a required statement is
/// required, and so is each branch around one: whether the statement is
/// reached depends on it.
pub proof fn law_exits_before_required(
    shader: Module,
    function: Function,
    depth: nat,
    block: Block,
    scope_required: bool,
    s: Live,
    i: int,
    j: int,
)
    requires
        block_flow(shader, function, depth, block, scope_required, s) matches Some((_, need)) && {
            &&& 0 <= i < j < block.body@.len()
            &&& need.stmts[j].required()
        },
    ensures
        ({
            let (_, need) = block_flow(shader, function, depth, block, scope_required, s)->0;
            &&& exits_required(block.body@[i], need.stmts[i])
            &&& leaves(block.body@[i]) ==> need.stmts[i].required()
        }),
{
    let stmts = block.body@;
    lemma_exits_before(shader, function, depth, stmts, stmts.len(), scope_required, s);
    let (_, need) = block_flow(shader, function, depth, block, scope_required, s)->0;
    assert(need.stmts[j].required());
    assert(exits_required(stmts[stmts.len() - stmts.len() + i], need.stmts[i]));
}

} // verus!
