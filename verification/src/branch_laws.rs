//! Laws of statements: what is required in front of a statement, given what is
//! required behind it.
use crate::context::Context;
use crate::demand_laws::{law_demands_required, law_expr_required};
use crate::expr::need_expr;
use crate::flow::{
    block_flow, call_operands, cases_flow, emitted, expr_req, fn_flow, image_operands, need_opt,
    rounds_flow, stmt_flow, stmts_flow, store_flow,
};
use crate::flow_laws::lemma_rounds_settled;
use crate::grow_laws::{lemma_rounds_grows, lemma_stmts_kill};
use crate::ir::{Block, Function, Module, Statement, SwitchCase};
use crate::live::Live;
use crate::need::{any_required, StmtNeed};
use crate::part::Req;
use crate::part_laws::{
    law_add_idempotent, law_contains_transitive, law_context_reflexive, law_context_transitive,
    law_merge_contains, law_merge_least,
};
use crate::scope_laws::lemma_any_required_front;
use vstd::prelude::*;

verus! {

/// Whether what is required in front of a statement is what is required behind
/// it, or behind the block that it stands in.
pub open spec fn is_quiet(stmt: Statement) -> bool {
    match stmt {
        Statement::Emit(_) => true,
        Statement::Barrier(_) => true,
        Statement::Kill => true,
        Statement::Break => true,
        Statement::Continue => true,
        _ => false,
    }
}

/// Whether each statement of a block is quiet.
pub open spec fn block_quiet(block: Block) -> bool {
    forall|i: int| 0 <= i < block.body@.len() ==> is_quiet(#[trigger] block.body@[i])
}

/// An emit statement requires nothing, and is required for the required
/// expressions of its range and no others. Nor do a kill and a barrier change
/// what is required; the kill is always required, the barrier never.
pub proof fn law_plain_flow(
    shader: Module,
    function: Function,
    depth: nat,
    stmt: Statement,
    scope_required: bool,
    base: Context,
    s: Live,
)
    requires
        stmt is Emit || stmt is Kill || stmt is Barrier,
    ensures
        stmt_flow(shader, function, depth, stmt, scope_required, base, s) matches Some((s1, need))
            && {
            &&& s1 == s
            &&& stmt is Kill ==> need == StmtNeed::Kill && need.required()
            &&& stmt is Barrier ==> need == StmtNeed::Barrier && !need.required()
            &&& stmt matches Statement::Emit(range) ==> {
                &&& need matches StmtNeed::Emit(flags)
                &&& flags.len() == if range.start <= range.end {
                    range.end - range.start
                } else {
                    0
                }
                &&& forall|i: int|
                    0 <= i < flags.len() ==> (#[trigger] flags[i] <==> s.exprs.contains_key(
                        (range.start + i) as usize,
                    ))
                &&& need.required() <==> exists|h: usize|
                    range.start <= h < range.end && #[trigger] s.exprs.contains_key(h)
            }
        },
{
    if let Statement::Emit(range) = stmt {
        let flags = emitted(range, s.exprs);
        if flags.contains(true) {
            let i = choose|i: int| 0 <= i < flags.len() && flags[i] == true;
            assert(s.exprs.contains_key((range.start + i) as usize));
        }
        if exists|h: usize| range.start <= h < range.end && #[trigger] s.exprs.contains_key(h) {
            let h = choose|h: usize|
                range.start <= h < range.end && #[trigger] s.exprs.contains_key(h);
            assert(flags[h - range.start] == true);
        }
    }
}

/// An atomic operation cannot be analysed.
pub proof fn law_atomic_flow(
    shader: Module,
    function: Function,
    depth: nat,
    stmt: Statement,
    scope_required: bool,
    base: Context,
    s: Live,
)
    requires
        stmt is Atomic,
    ensures
        stmt_flow(shader, function, depth, stmt, scope_required, base, s) is None,
{
}

/// In front of a break, a continue and a return without a required value, what
/// stands behind it in its block does not matter: what is required behind the
/// block is required. It is required itself where its scope is.
pub proof fn law_leave_flow(
    shader: Module,
    function: Function,
    depth: nat,
    stmt: Statement,
    scope_required: bool,
    base: Context,
    s: Live,
)
    requires
        stmt is Break || stmt is Continue || (stmt matches Statement::Return { value } && (value
            is None || s.context.retval is None)),
    ensures
        stmt_flow(shader, function, depth, stmt, scope_required, base, s) matches Some((s1, need))
            && {
            &&& s1.context == base
            &&& s1.found == s.found
            &&& s1.exprs == s.exprs
            &&& need.required() == scope_required
        },
{
}

/// A returned value is required as the result of the function is, and its
/// return then is.
pub proof fn law_return_flow(
    shader: Module,
    function: Function,
    depth: nat,
    value: usize,
    scope_required: bool,
    base: Context,
    s: Live,
)
    requires
        s.context.retval is Some,
        stmt_flow(
            shader,
            function,
            depth,
            Statement::Return { value: Some(value) },
            scope_required,
            base,
            s,
        ) is Some,
    ensures
        ({
            let (s1, need) = stmt_flow(
                shader,
                function,
                depth,
                Statement::Return { value: Some(value) },
                scope_required,
                base,
                s,
            )->0;
            &&& need == StmtNeed::Return(true)
            &&& need_expr(shader, function, depth, value, s.context.retval->0, s) == Some(s1)
            &&& s1.exprs.contains_key(value)
            &&& s1.exprs[value].contains(s.context.retval->0)
            &&& s1.context.contains(s.context)
        }),
{
    law_expr_required(shader, function, depth, value, s.context.retval->0, s);
}

/// The statements of a list do not see those in front of it.
proof fn lemma_stmts_tail(
    shader: Module,
    function: Function,
    depth: nat,
    stmt: Statement,
    rest: Seq<Statement>,
    n: nat,
    scope_required: bool,
    s: Live,
)
    requires
        n <= rest.len(),
    ensures
        stmts_flow(shader, function, depth, seq![stmt] + rest, n, scope_required, s) == stmts_flow(
            shader,
            function,
            depth,
            rest,
            n,
            scope_required,
            s,
        ),
    decreases n,
{
    if n > 0 {
        let all = seq![stmt] + rest;
        lemma_stmts_tail(shader, function, depth, stmt, rest, (n - 1) as nat, scope_required, s);
        assert(all[all.len() - n] == rest[rest.len() - n]);
    }
}

/// Whether a statement behind is required is what the flag of a list says.
proof fn lemma_stmts_scope(
    shader: Module,
    function: Function,
    depth: nat,
    stmts: Seq<Statement>,
    n: nat,
    scope_required: bool,
    s: Live,
)
    requires
        stmts_flow(shader, function, depth, stmts, n, scope_required, s) is Some,
    ensures
        ({
            let (_, needs, required) = stmts_flow(
                shader,
                function,
                depth,
                stmts,
                n,
                scope_required,
                s,
            )->0;
            required <==> scope_required || any_required(needs)
        }),
    decreases n,
{
    if n > 0 {
        let m = (n - 1) as nat;
        lemma_stmts_scope(shader, function, depth, stmts, m, scope_required, s);
        let (s1, before, required) = stmts_flow(
            shader,
            function,
            depth,
            stmts,
            m,
            scope_required,
            s,
        )->0;
        let stmt = stmts[stmts.len() - n];
        let (_, need) = stmt_flow(shader, function, depth, stmt, required, s.context, s1)->0;
        lemma_any_required_front(before, need);
    }
}

/// A block is gone through from its end: of a block that is a statement in
/// front of another block, first the other block, and then the statement, with
/// what is required in front of the other block behind it. The statement's
/// scope is required where that of the block is, or the other block is. An
/// empty block changes nothing.
pub proof fn law_block_backwards(
    shader: Module,
    function: Function,
    depth: nat,
    stmt: Statement,
    rest: Block,
    block: Block,
    scope_required: bool,
    s: Live,
)
    requires
        block.body@ == seq![stmt] + rest.body@,
    ensures
        ({
            let whole = block_flow(shader, function, depth, block, scope_required, s);
            match block_flow(shader, function, depth, rest, scope_required, s) {
                Some((s1, after)) => match stmt_flow(
                    shader,
                    function,
                    depth,
                    stmt,
                    scope_required || after.is_required(),
                    s.context,
                    s1.at(after.context),
                ) {
                    Some((s2, need)) => {
                        &&& whole matches Some((s3, all))
                        &&& s3 == s2.at(s.context)
                        &&& all.context == s2.context
                        &&& all.stmts == seq![need] + after.stmts
                        &&& all.is_required() <==> need.required() || after.is_required()
                    },
                    None => whole is None,
                },
                None => whole is None,
            }
        }),
        rest.body@.len() == 0 ==> (block_flow(
            shader,
            function,
            depth,
            rest,
            scope_required,
            s,
        ) matches Some((s1, after)) && s1 == s && after.context == s.context
            && after.stmts.len() == 0),
{
    let n = rest.body@.len();
    lemma_stmts_tail(shader, function, depth, stmt, rest.body@, n, scope_required, s);
    assert(block.body@[block.body@.len() - (n + 1)] == stmt);
    if let Some((t, needs, required)) = stmts_flow(
        shader,
        function,
        depth,
        rest.body@,
        n,
        scope_required,
        s,
    ) {
        lemma_stmts_scope(shader, function, depth, rest.body@, n, scope_required, s);
        assert(t.at(s.context).at(t.context) == t);
        if let Some((_, need)) = stmt_flow(
            shader,
            function,
            depth,
            stmt,
            required,
            s.context,
            t,
        ) {
            lemma_any_required_front(needs, need);
        }
    }
}

/// Quiet statements leave what is required alone.
proof fn lemma_quiet(
    shader: Module,
    function: Function,
    depth: nat,
    stmts: Seq<Statement>,
    n: nat,
    scope_required: bool,
    s: Live,
)
    requires
        n <= stmts.len(),
        forall|i: int| 0 <= i < stmts.len() ==> is_quiet(#[trigger] stmts[i]),
    ensures
        stmts_flow(shader, function, depth, stmts, n, scope_required, s) matches Some((s1, _, _))
            && s1 == s,
    decreases n,
{
    if n > 0 {
        lemma_quiet(shader, function, depth, stmts, (n - 1) as nat, scope_required, s);
        let stmt = stmts[stmts.len() - n];
        assert(is_quiet(stmt));
        assert(s.at(s.context) == s);
        let (_, _, required) = stmts_flow(
            shader,
            function,
            depth,
            stmts,
            (n - 1) as nat,
            scope_required,
            s,
        )->0;
        assert(stmt_flow(shader, function, depth, stmt, required, s.context, s) is Some);
    }
}

/// In front of a block of quiet statements is required what is behind it.
pub proof fn law_quiet_block(
    shader: Module,
    function: Function,
    depth: nat,
    block: Block,
    scope_required: bool,
    s: Live,
)
    requires
        block_quiet(block),
    ensures
        block_flow(shader, function, depth, block, scope_required, s) matches Some((s1, need))
            && s1 == s && need.context == s.context,
{
    let stmts = block.body@;
    lemma_quiet(shader, function, depth, stmts, stmts.len(), scope_required, s);
    assert(s.at(s.context) == s);
}

/// A block by itself requires in front of it what its first statement does,
/// and is required where one of its statements is.
pub proof fn law_block_flow(
    shader: Module,
    function: Function,
    depth: nat,
    block: Block,
    scope_required: bool,
    base: Context,
    s: Live,
)
    ensures
        match block_flow(shader, function, depth, block, scope_required, s) {
            Some((t, inside)) => {
                &&& t.context == s.context
                &&& stmt_flow(
                    shader,
                    function,
                    depth,
                    Statement::Block(block),
                    scope_required,
                    base,
                    s,
                ) matches Some((s1, need))
                &&& need == StmtNeed::BlockStmt(inside)
                &&& s1 == t.at(inside.context)
                &&& need.required() <==> exists|i: int|
                    0 <= i < inside.stmts.len() && (#[trigger] inside.stmts[i]).required()
            },
            None => stmt_flow(
                shader,
                function,
                depth,
                Statement::Block(block),
                scope_required,
                base,
                s,
            ) is None,
        },
{
}

/// Whether two contexts are of one function and its result.
pub open spec fn same_frame(a: Context, b: Context) -> bool {
    a.retval == b.retval && a.args.len() == b.args.len()
}

/// Merging keeps the frame.
proof fn lemma_merge_frame(a: Context, b: Context)
    requires
        same_frame(a, b),
    ensures
        same_frame(a.merge(b), a),
{
    if let Some(req) = a.retval {
        law_add_idempotent(req);
    }
}

/// A statement keeps the frame.
#[verifier::rlimit(40)]
#[verifier::spinoff_prover]
proof fn lemma_stmt_frame(
    shader: Module,
    function: Function,
    depth: nat,
    stmt: Statement,
    scope_required: bool,
    base: Context,
    s: Live,
)
    requires
        stmt_flow(shader, function, depth, stmt, scope_required, base, s) is Some,
        same_frame(base, s.context),
    ensures
        ({
            let (s1, _) = stmt_flow(shader, function, depth, stmt, scope_required, base, s)->0;
            same_frame(s1.context, s.context)
        }),
    decreases 2 * depth, stmt, 1nat,
{
    let (end, _) = stmt_flow(shader, function, depth, stmt, scope_required, base, s)->0;
    match stmt {
        Statement::Block(block) => {
            law_block_frame(shader, function, depth, block, scope_required, s);
        },
        Statement::If { condition, accept, reject } => {
            law_block_frame(shader, function, depth, accept, scope_required, s);
            let (s1, a) = block_flow(shader, function, depth, accept, scope_required, s)->0;
            law_block_frame(shader, function, depth, reject, scope_required, s1);
            let (s2, r) = block_flow(shader, function, depth, reject, scope_required, s1)->0;
            if a.is_required() || r.is_required() {
                lemma_merge_frame(a.context, r.context);
                let t = s2.at(a.context.merge(r.context));
                law_expr_required(shader, function, depth, condition, Req::All, t);
            }
        },
        Statement::Switch { selector, cases } => {
            lemma_cases_frame(shader, function, depth, cases@, cases@.len(), s);
        },
        Statement::Loop { body, continuing, break_if } => {
            law_block_frame(shader, function, depth, body, false, s);
            let (s1, b) = block_flow(shader, function, depth, body, false, s)->0;
            law_block_frame(shader, function, depth, continuing, false, s1);
            let (s2, c) = block_flow(shader, function, depth, continuing, false, s1)->0;
            if b.is_required() || c.is_required() {
                let s3 = need_opt(shader, function, depth, break_if, s2)->0;
                lemma_merge_frame(b.context, c.context);
                let s4 = s3.at(b.context.merge(c.context));
                lemma_rounds_settled(shader, function, depth, stmt, s4);
            }
        },
        Statement::Return { value } => {
            if let (Some(value), Some(req)) = (value, s.context.retval) {
                law_expr_required(shader, function, depth, value, req, s);
            }
        },
        Statement::Store { pointer, value } => {
            if let Some((s1, Some(req))) = store_flow(shader, function, depth, pointer, s) {
                let operands = seq![(pointer, Req::Exist), (value, req)];
                law_demands_required(shader, function, depth, operands, operands.len(), s1);
            }
        },
        Statement::ImageStore { image, coordinate, array_index, value } => {
            if let Some((s1, Some(req))) = store_flow(shader, function, depth, image, s) {
                let operands = image_operands(image, coordinate, array_index, value, req);
                law_demands_required(shader, function, depth, operands, operands.len(), s1);
            }
        },
        Statement::Call { function: callee, arguments, result } => {
            let req = expr_req(s.exprs, result);
            let (found, required, input) = fn_flow(
                shader,
                (depth - 1) as nat,
                callee,
                s.context.globals,
                req,
                s.found,
            )->0;
            if required {
                let operands = call_operands(arguments@, input.args, result, req);
                let s1 = Live { found, ..s };
                law_demands_required(shader, function, depth, operands, operands.len(), s1);
            }
        },
        _ => {},
    }
}

/// The cases of a switch keep the frame.
proof fn lemma_cases_frame(
    shader: Module,
    function: Function,
    depth: nat,
    cases: Seq<SwitchCase>,
    n: nat,
    s: Live,
)
    requires
        cases_flow(shader, function, depth, cases, n, s) is Some,
    ensures
        ({
            let (s1, input, _, _) = cases_flow(shader, function, depth, cases, n, s)->0;
            same_frame(input, s.context) && s1.context == s.context
        }),
    decreases 2 * depth, cases, n,
{
    if n > 0 {
        let m = (n - 1) as nat;
        lemma_cases_frame(shader, function, depth, cases, m, s);
        let (s1, input, _, _) = cases_flow(shader, function, depth, cases, m, s)->0;
        let body = cases[cases.len() - n].body;
        law_block_frame(shader, function, depth, body, false, s1);
        let (_, need) = block_flow(shader, function, depth, body, false, s1)->0;
        lemma_merge_frame(input, need.context);
    }
}

/// A list of statements keeps the frame.
proof fn lemma_stmts_frame(
    shader: Module,
    function: Function,
    depth: nat,
    stmts: Seq<Statement>,
    n: nat,
    scope_required: bool,
    s: Live,
)
    requires
        stmts_flow(shader, function, depth, stmts, n, scope_required, s) is Some,
    ensures
        ({
            let (s1, _, _) = stmts_flow(shader, function, depth, stmts, n, scope_required, s)->0;
            same_frame(s1.context, s.context)
        }),
    decreases 2 * depth, stmts, n,
{
    if n > 0 {
        let m = (n - 1) as nat;
        lemma_stmts_frame(shader, function, depth, stmts, m, scope_required, s);
        let (s1, _, required) = stmts_flow(
            shader,
            function,
            depth,
            stmts,
            m,
            scope_required,
            s,
        )->0;
        let stmt = stmts[stmts.len() - n];
        lemma_stmt_frame(shader, function, depth, stmt, required, s.context, s1);
    }
}

/// In front of a block the result of the function is required as behind it.
pub proof fn law_block_frame(
    shader: Module,
    function: Function,
    depth: nat,
    block: Block,
    scope_required: bool,
    s: Live,
)
    requires
        block_flow(shader, function, depth, block, scope_required, s) is Some,
    ensures
        ({
            let (s1, need) = block_flow(shader, function, depth, block, scope_required, s)->0;
            same_frame(need.context, s.context) && s1.context == s.context
        }),
    decreases 2 * depth, block, 0nat,
{
    let stmts = block.body@;
    lemma_stmts_frame(shader, function, depth, stmts, stmts.len(), scope_required, s);
}

/// The repetitions of a loop keep the frame.
proof fn lemma_rounds_frame(
    shader: Module,
    function: Function,
    depth: nat,
    stmt: Statement,
    s: Live,
)
    requires
        rounds_flow(shader, function, depth, stmt, s) is Some,
    ensures
        ({
            let (s1, need) = rounds_flow(shader, function, depth, stmt, s)->0;
            &&& s1.context == s.context
            &&& need matches StmtNeed::Loop { body, continuing, .. }
            &&& same_frame(body.context, s.context)
            &&& same_frame(continuing.context, s.context)
        }),
    decreases depth,
{
    if let Statement::Loop { body, continuing, .. } = stmt {
        law_block_frame(shader, function, depth, body, true, s);
        let (s1, b) = block_flow(shader, function, depth, body, true, s)->0;
        law_block_frame(shader, function, depth, continuing, true, s1);
        let (s2, c) = block_flow(shader, function, depth, continuing, true, s1)->0;
        if !s.context.contains(b.context.merge(c.context)) {
            lemma_rounds_frame(shader, function, (depth - 1) as nat, stmt, s2);
        }
    }
}

/// An if is required where one of its blocks is. Then its condition is required
/// whole, and in front of it all that is required at the beginning of either
/// block, besides what the condition requires and nothing else. Otherwise what
/// is required behind it is required in front of it. Behind both blocks is
/// required what is behind the if, so that at the beginning of a quiet block,
/// such as a missing else, all of that is required. An if around breaks,
/// continues and barriers is not required where its scope is not.
pub proof fn law_if_flow(
    shader: Module,
    function: Function,
    depth: nat,
    condition: usize,
    accept: Block,
    reject: Block,
    scope_required: bool,
    base: Context,
    s: Live,
)
    requires
        stmt_flow(
            shader,
            function,
            depth,
            Statement::If { condition, accept, reject },
            scope_required,
            base,
            s,
        ) is Some,
    ensures
        ({
            let (s1, need) = stmt_flow(
                shader,
                function,
                depth,
                Statement::If { condition, accept, reject },
                scope_required,
                base,
                s,
            )->0;
            &&& need matches StmtNeed::If { condition: required, accept: a, reject: r }
            &&& need.required() == required
            &&& required == (a.is_required() || r.is_required())
            &&& a.stmts.len() == accept.body@.len()
            &&& r.stmts.len() == reject.body@.len()
            &&& required ==> {
                &&& s1.context.contains(a.context)
                &&& s1.context.contains(r.context)
                &&& s1.exprs.contains_key(condition)
                &&& s1.exprs[condition] == Req::All
                &&& exists|t: Live| #[trigger]
                    need_expr(shader, function, depth, condition, Req::All, t) == Some(s1)
                        && t.context == a.context.merge(r.context)
            }
            &&& !required ==> s1.context == s.context
            &&& block_quiet(accept) ==> a.context == s.context
            &&& block_quiet(reject) ==> r.context == s.context
            &&& block_quiet(reject) && required ==> s1.context.contains(s.context)
            &&& block_quiet(accept) && required ==> s1.context.contains(s.context)
            &&& block_idle(accept) && block_idle(reject) && !scope_required ==> !required
        }),
{
    let (s1, a) = block_flow(shader, function, depth, accept, scope_required, s)->0;
    let (s2, r) = block_flow(shader, function, depth, reject, scope_required, s1)->0;
    lemma_needs_len(shader, function, depth, accept, scope_required, s);
    lemma_needs_len(shader, function, depth, reject, scope_required, s1);
    if block_quiet(accept) {
        law_quiet_block(shader, function, depth, accept, scope_required, s);
    }
    if block_quiet(reject) {
        law_quiet_block(shader, function, depth, reject, scope_required, s1);
    }
    if block_idle(accept) && block_idle(reject) && !scope_required {
        law_idle_block(shader, function, depth, accept, s);
        law_idle_block(shader, function, depth, reject, s1);
    }
    if a.is_required() || r.is_required() {
        let both = a.context.merge(r.context);
        let t = s2.at(both);
        let end = need_expr(shader, function, depth, condition, Req::All, t)->0;
        law_merge_contains(a.context, r.context);
        law_expr_required(shader, function, depth, condition, Req::All, t);
        law_context_transitive(end.context, both, a.context);
        law_context_transitive(end.context, both, r.context);
        assert(need_expr(shader, function, depth, condition, Req::All, t) == Some(end));
    }
}

/// For each statement of a block something is required.
proof fn lemma_needs_len(
    shader: Module,
    function: Function,
    depth: nat,
    block: Block,
    scope_required: bool,
    s: Live,
)
    requires
        block_flow(shader, function, depth, block, scope_required, s) is Some,
    ensures
        ({
            let (_, need) = block_flow(shader, function, depth, block, scope_required, s)->0;
            need.stmts.len() == block.body@.len()
        }),
{
    let stmts = block.body@;
    lemma_stmts_kill(shader, function, depth, stmts, stmts.len(), scope_required, s);
}

/// What is required in front of the last `n` cases.
proof fn lemma_cases_flow(
    shader: Module,
    function: Function,
    depth: nat,
    cases: Seq<SwitchCase>,
    n: nat,
    s: Live,
)
    requires
        cases_flow(shader, function, depth, cases, n, s) is Some,
    ensures
        ({
            let (s1, input, required, needs) = cases_flow(
                shader,
                function,
                depth,
                cases,
                n,
                s,
            )->0;
            &&& needs.len() == n <= cases.len()
            &&& s1.context == s.context
            &&& input.contains(s.context)
            &&& input.args.len() <= s.context.args.len()
            &&& forall|k: int|
                0 <= k < n ==> input.contains((#[trigger] needs[k]).context) && input.args.len()
                    <= needs[k].context.args.len()
            &&& forall|c: Context|
                c.contains(s.context) && (forall|k: int|
                    0 <= k < n ==> c.contains((#[trigger] needs[k]).context))
                    ==> #[trigger] c.contains(input)
            &&& required <==> exists|k: int| 0 <= k < n && (#[trigger] needs[k]).is_required()
            &&& forall|k: int|
                0 <= k < n && block_quiet(cases[cases.len() - 1 - k].body) ==> (
                #[trigger] needs[k]).context == s.context
        }),
    decreases n,
{
    law_context_reflexive(s.context);
    if n > 0 {
        let m = (n - 1) as nat;
        lemma_cases_flow(shader, function, depth, cases, m, s);
        let (s1, before, was, needs) = cases_flow(shader, function, depth, cases, m, s)->0;
        let body = cases[cases.len() - n].body;
        let (s2, need) = block_flow(shader, function, depth, body, false, s1)->0;
        let all = needs.push(need);
        let input = before.merge(need.context);
        law_merge_contains(before, need.context);
        law_context_transitive(input, before, s.context);
        if block_quiet(body) {
            law_quiet_block(shader, function, depth, body, false, s1);
        }
        assert forall|k: int| 0 <= k < n implies input.contains((#[trigger] all[k]).context)
            && input.args.len() <= all[k].context.args.len() by {
            if k < m {
                assert(all[k] == needs[k]);
                law_context_transitive(input, before, needs[k].context);
            }
        }
        assert forall|c: Context|
            c.contains(s.context) && (forall|k: int|
                0 <= k < n ==> c.contains(
                    (#[trigger] all[k]).context,
                )) implies #[trigger] c.contains(input) by {
            assert(c.contains(all[m as int].context));
            assert forall|k: int| 0 <= k < m implies c.contains((#[trigger] needs[k]).context) by {
                assert(all[k] == needs[k]);
            }
            law_merge_least(before, need.context, c);
        }
        if was {
            let k = choose|k: int| 0 <= k < m && (#[trigger] needs[k]).is_required();
            assert(all[k].is_required());
        }
        if need.is_required() {
            assert(all[m as int].is_required());
        }
        if exists|k: int| 0 <= k < n && (#[trigger] all[k]).is_required() {
            let k = choose|k: int| 0 <= k < n && (#[trigger] all[k]).is_required();
            if k < m {
                assert(needs[k].is_required());
            }
        }
        assert forall|k: int|
            0 <= k < n && block_quiet(cases[cases.len() - 1 - k].body) implies (
        #[trigger] all[k]).context == s.context by {
            if k < m {
                assert(all[k] == needs[k]);
            }
        }
    }
}

/// A switch is required where one of its cases is. Then its selector is
/// required whole, and in front of it all that is required behind it or at the
/// beginning of a case, and nothing else. Otherwise what is required behind it
/// is required in front of it. A switch around breaks, continues and barriers
/// is not required.
pub proof fn law_switch_flow(
    shader: Module,
    function: Function,
    depth: nat,
    selector: usize,
    cases: Vec<SwitchCase>,
    scope_required: bool,
    base: Context,
    s: Live,
)
    requires
        stmt_flow(
            shader,
            function,
            depth,
            Statement::Switch { selector, cases },
            scope_required,
            base,
            s,
        ) is Some,
    ensures
        ({
            let (s1, need) = stmt_flow(
                shader,
                function,
                depth,
                Statement::Switch { selector, cases },
                scope_required,
                base,
                s,
            )->0;
            &&& need matches StmtNeed::Switch { selector: required, cases: needs }
            &&& needs.len() == cases@.len()
            &&& need.required() == required
            &&& required <==> exists|k: int|
                0 <= k < needs.len() && (#[trigger] needs[k]).is_required()
            &&& required ==> {
                &&& s1.exprs.contains_key(selector)
                &&& s1.exprs[selector] == Req::All
                &&& s1.context.contains(s.context)
                &&& forall|k: int|
                    0 <= k < needs.len() ==> s1.context.contains((#[trigger] needs[k]).context)
                &&& forall|c: Context|
                    c.contains(s.context) && (forall|k: int|
                        0 <= k < needs.len() ==> c.contains((#[trigger] needs[k]).context))
                        ==> #[trigger] c.contains(s1.context)
            }
            &&& !required ==> s1.context == s.context
            &&& forall|k: int|
                0 <= k < needs.len() && block_quiet(cases@[cases@.len() - 1 - k].body) ==> (
                #[trigger] needs[k]).context == s.context
            &&& (forall|k: int| 0 <= k < cases@.len() ==> block_idle((#[trigger] cases@[k]).body))
                ==> !required
        }),
{
    lemma_cases_flow(shader, function, depth, cases@, cases@.len(), s);
    if forall|k: int| 0 <= k < cases@.len() ==> block_idle((#[trigger] cases@[k]).body) {
        lemma_cases_idle(shader, function, depth, cases@, cases@.len(), s);
    }
    let (s1, _, required, _) = cases_flow(
        shader,
        function,
        depth,
        cases@,
        cases@.len(),
        s,
    )->0;
    if required {
        law_expr_required(shader, function, depth, selector, Req::All, s1);
    }
}

/// Idle cases are not required.
proof fn lemma_cases_idle(
    shader: Module,
    function: Function,
    depth: nat,
    cases: Seq<SwitchCase>,
    n: nat,
    s: Live,
)
    requires
        n <= cases.len(),
        forall|k: int| 0 <= k < cases.len() ==> block_idle((#[trigger] cases[k]).body),
    ensures
        cases_flow(shader, function, depth, cases, n, s) matches Some((s1, _, required, _)) && s1
            == s && !required,
    decreases n,
{
    if n > 0 {
        lemma_cases_idle(shader, function, depth, cases, (n - 1) as nat, s);
        assert(block_idle(cases[cases.len() - n].body));
        law_idle_block(shader, function, depth, cases[cases.len() - n].body, s);
    }
}

/// Whether a statement is quiet and never required in a scope that is not.
pub open spec fn is_idle(stmt: Statement) -> bool {
    stmt is Barrier || stmt is Break || stmt is Continue
}

/// Whether each statement of a block is idle.
pub open spec fn block_idle(block: Block) -> bool {
    forall|i: int| 0 <= i < block.body@.len() ==> is_idle(#[trigger] block.body@[i])
}

/// Idle statements are not required where their scope is not.
proof fn lemma_idle(
    shader: Module,
    function: Function,
    depth: nat,
    stmts: Seq<Statement>,
    n: nat,
    s: Live,
)
    requires
        n <= stmts.len(),
        forall|i: int| 0 <= i < stmts.len() ==> is_idle(#[trigger] stmts[i]),
    ensures
        stmts_flow(shader, function, depth, stmts, n, false, s) matches Some((s1, needs, required))
            && s1 == s && !required && !any_required(needs),
    decreases n,
{
    if n > 0 {
        let m = (n - 1) as nat;
        lemma_idle(shader, function, depth, stmts, m, s);
        let stmt = stmts[stmts.len() - n];
        assert(is_idle(stmt));
        let (_, before, _) = stmts_flow(shader, function, depth, stmts, m, false, s)->0;
        let (_, need) = stmt_flow(shader, function, depth, stmt, false, s.context, s)->0;
        lemma_any_required_front(before, need);
    }
}

/// A block of breaks, continues and barriers is not required where its scope
/// is not.
pub proof fn law_idle_block(
    shader: Module,
    function: Function,
    depth: nat,
    block: Block,
    s: Live,
)
    requires
        block_idle(block),
    ensures
        block_flow(shader, function, depth, block, false, s) matches Some((s1, need)) && s1 == s
            && need.context == s.context && !need.is_required(),
{
    lemma_idle(shader, function, depth, block.body@, block.body@.len(), s);
    assert(s.at(s.context) == s);
}

/// The repetitions of a loop of quiet blocks leave what is required alone.
proof fn lemma_rounds_quiet(
    shader: Module,
    function: Function,
    depth: nat,
    body: Block,
    continuing: Block,
    break_if: Option<usize>,
    s: Live,
)
    requires
        block_quiet(body),
        block_quiet(continuing),
        depth > 0,
    ensures
        rounds_flow(
            shader,
            function,
            depth,
            Statement::Loop { body, continuing, break_if },
            s,
        ) matches Some((s1, _)) && s1 == s,
{
    law_quiet_block(shader, function, depth, body, true, s);
    law_quiet_block(shader, function, depth, continuing, true, s);
    law_merge_contains(s.context, s.context);
}

/// A loop that is not required has no required block, and what is required
/// behind it is required in front of it. One of breaks, continues and barriers
/// is not required.
pub proof fn law_loop_required(
    shader: Module,
    function: Function,
    depth: nat,
    body: Block,
    continuing: Block,
    break_if: Option<usize>,
    scope_required: bool,
    base: Context,
    s: Live,
)
    requires
        stmt_flow(
            shader,
            function,
            depth,
            Statement::Loop { body, continuing, break_if },
            scope_required,
            base,
            s,
        ) is Some,
    ensures
        ({
            let (s1, need) = stmt_flow(
                shader,
                function,
                depth,
                Statement::Loop { body, continuing, break_if },
                scope_required,
                base,
                s,
            )->0;
            &&& need matches StmtNeed::Loop { body: b, continuing: c, required }
            &&& need.required() == required
            &&& !required ==> {
                &&& !b.is_required()
                &&& !c.is_required()
                &&& s1.context == s.context
            }
            &&& block_idle(body) && block_idle(continuing) ==> !required
        }),
{
    let stmt = Statement::Loop { body, continuing, break_if };
    let (s1, b) = block_flow(shader, function, depth, body, false, s)->0;
    let (s2, c) = block_flow(shader, function, depth, continuing, false, s1)->0;
    if block_idle(body) {
        law_idle_block(shader, function, depth, body, s);
    }
    if block_idle(continuing) {
        law_idle_block(shader, function, depth, continuing, s1);
    }
    if b.is_required() || c.is_required() {
        let s3 = need_opt(shader, function, depth, break_if, s2)->0;
        let s4 = s3.at(b.context.merge(c.context));
        lemma_rounds_required(shader, function, depth, stmt, s4);
    }
}

/// A loop whose blocks are gone through again is required.
proof fn lemma_rounds_required(
    shader: Module,
    function: Function,
    depth: nat,
    stmt: Statement,
    s: Live,
)
    requires
        rounds_flow(shader, function, depth, stmt, s) is Some,
    ensures
        ({
            let (_, need) = rounds_flow(shader, function, depth, stmt, s)->0;
            need matches StmtNeed::Loop { required, .. } && required
        }),
    decreases depth,
{
    if let Statement::Loop { body, continuing, .. } = stmt {
        let (s1, b) = block_flow(shader, function, depth, body, true, s)->0;
        let (s2, c) = block_flow(shader, function, depth, continuing, true, s1)->0;
        if !s.context.contains(b.context.merge(c.context)) {
            lemma_rounds_required(shader, function, (depth - 1) as nat, stmt, s2);
        }
    }
}

/// In front of a required loop all is required that is required at the
/// beginning of either of its blocks, and the condition to leave it is required
/// whole.
pub proof fn law_loop_front(
    shader: Module,
    function: Function,
    depth: nat,
    body: Block,
    continuing: Block,
    break_if: Option<usize>,
    scope_required: bool,
    base: Context,
    s: Live,
)
    requires
        stmt_flow(
            shader,
            function,
            depth,
            Statement::Loop { body, continuing, break_if },
            scope_required,
            base,
            s,
        ) is Some,
    ensures
        ({
            let (s1, need) = stmt_flow(
                shader,
                function,
                depth,
                Statement::Loop { body, continuing, break_if },
                scope_required,
                base,
                s,
            )->0;
            &&& need matches StmtNeed::Loop { body: b, continuing: c, required }
            &&& required ==> {
                &&& s1.context.contains(b.context)
                &&& s1.context.contains(c.context)
                &&& break_if is Some ==> s1.exprs.contains_key(break_if->0)
                    && s1.exprs[break_if->0] == Req::All
            }
        }),
{
    let stmt = Statement::Loop { body, continuing, break_if };
    let (s1, b) = block_flow(shader, function, depth, body, false, s)->0;
    let (s2, c) = block_flow(shader, function, depth, continuing, false, s1)->0;
    if b.is_required() || c.is_required() {
        let s3 = need_opt(shader, function, depth, break_if, s2)->0;
        let s4 = s3.at(b.context.merge(c.context));
        let (end, last) = rounds_flow(shader, function, depth, stmt, s4)->0;
        lemma_rounds_grows(shader, function, depth, stmt, s4);
        if let Some(h) = break_if {
            law_expr_required(shader, function, depth, h, Req::All, s2);
            assert(s4.exprs.contains_key(h));
            law_contains_transitive(end.exprs[h], s4.exprs[h], Req::All);
        }
        lemma_rounds_settled(shader, function, depth, stmt, s4);
        lemma_rounds_frame(shader, function, depth, stmt, s4);
        if let StmtNeed::Loop { body: b1, continuing: c1, .. } = last {
            law_merge_contains(b1.context, c1.context);
            let both = b1.context.merge(c1.context);
            law_context_transitive(end.context, both, b1.context);
            law_context_transitive(end.context, both, c1.context);
        }
    }
}

/// Behind the blocks of a loop is required what is behind the loop: a loop of
/// quiet blocks leaves what is required as it is.
pub proof fn law_loop_quiet(
    shader: Module,
    function: Function,
    depth: nat,
    body: Block,
    continuing: Block,
    break_if: Option<usize>,
    scope_required: bool,
    base: Context,
    s: Live,
)
    requires
        stmt_flow(
            shader,
            function,
            depth,
            Statement::Loop { body, continuing, break_if },
            scope_required,
            base,
            s,
        ) is Some,
        block_quiet(body),
        block_quiet(continuing),
    ensures
        ({
            let (s1, need) = stmt_flow(
                shader,
                function,
                depth,
                Statement::Loop { body, continuing, break_if },
                scope_required,
                base,
                s,
            )->0;
            s1.context == s.context
        }),
{
    let stmt = Statement::Loop { body, continuing, break_if };
    let (s1, b) = block_flow(shader, function, depth, body, false, s)->0;
    let (s2, c) = block_flow(shader, function, depth, continuing, false, s1)->0;
    law_quiet_block(shader, function, depth, body, false, s);
    law_quiet_block(shader, function, depth, continuing, false, s1);
    law_merge_contains(s.context, s.context);
    if b.is_required() || c.is_required() {
        let s3 = need_opt(shader, function, depth, break_if, s2)->0;
        let s4 = s3.at(b.context.merge(c.context));
        lemma_rounds_quiet(shader, function, depth, body, continuing, break_if, s4);
    }
}

} // verus!
