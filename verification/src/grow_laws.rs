//! Laws of growth: an analysis takes no requirement away.
use crate::context::Context;
use crate::expr::{demands, need_all, need_expr, touched};
use crate::flow::{
    block_flow, body_flow, call_operands, cases_flow, entry_flow, expr_req, fn_at, fn_flow,
    image_operands, joined, need_opt, rounds_flow, stmt_flow, stmts_flow, store_flow,
};
use crate::ir::{Block, EntryPoint, Expression, Function, Module, Statement, SwitchCase};
use crate::live::{Found, Live};
use crate::need::{FnNeed, StmtNeed};
use crate::part::{covers, Req};
use crate::part_laws::{
    law_add_least, law_contains_reflexive, law_context_reflexive, law_context_transitive,
    law_merge_contains, lemma_covers_reflexive, lemma_covers_transitive, lemma_merged_covers,
};
use vstd::prelude::*;

verus! {

/// Whether all that is required of the module in `a` is required in `b`.
pub open spec fn found_grows(a: Found, b: Found) -> bool {
    &&& a.types.subset_of(b.types)
    &&& a.constants.subset_of(b.constants)
    &&& covers(b.globals, a.globals)
    &&& functions_grow(a.functions, b.functions)
}

/// Whether all that is required of each function in `a` is required in `b`.
pub open spec fn functions_grow(a: Map<usize, FnNeed>, b: Map<usize, FnNeed>) -> bool {
    forall|h: usize| #[trigger] a.contains_key(h) ==> b.contains_key(h) && fn_grows(a[h], b[h])
}

/// Whether all that is required of a function in `a`, in front of it and of
/// its expressions, is required in `b`.
pub open spec fn fn_grows(a: FnNeed, b: FnNeed) -> bool {
    &&& b.body.context.contains(a.body.context)
    &&& b.body.context.args.len() <= a.body.context.args.len()
    &&& covers(b.exprs, a.exprs)
}

/// Whether all that is required in `a`, of the module and of the expressions of
/// the function, is required in `b`.
pub open spec fn grows(a: Live, b: Live) -> bool {
    found_grows(a.found, b.found) && covers(b.exprs, a.exprs)
}

/// Growth, step by step.
proof fn lemma_found_grows(a: Found, b: Found, c: Found)
    ensures
        found_grows(a, a),
        found_grows(a, b) && found_grows(b, c) ==> found_grows(a, c),
{
    lemma_covers_reflexive(a.globals);
    assert forall|h: usize| #[trigger] a.functions.contains_key(h) implies fn_grows(
        a.functions[h],
        a.functions[h],
    ) by {
        law_context_reflexive(a.functions[h].body.context);
        lemma_covers_reflexive(a.functions[h].exprs);
    }
    if found_grows(a, b) && found_grows(b, c) {
        lemma_covers_transitive(c.globals, b.globals, a.globals);
        assert forall|h: usize| #[trigger] a.functions.contains_key(h) implies {
            &&& c.functions.contains_key(h)
            &&& fn_grows(a.functions[h], c.functions[h])
        } by {
            assert(b.functions.contains_key(h));
            lemma_fn_grows(a.functions[h], b.functions[h], c.functions[h]);
        }
    }
}

/// Growth of a function, step by step.
proof fn lemma_fn_grows(a: FnNeed, b: FnNeed, c: FnNeed)
    requires
        fn_grows(a, b),
        fn_grows(b, c),
    ensures
        fn_grows(a, c),
{
    law_context_transitive(c.body.context, b.body.context, a.body.context);
    lemma_covers_transitive(c.exprs, b.exprs, a.exprs);
}

/// A join requires all that was required in either pass.
pub proof fn lemma_joined_grows(a: FnNeed, b: FnNeed)
    requires
        joined(Some(a), b) is Some,
    ensures
        fn_grows(a, joined(Some(a), b)->0),
        fn_grows(b, joined(Some(a), b)->0),
{
    law_merge_contains(a.body.context, b.body.context);
    lemma_merged_covers(a.exprs, b.exprs);
}

/// Growth at a point of a function, step by step.
pub proof fn lemma_grows(a: Live, b: Live, c: Live)
    ensures
        grows(a, a),
        grows(a, b) && grows(b, c) ==> grows(a, c),
{
    lemma_found_grows(a.found, b.found, c.found);
    lemma_covers_reflexive(a.exprs);
    if grows(a, b) && grows(b, c) {
        lemma_covers_transitive(c.exprs, b.exprs, a.exprs);
    }
}

/// What an expression uses of the module takes nothing away.
proof fn lemma_touched_grows(
    shader: Module,
    function: Function,
    expr: Expression,
    part: Req,
    s: Live,
)
    requires
        touched(shader, function, expr, part, s) is Some,
    ensures
        grows(s, touched(shader, function, expr, part, s)->0),
{
    let t = touched(shader, function, expr, part, s)->0;
    lemma_grows(s, s, s);
    if let Expression::GlobalVariable(_) = expr {
        assert forall|i: usize| #[trigger] s.found.globals.contains_key(
            i,
        ) implies t.found.globals.contains_key(i) && t.found.globals[i].contains(
            s.found.globals[i],
        ) by {
            law_contains_reflexive(s.found.globals[i]);
            law_add_least(s.found.globals[i], part, part);
        }
    }
}

/// A required expression takes nothing away.
pub proof fn lemma_expr_grows(
    shader: Module,
    function: Function,
    depth: nat,
    h: usize,
    part: Req,
    s: Live,
)
    requires
        need_expr(shader, function, depth, h, part, s) is Some,
    ensures
        grows(s, need_expr(shader, function, depth, h, part, s)->0),
    decreases depth, 0nat,
{
    let expr = function.expressions[h as int];
    let operands = demands(expr, part)->0;
    let s1 = touched(shader, function, expr, part, s)->0;
    lemma_touched_grows(shader, function, expr, part, s);
    lemma_all_grows(shader, function, (depth - 1) as nat, operands, operands.len(), s1);
    let s2 = need_all(shader, function, (depth - 1) as nat, operands, operands.len(), s1)->0;
    lemma_grows(s, s1, s2);
    let s3 = s2.with_expr(h, part);
    assert forall|g: usize| #[trigger] s2.exprs.contains_key(g) implies s3.exprs.contains_key(g)
        && s3.exprs[g].contains(s2.exprs[g]) by {
        law_contains_reflexive(s2.exprs[g]);
        law_add_least(s2.exprs[g], part, part);
    }
    lemma_grows(s2, s2, s2);
    lemma_grows(s, s2, s3);
}

/// A list of demands takes nothing away.
pub proof fn lemma_all_grows(
    shader: Module,
    function: Function,
    depth: nat,
    demands: Seq<(usize, Req)>,
    n: nat,
    s: Live,
)
    requires
        need_all(shader, function, depth, demands, n, s) is Some,
    ensures
        grows(s, need_all(shader, function, depth, demands, n, s)->0),
    decreases depth, n,
{
    lemma_grows(s, s, s);
    if n > 0 {
        lemma_all_grows(shader, function, depth, demands, (n - 1) as nat, s);
        let s1 = need_all(shader, function, depth, demands, (n - 1) as nat, s)->0;
        let (h, part) = demands[n - 1];
        lemma_expr_grows(shader, function, depth, h, part, s1);
        lemma_grows(s, s1, need_expr(shader, function, depth, h, part, s1)->0);
    }
}

/// A statement takes nothing away.
#[verifier::rlimit(30)]
#[verifier::spinoff_prover]
pub proof fn lemma_stmt_grows(
    shader: Module,
    function: Function,
    depth: nat,
    stmt: Statement,
    scope_required: bool,
    base: Context,
    s: Live,
)
    requires
        stmt_flow(shader, function, depth, stmt, scope_required, base, s) is Some,
    ensures
        ({
            let (s1, _) = stmt_flow(shader, function, depth, stmt, scope_required, base, s)->0;
            grows(s, s1)
        }),
    decreases 2 * depth, stmt, 1nat,
{
    lemma_grows(s, s, s);
    let (end, _) = stmt_flow(shader, function, depth, stmt, scope_required, base, s)->0;
    match stmt {
        Statement::Block(block) => {
            lemma_block_grows(shader, function, depth, block, scope_required, s);
        },
        Statement::If { condition, accept, reject } => {
            lemma_block_grows(shader, function, depth, accept, scope_required, s);
            let (s1, accept_need) = block_flow(
                shader,
                function,
                depth,
                accept,
                scope_required,
                s,
            )->0;
            lemma_block_grows(shader, function, depth, reject, scope_required, s1);
            let (s2, reject_need) = block_flow(
                shader,
                function,
                depth,
                reject,
                scope_required,
                s1,
            )->0;
            lemma_grows(s, s1, s2);
            if accept_need.is_required() || reject_need.is_required() {
                let s3 = s2.at(accept_need.context.merge(reject_need.context));
                lemma_expr_grows(shader, function, depth, condition, Req::All, s3);
                lemma_grows(s, s3, end);
            }
        },
        Statement::Switch { selector, cases } => {
            lemma_cases_grows(shader, function, depth, cases@, cases@.len(), s);
            let (s1, _, required, _) = cases_flow(
                shader,
                function,
                depth,
                cases@,
                cases@.len(),
                s,
            )->0;
            if required {
                lemma_expr_grows(shader, function, depth, selector, Req::All, s1);
                let s2 = need_expr(shader, function, depth, selector, Req::All, s1)->0;
                lemma_grows(s, s1, s2);
            }
        },
        Statement::Loop { body, continuing, break_if } => {
            lemma_block_grows(shader, function, depth, body, false, s);
            let (s1, body_need) = block_flow(shader, function, depth, body, false, s)->0;
            lemma_block_grows(shader, function, depth, continuing, false, s1);
            let (s2, continuing_need) = block_flow(
                shader,
                function,
                depth,
                continuing,
                false,
                s1,
            )->0;
            lemma_grows(s, s1, s2);
            if body_need.is_required() || continuing_need.is_required() {
                let s3 = need_opt(shader, function, depth, break_if, s2)->0;
                if let Some(h) = break_if {
                    lemma_expr_grows(shader, function, depth, h, Req::All, s2);
                    lemma_grows(s, s2, s3);
                }
                let s4 = s3.at(body_need.context.merge(continuing_need.context));
                lemma_rounds_grows(shader, function, depth, stmt, s4);
                lemma_grows(s, s4, end);
            }
        },
        Statement::Return { value } => {
            if let (Some(value), Some(req)) = (value, s.context.retval) {
                lemma_expr_grows(shader, function, depth, value, req, s);
            }
        },
        Statement::Store { pointer, value } => {
            if let Some((s1, Some(req))) = store_flow(shader, function, depth, pointer, s) {
                let operands = seq![(pointer, Req::Exist), (value, req)];
                lemma_all_grows(shader, function, depth, operands, operands.len(), s1);
            }
        },
        Statement::ImageStore { image, coordinate, array_index, value } => {
            if let Some((s1, Some(req))) = store_flow(shader, function, depth, image, s) {
                let operands = image_operands(image, coordinate, array_index, value, req);
                lemma_all_grows(shader, function, depth, operands, operands.len(), s1);
            }
        },
        Statement::Call { function: callee, arguments, result } => {
            let req = expr_req(s.exprs, result);
            let near = (depth - 1) as nat;
            lemma_fn_flow_grows(shader, near, callee, s.context.globals, req, s.found);
            let (found, required, input) = fn_flow(
                shader,
                near,
                callee,
                s.context.globals,
                req,
                s.found,
            )->0;
            let s1 = Live { found, ..s };
            if required {
                let operands = call_operands(arguments@, input.args, result, req);
                lemma_all_grows(shader, function, depth, operands, operands.len(), s1);
                lemma_grows(s, s1, end);
            }
        },
        _ => {},
    }
}

/// The repetitions of a loop take nothing away.
pub proof fn lemma_rounds_grows(
    shader: Module,
    function: Function,
    depth: nat,
    stmt: Statement,
    s: Live,
)
    requires
        rounds_flow(shader, function, depth, stmt, s) is Some,
    ensures
        ({
            let (s1, _) = rounds_flow(shader, function, depth, stmt, s)->0;
            grows(s, s1)
        }),
    decreases 2 * depth, stmt, 0nat,
{
    if let Statement::Loop { body, continuing, .. } = stmt {
        lemma_block_grows(shader, function, depth, body, true, s);
        let (s1, body_need) = block_flow(shader, function, depth, body, true, s)->0;
        lemma_block_grows(shader, function, depth, continuing, true, s1);
        let (s2, continuing_need) = block_flow(shader, function, depth, continuing, true, s1)->0;
        lemma_grows(s, s1, s2);
        if !s.context.contains(body_need.context.merge(continuing_need.context)) {
            lemma_rounds_grows(shader, function, (depth - 1) as nat, stmt, s2);
            let (s3, _) = rounds_flow(shader, function, (depth - 1) as nat, stmt, s2)->0;
            lemma_grows(s, s2, s3);
        }
    }
}

/// The cases of a switch take nothing away.
proof fn lemma_cases_grows(
    shader: Module,
    function: Function,
    depth: nat,
    cases: Seq<SwitchCase>,
    n: nat,
    s: Live,
)
    requires
        cases_flow(shader, function, depth, cases, n, s) is Some,
    ensures
        ({
            let (s1, _, _, _) = cases_flow(shader, function, depth, cases, n, s)->0;
            grows(s, s1)
        }),
    decreases 2 * depth, cases, n,
{
    lemma_grows(s, s, s);
    if n > 0 {
        let m = (n - 1) as nat;
        lemma_cases_grows(shader, function, depth, cases, m, s);
        let (s1, _, _, _) = cases_flow(shader, function, depth, cases, m, s)->0;
        let body = cases[cases.len() - n].body;
        lemma_block_grows(shader, function, depth, body, false, s1);
        let (s2, _) = block_flow(shader, function, depth, body, false, s1)->0;
        lemma_grows(s, s1, s2);
    }
}

/// A block takes nothing away.
proof fn lemma_block_grows(
    shader: Module,
    function: Function,
    depth: nat,
    block: Block,
    scope_required: bool,
    s: Live,
)
    requires
        block_flow(shader, function, depth, block, scope_required, s) is Some,
    ensures
        ({
            let (s1, _) = block_flow(shader, function, depth, block, scope_required, s)->0;
            grows(s, s1)
        }),
    decreases 2 * depth, block, 0nat,
{
    let stmts = block.body@;
    lemma_stmts_grows(shader, function, depth, stmts, stmts.len(), scope_required, s);
}

/// A list of statements takes nothing away.
proof fn lemma_stmts_grows(
    shader: Module,
    function: Function,
    depth: nat,
    stmts: Seq<Statement>,
    n: nat,
    scope_required: bool,
    s: Live,
)
    requires
        stmts_flow(shader, function, depth, stmts, n, scope_required, s) is Some,
    ensures
        ({
            let (s1, _, _) = stmts_flow(shader, function, depth, stmts, n, scope_required, s)->0;
            grows(s, s1)
        }),
    decreases 2 * depth, stmts, n,
{
    lemma_grows(s, s, s);
    if n > 0 {
        let m = (n - 1) as nat;
        lemma_stmts_grows(shader, function, depth, stmts, m, scope_required, s);
        let (s1, _, required) = stmts_flow(
            shader,
            function,
            depth,
            stmts,
            m,
            scope_required,
            s,
        )->0;
        let stmt = stmts[stmts.len() - n];
        lemma_stmt_grows(shader, function, depth, stmt, required, s.context, s1);
        let (s2, _) = stmt_flow(shader, function, depth, stmt, required, s.context, s1)->0;
        lemma_grows(s, s1, s2);
    }
}

/// The body of a function takes nothing away.
proof fn lemma_body_grows(
    shader: Module,
    depth: nat,
    function: Function,
    globals: Map<usize, Req>,
    retval: Option<Req>,
    found: Found,
)
    requires
        body_flow(shader, depth, function, globals, retval, found) is Some,
    ensures
        ({
            let (found1, _) = body_flow(shader, depth, function, globals, retval, found)->0;
            found_grows(found, found1)
        }),
    decreases 2 * depth + 1, shader, 0nat,
{
    let start = Live {
        found,
        exprs: Map::empty(),
        context: Context {
            globals,
            locals: Map::empty(),
            args: Seq::new(function.arguments@.len(), |i: int| None),
            retval,
        },
    };
    lemma_block_grows(shader, function, depth, function.body, false, start);
}

/// A function takes nothing away.
proof fn lemma_fn_flow_grows(
    shader: Module,
    depth: nat,
    h: usize,
    globals: Map<usize, Req>,
    retval: Option<Req>,
    found: Found,
)
    requires
        fn_flow(shader, depth, h, globals, retval, found) is Some,
    ensures
        ({
            let (found1, _, context) = fn_flow(shader, depth, h, globals, retval, found)->0;
            &&& found_grows(found, found1)
            &&& found1.functions[h].body.context.contains(context)
        }),
    decreases 2 * depth + 1, shader, 1nat,
{
    let function = shader.functions[h as int];
    lemma_body_grows(shader, depth, function, globals, retval, found);
    let (found1, need) = body_flow(shader, depth, function, globals, retval, found)->0;
    let all = joined(fn_at(found1.functions, h), need)->0;
    let found2 = Found { functions: found1.functions.insert(h, all), ..found1 };
    lemma_found_grows(found1, found1, found1);
    if found1.functions.contains_key(h) {
        lemma_joined_grows(found1.functions[h], need);
    } else {
        law_context_reflexive(need.body.context);
    }
    lemma_found_grows(found, found1, found2);
}

/// An analysis of a function takes no requirement away: the required types and
/// constants stay required, and the requirements on global variables, in front
/// of each function and on its expressions only rise. In front of the function
/// all is required that the analysis gives.
pub proof fn law_function_grows(
    shader: Module,
    depth: nat,
    h: usize,
    globals: Map<usize, Req>,
    retval: Option<Req>,
    found: Found,
)
    requires
        fn_flow(shader, depth, h, globals, retval, found) is Some,
    ensures
        ({
            let (found1, _, context) = fn_flow(shader, depth, h, globals, retval, found)->0;
            &&& found_grows(found, found1)
            &&& found1.functions.contains_key(h)
            &&& found1.functions[h].body.context.contains(context)
        }),
{
    lemma_fn_flow_grows(shader, depth, h, globals, retval, found);
}

/// The same of an entry point.
pub proof fn law_entry_grows(
    shader: Module,
    depth: nat,
    entrypoint: EntryPoint,
    globals: Map<usize, Req>,
    retval: Option<Req>,
    found: Found,
    now: Option<FnNeed>,
)
    requires
        entry_flow(shader, depth, entrypoint, globals, retval, found, now) is Some,
    ensures
        ({
            let (found1, need, context) = entry_flow(
                shader,
                depth,
                entrypoint,
                globals,
                retval,
                found,
                now,
            )->0;
            &&& found_grows(found, found1)
            &&& now is Some ==> fn_grows(now->0, need)
            &&& need.body.context.contains(context)
        }),
{
    let function = entrypoint.function;
    lemma_body_grows(shader, depth, function, globals, retval, found);
    let (_, need) = body_flow(shader, depth, function, globals, retval, found)->0;
    if let Some(now) = now {
        lemma_joined_grows(now, need);
    } else {
        law_context_reflexive(need.body.context);
    }
}

/// For each statement something is required, and of a kill that it is one.
pub proof fn lemma_stmts_kill(
    shader: Module,
    function: Function,
    depth: nat,
    stmts: Seq<Statement>,
    n: nat,
    scope_required: bool,
    s: Live,
)
    requires
        stmts_flow(shader, function, depth, stmts, n, scope_required, s) is Some,
    ensures
        ({
            let (_, needs, _) = stmts_flow(
                shader,
                function,
                depth,
                stmts,
                n,
                scope_required,
                s,
            )->0;
            &&& needs.len() == n <= stmts.len()
            &&& forall|i: int|
                0 <= i < n && stmts[stmts.len() - n + i] is Kill ==> #[trigger] needs[i]
                    == StmtNeed::Kill
        }),
    decreases n,
{
    if n > 0 {
        let m = (n - 1) as nat;
        lemma_stmts_kill(shader, function, depth, stmts, m, scope_required, s);
        let (s1, before, required) = stmts_flow(
            shader,
            function,
            depth,
            stmts,
            m,
            scope_required,
            s,
        )->0;
        let stmt = stmts[stmts.len() - n];
        let (_, need) = stmt_flow(shader, function, depth, stmt, required, s.context, s1)->0;
        let (_, needs, _) = stmts_flow(shader, function, depth, stmts, n, scope_required, s)->0;
        assert forall|i: int|
            0 <= i < n && stmts[stmts.len() - n + i] is Kill implies #[trigger] needs[i]
            == StmtNeed::Kill by {
            assert(needs == seq![need] + before);
            if i > 0 {
                let j = i - 1;
                assert(needs[i] == before[j]);
                assert(stmts[stmts.len() - m + j] is Kill);
            }
        }
    }
}

/// A block with a kill statement is required.
pub proof fn law_kill_required(
    shader: Module,
    function: Function,
    depth: nat,
    block: Block,
    scope_required: bool,
    s: Live,
    i: int,
)
    requires
        block_flow(shader, function, depth, block, scope_required, s) is Some,
        0 <= i < block.body@.len(),
        block.body@[i] is Kill,
    ensures
        ({
            let (_, need) = block_flow(shader, function, depth, block, scope_required, s)->0;
            need.is_required()
        }),
{
    let stmts = block.body@;
    let (_, need) = block_flow(shader, function, depth, block, scope_required, s)->0;
    lemma_stmts_kill(shader, function, depth, stmts, stmts.len(), scope_required, s);
    assert(need.stmts[i] == StmtNeed::Kill);
    assert(need.stmts[i].required());
}

} // verus!
