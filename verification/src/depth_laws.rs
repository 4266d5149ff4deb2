//! The depth that the analysis is given does not change what it finds.
use crate::context::Context;
use crate::expr::{demands, need_all, need_expr, touched};
use crate::flow::{
    block_flow, body_flow, call_operands, cases_flow, entry_flow, expr_req, fn_flow, image_operands,
    need_opt, rounds_flow, stmt_flow, stmts_flow, store_flow,
};
use crate::ir::{Block, EntryPoint, Expression, Function, Module, Statement, SwitchCase};
use crate::live::{Found, Live};
use crate::need::FnNeed;
use crate::part::{only, Req};
use crate::store::part_below;
use vstd::prelude::*;

verus! {

/// An expression that is gone through within a depth is gone through in the
/// same way within a larger one.
proof fn lemma_expr_deeper(
    shader: Module,
    function: Function,
    near: nat,
    far: nat,
    h: usize,
    part: Req,
    s: Live,
)
    requires
        near <= far,
        need_expr(shader, function, near, h, part, s) is Some,
    ensures
        need_expr(shader, function, far, h, part, s) == need_expr(
            shader,
            function,
            near,
            h,
            part,
            s,
        ),
    decreases near, 0nat,
{
    let expr = function.expressions[h as int];
    let operands = demands(expr, part)->0;
    let s1 = touched(shader, function, expr, part, s)->0;
    lemma_all_deeper(
        shader,
        function,
        (near - 1) as nat,
        (far - 1) as nat,
        operands,
        operands.len(),
        s1,
    );
}

/// The same of a list of demands.
proof fn lemma_all_deeper(
    shader: Module,
    function: Function,
    near: nat,
    far: nat,
    demands: Seq<(usize, Req)>,
    n: nat,
    s: Live,
)
    requires
        near <= far,
        need_all(shader, function, near, demands, n, s) is Some,
    ensures
        need_all(shader, function, far, demands, n, s) == need_all(
            shader,
            function,
            near,
            demands,
            n,
            s,
        ),
    decreases near, n,
{
    if n > 0 {
        lemma_all_deeper(shader, function, near, far, demands, (n - 1) as nat, s);
        let s1 = need_all(shader, function, near, demands, (n - 1) as nat, s)->0;
        lemma_expr_deeper(
            shader,
            function,
            near,
            far,
            demands[n - 1].0,
            demands[n - 1].1,
            s1,
        );
    }
}

/// The same of a pointer expression.
proof fn lemma_resolved_deeper(function: Function, near: nat, far: nat, h: usize, below: Req)
    requires
        near <= far,
        part_below(function, near, h, below) is Some,
    ensures
        part_below(function, far, h, below) == part_below(function, near, h, below),
    decreases near,
{
    match function.expressions[h as int] {
        Expression::Access { base, .. } => lemma_resolved_deeper(
            function,
            (near - 1) as nat,
            (far - 1) as nat,
            base,
            Req::All,
        ),
        Expression::AccessIndex { base, index } => lemma_resolved_deeper(
            function,
            (near - 1) as nat,
            (far - 1) as nat,
            base,
            only(index as usize, below),
        ),
        _ => {},
    }
}

/// The same of a statement.
proof fn lemma_stmt_deeper(
    shader: Module,
    function: Function,
    near: nat,
    far: nat,
    stmt: Statement,
    scope_required: bool,
    base: Context,
    s: Live,
)
    requires
        near <= far,
        stmt_flow(shader, function, near, stmt, scope_required, base, s) is Some,
    ensures
        stmt_flow(shader, function, far, stmt, scope_required, base, s) == stmt_flow(
            shader,
            function,
            near,
            stmt,
            scope_required,
            base,
            s,
        ),
    decreases 2 * near, stmt, 1nat,
{
    match stmt {
        Statement::Block(block) => lemma_block_deeper(
            shader,
            function,
            near,
            far,
            block,
            scope_required,
            s,
        ),
        Statement::If { condition, accept, reject } => {
            lemma_block_deeper(shader, function, near, far, accept, scope_required, s);
            let (s1, accept_need) = block_flow(
                shader,
                function,
                near,
                accept,
                scope_required,
                s,
            )->0;
            lemma_block_deeper(shader, function, near, far, reject, scope_required, s1);
            let (s2, reject_need) = block_flow(
                shader,
                function,
                near,
                reject,
                scope_required,
                s1,
            )->0;
            if accept_need.is_required() || reject_need.is_required() {
                lemma_expr_deeper(
                    shader,
                    function,
                    near,
                    far,
                    condition,
                    Req::All,
                    s2.at(accept_need.context.merge(reject_need.context)),
                );
            }
        },
        Statement::Switch { selector, cases } => {
            lemma_cases_deeper(shader, function, near, far, cases@, cases@.len(), s);
            let (s1, input, required, needs) = cases_flow(
                shader,
                function,
                near,
                cases@,
                cases@.len(),
                s,
            )->0;
            if required {
                lemma_expr_deeper(shader, function, near, far, selector, Req::All, s1);
            }
        },
        Statement::Loop { body, continuing, break_if } => {
            lemma_block_deeper(shader, function, near, far, body, false, s);
            let (s1, body_need) = block_flow(shader, function, near, body, false, s)->0;
            lemma_block_deeper(shader, function, near, far, continuing, false, s1);
            let (s2, continuing_need) = block_flow(
                shader,
                function,
                near,
                continuing,
                false,
                s1,
            )->0;
            if body_need.is_required() || continuing_need.is_required() {
                if let Some(h) = break_if {
                    lemma_expr_deeper(shader, function, near, far, h, Req::All, s2);
                }
                let s3 = need_opt(shader, function, near, break_if, s2)->0;
                lemma_rounds_deeper(
                    shader,
                    function,
                    near,
                    far,
                    stmt,
                    s3.at(body_need.context.merge(continuing_need.context)),
                );
            }
        },
        Statement::Return { value } => {
            if let (Some(value), Some(req)) = (value, s.context.retval) {
                lemma_expr_deeper(shader, function, near, far, value, req, s);
            }
        },
        Statement::Store { pointer, value } => {
            lemma_resolved_deeper(function, near, far, pointer, Req::All);
            if let Some((s1, Some(req))) = store_flow(shader, function, near, pointer, s) {
                let operands = seq![(pointer, Req::Exist), (value, req)];
                lemma_all_deeper(shader, function, near, far, operands, operands.len(), s1);
            }
        },
        Statement::ImageStore { image, coordinate, array_index, value } => {
            lemma_resolved_deeper(function, near, far, image, Req::All);
            if let Some((s1, Some(req))) = store_flow(shader, function, near, image, s) {
                let operands = image_operands(image, coordinate, array_index, value, req);
                lemma_all_deeper(shader, function, near, far, operands, operands.len(), s1);
            }
        },
        Statement::Call { function: callee, arguments, result } => {
            let req = expr_req(s.exprs, result);
            lemma_fn_deeper(
                shader,
                (near - 1) as nat,
                (far - 1) as nat,
                callee,
                s.context.globals,
                req,
                s.found,
            );
            let (found, required, input) = fn_flow(
                shader,
                (near - 1) as nat,
                callee,
                s.context.globals,
                req,
                s.found,
            )->0;
            if required {
                let operands = call_operands(arguments@, input.args, result, req);
                lemma_all_deeper(
                    shader,
                    function,
                    near,
                    far,
                    operands,
                    operands.len(),
                    Live { found, ..s },
                );
            }
        },
        _ => {},
    }
}

/// The same of the repetitions of a loop.
proof fn lemma_rounds_deeper(
    shader: Module,
    function: Function,
    near: nat,
    far: nat,
    stmt: Statement,
    s: Live,
)
    requires
        near <= far,
        rounds_flow(shader, function, near, stmt, s) is Some,
    ensures
        rounds_flow(shader, function, far, stmt, s) == rounds_flow(shader, function, near, stmt, s),
    decreases 2 * near, stmt, 0nat,
{
    if let Statement::Loop { body, continuing, .. } = stmt {
        lemma_block_deeper(shader, function, near, far, body, true, s);
        let (s1, body_need) = block_flow(shader, function, near, body, true, s)->0;
        lemma_block_deeper(shader, function, near, far, continuing, true, s1);
        let (s2, continuing_need) = block_flow(shader, function, near, continuing, true, s1)->0;
        if !s.context.contains(body_need.context.merge(continuing_need.context)) {
            lemma_rounds_deeper(
                shader,
                function,
                (near - 1) as nat,
                (far - 1) as nat,
                stmt,
                s2,
            );
        }
    }
}

/// The same of the cases of a switch.
proof fn lemma_cases_deeper(
    shader: Module,
    function: Function,
    near: nat,
    far: nat,
    cases: Seq<SwitchCase>,
    n: nat,
    s: Live,
)
    requires
        near <= far,
        cases_flow(shader, function, near, cases, n, s) is Some,
    ensures
        cases_flow(shader, function, far, cases, n, s) == cases_flow(
            shader,
            function,
            near,
            cases,
            n,
            s,
        ),
    decreases 2 * near, cases, n,
{
    if n > 0 {
        lemma_cases_deeper(shader, function, near, far, cases, (n - 1) as nat, s);
        let (s1, input, required, needs) = cases_flow(
            shader,
            function,
            near,
            cases,
            (n - 1) as nat,
            s,
        )->0;
        lemma_block_deeper(
            shader,
            function,
            near,
            far,
            cases[cases.len() - n].body,
            false,
            s1,
        );
    }
}

/// The same of a block.
proof fn lemma_block_deeper(
    shader: Module,
    function: Function,
    near: nat,
    far: nat,
    block: Block,
    scope_required: bool,
    s: Live,
)
    requires
        near <= far,
        block_flow(shader, function, near, block, scope_required, s) is Some,
    ensures
        block_flow(shader, function, far, block, scope_required, s) == block_flow(
            shader,
            function,
            near,
            block,
            scope_required,
            s,
        ),
    decreases 2 * near, block, 0nat,
{
    lemma_stmts_deeper(
        shader,
        function,
        near,
        far,
        block.body@,
        block.body@.len(),
        scope_required,
        s,
    );
}

/// The same of a list of statements.
proof fn lemma_stmts_deeper(
    shader: Module,
    function: Function,
    near: nat,
    far: nat,
    stmts: Seq<Statement>,
    n: nat,
    scope_required: bool,
    s: Live,
)
    requires
        near <= far,
        stmts_flow(shader, function, near, stmts, n, scope_required, s) is Some,
    ensures
        stmts_flow(shader, function, far, stmts, n, scope_required, s) == stmts_flow(
            shader,
            function,
            near,
            stmts,
            n,
            scope_required,
            s,
        ),
    decreases 2 * near, stmts, n,
{
    if n > 0 {
        lemma_stmts_deeper(
            shader,
            function,
            near,
            far,
            stmts,
            (n - 1) as nat,
            scope_required,
            s,
        );
        let (s1, needs, required) = stmts_flow(
            shader,
            function,
            near,
            stmts,
            (n - 1) as nat,
            scope_required,
            s,
        )->0;
        lemma_stmt_deeper(
            shader,
            function,
            near,
            far,
            stmts[stmts.len() - n],
            required,
            s.context,
            s1,
        );
    }
}

/// The same of the body of a function.
proof fn lemma_body_deeper(
    shader: Module,
    near: nat,
    far: nat,
    function: Function,
    globals: Map<usize, Req>,
    retval: Option<Req>,
    found: Found,
)
    requires
        near <= far,
        body_flow(shader, near, function, globals, retval, found) is Some,
    ensures
        body_flow(shader, far, function, globals, retval, found) == body_flow(
            shader,
            near,
            function,
            globals,
            retval,
            found,
        ),
    decreases 2 * near + 1, shader, 0nat,
{
    let start = Live {
        found,
        exprs: Map::empty(),
        context: Context {
            globals,
            locals: Map::empty(),
            args: Seq::new(function.arguments@.len(), |i: int| None),
            retval,
        },
    };
    lemma_block_deeper(shader, function, near, far, function.body, false, start);
}

/// The same of a function.
proof fn lemma_fn_deeper(
    shader: Module,
    near: nat,
    far: nat,
    h: usize,
    globals: Map<usize, Req>,
    retval: Option<Req>,
    found: Found,
)
    requires
        near <= far,
        fn_flow(shader, near, h, globals, retval, found) is Some,
    ensures
        fn_flow(shader, far, h, globals, retval, found) == fn_flow(
            shader,
            near,
            h,
            globals,
            retval,
            found,
        ),
    decreases 2 * near + 1, shader, 1nat,
{
    lemma_body_deeper(
        shader,
        near,
        far,
        shader.functions[h as int],
        globals,
        retval,
        found,
    );
}

/// A function that can be analysed within one depth is analysed with the same
/// result within any other in which it can be.
pub proof fn law_function_depth(
    shader: Module,
    one: nat,
    other: nat,
    h: usize,
    globals: Map<usize, Req>,
    retval: Option<Req>,
    found: Found,
)
    requires
        fn_flow(shader, one, h, globals, retval, found) is Some,
    ensures
        one <= other ==> fn_flow(shader, other, h, globals, retval, found) is Some,
        fn_flow(shader, other, h, globals, retval, found) is Some ==> fn_flow(
            shader,
            other,
            h,
            globals,
            retval,
            found,
        ) == fn_flow(shader, one, h, globals, retval, found),
{
    if one <= other {
        lemma_fn_deeper(shader, one, other, h, globals, retval, found);
    } else if fn_flow(shader, other, h, globals, retval, found) is Some {
        lemma_fn_deeper(shader, other, one, h, globals, retval, found);
    }
}

/// An entry point that can be analysed within one depth is analysed with the
/// same result within any other in which it can be.
pub proof fn law_entry_depth(
    shader: Module,
    one: nat,
    other: nat,
    entrypoint: EntryPoint,
    globals: Map<usize, Req>,
    retval: Option<Req>,
    found: Found,
    now: Option<FnNeed>,
)
    requires
        entry_flow(shader, one, entrypoint, globals, retval, found, now) is Some,
    ensures
        one <= other ==> entry_flow(shader, other, entrypoint, globals, retval, found, now) is Some,
        entry_flow(shader, other, entrypoint, globals, retval, found, now) is Some ==> entry_flow(
            shader,
            other,
            entrypoint,
            globals,
            retval,
            found,
            now,
        ) == entry_flow(shader, one, entrypoint, globals, retval, found, now),
{
    if one <= other {
        lemma_body_deeper(
            shader,
            one,
            other,
            entrypoint.function,
            globals,
            retval,
            found,
        );
    } else if entry_flow(shader, other, entrypoint, globals, retval, found, now) is Some {
        lemma_body_deeper(
            shader,
            other,
            one,
            entrypoint.function,
            globals,
            retval,
            found,
        );
    }
}

} // verus!
