//! What is required in front of a statement, given what is required behind
//! it.
use crate::context::Context;
use crate::expr::{need_all, need_expr};
use crate::ir::{Block, EntryPoint, Function, Module, Range, Statement, SwitchCase};
use crate::live::{Found, Live};
use crate::need::{BlockNeed, FnNeed, StmtNeed};
use crate::part::{merged, Req};
use crate::store::{resolved, stored};
use vstd::prelude::*;

verus! {

/// The number of handles in a range.
pub open spec fn span(range: Range) -> nat {
    if range.start <= range.end {
        (range.end - range.start) as nat
    } else {
        0
    }
}

/// Which of the expressions in a range are required.
pub open spec fn emitted(range: Range, exprs: Map<usize, Req>) -> Seq<bool> {
    Seq::new(span(range), |i: int| exprs.contains_key((range.start + i) as usize))
}

/// The argument demands of a call: of each argument what the function
/// requires of it, where it requires anything. Arguments that the function
/// does not have are left out.
pub open spec fn passed(arguments: Seq<usize>, args: Seq<Option<Req>>, n: nat) -> Seq<(usize, Req)>
    decreases n,
{
    if n == 0 || n > arguments.len() || n > args.len() {
        Seq::empty()
    } else {
        match args[n - 1] {
            Some(req) => passed(arguments, args, (n - 1) as nat).push((arguments[n - 1], req)),
            None => passed(arguments, args, (n - 1) as nat),
        }
    }
}

/// The smaller of the two numbers of arguments.
pub open spec fn common(arguments: Seq<usize>, args: Seq<Option<Req>>) -> nat {
    if arguments.len() <= args.len() {
        arguments.len()
    } else {
        args.len()
    }
}

/// The requirement on an expression, if any.
pub open spec fn expr_req(exprs: Map<usize, Req>, h: Option<usize>) -> Option<Req> {
    match h {
        Some(h) => if exprs.contains_key(h) {
            Some(exprs[h])
        } else {
            None
        },
        None => None,
    }
}

/// What is required in front of a store to the pointer expression `pointer`,
/// where it is required, besides the operands of the store; and what is
/// required of the stored value.
pub open spec fn store_flow(
    shader: Module,
    function: Function,
    depth: nat,
    pointer: usize,
    s: Live,
) -> Option<(Live, Option<Req>)> {
    match resolved(function, depth, pointer) {
        Some((var, part)) => match stored(s.context.of(var), part) {
            Some(req) => match s.context.remove(var, part, shader, function) {
                Some(context) => Some((s.at(context), Some(req))),
                None => None,
            },
            None => Some((s, None)),
        },
        None => None,
    }
}

/// What is required in front of a statement where `s` is required behind it,
/// and what is required of the statement. `scope_required` is whether a break
/// out of the enclosing scope is required; `base` is what is required behind
/// the block that the statement stands in. `None` where the module is not
/// well formed, or `depth` is exceeded.
pub open spec fn stmt_flow(
    shader: Module,
    function: Function,
    depth: nat,
    stmt: Statement,
    scope_required: bool,
    base: Context,
    s: Live,
) -> Option<(Live, StmtNeed)>
    decreases 2 * depth, stmt, 1nat,
{
    match stmt {
        Statement::Emit(range) => Some((s, StmtNeed::Emit(emitted(range, s.exprs)))),
        Statement::Block(block) => match block_flow(
            shader,
            function,
            depth,
            block,
            scope_required,
            s,
        ) {
            Some((s1, need)) => Some((s1.at(need.context), StmtNeed::BlockStmt(need))),
            None => None,
        },
        Statement::If { condition, accept, reject } => match block_flow(
            shader,
            function,
            depth,
            accept,
            scope_required,
            s,
        ) {
            Some((s1, accept)) => match block_flow(
                shader,
                function,
                depth,
                reject,
                scope_required,
                s1,
            ) {
                Some((s2, reject)) => {
                    let required = accept.is_required() || reject.is_required();
                    let need = StmtNeed::If { condition: required, accept, reject };
                    if required {
                        match need_expr(
                            shader,
                            function,
                            depth,
                            condition,
                            Req::All,
                            s2.at(accept.context.merge(reject.context)),
                        ) {
                            Some(s3) => Some((s3, need)),
                            None => None,
                        }
                    } else {
                        Some((s2, need))
                    }
                },
                None => None,
            },
            None => None,
        },
        Statement::Switch { selector, cases } => match cases_flow(
            shader,
            function,
            depth,
            cases@,
            cases@.len(),
            s,
        ) {
            Some((s1, input, required, needs)) => {
                let need = StmtNeed::Switch { selector: required, cases: needs };
                if required {
                    match need_expr(shader, function, depth, selector, Req::All, s1) {
                        Some(s2) => Some((s2.at(input), need)),
                        None => None,
                    }
                } else {
                    Some((s1, need))
                }
            },
            None => None,
        },
        Statement::Loop { body, continuing, break_if } => match block_flow(
            shader,
            function,
            depth,
            body,
            false,
            s,
        ) {
            Some((s1, first_body)) => match block_flow(
                shader,
                function,
                depth,
                continuing,
                false,
                s1,
            ) {
                Some((s2, first_continuing)) => if first_body.is_required()
                    || first_continuing.is_required() {
                    match need_opt(shader, function, depth, break_if, s2) {
                        Some(s3) => rounds_flow(
                            shader,
                            function,
                            depth,
                            stmt,
                            s3.at(first_body.context.merge(first_continuing.context)),
                        ),
                        None => None,
                    }
                } else {
                    Some(
                        (
                            s2,
                            StmtNeed::Loop {
                                body: first_body,
                                continuing: first_continuing,
                                required: false,
                            },
                        ),
                    )
                },
                None => None,
            },
            None => None,
        },
        Statement::Break => Some((s.at(base), StmtNeed::Break(scope_required))),
        Statement::Continue => Some((s.at(base), StmtNeed::Continue(scope_required))),
        Statement::Return { value } => match (value, s.context.retval) {
            (Some(value), Some(req)) => match need_expr(shader, function, depth, value, req, s) {
                Some(s1) => Some((s1, StmtNeed::Return(true))),
                None => None,
            },
            _ => Some((s.at(base), StmtNeed::Return(scope_required))),
        },
        Statement::Kill => Some((s, StmtNeed::Kill)),
        Statement::Barrier(_) => Some((s, StmtNeed::Barrier)),
        Statement::Store { pointer, value } => match store_flow(
            shader,
            function,
            depth,
            pointer,
            s,
        ) {
            Some((s1, Some(req))) => {
                let operands = seq![(pointer, Req::Exist), (value, req)];
                match need_all(shader, function, depth, operands, operands.len(), s1) {
                    Some(s2) => Some((s2, StmtNeed::Store(true))),
                    None => None,
                }
            },
            Some((s1, None)) => Some((s1, StmtNeed::Store(false))),
            None => None,
        },
        Statement::ImageStore { image, coordinate, array_index, value } => match store_flow(
            shader,
            function,
            depth,
            image,
            s,
        ) {
            Some((s1, Some(req))) => {
                let operands = image_operands(image, coordinate, array_index, value, req);
                match need_all(shader, function, depth, operands, operands.len(), s1) {
                    Some(s2) => Some((s2, StmtNeed::ImageStore(true))),
                    None => None,
                }
            },
            Some((s1, None)) => Some((s1, StmtNeed::ImageStore(false))),
            None => None,
        },
        Statement::Atomic { .. } => None,
        Statement::Call { function: callee, arguments, result } => {
            let req = expr_req(s.exprs, result);
            if depth == 0 {
                None
            } else {
                match fn_flow(
                    shader,
                    (depth - 1) as nat,
                    callee,
                    s.context.globals,
                    req,
                    s.found,
                ) {
                    Some((found, true, input)) => {
                        let operands = call_operands(arguments@, input.args, result, req);
                        match need_all(
                            shader,
                            function,
                            depth,
                            operands,
                            operands.len(),
                            Live { found, ..s },
                        ) {
                            Some(s1) => Some(
                                (
                                    s1,
                                    StmtNeed::Call {
                                        call_required: true,
                                        result_required: req is Some,
                                    },
                                ),
                            ),
                            None => None,
                        }
                    },
                    Some((found, false, _)) => Some(
                        (
                            Live { found, ..s },
                            StmtNeed::Call { call_required: false, result_required: false },
                        ),
                    ),
                    None => None,
                }
            }
        },
    }
}

/// What is required of the operands of a required store to an image.
pub open spec fn image_operands(
    image: usize,
    coordinate: usize,
    array_index: Option<usize>,
    value: usize,
    req: Req,
) -> Seq<(usize, Req)> {
    let access = seq![(image, Req::Exist), (coordinate, Req::All)];
    match array_index {
        Some(index) => access.push((index, Req::Exist)).push((value, req)),
        None => access.push((value, req)),
    }
}

/// What is required of the operands of a required call.
pub open spec fn call_operands(
    arguments: Seq<usize>,
    args: Seq<Option<Req>>,
    result: Option<usize>,
    req: Option<Req>,
) -> Seq<(usize, Req)> {
    let operands = passed(arguments, args, common(arguments, args));
    match (result, req) {
        (Some(result), Some(req)) => operands.push((result, req)),
        _ => operands,
    }
}

/// What is required where all of an optional expression is required besides
/// `s`.
pub open spec fn need_opt(
    shader: Module,
    function: Function,
    depth: nat,
    h: Option<usize>,
    s: Live,
) -> Option<Live> {
    match h {
        Some(h) => need_expr(shader, function, depth, h, Req::All, s),
        None => Some(s),
    }
}

/// What is required once the blocks of a required loop have been gone
/// through, with what is required at their ends being `s`, until they require
/// nothing else at their beginnings.
pub open spec fn rounds_flow(
    shader: Module,
    function: Function,
    depth: nat,
    stmt: Statement,
    s: Live,
) -> Option<(Live, StmtNeed)>
    decreases 2 * depth, stmt, 0nat,
{
    match stmt {
        Statement::Loop { body, continuing, .. } => if depth == 0 {
            None
        } else {
            match block_flow(shader, function, depth, body, true, s) {
                Some((s1, body)) => match block_flow(
                    shader,
                    function,
                    depth,
                    continuing,
                    true,
                    s1,
                ) {
                    Some((s2, continuing)) => if s.context.contains(
                        body.context.merge(continuing.context),
                    ) {
                        Some((s2, StmtNeed::Loop { body, continuing, required: true }))
                    } else {
                        rounds_flow(shader, function, (depth - 1) as nat, stmt, s2)
                    },
                    None => None,
                },
                None => None,
            }
        },
        _ => None,
    }
}

/// What is required in front of the last `n` cases of a switch: of the
/// function, in front of each of them and behind the switch, whether one of
/// them is required, and what is required of each, from the last to the
/// first.
pub open spec fn cases_flow(
    shader: Module,
    function: Function,
    depth: nat,
    cases: Seq<SwitchCase>,
    n: nat,
    s: Live,
) -> Option<(Live, Context, bool, Seq<BlockNeed>)>
    decreases 2 * depth, cases, n,
{
    if n == 0 {
        Some((s, s.context, false, Seq::empty()))
    } else if n > cases.len() {
        None
    } else {
        match cases_flow(shader, function, depth, cases, (n - 1) as nat, s) {
            Some((s1, input, required, needs)) => match block_flow(
                shader,
                function,
                depth,
                cases[cases.len() - n].body,
                false,
                s1,
            ) {
                Some((s2, case)) => Some(
                    (
                        s2,
                        input.merge(case.context),
                        required || case.is_required(),
                        needs.push(case),
                    ),
                ),
                None => None,
            },
            None => None,
        }
    }
}

/// What is required once a block has been gone through, and of the block,
/// where `s` is required behind it.
pub open spec fn block_flow(
    shader: Module,
    function: Function,
    depth: nat,
    block: Block,
    scope_required: bool,
    s: Live,
) -> Option<(Live, BlockNeed)>
    decreases 2 * depth, block, 0nat,
{
    match stmts_flow(
        shader,
        function,
        depth,
        block.body@,
        block.body@.len(),
        scope_required,
        s,
    ) {
        Some((s1, stmts, _)) => Some((s1.at(s.context), BlockNeed { stmts, context: s1.context })),
        None => None,
    }
}

/// What is required in front of the last `n` statements where `s` is required
/// behind them, what is required of each, and whether a break in front of
/// them is required.
pub open spec fn stmts_flow(
    shader: Module,
    function: Function,
    depth: nat,
    stmts: Seq<Statement>,
    n: nat,
    scope_required: bool,
    s: Live,
) -> Option<(Live, Seq<StmtNeed>, bool)>
    decreases 2 * depth, stmts, n,
{
    if n == 0 {
        Some((s, Seq::empty(), scope_required))
    } else if n > stmts.len() {
        None
    } else {
        match stmts_flow(shader, function, depth, stmts, (n - 1) as nat, scope_required, s) {
            Some((s1, needs, scope_required)) => match stmt_flow(
                shader,
                function,
                depth,
                stmts[stmts.len() - n],
                scope_required,
                s.context,
                s1,
            ) {
                Some((s2, need)) => Some(
                    (s2, seq![need] + needs, scope_required || need.required()),
                ),
                None => None,
            },
            None => None,
        }
    }
}

/// What is required in front of a function where `globals` and `retval` are
/// required behind it, and `found` of the module already.
pub open spec fn body_flow(
    shader: Module,
    depth: nat,
    function: Function,
    globals: Map<usize, Req>,
    retval: Option<Req>,
    found: Found,
) -> Option<(Found, FnNeed)>
    decreases 2 * depth + 1, shader, 0nat,
{
    let start = Live {
        found,
        exprs: Map::empty(),
        context: Context {
            globals,
            locals: Map::empty(),
            args: Seq::new(function.arguments@.len(), |i: int| None),
            retval,
        },
    };
    match block_flow(shader, function, depth, function.body, false, start) {
        Some((s, body)) => Some((s.found, FnNeed { body, exprs: s.exprs })),
        None => None,
    }
}

/// What two passes through a function together require of it.
pub open spec fn joined(now: Option<FnNeed>, need: FnNeed) -> Option<FnNeed> {
    match now {
        Some(now) => match now.body.add(need.body) {
            Some(body) => Some(FnNeed { body, exprs: merged(now.exprs, need.exprs) }),
            None => None,
        },
        None => Some(need),
    }
}

/// What has been found of a function, if anything.
pub open spec fn fn_at(functions: Map<usize, FnNeed>, h: usize) -> Option<FnNeed> {
    if functions.contains_key(h) {
        Some(functions[h])
    } else {
        None
    }
}

/// What is required of the module where `globals` and `retval` are required
/// behind the function `h`, whether the function is required, and what is
/// required in front of it.
pub open spec fn fn_flow(
    shader: Module,
    depth: nat,
    h: usize,
    globals: Map<usize, Req>,
    retval: Option<Req>,
    found: Found,
) -> Option<(Found, bool, Context)>
    decreases 2 * depth + 1, shader, 1nat,
{
    if h >= shader.functions.len() {
        None
    } else {
        match body_flow(shader, depth, shader.functions[h as int], globals, retval, found) {
            Some((found, need)) => match joined(fn_at(found.functions, h), need) {
                Some(all) => Some(
                    (
                        Found { functions: found.functions.insert(h, all), ..found },
                        need.body.is_required(),
                        need.body.context,
                    ),
                ),
                None => None,
            },
            None => None,
        }
    }
}

/// What is required of the module where `globals` and `retval` are required
/// behind the entry point, what is required of the entry point, and what is
/// required in front of it. `now` is what is required of it already.
pub open spec fn entry_flow(
    shader: Module,
    depth: nat,
    entrypoint: EntryPoint,
    globals: Map<usize, Req>,
    retval: Option<Req>,
    found: Found,
    now: Option<FnNeed>,
) -> Option<(Found, FnNeed, Context)> {
    match body_flow(shader, depth, entrypoint.function, globals, retval, found) {
        Some((found, need)) => match joined(now, need) {
            Some(all) => Some((found, all, need.body.context)),
            None => None,
        },
        None => None,
    }
}

} // verus!
