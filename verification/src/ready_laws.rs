//! When what the analysis has found can be rewritten.
use crate::expr::{all_of, and_all, and_level, demands};
use crate::flow_laws::{
    agrees, all_in, block_agrees, closed, fn_agrees, found_agrees, lemma_all_in_push,
    lemma_stmts_each, operands_in, Seen,
};
use crate::ir::{
    Block, EntryPoint, Expression, Function, ImageQuery, LocalVariable, Module, SampleLevel,
    Statement,
};
use crate::need::{shorter, BlockNeed, FnNeed, StmtNeed};
use crate::part::Req;
use crate::prune::{
    block_rewritable, cases_rewritable, chosen, flagged, in_a_row, local_handles, local_movable,
    prunable, rewritable, stmts_rewritable,
};
use crate::remap::{compacted, has_each, has_handles, lemma_operands, operands, remappable, Handles};
use crate::rewrite::{
    entry_roots, function_roots, kept_functions, module_rewritable, new_handles, roots,
};
use crate::rewrite_laws::{all_below, ordered};
use crate::uses::{
    and_constant, and_expr, and_exprs, and_function, and_locals, and_result, argument_items,
    complete, exists_in, lemma_root_needed, Item,
};
use vstd::prelude::*;

verus! {

/// The operands of a required expression are among what it demands, where it
/// is no composed value.
proof fn lemma_demands_operands(
    expr: Expression,
    part: Req,
    exprs: Map<usize, Req>,
    map: Map<usize, usize>,
)
    requires
        !(expr is Compose),
        demands(expr, part) is Some,
        all_in(demands(expr, part)->0, exprs),
        forall|h: usize|
            exprs.contains_key(h) && operands(expr).contains(h) ==> #[trigger] map.contains_key(h),
    ensures
        has_each(map, operands(expr)),
{
    let wanted = demands(expr, part)->0;
    let here = Map::<usize, usize>::new(|h: usize| exprs.contains_key(h), |h: usize| h);
    lemma_operands(expr, here);
    match expr {
        Expression::Access { base, index } => {
            assert(wanted[0].0 == base);
            assert(wanted[1].0 == index);
        },
        Expression::AccessIndex { base, .. } => {
            assert(wanted[0].0 == base);
        },
        Expression::Splat { value, .. } => {
            assert(wanted[0].0 == value);
        },
        Expression::Swizzle { vector, .. } => {
            assert(wanted[0].0 == vector);
        },
        Expression::Load { pointer } => {
            assert(wanted[0].0 == pointer);
        },
        Expression::ImageSample {
            image,
            sampler,
            coordinate,
            array_index,
            level,
            depth_ref,
            ..
        } => {
            let first = all_of(seq![image, sampler, coordinate]);
            let second = and_all(first, array_index);
            let third = and_level(second, level);
            lemma_all_in_opt(third, depth_ref, exprs);
            match level {
                SampleLevel::Exact(e) => lemma_all_in_push(second, e, Req::All, exprs),
                SampleLevel::Bias(e) => lemma_all_in_push(second, e, Req::All, exprs),
                SampleLevel::Gradient { x, y } => {
                    lemma_all_in_push(second, x, Req::All, exprs);
                    lemma_all_in_push(second.push((x, Req::All)), y, Req::All, exprs);
                },
                _ => {},
            }
            lemma_all_in_opt(first, array_index, exprs);
            assert(first[0].0 == image);
            assert(first[1].0 == sampler);
            assert(first[2].0 == coordinate);
        },
        Expression::ImageLoad { image, coordinate, array_index, sample, level } => {
            let first = all_of(seq![image, coordinate]);
            let second = and_all(first, array_index);
            let third = and_all(second, sample);
            lemma_all_in_opt(third, level, exprs);
            lemma_all_in_opt(second, sample, exprs);
            lemma_all_in_opt(first, array_index, exprs);
            assert(first[0].0 == image);
            assert(first[1].0 == coordinate);
        },
        Expression::ImageQuery { image, query } => {
            let first = all_of(seq![image]);
            let level = match query {
                ImageQuery::Size { level } => level,
                _ => None,
            };
            lemma_all_in_opt(first, level, exprs);
            assert(first[0].0 == image);
        },
        Expression::Unary { expr, .. } => {
            assert(wanted[0].0 == expr);
        },
        Expression::Binary { left, right, .. } => {
            assert(wanted[0].0 == left);
            assert(wanted[1].0 == right);
        },
        Expression::Select { condition, accept, reject } => {
            assert(wanted[0].0 == condition);
            assert(wanted[1].0 == accept);
            assert(wanted[2].0 == reject);
        },
        Expression::Derivative { expr, .. } => {
            assert(wanted[0].0 == expr);
        },
        Expression::Relational { argument, .. } => {
            assert(wanted[0].0 == argument);
        },
        Expression::Math { arg, arg1, arg2, arg3, .. } => {
            let first = all_of(seq![arg]);
            let second = and_all(first, arg1);
            let third = and_all(second, arg2);
            lemma_all_in_opt(third, arg3, exprs);
            lemma_all_in_opt(second, arg2, exprs);
            lemma_all_in_opt(first, arg1, exprs);
            assert(first[0].0 == arg);
        },
        Expression::As { expr, .. } => {
            assert(wanted[0].0 == expr);
        },
        Expression::ArrayLength(expr) => {
            assert(wanted[0].0 == expr);
        },
        _ => {},
    }
    assert(has_each(here, operands(expr)));
    assert forall|i: int| 0 <= i < operands(expr).len() implies map.contains_key(
        #[trigger] operands(expr)[i],
    ) by {
        assert(here.contains_key(operands(expr)[i]));
        assert(operands(expr).contains(operands(expr)[i]));
    }
}

/// One optional demand more.
proof fn lemma_all_in_opt(demands: Seq<(usize, Req)>, h: Option<usize>, exprs: Map<usize, Req>)
    ensures
        all_in(and_all(demands, h), exprs) <==> all_in(demands, exprs) && (h is Some
            ==> exprs.contains_key(h->0)),
{
    if let Some(h) = h {
        lemma_all_in_push(demands, h, Req::All, exprs);
    }
}

/// A required expression finds its operands among the kept expressions before
/// it, where it stands behind its operands and is no composed value.
pub proof fn law_operands_kept(function: Function, exprs: Map<usize, Req>, h: usize)
    requires
        closed(function, exprs),
        ordered(function.expressions@),
        exprs.contains_key(h),
        !(function.expressions@[h as int] is Compose),
    ensures
        has_each(compacted(exprs.dom(), h as nat), operands(function.expressions@[h as int])),
{
    let expr = function.expressions@[h as int];
    assert(operands_in(function, exprs, h));
    let map = compacted(exprs.dom(), h as nat);
    assert forall|g: usize| exprs.contains_key(g) && operands(expr).contains(g) implies #[trigger]
        map.contains_key(g) by {
        let i = choose|i: int| 0 <= i < operands(expr).len() && operands(expr)[i] == g;
        assert(all_below(operands(expr), h as nat));
        assert(operands(expr)[i] < h);
    }
    lemma_demands_operands(expr, exprs[h], exprs, map);
}

/// Whether the statement can be rewritten as far as the analysis does not see
/// to it: the kept expressions of an emit statement follow one another, the
/// arguments of a required call are required, and what is required of the
/// cases of a switch fits the cases in their order.
pub open spec fn stmt_ready(
    stmt: Statement,
    need: StmtNeed,
    exprs: Map<usize, usize>,
    functions: Map<usize, usize>,
) -> bool
    decreases stmt,
{
    match (stmt, need) {
        (Statement::Emit(range), StmtNeed::Emit(flags)) => chosen(
            range.start,
            flags,
            exprs,
            flagged(range, flags),
        ) matches Some(handles) ==> in_a_row(handles),
        (Statement::Block(block), StmtNeed::BlockStmt(need)) => block_ready(
            block,
            need,
            exprs,
            functions,
        ),
        (
            Statement::If { accept, reject, .. },
            StmtNeed::If { condition: required, accept: accept_need, reject: reject_need },
        ) => required ==> block_ready(accept, accept_need, exprs, functions) && block_ready(
            reject,
            reject_need,
            exprs,
            functions,
        ),
        (
            Statement::Switch { cases, .. },
            StmtNeed::Switch { selector: required, cases: needs },
        ) => required ==> cases_rewritable(
            cases@,
            needs,
            shorter(cases@.len(), needs.len()),
            exprs,
            functions,
        ),
        (
            Statement::Loop { body, continuing, .. },
            StmtNeed::Loop { body: body_need, continuing: continuing_need, required },
        ) => required ==> block_ready(body, body_need, exprs, functions) && block_ready(
            continuing,
            continuing_need,
            exprs,
            functions,
        ),
        (Statement::Call { arguments, .. }, StmtNeed::Call { call_required, .. }) => {
            call_required ==> has_each(exprs, arguments@)
        },
        _ => true,
    }
}

/// The same of the first `n` statements.
pub open spec fn stmts_ready(
    stmts: Seq<Statement>,
    needs: Seq<StmtNeed>,
    n: nat,
    exprs: Map<usize, usize>,
    functions: Map<usize, usize>,
) -> bool
    decreases stmts, n,
{
    if n == 0 || n > stmts.len() {
        true
    } else {
        stmts_ready(stmts, needs, (n - 1) as nat, exprs, functions) && stmt_ready(
            stmts[n - 1],
            needs[n - 1],
            exprs,
            functions,
        )
    }
}

/// The same of a block.
pub open spec fn block_ready(
    block: Block,
    need: BlockNeed,
    exprs: Map<usize, usize>,
    functions: Map<usize, usize>,
) -> bool
    decreases block,
{
    stmts_ready(
        block.body@,
        need.stmts,
        shorter(block.body@.len(), need.stmts.len()),
        exprs,
        functions,
    )
}

/// Whether an expression can be rewritten as far as the analysis does not see
/// to it: of a composed value a component is required that stands before it, a
/// local variable is required in front of the function, and the function of a
/// call is kept.
pub open spec fn expr_ready(
    expr: Expression,
    locals: Map<usize, usize>,
    exprs: Map<usize, usize>,
    functions: Map<usize, usize>,
) -> bool {
    match expr {
        Expression::Compose { components, .. } => exists|i: int|
            0 <= i < components@.len() && exprs.contains_key(#[trigger] components@[i]),
        Expression::LocalVariable(lv) => locals.contains_key(lv),
        Expression::CallResult(f) => functions.contains_key(f),
        _ => true,
    }
}

/// Whether a function can be pruned as far as the analysis does not see to it.
pub open spec fn fn_ready(
    need: FnNeed,
    function: Function,
    functions: Map<usize, usize>,
) -> bool {
    &&& ordered(function.expressions@)
    &&& forall|h: usize| #[trigger]
        need.exprs.contains_key(h) ==> expr_ready(
            function.expressions@[h as int],
            local_handles(need, function),
            compacted(need.exprs.dom(), h as nat),
            functions,
        )
    &&& block_ready(
        function.body,
        need.body,
        compacted(need.exprs.dom(), function.expressions@.len()),
        functions,
    )
}

/// The expressions of an emit statement that are flagged are kept.
proof fn lemma_chosen_found(
    start: usize,
    flags: Seq<bool>,
    exprs: Map<usize, usize>,
    n: nat,
)
    requires
        n <= flags.len(),
        forall|i: int|
            0 <= i < n && #[trigger] flags[i] ==> exprs.contains_key((start + i) as usize),
    ensures
        chosen(start, flags, exprs, n) is Some,
    decreases n,
{
    if n > 0 {
        lemma_chosen_found(start, flags, exprs, (n - 1) as nat);
    }
}

/// What is required of a statement, and about it, can be rewritten where the
/// statement is ready.
proof fn lemma_stmt_rewritable(
    stmt: Statement,
    need: StmtNeed,
    retval: bool,
    seen: Seen,
    map: Map<usize, usize>,
    functions: Map<usize, usize>,
)
    requires
        agrees(stmt, need, retval, seen),
        stmt_ready(stmt, need, map, functions),
        forall|h: usize| #[trigger] seen.exprs.contains_key(h) ==> map.contains_key(h),
        forall|h: usize| #[trigger] seen.kept.contains(h) ==> functions.contains_key(h),
    ensures
        rewritable(stmt, need, retval, map, functions),
    decreases stmt, 0nat,
{
    match (stmt, need) {
        (Statement::Emit(range), StmtNeed::Emit(flags)) => {
            lemma_chosen_found(range.start, flags, map, flagged(range, flags));
        },
        (Statement::Block(block), StmtNeed::BlockStmt(need)) => {
            lemma_block_rewritable(block, need, seen, map, functions);
        },
        (
            Statement::If { accept, reject, .. },
            StmtNeed::If { condition: required, accept: accept_need, reject: reject_need },
        ) => {
            if required {
                lemma_block_rewritable(accept, accept_need, seen, map, functions);
                lemma_block_rewritable(reject, reject_need, seen, map, functions);
            }
        },
        (
            Statement::Loop { body, continuing, .. },
            StmtNeed::Loop { body: body_need, continuing: continuing_need, required },
        ) => {
            if required {
                lemma_block_rewritable(body, body_need, seen, map, functions);
                lemma_block_rewritable(continuing, continuing_need, seen, map, functions);
            }
        },
        _ => {},
    }
}

/// The same of the first `n` statements.
proof fn lemma_stmts_rewritable(
    stmts: Seq<Statement>,
    needs: Seq<StmtNeed>,
    n: nat,
    retval: bool,
    seen: Seen,
    map: Map<usize, usize>,
    functions: Map<usize, usize>,
)
    requires
        n <= stmts.len(),
        needs.len() == stmts.len(),
        forall|i: int| 0 <= i < stmts.len() ==> agrees(stmts[i], #[trigger] needs[i], retval, seen),
        stmts_ready(stmts, needs, n, map, functions),
        forall|h: usize| #[trigger] seen.exprs.contains_key(h) ==> map.contains_key(h),
        forall|h: usize| #[trigger] seen.kept.contains(h) ==> functions.contains_key(h),
    ensures
        stmts_rewritable(stmts, needs, n, retval, map, functions),
    decreases stmts, n,
{
    if n > 0 {
        lemma_stmts_rewritable(stmts, needs, (n - 1) as nat, retval, seen, map, functions);
        assert(agrees(stmts[n - 1], needs[n - 1], retval, seen));
        lemma_stmt_rewritable(stmts[n - 1], needs[n - 1], retval, seen, map, functions);
    }
}

/// The same of a block.
proof fn lemma_block_rewritable(
    block: Block,
    need: BlockNeed,
    seen: Seen,
    map: Map<usize, usize>,
    functions: Map<usize, usize>,
)
    requires
        block_agrees(block, need, seen),
        block_ready(block, need, map, functions),
        forall|h: usize| #[trigger] seen.exprs.contains_key(h) ==> map.contains_key(h),
        forall|h: usize| #[trigger] seen.kept.contains(h) ==> functions.contains_key(h),
    ensures
        block_rewritable(block, need, map, functions),
    decreases block, 0nat,
{
    let stmts = block.body@;
    let retval = need.context.retval is Some;
    lemma_stmts_each(stmts, need.stmts, stmts.len(), retval, seen);
    lemma_stmts_rewritable(stmts, need.stmts, stmts.len(), retval, seen, map, functions);
}

/// Each of `items` is still there when more is put behind it.
proof fn lemma_kept_push(items: Seq<Item>, more: Item)
    ensures
        items.push(more).contains(more),
        forall|item: Item| #[trigger] items.contains(item) ==> items.push(more).contains(item),
{
    let longer = items.push(more);
    assert(longer[items.len() as int] == more);
    assert forall|item: Item| #[trigger] items.contains(item) implies longer.contains(item) by {
        let i = choose|i: int| 0 <= i < items.len() && items[i] == item;
        assert(longer[i] == item);
    }
}

/// The same of an optional constant.
proof fn lemma_kept_constant(items: Seq<Item>, constant: Option<usize>)
    ensures
        constant is Some ==> and_constant(items, constant).contains(Item::Constant(constant->0)),
        forall|item: Item| #[trigger]
            items.contains(item) ==> and_constant(items, constant).contains(item),
{
    if let Some(c) = constant {
        lemma_kept_push(items, Item::Constant(c));
    }
}

/// What is used by the required local variables is used.
proof fn lemma_kept_locals(
    items: Seq<Item>,
    locals: Seq<LocalVariable>,
    required: Set<usize>,
    n: nat,
)
    requires
        n <= locals.len() <= usize::MAX,
    ensures
        forall|item: Item| #[trigger]
            items.contains(item) ==> and_locals(items, locals, required, n).contains(item),
        forall|h: usize|
            h < n && #[trigger] required.contains(h) ==> {
                let all = and_locals(items, locals, required, n);
                &&& all.contains(Item::Type(locals[h as int].ty))
                &&& locals[h as int].init is Some ==> all.contains(
                    Item::Constant(locals[h as int].init->0),
                )
            },
    decreases n,
{
    if n > 0 {
        let m = (n - 1) as nat;
        lemma_kept_locals(items, locals, required, m);
        let before = and_locals(items, locals, required, m);
        let ty = Item::Type(locals[m as int].ty);
        lemma_kept_push(before, ty);
        lemma_kept_constant(before.push(ty), locals[m as int].init);
    }
}

/// What an expression uses is used.
proof fn lemma_kept_expr(items: Seq<Item>, expr: Expression)
    ensures
        forall|item: Item| #[trigger] items.contains(item) ==> and_expr(items, expr).contains(item),
        forall|item: Item| #[trigger]
            and_expr(Seq::empty(), expr).contains(item) ==> and_expr(items, expr).contains(item),
{
    match expr {
        Expression::Constant(c) => {
            lemma_kept_push(items, Item::Constant(c));
        },
        Expression::Compose { ty, .. } => {
            lemma_kept_push(items, Item::Type(ty));
        },
        Expression::GlobalVariable(gv) => {
            lemma_kept_push(items, Item::Global(gv));
        },
        Expression::ImageSample { offset, .. } => {
            lemma_kept_constant(items, offset);
        },
        _ => {},
    }
}

/// What is used by the required expressions is used.
proof fn lemma_kept_exprs(
    items: Seq<Item>,
    exprs: Seq<Expression>,
    required: Set<usize>,
    n: nat,
)
    requires
        n <= exprs.len() <= usize::MAX,
    ensures
        forall|item: Item| #[trigger]
            items.contains(item) ==> and_exprs(items, exprs, required, n).contains(item),
        forall|h: usize, item: Item|
            h < n && #[trigger] required.contains(h) && #[trigger] and_expr(
                Seq::empty(),
                exprs[h as int],
            ).contains(item) ==> and_exprs(items, exprs, required, n).contains(item),
    decreases n,
{
    if n > 0 {
        let m = (n - 1) as nat;
        lemma_kept_exprs(items, exprs, required, m);
        let before = and_exprs(items, exprs, required, m);
        lemma_kept_expr(before, exprs[m as int]);
    }
}

/// What a function uses once it has been pruned is used.
proof fn lemma_kept_function(items: Seq<Item>, need: FnNeed, function: Function)
    ensures
        ({
            let all = and_function(items, need, function);
            &&& forall|item: Item| #[trigger] items.contains(item) ==> all.contains(item)
            &&& forall|i: int|
                0 <= i < function.arguments@.len() ==> all.contains(
                    Item::Type((#[trigger] function.arguments@[i]).ty),
                )
            &&& need.body.context.retval is Some && function.result is Some ==> all.contains(
                Item::Type(function.result->0.ty),
            )
            &&& forall|h: usize|
                h < function.local_variables@.len() && #[trigger]
                    need.body.context.locals.dom().contains(h) ==> {
                    let local = function.local_variables@[h as int];
                    &&& all.contains(Item::Type(local.ty))
                    &&& local.init is Some ==> all.contains(Item::Constant(local.init->0))
                }
            &&& forall|h: usize, item: Item|
                h < function.expressions@.len() && #[trigger] need.exprs.dom().contains(h)
                    && #[trigger] and_expr(
                    Seq::empty(),
                    function.expressions@[h as int],
                ).contains(item) ==> all.contains(item)
        }),
{
    let arguments = argument_items(function.arguments@);
    let of_arguments = items + arguments;
    assert forall|item: Item| #[trigger] items.contains(item) implies of_arguments.contains(
        item,
    ) by {
        let i = choose|i: int| 0 <= i < items.len() && items[i] == item;
        assert(of_arguments[i] == item);
    }
    assert forall|i: int| 0 <= i < function.arguments@.len() implies of_arguments.contains(
        Item::Type((#[trigger] function.arguments@[i]).ty),
    ) by {
        assert(of_arguments[items.len() + i] == Item::Type(function.arguments@[i].ty));
    }
    let result = if need.body.context.retval is Some {
        function.result
    } else {
        None
    };
    let of_result = and_result(of_arguments, result);
    if let Some(result) = result {
        lemma_kept_push(of_arguments, Item::Type(result.ty));
    }
    let locals = function.local_variables@;
    assert(locals.len() == function.local_variables.len());
    lemma_kept_locals(of_result, locals, need.body.context.locals.dom(), locals.len());
    let of_locals = and_locals(
        of_result,
        locals,
        need.body.context.locals.dom(),
        locals.len(),
    );
    let exprs = function.expressions@;
    assert(exprs.len() == function.expressions.len());
    lemma_kept_exprs(of_locals, exprs, need.exprs.dom(), exprs.len());
}

/// What the analysis has found of a function can be pruned, where the function
/// is ready and what it uses of the module has new handles.
pub proof fn law_ready_prunable(
    items: Seq<Item>,
    need: FnNeed,
    function: Function,
    handles: Handles,
    kept: Set<usize>,
)
    requires
        fn_agrees(function, need, kept),
        fn_ready(need, function, handles.functions),
        handles.has_all(and_function(items, need, function)),
        forall|h: usize| #[trigger] kept.contains(h) ==> handles.functions.contains_key(h),
    ensures
        prunable(need, function, handles),
{
    let all = and_function(items, need, function);
    let required = need.exprs.dom();
    let locals = local_handles(need, function);
    let n = function.expressions@.len();
    lemma_kept_function(items, need, function);
    assert forall|i: int| 0 <= i < function.arguments@.len() implies handles.types.contains_key(
        (#[trigger] function.arguments@[i]).ty,
    ) by {
        assert(handles.has(Item::Type(function.arguments@[i].ty)));
    }
    if need.body.context.retval is Some && function.result is Some {
        assert(handles.has(Item::Type(function.result->0.ty)));
    }
    assert forall|h: usize|
        h < function.local_variables@.len() && #[trigger] need.body.context.locals.dom().contains(
            h,
        ) implies local_movable(function.local_variables@[h as int], handles) by {
        let local = function.local_variables@[h as int];
        assert(handles.has(Item::Type(local.ty)));
        if local.init is Some {
            assert(handles.has(Item::Constant(local.init->0)));
        }
    }
    assert forall|h: usize| h < n && #[trigger] required.contains(h) implies remappable(
        function.expressions@[h as int],
        handles,
        locals,
        compacted(required, h as nat),
    ) by {
        let expr = function.expressions@[h as int];
        assert(need.exprs.contains_key(h));
        let used = and_expr(Seq::<Item>::empty(), expr);
        assert forall|item: Item| #[trigger] used.contains(item) implies handles.has(item) by {
            assert(all.contains(item));
        }
        match expr {
            Expression::Constant(c) => {
                assert(used[0] == Item::Constant(c) && used.contains(used[0]));
            },
            Expression::Compose { ty, .. } => {
                assert(used[0] == Item::Type(ty) && used.contains(used[0]));
            },
            Expression::GlobalVariable(gv) => {
                assert(used[0] == Item::Global(gv) && used.contains(used[0]));
            },
            Expression::ImageSample { offset, .. } => {
                if let Some(c) = offset {
                    assert(used[0] == Item::Constant(c) && used.contains(used[0]));
                }
            },
            _ => {},
        }
        assert(has_handles(expr, handles));
        if !(expr is Compose) {
            law_operands_kept(function, need.exprs, h);
        }
    }
    let map = compacted(required, n);
    assert forall|h: usize| #[trigger] need.exprs.contains_key(h) implies map.contains_key(h) by {
        assert(operands_in(function, need.exprs, h));
    }
    lemma_block_rewritable(
        function.body,
        need.body,
        Seen { exprs: need.exprs, kept },
        map,
        handles.functions,
    );
}

/// The roots of a kept function are among all roots.
proof fn lemma_function_roots(
    functions: Map<usize, FnNeed>,
    source: Seq<Function>,
    h: usize,
    n: nat,
)
    requires
        h < n <= source.len() <= usize::MAX,
        kept_functions(functions).contains(h),
    ensures
        forall|item: Item| #[trigger]
            and_function(
                function_roots(functions, source, h as nat),
                functions[h],
                source[h as int],
            ).contains(item) ==> function_roots(functions, source, n).contains(item),
    decreases n,
{
    if h < n - 1 {
        lemma_function_roots(functions, source, h, (n - 1) as nat);
        let m = (n - 1) as usize;
        lemma_kept_function(
            function_roots(functions, source, m as nat),
            functions[m],
            source[m as int],
        );
    }
}

/// Roots stay roots when those of entry points are put behind them.
proof fn lemma_entry_roots_keep(
    items: Seq<Item>,
    entries: Map<Seq<char>, FnNeed>,
    source: Seq<EntryPoint>,
    k: nat,
    n: nat,
)
    requires
        k <= n <= source.len(),
    ensures
        forall|item: Item| #[trigger]
            entry_roots(items, entries, source, k).contains(item) ==> entry_roots(
                items,
                entries,
                source,
                n,
            ).contains(item),
    decreases n,
{
    if k < n {
        lemma_entry_roots_keep(items, entries, source, k, (n - 1) as nat);
        let before = entry_roots(items, entries, source, (n - 1) as nat);
        let entry = source[n - 1];
        lemma_kept_function(before, entries[entry.name@], entry.function);
    }
}

/// Roots that are complete have new handles.
proof fn lemma_roots_kept(
    functions: Map<usize, FnNeed>,
    entries: Map<Seq<char>, FnNeed>,
    source: Module,
    items: Seq<Item>,
)
    requires
        complete(source, roots(functions, entries, source)),
        forall|item: Item| #[trigger]
            items.contains(item) ==> roots(functions, entries, source).contains(item),
    ensures
        new_handles(functions, entries, source).has_all(items),
{
    let all = roots(functions, entries, source);
    assert forall|item: Item| #[trigger] items.contains(item) implies new_handles(
        functions,
        entries,
        source,
    ).has(item) by {
        lemma_root_needed(source, all, item);
        assert(exists_in(source, item));
    }
}

/// What the analysis has found can be rewritten, where the module has all that
/// is left uses, and the kept functions and entry points are ready.
pub proof fn law_ready_rewritable(
    functions: Map<usize, FnNeed>,
    entries: Map<Seq<char>, FnNeed>,
    source: Module,
)
    requires
        complete(source, roots(functions, entries, source)),
        found_agrees(source, functions),
        forall|h: usize|
            h < source.functions@.len() && #[trigger] kept_functions(functions).contains(h)
                ==> fn_ready(
                functions[h],
                source.functions@[h as int],
                new_handles(functions, entries, source).functions,
            ),
        forall|i: int|
            0 <= i < source.entry_points@.len() && entries.contains_key(
                (#[trigger] source.entry_points@[i]).name@,
            ) ==> {
                let need = entries[source.entry_points@[i].name@];
                let function = source.entry_points@[i].function;
                &&& fn_agrees(function, need, kept_functions(functions))
                &&& fn_ready(
                    need,
                    function,
                    new_handles(functions, entries, source).functions,
                )
            },
    ensures
        module_rewritable(functions, entries, source),
{
    let handles = new_handles(functions, entries, source);
    let fns = source.functions@;
    let eps = source.entry_points@;
    assert(fns.len() == source.functions.len());
    let kept = kept_functions(functions);
    assert forall|h: usize| #[trigger] kept.contains(h) implies handles.functions.contains_key(
        h,
    ) by {
        assert(functions.contains_key(h));
    }
    let of_functions = function_roots(functions, fns, fns.len());
    lemma_entry_roots_keep(of_functions, entries, eps, 0, eps.len());
    assert(entry_roots(of_functions, entries, eps, 0) == of_functions);
    assert forall|h: usize|
        h < fns.len() && #[trigger] kept_functions(functions).contains(h) implies prunable(
        functions[h],
        fns[h as int],
        handles,
    ) by {
        let before = function_roots(functions, fns, h as nat);
        lemma_function_roots(functions, fns, h, fns.len());
        lemma_roots_kept(
            functions,
            entries,
            source,
            and_function(before, functions[h], fns[h as int]),
        );
        assert(functions.contains_key(h));
        law_ready_prunable(before, functions[h], fns[h as int], handles, kept);
    }
    assert forall|i: int|
        0 <= i < eps.len() && entries.contains_key((#[trigger] eps[i]).name@) implies prunable(
        entries[eps[i].name@],
        eps[i].function,
        handles,
    ) by {
        let need = entries[eps[i].name@];
        let before = entry_roots(of_functions, entries, eps, i as nat);
        lemma_entry_roots_keep(of_functions, entries, eps, (i + 1) as nat, eps.len());
        assert(entry_roots(of_functions, entries, eps, (i + 1) as nat) == and_function(
            before,
            need,
            eps[i].function,
        ));
        lemma_roots_kept(
            functions,
            entries,
            source,
            and_function(before, need, eps[i].function),
        );
        law_ready_prunable(before, need, eps[i].function, handles, kept);
    }
}

} // verus!
