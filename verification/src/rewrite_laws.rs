//! Laws of rewriting: what is left is well formed, and no larger than before.
use crate::derive::{handles_for, lemma_has_used, moved_members, moved_size, type_moved};
use crate::ir::{
    ArraySize, Block, Constant, EntryPoint, Expression, Function, GlobalVariable, Module, Statement,
    StructMember, SwitchCase, Type, TypeInner,
};
use crate::need::{shorter, BlockNeed, FnNeed, StmtNeed};
use crate::prune::{
    any_flag, block_rewritable, block_rewritten, cases_rewritable, cases_rewritten, chosen, flagged,
    kept, local_handles, local_movable, moved_locals, prunable, pruned, rewritable, rewritten,
    stmts_rewritable, stmts_rewritten,
};
use crate::remap::{
    compacted, first_good, has_each, lemma_compacted, lemma_kept_of, lemma_operands, lemma_rank,
    moved, operands, rank, remappable, remapped, Handles,
};
use crate::rewrite::{
    entry_roots, function_roots, kept_entries, kept_functions, module_rewritable, module_rewritten,
    new_handles, roots,
};
use crate::uses::{
    and_size, constant_items, exists_in, global_items, items_of, kept_for, needed, reached,
    type_items, Item,
};
use vstd::prelude::*;

verus! {

/// Whether each of the handles is less than `n`.
pub open spec fn all_below(handles: Seq<usize>, n: nat) -> bool {
    forall|i: int| 0 <= i < handles.len() ==> #[trigger] handles[i] < n
}

/// Whether an optional handle is less than `n`.
pub open spec fn opt_below(h: Option<usize>, n: nat) -> bool {
    h is Some ==> h->0 < n
}

/// Whether each expression stands behind its operands.
pub open spec fn ordered(exprs: Seq<Expression>) -> bool {
    forall|h: int| 0 <= h < exprs.len() ==> all_below(operands(#[trigger] exprs[h]), h as nat)
}

/// New handles of operands are below the bound of all new handles.
proof fn lemma_moved_below(expr: Expression, handles: Handles, exprs: Map<usize, usize>, n: nat)
    requires
        !(expr is Compose),
        !(expr is LocalVariable),
        has_each(exprs, operands(expr)),
        forall|h: usize| #[trigger] exprs.contains_key(h) ==> exprs[h] < n,
    ensures
        all_below(operands(moved(expr, handles, exprs)), n),
{
    let bound = Map::<usize, usize>::new(|h: usize| h < n, |h: usize| h);
    let new = moved(expr, handles, exprs);
    lemma_operands(expr, exprs);
    lemma_operands(new, bound);
    assert(forall|h: usize| #[trigger] exprs.contains_key(h) ==> bound.contains_key(exprs[h]));
    assert(has_each(bound, operands(new)));
    assert forall|i: int| 0 <= i < operands(new).len() implies #[trigger] operands(new)[i] < n by {
        assert(bound.contains_key(operands(new)[i]));
    }
}

/// The new handle of a component of a composed value is one of the new
/// handles.
proof fn lemma_first_good_below(map: Map<usize, usize>, handles: Seq<usize>, k: nat, n: nat)
    requires
        k <= handles.len(),
        forall|h: usize| #[trigger] map.contains_key(h) ==> map[h] < n,
    ensures
        first_good(map, handles, k) matches Some(good) ==> good < n,
    decreases k,
{
    if k > 0 {
        lemma_first_good_below(map, handles, (k - 1) as nat, n);
    }
}

/// In a pruned function each expression stands behind its operands.
pub proof fn law_pruned_ordered(
    need: FnNeed,
    function: Function,
    handles: Handles,
    new: Function,
)
    requires
        prunable(need, function, handles),
        pruned(need, function, handles, new),
    ensures
        ordered(new.expressions@),
{
    let required = need.exprs.dom();
    let total = function.expressions@.len();
    let locals = local_handles(need, function);
    assert(total == function.expressions.len());
    assert forall|k: int| 0 <= k < new.expressions@.len() implies all_below(
        operands(#[trigger] new.expressions@[k]),
        k as nat,
    ) by {
        let h = lemma_ranked(required, total, k as nat);
        let expr = function.expressions@[h as int];
        let exprs = compacted(required, h as nat);
        lemma_compacted(required, h as nat);
        assert(required.contains(h));
        assert(remappable(expr, handles, locals, exprs));
        assert(remapped(expr, handles, locals, exprs, new.expressions@[k]));
        match expr {
            Expression::Compose { ty, components } => {
                lemma_first_good_below(exprs, components@, components@.len(), k as nat);
            },
            Expression::LocalVariable(_) => {},
            _ => lemma_moved_below(expr, handles, exprs, k as nat),
        }
    }
}

/// The handle that a new handle stands for.
proof fn lemma_ranked(kept: Set<usize>, n: nat, k: nat) -> (h: usize)
    requires
        n <= usize::MAX,
        k < rank(kept, n),
    ensures
        h < n,
        kept.contains(h),
        rank(kept, h as nat) == k,
    decreases n,
{
    if kept.contains((n - 1) as usize) && rank(kept, (n - 1) as nat) == k {
        (n - 1) as usize
    } else {
        lemma_ranked(kept, (n - 1) as nat, k)
    }
}

/// A pruned function has no more arguments, local variables and expressions
/// than before.
pub proof fn law_pruned_no_larger(
    need: FnNeed,
    function: Function,
    handles: Handles,
    new: Function,
)
    requires
        pruned(need, function, handles, new),
    ensures
        new.arguments@.len() == function.arguments@.len(),
        new.local_variables@.len() <= function.local_variables@.len(),
        new.expressions@.len() <= function.expressions@.len(),
        new.body.body@.len() <= function.body.body@.len(),
{
    let locals = need.body.context.locals.dom();
    assert(function.local_variables@.len() == function.local_variables.len());
    lemma_kept_of(
        moved_locals(function.local_variables@, handles),
        locals,
        function.local_variables@.len(),
    );
    lemma_rank(locals, 0, function.local_variables@.len());
    lemma_rank(need.exprs.dom(), 0, function.expressions@.len());
    lemma_stmts_no_more(
        function.body.body@,
        need.body.stmts,
        shorter(function.body.body@.len(), need.body.stmts.len()),
        need.body.context.retval is Some,
        compacted(need.exprs.dom(), function.expressions@.len()),
        handles.functions,
        new.body.body@,
    );
}

/// No more statements are left than there were.
proof fn lemma_stmts_no_more(
    stmts: Seq<Statement>,
    needs: Seq<StmtNeed>,
    n: nat,
    retval: bool,
    exprs: Map<usize, usize>,
    functions: Map<usize, usize>,
    new: Seq<Statement>,
)
    requires
        stmts_rewritten(stmts, needs, n, retval, exprs, functions, new),
        n <= stmts.len(),
    ensures
        new.len() <= n,
    decreases n,
{
    if n > 0 {
        if kept(stmts[n - 1], needs[n - 1]) {
            lemma_stmts_no_more(
                stmts,
                needs,
                (n - 1) as nat,
                retval,
                exprs,
                functions,
                new.drop_last(),
            );
        } else {
            lemma_stmts_no_more(stmts, needs, (n - 1) as nat, retval, exprs, functions, new);
        }
    }
}

/// Whether the handles in a statement are below `exprs`, those of expressions,
/// and `functions`, those of functions. The handle in an atomic exchange is
/// left out of account.
pub open spec fn stmt_below(stmt: Statement, exprs: nat, functions: nat) -> bool
    decreases stmt,
{
    match stmt {
        Statement::Emit(range) => range.start <= range.end <= exprs,
        Statement::Block(block) => block_below(block, exprs, functions),
        Statement::If { condition, accept, reject } => condition < exprs && block_below(
            accept,
            exprs,
            functions,
        ) && block_below(reject, exprs, functions),
        Statement::Switch { selector, cases } => selector < exprs && cases_below(
            cases@,
            cases@.len(),
            exprs,
            functions,
        ),
        Statement::Loop { body, continuing, break_if } => block_below(body, exprs, functions)
            && block_below(continuing, exprs, functions) && opt_below(break_if, exprs),
        Statement::Return { value } => opt_below(value, exprs),
        Statement::Store { pointer, value } => pointer < exprs && value < exprs,
        Statement::ImageStore { image, coordinate, array_index, value } => image < exprs
            && coordinate < exprs && opt_below(array_index, exprs) && value < exprs,
        Statement::Atomic { pointer, value, result, .. } => pointer < exprs && value < exprs
            && result < exprs,
        Statement::Call { function, arguments, result } => function < functions && all_below(
            arguments@,
            exprs,
        ) && opt_below(result, exprs),
        _ => true,
    }
}

/// The same of the first `n` statements.
pub open spec fn stmts_below(stmts: Seq<Statement>, n: nat, exprs: nat, functions: nat) -> bool
    decreases stmts, n,
{
    if n == 0 || n > stmts.len() {
        true
    } else {
        stmts_below(stmts, (n - 1) as nat, exprs, functions) && stmt_below(
            stmts[n - 1],
            exprs,
            functions,
        )
    }
}

/// The same of a block.
pub open spec fn block_below(block: Block, exprs: nat, functions: nat) -> bool
    decreases block,
{
    stmts_below(block.body@, block.body@.len(), exprs, functions)
}

/// The same of the first `n` cases.
pub open spec fn cases_below(cases: Seq<SwitchCase>, n: nat, exprs: nat, functions: nat) -> bool
    decreases cases, n,
{
    if n == 0 || n > cases.len() {
        true
    } else {
        cases_below(cases, (n - 1) as nat, exprs, functions) && block_below(
            cases[n - 1].body,
            exprs,
            functions,
        )
    }
}

/// Whether new handles are below a bound.
pub open spec fn values_below(map: Map<usize, usize>, n: nat) -> bool {
    forall|h: usize| #[trigger] map.contains_key(h) ==> map[h] < n
}

/// Handles that are chosen are below the bound of all new handles.
proof fn lemma_chosen_below(
    start: usize,
    flags: Seq<bool>,
    exprs: Map<usize, usize>,
    k: nat,
    n: nat,
)
    requires
        chosen(start, flags, exprs, k) is Some,
        values_below(exprs, n),
    ensures
        all_below(chosen(start, flags, exprs, k)->0, n),
    decreases k,
{
    if k > 0 {
        lemma_chosen_below(start, flags, exprs, (k - 1) as nat, n);
    }
}

/// A flag that is set chooses a handle.
proof fn lemma_chosen_some(
    start: usize,
    flags: Seq<bool>,
    exprs: Map<usize, usize>,
    k: nat,
)
    requires
        chosen(start, flags, exprs, k) is Some,
        any_flag(flags, k),
    ensures
        chosen(start, flags, exprs, k)->0.len() > 0,
    decreases k,
{
    if k > 0 {
        if !flags[k - 1] {
            lemma_chosen_some(start, flags, exprs, (k - 1) as nat);
        }
    }
}

/// What is left of a statement has new handles only.
proof fn lemma_stmt_below(
    stmt: Statement,
    need: StmtNeed,
    retval: bool,
    exprs: Map<usize, usize>,
    functions: Map<usize, usize>,
    new: Statement,
    n: nat,
    m: nat,
)
    requires
        rewritable(stmt, need, retval, exprs, functions),
        kept(stmt, need),
        rewritten(stmt, need, retval, exprs, functions, new),
        values_below(exprs, n),
        values_below(functions, m),
    ensures
        stmt_below(new, n, m),
    decreases stmt, 0nat,
{
    match (stmt, need) {
        (Statement::Emit(range), StmtNeed::Emit(flags)) => {
            let k = flagged(range, flags);
            let handles = chosen(range.start, flags, exprs, k)->0;
            lemma_chosen_below(range.start, flags, exprs, k, n);
            lemma_chosen_some(range.start, flags, exprs, k);
            assert(handles[handles.len() - 1] == handles[0] + (handles.len() - 1));
            assert(handles[handles.len() - 1] < n);
        },
        (Statement::Block(block), StmtNeed::BlockStmt(need)) => {
            lemma_block_below(block, need, exprs, functions, new->Block_0, n, m);
        },
        (
            Statement::If { accept, reject, .. },
            StmtNeed::If { accept: accept_need, reject: reject_need, .. },
        ) => {
            lemma_block_below(accept, accept_need, exprs, functions, new->If_accept, n, m);
            lemma_block_below(reject, reject_need, exprs, functions, new->If_reject, n, m);
        },
        (Statement::Switch { cases, .. }, StmtNeed::Switch { cases: needs, .. }) => {
            lemma_cases_below(
                cases@,
                needs,
                shorter(cases@.len(), needs.len()),
                exprs,
                functions,
                new->Switch_cases@,
                n,
                m,
            );
        },
        (
            Statement::Loop { body, continuing, .. },
            StmtNeed::Loop { body: body_need, continuing: continuing_need, .. },
        ) => {
            lemma_block_below(body, body_need, exprs, functions, new->Loop_body, n, m);
            lemma_block_below(
                continuing,
                continuing_need,
                exprs,
                functions,
                new->Loop_continuing,
                n,
                m,
            );
        },
        (Statement::Call { arguments, .. }, StmtNeed::Call { .. }) => {
            let new_arguments = new->Call_arguments@;
            assert forall|i: int| 0 <= i < new_arguments.len() implies #[trigger] new_arguments[i]
                < n by {
                assert(exprs.contains_key(arguments@[i]));
            }
        },
        _ => {},
    }
}

/// The same of a list of statements.
proof fn lemma_stmts_below(
    stmts: Seq<Statement>,
    needs: Seq<StmtNeed>,
    k: nat,
    retval: bool,
    exprs: Map<usize, usize>,
    functions: Map<usize, usize>,
    new: Seq<Statement>,
    n: nat,
    m: nat,
)
    requires
        k <= stmts.len(),
        stmts_rewritable(stmts, needs, k, retval, exprs, functions),
        stmts_rewritten(stmts, needs, k, retval, exprs, functions, new),
        values_below(exprs, n),
        values_below(functions, m),
    ensures
        stmts_below(new, new.len(), n, m),
    decreases stmts, k,
{
    if k > 0 {
        if kept(stmts[k - 1], needs[k - 1]) {
            let rest = new.drop_last();
            lemma_stmts_below(
                stmts,
                needs,
                (k - 1) as nat,
                retval,
                exprs,
                functions,
                rest,
                n,
                m,
            );
            lemma_stmt_below(
                stmts[k - 1],
                needs[k - 1],
                retval,
                exprs,
                functions,
                new.last(),
                n,
                m,
            );
            lemma_stmts_below_prefix(rest, new, rest.len(), n, m);
        } else {
            lemma_stmts_below(
                stmts,
                needs,
                (k - 1) as nat,
                retval,
                exprs,
                functions,
                new,
                n,
                m,
            );
        }
    }
}

/// Only the first `k` statements matter.
proof fn lemma_stmts_below_prefix(
    a: Seq<Statement>,
    b: Seq<Statement>,
    k: nat,
    n: nat,
    m: nat,
)
    requires
        k <= a.len(),
        k <= b.len(),
        forall|i: int| 0 <= i < k ==> a[i] == b[i],
        stmts_below(a, k, n, m),
    ensures
        stmts_below(b, k, n, m),
    decreases k,
{
    if k > 0 {
        lemma_stmts_below_prefix(a, b, (k - 1) as nat, n, m);
    }
}

/// The same of a block.
proof fn lemma_block_below(
    block: Block,
    need: BlockNeed,
    exprs: Map<usize, usize>,
    functions: Map<usize, usize>,
    new: Block,
    n: nat,
    m: nat,
)
    requires
        block_rewritable(block, need, exprs, functions),
        block_rewritten(block, need, exprs, functions, new),
        values_below(exprs, n),
        values_below(functions, m),
    ensures
        block_below(new, n, m),
    decreases block, 0nat,
{
    lemma_stmts_below(
        block.body@,
        need.stmts,
        shorter(block.body@.len(), need.stmts.len()),
        need.context.retval is Some,
        exprs,
        functions,
        new.body@,
        n,
        m,
    );
}

/// The same of the first `k` cases.
proof fn lemma_cases_below(
    cases: Seq<SwitchCase>,
    needs: Seq<BlockNeed>,
    k: nat,
    exprs: Map<usize, usize>,
    functions: Map<usize, usize>,
    new: Seq<SwitchCase>,
    n: nat,
    m: nat,
)
    requires
        k <= cases.len(),
        k <= new.len(),
        cases_rewritable(cases, needs, k, exprs, functions),
        cases_rewritten(cases, needs, k, exprs, functions, new),
        values_below(exprs, n),
        values_below(functions, m),
    ensures
        cases_below(new, k, n, m),
    decreases cases, k,
{
    if k > 0 {
        lemma_cases_below(cases, needs, (k - 1) as nat, exprs, functions, new, n, m);
        lemma_block_below(
            cases[k - 1].body,
            needs[k - 1],
            exprs,
            functions,
            new[k - 1].body,
            n,
            m,
        );
    }
}

/// The handles in the body of a pruned function are those of its expressions,
/// and of functions with a new handle.
pub proof fn law_pruned_body_below(
    need: FnNeed,
    function: Function,
    handles: Handles,
    new: Function,
    functions: nat,
)
    requires
        prunable(need, function, handles),
        pruned(need, function, handles, new),
        values_below(handles.functions, functions),
    ensures
        block_below(new.body, new.expressions@.len(), functions),
{
    let exprs = compacted(need.exprs.dom(), function.expressions@.len());
    assert(function.expressions@.len() == function.expressions.len());
    lemma_compacted(need.exprs.dom(), function.expressions@.len());
    lemma_block_below(
        function.body,
        need.body,
        exprs,
        handles.functions,
        new.body,
        new.expressions@.len(),
        functions,
    );
}

/// Whether the module has all that its types, constants and global variables
/// use.
pub open spec fn items_exist(module: Module) -> bool {
    forall|user: Item, used: Item|
        exists_in(module, user) && #[trigger] items_of(module, user).contains(used) ==> exists_in(
            module,
            used,
        )
}

/// Whether the module, and the function, have all that an expression uses of
/// them.
pub open spec fn expr_exists(module: Module, function: Function, expr: Expression) -> bool {
    match expr {
        Expression::Constant(c) => c < module.constants.len(),
        Expression::Compose { ty, .. } => ty < module.types.len(),
        Expression::GlobalVariable(gv) => gv < module.global_variables.len(),
        Expression::LocalVariable(lv) => lv < function.local_variables.len(),
        Expression::ImageSample { offset, .. } => opt_below(offset, module.constants@.len()),
        Expression::CallResult(f) => f < module.functions.len(),
        _ => true,
    }
}

/// Whether the handles in a function lead to something in the module or the
/// function.
pub open spec fn function_exists(module: Module, function: Function) -> bool {
    &&& forall|i: int|
        0 <= i < function.arguments@.len() ==> (#[trigger] function.arguments@[i]).ty
            < module.types.len()
    &&& function.result is Some ==> function.result->0.ty < module.types.len()
    &&& forall|i: int|
        0 <= i < function.local_variables@.len() ==> {
            let local = #[trigger] function.local_variables@[i];
            local.ty < module.types.len() && opt_below(local.init, module.constants@.len())
        }
    &&& forall|i: int|
        0 <= i < function.expressions@.len() ==> expr_exists(
            module,
            function,
            #[trigger] function.expressions@[i],
        )
    &&& ordered(function.expressions@)
    &&& block_below(function.body, function.expressions@.len(), module.functions@.len())
}

/// New handles lead to something in the new module.
proof fn lemma_handles_below(
    functions: Map<usize, FnNeed>,
    entries: Map<Seq<char>, FnNeed>,
    source: Module,
    new: Module,
)
    requires
        module_rewritten(functions, entries, source, new),
    ensures
        values_below(new_handles(functions, entries, source).types, new.types@.len()),
        values_below(new_handles(functions, entries, source).constants, new.constants@.len()),
        values_below(new_handles(functions, entries, source).globals, new.global_variables@.len()),
        values_below(new_handles(functions, entries, source).functions, new.functions@.len()),
{
    let kept = kept_for(source, roots(functions, entries, source));
    assert(source.types@.len() == source.types.len());
    assert(source.constants@.len() == source.constants.len());
    assert(source.global_variables@.len() == source.global_variables.len());
    assert(source.functions@.len() == source.functions.len());
    lemma_compacted(kept.types, source.types@.len());
    lemma_compacted(kept.constants, source.constants@.len());
    lemma_compacted(kept.globals, source.global_variables@.len());
    lemma_compacted(kept_functions(functions), source.functions@.len());
}

/// What a new type, constant or global variable uses is in the new module.
proof fn lemma_items_exist(
    functions: Map<usize, FnNeed>,
    entries: Map<Seq<char>, FnNeed>,
    source: Module,
    new: Module,
    user: Item,
    used: Item,
)
    requires
        module_rewritable(functions, entries, source),
        module_rewritten(functions, entries, source, new),
        exists_in(new, user),
        items_of(new, user).contains(used),
    ensures
        exists_in(new, used),
{
    let all = roots(functions, entries, source);
    let kept = kept_for(source, all);
    let handles = new_handles(functions, entries, source);
    lemma_handles_below(functions, entries, source, new);
    assert(handles_for(source, all, handles));
    let j = choose|j: int| 0 <= j < items_of(new, user).len() && items_of(new, user)[j] == used;
    match user {
        Item::Type(k) => {
            assert(source.types@.len() == source.types.len());
            let h = lemma_ranked(kept.types, source.types@.len(), k as nat);
            assert(kept.types.contains(h));
            lemma_has_used(source, all, handles, Item::Type(h));
            let items = type_items(source.types@[h as int].inner);
            assert(items.contains(items[j]));
        },
        Item::Constant(k) => {
            assert(source.constants@.len() == source.constants.len());
            let h = lemma_ranked(kept.constants, source.constants@.len(), k as nat);
            assert(kept.constants.contains(h));
            lemma_has_used(source, all, handles, Item::Constant(h));
            let items = constant_items(source.constants@[h as int].inner);
            assert(items.contains(items[j]));
        },
        Item::Global(k) => {
            assert(source.global_variables@.len() == source.global_variables.len());
            let h = lemma_ranked(kept.globals, source.global_variables@.len(), k as nat);
            assert(kept.globals.contains(h));
            lemma_has_used(source, all, handles, Item::Global(h));
            let items = global_items(source.global_variables@[h as int]);
            assert(items.contains(items[j]));
        },
    }
}

/// The handles in a pruned function lead to something in the new module or in
/// the function.
proof fn lemma_function_exists(
    functions: Map<usize, FnNeed>,
    entries: Map<Seq<char>, FnNeed>,
    source: Module,
    new: Module,
    need: FnNeed,
    function: Function,
    new_function: Function,
)
    requires
        module_rewritten(functions, entries, source, new),
        prunable(need, function, new_handles(functions, entries, source)),
        pruned(need, function, new_handles(functions, entries, source), new_function),
    ensures
        function_exists(new, new_function),
{
    let handles = new_handles(functions, entries, source);
    lemma_handles_below(functions, entries, source, new);
    law_pruned_ordered(need, function, handles, new_function);
    law_pruned_body_below(need, function, handles, new_function, new.functions@.len());
    assert forall|i: int| 0 <= i < new_function.arguments@.len() implies (
    #[trigger] new_function.arguments@[i]).ty < new.types.len() by {
        assert(handles.types.contains_key(function.arguments@[i].ty));
    }
    let kept_locals = need.body.context.locals.dom();
    let n = function.local_variables@.len();
    assert(n == function.local_variables.len());
    let all_locals = moved_locals(function.local_variables@, handles);
    lemma_kept_of(all_locals, kept_locals, n);
    assert forall|i: int| 0 <= i < new_function.local_variables@.len() implies ({
        let local = #[trigger] new_function.local_variables@[i];
        local.ty < new.types.len() && opt_below(local.init, new.constants@.len())
    }) by {
        let h = lemma_ranked(kept_locals, n, i as nat);
        assert(kept_locals.contains(h));
        assert(new_function.local_variables@[i] == all_locals[h as int]);
        assert(local_movable(function.local_variables@[h as int], handles));
    }
    let required = need.exprs.dom();
    let locals = local_handles(need, function);
    lemma_compacted(kept_locals, n);
    assert(function.expressions@.len() == function.expressions.len());
    assert forall|i: int| 0 <= i < new_function.expressions@.len() implies expr_exists(
        new,
        new_function,
        #[trigger] new_function.expressions@[i],
    ) by {
        let h = lemma_ranked(required, function.expressions@.len(), i as nat);
        assert(required.contains(h));
        let expr = function.expressions@[h as int];
        let exprs = compacted(required, h as nat);
        assert(remappable(expr, handles, locals, exprs));
        assert(remapped(expr, handles, locals, exprs, new_function.expressions@[i]));
        if let Expression::LocalVariable(lv) = expr {
            assert(locals.contains_key(lv));
            assert(locals[lv] < rank(kept_locals, n));
        }
    }
}

/// In what is left of a module all handles lead to something: those in its
/// types, constants and global variables, and those in its functions and
/// entry points, whose expressions stand behind their operands.
pub proof fn law_rewritten_well_formed(
    functions: Map<usize, FnNeed>,
    entries: Map<Seq<char>, FnNeed>,
    source: Module,
    new: Module,
)
    requires
        module_rewritable(functions, entries, source),
        module_rewritten(functions, entries, source, new),
    ensures
        items_exist(new),
        forall|i: int|
            0 <= i < new.functions@.len() ==> function_exists(new, #[trigger] new.functions@[i]),
        forall|i: int|
            0 <= i < new.entry_points@.len() ==> function_exists(
                new,
                (#[trigger] new.entry_points@[i]).function,
            ),
{
    assert forall|user: Item, used: Item|
        exists_in(new, user) && #[trigger] items_of(new, user).contains(used) implies exists_in(
        new,
        used,
    ) by {
        lemma_items_exist(functions, entries, source, new, user, used);
    }
    let kept_fns = kept_functions(functions);
    assert(source.functions@.len() == source.functions.len());
    assert forall|i: int| 0 <= i < new.functions@.len() implies function_exists(
        new,
        #[trigger] new.functions@[i],
    ) by {
        let h = lemma_ranked(kept_fns, source.functions@.len(), i as nat);
        assert(kept_fns.contains(h));
        lemma_function_exists(
            functions,
            entries,
            source,
            new,
            functions[h],
            source.functions@[h as int],
            new.functions@[i],
        );
    }
    let kept_eps = kept_entries(entries, source.entry_points@);
    assert(source.entry_points@.len() == source.entry_points.len());
    assert forall|i: int| 0 <= i < new.entry_points@.len() implies function_exists(
        new,
        (#[trigger] new.entry_points@[i]).function,
    ) by {
        let h = lemma_ranked(kept_eps, source.entry_points@.len(), i as nat);
        assert(kept_eps.contains(h));
        let entry = source.entry_points@[h as int];
        lemma_function_exists(
            functions,
            entries,
            source,
            new,
            entries[entry.name@],
            entry.function,
            new.entry_points@[i].function,
        );
    }
}

/// What is left of a module is no larger than the module.
pub proof fn law_rewritten_no_larger(
    functions: Map<usize, FnNeed>,
    entries: Map<Seq<char>, FnNeed>,
    source: Module,
    new: Module,
)
    requires
        module_rewritten(functions, entries, source, new),
    ensures
        new.types@.len() <= source.types@.len(),
        new.constants@.len() <= source.constants@.len(),
        new.global_variables@.len() <= source.global_variables@.len(),
        new.functions@.len() <= source.functions@.len(),
        new.entry_points@.len() <= source.entry_points@.len(),
{
    let kept = kept_for(source, roots(functions, entries, source));
    lemma_rank(kept.types, 0, source.types@.len());
    lemma_rank(kept.constants, 0, source.constants@.len());
    lemma_rank(kept.globals, 0, source.global_variables@.len());
    lemma_rank(kept_functions(functions), 0, source.functions@.len());
    lemma_rank(kept_entries(entries, source.entry_points@), 0, source.entry_points@.len());
}

/// Where nothing is required, nothing is left.
pub proof fn law_nothing_required(source: Module, new: Module)
    ensures
        module_rewritable(Map::empty(), Map::empty(), source),
        module_rewritten(Map::empty(), Map::empty(), source, new) ==> new.types@.len() == 0
            && new.constants@.len() == 0 && new.global_variables@.len() == 0
            && new.functions@.len() == 0 && new.entry_points@.len() == 0,
{
    let functions = Map::<usize, FnNeed>::empty();
    let entries = Map::<Seq<char>, FnNeed>::empty();
    let all = roots(functions, entries, source);
    lemma_no_function_roots(source.functions@, source.functions@.len());
    lemma_no_entry_roots(
        function_roots(functions, source.functions@, source.functions@.len()),
        source.entry_points@,
        source.entry_points@.len(),
    );
    assert(all.len() == 0);
    assert forall|item: Item| !(#[trigger] needed(source, all, item)) by {
        if needed(source, all, item) {
            let k = choose|k: nat| reached(source, all, k, item);
            lemma_nothing_reached(source, all, k, item);
        }
    }
    let kept = kept_for(source, all);
    lemma_rank_empty(kept.types, source.types@.len());
    lemma_rank_empty(kept.constants, source.constants@.len());
    lemma_rank_empty(kept.globals, source.global_variables@.len());
    lemma_rank_empty(kept_functions(functions), source.functions@.len());
    lemma_rank_empty(kept_entries(entries, source.entry_points@), source.entry_points@.len());
}

/// Nothing is counted of an empty set.
proof fn lemma_rank_empty(kept: Set<usize>, n: nat)
    requires
        forall|h: usize| !(#[trigger] kept.contains(h)),
    ensures
        rank(kept, n) == 0,
    decreases n,
{
    if n > 0 {
        lemma_rank_empty(kept, (n - 1) as nat);
    }
}

/// Without kept functions there are no roots.
proof fn lemma_no_function_roots(source: Seq<Function>, n: nat)
    ensures
        function_roots(Map::empty(), source, n).len() == 0,
    decreases n,
{
    if n > 0 {
        lemma_no_function_roots(source, (n - 1) as nat);
    }
}

/// Without kept entry points there are no more roots.
proof fn lemma_no_entry_roots(items: Seq<Item>, source: Seq<EntryPoint>, n: nat)
    ensures
        entry_roots(items, Map::empty(), source, n) == items,
    decreases n,
{
    if n > 0 {
        lemma_no_entry_roots(items, source, (n - 1) as nat);
    }
}

/// From nothing, nothing is reached.
proof fn lemma_nothing_reached(module: Module, all: Seq<Item>, k: nat, item: Item)
    requires
        all.len() == 0,
    ensures
        !reached(module, all, k, item),
    decreases k,
{
    if k > 0 {
        lemma_nothing_reached(module, all, (k - 1) as nat, item);
        assert forall|user: Item| #[trigger]
            items_of(module, user).contains(item) implies !reached(
            module,
            all,
            (k - 1) as nat,
            user,
        ) by {
            lemma_nothing_reached(module, all, (k - 1) as nat, user);
        }
    }
}

/// Whether two types are the same.
pub open spec fn same_type(a: Type, b: Type) -> bool {
    &&& a.name == b.name
    &&& match (a.inner, b.inner) {
        (
            TypeInner::Struct { members: p, span: s },
            TypeInner::Struct { members: q, span: t },
        ) => p@ == q@ && s == t,
        _ => a.inner == b.inner,
    }
}

/// Whether no type occurs twice.
pub open spec fn types_unique(types: Seq<Type>) -> bool {
    forall|i: int, j: int|
        0 <= i < j < types.len() ==> !same_type(#[trigger] types[i], #[trigger] types[j])
}

/// Whether no two handles have the same new handle.
spec fn one_to_one(map: Map<usize, usize>) -> bool {
    forall|g: usize, h: usize| #[trigger]
        map.contains_key(g) && #[trigger] map.contains_key(h) && map[g] == map[h] ==> g == h
}

/// Types that are the same with new handles were the same before.
proof fn lemma_same_before(a: Type, b: Type, handles: Handles, new_a: Type, new_b: Type)
    requires
        one_to_one(handles.types),
        one_to_one(handles.constants),
        handles.has_all(type_items(a.inner)),
        handles.has_all(type_items(b.inner)),
        type_moved(a, handles, new_a),
        type_moved(b, handles, new_b),
        same_type(new_a, new_b),
    ensures
        same_type(a, b),
{
    let p = type_items(a.inner);
    let q = type_items(b.inner);
    assert(forall|i: int| 0 <= i < p.len() ==> p.contains(#[trigger] p[i]));
    assert(forall|i: int| 0 <= i < q.len() ==> q.contains(#[trigger] q[i]));
    match (a.inner, b.inner) {
        (TypeInner::Pointer { base: x, .. }, TypeInner::Pointer { base: y, .. }) => {
            assert(p[0] == Item::Type(x) && q[0] == Item::Type(y));
        },
        (
            TypeInner::Array { base: x, size: m, .. },
            TypeInner::Array { base: y, size: n, .. },
        ) => {
            lemma_same_size(x, y, m, n, handles);
        },
        (
            TypeInner::BindingArray { base: x, size: m },
            TypeInner::BindingArray { base: y, size: n },
        ) => {
            lemma_same_size(x, y, m, n, handles);
        },
        (TypeInner::Struct { members: m, .. }, TypeInner::Struct { members: n, .. }) => {
            let new_m = moved_members(m@, handles);
            let new_n = moved_members(n@, handles);
            assert(new_m == new_n);
            assert(new_m.len() == m@.len() && new_n.len() == n@.len());
            assert forall|i: int| 0 <= i < m@.len() implies m@[i] == n@[i] by {
                assert(new_m[i] == new_n[i]);
                assert(new_m[i] == (StructMember { ty: handles.types[m@[i].ty], ..m@[i] }));
                assert(new_n[i] == (StructMember { ty: handles.types[n@[i].ty], ..n@[i] }));
                assert(p[i] == Item::Type(m@[i].ty) && q[i] == Item::Type(n@[i].ty));
                assert(handles.has(p[i]) && handles.has(q[i]));
                assert(handles.types.contains_key(m@[i].ty));
                assert(handles.types.contains_key(n@[i].ty));
            }
            assert(m@ =~= n@);
        },
        _ => {},
    }
}

/// Array sizes and element types that have the same new handles are the same.
proof fn lemma_same_size(
    x: usize,
    y: usize,
    m: ArraySize,
    n: ArraySize,
    handles: Handles,
)
    requires
        one_to_one(handles.types),
        one_to_one(handles.constants),
        handles.has_all(and_size(seq![Item::Type(x)], m)),
        handles.has_all(and_size(seq![Item::Type(y)], n)),
        handles.types[x] == handles.types[y],
        moved_size(m, handles) == moved_size(n, handles),
    ensures
        x == y,
        m == n,
{
    let p = and_size(seq![Item::Type(x)], m);
    let q = and_size(seq![Item::Type(y)], n);
    assert(p[0] == Item::Type(x) && p.contains(p[0]));
    assert(q[0] == Item::Type(y) && q.contains(q[0]));
    if let (ArraySize::Constant(c), ArraySize::Constant(d)) = (m, n) {
        assert(p[1] == Item::Constant(c) && p.contains(p[1]));
        assert(q[1] == Item::Constant(d) && q.contains(q[1]));
    }
}

/// Where no type of a module occurs twice, none of what is left does.
pub proof fn law_types_unique(
    functions: Map<usize, FnNeed>,
    entries: Map<Seq<char>, FnNeed>,
    source: Module,
    new: Module,
)
    requires
        module_rewritable(functions, entries, source),
        module_rewritten(functions, entries, source, new),
        types_unique(source.types@),
    ensures
        types_unique(new.types@),
{
    let all = roots(functions, entries, source);
    let kept = kept_for(source, all);
    let handles = new_handles(functions, entries, source);
    let types = source.types@;
    assert(types.len() == source.types.len());
    assert(source.constants@.len() == source.constants.len());
    lemma_compacted(kept.types, types.len());
    lemma_compacted(kept.constants, source.constants@.len());
    assert(handles_for(source, all, handles));
    assert forall|i: int, j: int| 0 <= i < j < new.types@.len() implies !same_type(
        #[trigger] new.types@[i],
        #[trigger] new.types@[j],
    ) by {
        let g = lemma_ranked(kept.types, types.len(), i as nat);
        let h = lemma_ranked(kept.types, types.len(), j as nat);
        assert(kept.types.contains(g) && kept.types.contains(h));
        lemma_has_used(source, all, handles, Item::Type(g));
        lemma_has_used(source, all, handles, Item::Type(h));
        if same_type(new.types@[i], new.types@[j]) {
            lemma_same_before(
                types[g as int],
                types[h as int],
                handles,
                new.types@[i],
                new.types@[j],
            );
            if h < g {
                lemma_rank(kept.types, h as nat, g as nat);
            }
            assert(g < h);
        }
    }
}

/// Whether the functions that a statement calls stand before `n`.
pub open spec fn stmt_calls(stmt: Statement, n: nat) -> bool
    decreases stmt,
{
    match stmt {
        Statement::Block(block) => block_calls(block, n),
        Statement::If { accept, reject, .. } => block_calls(accept, n) && block_calls(reject, n),
        Statement::Switch { cases, .. } => cases_call(cases@, cases@.len(), n),
        Statement::Loop { body, continuing, .. } => block_calls(body, n) && block_calls(
            continuing,
            n,
        ),
        Statement::Call { function, .. } => function < n,
        _ => true,
    }
}

/// The same of the first `k` statements.
pub open spec fn stmts_call(stmts: Seq<Statement>, k: nat, n: nat) -> bool
    decreases stmts, k,
{
    if k == 0 || k > stmts.len() {
        true
    } else {
        stmts_call(stmts, (k - 1) as nat, n) && stmt_calls(stmts[k - 1], n)
    }
}

/// The same of a block.
pub open spec fn block_calls(block: Block, n: nat) -> bool
    decreases block,
{
    stmts_call(block.body@, block.body@.len(), n)
}

/// The same of the first `k` cases.
pub open spec fn cases_call(cases: Seq<SwitchCase>, k: nat, n: nat) -> bool
    decreases cases, k,
{
    if k == 0 || k > cases.len() {
        true
    } else {
        cases_call(cases, (k - 1) as nat, n) && block_calls(cases[k - 1].body, n)
    }
}

/// Whether the new handles of functions before `n` are below `m`.
spec fn values_before(functions: Map<usize, usize>, n: nat, m: nat) -> bool {
    forall|f: usize| f < n && #[trigger] functions.contains_key(f) ==> functions[f] < m
}

/// What is left of a statement calls what is left of the functions before.
proof fn lemma_stmt_calls(
    stmt: Statement,
    need: StmtNeed,
    retval: bool,
    exprs: Map<usize, usize>,
    functions: Map<usize, usize>,
    new: Statement,
    n: nat,
    m: nat,
)
    requires
        rewritable(stmt, need, retval, exprs, functions),
        kept(stmt, need),
        rewritten(stmt, need, retval, exprs, functions, new),
        stmt_calls(stmt, n),
        values_before(functions, n, m),
    ensures
        stmt_calls(new, m),
    decreases stmt, 0nat,
{
    match (stmt, need) {
        (Statement::Block(block), StmtNeed::BlockStmt(need)) => {
            lemma_block_calls(block, need, exprs, functions, new->Block_0, n, m);
        },
        (
            Statement::If { accept, reject, .. },
            StmtNeed::If { accept: accept_need, reject: reject_need, .. },
        ) => {
            lemma_block_calls(accept, accept_need, exprs, functions, new->If_accept, n, m);
            lemma_block_calls(reject, reject_need, exprs, functions, new->If_reject, n, m);
        },
        (Statement::Switch { cases, .. }, StmtNeed::Switch { cases: needs, .. }) => {
            let k = shorter(cases@.len(), needs.len());
            lemma_cases_call_fewer(cases@, k, cases@.len(), n);
            lemma_cases_call(cases@, needs, k, exprs, functions, new->Switch_cases@, n, m);
        },
        (
            Statement::Loop { body, continuing, .. },
            StmtNeed::Loop { body: body_need, continuing: continuing_need, .. },
        ) => {
            lemma_block_calls(body, body_need, exprs, functions, new->Loop_body, n, m);
            lemma_block_calls(
                continuing,
                continuing_need,
                exprs,
                functions,
                new->Loop_continuing,
                n,
                m,
            );
        },
        _ => {},
    }
}

/// The same of the first `k` statements.
proof fn lemma_stmts_call(
    stmts: Seq<Statement>,
    needs: Seq<StmtNeed>,
    k: nat,
    retval: bool,
    exprs: Map<usize, usize>,
    functions: Map<usize, usize>,
    new: Seq<Statement>,
    n: nat,
    m: nat,
)
    requires
        k <= stmts.len(),
        stmts_rewritable(stmts, needs, k, retval, exprs, functions),
        stmts_rewritten(stmts, needs, k, retval, exprs, functions, new),
        stmts_call(stmts, k, n),
        values_before(functions, n, m),
    ensures
        stmts_call(new, new.len(), m),
    decreases stmts, k,
{
    if k > 0 {
        let j = (k - 1) as nat;
        if kept(stmts[k - 1], needs[k - 1]) {
            let rest = new.drop_last();
            lemma_stmts_call(stmts, needs, j, retval, exprs, functions, rest, n, m);
            lemma_stmt_calls(
                stmts[k - 1],
                needs[k - 1],
                retval,
                exprs,
                functions,
                new.last(),
                n,
                m,
            );
            lemma_stmts_call_prefix(rest, new, rest.len(), m);
        } else {
            lemma_stmts_call(stmts, needs, j, retval, exprs, functions, new, n, m);
        }
    }
}

/// Only the first `k` statements matter.
proof fn lemma_stmts_call_prefix(a: Seq<Statement>, b: Seq<Statement>, k: nat, n: nat)
    requires
        k <= a.len(),
        k <= b.len(),
        forall|i: int| 0 <= i < k ==> a[i] == b[i],
        stmts_call(a, k, n),
    ensures
        stmts_call(b, k, n),
    decreases k,
{
    if k > 0 {
        lemma_stmts_call_prefix(a, b, (k - 1) as nat, n);
    }
}

/// What holds of more statements holds of fewer.
proof fn lemma_stmts_call_fewer(stmts: Seq<Statement>, j: nat, k: nat, n: nat)
    requires
        j <= k <= stmts.len(),
        stmts_call(stmts, k, n),
    ensures
        stmts_call(stmts, j, n),
    decreases k,
{
    if j < k {
        lemma_stmts_call_fewer(stmts, j, (k - 1) as nat, n);
    }
}

/// What holds of more cases holds of fewer.
proof fn lemma_cases_call_fewer(cases: Seq<SwitchCase>, j: nat, k: nat, n: nat)
    requires
        j <= k <= cases.len(),
        cases_call(cases, k, n),
    ensures
        cases_call(cases, j, n),
    decreases k,
{
    if j < k {
        lemma_cases_call_fewer(cases, j, (k - 1) as nat, n);
    }
}

/// The same of a block.
proof fn lemma_block_calls(
    block: Block,
    need: BlockNeed,
    exprs: Map<usize, usize>,
    functions: Map<usize, usize>,
    new: Block,
    n: nat,
    m: nat,
)
    requires
        block_rewritable(block, need, exprs, functions),
        block_rewritten(block, need, exprs, functions, new),
        block_calls(block, n),
        values_before(functions, n, m),
    ensures
        block_calls(new, m),
    decreases block, 0nat,
{
    let k = shorter(block.body@.len(), need.stmts.len());
    lemma_stmts_call_fewer(block.body@, k, block.body@.len(), n);
    lemma_stmts_call(
        block.body@,
        need.stmts,
        k,
        need.context.retval is Some,
        exprs,
        functions,
        new.body@,
        n,
        m,
    );
}

/// The same of the first `k` cases.
proof fn lemma_cases_call(
    cases: Seq<SwitchCase>,
    needs: Seq<BlockNeed>,
    k: nat,
    exprs: Map<usize, usize>,
    functions: Map<usize, usize>,
    new: Seq<SwitchCase>,
    n: nat,
    m: nat,
)
    requires
        k <= cases.len(),
        k <= new.len(),
        cases_rewritable(cases, needs, k, exprs, functions),
        cases_rewritten(cases, needs, k, exprs, functions, new),
        cases_call(cases, k, n),
        values_before(functions, n, m),
    ensures
        cases_call(new, k, m),
    decreases cases, k,
{
    if k > 0 {
        lemma_cases_call(cases, needs, (k - 1) as nat, exprs, functions, new, n, m);
        lemma_block_calls(
            cases[k - 1].body,
            needs[k - 1],
            exprs,
            functions,
            new[k - 1].body,
            n,
            m,
        );
    }
}

/// Where each function of a module stands before its callers, so does each
/// function of what is left.
pub proof fn law_functions_ordered(
    functions: Map<usize, FnNeed>,
    entries: Map<Seq<char>, FnNeed>,
    source: Module,
    new: Module,
)
    requires
        module_rewritable(functions, entries, source),
        module_rewritten(functions, entries, source, new),
        forall|h: int|
            0 <= h < source.functions@.len() ==> block_calls(
                (#[trigger] source.functions@[h]).body,
                h as nat,
            ),
    ensures
        forall|k: int|
            0 <= k < new.functions@.len() ==> block_calls(
                (#[trigger] new.functions@[k]).body,
                k as nat,
            ),
{
    let kept_fns = kept_functions(functions);
    let handles = new_handles(functions, entries, source);
    let total = source.functions@.len();
    assert(total == source.functions.len());
    lemma_compacted(kept_fns, total);
    assert forall|k: int| 0 <= k < new.functions@.len() implies block_calls(
        (#[trigger] new.functions@[k]).body,
        k as nat,
    ) by {
        let h = lemma_ranked(kept_fns, total, k as nat);
        assert(kept_fns.contains(h));
        let function = source.functions@[h as int];
        let need = functions[h];
        assert(prunable(need, function, handles));
        assert(pruned(need, function, handles, new.functions@[k]));
        assert forall|f: usize|
            f < h && #[trigger] handles.functions.contains_key(f) implies handles.functions[f]
            < k by {
            lemma_rank(kept_fns, f as nat, h as nat);
        }
        lemma_block_calls(
            function.body,
            need.body,
            compacted(need.exprs.dom(), function.expressions@.len()),
            handles.functions,
            new.functions@[k].body,
            h as nat,
            k as nat,
        );
    }
}

} // verus!
