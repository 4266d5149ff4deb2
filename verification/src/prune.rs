//! What a function looks like once it has been pruned.
use crate::block_laws::{block_matched, law_block_left};
use crate::flow::span;
use crate::ir::{
    Block, Expression, Function, FunctionArgument, FunctionResult, LocalVariable, Range, Statement,
    SwitchCase,
};
use crate::need::{
    block_needs, lemma_block_view, lemma_switch_view, needs, shorter, BlockNeed, BlockReq, FnNeed,
    FunctionReq, StatementReq, StmtNeed,
};
use crate::remap::{
    compacted, has_each, has_opt, kept_of, lemma_compacted, lemma_compacted_step, lemma_rank, maps,
    maps_each, moved_opt, new_handle, new_opt, rank, remap_expr, remappable, remapped, HandleMaps,
    Handles,
};
use crate::table::{entries_of, lists};
use std::collections::HashMap;
use vstd::prelude::*;

verus! {

/// Whether one of the first `n` flags is set.
pub open spec fn any_flag(flags: Seq<bool>, n: nat) -> bool {
    exists|i: int| 0 <= i < n && #[trigger] flags[i]
}

/// The new handles of the first `n` expressions from `start` on, of those
/// whose flag is set. `None` where one is missing.
pub open spec fn chosen(
    start: usize,
    flags: Seq<bool>,
    exprs: Map<usize, usize>,
    n: nat,
) -> Option<Seq<usize>>
    decreases n,
{
    if n == 0 {
        Some(Seq::empty())
    } else {
        match chosen(start, flags, exprs, (n - 1) as nat) {
            Some(handles) => if !flags[n - 1] {
                Some(handles)
            } else if exprs.contains_key((start + n - 1) as usize) {
                Some(handles.push(exprs[(start + n - 1) as usize]))
            } else {
                None
            },
            None => None,
        }
    }
}

/// Whether the handles follow one another.
pub open spec fn in_a_row(handles: Seq<usize>) -> bool {
    &&& forall|i: int| 0 <= i < handles.len() ==> #[trigger] handles[i] == handles[0] + i
    &&& handles.len() > 0 ==> handles.last() < usize::MAX
}

/// The number of expressions of a range that have a flag.
pub open spec fn flagged(range: Range, flags: Seq<bool>) -> nat {
    shorter(span(range), flags.len())
}

/// Whether a statement is kept where its block is.
///
/// A break, a continue, a return, a kill and a barrier are output with their
/// block, whether or not they make it required.
pub open spec fn kept(stmt: Statement, need: StmtNeed) -> bool
    decreases stmt,
{
    match (stmt, need) {
        (Statement::Emit(range), StmtNeed::Emit(flags)) => any_flag(flags, flagged(range, flags)),
        (Statement::Block(block), StmtNeed::BlockStmt(need)) => block_kept(block, need),
        (Statement::If { .. }, StmtNeed::If { condition, .. }) => condition,
        (Statement::Switch { .. }, StmtNeed::Switch { selector, .. }) => selector,
        (Statement::Loop { .. }, StmtNeed::Loop { required, .. }) => required,
        (Statement::Break, _) => true,
        (Statement::Continue, _) => true,
        (Statement::Return { .. }, StmtNeed::Return(_)) => true,
        (Statement::Kill, _) => true,
        (Statement::Barrier(_), _) => true,
        (Statement::Store { .. }, StmtNeed::Store(required)) => required,
        (Statement::ImageStore { .. }, StmtNeed::ImageStore(required)) => required,
        (Statement::Atomic { .. }, StmtNeed::Atomic(required)) => required,
        (Statement::Call { .. }, StmtNeed::Call { call_required, .. }) => call_required,
        _ => false,
    }
}

/// Whether one of the first `n` statements is kept.
pub open spec fn any_kept(stmts: Seq<Statement>, needs: Seq<StmtNeed>, n: nat) -> bool
    decreases stmts, n,
{
    if n == 0 || n > stmts.len() {
        false
    } else {
        any_kept(stmts, needs, (n - 1) as nat) || kept(stmts[n - 1], needs[n - 1])
    }
}

/// Whether one of the statements of a block is kept.
pub open spec fn block_kept(block: Block, need: BlockNeed) -> bool
    decreases block,
{
    any_kept(block.body@, need.stmts, shorter(block.body@.len(), need.stmts.len()))
}

/// Whether a statement can be rewritten: what is required of it is required
/// of a statement of its kind, and the expressions that it is rewritten with
/// are kept. `retval` is whether the block that it stands in is required for
/// the result of the function.
pub open spec fn rewritable(
    stmt: Statement,
    need: StmtNeed,
    retval: bool,
    exprs: Map<usize, usize>,
    functions: Map<usize, usize>,
) -> bool
    decreases stmt,
{
    match (stmt, need) {
        (Statement::Emit(range), StmtNeed::Emit(flags)) => match chosen(
            range.start,
            flags,
            exprs,
            flagged(range, flags),
        ) {
            Some(handles) => in_a_row(handles),
            None => false,
        },
        (Statement::Block(block), StmtNeed::BlockStmt(need)) => block_rewritable(
            block,
            need,
            exprs,
            functions,
        ),
        (
            Statement::If { condition, accept, reject },
            StmtNeed::If { condition: required, accept: accept_need, reject: reject_need },
        ) => required ==> exprs.contains_key(condition) && block_rewritable(
            accept,
            accept_need,
            exprs,
            functions,
        ) && block_rewritable(reject, reject_need, exprs, functions),
        (
            Statement::Switch { selector, cases },
            StmtNeed::Switch { selector: required, cases: case_needs },
        ) => required ==> exprs.contains_key(selector) && cases_rewritable(
            cases@,
            case_needs,
            shorter(cases@.len(), case_needs.len()),
            exprs,
            functions,
        ),
        (
            Statement::Loop { body, continuing, break_if },
            StmtNeed::Loop { body: body_need, continuing: continuing_need, required },
        ) => required ==> {
            &&& has_opt(exprs, break_if)
            &&& block_rewritable(body, body_need, exprs, functions)
            &&& block_rewritable(continuing, continuing_need, exprs, functions)
        },
        (Statement::Break, _) => true,
        (Statement::Continue, _) => true,
        (Statement::Return { value }, StmtNeed::Return(_)) => retval ==> has_opt(exprs, value),
        (Statement::Kill, _) => true,
        (Statement::Barrier(_), _) => true,
        (Statement::Store { pointer, value }, StmtNeed::Store(required)) => required
            ==> exprs.contains_key(pointer) && exprs.contains_key(value),
        (
            Statement::ImageStore { image, coordinate, array_index, value },
            StmtNeed::ImageStore(required),
        ) => required ==> exprs.contains_key(image) && exprs.contains_key(coordinate) && has_opt(
            exprs,
            array_index,
        ) && exprs.contains_key(value),
        (Statement::Atomic { pointer, value, result, .. }, StmtNeed::Atomic(required)) => required
            ==> exprs.contains_key(pointer) && exprs.contains_key(value) && exprs.contains_key(
            result,
        ),
        (
            Statement::Call { function, arguments, result },
            StmtNeed::Call { call_required, result_required },
        ) => call_required ==> functions.contains_key(function) && has_each(exprs, arguments@) && (
        result_required ==> has_opt(exprs, result)),
        _ => false,
    }
}

/// Whether each of the first `n` statements can be rewritten.
pub open spec fn stmts_rewritable(
    stmts: Seq<Statement>,
    needs: Seq<StmtNeed>,
    n: nat,
    retval: bool,
    exprs: Map<usize, usize>,
    functions: Map<usize, usize>,
) -> bool
    decreases stmts, n,
{
    if n == 0 || n > stmts.len() {
        true
    } else {
        stmts_rewritable(stmts, needs, (n - 1) as nat, retval, exprs, functions) && rewritable(
            stmts[n - 1],
            needs[n - 1],
            retval,
            exprs,
            functions,
        )
    }
}

/// Whether the statements of a block can be rewritten.
pub open spec fn block_rewritable(
    block: Block,
    need: BlockNeed,
    exprs: Map<usize, usize>,
    functions: Map<usize, usize>,
) -> bool
    decreases block,
{
    stmts_rewritable(
        block.body@,
        need.stmts,
        shorter(block.body@.len(), need.stmts.len()),
        need.context.retval is Some,
        exprs,
        functions,
    )
}

/// Whether the first `n` cases can be rewritten.
pub open spec fn cases_rewritable(
    cases: Seq<SwitchCase>,
    needs: Seq<BlockNeed>,
    n: nat,
    exprs: Map<usize, usize>,
    functions: Map<usize, usize>,
) -> bool
    decreases cases, n,
{
    if n == 0 || n > cases.len() {
        true
    } else {
        cases_rewritable(cases, needs, (n - 1) as nat, exprs, functions) && block_rewritable(
            cases[n - 1].body,
            needs[n - 1],
            exprs,
            functions,
        )
    }
}

/// Whether `new` is what is kept of the statement, where it is kept, with the
/// new handles of its expressions.
pub open spec fn rewritten(
    stmt: Statement,
    need: StmtNeed,
    retval: bool,
    exprs: Map<usize, usize>,
    functions: Map<usize, usize>,
    new: Statement,
) -> bool
    decreases stmt,
{
    match (stmt, need) {
        (Statement::Emit(range), StmtNeed::Emit(flags)) => {
            let handles = chosen(range.start, flags, exprs, flagged(range, flags))->0;
            new == Statement::Emit(
                Range { start: handles[0], end: (handles.last() + 1) as usize },
            )
        },
        (Statement::Block(block), StmtNeed::BlockStmt(need)) => {
            &&& new matches Statement::Block(new_block)
            &&& block_rewritten(block, need, exprs, functions, new_block)
        },
        (
            Statement::If { condition, accept, reject },
            StmtNeed::If { accept: accept_need, reject: reject_need, .. },
        ) => {
            &&& new matches Statement::If {
                condition: new_condition,
                accept: new_accept,
                reject: new_reject,
            }
            &&& new_condition == exprs[condition]
            &&& block_rewritten(accept, accept_need, exprs, functions, new_accept)
            &&& block_rewritten(reject, reject_need, exprs, functions, new_reject)
        },
        (Statement::Switch { selector, cases }, StmtNeed::Switch { cases: case_needs, .. }) => {
            &&& new matches Statement::Switch { selector: new_selector, cases: new_cases }
            &&& new_selector == exprs[selector]
            &&& new_cases@.len() == shorter(cases@.len(), case_needs.len())
            &&& cases_rewritten(
                cases@,
                case_needs,
                shorter(cases@.len(), case_needs.len()),
                exprs,
                functions,
                new_cases@,
            )
        },
        (
            Statement::Loop { body, continuing, break_if },
            StmtNeed::Loop { body: body_need, continuing: continuing_need, .. },
        ) => {
            &&& new matches Statement::Loop {
                body: new_body,
                continuing: new_continuing,
                break_if: new_break_if,
            }
            &&& block_rewritten(body, body_need, exprs, functions, new_body)
            &&& block_rewritten(continuing, continuing_need, exprs, functions, new_continuing)
            &&& new_break_if == moved_opt(break_if, exprs)
        },
        (Statement::Return { value }, StmtNeed::Return(_)) => new == (Statement::Return {
            value: if retval {
                moved_opt(value, exprs)
            } else {
                None
            },
        }),
        (Statement::Store { pointer, value }, StmtNeed::Store(_)) => new == (Statement::Store {
            pointer: exprs[pointer],
            value: exprs[value],
        }),
        (
            Statement::ImageStore { image, coordinate, array_index, value },
            StmtNeed::ImageStore(_),
        ) => new == (Statement::ImageStore {
            image: exprs[image],
            coordinate: exprs[coordinate],
            array_index: moved_opt(array_index, exprs),
            value: exprs[value],
        }),
        (Statement::Atomic { pointer, fun, value, result }, StmtNeed::Atomic(_)) => new == (
        Statement::Atomic {
            pointer: exprs[pointer],
            fun,
            value: exprs[value],
            result: exprs[result],
        }),
        (
            Statement::Call { function, arguments, result },
            StmtNeed::Call { result_required, .. },
        ) => {
            &&& new matches Statement::Call {
                function: new_function,
                arguments: new_arguments,
                result: new_result,
            }
            &&& new_function == functions[function]
            &&& maps_each(exprs, arguments@, new_arguments@)
            &&& new_result == if result_required {
                moved_opt(result, exprs)
            } else {
                None
            }
        },
        _ => new == stmt,
    }
}

/// Whether `new` is what is kept of the first `n` statements, in their order.
pub open spec fn stmts_rewritten(
    stmts: Seq<Statement>,
    needs: Seq<StmtNeed>,
    n: nat,
    retval: bool,
    exprs: Map<usize, usize>,
    functions: Map<usize, usize>,
    new: Seq<Statement>,
) -> bool
    decreases stmts, n,
{
    if n == 0 || n > stmts.len() {
        new.len() == 0
    } else if kept(stmts[n - 1], needs[n - 1]) {
        &&& new.len() > 0
        &&& stmts_rewritten(stmts, needs, (n - 1) as nat, retval, exprs, functions, new.drop_last())
        &&& rewritten(stmts[n - 1], needs[n - 1], retval, exprs, functions, new.last())
    } else {
        stmts_rewritten(stmts, needs, (n - 1) as nat, retval, exprs, functions, new)
    }
}

/// Whether `new` is what is kept of a block.
pub open spec fn block_rewritten(
    block: Block,
    need: BlockNeed,
    exprs: Map<usize, usize>,
    functions: Map<usize, usize>,
    new: Block,
) -> bool
    decreases block,
{
    stmts_rewritten(
        block.body@,
        need.stmts,
        shorter(block.body@.len(), need.stmts.len()),
        need.context.retval is Some,
        exprs,
        functions,
        new.body@,
    )
}

/// Whether `new` is what is kept of the first `n` cases.
pub open spec fn cases_rewritten(
    cases: Seq<SwitchCase>,
    needs: Seq<BlockNeed>,
    n: nat,
    exprs: Map<usize, usize>,
    functions: Map<usize, usize>,
    new: Seq<SwitchCase>,
) -> bool
    decreases cases, n,
{
    if n == 0 || n > cases.len() || n > new.len() {
        n == 0
    } else {
        &&& cases_rewritten(cases, needs, (n - 1) as nat, exprs, functions, new)
        &&& new[n - 1].value == cases[n - 1].value
        &&& new[n - 1].fall_through == cases[n - 1].fall_through
        &&& block_rewritten(cases[n - 1].body, needs[n - 1], exprs, functions, new[n - 1].body)
    }
}

/// A missing handle stops any longer list of them.
proof fn lemma_chosen_none(
    start: usize,
    flags: Seq<bool>,
    exprs: Map<usize, usize>,
    k: nat,
    n: nat,
)
    requires
        k <= n,
        chosen(start, flags, exprs, k) is None,
    ensures
        chosen(start, flags, exprs, n) is None,
    decreases n,
{
    if k < n {
        lemma_chosen_none(start, flags, exprs, k, (n - 1) as nat);
    }
}

/// A handle is chosen where a flag is set.
proof fn lemma_chosen_any(start: usize, flags: Seq<bool>, exprs: Map<usize, usize>, n: nat)
    requires
        chosen(start, flags, exprs, n) is Some,
    ensures
        chosen(start, flags, exprs, n)->0.len() > 0 <==> any_flag(flags, n),
    decreases n,
{
    if n > 0 {
        lemma_chosen_any(start, flags, exprs, (n - 1) as nat);
        if flags[n - 1] {
            assert(0 <= n - 1 < n && flags[n - 1]);
        }
    }
}

/// Statements that cannot be rewritten stop any longer list.
proof fn lemma_stmts_stuck(
    stmts: Seq<Statement>,
    needs: Seq<StmtNeed>,
    k: nat,
    n: nat,
    retval: bool,
    exprs: Map<usize, usize>,
    functions: Map<usize, usize>,
)
    requires
        k <= n <= stmts.len(),
        !stmts_rewritable(stmts, needs, k, retval, exprs, functions),
    ensures
        !stmts_rewritable(stmts, needs, n, retval, exprs, functions),
    decreases n,
{
    if k < n {
        lemma_stmts_stuck(stmts, needs, k, (n - 1) as nat, retval, exprs, functions);
    }
}

/// Cases that cannot be rewritten stop any longer list.
proof fn lemma_cases_stuck(
    cases: Seq<SwitchCase>,
    needs: Seq<BlockNeed>,
    k: nat,
    n: nat,
    exprs: Map<usize, usize>,
    functions: Map<usize, usize>,
)
    requires
        k <= n <= cases.len(),
        !cases_rewritable(cases, needs, k, exprs, functions),
    ensures
        !cases_rewritable(cases, needs, n, exprs, functions),
    decreases n,
{
    if k < n {
        lemma_cases_stuck(cases, needs, k, (n - 1) as nat, exprs, functions);
    }
}

/// Only the first `n` of the new cases matter.
proof fn lemma_cases_prefix(
    cases: Seq<SwitchCase>,
    needs: Seq<BlockNeed>,
    n: nat,
    exprs: Map<usize, usize>,
    functions: Map<usize, usize>,
    a: Seq<SwitchCase>,
    b: Seq<SwitchCase>,
)
    requires
        cases_rewritten(cases, needs, n, exprs, functions, a),
        n <= a.len() <= b.len(),
        forall|i: int| 0 <= i < n ==> a[i] == b[i],
    ensures
        cases_rewritten(cases, needs, n, exprs, functions, b),
    decreases n,
{
    if n > 0 {
        lemma_cases_prefix(cases, needs, (n - 1) as nat, exprs, functions, a, b);
    }
}

/// Something is left of a block where one of its statements is kept.
pub proof fn lemma_any_kept(
    stmts: Seq<Statement>,
    needs: Seq<StmtNeed>,
    n: nat,
    retval: bool,
    exprs: Map<usize, usize>,
    functions: Map<usize, usize>,
    new: Seq<Statement>,
)
    requires
        n <= stmts.len(),
        stmts_rewritten(stmts, needs, n, retval, exprs, functions, new),
    ensures
        new.len() > 0 <==> any_kept(stmts, needs, n),
    decreases n,
{
    if n > 0 {
        if !kept(stmts[n - 1], needs[n - 1]) {
            lemma_any_kept(stmts, needs, (n - 1) as nat, retval, exprs, functions, new);
        }
    }
}

/// The range of the new handles of an emit statement; `None` inside where
/// none of its expressions is kept.
fn rewrite_emit(range: &Range, flags: &Vec<bool>, expr_map: &HashMap<usize, usize>) -> (r: Option<
    Option<Range>,
>)
    ensures
        ({
            let n = flagged(*range, flags@);
            let handles = chosen(range.start, flags@, expr_map@, n);
            match r {
                Some(Some(new)) => {
                    &&& handles is Some
                    &&& in_a_row(handles->0)
                    &&& any_flag(flags@, n)
                    &&& new.start == handles->0[0]
                    &&& new.end == (handles->0.last() + 1) as usize
                },
                Some(None) => handles is Some && in_a_row(handles->0) && !any_flag(flags@, n),
                None => handles is None || !in_a_row(handles->0),
            }
        }),
{
    let ghost n = flagged(*range, flags@);
    let mut handles: Vec<usize> = Vec::new();
    let mut i: usize = 0;
    while i < flags.len() && range.start <= range.end && i < range.end - range.start
        invariant
            n == flagged(*range, flags@),
            i <= n,
            chosen(range.start, flags@, expr_map@, i as nat) == Some(handles@),
        ensures
            i == n,
        decreases flags.len() - i,
    {
        if flags[i] {
            match new_handle(expr_map, range.start + i) {
                Some(new) => handles.push(new),
                None => {
                    proof {
                        lemma_chosen_none(range.start, flags@, expr_map@, (i + 1) as nat, n);
                    }
                    return None;
                },
            }
        }
        i = i + 1;
    }
    proof {
        lemma_chosen_any(range.start, flags@, expr_map@, n);
    }
    if handles.len() == 0 {
        return Some(None);
    }
    let first = handles[0];
    let last = handles[handles.len() - 1];
    if last == usize::MAX {
        return None;
    }
    let mut j: usize = 0;
    while j < handles.len()
        invariant
            j <= handles.len(),
            handles.len() > 0,
            first == handles[0],
            last == handles@.last(),
            last < usize::MAX,
            chosen(range.start, flags@, expr_map@, n) == Some(handles@),
            n == flagged(*range, flags@),
            forall|k: int| 0 <= k < j ==> #[trigger] handles[k] == first + k,
        decreases handles.len() - j,
    {
        if handles[j] < first || handles[j] - first != j {
            assert(handles@[j as int] != handles@[0] + j);
            return None;
        }
        j = j + 1;
    }
    Some(Some(Range { start: first, end: last + 1 }))
}

/// The new handles of the arguments of a call.
fn rewrite_arguments(arguments: &Vec<usize>, expr_map: &HashMap<usize, usize>) -> (r: Option<
    Vec<usize>,
>)
    ensures
        match r {
            Some(new) => has_each(expr_map@, arguments@) && maps_each(
                expr_map@,
                arguments@,
                new@,
            ),
            None => !has_each(expr_map@, arguments@),
        },
{
    let mut new: Vec<usize> = Vec::new();
    let mut i: usize = 0;
    while i < arguments.len()
        invariant
            i <= arguments.len(),
            new.len() == i,
            forall|j: int|
                0 <= j < i ==> maps(expr_map@, arguments[j], #[trigger] new[j]),
        decreases arguments.len() - i,
    {
        match new_handle(expr_map, arguments[i]) {
            Some(handle) => new.push(handle),
            None => {
                assert(!expr_map@.contains_key(arguments@[i as int]));
                return None;
            },
        }
        i = i + 1;
    }
    assert forall|j: int| 0 <= j < arguments@.len() implies expr_map@.contains_key(
        #[trigger] arguments@[j],
    ) by {
        assert(maps(expr_map@, arguments[j], new[j]));
    }
    Some(new)
}

/// What is kept of a block; `None` inside where nothing is, `None` where the
/// block cannot be rewritten.
pub fn rewrite_block(
    block: &Block,
    block_req: &BlockReq,
    expr_map: &HashMap<usize, usize>,
    functions: &HashMap<usize, usize>,
) -> (r: Option<Option<Block>>)
    ensures
        match r {
            Some(Some(new)) => {
                &&& block_rewritable(*block, block_req@, expr_map@, functions@)
                &&& block_kept(*block, block_req@)
                &&& block_rewritten(*block, block_req@, expr_map@, functions@, new)
                &&& 0 < new.body@.len() <= block.body@.len()
            },
            Some(None) => {
                &&& block_rewritable(*block, block_req@, expr_map@, functions@)
                &&& !block_kept(*block, block_req@)
                &&& !(block_matched(*block, block_req@) && block_req@.is_required())
                &&& forall|new: Block|
                    new.body@.len() == 0 ==> #[trigger] block_rewritten(
                        *block,
                        block_req@,
                        expr_map@,
                        functions@,
                        new,
                    )
            },
            None => !block_rewritable(*block, block_req@, expr_map@, functions@),
        },
    decreases block, 0nat,
{
    let ghost need = block_req@;
    proof {
        lemma_block_view(*block_req);
    }
    let retval = block_req.context.retval.is_some();
    assert(retval == (need.context.retval is Some));
    let ghost total = shorter(block.body@.len(), need.stmts.len());
    let mut body: Vec<Statement> = Vec::new();
    let mut n: usize = 0;
    while n < block.body.len() && n < block_req.required_statements.len()
        invariant
            need == block_req@,
            need.stmts == needs(block_req.required_statements@),
            retval == (need.context.retval is Some),
            total == shorter(block.body@.len(), need.stmts.len()),
            n <= total,
            stmts_rewritable(block.body@, need.stmts, n as nat, retval, expr_map@, functions@),
            stmts_rewritten(
                block.body@,
                need.stmts,
                n as nat,
                retval,
                expr_map@,
                functions@,
                body@,
            ),
        ensures
            n == total,
        decreases block.body.len() - n,
    {
        proof {
            assert(decreases_to!(block => block.body));
            assert(decreases_to!(block.body => block.body@));
            assert(decreases_to!(block.body@ => block.body@[n as int]));
        }
        assert(need.stmts[n as int] == block_req.required_statements@[n as int]@);
        match rewrite_stmt(
            retval,
            &block.body[n],
            &block_req.required_statements[n],
            expr_map,
            functions,
        ) {
            Some(Some(stmt)) => {
                let ghost before = body@;
                body.push(stmt);
                assert(body@.drop_last() =~= before);
            },
            Some(None) => (),
            None => {
                proof {
                    lemma_stmts_stuck(
                        block.body@,
                        need.stmts,
                        (n + 1) as nat,
                        total,
                        retval,
                        expr_map@,
                        functions@,
                    );
                }
                return None;
            },
        }
        n = n + 1;
    }
    proof {
        lemma_any_kept(block.body@, need.stmts, total, retval, expr_map@, functions@, body@);
        law_block_left(*block, need, expr_map@, functions@, Block { body });
    }
    if body.len() == 0 {
        assert forall|new: Block| new.body@.len() == 0 implies #[trigger] block_rewritten(
            *block,
            need,
            expr_map@,
            functions@,
            new,
        ) by {
            assert(new.body@ =~= body@);
        }
        Some(None)
    } else {
        Some(Some(Block { body }))
    }
}

/// What is kept of a block, with an empty block for nothing. `None` where the
/// block cannot be rewritten.
fn rewrite_block_or_empty(
    block: &Block,
    block_req: &BlockReq,
    expr_map: &HashMap<usize, usize>,
    functions: &HashMap<usize, usize>,
) -> (r: Option<Block>)
    ensures
        match r {
            Some(new) => {
                &&& block_rewritable(*block, block_req@, expr_map@, functions@)
                &&& block_rewritten(*block, block_req@, expr_map@, functions@, new)
            },
            None => !block_rewritable(*block, block_req@, expr_map@, functions@),
        },
    decreases block, 1nat,
{
    match rewrite_block(block, block_req, expr_map, functions) {
        Some(Some(new)) => Some(new),
        Some(None) => Some(Block { body: Vec::new() }),
        None => None,
    }
}

/// What is kept of a statement; `None` inside where nothing is, `None` where
/// the statement cannot be rewritten.
fn rewrite_stmt(
    retval: bool,
    stmt: &Statement,
    req: &StatementReq,
    expr_map: &HashMap<usize, usize>,
    functions: &HashMap<usize, usize>,
) -> (r: Option<Option<Statement>>)
    ensures
        match r {
            Some(Some(new)) => {
                &&& rewritable(*stmt, req@, retval, expr_map@, functions@)
                &&& kept(*stmt, req@)
                &&& rewritten(*stmt, req@, retval, expr_map@, functions@, new)
            },
            Some(None) => {
                &&& rewritable(*stmt, req@, retval, expr_map@, functions@)
                &&& !kept(*stmt, req@)
            },
            None => !rewritable(*stmt, req@, retval, expr_map@, functions@),
        },
    decreases stmt, 0nat,
{
    match (stmt, req) {
        (Statement::Emit(range), StatementReq::Emit(flags)) => {
            match rewrite_emit(range, flags, expr_map) {
                Some(Some(range)) => Some(Some(Statement::Emit(range))),
                Some(None) => Some(None),
                None => None,
            }
        },
        (Statement::Block(block), StatementReq::BlockStmt(reqs)) => {
            match rewrite_block(block, reqs, expr_map, functions) {
                Some(Some(new)) => Some(Some(Statement::Block(new))),
                Some(None) => Some(None),
                None => None,
            }
        },
        (
            Statement::If { condition, accept, reject },
            StatementReq::If { condition: required, accept: accept_req, reject: reject_req },
        ) => {
            if !*required {
                return Some(None);
            }
            let accept = rewrite_block_or_empty(accept, accept_req, expr_map, functions)?;
            let reject = rewrite_block_or_empty(reject, reject_req, expr_map, functions)?;
            let condition = new_handle(expr_map, *condition)?;
            Some(Some(Statement::If { condition, accept, reject }))
        },
        (
            Statement::Switch { selector, cases },
            StatementReq::Switch { selector: required, cases: case_reqs },
        ) => {
            proof {
                lemma_switch_view(*required, *case_reqs);
            }
            if !*required {
                return Some(None);
            }
            let ghost case_needs = block_needs(case_reqs@);
            let ghost total = shorter(cases@.len(), case_needs.len());
            let mut new_cases: Vec<SwitchCase> = Vec::new();
            let mut n: usize = 0;
            while n < cases.len() && n < case_reqs.len()
                invariant
                    *required,
                    *stmt == (Statement::Switch { selector: *selector, cases: *cases }),
                    req@ == (StmtNeed::Switch { selector: *required, cases: case_needs }),
                    case_needs == block_needs(case_reqs@),
                    total == shorter(cases@.len(), case_needs.len()),
                    n <= total,
                    new_cases.len() == n,
                    cases_rewritable(cases@, case_needs, n as nat, expr_map@, functions@),
                    cases_rewritten(
                        cases@,
                        case_needs,
                        n as nat,
                        expr_map@,
                        functions@,
                        new_cases@,
                    ),
                ensures
                    n == total,
                decreases cases.len() - n,
            {
                let case = &cases[n];
                proof {
                    assert(decreases_to!(stmt => stmt->Switch_cases));
                    assert(decreases_to!(*cases => cases@));
                    assert(decreases_to!(cases@ => cases@[n as int]));
                }
                assert(case_needs[n as int] == case_reqs@[n as int]@);
                match rewrite_block_or_empty(&case.body, &case_reqs[n], expr_map, functions) {
                    Some(body) => {
                        let ghost before = new_cases@;
                        new_cases.push(
                            SwitchCase {
                                value: case.value,
                                body,
                                fall_through: case.fall_through,
                            },
                        );
                        proof {
                            lemma_cases_prefix(
                                cases@,
                                case_needs,
                                n as nat,
                                expr_map@,
                                functions@,
                                before,
                                new_cases@,
                            );
                        }
                    },
                    None => {
                        proof {
                            lemma_cases_stuck(
                                cases@,
                                case_needs,
                                (n + 1) as nat,
                                total,
                                expr_map@,
                                functions@,
                            );
                        }
                        return None;
                    },
                }
                n = n + 1;
            }
            let selector = new_handle(expr_map, *selector)?;
            Some(Some(Statement::Switch { selector, cases: new_cases }))
        },
        (
            Statement::Loop { body, continuing, break_if },
            StatementReq::Loop { body: body_req, continuing: continuing_req, required },
        ) => {
            if !*required {
                return Some(None);
            }
            let body = rewrite_block_or_empty(body, body_req, expr_map, functions)?;
            let continuing = rewrite_block_or_empty(
                continuing,
                continuing_req,
                expr_map,
                functions,
            )?;
            let break_if = new_opt(expr_map, break_if)?;
            Some(Some(Statement::Loop { body, continuing, break_if }))
        },
        (Statement::Break, _) => Some(Some(Statement::Break)),
        (Statement::Continue, _) => Some(Some(Statement::Continue)),
        (Statement::Return { value }, StatementReq::Return(_)) => {
            let value = if retval {
                new_opt(expr_map, value)?
            } else {
                None
            };
            Some(Some(Statement::Return { value }))
        },
        (Statement::Kill, _) => Some(Some(Statement::Kill)),
        (Statement::Barrier(barrier), _) => Some(Some(Statement::Barrier(*barrier))),
        (Statement::Store { pointer, value }, StatementReq::Store(required)) => {
            if !*required {
                return Some(None);
            }
            Some(
                Some(
                    Statement::Store {
                        pointer: new_handle(expr_map, *pointer)?,
                        value: new_handle(expr_map, *value)?,
                    },
                ),
            )
        },
        (
            Statement::ImageStore { image, coordinate, array_index, value },
            StatementReq::ImageStore(required),
        ) => {
            if !*required {
                return Some(None);
            }
            Some(
                Some(
                    Statement::ImageStore {
                        image: new_handle(expr_map, *image)?,
                        coordinate: new_handle(expr_map, *coordinate)?,
                        array_index: new_opt(expr_map, array_index)?,
                        value: new_handle(expr_map, *value)?,
                    },
                ),
            )
        },
        (Statement::Atomic { pointer, fun, value, result }, StatementReq::Atomic(required)) => {
            if !*required {
                return Some(None);
            }
            Some(
                Some(
                    Statement::Atomic {
                        pointer: new_handle(expr_map, *pointer)?,
                        fun: *fun,
                        value: new_handle(expr_map, *value)?,
                        result: new_handle(expr_map, *result)?,
                    },
                ),
            )
        },
        (
            Statement::Call { function, arguments, result },
            StatementReq::Call { call_required, result_required },
        ) => {
            if !*call_required {
                return Some(None);
            }
            let result = if *result_required {
                new_opt(expr_map, result)?
            } else {
                None
            };
            let arguments = rewrite_arguments(arguments, expr_map)?;
            let function = new_handle(functions, *function)?;
            Some(Some(Statement::Call { function, arguments, result }))
        },
        _ => None,
    }
}

/// The new handles of the local variables.
pub open spec fn local_handles(need: FnNeed, function: Function) -> Map<usize, usize> {
    compacted(need.body.context.locals.dom(), function.local_variables@.len())
}

/// Whether a function can be pruned: each required expression finds the
/// expressions that it is rewritten with among those before it, the body can
/// be rewritten, and what the function uses of the module has new handles.
pub open spec fn prunable(need: FnNeed, function: Function, handles: Handles) -> bool {
    &&& arguments_movable(function.arguments@, handles)
    &&& need.body.context.retval is Some && function.result is Some ==> handles.types.contains_key(
        function.result->0.ty,
    )
    &&& locals_movable(
        need.body.context.locals.dom(),
        function.local_variables@,
        function.local_variables@.len(),
        handles,
    )
    &&& exprs_prunable(
        need.exprs.dom(),
        function.expressions@,
        function.expressions@.len(),
        handles,
        local_handles(need, function),
    )
    &&& block_rewritable(
        function.body,
        need.body,
        compacted(need.exprs.dom(), function.expressions@.len()),
        handles.functions,
    )
}

/// Whether the types of the arguments have new handles.
pub open spec fn arguments_movable(arguments: Seq<FunctionArgument>, handles: Handles) -> bool {
    forall|i: int|
        0 <= i < arguments.len() ==> handles.types.contains_key((#[trigger] arguments[i]).ty)
}

/// The arguments with the new handles of their types.
pub open spec fn moved_arguments(arguments: Seq<FunctionArgument>, handles: Handles) -> Seq<
    FunctionArgument,
> {
    Seq::new(
        arguments.len(),
        |i: int| FunctionArgument { ty: handles.types[arguments[i].ty], ..arguments[i] },
    )
}

/// The result with the new handle of its type.
pub open spec fn moved_result(result: Option<FunctionResult>, handles: Handles) -> Option<
    FunctionResult,
> {
    match result {
        Some(result) => Some(FunctionResult { ty: handles.types[result.ty], ..result }),
        None => None,
    }
}

/// Whether what a local variable uses of the module has new handles.
pub open spec fn local_movable(local: LocalVariable, handles: Handles) -> bool {
    handles.types.contains_key(local.ty) && has_opt(handles.constants, local.init)
}

/// A local variable with the new handles of what it uses of the module.
pub open spec fn moved_local(local: LocalVariable, handles: Handles) -> LocalVariable {
    LocalVariable {
        ty: handles.types[local.ty],
        init: moved_opt(local.init, handles.constants),
        ..local
    }
}

/// Whether what the required local variables among the first `n` use of the
/// module has new handles.
pub open spec fn locals_movable(
    required: Set<usize>,
    locals: Seq<LocalVariable>,
    n: nat,
    handles: Handles,
) -> bool {
    forall|h: usize|
        h < n && #[trigger] required.contains(h) ==> local_movable(locals[h as int], handles)
}

/// The local variables with the new handles of what they use of the module.
pub open spec fn moved_locals(locals: Seq<LocalVariable>, handles: Handles) -> Seq<LocalVariable> {
    Seq::new(locals.len(), |i: int| moved_local(locals[i], handles))
}

/// Whether each required expression among the first `n` can be rewritten.
pub open spec fn exprs_prunable(
    required: Set<usize>,
    exprs: Seq<Expression>,
    n: nat,
    handles: Handles,
    locals: Map<usize, usize>,
) -> bool {
    forall|h: usize|
        h < n && #[trigger] required.contains(h) ==> remappable(
            exprs[h as int],
            handles,
            locals,
            compacted(required, h as nat),
        )
}

/// Whether `new` are the required expressions among the first `n`, in their
/// order, each with the new handles of its operands.
pub open spec fn exprs_pruned(
    required: Set<usize>,
    exprs: Seq<Expression>,
    n: nat,
    handles: Handles,
    locals: Map<usize, usize>,
    new: Seq<Expression>,
) -> bool {
    &&& new.len() == rank(required, n)
    &&& forall|h: usize|
        h < n && #[trigger] required.contains(h) ==> remapped(
            exprs[h as int],
            handles,
            locals,
            compacted(required, h as nat),
            new[rank(required, h as nat) as int],
        )
}

/// Whether `new` has the names of the kept expressions, by their new handles.
pub open spec fn renamed(
    names: Map<usize, String>,
    exprs: Map<usize, usize>,
    new: Map<usize, String>,
) -> bool {
    &&& forall|h: usize|
        names.contains_key(h) && #[trigger] exprs.contains_key(h) ==> new.contains_key(exprs[h])
            && new[exprs[h]] == names[h]
    &&& forall|k: usize| #[trigger]
        new.contains_key(k) ==> exists|h: usize|
            names.contains_key(h) && #[trigger] exprs.contains_key(h) && exprs[h] == k
}

/// Whether `new` is the function pruned to what is required of it.
pub open spec fn pruned(
    need: FnNeed,
    function: Function,
    handles: Handles,
    new: Function,
) -> bool {
    let exprs = compacted(need.exprs.dom(), function.expressions@.len());
    &&& new.name == function.name
    &&& new.arguments@ == moved_arguments(function.arguments@, handles)
    &&& new.result == if need.body.context.retval is Some {
        moved_result(function.result, handles)
    } else {
        None
    }
    &&& new.local_variables@ == kept_of(
        moved_locals(function.local_variables@, handles),
        need.body.context.locals.dom(),
        function.local_variables@.len(),
    )
    &&& exprs_pruned(
        need.exprs.dom(),
        function.expressions@,
        function.expressions@.len(),
        handles,
        local_handles(need, function),
        new.expressions@,
    )
    &&& renamed(function.named_expressions@, exprs, new.named_expressions@)
    &&& block_rewritten(function.body, need.body, exprs, handles.functions, new.body)
}

/// The same name.
pub fn copy_name(name: &Option<String>) -> (r: Option<String>)
    ensures
        r == *name,
{
    match name {
        Some(name) => Some(name.clone()),
        None => None,
    }
}

/// The arguments with the new handles of their types.
fn move_arguments(arguments: &Vec<FunctionArgument>, handles: &HandleMaps) -> (r: Option<
    Vec<FunctionArgument>,
>)
    ensures
        match r {
            Some(new) => arguments_movable(arguments@, handles@) && new@ == moved_arguments(
                arguments@,
                handles@,
            ),
            None => !arguments_movable(arguments@, handles@),
        },
{
    let ghost all = moved_arguments(arguments@, handles@);
    let mut new: Vec<FunctionArgument> = Vec::new();
    let mut i: usize = 0;
    while i < arguments.len()
        invariant
            i <= arguments.len(),
            new.len() == i,
            all == moved_arguments(arguments@, handles@),
            forall|j: int| 0 <= j < i ==> handles@.types.contains_key((#[trigger] arguments[j]).ty),
            forall|j: int| 0 <= j < i ==> #[trigger] new[j] == all[j],
        decreases arguments.len() - i,
    {
        let arg = &arguments[i];
        match new_handle(&handles.types, arg.ty) {
            Some(ty) => new.push(
                FunctionArgument { name: copy_name(&arg.name), ty, binding: arg.binding },
            ),
            None => {
                assert(!handles@.types.contains_key(arguments@[i as int].ty));
                return None;
            },
        }
        i = i + 1;
    }
    assert(new@ =~= all);
    assert(arguments_movable(arguments@, handles@)) by {
        assert forall|j: int| 0 <= j < arguments@.len() implies handles@.types.contains_key(
            (#[trigger] arguments@[j]).ty,
        ) by {
            assert(handles@.types.contains_key(arguments[j].ty));
        }
    }
    Some(new)
}

/// A local variable with the new handles of what it uses of the module.
fn move_local(local: &LocalVariable, handles: &HandleMaps) -> (r: Option<LocalVariable>)
    ensures
        match r {
            Some(new) => local_movable(*local, handles@) && new == moved_local(*local, handles@),
            None => !local_movable(*local, handles@),
        },
{
    let ty = new_handle(&handles.types, local.ty)?;
    let init = new_opt(&handles.constants, &local.init)?;
    Some(LocalVariable { name: copy_name(&local.name), ty, init })
}

/// The names of the kept expressions, by their new handles.
fn rename(
    names: &HashMap<usize, String>,
    expr_map: &HashMap<usize, usize>,
    Ghost(required): Ghost<Set<usize>>,
    Ghost(n): Ghost<nat>,
) -> (new: HashMap<usize, String>)
    requires
        n <= usize::MAX,
        expr_map@ == compacted(required, n),
    ensures
        renamed(names@, expr_map@, new@),
{
    proof {
        lemma_compacted(required, n);
    }
    let mut new: HashMap<usize, String> = HashMap::new();
    let entries = entries_of(names);
    let mut i: usize = 0;
    while i < entries.len()
        invariant
            i <= entries.len(),
            lists(entries@, names@),
            forall|g: usize, h: usize| #[trigger]
                expr_map@.contains_key(g) && #[trigger] expr_map@.contains_key(h) && g != h
                    ==> expr_map@[g] != expr_map@[h],
            forall|j: int|
                0 <= j < i && expr_map@.contains_key((#[trigger] entries[j]).0)
                    ==> new@.contains_key(expr_map@[entries[j].0]) && new@[expr_map@[entries[j].0]]
                    == names@[entries[j].0],
            forall|k: usize| #[trigger]
                new@.contains_key(k) ==> exists|h: usize|
                    names@.contains_key(h) && #[trigger] expr_map@.contains_key(h) && expr_map@[h]
                        == k,
        decreases entries.len() - i,
    {
        let (h, name) = entries[i];
        assert(names@.contains_key(entries@[i as int].0));
        match expr_map.get(&h) {
            Some(new_h) => {
                let ghost before = new@;
                new.insert(*new_h, name.clone());
                assert forall|j: int|
                    0 <= j < i + 1 && expr_map@.contains_key((#[trigger] entries[j]).0) implies {
                    &&& new@.contains_key(expr_map@[entries[j].0])
                    &&& new@[expr_map@[entries[j].0]] == names@[entries[j].0]
                } by {
                    if j < i {
                        assert(entries[j].0 != entries[i as int].0);
                    }
                }
                assert forall|k: usize| #[trigger] new@.contains_key(k) implies exists|h: usize|
                    names@.contains_key(h) && #[trigger] expr_map@.contains_key(h) && expr_map@[h]
                        == k by {
                    if k == *new_h {
                        assert(names@.contains_key(h) && expr_map@.contains_key(h));
                    } else {
                        assert(before.contains_key(k));
                    }
                }
            },
            None => (),
        }
        i = i + 1;
    }
    assert forall|h: usize|
        names@.contains_key(h) && #[trigger] expr_map@.contains_key(h) implies new@.contains_key(
        expr_map@[h],
    ) && new@[expr_map@[h]] == names@[h] by {
        let j = choose|j: int| 0 <= j < entries.len() && (#[trigger] entries[j]).0 == h;
        assert(entries[j].0 == h);
    }
    new
}

impl FunctionReq {
    /// The function pruned to what is required of it. `None` where it cannot
    /// be.
    pub fn prune(&self, func: &Function, handles: &HandleMaps) -> (r: Option<Function>)
        ensures
            match r {
                Some(new) => {
                    &&& prunable(self@, *func, handles@)
                    &&& pruned(self@, *func, handles@, new)
                },
                None => !prunable(self@, *func, handles@),
            },
    {
        let ghost need = self@;
        let ghost kept_locals = need.body.context.locals.dom();
        let ghost required = need.exprs.dom();
        let ghost all_locals = moved_locals(func.local_variables@, handles@);

        let arguments = match move_arguments(&func.arguments, handles) {
            Some(arguments) => arguments,
            None => {
                return None;
            },
        };
        let result = match (self.requires_result(), &func.result) {
            (true, Some(result)) => match new_handle(&handles.types, result.ty) {
                Some(ty) => Some(FunctionResult { ty, binding: result.binding }),
                None => {
                    return None;
                },
            },
            _ => None,
        };

        let mut local_variables: Vec<LocalVariable> = Vec::new();
        let mut local_map: HashMap<usize, usize> = HashMap::new();
        assert(local_map@ =~= compacted(kept_locals, 0));
        let mut h: usize = 0;
        while h < func.local_variables.len()
            invariant
                h <= func.local_variables.len(),
                need == self@,
                kept_locals == need.body.context.locals.dom(),
                local_map@ == compacted(kept_locals, h as nat),
                all_locals == moved_locals(func.local_variables@, handles@),
                locals_movable(kept_locals, func.local_variables@, h as nat, handles@),
                local_variables@ == kept_of(all_locals, kept_locals, h as nat),
                local_variables@.len() == rank(kept_locals, h as nat),
            decreases func.local_variables.len() - h,
        {
            proof {
                lemma_compacted_step(kept_locals, h);
            }
            if self.requires_local(h) {
                match move_local(&func.local_variables[h], handles) {
                    Some(local) => {
                        local_map.insert(h, local_variables.len());
                        local_variables.push(local);
                    },
                    None => {
                        assert(kept_locals.contains(h) && !local_movable(
                            func.local_variables@[h as int],
                            handles@,
                        ));
                        return None;
                    },
                }
            }
            h = h + 1;
        }

        let mut expressions: Vec<Expression> = Vec::new();
        let mut expr_map: HashMap<usize, usize> = HashMap::new();
        assert(expr_map@ =~= compacted(required, 0));
        let mut h: usize = 0;
        while h < func.expressions.len()
            invariant
                h <= func.expressions.len(),
                need == self@,
                required == need.exprs.dom(),
                local_map@ == local_handles(need, *func),
                expr_map@ == compacted(required, h as nat),
                exprs_prunable(required, func.expressions@, h as nat, handles@, local_map@),
                exprs_pruned(
                    required,
                    func.expressions@,
                    h as nat,
                    handles@,
                    local_map@,
                    expressions@,
                ),
            decreases func.expressions.len() - h,
        {
            proof {
                lemma_compacted_step(required, h);
            }
            if self.requires_expr(h) {
                match remap_expr(&func.expressions[h], handles, &local_map, &expr_map) {
                    Some(new) => {
                        expr_map.insert(h, expressions.len());
                        let ghost before = expressions@;
                        expressions.push(new);
                        assert forall|g: usize|
                            g < h + 1 && #[trigger] required.contains(g) implies remapped(
                            func.expressions@[g as int],
                            handles@,
                            local_map@,
                            compacted(required, g as nat),
                            expressions@[rank(required, g as nat) as int],
                        ) by {
                            if g < h {
                                lemma_rank(required, g as nat, h as nat);
                            }
                        }
                    },
                    None => {
                        assert(required.contains(h) && !remappable(
                            func.expressions@[h as int],
                            handles@,
                            local_map@,
                            compacted(required, h as nat),
                        ));
                        return None;
                    },
                }
            }
            h = h + 1;
        }

        let named_expressions = rename(
            &func.named_expressions,
            &expr_map,
            Ghost(required),
            Ghost(func.expressions@.len()),
        );
        let body = match rewrite_block_or_empty(
            &func.body,
            &self.body_required,
            &expr_map,
            &handles.functions,
        ) {
            Some(body) => body,
            None => {
                return None;
            },
        };
        Some(
            Function {
                name: copy_name(&func.name),
                arguments,
                result,
                local_variables,
                expressions,
                named_expressions,
                body,
            },
        )
    }
}

} // verus!
