//! Laws of rewritten statements: what is left of a statement is what it was,
//! with new handles, and with what is left of its blocks.
use crate::block_laws::{law_required_kept, matched};
use crate::ir::{Block, Range, Statement, SwitchCase};
use crate::need::{shorter, BlockNeed, StmtNeed};
use crate::prune::{
    block_rewritten, cases_rewritten, chosen, flagged, kept, lemma_any_kept, rewritable, rewritten,
};
use vstd::prelude::*;

verus! {

/// The handles of the first `n` expressions of a range whose flag is set have
/// their new handles among those that are chosen, and no others have.
proof fn lemma_chosen_exact(
    start: usize,
    flags: Seq<bool>,
    exprs: Map<usize, usize>,
    n: nat,
)
    requires
        chosen(start, flags, exprs, n) is Some,
        start + n <= usize::MAX,
    ensures
        forall|i: int|
            0 <= i < n && #[trigger] flags[i] ==> exprs.contains_key((start + i) as usize)
                && chosen(start, flags, exprs, n)->0.contains(exprs[(start + i) as usize]),
        forall|k: int|
            0 <= k < chosen(start, flags, exprs, n)->0.len() ==> is_flagged(
                start,
                flags,
                exprs,
                n,
                #[trigger] chosen(start, flags, exprs, n)->0[k],
            ),
    decreases n,
{
    if n > 0 {
        let m = (n - 1) as nat;
        lemma_chosen_exact(start, flags, exprs, m);
        let before = chosen(start, flags, exprs, m)->0;
        let after = chosen(start, flags, exprs, n)->0;
        assert forall|i: int| 0 <= i < n && #[trigger] flags[i] implies exprs.contains_key(
            (start + i) as usize,
        ) && after.contains(exprs[(start + i) as usize]) by {
            if i < m {
                let k = choose|k: int|
                    0 <= k < before.len() && before[k] == exprs[(start + i) as usize];
                assert(after[k] == before[k]);
            } else {
                assert(after[after.len() - 1] == exprs[(start + i) as usize]);
            }
        }
        assert forall|k: int| 0 <= k < after.len() implies is_flagged(
            start,
            flags,
            exprs,
            n,
            #[trigger] after[k],
        ) by {
            if k < before.len() {
                assert(after[k] == before[k]);
                assert(is_flagged(start, flags, exprs, m, before[k]));
            } else {
                assert(flags[m as int]);
            }
        }
    }
}

/// Whether `new` is the new handle of one of the first `n` expressions of a
/// range whose flag is set.
pub open spec fn is_flagged(
    start: usize,
    flags: Seq<bool>,
    exprs: Map<usize, usize>,
    n: nat,
    new: usize,
) -> bool {
    exists|i: int|
        0 <= i < n && #[trigger] flags[i] && exprs.contains_key((start + i) as usize)
            && exprs[(start + i) as usize] == new
}

/// What is left of an emit statement emits the required expressions of its
/// range, and no others.
pub proof fn law_emit_left(
    range: Range,
    flags: Seq<bool>,
    retval: bool,
    exprs: Map<usize, usize>,
    functions: Map<usize, usize>,
    new: Statement,
)
    requires
        range.start <= range.end,
        flags.len() == range.end - range.start,
        kept(Statement::Emit(range), StmtNeed::Emit(flags)),
        rewritable(Statement::Emit(range), StmtNeed::Emit(flags), retval, exprs, functions),
        rewritten(Statement::Emit(range), StmtNeed::Emit(flags), retval, exprs, functions, new),
    ensures
        new matches Statement::Emit(left) && {
            &&& left.start < left.end
            &&& forall|i: int|
                0 <= i < flags.len() && #[trigger] flags[i] ==> left.start <= exprs[(range.start
                    + i) as usize] < left.end
            &&& forall|k: usize|
                left.start <= k < left.end ==> #[trigger] is_flagged(
                    range.start,
                    flags,
                    exprs,
                    flags.len(),
                    k,
                )
        },
{
    let n = flagged(range, flags);
    let handles = chosen(range.start, flags, exprs, n)->0;
    lemma_chosen_exact(range.start, flags, exprs, n);
    let first = choose|i: int| 0 <= i < n && #[trigger] flags[i];
    assert(handles.contains(exprs[(range.start + first) as usize]));
    assert(handles.len() > 0);
    if let Statement::Emit(left) = new {
        assert(handles.last() == handles[handles.len() - 1]);
        assert(left.end == handles[0] + handles.len());
        assert forall|i: int| 0 <= i < flags.len() && #[trigger] flags[i] implies left.start
            <= exprs[(range.start + i) as usize] < left.end by {
            let k = choose|k: int|
                0 <= k < handles.len() && handles[k] == exprs[(range.start + i) as usize];
            assert(handles[k] == handles[0] + k);
        }
        assert forall|k: usize| left.start <= k < left.end implies #[trigger] is_flagged(
            range.start,
            flags,
            exprs,
            flags.len(),
            k,
        ) by {
            let j = k - handles[0];
            assert(handles[j] == k);
            assert(is_flagged(range.start, flags, exprs, n, handles[j]));
        }
    }
}

/// What is left of a store, a store to an image, an atomic operation, a call and
/// a return has the new handles of its operands, each in its place. A return
/// keeps its value where the result of the function is required, a call its
/// result where that is.
pub proof fn law_operands_left(
    stmt: Statement,
    need: StmtNeed,
    retval: bool,
    exprs: Map<usize, usize>,
    functions: Map<usize, usize>,
    new: Statement,
)
    requires
        kept(stmt, need),
        rewritten(stmt, need, retval, exprs, functions, new),
    ensures
        match stmt {
            Statement::Store { pointer, value } => {
                &&& new matches Statement::Store { pointer: p, value: v }
                &&& p == exprs[pointer]
                &&& v == exprs[value]
            },
            Statement::ImageStore { image, coordinate, array_index, value } => {
                &&& new matches Statement::ImageStore {
                    image: i,
                    coordinate: c,
                    array_index: a,
                    value: v,
                }
                &&& i == exprs[image]
                &&& c == exprs[coordinate]
                &&& a is Some <==> array_index is Some
                &&& array_index matches Some(h) ==> a == Some(exprs[h])
                &&& v == exprs[value]
            },
            Statement::Atomic { pointer, fun, value, result } => {
                &&& new matches Statement::Atomic { pointer: p, fun: f, value: v, result: r }
                &&& p == exprs[pointer]
                &&& f == fun
                &&& v == exprs[value]
                &&& r == exprs[result]
            },
            Statement::Call { function, arguments, result } => {
                &&& new matches Statement::Call { function: f, arguments: a, result: r }
                &&& f == functions[function]
                &&& a@.len() == arguments@.len()
                &&& forall|i: int| 0 <= i < a@.len() ==> #[trigger] a@[i] == exprs[arguments@[i]]
                &&& need matches StmtNeed::Call { result_required, .. } && {
                    &&& result_required && result is Some ==> r == Some(exprs[result->0])
                    &&& !result_required || result is None ==> r is None
                }
            },
            Statement::Return { value } => {
                &&& new matches Statement::Return { value: v }
                &&& retval && value is Some ==> v == Some(exprs[value->0])
                &&& !retval || value is None ==> v is None
            },
            Statement::Break => new == stmt,
            Statement::Continue => new == stmt,
            Statement::Kill => new == stmt,
            Statement::Barrier(_) => new == stmt,
            _ => true,
        },
{
}

/// What is left of a branch or a loop has what is left of each of its blocks in
/// its place, and the new handle of its condition. The cases of a switch keep
/// their values and whether they fall through.
pub proof fn law_blocks_left(
    stmt: Statement,
    need: StmtNeed,
    retval: bool,
    exprs: Map<usize, usize>,
    functions: Map<usize, usize>,
    new: Statement,
)
    requires
        kept(stmt, need),
        rewritten(stmt, need, retval, exprs, functions, new),
    ensures
        match stmt {
            Statement::Block(block) => {
                &&& need matches StmtNeed::BlockStmt(n)
                &&& new matches Statement::Block(b)
                &&& block_rewritten(block, n, exprs, functions, b)
            },
            Statement::If { condition, accept, reject } => {
                &&& need matches StmtNeed::If { accept: p, reject: q, .. }
                &&& new matches Statement::If { condition: c, accept: a, reject: r }
                &&& c == exprs[condition]
                &&& block_rewritten(accept, p, exprs, functions, a)
                &&& block_rewritten(reject, q, exprs, functions, r)
            },
            Statement::Loop { body, continuing, break_if } => {
                &&& need matches StmtNeed::Loop { body: p, continuing: q, .. }
                &&& new matches Statement::Loop { body: b, continuing: c, break_if: e }
                &&& block_rewritten(body, p, exprs, functions, b)
                &&& block_rewritten(continuing, q, exprs, functions, c)
                &&& e is Some <==> break_if is Some
                &&& break_if matches Some(h) ==> e == Some(exprs[h])
            },
            Statement::Switch { selector, cases } => {
                &&& need matches StmtNeed::Switch { cases: needs, .. }
                &&& new matches Statement::Switch { selector: s, cases: left }
                &&& s == exprs[selector]
                &&& needs.len() == cases@.len() ==> left@.len() == cases@.len()
                &&& forall|i: int|
                    0 <= i < left@.len() ==> {
                        &&& (#[trigger] left@[i]).value == cases@[i].value
                        &&& left@[i].fall_through == cases@[i].fall_through
                        &&& block_rewritten(
                            cases@[i].body,
                            needs[i],
                            exprs,
                            functions,
                            left@[i].body,
                        )
                    }
            },
            _ => true,
        },
{
    if let (Statement::Switch { cases, .. }, StmtNeed::Switch { cases: needs, .. }) = (stmt, need) {
        if let Statement::Switch { cases: left, .. } = new {
            assert forall|i: int| 0 <= i < left@.len() implies {
                &&& (#[trigger] left@[i]).value == cases@[i].value
                &&& left@[i].fall_through == cases@[i].fall_through
                &&& block_rewritten(cases@[i].body, needs[i], exprs, functions, left@[i].body)
            } by {
                lemma_case_left(cases@, needs, left@.len(), exprs, functions, left@, i);
            }
        }
    }
}

/// Each of the first `n` cases.
proof fn lemma_case_left(
    cases: Seq<SwitchCase>,
    needs: Seq<BlockNeed>,
    n: nat,
    exprs: Map<usize, usize>,
    functions: Map<usize, usize>,
    new: Seq<SwitchCase>,
    i: int,
)
    requires
        0 <= i < n,
        cases_rewritten(cases, needs, n, exprs, functions, new),
    ensures
        new[i].value == cases[i].value,
        new[i].fall_through == cases[i].fall_through,
        block_rewritten(cases[i].body, needs[i], exprs, functions, new[i].body),
    decreases n,
{
    if i < n - 1 {
        lemma_case_left(cases, needs, (n - 1) as nat, exprs, functions, new, i);
    }
}

/// Which statements are left of a block that is left: all that are required,
/// and breaks, continues, returns, kills and barriers.
pub proof fn law_kept(stmt: Statement, need: StmtNeed)
    requires
        matched(stmt, need),
    ensures
        need.required() ==> kept(stmt, need),
        stmt is Break || stmt is Continue || stmt is Return || stmt is Kill || stmt is Barrier
            ==> kept(stmt, need),
        stmt is Store || stmt is ImageStore || stmt is Atomic || stmt is Call || stmt is If
            || stmt is Switch || stmt is Loop || stmt is Emit ==> (kept(stmt, need)
            <==> need.required()),
{
    if need.required() {
        law_required_kept(stmt, need);
    }
    if let (Statement::Emit(range), StmtNeed::Emit(flags)) = (stmt, need) {
        if kept(stmt, need) {
            let i = choose|i: int| 0 <= i < flagged(range, flags) && #[trigger] flags[i];
            assert(flags[i] == true);
        }
    }
}

/// What is left of a block that stands by itself is not empty, and it is left
/// where something is left of it.
pub proof fn law_nested_block_left(
    block: Block,
    need: BlockNeed,
    exprs: Map<usize, usize>,
    functions: Map<usize, usize>,
    new: Block,
)
    requires
        block_rewritten(block, need, exprs, functions, new),
    ensures
        kept(Statement::Block(block), StmtNeed::BlockStmt(need)) <==> new.body@.len() > 0,
{
    lemma_any_kept(
        block.body@,
        need.stmts,
        shorter(block.body@.len(), need.stmts.len()),
        need.context.retval is Some,
        exprs,
        functions,
        new.body@,
    );
}

} // verus!
