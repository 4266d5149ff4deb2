//! Laws of the analysis: what is required of a function hangs together, and
//! stays required.
use crate::context::{opt_add, Context};
use crate::expr::{demands, need_all, need_expr, picked, touched};
use crate::flow::{
    block_flow, body_flow, call_operands, cases_flow, emitted, entry_flow, expr_req, fn_at, fn_flow,
    image_operands, joined, need_opt, rounds_flow, span, stmt_flow, stmts_flow, store_flow,
};
use crate::grow_laws::{fn_grows, found_grows, law_function_grows};
use crate::ir::{Block, EntryPoint, Expression, Function, Module, Range, Statement, SwitchCase};
use crate::live::{Found, Live};
use crate::need::{add_blocks, add_stmts, flags_or, BlockNeed, FnNeed, StmtNeed};
use crate::part::{covers, lemma_add_parts, merged, Req};
use crate::part_laws::law_context_transitive;
use crate::rewrite::kept_functions;
use vstd::prelude::*;

verus! {

/// Whether each of the demands is for a required expression.
pub open spec fn all_in(demands: Seq<(usize, Req)>, exprs: Map<usize, Req>) -> bool {
    forall|i: int| 0 <= i < demands.len() ==> exprs.contains_key((#[trigger] demands[i]).0)
}

/// Whether the operands that a required expression demands are required too.
pub open spec fn operands_in(function: Function, exprs: Map<usize, Req>, h: usize) -> bool {
    &&& h < function.expressions.len()
    &&& demands(function.expressions[h as int], exprs[h]) matches Some(operands)
    &&& all_in(operands, exprs)
}

/// Whether with each required expression the operands that it demands are
/// required.
pub open spec fn closed(function: Function, exprs: Map<usize, Req>) -> bool {
    forall|h: usize| #[trigger] exprs.contains_key(h) ==> operands_in(function, exprs, h)
}

/// The required expressions of a function, and the functions whose bodies are
/// required.
pub struct Seen {
    pub exprs: Map<usize, Req>,
    pub kept: Set<usize>,
}

impl Seen {
    /// Whether `other` has seen as much.
    pub open spec fn within(self, other: Seen) -> bool {
        self.exprs.dom().subset_of(other.exprs.dom()) && self.kept.subset_of(other.kept)
    }
}

impl Live {
    /// The expressions and functions that are required so far.
    pub open spec fn seen(self) -> Seen {
        Seen { exprs: self.exprs, kept: kept_functions(self.found.functions) }
    }
}

/// Whether what is required of a statement is about the statement, and the
/// expressions that it is rewritten with where it is required are required.
/// The function of a required call is kept. `retval` is whether the result of
/// the function that the statement stands in is required.
///
/// Nothing is said of the arguments of a call: the function may not require
/// them.
pub open spec fn agrees(
    stmt: Statement,
    need: StmtNeed,
    retval: bool,
    seen: Seen,
) -> bool
    decreases stmt,
{
    match (stmt, need) {
        (Statement::Emit(range), StmtNeed::Emit(flags)) => {
            &&& flags.len() == span(range)
            &&& flags_in(range, flags, seen.exprs)
        },
        (Statement::Block(block), StmtNeed::BlockStmt(need)) => block_agrees(block, need, seen),
        (
            Statement::If { condition, accept, reject },
            StmtNeed::If { condition: required, accept: accept_need, reject: reject_need },
        ) => {
            &&& required ==> seen.exprs.contains_key(condition)
            &&& block_agrees(accept, accept_need, seen)
            &&& block_agrees(reject, reject_need, seen)
        },
        (
            Statement::Switch { selector, cases },
            StmtNeed::Switch { selector: required, cases: needs },
        ) => {
            &&& required ==> seen.exprs.contains_key(selector)
            &&& needs.len() == cases@.len()
            &&& cases_agree(cases@, needs, cases@.len(), seen)
        },
        (
            Statement::Loop { body, continuing, break_if },
            StmtNeed::Loop { body: body_need, continuing: continuing_need, required },
        ) => {
            &&& required ==> opt_in(break_if, seen.exprs)
            &&& block_agrees(body, body_need, seen)
            &&& block_agrees(continuing, continuing_need, seen)
        },
        (Statement::Break, StmtNeed::Break(_)) => true,
        (Statement::Continue, StmtNeed::Continue(_)) => true,
        (Statement::Return { value }, StmtNeed::Return(_)) => retval ==> opt_in(value, seen.exprs),
        (Statement::Kill, StmtNeed::Kill) => true,
        (Statement::Barrier(_), StmtNeed::Barrier) => true,
        (Statement::Store { pointer, value }, StmtNeed::Store(required)) => required
            ==> seen.exprs.contains_key(pointer) && seen.exprs.contains_key(value),
        (
            Statement::ImageStore { image, coordinate, array_index, value },
            StmtNeed::ImageStore(required),
        ) => required ==> {
            &&& seen.exprs.contains_key(image)
            &&& seen.exprs.contains_key(coordinate)
            &&& opt_in(array_index, seen.exprs)
            &&& seen.exprs.contains_key(value)
        },
        (
            Statement::Call { function, result, .. },
            StmtNeed::Call { call_required, result_required },
        ) => {
            &&& call_required ==> seen.kept.contains(function)
            &&& result_required ==> call_required && opt_in(result, seen.exprs)
        },
        _ => false,
    }
}

/// Whether an optional expression is required.
pub open spec fn opt_in(h: Option<usize>, exprs: Map<usize, Req>) -> bool {
    h is Some ==> exprs.contains_key(h->0)
}

/// Whether the expressions of a range whose flags are set are required.
pub open spec fn flags_in(range: Range, flags: Seq<bool>, exprs: Map<usize, Req>) -> bool {
    forall|i: int|
        0 <= i < flags.len() && #[trigger] flags[i] ==> exprs.contains_key(
            (range.start + i) as usize,
        )
}

/// Whether what is required of the last `n` statements is about them.
pub open spec fn stmts_agree(
    stmts: Seq<Statement>,
    needs: Seq<StmtNeed>,
    n: nat,
    retval: bool,
    seen: Seen,
) -> bool
    decreases stmts, n,
{
    if n == 0 || n > stmts.len() {
        n == 0
    } else {
        &&& stmts_agree(stmts, needs, (n - 1) as nat, retval, seen)
        &&& agrees(stmts[stmts.len() - n], needs[needs.len() - n], retval, seen)
    }
}

/// Whether what is required of a block is about the block.
pub open spec fn block_agrees(block: Block, need: BlockNeed, seen: Seen) -> bool
    decreases block,
{
    &&& need.stmts.len() == block.body@.len()
    &&& stmts_agree(
        block.body@,
        need.stmts,
        block.body@.len(),
        need.context.retval is Some,
        seen,
    )
}

/// Whether what is required of the last `n` cases is about them. It stands in
/// the order in which the cases are gone through, from the last to the first.
pub open spec fn cases_agree(
    cases: Seq<SwitchCase>,
    needs: Seq<BlockNeed>,
    n: nat,
    seen: Seen,
) -> bool
    decreases cases, n,
{
    if n == 0 || n > cases.len() {
        n == 0
    } else {
        &&& cases_agree(cases, needs, (n - 1) as nat, seen)
        &&& block_agrees(cases[cases.len() - n].body, needs[n - 1], seen)
    }
}

/// Whether what is required of a function hangs together: with each required
/// expression its operands, and with each required statement its expressions.
pub open spec fn fn_agrees(function: Function, need: FnNeed, kept: Set<usize>) -> bool {
    closed(function, need.exprs) && block_agrees(
        function.body,
        need.body,
        Seen { exprs: need.exprs, kept },
    )
}

/// Whether what is required of each function of the module hangs together.
pub open spec fn found_agrees(shader: Module, functions: Map<usize, FnNeed>) -> bool {
    forall|h: usize| #[trigger]
        functions.contains_key(h) ==> h < shader.functions.len() && fn_agrees(
            shader.functions[h as int],
            functions[h],
            kept_functions(functions),
        )
}

/// Whether a step of the analysis takes no required expression and no kept
/// function away, and what is required still hangs together.
pub open spec fn steps(shader: Module, function: Function, a: Live, b: Live) -> bool {
    &&& found_agrees(shader, b.found.functions)
    &&& a.seen().within(b.seen())
    &&& closed(function, a.exprs) ==> closed(function, b.exprs)
    &&& a.context.retval is Some <==> b.context.retval is Some
}

/// One demand more.
pub proof fn lemma_all_in_push(
    demands: Seq<(usize, Req)>,
    h: usize,
    req: Req,
    exprs: Map<usize, Req>,
)
    ensures
        all_in(demands.push((h, req)), exprs) <==> all_in(demands, exprs) && exprs.contains_key(h),
{
    let longer = demands.push((h, req));
    if all_in(longer, exprs) {
        assert(longer[demands.len() as int] == (h, req));
        assert forall|i: int| 0 <= i < demands.len() implies exprs.contains_key(
            (#[trigger] demands[i]).0,
        ) by {
            assert(longer[i] == demands[i]);
        }
    }
}

/// All that is picked is required where each component is that has a
/// requirement on it.
proof fn lemma_all_in_picked(
    components: Seq<usize>,
    parts: Map<usize, Req>,
    n: nat,
    exprs: Map<usize, Req>,
)
    requires
        n <= components.len() <= usize::MAX,
    ensures
        all_in(picked(components, parts, n), exprs) <==> forall|i: usize|
            i < n && #[trigger] parts.contains_key(i) ==> exprs.contains_key(
                components[i as int],
            ),
    decreases n,
{
    if n > 0 {
        let m = (n - 1) as nat;
        lemma_all_in_picked(components, parts, m, exprs);
        if parts.contains_key(m as usize) {
            lemma_all_in_push(
                picked(components, parts, m),
                components[m as int],
                parts[m as usize],
                exprs,
            );
        }
    }
}

/// Where the operands that are demanded for each of two requirements are
/// required, so are those that are demanded for their sum.
proof fn lemma_demands_sum(expr: Expression, a: Req, b: Req, exprs: Map<usize, Req>)
    requires
        demands(expr, a) is Some,
        demands(expr, b) is Some,
        all_in(demands(expr, a)->0, exprs),
        all_in(demands(expr, b)->0, exprs),
    ensures
        demands(expr, a.add(b)) is Some,
        all_in(demands(expr, a.add(b))->0, exprs),
{
    let sum = a.add(b);
    if let (Req::Part(p), Req::Part(q)) = (a, b) {
        lemma_add_parts(p, q);
    }
    match expr {
        Expression::Compose { components, .. } => {
            let handles = components@;
            assert(handles.len() == components.len());
            if let Req::Part(p) = a {
                lemma_all_in_picked(handles, p, handles.len(), exprs);
            }
            if let Req::Part(q) = b {
                lemma_all_in_picked(handles, q, handles.len(), exprs);
            }
            if let Req::Part(r) = sum {
                lemma_all_in_picked(handles, r, handles.len(), exprs);
            }
        },
        _ => {
            let first = demands(expr, a)->0;
            let last = demands(expr, sum)->0;
            assert(demands(expr, sum) is Some);
            assert(last.len() == first.len());
            assert forall|i: int| 0 <= i < last.len() implies exprs.contains_key(
                (#[trigger] last[i]).0,
            ) by {
                assert(last[i].0 == first[i].0);
            }
        },
    }
}

/// Steps, one after the other.
proof fn lemma_steps(shader: Module, function: Function, a: Live, b: Live, c: Live)
    requires
        found_agrees(shader, a.found.functions),
    ensures
        steps(shader, function, a, a),
        steps(shader, function, a, b) && steps(shader, function, b, c) ==> steps(
            shader,
            function,
            a,
            c,
        ),
{
}

/// What an expression uses of the module is a step.
proof fn lemma_touched_steps(
    shader: Module,
    function: Function,
    expr: Expression,
    part: Req,
    s: Live,
)
    requires
        found_agrees(shader, s.found.functions),
        touched(shader, function, expr, part, s) is Some,
    ensures
        steps(shader, function, s, touched(shader, function, expr, part, s)->0),
        touched(shader, function, expr, part, s)->0.exprs == s.exprs,
{
    lemma_steps(shader, function, s, s, s);
}

/// A required expression is a step, after which it is required.
proof fn lemma_expr_steps(
    shader: Module,
    function: Function,
    depth: nat,
    h: usize,
    part: Req,
    s: Live,
)
    requires
        found_agrees(shader, s.found.functions),
        need_expr(shader, function, depth, h, part, s) is Some,
    ensures
        steps(shader, function, s, need_expr(shader, function, depth, h, part, s)->0),
        need_expr(shader, function, depth, h, part, s)->0.exprs.contains_key(h),
    decreases depth, 0nat,
{
    let expr = function.expressions[h as int];
    let operands = demands(expr, part)->0;
    let s1 = touched(shader, function, expr, part, s)->0;
    lemma_touched_steps(shader, function, expr, part, s);
    lemma_all_steps(shader, function, (depth - 1) as nat, operands, operands.len(), s1);
    let s2 = need_all(shader, function, (depth - 1) as nat, operands, operands.len(), s1)->0;
    lemma_steps(shader, function, s, s1, s2);
    let s3 = s2.with_expr(h, part);
    if closed(function, s2.exprs) {
        assert forall|g: usize| #[trigger] s3.exprs.contains_key(g) implies operands_in(
            function,
            s3.exprs,
            g,
        ) by {
            if s2.exprs.contains_key(g) {
                assert(operands_in(function, s2.exprs, g));
            }
            if g == h && s2.exprs.contains_key(h) {
                lemma_demands_sum(expr, s2.exprs[h], part, s2.exprs);
            }
        }
    }
    assert(steps(shader, function, s2, s3));
    lemma_steps(shader, function, s, s2, s3);
}

/// A list of demands is a step, after which all of them are required.
proof fn lemma_all_steps(
    shader: Module,
    function: Function,
    depth: nat,
    demands: Seq<(usize, Req)>,
    n: nat,
    s: Live,
)
    requires
        found_agrees(shader, s.found.functions),
        n <= demands.len(),
        need_all(shader, function, depth, demands, n, s) is Some,
    ensures
        steps(shader, function, s, need_all(shader, function, depth, demands, n, s)->0),
        forall|i: int|
            0 <= i < n ==> need_all(
                shader,
                function,
                depth,
                demands,
                n,
                s,
            )->0.exprs.contains_key((#[trigger] demands[i]).0),
    decreases depth, n,
{
    lemma_steps(shader, function, s, s, s);
    if n > 0 {
        lemma_all_steps(shader, function, depth, demands, (n - 1) as nat, s);
        let s1 = need_all(shader, function, depth, demands, (n - 1) as nat, s)->0;
        let (h, part) = demands[n - 1];
        lemma_expr_steps(shader, function, depth, h, part, s1);
        let s2 = need_expr(shader, function, depth, h, part, s1)->0;
        lemma_steps(shader, function, s, s1, s2);
        assert forall|i: int| 0 <= i < n implies s2.exprs.contains_key(
            (#[trigger] demands[i]).0,
        ) by {
            if i < n - 1 {
                assert(s1.exprs.contains_key(demands[i].0));
            }
        }
    }
}

/// More required expressions do no harm.
proof fn lemma_agrees_more(
    stmt: Statement,
    need: StmtNeed,
    retval: bool,
    a: Seen,
    b: Seen,
)
    requires
        agrees(stmt, need, retval, a),
        a.within(b),
    ensures
        agrees(stmt, need, retval, b),
    decreases stmt, 0nat,
{
    match (stmt, need) {
        (Statement::Emit(range), StmtNeed::Emit(flags)) => {
            assert forall|i: int|
                0 <= i < flags.len() && #[trigger] flags[i] implies b.exprs.contains_key(
                (range.start + i) as usize,
            ) by {
                assert(a.exprs.dom().contains((range.start + i) as usize));
            }
        },
        (Statement::Block(block), StmtNeed::BlockStmt(need)) => lemma_block_more(block, need, a, b),
        (
            Statement::If { condition, accept, reject },
            StmtNeed::If { accept: accept_need, reject: reject_need, .. },
        ) => {
            lemma_block_more(accept, accept_need, a, b);
            lemma_block_more(reject, reject_need, a, b);
            assert(a.exprs.dom().contains(condition) ==> b.exprs.dom().contains(condition));
        },
        (Statement::Switch { selector, cases }, StmtNeed::Switch { cases: needs, .. }) => {
            lemma_cases_more(cases@, needs, cases@.len(), a, b);
            assert(a.exprs.dom().contains(selector) ==> b.exprs.dom().contains(selector));
        },
        (
            Statement::Loop { body, continuing, break_if },
            StmtNeed::Loop { body: body_need, continuing: continuing_need, .. },
        ) => {
            lemma_block_more(body, body_need, a, b);
            lemma_block_more(continuing, continuing_need, a, b);
            if let Some(h) = break_if {
                assert(a.exprs.dom().contains(h) ==> b.exprs.dom().contains(h));
            }
        },
        (Statement::Return { value }, _) => {
            if let Some(h) = value {
                assert(a.exprs.dom().contains(h) ==> b.exprs.dom().contains(h));
            }
        },
        (Statement::Store { pointer, value }, _) => {
            assert(a.exprs.dom().contains(pointer) ==> b.exprs.dom().contains(pointer));
            assert(a.exprs.dom().contains(value) ==> b.exprs.dom().contains(value));
        },
        (Statement::ImageStore { image, coordinate, array_index, value }, _) => {
            assert(a.exprs.dom().contains(image) ==> b.exprs.dom().contains(image));
            assert(a.exprs.dom().contains(coordinate) ==> b.exprs.dom().contains(coordinate));
            assert(a.exprs.dom().contains(value) ==> b.exprs.dom().contains(value));
            if let Some(h) = array_index {
                assert(a.exprs.dom().contains(h) ==> b.exprs.dom().contains(h));
            }
        },
        (Statement::Call { function, result, .. }, _) => {
            assert(a.kept.contains(function) ==> b.kept.contains(function));
            if let Some(h) = result {
                assert(a.exprs.dom().contains(h) ==> b.exprs.dom().contains(h));
            }
        },
        _ => {},
    }
}

/// The same of a list of statements.
proof fn lemma_stmts_more(
    stmts: Seq<Statement>,
    needs: Seq<StmtNeed>,
    n: nat,
    retval: bool,
    a: Seen,
    b: Seen,
)
    requires
        stmts_agree(stmts, needs, n, retval, a),
        a.within(b),
    ensures
        stmts_agree(stmts, needs, n, retval, b),
    decreases stmts, n,
{
    if n > 0 {
        lemma_stmts_more(stmts, needs, (n - 1) as nat, retval, a, b);
        lemma_agrees_more(stmts[stmts.len() - n], needs[needs.len() - n], retval, a, b);
    }
}

/// The same of a block.
proof fn lemma_block_more(
    block: Block,
    need: BlockNeed,
    a: Seen,
    b: Seen,
)
    requires
        block_agrees(block, need, a),
        a.within(b),
    ensures
        block_agrees(block, need, b),
    decreases block, 0nat,
{
    lemma_stmts_more(
        block.body@,
        need.stmts,
        block.body@.len(),
        need.context.retval is Some,
        a,
        b,
    );
}

/// The same of the cases of a switch.
proof fn lemma_cases_more(
    cases: Seq<SwitchCase>,
    needs: Seq<BlockNeed>,
    n: nat,
    a: Seen,
    b: Seen,
)
    requires
        cases_agree(cases, needs, n, a),
        a.within(b),
    ensures
        cases_agree(cases, needs, n, b),
    decreases cases, n,
{
    if n > 0 {
        lemma_cases_more(cases, needs, (n - 1) as nat, a, b);
        lemma_block_more(cases[cases.len() - n].body, needs[n - 1], a, b);
    }
}

/// One statement more in front.
proof fn lemma_stmts_front(
    stmts: Seq<Statement>,
    needs: Seq<StmtNeed>,
    need: StmtNeed,
    n: nat,
    retval: bool,
    seen: Seen,
)
    requires
        stmts_agree(stmts, needs, n, retval, seen),
        n <= needs.len(),
    ensures
        stmts_agree(stmts, seq![need] + needs, n, retval, seen),
    decreases n,
{
    if n > 0 {
        lemma_stmts_front(stmts, needs, need, (n - 1) as nat, retval, seen);
        let longer = seq![need] + needs;
        assert(longer[longer.len() - n] == needs[needs.len() - n]);
    }
}

/// One case more behind.
proof fn lemma_cases_behind(
    cases: Seq<SwitchCase>,
    needs: Seq<BlockNeed>,
    need: BlockNeed,
    n: nat,
    seen: Seen,
)
    requires
        cases_agree(cases, needs, n, seen),
        n <= needs.len(),
    ensures
        cases_agree(cases, needs.push(need), n, seen),
    decreases n,
{
    if n > 0 {
        lemma_cases_behind(cases, needs, need, (n - 1) as nat, seen);
    }
}

/// What is required of each statement is about it.
pub proof fn lemma_stmts_each(
    stmts: Seq<Statement>,
    needs: Seq<StmtNeed>,
    n: nat,
    retval: bool,
    seen: Seen,
)
    requires
        n <= stmts.len(),
        needs.len() == stmts.len(),
    ensures
        stmts_agree(stmts, needs, n, retval, seen) <==> forall|i: int|
            stmts.len() - n <= i < stmts.len() ==> agrees(
                stmts[i],
                #[trigger] needs[i],
                retval,
                seen,
            ),
    decreases n,
{
    if n > 0 {
        lemma_stmts_each(stmts, needs, (n - 1) as nat, retval, seen);
        let at = stmts.len() - n;
        if forall|i: int|
            stmts.len() - n <= i < stmts.len() ==> agrees(
                stmts[i],
                #[trigger] needs[i],
                retval,
                seen,
            ) {
            assert(agrees(stmts[at], needs[at], retval, seen));
        }
    }
}

/// What two passes require of a statement can be added. The sum is about the
/// statement, and makes its block required where one of the two does.
proof fn lemma_add_agrees(
    stmt: Statement,
    a: StmtNeed,
    b: StmtNeed,
    retval_a: bool,
    retval_b: bool,
    seen: Seen,
)
    requires
        agrees(stmt, a, retval_a, seen),
        agrees(stmt, b, retval_b, seen),
    ensures
        a.add(b) is Some,
        agrees(stmt, a.add(b)->0, retval_a || retval_b, seen),
        a.add(b)->0.required() == (a.required() || b.required()),
    decreases stmt, 0nat,
{
    match (stmt, a, b) {
        (Statement::Emit(range), StmtNeed::Emit(p), StmtNeed::Emit(q)) => {
            let sum = flags_or(p, q);
            if p.contains(true) {
                let i = choose|i: int| 0 <= i < p.len() && p[i] == true;
                assert(sum[i]);
            }
            if q.contains(true) {
                let i = choose|i: int| 0 <= i < q.len() && q[i] == true;
                assert(sum[i]);
            }
            if sum.contains(true) {
                let i = choose|i: int| 0 <= i < sum.len() && sum[i] == true;
                assert(p[i] || q[i]);
            }
            assert forall|i: int|
                0 <= i < sum.len() && #[trigger] sum[i] implies seen.exprs.contains_key(
                (range.start + i) as usize,
            ) by {
                assert(p[i] || q[i]);
            }
        },
        (Statement::Block(block), StmtNeed::BlockStmt(p), StmtNeed::BlockStmt(q)) => {
            lemma_add_block(block, p, q, seen);
        },
        (
            Statement::If { accept, reject, .. },
            StmtNeed::If { accept: p_accept, reject: p_reject, .. },
            StmtNeed::If { accept: q_accept, reject: q_reject, .. },
        ) => {
            lemma_add_block(accept, p_accept, q_accept, seen);
            lemma_add_block(reject, p_reject, q_reject, seen);
        },
        (
            Statement::Switch { cases, .. },
            StmtNeed::Switch { cases: p, .. },
            StmtNeed::Switch { cases: q, .. },
        ) => {
            lemma_add_cases(cases@, p, q, cases@.len(), seen);
        },
        (
            Statement::Loop { body, continuing, .. },
            StmtNeed::Loop { body: p_body, continuing: p_continuing, .. },
            StmtNeed::Loop { body: q_body, continuing: q_continuing, .. },
        ) => {
            lemma_add_block(body, p_body, q_body, seen);
            lemma_add_block(continuing, p_continuing, q_continuing, seen);
        },
        _ => {},
    }
}

/// The same of the first `n` statements.
proof fn lemma_add_stmts(
    stmts: Seq<Statement>,
    a: Seq<StmtNeed>,
    b: Seq<StmtNeed>,
    n: nat,
    retval_a: bool,
    retval_b: bool,
    seen: Seen,
)
    requires
        n <= stmts.len(),
        a.len() == stmts.len(),
        b.len() == stmts.len(),
        forall|i: int| 0 <= i < stmts.len() ==> agrees(stmts[i], #[trigger] a[i], retval_a, seen),
        forall|i: int| 0 <= i < stmts.len() ==> agrees(stmts[i], #[trigger] b[i], retval_b, seen),
    ensures
        add_stmts(a, b, n) is Some,
        add_stmts(a, b, n)->0.len() == n,
        forall|i: int|
            0 <= i < n ==> {
                let sum = #[trigger] add_stmts(a, b, n)->0[i];
                &&& agrees(stmts[i], sum, retval_a || retval_b, seen)
                &&& sum.required() == (a[i].required() || b[i].required())
            },
    decreases stmts, n,
{
    if n > 0 {
        lemma_add_stmts(stmts, a, b, (n - 1) as nat, retval_a, retval_b, seen);
        lemma_add_agrees(stmts[n - 1], a[n - 1], b[n - 1], retval_a, retval_b, seen);
    }
}

/// The same of a block.
proof fn lemma_add_block(block: Block, a: BlockNeed, b: BlockNeed, seen: Seen)
    requires
        block_agrees(block, a, seen),
        block_agrees(block, b, seen),
    ensures
        a.add(b) is Some,
        block_agrees(block, a.add(b)->0, seen),
        a.add(b)->0.is_required() == (a.is_required() || b.is_required()),
    decreases block, 0nat,
{
    let stmts = block.body@;
    let retval_a = a.context.retval is Some;
    let retval_b = b.context.retval is Some;
    lemma_stmts_each(stmts, a.stmts, stmts.len(), retval_a, seen);
    lemma_stmts_each(stmts, b.stmts, stmts.len(), retval_b, seen);
    lemma_add_stmts(stmts, a.stmts, b.stmts, stmts.len(), retval_a, retval_b, seen);
    let sum = a.add(b)->0;
    assert(sum.context.retval == opt_add(a.context.retval, b.context.retval));
    assert(sum.context.retval is Some <==> retval_a || retval_b);
    lemma_stmts_each(stmts, sum.stmts, stmts.len(), retval_a || retval_b, seen);
    if a.is_required() {
        let i = choose|i: int| 0 <= i < a.stmts.len() && (#[trigger] a.stmts[i]).required();
        assert(sum.stmts[i].required());
    }
    if b.is_required() {
        let i = choose|i: int| 0 <= i < b.stmts.len() && (#[trigger] b.stmts[i]).required();
        assert(sum.stmts[i].required());
    }
    if sum.is_required() {
        let i = choose|i: int| 0 <= i < sum.stmts.len() && (#[trigger] sum.stmts[i]).required();
        assert(a.stmts[i].required() || b.stmts[i].required());
    }
}

/// The same of the last `n` cases.
proof fn lemma_add_cases(
    cases: Seq<SwitchCase>,
    a: Seq<BlockNeed>,
    b: Seq<BlockNeed>,
    n: nat,
    seen: Seen,
)
    requires
        n <= cases.len(),
        a.len() == cases.len(),
        b.len() == cases.len(),
        cases_agree(cases, a, n, seen),
        cases_agree(cases, b, n, seen),
    ensures
        add_blocks(a, b, n) is Some,
        add_blocks(a, b, n)->0.len() == n,
        cases_agree(cases, add_blocks(a, b, n)->0, n, seen),
    decreases cases, n,
{
    if n > 0 {
        lemma_add_cases(cases, a, b, (n - 1) as nat, seen);
        lemma_add_block(cases[cases.len() - n].body, a[n - 1], b[n - 1], seen);
        let before = add_blocks(a, b, (n - 1) as nat)->0;
        lemma_cases_behind(cases, before, a[n - 1].add(b[n - 1])->0, (n - 1) as nat, seen);
    }
}

/// What is required of a function in two passes can be joined. What it is
/// required for in one of them it is required for in the join, and the join
/// hangs together.
pub proof fn law_join(function: Function, a: FnNeed, b: FnNeed, kept: Set<usize>)
    requires
        fn_agrees(function, a, kept),
        fn_agrees(function, b, kept),
    ensures
        joined(Some(a), b) is Some,
        fn_agrees(function, joined(Some(a), b)->0, kept),
        joined(Some(a), b)->0.body.is_required() == (a.body.is_required() || b.body.is_required()),
        joined(Some(a), b)->0.exprs.dom() == a.exprs.dom().union(b.exprs.dom()),
{
    let exprs = merged(a.exprs, b.exprs);
    assert(exprs.dom() =~= a.exprs.dom().union(b.exprs.dom()));
    let seen = Seen { exprs, kept };
    lemma_block_more(function.body, a.body, Seen { exprs: a.exprs, kept }, seen);
    lemma_block_more(function.body, b.body, Seen { exprs: b.exprs, kept }, seen);
    lemma_add_block(function.body, a.body, b.body, seen);
    assert forall|h: usize| #[trigger] exprs.contains_key(h) implies operands_in(
        function,
        exprs,
        h,
    ) by {
        let expr = function.expressions[h as int];
        if a.exprs.contains_key(h) {
            assert(operands_in(function, a.exprs, h));
            lemma_all_in_more(demands(expr, a.exprs[h])->0, a.exprs, exprs);
        }
        if b.exprs.contains_key(h) {
            assert(operands_in(function, b.exprs, h));
            lemma_all_in_more(demands(expr, b.exprs[h])->0, b.exprs, exprs);
        }
        if a.exprs.contains_key(h) && b.exprs.contains_key(h) {
            lemma_demands_sum(expr, a.exprs[h], b.exprs[h], exprs);
        }
    }
}

/// Demands for required expressions stay so when more is required.
proof fn lemma_all_in_more(demands: Seq<(usize, Req)>, a: Map<usize, Req>, b: Map<usize, Req>)
    requires
        all_in(demands, a),
        a.dom().subset_of(b.dom()),
    ensures
        all_in(demands, b),
{
    assert forall|i: int| 0 <= i < demands.len() implies b.contains_key(
        (#[trigger] demands[i]).0,
    ) by {
        assert(a.dom().contains(demands[i].0));
    }
}

/// A statement is a step, and what is required of it is about it.
#[verifier::rlimit(60)]
#[verifier::spinoff_prover]
proof fn lemma_stmt_steps(
    shader: Module,
    function: Function,
    depth: nat,
    stmt: Statement,
    scope_required: bool,
    base: Context,
    s: Live,
)
    requires
        found_agrees(shader, s.found.functions),
        stmt_flow(shader, function, depth, stmt, scope_required, base, s) is Some,
        base.retval is Some <==> s.context.retval is Some,
    ensures
        ({
            let (s1, need) = stmt_flow(
                shader,
                function,
                depth,
                stmt,
                scope_required,
                base,
                s,
            )->0;
            &&& steps(shader, function, s, s1)
            &&& agrees(stmt, need, s.context.retval is Some, s1.seen())
        }),
    decreases 2 * depth, stmt, 1nat,
{
    lemma_steps(shader, function, s, s, s);
    let retval = s.context.retval is Some;
    let (end, need) = stmt_flow(shader, function, depth, stmt, scope_required, base, s)->0;
    match stmt {
        Statement::Emit(range) => {
            let flags = emitted(range, s.exprs);
            assert(flags_in(range, flags, s.exprs));
        },
        Statement::Block(block) => {
            lemma_block_steps(shader, function, depth, block, scope_required, s);
        },
        Statement::If { condition, accept, reject } => {
            lemma_block_steps(shader, function, depth, accept, scope_required, s);
            let (s1, accept_need) = block_flow(
                shader,
                function,
                depth,
                accept,
                scope_required,
                s,
            )->0;
            lemma_block_steps(shader, function, depth, reject, scope_required, s1);
            let (s2, reject_need) = block_flow(
                shader,
                function,
                depth,
                reject,
                scope_required,
                s1,
            )->0;
            lemma_steps(shader, function, s, s1, s2);
            if accept_need.is_required() || reject_need.is_required() {
                let both = accept_need.context.merge(reject_need.context);
                assert(both.retval is Some <==> retval);
                let s3 = s2.at(both);
                lemma_steps(shader, function, s, s2, s3);
                lemma_expr_steps(shader, function, depth, condition, Req::All, s3);
                lemma_steps(shader, function, s, s3, end);
            }
            lemma_block_more(accept, accept_need, s1.seen(), s2.seen());
            lemma_block_more(accept, accept_need, s2.seen(), end.seen());
            lemma_block_more(reject, reject_need, s2.seen(), end.seen());
        },
        Statement::Switch { selector, cases } => {
            lemma_cases_steps(shader, function, depth, cases@, cases@.len(), s);
            let (s1, input, required, needs) = cases_flow(
                shader,
                function,
                depth,
                cases@,
                cases@.len(),
                s,
            )->0;
            if required {
                lemma_expr_steps(shader, function, depth, selector, Req::All, s1);
                let s2 = need_expr(shader, function, depth, selector, Req::All, s1)->0;
                lemma_steps(shader, function, s, s1, s2);
                lemma_cases_more(cases@, needs, cases@.len(), s1.seen(), s2.seen());
            }
        },
        Statement::Loop { body, continuing, break_if } => {
            lemma_block_steps(shader, function, depth, body, false, s);
            let (s1, body_need) = block_flow(shader, function, depth, body, false, s)->0;
            lemma_block_steps(shader, function, depth, continuing, false, s1);
            let (s2, continuing_need) = block_flow(
                shader,
                function,
                depth,
                continuing,
                false,
                s1,
            )->0;
            lemma_steps(shader, function, s, s1, s2);
            if body_need.is_required() || continuing_need.is_required() {
                let s3 = need_opt(shader, function, depth, break_if, s2)->0;
                lemma_steps(shader, function, s2, s2, s2);
                if let Some(h) = break_if {
                    lemma_expr_steps(shader, function, depth, h, Req::All, s2);
                }
                lemma_steps(shader, function, s, s2, s3);
                let both = body_need.context.merge(continuing_need.context);
                assert(both.retval is Some <==> retval);
                let s4 = s3.at(both);
                lemma_steps(shader, function, s, s3, s4);
                lemma_rounds_steps(shader, function, depth, stmt, s4);
                lemma_steps(shader, function, s, s4, end);
                if let Some(h) = break_if {
                    assert(s4.exprs.dom().contains(h));
                    assert(end.exprs.dom().contains(h));
                }
            } else {
                lemma_block_more(body, body_need, s1.seen(), s2.seen());
            }
        },
        Statement::Return { value } => {
            if let (Some(value), Some(req)) = (value, s.context.retval) {
                lemma_expr_steps(shader, function, depth, value, req, s);
            }
        },
        Statement::Store { pointer, value } => {
            if let Some((s1, Some(req))) = store_flow(shader, function, depth, pointer, s) {
                let operands = seq![(pointer, Req::Exist), (value, req)];
                lemma_store_steps(shader, function, depth, pointer, s);
                lemma_all_steps(shader, function, depth, operands, operands.len(), s1);
                lemma_steps(shader, function, s, s1, end);
                assert(end.exprs.contains_key(operands[0].0));
                assert(end.exprs.contains_key(operands[1].0));
            }
        },
        Statement::ImageStore { image, coordinate, array_index, value } => {
            if let Some((s1, Some(req))) = store_flow(shader, function, depth, image, s) {
                let operands = image_operands(image, coordinate, array_index, value, req);
                lemma_store_steps(shader, function, depth, image, s);
                lemma_all_steps(shader, function, depth, operands, operands.len(), s1);
                lemma_steps(shader, function, s, s1, end);
                assert(end.exprs.contains_key(operands[0].0));
                assert(end.exprs.contains_key(operands[1].0));
                assert(end.exprs.contains_key(operands[2].0));
                if array_index is Some {
                    assert(end.exprs.contains_key(operands[3].0));
                }
            }
        },
        Statement::Call { function: callee, arguments, result } => {
            let req = expr_req(s.exprs, result);
            lemma_fn_steps(
                shader,
                (depth - 1) as nat,
                callee,
                s.context.globals,
                req,
                s.found,
            );
            let (found, required, input) = fn_flow(
                shader,
                (depth - 1) as nat,
                callee,
                s.context.globals,
                req,
                s.found,
            )->0;
            let s1 = Live { found, ..s };
            assert(steps(shader, function, s, s1));
            if required {
                let operands = call_operands(arguments@, input.args, result, req);
                lemma_all_steps(shader, function, depth, operands, operands.len(), s1);
                lemma_steps(shader, function, s, s1, end);
                if result is Some && req is Some {
                    assert(end.exprs.contains_key(operands[operands.len() - 1].0));
                }
            }
        },
        _ => {},
    }
}

/// A store is a step, before its operands.
proof fn lemma_store_steps(
    shader: Module,
    function: Function,
    depth: nat,
    pointer: usize,
    s: Live,
)
    requires
        found_agrees(shader, s.found.functions),
        store_flow(shader, function, depth, pointer, s) is Some,
    ensures
        ({
            let (s1, _) = store_flow(shader, function, depth, pointer, s)->0;
            steps(shader, function, s, s1)
        }),
{
    lemma_steps(shader, function, s, s, s);
}

/// The repetitions of a loop are a step.
proof fn lemma_rounds_steps(
    shader: Module,
    function: Function,
    depth: nat,
    stmt: Statement,
    s: Live,
)
    requires
        found_agrees(shader, s.found.functions),
        rounds_flow(shader, function, depth, stmt, s) is Some,
    ensures
        ({
            let (s1, need) = rounds_flow(shader, function, depth, stmt, s)->0;
            &&& steps(shader, function, s, s1)
            &&& stmt matches Statement::Loop { body, continuing, .. }
            &&& need matches StmtNeed::Loop {
                body: body_need,
                continuing: continuing_need,
                required: true,
            }
            &&& block_agrees(body, body_need, s1.seen())
            &&& block_agrees(continuing, continuing_need, s1.seen())
        }),
    decreases 2 * depth, stmt, 0nat,
{
    if let Statement::Loop { body, continuing, .. } = stmt {
        lemma_block_steps(shader, function, depth, body, true, s);
        let (s1, body_need) = block_flow(shader, function, depth, body, true, s)->0;
        lemma_block_steps(shader, function, depth, continuing, true, s1);
        let (s2, continuing_need) = block_flow(shader, function, depth, continuing, true, s1)->0;
        lemma_steps(shader, function, s, s1, s2);
        lemma_block_more(body, body_need, s1.seen(), s2.seen());
        if !s.context.contains(body_need.context.merge(continuing_need.context)) {
            lemma_rounds_steps(shader, function, (depth - 1) as nat, stmt, s2);
            let (s3, _) = rounds_flow(shader, function, (depth - 1) as nat, stmt, s2)->0;
            lemma_steps(shader, function, s, s2, s3);
        }
    }
}

/// The cases of a switch are a step.
proof fn lemma_cases_steps(
    shader: Module,
    function: Function,
    depth: nat,
    cases: Seq<SwitchCase>,
    n: nat,
    s: Live,
)
    requires
        found_agrees(shader, s.found.functions),
        cases_flow(shader, function, depth, cases, n, s) is Some,
    ensures
        ({
            let (s1, input, required, needs) = cases_flow(
                shader,
                function,
                depth,
                cases,
                n,
                s,
            )->0;
            &&& steps(shader, function, s, s1)
            &&& input.retval is Some <==> s.context.retval is Some
            &&& needs.len() == n
            &&& cases_agree(cases, needs, n, s1.seen())
        }),
    decreases 2 * depth, cases, n,
{
    lemma_steps(shader, function, s, s, s);
    if n > 0 {
        lemma_cases_steps(shader, function, depth, cases, (n - 1) as nat, s);
        let (s1, input, required, needs) = cases_flow(
            shader,
            function,
            depth,
            cases,
            (n - 1) as nat,
            s,
        )->0;
        let body = cases[cases.len() - n].body;
        lemma_block_steps(shader, function, depth, body, false, s1);
        let (s2, need) = block_flow(shader, function, depth, body, false, s1)->0;
        lemma_steps(shader, function, s, s1, s2);
        lemma_cases_more(cases, needs, (n - 1) as nat, s1.seen(), s2.seen());
        lemma_cases_behind(cases, needs, need, (n - 1) as nat, s2.seen());
    }
}

/// A block is a step, and what is required of it is about it.
proof fn lemma_block_steps(
    shader: Module,
    function: Function,
    depth: nat,
    block: Block,
    scope_required: bool,
    s: Live,
)
    requires
        found_agrees(shader, s.found.functions),
        block_flow(shader, function, depth, block, scope_required, s) is Some,
    ensures
        ({
            let (s1, need) = block_flow(shader, function, depth, block, scope_required, s)->0;
            &&& steps(shader, function, s, s1)
            &&& s1.context == s.context
            &&& need.context.retval is Some <==> s.context.retval is Some
            &&& block_agrees(block, need, s1.seen())
        }),
    decreases 2 * depth, block, 0nat,
{
    lemma_stmts_steps(
        shader,
        function,
        depth,
        block.body@,
        block.body@.len(),
        scope_required,
        s,
    );
}

/// A list of statements is a step, and what is required of each is about it.
proof fn lemma_stmts_steps(
    shader: Module,
    function: Function,
    depth: nat,
    stmts: Seq<Statement>,
    n: nat,
    scope_required: bool,
    s: Live,
)
    requires
        found_agrees(shader, s.found.functions),
        stmts_flow(shader, function, depth, stmts, n, scope_required, s) is Some,
    ensures
        ({
            let (s1, needs, _) = stmts_flow(
                shader,
                function,
                depth,
                stmts,
                n,
                scope_required,
                s,
            )->0;
            &&& steps(shader, function, s, s1)
            &&& needs.len() == n
            &&& stmts_agree(stmts, needs, n, s.context.retval is Some, s1.seen())
        }),
    decreases 2 * depth, stmts, n,
{
    lemma_steps(shader, function, s, s, s);
    if n > 0 {
        let retval = s.context.retval is Some;
        lemma_stmts_steps(shader, function, depth, stmts, (n - 1) as nat, scope_required, s);
        let (s1, needs, required) = stmts_flow(
            shader,
            function,
            depth,
            stmts,
            (n - 1) as nat,
            scope_required,
            s,
        )->0;
        let stmt = stmts[stmts.len() - n];
        lemma_stmt_steps(shader, function, depth, stmt, required, s.context, s1);
        let (s2, need) = stmt_flow(
            shader,
            function,
            depth,
            stmt,
            required,
            s.context,
            s1,
        )->0;
        lemma_steps(shader, function, s, s1, s2);
        lemma_stmts_more(stmts, needs, (n - 1) as nat, retval, s1.seen(), s2.seen());
        lemma_stmts_front(stmts, needs, need, (n - 1) as nat, retval, s2.seen());
        let all = seq![need] + needs;
        assert(all[all.len() - n] == need);
    }
}

/// The body of a function is a step, and what is required of the function
/// hangs together.
proof fn lemma_body_steps(
    shader: Module,
    depth: nat,
    function: Function,
    globals: Map<usize, Req>,
    retval: Option<Req>,
    found: Found,
)
    requires
        found_agrees(shader, found.functions),
        body_flow(shader, depth, function, globals, retval, found) is Some,
    ensures
        ({
            let (found1, need) = body_flow(shader, depth, function, globals, retval, found)->0;
            &&& found_agrees(shader, found1.functions)
            &&& kept_functions(found.functions).subset_of(kept_functions(found1.functions))
            &&& fn_agrees(function, need, kept_functions(found1.functions))
            &&& need.body.context.retval is Some <==> retval is Some
        }),
    decreases 2 * depth + 1, shader, 0nat,
{
    let start = Live {
        found,
        exprs: Map::empty(),
        context: Context {
            globals,
            locals: Map::empty(),
            args: Seq::new(function.arguments@.len(), |i: int| None),
            retval,
        },
    };
    assert(closed(function, start.exprs));
    lemma_block_steps(shader, function, depth, function.body, false, start);
}

/// A function is a step.
proof fn lemma_fn_steps(
    shader: Module,
    depth: nat,
    h: usize,
    globals: Map<usize, Req>,
    retval: Option<Req>,
    found: Found,
)
    requires
        found_agrees(shader, found.functions),
        fn_flow(shader, depth, h, globals, retval, found) is Some,
    ensures
        ({
            let (found1, required, _) = fn_flow(
                shader,
                depth,
                h,
                globals,
                retval,
                found,
            )->0;
            &&& found_agrees(shader, found1.functions)
            &&& kept_functions(found.functions).subset_of(kept_functions(found1.functions))
            &&& required ==> kept_functions(found1.functions).contains(h)
        }),
    decreases 2 * depth + 1, shader, 1nat,
{
    let function = shader.functions[h as int];
    lemma_body_steps(shader, depth, function, globals, retval, found);
    let (found1, need) = body_flow(shader, depth, function, globals, retval, found)->0;
    let all = joined(fn_at(found1.functions, h), need)->0;
    let found2 = Found { functions: found1.functions.insert(h, all), ..found1 };
    let kept1 = kept_functions(found1.functions);
    let kept2 = kept_functions(found2.functions);
    if found1.functions.contains_key(h) {
        law_join(function, found1.functions[h], need, kept1);
    }
    assert forall|g: usize| #[trigger] kept1.contains(g) implies kept2.contains(g) by {
        assert(found1.functions.contains_key(g));
    }
    assert forall|g: usize| #[trigger] found2.functions.contains_key(g) implies g
        < shader.functions.len() && fn_agrees(
        shader.functions[g as int],
        found2.functions[g],
        kept2,
    ) by {
        if g != h {
            assert(found1.functions.contains_key(g));
        }
        let exprs = found2.functions[g].exprs;
        lemma_block_more(
            shader.functions[g as int].body,
            found2.functions[g].body,
            Seen { exprs, kept: kept1 },
            Seen { exprs, kept: kept2 },
        );
    }
}

/// At the beginning nothing is required of any function, which hangs together.
pub proof fn law_start_agrees(shader: Module)
    ensures
        found_agrees(shader, Map::empty()),
{
}

/// After an analysis of a function what is required still hangs together, the
/// functions that were kept are, and the function is where it is required.
pub proof fn law_function_agrees(
    shader: Module,
    depth: nat,
    h: usize,
    globals: Map<usize, Req>,
    retval: Option<Req>,
    found: Found,
)
    requires
        found_agrees(shader, found.functions),
        fn_flow(shader, depth, h, globals, retval, found) is Some,
    ensures
        ({
            let (found1, required, _) = fn_flow(
                shader,
                depth,
                h,
                globals,
                retval,
                found,
            )->0;
            &&& found_agrees(shader, found1.functions)
            &&& kept_functions(found.functions).subset_of(kept_functions(found1.functions))
            &&& required ==> kept_functions(found1.functions).contains(h)
        }),
{
    lemma_fn_steps(shader, depth, h, globals, retval, found);
}

/// The same of an entry point.
pub proof fn law_entry_agrees(
    shader: Module,
    depth: nat,
    entrypoint: EntryPoint,
    globals: Map<usize, Req>,
    retval: Option<Req>,
    found: Found,
    now: Option<FnNeed>,
)
    requires
        found_agrees(shader, found.functions),
        entry_flow(shader, depth, entrypoint, globals, retval, found, now) is Some,
        now is Some ==> fn_agrees(
            entrypoint.function,
            now->0,
            kept_functions(found.functions),
        ),
    ensures
        ({
            let (found1, need, _) = entry_flow(
                shader,
                depth,
                entrypoint,
                globals,
                retval,
                found,
                now,
            )->0;
            &&& found_agrees(shader, found1.functions)
            &&& kept_functions(found.functions).subset_of(kept_functions(found1.functions))
            &&& fn_agrees(entrypoint.function, need, kept_functions(found1.functions))
            &&& now is Some && now->0.body.is_required() ==> need.body.is_required()
        }),
{
    lemma_body_steps(shader, depth, entrypoint.function, globals, retval, found);
    let (found1, need) = body_flow(
        shader,
        depth,
        entrypoint.function,
        globals,
        retval,
        found,
    )->0;
    if let Some(now) = now {
        law_agrees_later(
            entrypoint.function,
            now,
            kept_functions(found.functions),
            kept_functions(found1.functions),
        );
        law_join(entrypoint.function, now, need, kept_functions(found1.functions));
    }
}

/// A later analysis of a function keeps what an earlier one required: in front
/// of the function all is required that either of them gives, no required
/// expression is dropped, nor is less required of it, and nothing that was
/// required of the module is lost. Where what was required before hangs
/// together, the function is kept if one of the two requires it.
pub proof fn law_later_keeps_earlier(
    shader: Module,
    depth: nat,
    h: usize,
    globals: Map<usize, Req>,
    retval: Option<Req>,
    found: Found,
    later_depth: nat,
    later_globals: Map<usize, Req>,
    later_retval: Option<Req>,
)
    requires
        fn_flow(shader, depth, h, globals, retval, found) matches Some((found1, _, _)) && fn_flow(
            shader,
            later_depth,
            h,
            later_globals,
            later_retval,
            found1,
        ) is Some,
    ensures
        ({
            let (found1, required1, context1) = fn_flow(
                shader,
                depth,
                h,
                globals,
                retval,
                found,
            )->0;
            let (found2, required2, context2) = fn_flow(
                shader,
                later_depth,
                h,
                later_globals,
                later_retval,
                found1,
            )->0;
            let (first, both) = (found1.functions[h], found2.functions[h]);
            &&& both.body.context.contains(context1)
            &&& both.body.context.contains(context2)
            &&& covers(both.exprs, first.exprs)
            &&& first.exprs.dom().subset_of(both.exprs.dom())
            &&& found_grows(found1, found2)
            &&& found_agrees(shader, found.functions) && (required1 || required2)
                ==> both.body.is_required()
        }),
{
    law_function_grows(shader, depth, h, globals, retval, found);
    let (found1, _, context1) = fn_flow(shader, depth, h, globals, retval, found)->0;
    law_function_grows(shader, later_depth, h, later_globals, later_retval, found1);
    let (found2, _, _) = fn_flow(
        shader,
        later_depth,
        h,
        later_globals,
        later_retval,
        found1,
    )->0;
    if found_agrees(shader, found.functions) {
        law_function_agrees(shader, depth, h, globals, retval, found);
        law_function_agrees(shader, later_depth, h, later_globals, later_retval, found1);
        assert(kept_functions(found1.functions).contains(h) ==> kept_functions(
            found2.functions,
        ).contains(h));
    }
    let (first, both) = (found1.functions[h], found2.functions[h]);
    assert(fn_grows(first, both));
    law_context_transitive(both.body.context, first.body.context, context1);
    assert forall|e: usize| first.exprs.contains_key(e) implies both.exprs.contains_key(e) by {
        assert(first.exprs.dom().contains(e));
    }
}

/// What is required of a function hangs together also when more functions are
/// kept.
pub proof fn law_agrees_later(
    function: Function,
    need: FnNeed,
    before: Set<usize>,
    after: Set<usize>,
)
    requires
        fn_agrees(function, need, before),
        before.subset_of(after),
    ensures
        fn_agrees(function, need, after),
{
    lemma_block_more(
        function.body,
        need.body,
        Seen { exprs: need.exprs, kept: before },
        Seen { exprs: need.exprs, kept: after },
    );
}

/// Where what is required of the functions hangs together, an analysis of a
/// function succeeds where that of its body does.
pub proof fn law_function_joins(
    shader: Module,
    depth: nat,
    h: usize,
    globals: Map<usize, Req>,
    retval: Option<Req>,
    found: Found,
)
    requires
        found_agrees(shader, found.functions),
        h < shader.functions.len(),
    ensures
        fn_flow(shader, depth, h, globals, retval, found) is Some <==> body_flow(
            shader,
            depth,
            shader.functions[h as int],
            globals,
            retval,
            found,
        ) is Some,
{
    let function = shader.functions[h as int];
    if body_flow(shader, depth, function, globals, retval, found) is Some {
        lemma_body_steps(shader, depth, function, globals, retval, found);
        let (found1, need) = body_flow(shader, depth, function, globals, retval, found)->0;
        if found1.functions.contains_key(h) {
            law_join(
                function,
                found1.functions[h],
                need,
                kept_functions(found1.functions),
            );
        }
    }
}

/// The repetitions of a loop end with nothing required at the beginnings of
/// its blocks that was not required at their ends.
pub proof fn lemma_rounds_settled(
    shader: Module,
    function: Function,
    depth: nat,
    stmt: Statement,
    s: Live,
)
    requires
        rounds_flow(shader, function, depth, stmt, s) is Some,
    ensures
        ({
            let (s1, need) = rounds_flow(shader, function, depth, stmt, s)->0;
            &&& s1.context == s.context
            &&& need matches StmtNeed::Loop { body, continuing, .. }
            &&& s.context.contains(body.context.merge(continuing.context))
        }),
    decreases depth,
{
    if let Statement::Loop { body, continuing, .. } = stmt {
        let (s1, body_need) = block_flow(shader, function, depth, body, true, s)->0;
        let (s2, continuing_need) = block_flow(shader, function, depth, continuing, true, s1)->0;
        if !s.context.contains(body_need.context.merge(continuing_need.context)) {
            lemma_rounds_settled(shader, function, (depth - 1) as nat, stmt, s2);
        }
    }
}

/// In front of a required loop all is required that is required at the
/// beginnings of its blocks.
pub proof fn law_loop_settled(
    shader: Module,
    function: Function,
    depth: nat,
    stmt: Statement,
    scope_required: bool,
    base: Context,
    s: Live,
)
    requires
        stmt is Loop,
        stmt_flow(shader, function, depth, stmt, scope_required, base, s) is Some,
    ensures
        ({
            let (s1, need) = stmt_flow(
                shader,
                function,
                depth,
                stmt,
                scope_required,
                base,
                s,
            )->0;
            &&& need matches StmtNeed::Loop { body, continuing, required }
            &&& required ==> s1.context.contains(body.context.merge(continuing.context))
        }),
{
    if let Statement::Loop { body, continuing, break_if } = stmt {
        let (s1, body_need) = block_flow(shader, function, depth, body, false, s)->0;
        let (s2, continuing_need) = block_flow(shader, function, depth, continuing, false, s1)->0;
        if body_need.is_required() || continuing_need.is_required() {
            let s3 = need_opt(shader, function, depth, break_if, s2)->0;
            lemma_rounds_settled(
                shader,
                function,
                depth,
                stmt,
                s3.at(body_need.context.merge(continuing_need.context)),
            );
        }
    }
}

} // verus!
