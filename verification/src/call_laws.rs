//! Laws of calls and functions: a call requires what the function that it calls
//! requires, for its result and for the global variables behind it.
use crate::ask_laws::{asks, leads_to};
use crate::branch_laws::{is_idle, is_quiet, law_return_flow};
use crate::context::{Context, VarRef};
use crate::demand_laws::{asked, law_demands_required};
use crate::expr::need_all;
use crate::flow::{
    body_flow, call_operands, common, entry_flow, expr_req, fn_flow, passed, stmt_flow, stmts_flow,
};
use crate::grow_laws::{
    found_grows, lemma_all_grows, lemma_grows, lemma_joined_grows, lemma_stmt_grows,
};
use crate::ir::{EntryPoint, Function, Module, Statement};
use crate::live::{Found, Live};
use crate::need::{any_required, StmtNeed};
use crate::part::{covers, Req};
use crate::part_laws::{law_contains_transitive, lemma_covers_reflexive, lemma_covers_transitive};
use crate::scope_laws::lemma_any_required_front;
use crate::store_laws::law_store_flow;
use vstd::prelude::*;

verus! {

/// Whether what is required in front of a statement is what is required behind
/// it at the end of a function.
pub open spec fn is_silent(stmt: Statement) -> bool {
    is_quiet(stmt) || stmt == (Statement::Return { value: None })
}

/// Silent statements at the end of a list leave what is required alone.
proof fn lemma_silent(
    shader: Module,
    function: Function,
    depth: nat,
    stmts: Seq<Statement>,
    n: nat,
    scope_required: bool,
    s: Live,
)
    requires
        n <= stmts.len(),
        forall|i: int| stmts.len() - n <= i < stmts.len() ==> is_silent(#[trigger] stmts[i]),
    ensures
        stmts_flow(shader, function, depth, stmts, n, scope_required, s) matches Some((s1, _, _))
            && s1 == s,
    decreases n,
{
    if n > 0 {
        let m = (n - 1) as nat;
        lemma_silent(shader, function, depth, stmts, m, scope_required, s);
        let stmt = stmts[stmts.len() - n];
        assert(is_silent(stmt));
        assert(s.at(s.context) == s);
        let (_, _, required) = stmts_flow(shader, function, depth, stmts, m, scope_required, s)->0;
        assert(stmt_flow(shader, function, depth, stmt, required, s.context, s) is Some);
    }
}

/// What is required of the last of some statements before silent ones is what
/// is required of it by itself.
proof fn lemma_last_but_silent(
    shader: Module,
    function: Function,
    depth: nat,
    stmts: Seq<Statement>,
    n: nat,
    scope_required: bool,
    s: Live,
    j: int,
)
    requires
        0 <= j < stmts.len(),
        stmts.len() - j <= n <= stmts.len(),
        forall|i: int| j < i < stmts.len() ==> is_silent(#[trigger] stmts[i]),
        stmts_flow(shader, function, depth, stmts, n, scope_required, s) is Some,
    ensures
        ({
            let (end, needs, _) = stmts_flow(
                shader,
                function,
                depth,
                stmts,
                n,
                scope_required,
                s,
            )->0;
            exists|scope: bool|
                #![trigger stmt_flow(shader, function, depth, stmts[j], scope, s.context, s)]
                {
                    &&& stmt_flow(
                        shader,
                        function,
                        depth,
                        stmts[j],
                        scope,
                        s.context,
                        s,
                    ) matches Some((s1, need))
                    &&& need.required() ==> any_required(needs)
                    &&& covers(end.exprs, s1.exprs)
                }
        }),
    decreases n,
{
    let m = (n - 1) as nat;
    let (t, before, required) = stmts_flow(
        shader,
        function,
        depth,
        stmts,
        m,
        scope_required,
        s,
    )->0;
    let stmt = stmts[stmts.len() - n];
    lemma_stmt_grows(shader, function, depth, stmt, required, s.context, t);
    let (end, need) = stmt_flow(shader, function, depth, stmt, required, s.context, t)->0;
    lemma_any_required_front(before, need);
    if n == stmts.len() - j {
        lemma_silent(shader, function, depth, stmts, m, scope_required, s);
        assert(stmts[j] == stmt);
        assert(stmt_flow(shader, function, depth, stmts[j], required, s.context, s) is Some);
        lemma_covers_reflexive(end.exprs);
    } else {
        lemma_last_but_silent(shader, function, depth, stmts, m, scope_required, s, j);
        let scope = choose|scope: bool|
            #![trigger stmt_flow(shader, function, depth, stmts[j], scope, s.context, s)]
            {
                &&& stmt_flow(
                    shader,
                    function,
                    depth,
                    stmts[j],
                    scope,
                    s.context,
                    s,
                ) matches Some((s1, need))
                &&& need.required() ==> any_required(before)
                &&& covers(t.exprs, s1.exprs)
            };
        let (s1, _) = stmt_flow(shader, function, depth, stmts[j], scope, s.context, s)->0;
        lemma_covers_transitive(end.exprs, t.exprs, s1.exprs);
    }
}

/// What is required behind the body of a function.
pub open spec fn at_end(
    function: Function,
    globals: Map<usize, Req>,
    retval: Option<Req>,
) -> Context {
    Context {
        globals,
        locals: Map::empty(),
        args: Seq::new(function.arguments@.len(), |i: int| None),
        retval,
    }
}

/// In front of a function of silent statements only that is required which is
/// behind it: the global variables and the result, and none of its arguments
/// and local variables.
pub proof fn law_silent_function(
    shader: Module,
    depth: nat,
    h: usize,
    globals: Map<usize, Req>,
    retval: Option<Req>,
    found: Found,
)
    requires
        h < shader.functions.len(),
        forall|i: int|
            0 <= i < shader.functions[h as int].body.body@.len() ==> is_silent(
                #[trigger] shader.functions[h as int].body.body@[i],
            ),
        fn_flow(shader, depth, h, globals, retval, found) is Some,
    ensures
        ({
            let function = shader.functions[h as int];
            let (found1, _, context) = fn_flow(shader, depth, h, globals, retval, found)->0;
            &&& context.globals == globals
            &&& context.locals == Map::<usize, Req>::empty()
            &&& context.args.len() == function.arguments@.len()
            &&& forall|i: int| 0 <= i < context.args.len() ==> #[trigger] context.args[i] is None
            &&& context.retval == retval
            &&& found1.types == found.types
            &&& found1.constants == found.constants
            &&& found1.globals == found.globals
            &&& found1.functions.remove(h) == found.functions.remove(h)
            &&& !found.functions.contains_key(h) ==> found1.functions[h].exprs == Map::<
                usize,
                Req,
            >::empty()
        }),
{
    let function = shader.functions[h as int];
    let start = Live {
        found,
        exprs: Map::empty(),
        context: at_end(function, globals, retval),
    };
    let stmts = function.body.body@;
    lemma_silent(shader, function, depth, stmts, stmts.len(), false, start);
    let (found1, _, _) = fn_flow(shader, depth, h, globals, retval, found)->0;
    assert(found1.functions.remove(h) =~= found.functions.remove(h));
}

/// A function of breaks, continues and barriers, and of a return at its end, is
/// not required without a required result.
pub proof fn law_idle_function(
    shader: Module,
    depth: nat,
    h: usize,
    globals: Map<usize, Req>,
    found: Found,
)
    requires
        h < shader.functions.len(),
        forall|i: int|
            0 <= i < shader.functions[h as int].body.body@.len() ==> is_idle(
                #[trigger] shader.functions[h as int].body.body@[i],
            ) || shader.functions[h as int].body.body@[i] is Return,
        fn_flow(shader, depth, h, globals, None, found) is Some,
    ensures
        ({
            let (found1, required, _) = fn_flow(shader, depth, h, globals, None, found)->0;
            &&& !required
            &&& !found.functions.contains_key(h) ==> !found1.functions[h].body.is_required()
        }),
{
    let function = shader.functions[h as int];
    let start = Live { found, exprs: Map::empty(), context: at_end(function, globals, None) };
    let stmts = function.body.body@;
    lemma_idle_or_return(shader, function, depth, stmts, stmts.len(), start);
}

/// Idle statements, and returns without a required value, are not required
/// where their scope is not.
proof fn lemma_idle_or_return(
    shader: Module,
    function: Function,
    depth: nat,
    stmts: Seq<Statement>,
    n: nat,
    s: Live,
)
    requires
        n <= stmts.len(),
        s.context.retval is None,
        forall|i: int|
            0 <= i < stmts.len() ==> is_idle(#[trigger] stmts[i]) || stmts[i] is Return,
    ensures
        stmts_flow(shader, function, depth, stmts, n, false, s) matches Some((s1, needs, required))
            && s1 == s && !required && !any_required(needs),
    decreases n,
{
    if n > 0 {
        let m = (n - 1) as nat;
        lemma_idle_or_return(shader, function, depth, stmts, m, s);
        let stmt = stmts[stmts.len() - n];
        assert(is_idle(stmt) || stmt is Return);
        assert(s.at(s.context) == s);
        let (_, before, _) = stmts_flow(shader, function, depth, stmts, m, false, s)->0;
        let (_, need) = stmt_flow(shader, function, depth, stmt, false, s.context, s)->0;
        lemma_any_required_front(before, need);
    }
}

/// A function with a store to a global variable that is required behind it is
/// required, where only silent statements stand behind the store: whatever
/// part of the variable is stored to, if something is asked for of that part.
pub proof fn law_function_writes(
    shader: Module,
    depth: nat,
    h: usize,
    globals: Map<usize, Req>,
    retval: Option<Req>,
    found: Found,
    j: int,
    gv: usize,
    indices: Seq<usize>,
    path: Seq<usize>,
)
    requires
        h < shader.functions.len(),
        0 <= j < shader.functions[h as int].body.body@.len(),
        shader.functions[h as int].body.body@[j] matches Statement::Store { pointer, .. }
            && leads_to(shader.functions[h as int], pointer, VarRef::Global(gv), indices),
        forall|i: int|
            j < i < shader.functions[h as int].body.body@.len() ==> is_silent(
                #[trigger] shader.functions[h as int].body.body@[i],
            ),
        globals.contains_key(gv),
        asks(globals[gv], indices + path),
        fn_flow(shader, depth, h, globals, retval, found) is Some,
    ensures
        ({
            let (_, required, _) = fn_flow(shader, depth, h, globals, retval, found)->0;
            required
        }),
{
    let function = shader.functions[h as int];
    let start = Live {
        found,
        exprs: Map::empty(),
        context: at_end(function, globals, retval),
    };
    let stmts = function.body.body@;
    lemma_last_but_silent(shader, function, depth, stmts, stmts.len(), false, start, j);
    let (_, needs, _) = stmts_flow(
        shader,
        function,
        depth,
        stmts,
        stmts.len(),
        false,
        start,
    )->0;
    let scope = choose|scope: bool|
        #![trigger stmt_flow(shader, function, depth, stmts[j], scope, start.context, start)]
        {
            &&& stmt_flow(
                shader,
                function,
                depth,
                stmts[j],
                scope,
                start.context,
                start,
            ) matches Some((s1, need))
            &&& need.required() ==> any_required(needs)
        };
    if let Statement::Store { pointer, value } = stmts[j] {
        law_store_flow(
            shader,
            function,
            depth,
            pointer,
            value,
            scope,
            start.context,
            start,
            VarRef::Global(gv),
            indices,
        );
        assert(start.context.of(VarRef::Global(gv)) == Some(globals[gv]));
        assert(asks(start.context.of(VarRef::Global(gv))->0, indices + path));
    }
}

/// A function that ends with the return of a value is required where its
/// result is, and the value is required as the result is.
pub proof fn law_function_returns(
    shader: Module,
    depth: nat,
    h: usize,
    globals: Map<usize, Req>,
    retval: Req,
    found: Found,
    value: usize,
)
    requires
        h < shader.functions.len(),
        shader.functions[h as int].body.body@.len() > 0,
        shader.functions[h as int].body.body@.last() == (Statement::Return { value: Some(value) }),
        fn_flow(shader, depth, h, globals, Some(retval), found) is Some,
    ensures
        ({
            let (found1, required, _) = fn_flow(
                shader,
                depth,
                h,
                globals,
                Some(retval),
                found,
            )->0;
            &&& required
            &&& found1.functions[h].exprs.contains_key(value)
            &&& found1.functions[h].exprs[value].contains(retval)
        }),
{
    let function = shader.functions[h as int];
    let start = Live {
        found,
        exprs: Map::empty(),
        context: at_end(function, globals, Some(retval)),
    };
    let stmts = function.body.body@;
    let j = stmts.len() - 1;
    lemma_last_but_silent(shader, function, depth, stmts, stmts.len(), false, start, j);
    let (end, needs, _) = stmts_flow(
        shader,
        function,
        depth,
        stmts,
        stmts.len(),
        false,
        start,
    )->0;
    let scope = choose|scope: bool|
        #![trigger stmt_flow(shader, function, depth, stmts[j], scope, start.context, start)]
        {
            &&& stmt_flow(
                shader,
                function,
                depth,
                stmts[j],
                scope,
                start.context,
                start,
            ) matches Some((s1, need))
            &&& need.required() ==> any_required(needs)
            &&& covers(end.exprs, s1.exprs)
        };
    law_return_flow(shader, function, depth, value, scope, start.context, start);
    let (s1, _) = stmt_flow(shader, function, depth, stmts[j], scope, start.context, start)->0;
    assert(s1.exprs.contains_key(value));
    law_contains_transitive(end.exprs[value], s1.exprs[value], retval);
    let (found2, need) = body_flow(shader, depth, function, globals, Some(retval), found)->0;
    assert(need.exprs == end.exprs);
    let (found1, _, _) = fn_flow(shader, depth, h, globals, Some(retval), found)->0;
    if found2.functions.contains_key(h) {
        lemma_joined_grows(found2.functions[h], need);
        assert(need.exprs.contains_key(value));
        law_contains_transitive(found1.functions[h].exprs[value], need.exprs[value], retval);
    }
}

/// What is passed are the arguments that are required.
proof fn lemma_passed(arguments: Seq<usize>, args: Seq<Option<Req>>, n: nat, k: int)
    requires
        0 <= k < n,
        n <= arguments.len(),
        n <= args.len(),
        args[k] is Some,
    ensures
        asked(passed(arguments, args, n), arguments[k], args[k]->0),
    decreases n,
{
    let m = (n - 1) as nat;
    let before = passed(arguments, args, m);
    if k < m {
        lemma_passed(arguments, args, m, k);
        let i = choose|i: int|
            0 <= i < before.len() && #[trigger] before[i] == (arguments[k], args[k]->0);
        assert(passed(arguments, args, n)[i] == before[i]);
    } else {
        assert(passed(arguments, args, n)[before.len() as int] == (arguments[k], args[k]->0));
    }
}

/// Whether no argument is required.
pub open spec fn none_required(args: Seq<Option<Req>>) -> bool {
    forall|k: int| 0 <= k < args.len() ==> #[trigger] args[k] is None
}

/// Without required arguments nothing is passed.
proof fn lemma_nothing_passed(arguments: Seq<usize>, args: Seq<Option<Req>>, n: nat)
    requires
        none_required(args),
    ensures
        passed(arguments, args, n).len() == 0,
    decreases n,
{
    if n > 0 {
        lemma_nothing_passed(arguments, args, (n - 1) as nat);
    }
}

/// A call is an analysis of the function that it calls: with the global
/// variables required behind the function that are required behind the call,
/// and with its result required as the expression for it is. The call is
/// required where the function is. Then each argument is required as the
/// function requires it, and nothing that is required behind the call is lost.
/// Otherwise the call changes nothing of what is required in front of it.
pub proof fn law_call_flow(
    shader: Module,
    function: Function,
    depth: nat,
    callee: usize,
    arguments: Vec<usize>,
    result: Option<usize>,
    scope_required: bool,
    base: Context,
    s: Live,
)
    requires
        depth > 0,
    ensures
        ({
            let retval = if result is Some && s.exprs.contains_key(result->0) {
                Some(s.exprs[result->0])
            } else {
                None
            };
            let call = stmt_flow(
                shader,
                function,
                depth,
                Statement::Call { function: callee, arguments, result },
                scope_required,
                base,
                s,
            );
            match fn_flow(
                shader,
                (depth - 1) as nat,
                callee,
                s.context.globals,
                retval,
                s.found,
            ) {
                Some((found, required, input)) => call is Some ==> {
                    let (s1, need) = call->0;
                    &&& need == StmtNeed::Call {
                        call_required: required,
                        result_required: required && retval is Some,
                    }
                    &&& need.required() == required
                    &&& found_grows(found, s1.found)
                    &&& required ==> {
                        &&& forall|k: int|
                            0 <= k < arguments@.len() && k < input.args.len()
                                && #[trigger] input.args[k] is Some ==> s1.exprs.contains_key(
                                arguments@[k],
                            ) && s1.exprs[arguments@[k]].contains(input.args[k]->0)
                        &&& s1.context.contains(s.context)
                        &&& retval is Some ==> s1.exprs.contains_key(result->0)
                    }
                    &&& required && retval is None && none_required(input.args)
                        ==> s1.exprs == s.exprs && s1.context == s.context
                    &&& !required ==> {
                        &&& s1.exprs == s.exprs
                        &&& s1.context == s.context
                        &&& s1.found == found
                    }
                },
                None => call is None,
            }
        }),
{
    let req = expr_req(s.exprs, result);
    let near = (depth - 1) as nat;
    if let Some((found, required, input)) = fn_flow(
        shader,
        near,
        callee,
        s.context.globals,
        req,
        s.found,
    ) {
        let s1 = Live { found, ..s };
        let operands = call_operands(arguments@, input.args, result, req);
        let given = passed(arguments@, input.args, common(arguments@, input.args));
        lemma_grows(s1, s1, s1);
        if required && need_all(shader, function, depth, operands, operands.len(), s1) is Some {
            let end = need_all(shader, function, depth, operands, operands.len(), s1)->0;
            law_demands_required(shader, function, depth, operands, operands.len(), s1);
            lemma_all_grows(shader, function, depth, operands, operands.len(), s1);
            assert(operands.take(operands.len() as int) =~= operands);
            assert forall|k: int|
                0 <= k < arguments@.len() && k < input.args.len()
                    && #[trigger] input.args[k] is Some implies end.exprs.contains_key(
                arguments@[k],
            ) && end.exprs[arguments@[k]].contains(input.args[k]->0) by {
                lemma_passed(arguments@, input.args, common(arguments@, input.args), k);
                let i = choose|i: int|
                    0 <= i < given.len() && #[trigger] given[i] == (
                        arguments@[k],
                        input.args[k]->0,
                    );
                assert(operands[i] == given[i]);
            }
            if req is Some {
                assert(operands.last() == (result->0, req->0));
                assert(end.exprs.contains_key(operands.last().0));
            }
            if req is None && none_required(input.args) {
                lemma_nothing_passed(
                    arguments@,
                    input.args,
                    common(arguments@, input.args),
                );
            }
        }
    }
}

/// A call of a function that stores to a global variable of which something is
/// required behind the call is required.
pub proof fn law_call_writes(
    shader: Module,
    function: Function,
    depth: nat,
    callee: usize,
    arguments: Vec<usize>,
    result: Option<usize>,
    scope_required: bool,
    base: Context,
    s: Live,
    j: int,
    gv: usize,
    indices: Seq<usize>,
    path: Seq<usize>,
)
    requires
        stmt_flow(
            shader,
            function,
            depth,
            Statement::Call { function: callee, arguments, result },
            scope_required,
            base,
            s,
        ) is Some,
        callee < shader.functions.len(),
        0 <= j < shader.functions[callee as int].body.body@.len(),
        shader.functions[callee as int].body.body@[j] matches Statement::Store { pointer, .. }
            && leads_to(shader.functions[callee as int], pointer, VarRef::Global(gv), indices),
        forall|i: int|
            j < i < shader.functions[callee as int].body.body@.len() ==> is_silent(
                #[trigger] shader.functions[callee as int].body.body@[i],
            ),
        s.context.globals.contains_key(gv),
        asks(s.context.globals[gv], indices + path),
    ensures
        ({
            let (_, need) = stmt_flow(
                shader,
                function,
                depth,
                Statement::Call { function: callee, arguments, result },
                scope_required,
                base,
                s,
            )->0;
            need matches StmtNeed::Call { call_required, .. } && call_required
        }),
{
    let req = expr_req(s.exprs, result);
    law_function_writes(
        shader,
        (depth - 1) as nat,
        callee,
        s.context.globals,
        req,
        s.found,
        j,
        gv,
        indices,
        path,
    );
}

/// A call whose result is required, of a function that ends with the return of
/// a value, is required with its result.
pub proof fn law_call_returns(
    shader: Module,
    function: Function,
    depth: nat,
    callee: usize,
    arguments: Vec<usize>,
    result: usize,
    scope_required: bool,
    base: Context,
    s: Live,
)
    requires
        stmt_flow(
            shader,
            function,
            depth,
            Statement::Call { function: callee, arguments, result: Some(result) },
            scope_required,
            base,
            s,
        ) is Some,
        s.exprs.contains_key(result),
        callee < shader.functions.len(),
        shader.functions[callee as int].body.body@.len() > 0,
        shader.functions[callee as int].body.body@.last() matches Statement::Return { value }
            && value is Some,
    ensures
        ({
            let (s1, need) = stmt_flow(
                shader,
                function,
                depth,
                Statement::Call { function: callee, arguments, result: Some(result) },
                scope_required,
                base,
                s,
            )->0;
            &&& need == StmtNeed::Call { call_required: true, result_required: true }
            &&& s1.exprs.contains_key(result)
        }),
{
    if let Statement::Return { value: Some(value) } =
        shader.functions[callee as int].body.body@.last() {
        law_function_returns(
            shader,
            (depth - 1) as nat,
            callee,
            s.context.globals,
            s.exprs[result],
            s.found,
            value,
        );
        law_call_flow(
            shader,
            function,
            depth,
            callee,
            arguments,
            Some(result),
            scope_required,
            base,
            s,
        );
    }
}

/// An entry point is analysed as a function with the same body is: what is
/// required in front of it is the same, and so is what is required of the
/// module, but for what is recorded of that function.
pub proof fn law_entry_like_function(
    shader: Module,
    depth: nat,
    h: usize,
    entrypoint: EntryPoint,
    globals: Map<usize, Req>,
    retval: Option<Req>,
    found: Found,
)
    requires
        h < shader.functions.len(),
        entrypoint.function == shader.functions[h as int],
        fn_flow(shader, depth, h, globals, retval, found) is Some,
    ensures
        ({
            let (found1, required, context) = fn_flow(shader, depth, h, globals, retval, found)->0;
            &&& entry_flow(
                shader,
                depth,
                entrypoint,
                globals,
                retval,
                found,
                None,
            ) matches Some((found2, need, input))
            &&& input == context
            &&& need.body.context == context
            &&& need.body.is_required() == required
            &&& found2.types == found1.types
            &&& found2.constants == found1.constants
            &&& found2.globals == found1.globals
            &&& found2.functions.remove(h) == found1.functions.remove(h)
            &&& !found2.functions.contains_key(h) ==> found1.functions[h] == need
        }),
{
    let (found1, _, _) = fn_flow(shader, depth, h, globals, retval, found)->0;
    let (found2, _, _) = entry_flow(shader, depth, entrypoint, globals, retval, found, None)->0;
    assert(found2.functions.remove(h) =~= found1.functions.remove(h));
}

} // verus!
