//! The analysis: which statements, expressions, variables and functions are
//! required.
use crate::context::{args_of, copy_opt, copy_reqs, merge_reqs, opt_req, Context, RequiredContext};
use crate::expr::{demand, demands_of, lemma_need_all_none, need_all};
use crate::flow::{
    block_flow, body_flow, cases_flow, common, emitted, entry_flow, expr_req, fn_flow,
    image_operands, joined, passed, rounds_flow, stmt_flow, stmts_flow, store_flow,
};
use crate::ir::{Block, EntryPoint, Function, Module, Range, Statement, SwitchCase};
use crate::live::{fn_needs, live, Live, Pruner};
use crate::need::{
    block_needs, lemma_block_view, lemma_switch_view, needs, BlockReq, FunctionReq, StatementReq,
};
use crate::part::{reqs_of, PartReq, Req};
use crate::store::{lemma_path_one_by_one, lemma_resolved_path};
use std::collections::{HashMap, VecDeque};
use vstd::prelude::*;

verus! {

/// Statements that cannot be gone through stop any longer list.
proof fn lemma_stmts_none(
    shader: Module,
    function: Function,
    depth: nat,
    stmts: Seq<Statement>,
    k: nat,
    n: nat,
    scope_required: bool,
    s: Live,
)
    requires
        k <= n,
        stmts_flow(shader, function, depth, stmts, k, scope_required, s) is None,
    ensures
        stmts_flow(shader, function, depth, stmts, n, scope_required, s) is None,
    decreases n,
{
    if k < n {
        lemma_stmts_none(shader, function, depth, stmts, k, (n - 1) as nat, scope_required, s);
    }
}

/// Cases that cannot be gone through stop any longer list.
proof fn lemma_cases_none(
    shader: Module,
    function: Function,
    depth: nat,
    cases: Seq<SwitchCase>,
    k: nat,
    n: nat,
    s: Live,
)
    requires
        k <= n,
        cases_flow(shader, function, depth, cases, k, s) is None,
    ensures
        cases_flow(shader, function, depth, cases, n, s) is None,
    decreases n,
{
    if k < n {
        lemma_cases_none(shader, function, depth, cases, k, (n - 1) as nat, s);
    }
}

/// Which of the expressions in a range are required.
fn emit_flags(range: &Range, exprs_required: &HashMap<usize, PartReq>) -> (flags: Vec<bool>)
    ensures
        flags@ == emitted(*range, reqs_of(exprs_required@)),
{
    let mut flags: Vec<bool> = Vec::new();
    let mut h: usize = range.start;
    while h < range.end
        invariant
            range.start <= h,
            range.start <= range.end ==> h <= range.end,
            range.start > range.end ==> h == range.start,
            flags.len() == h - range.start,
            forall|j: int|
                0 <= j < flags.len() ==> #[trigger] flags[j] == reqs_of(
                    exprs_required@,
                ).contains_key((range.start + j) as usize),
        decreases range.end - h,
    {
        assert(reqs_of(exprs_required@).contains_key(h) == exprs_required@.contains_key(h));
        flags.push(exprs_required.contains_key(&h));
        h = h + 1;
    }
    assert(flags@ =~= emitted(*range, reqs_of(exprs_required@)));
    flags
}

/// Of each argument of a call what the function requires of it.
fn argument_demands(arguments: &Vec<usize>, args: &Vec<Option<PartReq>>) -> (list: Vec<
    (usize, PartReq),
>)
    ensures
        demands_of(list@) == passed(
            arguments@,
            args_of(args@),
            common(arguments@, args_of(args@)),
        ),
{
    let ghost reqs = args_of(args@);
    let mut list: Vec<(usize, PartReq)> = Vec::new();
    assert(demands_of(list@) =~= Seq::empty());
    let mut i: usize = 0;
    while i < arguments.len() && i < args.len()
        invariant
            reqs == args_of(args@),
            i <= common(arguments@, reqs),
            demands_of(list@) == passed(arguments@, reqs, i as nat),
        ensures
            i == common(arguments@, reqs),
        decreases arguments.len() - i,
    {
        assert(reqs[i as int] == opt_req(args[i as int]));
        match &args[i] {
            Some(req) => demand(&mut list, arguments[i], req.clone()),
            None => (),
        }
        i = i + 1;
    }
    list
}

impl Pruner {
    /// Makes a list of demands on expressions.
    fn add_expressions(
        &mut self,
        shader: &Module,
        function: &Function,
        exprs_required: &mut HashMap<usize, PartReq>,
        context: &mut RequiredContext,
        list: &Vec<(usize, PartReq)>,
        depth: usize,
    ) -> (done: bool)
        ensures
            final(self).entry_points == old(self).entry_points,
            done == (need_all(
                *shader,
                *function,
                depth as nat,
                demands_of(list@),
                list@.len(),
                live(*old(self), *old(exprs_required), *old(context)),
            ) is Some),
            done ==> need_all(
                *shader,
                *function,
                depth as nat,
                demands_of(list@),
                list@.len(),
                live(*old(self), *old(exprs_required), *old(context)),
            ) == Some(live(*final(self), *final(exprs_required), *final(context))),
    {
        let ghost s = live(*self, *exprs_required, *context);
        let ghost wanted = demands_of(list@);
        let mut n: usize = 0;
        while n < list.len()
            invariant
                n <= list.len(),
                wanted == demands_of(list@),
                self.entry_points == old(self).entry_points,
                s == live(*old(self), *old(exprs_required), *old(context)),
                need_all(*shader, *function, depth as nat, wanted, n as nat, s) == Some(
                    live(*self, *exprs_required, *context),
                ),
            decreases list.len() - n,
        {
            let (h, req) = &list[n];
            assert(wanted[n as int] == (*h, req@));
            if !self.add_expression(shader, function, exprs_required, context, *h, req, depth) {
                proof {
                    lemma_need_all_none(
                        *shader,
                        *function,
                        depth as nat,
                        wanted,
                        (n + 1) as nat,
                        wanted.len(),
                        s,
                    );
                }
                return false;
            }
            n = n + 1;
        }
        true
    }

    /// Takes what a store writes from the context, where the store is
    /// required; gives what is required of the stored value.
    fn add_write(
        shader: &Module,
        function: &Function,
        context: &mut RequiredContext,
        pointer: usize,
        depth: usize,
    ) -> (r: Option<Option<PartReq>>)
        ensures
            forall|s: Live|
                s.context == old(context)@ ==> match r {
                    Some(req) => #[trigger] store_flow(
                        *shader,
                        *function,
                        depth as nat,
                        pointer,
                        s,
                    ) == Some((s.at(final(context)@), opt_req(req))),
                    None => store_flow(*shader, *function, depth as nat, pointer, s) is None,
                },
    {
        proof {
            lemma_resolved_path(*function, depth as nat, pointer, Req::All);
        }
        let var_ref = match Self::resolve_var(function, pointer, depth) {
            Some(var_ref) => var_ref,
            None => {
                return None;
            },
        };
        proof {
            lemma_path_one_by_one(context@.of(var_ref.var_ref), var_ref.part@);
        }
        let required = Self::store_required(context, &var_ref);
        match required {
            // We no longer care about what writes to this part before.
            Some(req) => {
                if !context.remove(&var_ref.var_ref, &var_ref.part, shader, function) {
                    return None;
                }
                Some(Some(req))
            },
            None => {
                assert(forall|s: Live| s.context == context@ ==> #[trigger] s.at(context@) == s);
                Some(None)
            },
        }
    }

    /// Requires what is required in front of a statement; gives what is
    /// required of the statement.
    #[verifier::rlimit(60)]
    fn add_statement(
        &mut self,
        shader: &Module,
        function: &Function,
        exprs_required: &mut HashMap<usize, PartReq>,
        context: &mut RequiredContext,
        stmt: &Statement,
        break_required: bool,
        break_context: &RequiredContext,
        depth: usize,
    ) -> (r: Option<StatementReq>)
        ensures
            final(self).entry_points == old(self).entry_points,
            match r {
                Some(req) => stmt_flow(
                    *shader,
                    *function,
                    depth as nat,
                    *stmt,
                    break_required,
                    break_context@,
                    live(*old(self), *old(exprs_required), *old(context)),
                ) == Some((live(*final(self), *final(exprs_required), *final(context)), req@)),
                None => stmt_flow(
                    *shader,
                    *function,
                    depth as nat,
                    *stmt,
                    break_required,
                    break_context@,
                    live(*old(self), *old(exprs_required), *old(context)),
                ) is None,
            },
        decreases 2 * depth, stmt, 1nat,
    {
        let ghost s = live(*self, *exprs_required, *context);
        match stmt {
            Statement::Emit(range) => Some(StatementReq::Emit(emit_flags(range, exprs_required))),
            Statement::Block(block) => {
                match self.add_block(
                    shader,
                    function,
                    exprs_required,
                    context,
                    block,
                    break_required,
                    depth,
                ) {
                    Some(req) => {
                        *context = req.context.clone();
                        proof {
                            lemma_block_view(req);
                        }
                        Some(StatementReq::BlockStmt(req))
                    },
                    None => None,
                }
            },
            Statement::If { condition, accept, reject } => {
                let accept_req = match self.add_block(
                    shader,
                    function,
                    exprs_required,
                    context,
                    accept,
                    break_required,
                    depth,
                ) {
                    Some(req) => req,
                    None => {
                        return None;
                    },
                };
                let reject_req = match self.add_block(
                    shader,
                    function,
                    exprs_required,
                    context,
                    reject,
                    break_required,
                    depth,
                ) {
                    Some(req) => req,
                    None => {
                        return None;
                    },
                };
                let condition_req = accept_req.is_required() || reject_req.is_required();
                if condition_req {
                    proof {
                        lemma_block_view(accept_req);
                        lemma_block_view(reject_req);
                    }
                    *context = accept_req.context.merge(&reject_req.context);
                    if !self.add_expression(
                        shader,
                        function,
                        exprs_required,
                        context,
                        *condition,
                        &PartReq::All,
                        depth,
                    ) {
                        return None;
                    }
                }
                Some(
                    StatementReq::If {
                        condition: condition_req,
                        accept: accept_req,
                        reject: reject_req,
                    },
                )
            },
            Statement::Switch { .. } => self.add_switch(
                shader,
                function,
                exprs_required,
                context,
                stmt,
                depth,
                Ghost((break_required, break_context@)),
            ),
            Statement::Loop { body, continuing, break_if } => {
                let body_req = match self.add_block(
                    shader,
                    function,
                    exprs_required,
                    context,
                    body,
                    false,
                    depth,
                ) {
                    Some(req) => req,
                    None => {
                        return None;
                    },
                };
                let continuing_req = match self.add_block(
                    shader,
                    function,
                    exprs_required,
                    context,
                    continuing,
                    false,
                    depth,
                ) {
                    Some(req) => req,
                    None => {
                        return None;
                    },
                };
                if body_req.is_required() || continuing_req.is_required() {
                    match break_if {
                        Some(break_if) => {
                            if !self.add_expression(
                                shader,
                                function,
                                exprs_required,
                                context,
                                *break_if,
                                &PartReq::All,
                                depth,
                            ) {
                                return None;
                            }
                        },
                        None => (),
                    }
                    proof {
                        lemma_block_view(body_req);
                        lemma_block_view(continuing_req);
                    }
                    *context = body_req.context.merge(&continuing_req.context);
                    self.repeat_loop(shader, function, exprs_required, context, stmt, depth)
                } else {
                    Some(
                        StatementReq::Loop {
                            body: body_req,
                            continuing: continuing_req,
                            required: false,
                        },
                    )
                }
            },
            Statement::Break => {
                *context = break_context.clone();
                Some(StatementReq::Break(break_required))
            },
            Statement::Continue => {
                *context = break_context.clone();
                Some(StatementReq::Continue(break_required))
            },
            Statement::Return { value } => {
                let part = copy_opt(&context.retval);
                match (value, part) {
                    (Some(value), Some(part)) => {
                        if self.add_expression(
                            shader,
                            function,
                            exprs_required,
                            context,
                            *value,
                            &part,
                            depth,
                        ) {
                            Some(StatementReq::Return(true))
                        } else {
                            None
                        }
                    },
                    _ => {
                        *context = break_context.clone();
                        Some(StatementReq::Return(break_required))
                    },
                }
            },
            Statement::Kill => Some(StatementReq::Kill()),
            Statement::Barrier(_) => Some(StatementReq::Barrier()),
            Statement::Store { pointer, value } => {
                match Self::add_write(shader, function, context, *pointer, depth) {
                    Some(Some(req)) => {
                        let ghost wanted = seq![(*pointer, Req::Exist), (*value, req@)];
                        let mut list: Vec<(usize, PartReq)> = Vec::new();
                        demand(&mut list, *pointer, PartReq::Exist);
                        demand(&mut list, *value, req);
                        assert(demands_of(list@) =~= wanted);
                        if self.add_expressions(
                            shader,
                            function,
                            exprs_required,
                            context,
                            &list,
                            depth,
                        ) {
                            Some(StatementReq::Store(true))
                        } else {
                            None
                        }
                    },
                    Some(None) => Some(StatementReq::Store(false)),
                    None => None,
                }
            },
            Statement::ImageStore { image, coordinate, array_index, value } => {
                match Self::add_write(shader, function, context, *image, depth) {
                    Some(Some(req)) => {
                        let ghost wanted = image_operands(
                            *image,
                            *coordinate,
                            *array_index,
                            *value,
                            req@,
                        );
                        let mut list: Vec<(usize, PartReq)> = Vec::new();
                        demand(&mut list, *image, PartReq::Exist);
                        demand(&mut list, *coordinate, PartReq::All);
                        match array_index {
                            Some(index) => demand(&mut list, *index, PartReq::Exist),
                            None => (),
                        }
                        demand(&mut list, *value, req);
                        assert(demands_of(list@) =~= wanted);
                        if self.add_expressions(
                            shader,
                            function,
                            exprs_required,
                            context,
                            &list,
                            depth,
                        ) {
                            Some(StatementReq::ImageStore(true))
                        } else {
                            None
                        }
                    },
                    Some(None) => Some(StatementReq::ImageStore(false)),
                    None => None,
                }
            },
            Statement::Atomic { .. } => None,
            Statement::Call { function: callee, arguments, result } => {
                if depth == 0 {
                    return None;
                }
                let req = match result {
                    Some(result) => {
                        assert(s.exprs.contains_key(*result) == exprs_required@.contains_key(
                            *result,
                        ));
                        match exprs_required.get(result) {
                            Some(part) => Some(part.clone()),
                            None => None,
                        }
                    },
                    None => None,
                };
                assert(opt_req(req) == expr_req(s.exprs, *result));
                match self.add_function_within(
                    shader,
                    *callee,
                    copy_reqs(&context.globals),
                    copy_opt(&req),
                    depth - 1,
                ) {
                    Some((true, input)) => {
                        let mut list = argument_demands(arguments, &input.args);
                        let result_required = req.is_some();
                        match (result, req) {
                            (Some(result), Some(req)) => demand(&mut list, *result, req),
                            _ => (),
                        }
                        if self.add_expressions(
                            shader,
                            function,
                            exprs_required,
                            context,
                            &list,
                            depth,
                        ) {
                            Some(StatementReq::Call { call_required: true, result_required })
                        } else {
                            None
                        }
                    },
                    Some((false, _)) => Some(
                        StatementReq::Call { call_required: false, result_required: false },
                    ),
                    None => None,
                }
            },
        }
    }

    /// Requires what is required in front of a switch.
    fn add_switch(
        &mut self,
        shader: &Module,
        function: &Function,
        exprs_required: &mut HashMap<usize, PartReq>,
        context: &mut RequiredContext,
        stmt: &Statement,
        depth: usize,
        Ghost(scope): Ghost<(bool, Context)>,
    ) -> (r: Option<StatementReq>)
        requires
            stmt is Switch,
        ensures
            final(self).entry_points == old(self).entry_points,
            match r {
                Some(req) => stmt_flow(
                    *shader,
                    *function,
                    depth as nat,
                    *stmt,
                    scope.0,
                    scope.1,
                    live(*old(self), *old(exprs_required), *old(context)),
                ) == Some((live(*final(self), *final(exprs_required), *final(context)), req@)),
                None => stmt_flow(
                    *shader,
                    *function,
                    depth as nat,
                    *stmt,
                    scope.0,
                    scope.1,
                    live(*old(self), *old(exprs_required), *old(context)),
                ) is None,
            },
        decreases 2 * depth, stmt, 0nat,
    {
        let ghost s = live(*self, *exprs_required, *context);
        match stmt {
            Statement::Switch { selector, cases } => {
                let mut any_required = false;
                let mut reqs: Vec<BlockReq> = Vec::new();
                assert(block_needs(reqs@) =~= Seq::empty());
                let mut input_context = context.clone();
                let mut n: usize = 0;
                while n < cases.len()
                    invariant
                        n <= cases.len(),
                        *stmt == (Statement::Switch { selector: *selector, cases: *cases }),
                        context@ == s.context,
                        *context == *old(context),
                        s == live(*old(self), *old(exprs_required), *old(context)),
                        self.entry_points == old(self).entry_points,
                        cases_flow(*shader, *function, depth as nat, cases@, n as nat, s) == Some(
                            (
                                live(*self, *exprs_required, *context),
                                input_context@,
                                any_required,
                                block_needs(reqs@),
                            ),
                        ),
                    decreases cases.len() - n,
                {
                    let case = &cases[cases.len() - 1 - n];
                    proof {
                        assert(decreases_to!(stmt => stmt->Switch_cases));
                        assert(decreases_to!(*cases => cases@));
                        assert(decreases_to!(cases@ => cases@[cases@.len() - 1 - n]));
                    }
                    match self.add_block(
                        shader,
                        function,
                        exprs_required,
                        context,
                        &case.body,
                        false,
                        depth,
                    ) {
                        Some(req) => {
                            proof {
                                lemma_block_view(req);
                            }
                            input_context = input_context.merge(&req.context);
                            any_required = any_required || req.is_required();
                            let ghost before = reqs@;
                            reqs.push(req);
                            assert(block_needs(reqs@) =~= block_needs(before).push(req@));
                        },
                        None => {
                            proof {
                                lemma_cases_none(
                                    *shader,
                                    *function,
                                    depth as nat,
                                    cases@,
                                    (n + 1) as nat,
                                    cases@.len(),
                                    s,
                                );
                            }
                            return None;
                        },
                    }
                    n = n + 1;
                }
                if any_required {
                    if !self.add_expression(
                        shader,
                        function,
                        exprs_required,
                        context,
                        *selector,
                        &PartReq::All,
                        depth,
                    ) {
                        return None;
                    }
                    *context = input_context;
                }
                proof {
                    lemma_switch_view(any_required, reqs);
                }
                Some(StatementReq::Switch { selector: any_required, cases: reqs })
            },
            _ => None,
        }
    }

    /// Goes through the blocks of a required loop, with `context` at their
    /// ends, until they require nothing else at their beginnings.
    fn repeat_loop(
        &mut self,
        shader: &Module,
        function: &Function,
        exprs_required: &mut HashMap<usize, PartReq>,
        context: &RequiredContext,
        stmt: &Statement,
        depth: usize,
    ) -> (r: Option<StatementReq>)
        ensures
            final(self).entry_points == old(self).entry_points,
            match r {
                Some(req) => rounds_flow(
                    *shader,
                    *function,
                    depth as nat,
                    *stmt,
                    live(*old(self), *old(exprs_required), *context),
                ) == Some((live(*final(self), *final(exprs_required), *context), req@)),
                None => rounds_flow(
                    *shader,
                    *function,
                    depth as nat,
                    *stmt,
                    live(*old(self), *old(exprs_required), *context),
                ) is None,
            },
        decreases 2 * depth, stmt, 0nat,
    {
        match stmt {
            Statement::Loop { body, continuing, break_if } => {
                let mut left: usize = depth;
                while left > 0
                    invariant
                        left <= depth,
                        *stmt == (Statement::Loop {
                            body: *body,
                            continuing: *continuing,
                            break_if: *break_if,
                        }),
                        self.entry_points == old(self).entry_points,
                        rounds_flow(
                            *shader,
                            *function,
                            left as nat,
                            *stmt,
                            live(*self, *exprs_required, *context),
                        ) == rounds_flow(
                            *shader,
                            *function,
                            depth as nat,
                            *stmt,
                            live(*old(self), *old(exprs_required), *context),
                        ),
                    decreases left,
                {
                    let body_req = match self.add_block(
                        shader,
                        function,
                        exprs_required,
                        context,
                        body,
                        true,
                        left,
                    ) {
                        Some(req) => req,
                        None => {
                            return None;
                        },
                    };
                    let continuing_req = match self.add_block(
                        shader,
                        function,
                        exprs_required,
                        context,
                        continuing,
                        true,
                        left,
                    ) {
                        Some(req) => req,
                        None => {
                            return None;
                        },
                    };
                    proof {
                        lemma_block_view(body_req);
                        lemma_block_view(continuing_req);
                    }
                    let new_context = body_req.context.merge(&continuing_req.context);
                    if context.contains(&new_context) {
                        return Some(
                            StatementReq::Loop {
                                body: body_req,
                                continuing: continuing_req,
                                required: true,
                            },
                        );
                    }
                    left = left - 1;
                }
                None
            },
            _ => None,
        }
    }

    /// Requires what is required where `base_context` is required behind the
    /// block; gives what is required of the block.
    fn add_block(
        &mut self,
        shader: &Module,
        function: &Function,
        exprs_required: &mut HashMap<usize, PartReq>,
        base_context: &RequiredContext,
        block: &Block,
        break_required: bool,
        depth: usize,
    ) -> (r: Option<BlockReq>)
        ensures
            final(self).entry_points == old(self).entry_points,
            match r {
                Some(req) => block_flow(
                    *shader,
                    *function,
                    depth as nat,
                    *block,
                    break_required,
                    live(*old(self), *old(exprs_required), *base_context),
                ) == Some((live(*final(self), *final(exprs_required), *base_context), req@)),
                None => block_flow(
                    *shader,
                    *function,
                    depth as nat,
                    *block,
                    break_required,
                    live(*old(self), *old(exprs_required), *base_context),
                ) is None,
            },
        decreases 2 * depth, block, 0nat,
    {
        let ghost s = live(*self, *exprs_required, *base_context);
        let mut context = base_context.clone();
        let mut statements: VecDeque<StatementReq> = VecDeque::new();
        assert(needs(statements@) =~= Seq::empty());
        let mut required = break_required;
        let mut n: usize = 0;
        while n < block.body.len()
            invariant
                n <= block.body.len(),
                s == live(*old(self), *old(exprs_required), *base_context),
                self.entry_points == old(self).entry_points,
                stmts_flow(
                    *shader,
                    *function,
                    depth as nat,
                    block.body@,
                    n as nat,
                    break_required,
                    s,
                ) == Some(
                    (live(*self, *exprs_required, context), needs(statements@), required),
                ),
            decreases block.body.len() - n,
        {
            proof {
                assert(decreases_to!(block => block.body));
                assert(decreases_to!(block.body => block.body@));
                assert(decreases_to!(block.body@ => block.body@[block.body@.len() - 1 - n]));
            }
            match self.add_statement(
                shader,
                function,
                exprs_required,
                &mut context,
                &block.body[block.body.len() - 1 - n],
                required,
                base_context,
                depth,
            ) {
                Some(req) => {
                    required = required || req.required();
                    let ghost before = statements@;
                    statements.push_front(req);
                    assert(needs(statements@) =~= seq![req@] + needs(before));
                },
                None => {
                    proof {
                        lemma_stmts_none(
                            *shader,
                            *function,
                            depth as nat,
                            block.body@,
                            (n + 1) as nat,
                            block.body@.len(),
                            break_required,
                            s,
                        );
                    }
                    return None;
                },
            }
            n = n + 1;
        }
        let req = BlockReq { required_statements: statements, context };
        proof {
            lemma_block_view(req);
        }
        Some(req)
    }

    /// Requires what is required where `globals` and `retval` are required
    /// behind the function; gives what is required of the function.
    fn add_function_ref(
        &mut self,
        shader: &Module,
        func: &Function,
        globals: HashMap<usize, PartReq>,
        retval: Option<PartReq>,
        depth: usize,
    ) -> (r: Option<FunctionReq>)
        ensures
            final(self).entry_points == old(self).entry_points,
            match r {
                Some(req) => body_flow(
                    *shader,
                    depth as nat,
                    *func,
                    reqs_of(globals@),
                    opt_req(retval),
                    old(self)@.found,
                ) == Some((final(self)@.found, req@)),
                None => body_flow(
                    *shader,
                    depth as nat,
                    *func,
                    reqs_of(globals@),
                    opt_req(retval),
                    old(self)@.found,
                ) is None,
            },
        decreases 2 * depth + 1, shader, 0nat,
    {
        let mut args: Vec<Option<PartReq>> = Vec::new();
        let mut i: usize = 0;
        while i < func.arguments.len()
            invariant
                i <= func.arguments.len(),
                args.len() == i,
                forall|j: int| 0 <= j < i ==> (#[trigger] args[j]) is None,
            decreases func.arguments.len() - i,
        {
            args.push(None);
            i = i + 1;
        }
        let context = RequiredContext { globals, locals: HashMap::new(), args, retval };
        let mut exprs_required: HashMap<usize, PartReq> = HashMap::new();
        proof {
            assert(reqs_of(exprs_required@) =~= Map::empty());
            assert(context@.locals =~= Map::empty());
            assert(context@.args =~= Seq::new(func.arguments@.len(), |i: int| None));
        }
        match self.add_block(
            shader,
            func,
            &mut exprs_required,
            &context,
            &func.body,
            false,
            depth,
        ) {
            Some(body_required) => Some(FunctionReq { body_required, exprs_required }),
            None => None,
        }
    }

    /// Requires what is required where `globals` and `retval` are required
    /// behind the function `function`; gives whether the function is required,
    /// and what is required in front of it.
    fn add_function_within(
        &mut self,
        shader: &Module,
        function: usize,
        globals: HashMap<usize, PartReq>,
        retval: Option<PartReq>,
        depth: usize,
    ) -> (r: Option<(bool, RequiredContext)>)
        ensures
            final(self).entry_points == old(self).entry_points,
            match r {
                Some((required, context)) => fn_flow(
                    *shader,
                    depth as nat,
                    function,
                    reqs_of(globals@),
                    opt_req(retval),
                    old(self)@.found,
                ) == Some((final(self)@.found, required, context@)),
                None => fn_flow(
                    *shader,
                    depth as nat,
                    function,
                    reqs_of(globals@),
                    opt_req(retval),
                    old(self)@.found,
                ) is None,
            },
        decreases 2 * depth + 1, shader, 1nat,
    {
        if function >= shader.functions.len() {
            return None;
        }
        let func_req = match self.add_function_ref(
            shader,
            &shader.functions[function],
            globals,
            retval,
            depth,
        ) {
            Some(func_req) => func_req,
            None => {
                return None;
            },
        };
        let required = func_req.body_required.is_required();
        proof {
            lemma_block_view(func_req.body_required);
        }
        let context = func_req.body_required.context.clone();
        assert(fn_needs(self.functions@).contains_key(function) == self.functions@.contains_key(
            function,
        ));
        let all = match join_function(self.functions.get(&function), func_req) {
            Some(all) => all,
            None => {
                return None;
            },
        };
        let ghost before = self.functions@;
        self.functions.insert(function, all);
        assert(fn_needs(self.functions@) =~= fn_needs(before).insert(function, all@));
        Some((required, context))
    }
}

impl Pruner {
    /// Requires what is required where `globals` and `retval` are required
    /// behind the function `function`; gives whether the function is required,
    /// and what is required in front of it.
    pub fn add_function(
        &mut self,
        shader: &Module,
        function: usize,
        globals: HashMap<usize, PartReq>,
        retval: Option<PartReq>,
    ) -> (r: (bool, RequiredContext))
        requires
            fn_flow(
                *shader,
                usize::MAX as nat,
                function,
                reqs_of(globals@),
                opt_req(retval),
                old(self)@.found,
            ) is Some,
        ensures
            final(self)@.entries == old(self)@.entries,
            fn_flow(
                *shader,
                usize::MAX as nat,
                function,
                reqs_of(globals@),
                opt_req(retval),
                old(self)@.found,
            ) == Some((final(self)@.found, r.0, r.1@)),
    {
        let r = self.add_function_within(shader, function, globals, retval, usize::MAX);
        assert(self@.entries =~= old(self)@.entries);
        r.unwrap()
    }

    /// As [`Pruner::add_function`], for any module: `None` where a handle
    /// leads nowhere, where a statement or expression is one that is not
    /// supported, or where expressions, calls and repetitions of loops are
    /// nested `depth` deep. Then the analysis has stopped on its way.
    pub fn try_add_function(
        &mut self,
        shader: &Module,
        function: usize,
        globals: HashMap<usize, PartReq>,
        retval: Option<PartReq>,
        depth: usize,
    ) -> (r: Option<(bool, RequiredContext)>)
        ensures
            final(self)@.entries == old(self)@.entries,
            match r {
                Some((required, context)) => fn_flow(
                    *shader,
                    depth as nat,
                    function,
                    reqs_of(globals@),
                    opt_req(retval),
                    old(self)@.found,
                ) == Some((final(self)@.found, required, context@)),
                None => fn_flow(
                    *shader,
                    depth as nat,
                    function,
                    reqs_of(globals@),
                    opt_req(retval),
                    old(self)@.found,
                ) is None,
            },
    {
        let r = self.add_function_within(shader, function, globals, retval, depth);
        assert(self@.entries =~= old(self)@.entries);
        r
    }

    /// Requires what is required where `globals` and `retval` are required
    /// behind the entry point; gives what is required in front of it.
    pub fn add_entrypoint(
        &mut self,
        shader: &Module,
        entrypoint: &EntryPoint,
        globals: HashMap<usize, PartReq>,
        retval: Option<PartReq>,
    ) -> (r: RequiredContext)
        requires
            entry_flow(
                *shader,
                usize::MAX as nat,
                *entrypoint,
                reqs_of(globals@),
                opt_req(retval),
                old(self)@.found,
                old(self).entry(entrypoint.name@),
            ) is Some,
        ensures
            ({
                let flow = entry_flow(
                    *shader,
                    usize::MAX as nat,
                    *entrypoint,
                    reqs_of(globals@),
                    opt_req(retval),
                    old(self)@.found,
                    old(self).entry(entrypoint.name@),
                )->0;
                &&& final(self)@.found == flow.0
                &&& final(self)@.entries == old(self)@.entries.insert(entrypoint.name@, flow.1)
                &&& r@ == flow.2
            }),
    {
        self.try_add_entrypoint(shader, entrypoint, globals, retval, usize::MAX).unwrap()
    }

    /// As [`Pruner::add_entrypoint`], for any module: `None` where
    /// [`Pruner::try_add_function`] gives `None`. Then the analysis has stopped
    /// on its way.
    pub fn try_add_entrypoint(
        &mut self,
        shader: &Module,
        entrypoint: &EntryPoint,
        globals: HashMap<usize, PartReq>,
        retval: Option<PartReq>,
        depth: usize,
    ) -> (r: Option<RequiredContext>)
        ensures
            ({
                let flow = entry_flow(
                    *shader,
                    depth as nat,
                    *entrypoint,
                    reqs_of(globals@),
                    opt_req(retval),
                    old(self)@.found,
                    old(self).entry(entrypoint.name@),
                );
                match (r, flow) {
                    (Some(context), Some((found, need, input))) => {
                        &&& final(self)@.found == found
                        &&& final(self)@.entries == old(self)@.entries.insert(
                            entrypoint.name@,
                            need,
                        )
                        &&& context@ == input
                    },
                    (None, None) => final(self)@.entries == old(self)@.entries,
                    _ => false,
                }
            }),
    {
        let func_req = match self.add_function_ref(
            shader,
            &entrypoint.function,
            globals,
            retval,
            depth,
        ) {
            Some(func_req) => func_req,
            None => {
                assert(self@.entries =~= old(self)@.entries);
                return None;
            },
        };
        proof {
            lemma_block_view(func_req.body_required);
        }
        let context = func_req.body_required.context.clone();
        assert(self@.entries =~= old(self)@.entries);
        let all = match join_function(self.get_entry(&entrypoint.name), func_req) {
            Some(all) => all,
            None => {
                return None;
            },
        };
        self.set_entry(&entrypoint.name, all);
        Some(context)
    }
}

/// What two passes through a function together require of it.
fn join_function(now: Option<&FunctionReq>, func_req: FunctionReq) -> (r: Option<FunctionReq>)
    ensures
        match r {
            Some(all) => joined(
                match now {
                    Some(now) => Some(now@),
                    None => None,
                },
                func_req@,
            ) == Some(all@),
            None => joined(
                match now {
                    Some(now) => Some(now@),
                    None => None,
                },
                func_req@,
            ) is None,
        },
{
    match now {
        Some(now) => match now.body_required.add(&func_req.body_required) {
            Some(body_required) => {
                let exprs_required = merge_reqs(&now.exprs_required, &func_req.exprs_required);
                Some(FunctionReq { body_required, exprs_required })
            },
            None => None,
        },
        None => Some(func_req),
    }
}

} // verus!
