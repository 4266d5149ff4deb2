//! How large a module is.
use crate::ir::{Block, EntryPoint, Function, Module, Statement, SwitchCase};
use vstd::prelude::*;

verus! {

/// The number of statements in a statement: that in its blocks, or one.
pub open spec fn stmt_count(stmt: Statement) -> nat
    decreases stmt,
{
    match stmt {
        Statement::Block(block) => block_count(block),
        Statement::If { accept, reject, .. } => block_count(accept) + block_count(reject),
        Statement::Switch { cases, .. } => cases_count(cases@, cases@.len()),
        Statement::Loop { body, continuing, .. } => block_count(body) + block_count(continuing),
        _ => 1,
    }
}

/// The number of statements in the first `n` statements.
pub open spec fn stmts_count(stmts: Seq<Statement>, n: nat) -> nat
    decreases stmts, n,
{
    if n == 0 || n > stmts.len() {
        0
    } else {
        stmts_count(stmts, (n - 1) as nat) + stmt_count(stmts[n - 1])
    }
}

/// The number of statements in a block.
pub open spec fn block_count(block: Block) -> nat
    decreases block,
{
    stmts_count(block.body@, block.body@.len())
}

/// The number of statements in the first `n` cases of a switch.
pub open spec fn cases_count(cases: Seq<SwitchCase>, n: nat) -> nat
    decreases cases, n,
{
    if n == 0 || n > cases.len() {
        0
    } else {
        cases_count(cases, (n - 1) as nat) + block_count(cases[n - 1].body)
    }
}

/// The number of expressions and of statements of the first `n` functions.
pub open spec fn functions_count(functions: Seq<Function>, n: nat) -> (nat, nat)
    decreases n,
{
    if n == 0 {
        (0, 0)
    } else {
        let (exprs, stmts) = functions_count(functions, (n - 1) as nat);
        (
            exprs + functions[n - 1].expressions@.len(),
            stmts + block_count(functions[n - 1].body),
        )
    }
}

/// The same with that of the first `n` entry points.
pub open spec fn entries_count(start: (nat, nat), entries: Seq<EntryPoint>, n: nat) -> (nat, nat)
    decreases n,
{
    if n == 0 {
        start
    } else {
        let (exprs, stmts) = entries_count(start, entries, (n - 1) as nat);
        (
            exprs + entries[n - 1].function.expressions@.len(),
            stmts + block_count(entries[n - 1].function.body),
        )
    }
}

/// The number of expressions and of statements of a module.
pub open spec fn module_count(module: Module) -> (nat, nat) {
    entries_count(
        functions_count(module.functions@, module.functions@.len()),
        module.entry_points@,
        module.entry_points@.len(),
    )
}

/// More statements do not count less.
proof fn lemma_stmts_count(stmts: Seq<Statement>, k: nat, n: nat)
    requires
        k <= n <= stmts.len(),
    ensures
        stmts_count(stmts, k) <= stmts_count(stmts, n),
    decreases n,
{
    if k < n {
        lemma_stmts_count(stmts, k, (n - 1) as nat);
    }
}

/// More cases do not count less.
proof fn lemma_cases_count(cases: Seq<SwitchCase>, k: nat, n: nat)
    requires
        k <= n <= cases.len(),
    ensures
        cases_count(cases, k) <= cases_count(cases, n),
    decreases n,
{
    if k < n {
        lemma_cases_count(cases, k, (n - 1) as nat);
    }
}

/// The sum of two counts. `None` where it does not fit.
fn sum(a: Option<usize>, b: Option<usize>) -> (r: Option<usize>)
    ensures
        match (a, b) {
            (Some(a), Some(b)) => match r {
                Some(n) => n == a + b,
                None => a + b > usize::MAX,
            },
            _ => r is None,
        },
{
    match (a, b) {
        (Some(a), Some(b)) => a.checked_add(b),
        _ => None,
    }
}

/// The number of statements in a statement. `None` where it does not fit.
fn count_stmt(stmt: &Statement) -> (r: Option<usize>)
    ensures
        match r {
            Some(n) => n == stmt_count(*stmt),
            None => stmt_count(*stmt) > usize::MAX,
        },
    decreases stmt, 0nat,
{
    match stmt {
        Statement::Block(block) => count_stmts(block),
        Statement::If { accept, reject, .. } => sum(count_stmts(accept), count_stmts(reject)),
        Statement::Switch { cases, .. } => {
            let mut count: usize = 0;
            let mut i: usize = 0;
            while i < cases.len()
                invariant
                    i <= cases.len(),
                    stmt is Switch,
                    stmt->Switch_cases == *cases,
                    count == cases_count(cases@, i as nat),
                decreases cases.len() - i,
            {
                proof {
                    assert(decreases_to!(stmt => stmt->Switch_cases));
                    assert(decreases_to!(*cases => cases@));
                    assert(decreases_to!(cases@ => cases@[i as int]));
                    lemma_cases_count(cases@, (i + 1) as nat, cases@.len());
                }
                match sum(Some(count), count_stmts(&cases[i].body)) {
                    Some(n) => {
                        count = n;
                    },
                    None => {
                        return None;
                    },
                }
                i = i + 1;
            }
            Some(count)
        },
        Statement::Loop { body, continuing, .. } => sum(count_stmts(body), count_stmts(continuing)),
        _ => Some(1),
    }
}

/// The number of statements in a block. `None` where it does not fit.
pub fn count_stmts(block: &Block) -> (r: Option<usize>)
    ensures
        match r {
            Some(n) => n == block_count(*block),
            None => block_count(*block) > usize::MAX,
        },
    decreases block, 0nat,
{
    let mut count: usize = 0;
    let mut i: usize = 0;
    while i < block.body.len()
        invariant
            i <= block.body.len(),
            count == stmts_count(block.body@, i as nat),
        decreases block.body.len() - i,
    {
        proof {
            assert(decreases_to!(block => block.body));
            assert(decreases_to!(block.body => block.body@));
            assert(decreases_to!(block.body@ => block.body@[i as int]));
            lemma_stmts_count(block.body@, (i + 1) as nat, block.body@.len());
        }
        match sum(Some(count), count_stmt(&block.body[i])) {
            Some(n) => {
                count = n;
            },
            None => {
                return None;
            },
        }
        i = i + 1;
    }
    Some(count)
}

/// More functions do not count less.
proof fn lemma_functions_count(functions: Seq<Function>, k: nat, n: nat)
    requires
        k <= n,
    ensures
        functions_count(functions, k).0 <= functions_count(functions, n).0,
        functions_count(functions, k).1 <= functions_count(functions, n).1,
    decreases n,
{
    if k < n {
        lemma_functions_count(functions, k, (n - 1) as nat);
    }
}

/// More entry points do not count less.
proof fn lemma_entries_count(start: (nat, nat), entries: Seq<EntryPoint>, k: nat, n: nat)
    requires
        k <= n,
    ensures
        entries_count(start, entries, k).0 <= entries_count(start, entries, n).0,
        entries_count(start, entries, k).1 <= entries_count(start, entries, n).1,
    decreases n,
{
    if k < n {
        lemma_entries_count(start, entries, k, (n - 1) as nat);
    }
}

/// The number of expressions and of statements of a module. `None` where one
/// does not fit.
pub fn count_module(module: &Module) -> (r: Option<(usize, usize)>)
    ensures
        ({
            let (exprs, stmts) = module_count(*module);
            match r {
                Some((e, s)) => e == exprs && s == stmts,
                None => exprs > usize::MAX || stmts > usize::MAX,
            }
        }),
{
    let ghost fns = module.functions@;
    let ghost eps = module.entry_points@;
    let ghost start = functions_count(fns, fns.len());
    let mut exprs: usize = 0;
    let mut stmts: usize = 0;
    let mut i: usize = 0;
    while i < module.functions.len()
        invariant
            i <= module.functions.len(),
            fns == module.functions@,
            eps == module.entry_points@,
            start == functions_count(fns, fns.len()),
            exprs == functions_count(fns, i as nat).0,
            stmts == functions_count(fns, i as nat).1,
        decreases module.functions.len() - i,
    {
        let function = &module.functions[i];
        proof {
            lemma_functions_count(fns, (i + 1) as nat, fns.len());
            lemma_entries_count(start, eps, 0, eps.len());
        }
        match (
            sum(Some(exprs), Some(function.expressions.len())),
            sum(Some(stmts), count_stmts(&function.body)),
        ) {
            (Some(e), Some(s)) => {
                exprs = e;
                stmts = s;
            },
            _ => {
                return None;
            },
        }
        i = i + 1;
    }
    let mut i: usize = 0;
    while i < module.entry_points.len()
        invariant
            i <= module.entry_points.len(),
            fns == module.functions@,
            eps == module.entry_points@,
            start == functions_count(fns, fns.len()),
            exprs == entries_count(start, eps, i as nat).0,
            stmts == entries_count(start, eps, i as nat).1,
        decreases module.entry_points.len() - i,
    {
        let function = &module.entry_points[i].function;
        proof {
            lemma_entries_count(start, eps, (i + 1) as nat, eps.len());
        }
        match (
            sum(Some(exprs), Some(function.expressions.len())),
            sum(Some(stmts), count_stmts(&function.body)),
        ) {
            (Some(e), Some(s)) => {
                exprs = e;
                stmts = s;
            },
            _ => {
                return None;
            },
        }
        i = i + 1;
    }
    Some((exprs, stmts))
}

} // verus!
