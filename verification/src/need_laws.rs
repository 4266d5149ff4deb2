//! Laws of what is required of statements: two passes through a statement
//! together require what one of them requires, and nothing else.
use crate::ir::Statement;
use crate::need::{add_blocks, add_stmts, flags_or, shorter, BlockNeed, StmtNeed};
use crate::part_laws::{law_merge_contains, law_merge_least};
use crate::prune::{any_kept, flagged, kept};
use vstd::prelude::*;

verus! {

/// Whether two requirements are about statements of one shape.
pub open spec fn alike(a: StmtNeed, b: StmtNeed) -> bool
    decreases a,
{
    match (a, b) {
        (StmtNeed::Emit(p), StmtNeed::Emit(q)) => p.len() == q.len(),
        (StmtNeed::BlockStmt(p), StmtNeed::BlockStmt(q)) => blocks_alike(p, q),
        (
            StmtNeed::If { accept: p, reject: r, .. },
            StmtNeed::If { accept: q, reject: s, .. },
        ) => blocks_alike(p, q) && blocks_alike(r, s),
        (StmtNeed::Switch { cases: p, .. }, StmtNeed::Switch { cases: q, .. }) => p.len() == q.len()
            && cases_alike(p, q, p.len()),
        (
            StmtNeed::Loop { body: p, continuing: r, .. },
            StmtNeed::Loop { body: q, continuing: s, .. },
        ) => blocks_alike(p, q) && blocks_alike(r, s),
        (StmtNeed::Break(_), StmtNeed::Break(_)) => true,
        (StmtNeed::Continue(_), StmtNeed::Continue(_)) => true,
        (StmtNeed::Return(_), StmtNeed::Return(_)) => true,
        (StmtNeed::Kill, StmtNeed::Kill) => true,
        (StmtNeed::Barrier, StmtNeed::Barrier) => true,
        (StmtNeed::Store(_), StmtNeed::Store(_)) => true,
        (StmtNeed::ImageStore(_), StmtNeed::ImageStore(_)) => true,
        (StmtNeed::Atomic(_), StmtNeed::Atomic(_)) => true,
        (StmtNeed::Call { .. }, StmtNeed::Call { .. }) => true,
        _ => false,
    }
}

/// The same of the first `n` statements.
pub open spec fn stmts_alike(a: Seq<StmtNeed>, b: Seq<StmtNeed>, n: nat) -> bool
    decreases a, n,
{
    if n == 0 || n > a.len() {
        n == 0
    } else {
        stmts_alike(a, b, (n - 1) as nat) && alike(a[n - 1], b[n - 1])
    }
}

/// The same of blocks.
pub open spec fn blocks_alike(a: BlockNeed, b: BlockNeed) -> bool
    decreases a,
{
    a.stmts.len() == b.stmts.len() && stmts_alike(a.stmts, b.stmts, a.stmts.len())
}

/// The same of the first `n` cases.
pub open spec fn cases_alike(a: Seq<BlockNeed>, b: Seq<BlockNeed>, n: nat) -> bool
    decreases a, n,
{
    if n == 0 || n > a.len() {
        n == 0
    } else {
        cases_alike(a, b, (n - 1) as nat) && blocks_alike(a[n - 1], b[n - 1])
    }
}

/// Whether all that `a` requires of a statement, and inside it, `b` requires.
pub open spec fn within(a: StmtNeed, b: StmtNeed) -> bool
    decreases a,
{
    match (a, b) {
        (StmtNeed::Emit(p), StmtNeed::Emit(q)) => p.len() == q.len() && forall|i: int|
            0 <= i < p.len() && #[trigger] p[i] ==> q[i],
        (StmtNeed::BlockStmt(p), StmtNeed::BlockStmt(q)) => block_within(p, q),
        (
            StmtNeed::If { condition: c, accept: p, reject: r },
            StmtNeed::If { condition: d, accept: q, reject: s },
        ) => (c ==> d) && block_within(p, q) && block_within(r, s),
        (
            StmtNeed::Switch { selector: c, cases: p },
            StmtNeed::Switch { selector: d, cases: q },
        ) => (c ==> d) && p.len() == q.len() && cases_within(p, q, p.len()),
        (
            StmtNeed::Loop { body: p, continuing: r, required: c },
            StmtNeed::Loop { body: q, continuing: s, required: d },
        ) => (c ==> d) && block_within(p, q) && block_within(r, s),
        (StmtNeed::Break(c), StmtNeed::Break(d)) => c ==> d,
        (StmtNeed::Continue(c), StmtNeed::Continue(d)) => c ==> d,
        (StmtNeed::Return(c), StmtNeed::Return(d)) => c ==> d,
        (StmtNeed::Kill, StmtNeed::Kill) => true,
        (StmtNeed::Barrier, StmtNeed::Barrier) => true,
        (StmtNeed::Store(c), StmtNeed::Store(d)) => c ==> d,
        (StmtNeed::ImageStore(c), StmtNeed::ImageStore(d)) => c ==> d,
        (StmtNeed::Atomic(c), StmtNeed::Atomic(d)) => c ==> d,
        (
            StmtNeed::Call { call_required: c, result_required: r },
            StmtNeed::Call { call_required: d, result_required: s },
        ) => (c ==> d) && (r ==> s),
        _ => false,
    }
}

/// The same of the first `n` statements.
pub open spec fn stmts_within(a: Seq<StmtNeed>, b: Seq<StmtNeed>, n: nat) -> bool
    decreases a, n,
{
    if n == 0 || n > a.len() {
        n == 0
    } else {
        stmts_within(a, b, (n - 1) as nat) && within(a[n - 1], b[n - 1])
    }
}

/// The same of blocks, and of what is required in front of them.
pub open spec fn block_within(a: BlockNeed, b: BlockNeed) -> bool
    decreases a,
{
    &&& a.stmts.len() == b.stmts.len()
    &&& stmts_within(a.stmts, b.stmts, a.stmts.len())
    &&& b.context.contains(a.context)
}

/// The same of the first `n` cases.
pub open spec fn cases_within(a: Seq<BlockNeed>, b: Seq<BlockNeed>, n: nat) -> bool
    decreases a, n,
{
    if n == 0 || n > a.len() {
        n == 0
    } else {
        cases_within(a, b, (n - 1) as nat) && block_within(a[n - 1], b[n - 1])
    }
}

/// What two passes require of one statement can be added. The sum requires all
/// that one of them requires, and is within all that requires as much; it makes
/// its block required where one of them does.
pub proof fn law_add_needs(a: StmtNeed, b: StmtNeed, c: StmtNeed)
    requires
        alike(a, b),
    ensures
        a.add(b) is Some,
        within(a, a.add(b)->0),
        within(b, a.add(b)->0),
        within(a, c) && within(b, c) ==> within(a.add(b)->0, c),
        a.add(b)->0.required() == (a.required() || b.required()),
    decreases a, 0nat,
{
    match (a, b) {
        (StmtNeed::Emit(p), StmtNeed::Emit(q)) => {
            let sum = flags_or(p, q);
            if p.contains(true) {
                let i = choose|i: int| 0 <= i < p.len() && p[i] == true;
                assert(sum[i]);
            }
            if q.contains(true) {
                let i = choose|i: int| 0 <= i < q.len() && q[i] == true;
                assert(sum[i]);
            }
            if sum.contains(true) {
                let i = choose|i: int| 0 <= i < sum.len() && sum[i] == true;
                assert(p[i] || q[i]);
            }
        },
        (StmtNeed::BlockStmt(p), StmtNeed::BlockStmt(q)) => {
            let other = if let StmtNeed::BlockStmt(r) = c {
                r
            } else {
                p
            };
            law_add_blocks(p, q, other);
        },
        (
            StmtNeed::If { accept: p, reject: r, .. },
            StmtNeed::If { accept: q, reject: s, .. },
        ) => {
            if let StmtNeed::If { accept, reject, .. } = c {
                law_add_blocks(p, q, accept);
                law_add_blocks(r, s, reject);
            } else {
                law_add_blocks(p, q, p);
                law_add_blocks(r, s, r);
            }
        },
        (StmtNeed::Switch { cases: p, .. }, StmtNeed::Switch { cases: q, .. }) => {
            let other = if let StmtNeed::Switch { cases, .. } = c {
                cases
            } else {
                p
            };
            lemma_add_cases(p, q, other, p.len());
        },
        (
            StmtNeed::Loop { body: p, continuing: r, .. },
            StmtNeed::Loop { body: q, continuing: s, .. },
        ) => {
            if let StmtNeed::Loop { body, continuing, .. } = c {
                law_add_blocks(p, q, body);
                law_add_blocks(r, s, continuing);
            } else {
                law_add_blocks(p, q, p);
                law_add_blocks(r, s, r);
            }
        },
        _ => {},
    }
}

/// The same of the first `n` statements.
proof fn lemma_add_stmts(a: Seq<StmtNeed>, b: Seq<StmtNeed>, c: Seq<StmtNeed>, n: nat)
    requires
        n <= a.len() == b.len(),
        stmts_alike(a, b, n),
    ensures
        add_stmts(a, b, n) is Some,
        add_stmts(a, b, n)->0.len() == n,
        stmts_within(a, add_stmts(a, b, n)->0, n),
        stmts_within(b, add_stmts(a, b, n)->0, n),
        n <= c.len() && stmts_within(a, c, n) && stmts_within(b, c, n) ==> stmts_within(
            add_stmts(a, b, n)->0,
            c,
            n,
        ),
        forall|i: int|
            0 <= i < n ==> (#[trigger] add_stmts(a, b, n)->0[i]).required() == (a[i].required()
                || b[i].required()),
    decreases a, n,
{
    if n > 0 {
        let m = (n - 1) as nat;
        lemma_add_stmts(a, b, c, m);
        let before = add_stmts(a, b, m)->0;
        let all = add_stmts(a, b, n)->0;
        let other = if n <= c.len() {
            c[n - 1]
        } else {
            a[n - 1]
        };
        law_add_needs(a[n - 1], b[n - 1], other);
        lemma_within_longer(a, before, all, m);
        lemma_within_longer(b, before, all, m);
        if n <= c.len() && stmts_within(a, c, n) && stmts_within(b, c, n) {
            lemma_within_shorter(before, all, c, m);
        }
        assert forall|i: int| 0 <= i < n implies (#[trigger] all[i]).required() == (a[i].required()
            || b[i].required()) by {
            if i < m {
                assert(all[i] == before[i]);
            }
        }
    }
}

/// Only the first `n` statements of the larger side matter.
proof fn lemma_within_longer(
    a: Seq<StmtNeed>,
    b: Seq<StmtNeed>,
    longer: Seq<StmtNeed>,
    n: nat,
)
    requires
        stmts_within(a, b, n),
        forall|i: int| 0 <= i < n ==> b[i] == longer[i],
    ensures
        stmts_within(a, longer, n),
    decreases n,
{
    if n > 0 {
        lemma_within_longer(a, b, longer, (n - 1) as nat);
    }
}

/// Only the first `n` statements of the smaller side matter.
proof fn lemma_within_shorter(
    a: Seq<StmtNeed>,
    longer: Seq<StmtNeed>,
    b: Seq<StmtNeed>,
    n: nat,
)
    requires
        stmts_within(a, b, n),
        n <= longer.len(),
        forall|i: int| 0 <= i < n ==> a[i] == longer[i],
    ensures
        stmts_within(longer, b, n),
    decreases n,
{
    if n > 0 {
        lemma_within_shorter(a, longer, b, (n - 1) as nat);
    }
}

/// What two passes require of one block can be added. The sum requires all that
/// one of them requires, inside the block and in front of it, and is within all
/// that requires as much; it is required where one of them is.
pub proof fn law_add_blocks(a: BlockNeed, b: BlockNeed, c: BlockNeed)
    requires
        blocks_alike(a, b),
    ensures
        a.add(b) is Some,
        block_within(a, a.add(b)->0),
        block_within(b, a.add(b)->0),
        block_within(a, c) && block_within(b, c) ==> block_within(a.add(b)->0, c),
        a.add(b)->0.is_required() == (a.is_required() || b.is_required()),
    decreases a, 0nat,
{
    let n = a.stmts.len();
    lemma_add_stmts(a.stmts, b.stmts, c.stmts, n);
    law_merge_contains(a.context, b.context);
    if block_within(a, c) && block_within(b, c) {
        law_merge_least(a.context, b.context, c.context);
    }
    let sum = a.add(b)->0;
    if a.is_required() {
        let i = choose|i: int| 0 <= i < n && (#[trigger] a.stmts[i]).required();
        assert(sum.stmts[i].required());
    }
    if b.is_required() {
        let i = choose|i: int| 0 <= i < n && (#[trigger] b.stmts[i]).required();
        assert(sum.stmts[i].required());
    }
    if sum.is_required() {
        let i = choose|i: int| 0 <= i < n && (#[trigger] sum.stmts[i]).required();
        assert(a.stmts[i].required() || b.stmts[i].required());
    }
}

/// The same of the first `n` cases.
proof fn lemma_add_cases(a: Seq<BlockNeed>, b: Seq<BlockNeed>, c: Seq<BlockNeed>, n: nat)
    requires
        n <= a.len() == b.len(),
        cases_alike(a, b, n),
    ensures
        add_blocks(a, b, n) is Some,
        add_blocks(a, b, n)->0.len() == n,
        cases_within(a, add_blocks(a, b, n)->0, n),
        cases_within(b, add_blocks(a, b, n)->0, n),
        n <= c.len() && cases_within(a, c, n) && cases_within(b, c, n) ==> cases_within(
            add_blocks(a, b, n)->0,
            c,
            n,
        ),
    decreases a, n,
{
    if n > 0 {
        let m = (n - 1) as nat;
        lemma_add_cases(a, b, c, m);
        let before = add_blocks(a, b, m)->0;
        let all = add_blocks(a, b, n)->0;
        let other = if n <= c.len() {
            c[n - 1]
        } else {
            a[n - 1]
        };
        law_add_blocks(a[n - 1], b[n - 1], other);
        lemma_cases_longer(a, before, all, m);
        lemma_cases_longer(b, before, all, m);
        if n <= c.len() && cases_within(a, c, n) && cases_within(b, c, n) {
            lemma_cases_shorter(before, all, c, m);
        }
    }
}

/// Only the first `n` cases of the larger side matter.
proof fn lemma_cases_longer(
    a: Seq<BlockNeed>,
    b: Seq<BlockNeed>,
    longer: Seq<BlockNeed>,
    n: nat,
)
    requires
        cases_within(a, b, n),
        forall|i: int| 0 <= i < n ==> b[i] == longer[i],
    ensures
        cases_within(a, longer, n),
    decreases n,
{
    if n > 0 {
        lemma_cases_longer(a, b, longer, (n - 1) as nat);
    }
}

/// Only the first `n` cases of the smaller side matter.
proof fn lemma_cases_shorter(
    a: Seq<BlockNeed>,
    longer: Seq<BlockNeed>,
    b: Seq<BlockNeed>,
    n: nat,
)
    requires
        cases_within(a, b, n),
        n <= longer.len(),
        forall|i: int| 0 <= i < n ==> a[i] == longer[i],
    ensures
        cases_within(longer, b, n),
    decreases n,
{
    if n > 0 {
        lemma_cases_shorter(a, longer, b, (n - 1) as nat);
    }
}

/// A statement that is kept for what one pass requires of it is kept for all
/// that requires as much.
pub proof fn law_within_kept(stmt: Statement, a: StmtNeed, b: StmtNeed)
    requires
        within(a, b),
        kept(stmt, a),
    ensures
        kept(stmt, b),
    decreases stmt, 0nat,
{
    match (stmt, a, b) {
        (Statement::Emit(range), StmtNeed::Emit(p), StmtNeed::Emit(q)) => {
            let n = flagged(range, p);
            let i = choose|i: int| 0 <= i < n && #[trigger] p[i];
            assert(q[i]);
            assert(0 <= i < flagged(range, q) && q[i]);
        },
        (Statement::Block(block), StmtNeed::BlockStmt(p), StmtNeed::BlockStmt(q)) => {
            let n = shorter(block.body@.len(), p.stmts.len());
            lemma_within_prefix(p.stmts, q.stmts, p.stmts.len(), n);
            lemma_within_any_kept(block.body@, p.stmts, q.stmts, n);
        },
        _ => {},
    }
}

/// Fewer statements.
proof fn lemma_within_prefix(a: Seq<StmtNeed>, b: Seq<StmtNeed>, n: nat, m: nat)
    requires
        stmts_within(a, b, n),
        m <= n <= a.len(),
    ensures
        stmts_within(a, b, m),
    decreases n,
{
    if m < n {
        lemma_within_prefix(a, b, (n - 1) as nat, m);
    }
}

/// The same of some of the statements of a block.
proof fn lemma_within_any_kept(
    stmts: Seq<Statement>,
    a: Seq<StmtNeed>,
    b: Seq<StmtNeed>,
    n: nat,
)
    requires
        n <= stmts.len(),
        n <= a.len(),
        stmts_within(a, b, n),
        any_kept(stmts, a, n),
    ensures
        any_kept(stmts, b, n),
    decreases stmts, n,
{
    if n > 0 {
        if kept(stmts[n - 1], a[n - 1]) {
            law_within_kept(stmts[n - 1], a[n - 1], b[n - 1]);
        } else {
            lemma_within_any_kept(stmts, a, b, (n - 1) as nat);
        }
    }
}

/// A statement makes its block required by its flag; a barrier never does and
/// a kill always. A block by itself does where one of its statements does, an
/// emit statement where one of its expressions is required.
pub proof fn law_required(need: StmtNeed)
    ensures
        match need {
            StmtNeed::Emit(flags) => need.required() <==> exists|i: int|
                0 <= i < flags.len() && #[trigger] flags[i],
            StmtNeed::BlockStmt(block) => need.required() <==> exists|i: int|
                0 <= i < block.stmts.len() && (#[trigger] block.stmts[i]).required(),
            StmtNeed::If { condition, .. } => need.required() == condition,
            StmtNeed::Switch { selector, .. } => need.required() == selector,
            StmtNeed::Loop { required, .. } => need.required() == required,
            StmtNeed::Break(r) => need.required() == r,
            StmtNeed::Continue(r) => need.required() == r,
            StmtNeed::Return(r) => need.required() == r,
            StmtNeed::Kill => need.required(),
            StmtNeed::Barrier => !need.required(),
            StmtNeed::Store(r) => need.required() == r,
            StmtNeed::ImageStore(r) => need.required() == r,
            StmtNeed::Atomic(r) => need.required() == r,
            StmtNeed::Call { call_required, .. } => need.required() == call_required,
        },
{
    if let StmtNeed::Emit(flags) = need {
        if flags.contains(true) {
            let i = choose|i: int| 0 <= i < flags.len() && flags[i] == true;
            assert(flags[i]);
        }
        if exists|i: int| 0 <= i < flags.len() && #[trigger] flags[i] {
            let i = choose|i: int| 0 <= i < flags.len() && #[trigger] flags[i];
            assert(flags[i] == true);
        }
    }
}

} // verus!
