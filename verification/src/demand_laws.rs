//! Laws of expressions: what a required expression requires of its operands,
//! and of the arguments, variables, constants and types that it names.
use crate::context::opt_contains;
use crate::expr::{
    all_of, and_all, and_level, demands, need_all, need_expr, picked, shown_by, touched, with_more,
};
use crate::grow_laws::{grows, lemma_all_grows, lemma_expr_grows, lemma_grows};
use crate::ir::{
    Expression, Function, ImageQuery, Module, SampleLevel, SwizzleComponent, VectorSize,
};
use crate::live::Live;
use crate::part::{covers, Req};
use crate::part_laws::{
    law_add_least, law_contains_reflexive, law_contains_transitive, law_context_reflexive,
    law_context_transitive,
};
use vstd::prelude::*;

verus! {

/// Whether `req` of the expression `h` is among the demands.
pub open spec fn asked(demands: Seq<(usize, Req)>, h: usize, req: Req) -> bool {
    exists|i: int| 0 <= i < demands.len() && #[trigger] demands[i] == (h, req)
}

/// Whether each of the demands is for `req`.
pub open spec fn all_for(demands: Seq<(usize, Req)>, req: Req) -> bool {
    forall|i: int| 0 <= i < demands.len() ==> (#[trigger] demands[i]).1 == req
}

/// Whether an expression gives a result of which no part can be had from a
/// part of an operand.
pub open spec fn is_opaque(expr: Expression) -> bool {
    match expr {
        Expression::Access { .. } => true,
        Expression::Splat { .. } => true,
        Expression::ImageSample { .. } => true,
        Expression::ImageLoad { .. } => true,
        Expression::ImageQuery { .. } => true,
        Expression::Derivative { .. } => true,
        Expression::Relational { .. } => true,
        Expression::Math { .. } => true,
        _ => false,
    }
}

/// Whether an expression that takes its operands whole takes `h`.
pub open spec fn takes(expr: Expression, h: usize) -> bool {
    match expr {
        Expression::Access { base, index } => h == base || h == index,
        Expression::Splat { value, .. } => h == value,
        Expression::ImageSample {
            image,
            sampler,
            coordinate,
            array_index,
            level,
            depth_ref,
            ..
        } => {
            ||| h == image
            ||| h == sampler
            ||| h == coordinate
            ||| array_index == Some(h)
            ||| depth_ref == Some(h)
            ||| level == SampleLevel::Exact(h)
            ||| level == SampleLevel::Bias(h)
            ||| (level is Gradient && (level->x == h || level->y == h))
        },
        Expression::ImageLoad { image, coordinate, array_index, sample, level } => {
            ||| h == image
            ||| h == coordinate
            ||| array_index == Some(h)
            ||| sample == Some(h)
            ||| level == Some(h)
        },
        Expression::ImageQuery { image, query } => h == image || query == (ImageQuery::Size {
            level: Some(h),
        }),
        Expression::Derivative { expr, .. } => h == expr,
        Expression::Relational { argument, .. } => h == argument,
        Expression::Math { arg, arg1, arg2, arg3, .. } => {
            ||| h == arg
            ||| arg1 == Some(h)
            ||| arg2 == Some(h)
            ||| arg3 == Some(h)
        },
        _ => false,
    }
}

/// One demand more.
proof fn lemma_asked_push(demands: Seq<(usize, Req)>, last: (usize, Req), h: usize, req: Req)
    ensures
        asked(demands.push(last), h, req) <==> asked(demands, h, req) || last == (h, req),
        all_for(demands.push(last), req) <==> all_for(demands, req) && last.1 == req,
{
    let longer = demands.push(last);
    if asked(demands, h, req) {
        let i = choose|i: int| 0 <= i < demands.len() && #[trigger] demands[i] == (h, req);
        assert(longer[i] == (h, req));
    }
    if last == (h, req) {
        assert(longer[demands.len() as int] == (h, req));
    }
    if all_for(longer, req) {
        assert(longer[demands.len() as int].1 == req);
        assert forall|i: int| 0 <= i < demands.len() implies (#[trigger] demands[i]).1 == req by {
            assert(longer[i] == demands[i]);
        }
    }
}

/// Demands for all of each of some expressions.
proof fn lemma_asked_all(handles: Seq<usize>, h: usize)
    ensures
        asked(all_of(handles), h, Req::All) <==> handles.contains(h),
        all_for(all_of(handles), Req::All),
{
    if handles.contains(h) {
        let i = choose|i: int| 0 <= i < handles.len() && handles[i] == h;
        assert(all_of(handles)[i] == (h, Req::All));
    }
    if asked(all_of(handles), h, Req::All) {
        let i = choose|i: int|
            0 <= i < handles.len() && #[trigger] all_of(handles)[i] == (h, Req::All);
        assert(handles[i] == h);
    }
}

/// A demand for all of an optional operand.
proof fn lemma_asked_opt(demands: Seq<(usize, Req)>, operand: Option<usize>, h: usize)
    requires
        all_for(demands, Req::All),
    ensures
        asked(and_all(demands, operand), h, Req::All) <==> asked(demands, h, Req::All) || operand
            == Some(h),
        all_for(and_all(demands, operand), Req::All),
{
    if let Some(g) = operand {
        lemma_asked_push(demands, (g, Req::All), h, Req::All);
    }
}

/// An expression that takes its operands whole requires all of each operand
/// that it has, and nothing else, whatever part of it is required.
pub proof fn law_opaque_demands(expr: Expression, part: Req, h: usize)
    requires
        is_opaque(expr),
    ensures
        demands(expr, part) is Some,
        asked(demands(expr, part)->0, h, Req::All) <==> takes(expr, h),
        all_for(demands(expr, part)->0, Req::All),
{
    match expr {
        Expression::Access { base, index } => {
            lemma_asked_all(seq![base, index], h);
            assert(seq![base, index][0] == base && seq![base, index][1] == index);
        },
        Expression::Splat { value, .. } => {
            lemma_asked_all(seq![value], h);
            assert(seq![value][0] == value);
        },
        Expression::Derivative { expr, .. } => {
            lemma_asked_all(seq![expr], h);
            assert(seq![expr][0] == expr);
        },
        Expression::Relational { argument, .. } => {
            lemma_asked_all(seq![argument], h);
            assert(seq![argument][0] == argument);
        },
        Expression::Math { arg, arg1, arg2, arg3, .. } => {
            let first = all_of(seq![arg]);
            lemma_asked_all(seq![arg], h);
            assert(seq![arg][0] == arg);
            lemma_asked_opt(first, arg1, h);
            lemma_asked_opt(and_all(first, arg1), arg2, h);
            lemma_asked_opt(and_all(and_all(first, arg1), arg2), arg3, h);
        },
        Expression::ImageQuery { image, query } => {
            let level = match query {
                ImageQuery::Size { level } => level,
                _ => None,
            };
            lemma_asked_all(seq![image], h);
            assert(seq![image][0] == image);
            lemma_asked_opt(all_of(seq![image]), level, h);
        },
        Expression::ImageLoad { image, coordinate, array_index, sample, level } => {
            let handles = seq![image, coordinate];
            let first = all_of(handles);
            lemma_asked_all(handles, h);
            assert(handles[0] == image && handles[1] == coordinate);
            lemma_asked_opt(first, array_index, h);
            lemma_asked_opt(and_all(first, array_index), sample, h);
            lemma_asked_opt(and_all(and_all(first, array_index), sample), level, h);
        },
        Expression::ImageSample {
            image,
            sampler,
            coordinate,
            array_index,
            level,
            depth_ref,
            ..
        } => {
            let handles = seq![image, sampler, coordinate];
            let first = and_all(all_of(handles), array_index);
            lemma_asked_all(handles, h);
            assert(handles[0] == image && handles[1] == sampler && handles[2] == coordinate);
            lemma_asked_opt(all_of(handles), array_index, h);
            match level {
                SampleLevel::Exact(e) => lemma_asked_push(first, (e, Req::All), h, Req::All),
                SampleLevel::Bias(e) => lemma_asked_push(first, (e, Req::All), h, Req::All),
                SampleLevel::Gradient { x, y } => {
                    lemma_asked_push(first, (x, Req::All), h, Req::All);
                    lemma_asked_push(first.push((x, Req::All)), (y, Req::All), h, Req::All);
                },
                _ => {},
            }
            lemma_asked_opt(and_level(first, level), depth_ref, h);
        },
        _ => {},
    }
}

/// A load, an arithmetic operation and a conversion require of their operands
/// the part that is required of them; a selection requires it of what it
/// selects from, and its condition whole.
pub proof fn law_passing_demands(expr: Expression, part: Req)
    ensures
        expr matches Expression::Load { pointer } ==> demands(expr, part) == Some(
            seq![(pointer, part)],
        ),
        expr matches Expression::Unary { expr: h, .. } ==> demands(expr, part) == Some(
            seq![(h, part)],
        ),
        expr matches Expression::As { expr: h, .. } ==> demands(expr, part) == Some(
            seq![(h, part)],
        ),
        expr matches Expression::Binary { left, right, .. } ==> {
            &&& demands(expr, part) is Some
            &&& all_for(demands(expr, part)->0, part)
            &&& asked(demands(expr, part)->0, left, part)
            &&& asked(demands(expr, part)->0, right, part)
            &&& demands(expr, part)->0.len() == 2
        },
        expr matches Expression::Select { condition, accept, reject } ==> {
            &&& demands(expr, part) is Some
            &&& asked(demands(expr, part)->0, condition, Req::All)
            &&& asked(demands(expr, part)->0, accept, part)
            &&& asked(demands(expr, part)->0, reject, part)
            &&& demands(expr, part)->0.len() == 3
        },
{
    let d = demands(expr, part)->0;
    match expr {
        Expression::Binary { left, right, .. } => {
            assert(d[0] == (left, part) && d[1] == (right, part));
        },
        Expression::Select { condition, accept, reject } => {
            assert(d[0] == (condition, Req::All) && d[1] == (accept, part) && d[2] == (
                reject,
                part,
            ));
        },
        _ => {},
    }
}

/// Arguments, variables, constants and results of calls have no operands. A
/// constant has no parts, and the length of an array requires that the array
/// exists.
pub proof fn law_leaf_demands(expr: Expression, part: Req)
    ensures
        expr is FunctionArgument || expr is GlobalVariable || expr is LocalVariable
            || expr is CallResult ==> demands(expr, part) == Some(Seq::<(usize, Req)>::empty()),
        expr is Constant ==> (demands(expr, part) is Some <==> !(part is Part)) && (demands(
            expr,
            part,
        ) is Some ==> demands(expr, part)->0.len() == 0),
        expr is AtomicResult ==> demands(expr, part) is None,
        expr matches Expression::ArrayLength(h) ==> demands(expr, part) == Some(
            seq![(h, Req::Exist)],
        ),
{
}

/// An access by a known index requires that part of its base and no other: all
/// of it, or where only existence is asked for, what is asked for.
pub proof fn law_index_demands(base: usize, index: u32, part: Req)
    ensures
        ({
            let d = demands(Expression::AccessIndex { base, index }, part);
            &&& d is Some && d->0.len() == 1 && d->0[0].0 == base
            &&& d->0[0].1 matches Req::Part(parts) && {
                &&& parts.dom() == Set::<usize>::empty().insert(index as usize)
                &&& parts[index as usize].contains(part)
                &&& part == Req::All ==> parts[index as usize] == Req::All
                &&& part == Req::Exist ==> parts[index as usize] == Req::Exist
            }
        }),
{
    let expr = Expression::AccessIndex { base, index };
    let parts = demands(expr, part)->0[0].1->Part_0;
    law_contains_reflexive(part);
    assert(parts.dom() =~= Set::<usize>::empty().insert(index as usize));
}

/// Whether a demand is for a component of a composed value, as it is required.
pub open spec fn is_component(
    components: Seq<usize>,
    parts: Map<usize, Req>,
    demand: (usize, Req),
) -> bool {
    exists|i: usize|
        i < components.len() && #[trigger] parts.contains_key(i) && demand == (
            components[i as int],
            parts[i],
        )
}

/// A composed value requires of each component what is required of the part
/// that it is; nothing of components of which nothing is required, and nothing
/// where the value only has to exist.
pub proof fn law_compose_demands(ty: usize, components: Vec<usize>, part: Req)
    ensures
        ({
            let d = demands(Expression::Compose { ty, components }, part);
            match part {
                Req::All => d is Some && all_for(d->0, Req::All) && forall|h: usize|
                    #[trigger] asked(d->0, h, Req::All) <==> components@.contains(h),
                Req::Exist => d == Some(Seq::<(usize, Req)>::empty()),
                Req::Part(parts) => {
                    &&& d is Some <==> forall|i: usize| #[trigger]
                        parts.contains_key(i) ==> i < components@.len()
                    &&& d is Some ==> forall|i: usize| #[trigger]
                        parts.contains_key(i) ==> asked(d->0, components@[i as int], parts[i])
                    &&& d is Some ==> forall|j: int|
                        0 <= j < d->0.len() ==> is_component(
                            components@,
                            parts,
                            #[trigger] d->0[j],
                        )
                },
            }
        }),
{
    let expr = Expression::Compose { ty, components };
    let handles = components@;
    assert(handles.len() == components.len());
    match part {
        Req::All => {
            assert forall|h: usize| #[trigger]
                asked(demands(expr, part)->0, h, Req::All) <==> handles.contains(h) by {
                lemma_asked_all(handles, h);
            }
            lemma_asked_all(handles, 0);
        },
        Req::Part(parts) => {
            if demands(expr, part) is Some {
                lemma_picked(handles, parts, handles.len());
            }
        },
        Req::Exist => {},
    }
}

/// What is picked are the components of which something is required.
proof fn lemma_picked(components: Seq<usize>, parts: Map<usize, Req>, n: nat)
    requires
        n <= components.len() <= usize::MAX,
    ensures
        forall|i: usize|
            i < n && #[trigger] parts.contains_key(i) ==> asked(
                picked(components, parts, n),
                components[i as int],
                parts[i],
            ),
        forall|j: int|
            0 <= j < picked(components, parts, n).len() ==> is_component(
                components,
                parts,
                #[trigger] picked(components, parts, n)[j],
            ),
    decreases n,
{
    if n > 0 {
        let m = (n - 1) as nat;
        lemma_picked(components, parts, m);
        let before = picked(components, parts, m);
        let after = picked(components, parts, n);
        let last = (components[m as int], parts[m as usize]);
        assert forall|i: usize| i < n && #[trigger] parts.contains_key(i) implies asked(
            after,
            components[i as int],
            parts[i],
        ) by {
            if parts.contains_key(m as usize) {
                lemma_asked_push(before, last, components[i as int], parts[i]);
            }
        }
        assert forall|j: int| 0 <= j < after.len() implies is_component(
            components,
            parts,
            #[trigger] after[j],
        ) by {
            if j < before.len() {
                assert(after[j] == before[j]);
            } else {
                assert(parts.contains_key(m as usize) && after[j] == last);
            }
        }
    }
}

/// The index of a component of a vector.
pub open spec fn lane(component: SwizzleComponent) -> usize {
    match component {
        SwizzleComponent::X => 0,
        SwizzleComponent::Y => 1,
        SwizzleComponent::Z => 2,
        SwizzleComponent::W => 3,
    }
}

/// What a pattern shows of component `c`, by its first `n` positions.
proof fn lemma_shown(parts: Map<usize, Req>, pattern: Seq<SwizzleComponent>, c: usize, n: nat)
    requires
        n <= pattern.len() <= usize::MAX,
    ensures
        shown_by(parts, pattern, c, n) is Some <==> exists|j: usize|
            j < n && #[trigger] parts.contains_key(j) && lane(pattern[j as int]) == c,
        forall|j: usize|
            j < n && #[trigger] parts.contains_key(j) && lane(pattern[j as int]) == c && (forall|
                k: usize,
            |
                j < k < n && #[trigger] parts.contains_key(k) ==> lane(pattern[k as int]) != c)
                ==> shown_by(parts, pattern, c, n) == Some(parts[j]),
    decreases n,
{
    if n > 0 {
        let m = (n - 1) as usize;
        lemma_shown(parts, pattern, c, m as nat);
        if parts.contains_key(m) && lane(pattern[m as int]) == c {
            assert(exists|j: usize|
                j < n && #[trigger] parts.contains_key(j) && lane(pattern[j as int]) == c);
        } else if shown_by(parts, pattern, c, m as nat) is Some {
            let j = choose|j: usize|
                j < m && #[trigger] parts.contains_key(j) && lane(pattern[j as int]) == c;
            assert(j < n && parts.contains_key(j));
        }
    }
}

/// A swizzle requires of its vector the components that are shown at the
/// required places, each as the last of those places is required; of all of it
/// all, and of its existence that the vector exists.
pub proof fn law_swizzle_demands(
    size: VectorSize,
    vector: usize,
    pattern: [SwizzleComponent; 4],
    part: Req,
)
    ensures
        ({
            let d = demands(Expression::Swizzle { size, vector, pattern }, part);
            &&& part is All || part is Exist ==> d == Some(seq![(vector, part)])
            &&& part matches Req::Part(parts) ==> {
                &&& d is Some <==> forall|j: usize| #[trigger]
                    parts.contains_key(j) ==> j < 4 && !(parts[j] is Part)
                &&& d is Some ==> d->0.len() == 1 && d->0[0].0 == vector && d->0[0].1 is Part
                &&& d is Some ==> forall|c: usize| #[trigger]
                    d->0[0].1->Part_0.contains_key(c) <==> exists|j: usize|
                        j < 4 && #[trigger] parts.contains_key(j) && lane(pattern@[j as int]) == c
                &&& d is Some ==> forall|j: usize|
                    j < 4 && #[trigger] parts.contains_key(j) && (forall|k: usize|
                        j < k < 4 && #[trigger] parts.contains_key(k) ==> lane(pattern@[k as int])
                            != lane(pattern@[j as int]))
                        ==> d->0[0].1->Part_0[lane(pattern@[j as int])] == parts[j]
            }
        }),
{
    if let Req::Part(parts) = part {
        let d = demands(Expression::Swizzle { size, vector, pattern }, part);
        if d is Some {
            assert(pattern@.len() == 4);
            let shown = d->0[0].1->Part_0;
            assert forall|c: usize| #[trigger]
                shown.contains_key(c) <==> exists|j: usize|
                    j < 4 && #[trigger] parts.contains_key(j) && lane(pattern@[j as int]) == c by {
                lemma_shown(parts, pattern@, c, 4);
            }
            assert forall|j: usize|
                j < 4 && #[trigger] parts.contains_key(j) && (forall|k: usize|
                    j < k < 4 && #[trigger] parts.contains_key(k) ==> lane(pattern@[k as int])
                        != lane(pattern@[j as int])) implies shown[lane(pattern@[j as int])]
                == parts[j] by {
                lemma_shown(parts, pattern@, lane(pattern@[j as int]), 4);
            }
        }
    }
}

/// What an expression uses of the module and the function only adds to what is
/// required in front of it.
proof fn lemma_touched_context(
    shader: Module,
    function: Function,
    expr: Expression,
    part: Req,
    s: Live,
)
    requires
        touched(shader, function, expr, part, s) is Some,
    ensures
        ({
            let t = touched(shader, function, expr, part, s)->0;
            &&& t.context.contains(s.context)
            &&& t.context.retval == s.context.retval
            &&& t.context.args.len() == s.context.args.len()
        }),
{
    let t = touched(shader, function, expr, part, s)->0;
    law_context_reflexive(s.context);
    match expr {
        Expression::FunctionArgument(i) => {
            assert forall|k: int| 0 <= k < s.context.args.len() implies opt_contains(
                #[trigger] t.context.args[k],
                s.context.args[k],
            ) by {
                if k == i {
                    if let Some(now) = s.context.args[k] {
                        law_add_least(now, part, now);
                    }
                } else {
                    assert(opt_contains(s.context.args[k], s.context.args[k]));
                }
            }
        },
        Expression::GlobalVariable(gv) => {
            if !s.found.globals.contains_key(gv) {
                lemma_more_covers(s.context.globals, gv, part);
            }
        },
        Expression::LocalVariable(lv) => {
            lemma_more_covers(s.context.locals, lv, part);
        },
        _ => {},
    }
}

/// One requirement more takes nothing away.
proof fn lemma_more_covers(reqs: Map<usize, Req>, i: usize, req: Req)
    ensures
        covers(reqs.insert(i, with_more(reqs, i, req)), reqs),
        with_more(reqs, i, req).contains(req),
{
    let after = reqs.insert(i, with_more(reqs, i, req));
    assert forall|k: usize| #[trigger] reqs.contains_key(k) implies after.contains_key(k)
        && after[k].contains(reqs[k]) by {
        law_contains_reflexive(reqs[k]);
        law_add_least(reqs[k], req, req);
    }
    law_contains_reflexive(req);
    if reqs.contains_key(i) {
        law_add_least(reqs[i], req, req);
    }
}

/// Whether each of the demands is met by what is required of the expressions.
pub open spec fn all_met(demands: Seq<(usize, Req)>, exprs: Map<usize, Req>) -> bool {
    forall|i: int|
        0 <= i < demands.len() ==> exprs.contains_key((#[trigger] demands[i]).0)
            && exprs[demands[i].0].contains(demands[i].1)
}

/// Demands that are met stay so when more is required.
proof fn lemma_met_more(demands: Seq<(usize, Req)>, a: Map<usize, Req>, b: Map<usize, Req>)
    requires
        all_met(demands, a),
        covers(b, a),
    ensures
        all_met(demands, b),
{
    assert forall|i: int| 0 <= i < demands.len() implies b.contains_key((#[trigger] demands[i]).0)
        && b[demands[i].0].contains(demands[i].1) by {
        let h = demands[i].0;
        assert(a.contains_key(h));
        law_contains_transitive(b[h], a[h], demands[i].1);
    }
}

/// Once an expression is required, the part that was asked for is required of
/// it, and what it demands for that of each operand. Nothing that was required
/// in front of it is lost, and its result does not change what is returned.
pub proof fn law_expr_required(
    shader: Module,
    function: Function,
    depth: nat,
    h: usize,
    part: Req,
    s: Live,
)
    requires
        need_expr(shader, function, depth, h, part, s) is Some,
    ensures
        ({
            let s1 = need_expr(shader, function, depth, h, part, s)->0;
            &&& h < function.expressions.len()
            &&& s1.exprs.contains_key(h)
            &&& s1.exprs[h].contains(part)
            &&& demands(function.expressions[h as int], part) is Some
            &&& all_met(demands(function.expressions[h as int], part)->0, s1.exprs)
            &&& s1.context.contains(s.context)
            &&& s1.context.retval == s.context.retval
            &&& s1.context.args.len() == s.context.args.len()
        }),
    decreases depth, 0nat,
{
    let expr = function.expressions[h as int];
    let operands = demands(expr, part)->0;
    let near = (depth - 1) as nat;
    let s1 = touched(shader, function, expr, part, s)->0;
    lemma_touched_context(shader, function, expr, part, s);
    law_demands_required(shader, function, near, operands, operands.len(), s1);
    let s2 = need_all(shader, function, near, operands, operands.len(), s1)->0;
    law_context_transitive(s2.context, s1.context, s.context);
    lemma_more_covers(s2.exprs, h, part);
    let s3 = s2.with_expr(h, part);
    assert(operands.take(operands.len() as int) =~= operands);
    lemma_met_more(operands, s2.exprs, s3.exprs);
}

/// The same of the first `n` of a list of demands.
pub proof fn law_demands_required(
    shader: Module,
    function: Function,
    depth: nat,
    demands: Seq<(usize, Req)>,
    n: nat,
    s: Live,
)
    requires
        n <= demands.len(),
        need_all(shader, function, depth, demands, n, s) is Some,
    ensures
        ({
            let s1 = need_all(shader, function, depth, demands, n, s)->0;
            &&& all_met(demands.take(n as int), s1.exprs)
            &&& s1.context.contains(s.context)
            &&& s1.context.retval == s.context.retval
            &&& s1.context.args.len() == s.context.args.len()
        }),
    decreases depth, n,
{
    law_context_reflexive(s.context);
    if n > 0 {
        let m = (n - 1) as nat;
        law_demands_required(shader, function, depth, demands, m, s);
        let s1 = need_all(shader, function, depth, demands, m, s)->0;
        let (h, part) = demands[n - 1];
        law_expr_required(shader, function, depth, h, part, s1);
        let s2 = need_expr(shader, function, depth, h, part, s1)->0;
        lemma_expr_grows(shader, function, depth, h, part, s1);
        lemma_met_more(demands.take(m as int), s1.exprs, s2.exprs);
        law_context_transitive(s2.context, s1.context, s.context);
        assert forall|i: int| 0 <= i < n implies s2.exprs.contains_key(
            (#[trigger] demands.take(n as int)[i]).0,
        ) && s2.exprs[demands.take(n as int)[i].0].contains(demands.take(n as int)[i].1) by {
            if i < m {
                assert(demands.take(m as int)[i] == demands.take(n as int)[i]);
            }
        }
    }
}

/// An argument that is required is required in front of the expression, and
/// nothing else is.
pub proof fn law_argument_required(
    shader: Module,
    function: Function,
    depth: nat,
    h: usize,
    i: u32,
    part: Req,
    s: Live,
)
    requires
        need_expr(shader, function, depth, h, part, s) is Some,
        function.expressions[h as int] == Expression::FunctionArgument(i),
    ensures
        ({
            let s1 = need_expr(shader, function, depth, h, part, s)->0;
            &&& i < s.context.args.len()
            &&& s1.context.args[i as int] is Some
            &&& s1.context.args[i as int]->0.contains(part)
            &&& s.context.args[i as int] is None ==> s1.context.args[i as int]->0 == part
            &&& forall|k: int|
                0 <= k < s.context.args.len() && k != i ==> #[trigger] s1.context.args[k]
                    == s.context.args[k]
            &&& s1.context.globals == s.context.globals
            &&& s1.context.locals == s.context.locals
            &&& s1.found == s.found
            &&& s1.exprs.remove(h) == s.exprs.remove(h)
            &&& !s.exprs.contains_key(h) ==> s1.exprs[h] == part
        }),
{
    lemma_leaf(shader, function, depth, h, part, s);
    let end = need_expr(shader, function, depth, h, part, s)->0;
    assert(end.exprs.remove(h) =~= s.exprs.remove(h));
    law_contains_reflexive(part);
    if let Some(now) = s.context.args[i as int] {
        law_add_least(now, part, part);
    }
}

/// An expression without operands requires what it uses, and that it is there.
proof fn lemma_leaf(
    shader: Module,
    function: Function,
    depth: nat,
    h: usize,
    part: Req,
    s: Live,
)
    requires
        need_expr(shader, function, depth, h, part, s) is Some,
        demands(function.expressions[h as int], part)->0.len() == 0,
    ensures
        need_expr(shader, function, depth, h, part, s) == Some(
            touched(shader, function, function.expressions[h as int], part, s)->0.with_expr(
                h,
                part,
            ),
        ),
        touched(shader, function, function.expressions[h as int], part, s) is Some,
{
}

/// A local variable that is required is required in front of the expression,
/// and no other; with it its type and its first value.
pub proof fn law_local_required(
    shader: Module,
    function: Function,
    depth: nat,
    h: usize,
    lv: usize,
    part: Req,
    s: Live,
)
    requires
        need_expr(shader, function, depth, h, part, s) is Some,
        function.expressions[h as int] == Expression::LocalVariable(lv),
    ensures
        ({
            let s1 = need_expr(shader, function, depth, h, part, s)->0;
            &&& lv < function.local_variables.len()
            &&& s1.context.locals.contains_key(lv)
            &&& s1.context.locals[lv].contains(part)
            &&& !s.context.locals.contains_key(lv) ==> {
                &&& s1.context.locals[lv] == part
                &&& s1.found.types.contains(function.local_variables[lv as int].ty)
            }
            &&& function.local_variables[lv as int].init matches Some(c)
                ==> s1.found.constants.contains(c)
            &&& s1.context.locals.remove(lv) == s.context.locals.remove(lv)
            &&& s1.context.globals == s.context.globals
            &&& s1.context.args == s.context.args
            &&& s1.found.globals == s.found.globals
        }),
{
    lemma_leaf(shader, function, depth, h, part, s);
    lemma_more_covers(s.context.locals, lv, part);
    let s1 = need_expr(shader, function, depth, h, part, s)->0;
    assert(s1.context.locals.remove(lv) =~= s.context.locals.remove(lv));
}

/// A global variable that is required is required of the module, and no other;
/// where it was not, it is required in front of the expression too, with its
/// type.
pub proof fn law_global_required(
    shader: Module,
    function: Function,
    depth: nat,
    h: usize,
    gv: usize,
    part: Req,
    s: Live,
)
    requires
        need_expr(shader, function, depth, h, part, s) is Some,
        function.expressions[h as int] == Expression::GlobalVariable(gv),
    ensures
        ({
            let s1 = need_expr(shader, function, depth, h, part, s)->0;
            &&& s1.found.globals.contains_key(gv)
            &&& s1.found.globals[gv].contains(part)
            &&& !s.found.globals.contains_key(gv) ==> {
                &&& gv < shader.global_variables.len()
                &&& s1.found.globals[gv] == part
                &&& s1.found.types.contains(shader.global_variables[gv as int].ty)
                &&& s1.context.globals.contains_key(gv)
                &&& s1.context.globals[gv].contains(part)
            }
            &&& s.found.globals.contains_key(gv) ==> {
                &&& s1.context == s.context
                &&& s1.found.types == s.found.types
            }
            &&& s1.found.globals.remove(gv) == s.found.globals.remove(gv)
            &&& s1.context.globals.remove(gv) == s.context.globals.remove(gv)
            &&& s1.context.locals == s.context.locals
            &&& s1.context.args == s.context.args
            &&& s1.found.constants == s.found.constants
        }),
{
    lemma_leaf(shader, function, depth, h, part, s);
    let s1 = need_expr(shader, function, depth, h, part, s)->0;
    lemma_more_covers(s.context.globals, gv, part);
    law_contains_reflexive(part);
    if s.found.globals.contains_key(gv) {
        law_add_least(s.found.globals[gv], part, part);
    }
    assert(s1.found.globals.remove(gv) =~= s.found.globals.remove(gv));
    assert(s1.context.globals.remove(gv) =~= s.context.globals.remove(gv));
}

/// A constant is required of the module with the expression that names it,
/// and the offset of an image sample with the sample.
pub proof fn law_constant_required(
    shader: Module,
    function: Function,
    depth: nat,
    h: usize,
    part: Req,
    s: Live,
)
    requires
        need_expr(shader, function, depth, h, part, s) is Some,
    ensures
        ({
            let s1 = need_expr(shader, function, depth, h, part, s)->0;
            match function.expressions[h as int] {
                Expression::Constant(c) => {
                    &&& s1.found.constants == s.found.constants.insert(c)
                    &&& s1.context == s.context
                },
                Expression::ImageSample { offset: Some(c), .. } => s1.found.constants.contains(c),
                Expression::CallResult(_) => s1.found == s.found && s1.context == s.context,
                _ => true,
            }
        }),
{
    let expr = function.expressions[h as int];
    let operands = demands(expr, part)->0;
    let s1 = touched(shader, function, expr, part, s)->0;
    lemma_all_grows(shader, function, (depth - 1) as nat, operands, operands.len(), s1);
    if operands.len() == 0 {
        lemma_leaf(shader, function, depth, h, part, s);
    }
}

/// Whether each expression of a chain demands the next one, each with the
/// requirement on it.
pub open spec fn is_chain(function: Function, chain: Seq<(usize, Req)>) -> bool {
    forall|i: int|
        0 <= i < chain.len() - 1 ==> {
            let (h, part) = #[trigger] chain[i];
            &&& h < function.expressions.len()
            &&& demands(function.expressions[h as int], part) is Some
            &&& asked(
                demands(function.expressions[h as int], part)->0,
                chain[i + 1].0,
                chain[i + 1].1,
            )
        }
}

/// What is required of an argument or variable, in front of an expression and
/// of the module, where `part` of the expression `h` that names it is required.
pub open spec fn leaf_required(function: Function, h: usize, part: Req, s: Live) -> bool {
    match function.expressions[h as int] {
        Expression::FunctionArgument(i) => {
            &&& i < s.context.args.len()
            &&& s.context.args[i as int] is Some
            &&& s.context.args[i as int]->0.contains(part)
        },
        Expression::LocalVariable(lv) => {
            &&& s.context.locals.contains_key(lv)
            &&& s.context.locals[lv].contains(part)
        },
        Expression::GlobalVariable(gv) => {
            &&& s.found.globals.contains_key(gv)
            &&& s.found.globals[gv].contains(part)
        },
        Expression::Constant(c) => s.found.constants.contains(c),
        _ => true,
    }
}

/// What is required of a leaf stays required when more is.
proof fn lemma_leaf_more(function: Function, h: usize, part: Req, a: Live, b: Live)
    requires
        leaf_required(function, h, part, a),
        grows(a, b),
        b.context.contains(a.context),
        b.context.args.len() == a.context.args.len(),
    ensures
        leaf_required(function, h, part, b),
{
    match function.expressions[h as int] {
        Expression::FunctionArgument(i) => {
            let k = i as int;
            assert(opt_contains(b.context.args[k], a.context.args[k]));
            law_contains_transitive(b.context.args[k]->0, a.context.args[k]->0, part);
        },
        Expression::LocalVariable(lv) => {
            assert(a.context.locals.contains_key(lv));
            law_contains_transitive(b.context.locals[lv], a.context.locals[lv], part);
        },
        Expression::GlobalVariable(gv) => {
            assert(a.found.globals.contains_key(gv));
            law_contains_transitive(b.found.globals[gv], a.found.globals[gv], part);
        },
        _ => {},
    }
}

/// All that a required expression demands, directly or by way of its operands,
/// is required: the expressions on the way, and at the end the argument, the
/// variable or the constant, in front of the expression. It does not matter
/// what has been required before.
pub proof fn law_chain_required(
    shader: Module,
    function: Function,
    depth: nat,
    chain: Seq<(usize, Req)>,
    s: Live,
)
    requires
        chain.len() > 0,
        is_chain(function, chain),
        need_expr(shader, function, depth, chain[0].0, chain[0].1, s) is Some,
    ensures
        ({
            let s1 = need_expr(shader, function, depth, chain[0].0, chain[0].1, s)->0;
            &&& s1.exprs.contains_key(chain.last().0)
            &&& s1.exprs[chain.last().0].contains(chain.last().1)
            &&& leaf_required(function, chain.last().0, chain.last().1, s1)
        }),
    decreases chain.len(), 0nat,
{
    let (h, part) = chain[0];
    let s1 = need_expr(shader, function, depth, h, part, s)->0;
    law_expr_required(shader, function, depth, h, part, s);
    if chain.len() == 1 {
        match function.expressions[h as int] {
            Expression::FunctionArgument(i) => {
                law_argument_required(shader, function, depth, h, i, part, s);
            },
            Expression::LocalVariable(lv) => {
                law_local_required(shader, function, depth, h, lv, part, s);
            },
            Expression::GlobalVariable(gv) => {
                law_global_required(shader, function, depth, h, gv, part, s);
            },
            Expression::Constant(_) => {
                law_constant_required(shader, function, depth, h, part, s);
            },
            _ => {},
        }
    } else {
        let expr = function.expressions[h as int];
        let operands = demands(expr, part)->0;
        let near = (depth - 1) as nat;
        let t = touched(shader, function, expr, part, s)->0;
        let rest = chain.skip(1);
        assert(chain[0] == (h, part));
        let j = choose|j: int| 0 <= j < operands.len() && #[trigger] operands[j] == chain[1];
        assert(operands[j] == rest[0]);
        assert forall|i: int| 0 <= i < rest.len() - 1 implies {
            let (g, req) = #[trigger] rest[i];
            &&& g < function.expressions.len()
            &&& demands(function.expressions[g as int], req) is Some
            &&& asked(
                demands(function.expressions[g as int], req)->0,
                rest[i + 1].0,
                rest[i + 1].1,
            )
        } by {
            assert(chain[i + 1] == rest[i]);
            assert(chain[i + 2] == rest[i + 1]);
        }
        lemma_chain_among(shader, function, near, operands, operands.len(), j, rest, t);
        let end = need_all(shader, function, near, operands, operands.len(), t)->0;
        let g = rest.last().0;
        lemma_more_covers(end.exprs, h, part);
        lemma_grows(end, end, end);
        law_context_reflexive(end.context);
        lemma_leaf_more(function, g, rest.last().1, end, s1);
        assert(end.exprs.contains_key(g));
        law_contains_transitive(s1.exprs[g], end.exprs[g], rest.last().1);
        assert(rest.last() == chain.last());
    }
}

/// The same where the chain begins with one of a list of demands.
proof fn lemma_chain_among(
    shader: Module,
    function: Function,
    depth: nat,
    demands: Seq<(usize, Req)>,
    n: nat,
    j: int,
    chain: Seq<(usize, Req)>,
    s: Live,
)
    requires
        chain.len() > 0,
        is_chain(function, chain),
        0 <= j < n <= demands.len(),
        demands[j] == chain[0],
        need_all(shader, function, depth, demands, n, s) is Some,
    ensures
        ({
            let s1 = need_all(shader, function, depth, demands, n, s)->0;
            &&& s1.exprs.contains_key(chain.last().0)
            &&& s1.exprs[chain.last().0].contains(chain.last().1)
            &&& leaf_required(function, chain.last().0, chain.last().1, s1)
        }),
    decreases chain.len(), n,
{
    let m = (n - 1) as nat;
    let t = need_all(shader, function, depth, demands, m, s)->0;
    let (h, part) = demands[m as int];
    let s1 = need_expr(shader, function, depth, h, part, t)->0;
    if j == m {
        law_chain_required(shader, function, depth, chain, t);
    } else {
        lemma_chain_among(shader, function, depth, demands, m, j, chain, s);
        lemma_expr_grows(shader, function, depth, h, part, t);
        law_expr_required(shader, function, depth, h, part, t);
        let g = chain.last().0;
        lemma_leaf_more(function, g, chain.last().1, t, s1);
        assert(t.exprs.contains_key(g));
        law_contains_transitive(s1.exprs[g], t.exprs[g], chain.last().1);
    }
}

} // verus!
