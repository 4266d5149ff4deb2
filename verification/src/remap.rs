//! Handles of what is kept.
use crate::ir::{Expression, ImageQuery, SampleLevel};
use std::collections::HashMap;
use vstd::prelude::*;

verus! {

/// The number of handles below `n` that are kept.
pub open spec fn rank(kept: Set<usize>, n: nat) -> nat
    decreases n,
{
    if n == 0 {
        0
    } else if kept.contains((n - 1) as usize) {
        rank(kept, (n - 1) as nat) + 1
    } else {
        rank(kept, (n - 1) as nat)
    }
}

/// The new handles of what is kept of the first `n`: those before it that are
/// kept are counted.
pub open spec fn compacted(kept: Set<usize>, n: nat) -> Map<usize, usize> {
    Map::new(|h: usize| h < n && kept.contains(h), |h: usize| rank(kept, h as nat) as usize)
}

/// What is kept of the first `n` items, in their order.
pub open spec fn kept_of<A>(items: Seq<A>, kept: Set<usize>, n: nat) -> Seq<A>
    decreases n,
{
    if n == 0 {
        Seq::empty()
    } else if kept.contains((n - 1) as usize) {
        kept_of(items, kept, (n - 1) as nat).push(items[n - 1])
    } else {
        kept_of(items, kept, (n - 1) as nat)
    }
}

/// Ranks count up to the number of handles, and rise with what is kept.
pub proof fn lemma_rank(kept: Set<usize>, m: nat, n: nat)
    requires
        m <= n,
    ensures
        rank(kept, m) <= rank(kept, n),
        rank(kept, n) <= n,
        rank(kept, n) - rank(kept, m) <= n - m,
        m < n && kept.contains(m as usize) && m <= usize::MAX ==> rank(kept, m) < rank(kept, n),
    decreases n,
{
    if n > 0 && m < n {
        lemma_rank(kept, m, (n - 1) as nat);
    } else if n > 0 {
        lemma_rank(kept, (n - 1) as nat, (n - 1) as nat);
    }
}

/// As many items are kept as are counted, each at the place that is counted
/// for it.
pub proof fn lemma_kept_of<A>(items: Seq<A>, kept: Set<usize>, n: nat)
    requires
        n <= items.len() <= usize::MAX,
    ensures
        kept_of(items, kept, n).len() == rank(kept, n),
        forall|h: usize|
            h < n && #[trigger] kept.contains(h) ==> rank(kept, h as nat) < rank(kept, n)
                && kept_of(items, kept, n)[rank(kept, h as nat) as int] == items[h as int],
    decreases n,
{
    if n > 0 {
        lemma_kept_of(items, kept, (n - 1) as nat);
        assert forall|h: usize| h < n && #[trigger] kept.contains(h) implies rank(kept, h as nat)
            < rank(kept, n) && kept_of(items, kept, n)[rank(kept, h as nat) as int]
            == items[h as int] by {
            lemma_rank(kept, h as nat, n);
        }
    }
}

/// One handle more.
pub proof fn lemma_compacted_step(kept: Set<usize>, n: usize)
    requires
        n < usize::MAX,
    ensures
        kept.contains(n) ==> compacted(kept, (n + 1) as nat) == compacted(kept, n as nat).insert(
            n,
            rank(kept, n as nat) as usize,
        ),
        !kept.contains(n) ==> compacted(kept, (n + 1) as nat) == compacted(kept, n as nat),
{
    if kept.contains(n) {
        assert(compacted(kept, (n + 1) as nat) =~= compacted(kept, n as nat).insert(
            n,
            rank(kept, n as nat) as usize,
        ));
    } else {
        assert(compacted(kept, (n + 1) as nat) =~= compacted(kept, n as nat));
    }
}

/// New handles are below the number of kept handles, and no two handles have
/// the same one.
pub proof fn lemma_compacted(kept: Set<usize>, n: nat)
    requires
        n <= usize::MAX,
    ensures
        forall|h: usize| #[trigger]
            compacted(kept, n).contains_key(h) ==> compacted(kept, n)[h] == rank(kept, h as nat)
                && compacted(kept, n)[h] < rank(kept, n),
        forall|g: usize, h: usize| #[trigger]
            compacted(kept, n).contains_key(g) && #[trigger] compacted(kept, n).contains_key(h) && g
                != h ==> compacted(kept, n)[g] != compacted(kept, n)[h],
{
    assert forall|h: usize| #[trigger] compacted(kept, n).contains_key(h) implies compacted(
        kept,
        n,
    )[h] == rank(kept, h as nat) && compacted(kept, n)[h] < rank(kept, n) by {
        lemma_rank(kept, h as nat, n);
        lemma_rank(kept, 0, h as nat);
    }
    assert forall|g: usize, h: usize| #[trigger]
        compacted(kept, n).contains_key(g) && #[trigger] compacted(kept, n).contains_key(h) && g
            != h implies compacted(kept, n)[g] != compacted(kept, n)[h] by {
        if g < h {
            lemma_rank(kept, g as nat, h as nat);
        } else {
            lemma_rank(kept, h as nat, g as nat);
        }
    }
}

/// Whether `new` is the new handle of `old_handle`.
pub open spec fn maps(map: Map<usize, usize>, old_handle: usize, new: usize) -> bool {
    map.contains_key(old_handle) && map[old_handle] == new
}

/// Whether the handle, if it is one, has a new handle.
pub open spec fn has_opt(map: Map<usize, usize>, h: Option<usize>) -> bool {
    h is Some ==> map.contains_key(h->0)
}

/// Whether `new` are the new handles of `handles`.
pub open spec fn maps_each(map: Map<usize, usize>, handles: Seq<usize>, new: Seq<usize>) -> bool {
    &&& new.len() == handles.len()
    &&& forall|i: int| 0 <= i < handles.len() ==> maps(map, handles[i], #[trigger] new[i])
}

/// Whether each of the handles has a new handle.
pub open spec fn has_each(map: Map<usize, usize>, handles: Seq<usize>) -> bool {
    forall|i: int| 0 <= i < handles.len() ==> map.contains_key(#[trigger] handles[i])
}

/// The first of the handles that has a new handle, among the first `n`.
pub open spec fn first_good(map: Map<usize, usize>, handles: Seq<usize>, n: nat) -> Option<usize>
    decreases n,
{
    if n == 0 {
        None
    } else {
        match first_good(map, handles, (n - 1) as nat) {
            Some(good) => Some(good),
            None => if map.contains_key(handles[n - 1]) {
                Some(map[handles[n - 1]])
            } else {
                None
            },
        }
    }
}

/// Whether `new` are the new handles of `handles`, with the first good one in
/// the place of those that are not kept.
pub open spec fn maps_some(map: Map<usize, usize>, handles: Seq<usize>, new: Seq<usize>) -> bool {
    &&& first_good(map, handles, handles.len()) is Some
    &&& new.len() == handles.len()
    &&& forall|i: int|
        0 <= i < handles.len() ==> #[trigger] new[i] == if map.contains_key(handles[i]) {
            map[handles[i]]
        } else {
            first_good(map, handles, handles.len())->0
        }
}

/// The new handles of what is kept of a module.
pub struct Handles {
    pub types: Map<usize, usize>,
    pub constants: Map<usize, usize>,
    pub globals: Map<usize, usize>,
    pub functions: Map<usize, usize>,
}

/// The new handles of what is kept of a module, as maps.
#[derive(Debug)]
pub struct HandleMaps {
    pub types: HashMap<usize, usize>,
    pub constants: HashMap<usize, usize>,
    pub globals: HashMap<usize, usize>,
    pub functions: HashMap<usize, usize>,
}

impl View for HandleMaps {
    type V = Handles;

    open spec fn view(&self) -> Handles {
        Handles {
            types: self.types@,
            constants: self.constants@,
            globals: self.globals@,
            functions: self.functions@,
        }
    }
}

/// The operands of an expression.
pub open spec fn operands(expr: Expression) -> Seq<usize> {
    match expr {
        Expression::Access { base, index } => seq![base, index],
        Expression::AccessIndex { base, .. } => seq![base],
        Expression::Constant(_) => Seq::empty(),
        Expression::Splat { value, .. } => seq![value],
        Expression::Swizzle { vector, .. } => seq![vector],
        Expression::Compose { components, .. } => components@,
        Expression::FunctionArgument(_) => Seq::empty(),
        Expression::GlobalVariable(_) => Seq::empty(),
        Expression::LocalVariable(_) => Seq::empty(),
        Expression::Load { pointer } => seq![pointer],
        Expression::ImageSample {
            image,
            sampler,
            coordinate,
            array_index,
            level,
            depth_ref,
            ..
        } => seq![image, sampler, coordinate] + opt_seq(array_index) + (match level {
            SampleLevel::Auto => Seq::empty(),
            SampleLevel::Zero => Seq::empty(),
            SampleLevel::Exact(e) => seq![e],
            SampleLevel::Bias(e) => seq![e],
            SampleLevel::Gradient { x, y } => seq![x, y],
        }) + opt_seq(depth_ref),
        Expression::ImageLoad { image, coordinate, array_index, sample, level } => seq![
            image,
            coordinate,
        ] + opt_seq(array_index) + opt_seq(sample) + opt_seq(level),
        Expression::ImageQuery { image, query } => seq![image] + opt_seq(
            match query {
                ImageQuery::Size { level } => level,
                _ => None,
            },
        ),
        Expression::Unary { expr, .. } => seq![expr],
        Expression::Binary { left, right, .. } => seq![left, right],
        Expression::Select { condition, accept, reject } => seq![condition, accept, reject],
        Expression::Derivative { expr, .. } => seq![expr],
        Expression::Relational { argument, .. } => seq![argument],
        Expression::Math { arg, arg1, arg2, arg3, .. } => seq![arg] + opt_seq(arg1) + opt_seq(arg2)
            + opt_seq(arg3),
        Expression::As { expr, .. } => seq![expr],
        Expression::CallResult(_) => Seq::empty(),
        Expression::AtomicResult { .. } => Seq::empty(),
        Expression::ArrayLength(expr) => seq![expr],
    }
}

/// An optional handle as a list.
pub open spec fn opt_seq(h: Option<usize>) -> Seq<usize> {
    match h {
        Some(h) => seq![h],
        None => Seq::empty(),
    }
}

/// Whether what an expression uses of the module has new handles.
pub open spec fn has_handles(expr: Expression, handles: Handles) -> bool {
    match expr {
        Expression::Constant(c) => handles.constants.contains_key(c),
        Expression::Compose { ty, .. } => handles.types.contains_key(ty),
        Expression::GlobalVariable(gv) => handles.globals.contains_key(gv),
        Expression::ImageSample { offset, .. } => has_opt(handles.constants, offset),
        Expression::CallResult(f) => handles.functions.contains_key(f),
        _ => true,
    }
}

/// Whether the new handles that a kept expression needs are there: those of
/// its operands (of a composed value, that of one component at least), that
/// of its local variable, and those of what it uses of the module.
pub open spec fn remappable(
    expr: Expression,
    handles: Handles,
    locals: Map<usize, usize>,
    exprs: Map<usize, usize>,
) -> bool {
    has_handles(expr, handles) && match expr {
        Expression::Compose { components, .. } => exists|i: int|
            0 <= i < components@.len() && exprs.contains_key(#[trigger] components@[i]),
        Expression::LocalVariable(lv) => locals.contains_key(lv),
        _ => has_each(exprs, operands(expr)),
    }
}

/// Whether `new` is `expr` with the new handles of its operands, of its local
/// variable and of what it uses of the module. In a composed value, the first
/// component that is kept stands for those that are not.
pub open spec fn remapped(
    expr: Expression,
    handles: Handles,
    locals: Map<usize, usize>,
    exprs: Map<usize, usize>,
    new: Expression,
) -> bool {
    match expr {
        Expression::Compose { ty, components } => {
            &&& new matches Expression::Compose { ty: new_ty, components: new_components }
            &&& new_ty == handles.types[ty]
            &&& maps_some(exprs, components@, new_components@)
        },
        Expression::LocalVariable(lv) => new == Expression::LocalVariable(locals[lv]),
        _ => new == moved(expr, handles, exprs),
    }
}

/// A new level of detail.
pub open spec fn moved_level(level: SampleLevel, map: Map<usize, usize>) -> SampleLevel {
    match level {
        SampleLevel::Auto => level,
        SampleLevel::Zero => level,
        SampleLevel::Exact(e) => SampleLevel::Exact(map[e]),
        SampleLevel::Bias(e) => SampleLevel::Bias(map[e]),
        SampleLevel::Gradient { x, y } => SampleLevel::Gradient { x: map[x], y: map[y] },
    }
}

/// The new handle of an optional operand.
pub open spec fn moved_opt(h: Option<usize>, map: Map<usize, usize>) -> Option<usize> {
    match h {
        Some(h) => Some(map[h]),
        None => None,
    }
}

/// The expression with the new handles of its operands and of what it uses of
/// the module, where it is neither a composed value nor a local variable.
pub open spec fn moved(expr: Expression, handles: Handles, map: Map<usize, usize>) -> Expression {
    match expr {
        Expression::Constant(c) => Expression::Constant(handles.constants[c]),
        Expression::GlobalVariable(gv) => Expression::GlobalVariable(handles.globals[gv]),
        Expression::CallResult(f) => Expression::CallResult(handles.functions[f]),
        Expression::Access { base, index } => Expression::Access {
            base: map[base],
            index: map[index],
        },
        Expression::AccessIndex { base, index } => Expression::AccessIndex {
            base: map[base],
            index,
        },
        Expression::Splat { size, value } => Expression::Splat { size, value: map[value] },
        Expression::Swizzle { size, vector, pattern } => Expression::Swizzle {
            size,
            vector: map[vector],
            pattern,
        },
        Expression::Load { pointer } => Expression::Load { pointer: map[pointer] },
        Expression::ImageSample {
            image,
            sampler,
            gather,
            coordinate,
            array_index,
            offset,
            level,
            depth_ref,
        } => Expression::ImageSample {
            image: map[image],
            sampler: map[sampler],
            gather,
            coordinate: map[coordinate],
            array_index: moved_opt(array_index, map),
            offset: moved_opt(offset, handles.constants),
            level: moved_level(level, map),
            depth_ref: moved_opt(depth_ref, map),
        },
        Expression::ImageLoad { image, coordinate, array_index, sample, level } => {
            Expression::ImageLoad {
                image: map[image],
                coordinate: map[coordinate],
                array_index: moved_opt(array_index, map),
                sample: moved_opt(sample, map),
                level: moved_opt(level, map),
            }
        },
        Expression::ImageQuery { image, query } => Expression::ImageQuery {
            image: map[image],
            query: match query {
                ImageQuery::Size { level } => ImageQuery::Size { level: moved_opt(level, map) },
                _ => query,
            },
        },
        Expression::Unary { op, expr } => Expression::Unary { op, expr: map[expr] },
        Expression::Binary { op, left, right } => Expression::Binary {
            op,
            left: map[left],
            right: map[right],
        },
        Expression::Select { condition, accept, reject } => Expression::Select {
            condition: map[condition],
            accept: map[accept],
            reject: map[reject],
        },
        Expression::Derivative { axis, expr } => Expression::Derivative { axis, expr: map[expr] },
        Expression::Relational { fun, argument } => Expression::Relational {
            fun,
            argument: map[argument],
        },
        Expression::Math { fun, arg, arg1, arg2, arg3 } => Expression::Math {
            fun,
            arg: map[arg],
            arg1: moved_opt(arg1, map),
            arg2: moved_opt(arg2, map),
            arg3: moved_opt(arg3, map),
        },
        Expression::As { expr, kind, convert } => Expression::As { expr: map[expr], kind, convert },
        Expression::ArrayLength(expr) => Expression::ArrayLength(map[expr]),
        _ => expr,
    }
}

/// Both lists have new handles where the list of both has.
proof fn lemma_has_both(map: Map<usize, usize>, a: Seq<usize>, b: Seq<usize>)
    ensures
        has_each(map, a + b) == (has_each(map, a) && has_each(map, b)),
{
    if has_each(map, a + b) {
        assert forall|i: int| 0 <= i < a.len() implies map.contains_key(#[trigger] a[i]) by {
            assert((a + b)[i] == a[i]);
        }
        assert forall|i: int| 0 <= i < b.len() implies map.contains_key(#[trigger] b[i]) by {
            assert((a + b)[a.len() + i] == b[i]);
        }
    }
}

/// A list of one has new handles where the one has.
proof fn lemma_has_one(map: Map<usize, usize>, h: usize)
    ensures
        has_each(map, seq![h]) == map.contains_key(h),
{
    assert(seq![h][0] == h);
}

/// An optional handle as a list has new handles where it has one.
proof fn lemma_has_opt(map: Map<usize, usize>, h: Option<usize>)
    ensures
        has_each(map, opt_seq(h)) == has_opt(map, h),
{
    match h {
        Some(h) => lemma_has_one(map, h),
        None => {},
    }
}

/// A list of two.
proof fn lemma_has_two(map: Map<usize, usize>, a: usize, b: usize)
    ensures
        has_each(map, seq![a, b]) == (map.contains_key(a) && map.contains_key(b)),
{
    assert(seq![a, b][0] == a);
    assert(seq![a, b][1] == b);
}

/// A list of three.
proof fn lemma_has_three(map: Map<usize, usize>, a: usize, b: usize, c: usize)
    ensures
        has_each(map, seq![a, b, c]) == (map.contains_key(a) && map.contains_key(b)
            && map.contains_key(c)),
{
    assert(seq![a, b, c][0] == a);
    assert(seq![a, b, c][1] == b);
    assert(seq![a, b, c][2] == c);
}

/// Whether a level of detail has new handles.
pub open spec fn has_level(map: Map<usize, usize>, level: SampleLevel) -> bool {
    match level {
        SampleLevel::Auto => true,
        SampleLevel::Zero => true,
        SampleLevel::Exact(e) => map.contains_key(e),
        SampleLevel::Bias(e) => map.contains_key(e),
        SampleLevel::Gradient { x, y } => map.contains_key(x) && map.contains_key(y),
    }
}

/// Which operands need new handles, variant by variant.
pub proof fn lemma_operands(expr: Expression, map: Map<usize, usize>)
    ensures
        has_each(map, operands(expr)) == match expr {
            Expression::Access { base, index } => map.contains_key(base) && map.contains_key(index),
            Expression::AccessIndex { base, .. } => map.contains_key(base),
            Expression::Splat { value, .. } => map.contains_key(value),
            Expression::Swizzle { vector, .. } => map.contains_key(vector),
            Expression::Compose { components, .. } => has_each(map, components@),
            Expression::Load { pointer } => map.contains_key(pointer),
            Expression::ImageSample {
                image,
                sampler,
                coordinate,
                array_index,
                level,
                depth_ref,
                ..
            } => map.contains_key(image) && map.contains_key(sampler) && map.contains_key(
                coordinate,
            ) && has_opt(map, array_index) && has_level(map, level) && has_opt(map, depth_ref),
            Expression::ImageLoad { image, coordinate, array_index, sample, level } => {
                map.contains_key(image) && map.contains_key(coordinate) && has_opt(map, array_index)
                    && has_opt(map, sample) && has_opt(map, level)
            },
            Expression::ImageQuery { image, query } => map.contains_key(image) && (match query {
                ImageQuery::Size { level } => has_opt(map, level),
                _ => true,
            }),
            Expression::Unary { expr, .. } => map.contains_key(expr),
            Expression::Binary { left, right, .. } => map.contains_key(left) && map.contains_key(
                right,
            ),
            Expression::Select { condition, accept, reject } => map.contains_key(condition)
                && map.contains_key(accept) && map.contains_key(reject),
            Expression::Derivative { expr, .. } => map.contains_key(expr),
            Expression::Relational { argument, .. } => map.contains_key(argument),
            Expression::Math { arg, arg1, arg2, arg3, .. } => map.contains_key(arg) && has_opt(
                map,
                arg1,
            ) && has_opt(map, arg2) && has_opt(map, arg3),
            Expression::As { expr, .. } => map.contains_key(expr),
            Expression::ArrayLength(expr) => map.contains_key(expr),
            _ => true,
        },
{
    match expr {
        Expression::Access { base, index } => lemma_has_two(map, base, index),
        Expression::AccessIndex { base, .. } => lemma_has_one(map, base),
        Expression::Splat { value, .. } => lemma_has_one(map, value),
        Expression::Swizzle { vector, .. } => lemma_has_one(map, vector),
        Expression::Load { pointer } => lemma_has_one(map, pointer),
        Expression::ImageSample {
            image,
            sampler,
            coordinate,
            array_index,
            level,
            depth_ref,
            ..
        } => {
            let first = seq![image, sampler, coordinate];
            let second = first + opt_seq(array_index);
            let of_level: Seq<usize> = match level {
                SampleLevel::Auto => Seq::empty(),
                SampleLevel::Zero => Seq::empty(),
                SampleLevel::Exact(e) => seq![e],
                SampleLevel::Bias(e) => seq![e],
                SampleLevel::Gradient { x, y } => seq![x, y],
            };
            lemma_has_three(map, image, sampler, coordinate);
            lemma_has_opt(map, array_index);
            lemma_has_opt(map, depth_ref);
            match level {
                SampleLevel::Exact(e) => lemma_has_one(map, e),
                SampleLevel::Bias(e) => lemma_has_one(map, e),
                SampleLevel::Gradient { x, y } => lemma_has_two(map, x, y),
                _ => {},
            }
            assert(has_each(map, of_level) == has_level(map, level));
            lemma_has_both(map, first, opt_seq(array_index));
            lemma_has_both(map, second, of_level);
            lemma_has_both(map, second + of_level, opt_seq(depth_ref));
        },
        Expression::ImageLoad { image, coordinate, array_index, sample, level } => {
            let first = seq![image, coordinate];
            lemma_has_two(map, image, coordinate);
            lemma_has_opt(map, array_index);
            lemma_has_opt(map, sample);
            lemma_has_opt(map, level);
            lemma_has_both(map, first, opt_seq(array_index));
            lemma_has_both(map, first + opt_seq(array_index), opt_seq(sample));
            lemma_has_both(
                map,
                first + opt_seq(array_index) + opt_seq(sample),
                opt_seq(level),
            );
        },
        Expression::ImageQuery { image, query } => {
            let level = match query {
                ImageQuery::Size { level } => level,
                _ => None,
            };
            lemma_has_one(map, image);
            lemma_has_opt(map, level);
            lemma_has_both(map, seq![image], opt_seq(level));
        },
        Expression::Unary { expr, .. } => lemma_has_one(map, expr),
        Expression::Binary { left, right, .. } => lemma_has_two(map, left, right),
        Expression::Select { condition, accept, reject } => lemma_has_three(
            map,
            condition,
            accept,
            reject,
        ),
        Expression::Derivative { expr, .. } => lemma_has_one(map, expr),
        Expression::Relational { argument, .. } => lemma_has_one(map, argument),
        Expression::Math { arg, arg1, arg2, arg3, .. } => {
            let first = seq![arg];
            lemma_has_one(map, arg);
            lemma_has_opt(map, arg1);
            lemma_has_opt(map, arg2);
            lemma_has_opt(map, arg3);
            lemma_has_both(map, first, opt_seq(arg1));
            lemma_has_both(map, first + opt_seq(arg1), opt_seq(arg2));
            lemma_has_both(map, first + opt_seq(arg1) + opt_seq(arg2), opt_seq(arg3));
        },
        Expression::As { expr, .. } => lemma_has_one(map, expr),
        Expression::ArrayLength(expr) => lemma_has_one(map, expr),
        _ => {},
    }
}

/// A good handle is found where there is one.
proof fn lemma_first_good(map: Map<usize, usize>, handles: Seq<usize>, n: nat)
    requires
        n <= handles.len(),
    ensures
        first_good(map, handles, n) is Some <==> exists|i: int|
            0 <= i < n && map.contains_key(#[trigger] handles[i]),
    decreases n,
{
    if n > 0 {
        lemma_first_good(map, handles, (n - 1) as nat);
        if map.contains_key(handles[n - 1]) {
            assert(0 <= n - 1 < n && map.contains_key(handles[n - 1]));
        }
    }
}

/// The new handle of a handle.
pub fn new_handle(map: &HashMap<usize, usize>, h: usize) -> (r: Option<usize>)
    ensures
        match r {
            Some(new) => maps(map@, h, new),
            None => !map@.contains_key(h),
        },
{
    match map.get(&h) {
        Some(new) => Some(*new),
        None => None,
    }
}

/// The new handle of an optional handle.
pub fn new_opt(map: &HashMap<usize, usize>, h: &Option<usize>) -> (r: Option<Option<usize>>)
    ensures
        match r {
            Some(new) => has_opt(map@, *h) && new == moved_opt(*h, map@),
            None => !has_opt(map@, *h),
        },
{
    match h {
        Some(h) => match map.get(h) {
            Some(new) => Some(Some(*new)),
            None => None,
        },
        None => Some(None),
    }
}

/// The new handles of a level of detail.
fn new_level(map: &HashMap<usize, usize>, level: &SampleLevel) -> (r: Option<SampleLevel>)
    ensures
        match r {
            Some(new) => has_level(map@, *level) && new == moved_level(*level, map@),
            None => !has_level(map@, *level),
        },
{
    match level {
        SampleLevel::Auto => Some(SampleLevel::Auto),
        SampleLevel::Zero => Some(SampleLevel::Zero),
        SampleLevel::Exact(e) => Some(SampleLevel::Exact(new_handle(map, *e)?)),
        SampleLevel::Bias(e) => Some(SampleLevel::Bias(new_handle(map, *e)?)),
        SampleLevel::Gradient { x, y } => Some(
            SampleLevel::Gradient { x: new_handle(map, *x)?, y: new_handle(map, *y)? },
        ),
    }
}

/// The new handles of the components of a composed value, with the first good
/// one in the place of those that are not kept.
fn new_components(map: &HashMap<usize, usize>, components: &Vec<usize>) -> (r: Option<Vec<usize>>)
    ensures
        match r {
            Some(new) => maps_some(map@, components@, new@),
            None => first_good(map@, components@, components@.len()) is None,
        },
{
    let mut good: Option<usize> = None;
    let mut i: usize = 0;
    while i < components.len()
        invariant
            i <= components.len(),
            good == first_good(map@, components@, i as nat),
        decreases components.len() - i,
    {
        if good.is_none() {
            good = new_handle(map, components[i]);
        }
        i = i + 1;
    }
    let first = good?;
    let mut new: Vec<usize> = Vec::new();
    let mut i: usize = 0;
    while i < components.len()
        invariant
            i <= components.len(),
            new.len() == i,
            forall|j: int|
                0 <= j < i ==> #[trigger] new[j] == if map@.contains_key(components[j]) {
                    map@[components[j]]
                } else {
                    first
                },
        decreases components.len() - i,
    {
        match map.get(&components[i]) {
            Some(handle) => new.push(*handle),
            None => new.push(first),
        }
        i = i + 1;
    }
    Some(new)
}

/// The expression with the new handles of its operands, of its local variable
/// and of what it uses of the module. `None` where one is missing.
pub fn remap_expr(
    expr: &Expression,
    handles: &HandleMaps,
    local_map: &HashMap<usize, usize>,
    expr_map: &HashMap<usize, usize>,
) -> (r: Option<Expression>)
    ensures
        match r {
            Some(new) => remappable(*expr, handles@, local_map@, expr_map@) && remapped(
                *expr,
                handles@,
                local_map@,
                expr_map@,
                new,
            ),
            None => !remappable(*expr, handles@, local_map@, expr_map@),
        },
{
    proof {
        lemma_operands(*expr, expr_map@);
    }
    match expr {
        Expression::Access { base, index } => Some(
            Expression::Access {
                base: new_handle(expr_map, *base)?,
                index: new_handle(expr_map, *index)?,
            },
        ),
        Expression::AccessIndex { base, index } => Some(
            Expression::AccessIndex { base: new_handle(expr_map, *base)?, index: *index },
        ),
        Expression::Constant(c) => Some(
            Expression::Constant(new_handle(&handles.constants, *c)?),
        ),
        Expression::Splat { size, value } => Some(
            Expression::Splat { size: *size, value: new_handle(expr_map, *value)? },
        ),
        Expression::Swizzle { size, vector, pattern } => Some(
            Expression::Swizzle {
                size: *size,
                vector: new_handle(expr_map, *vector)?,
                pattern: *pattern,
            },
        ),
        Expression::Compose { ty, components } => {
            proof {
                lemma_first_good(expr_map@, components@, components@.len());
            }
            Some(
                Expression::Compose {
                    ty: new_handle(&handles.types, *ty)?,
                    components: new_components(expr_map, components)?,
                },
            )
        },
        Expression::FunctionArgument(index) => Some(Expression::FunctionArgument(*index)),
        Expression::GlobalVariable(gv) => Some(
            Expression::GlobalVariable(new_handle(&handles.globals, *gv)?),
        ),
        Expression::LocalVariable(lv) => Some(
            Expression::LocalVariable(new_handle(local_map, *lv)?),
        ),
        Expression::Load { pointer } => Some(
            Expression::Load { pointer: new_handle(expr_map, *pointer)? },
        ),
        Expression::ImageSample {
            image,
            sampler,
            gather,
            coordinate,
            array_index,
            offset,
            level,
            depth_ref,
        } => Some(
            Expression::ImageSample {
                image: new_handle(expr_map, *image)?,
                sampler: new_handle(expr_map, *sampler)?,
                gather: *gather,
                coordinate: new_handle(expr_map, *coordinate)?,
                array_index: new_opt(expr_map, array_index)?,
                offset: new_opt(&handles.constants, offset)?,
                level: new_level(expr_map, level)?,
                depth_ref: new_opt(expr_map, depth_ref)?,
            },
        ),
        Expression::ImageLoad { image, coordinate, array_index, sample, level } => Some(
            Expression::ImageLoad {
                image: new_handle(expr_map, *image)?,
                coordinate: new_handle(expr_map, *coordinate)?,
                array_index: new_opt(expr_map, array_index)?,
                sample: new_opt(expr_map, sample)?,
                level: new_opt(expr_map, level)?,
            },
        ),
        Expression::ImageQuery { image, query } => Some(
            Expression::ImageQuery {
                image: new_handle(expr_map, *image)?,
                query: match query {
                    ImageQuery::Size { level } => ImageQuery::Size {
                        level: new_opt(expr_map, level)?,
                    },
                    _ => *query,
                },
            },
        ),
        Expression::Unary { op, expr } => Some(
            Expression::Unary { op: *op, expr: new_handle(expr_map, *expr)? },
        ),
        Expression::Binary { op, left, right } => Some(
            Expression::Binary {
                op: *op,
                left: new_handle(expr_map, *left)?,
                right: new_handle(expr_map, *right)?,
            },
        ),
        Expression::Select { condition, accept, reject } => Some(
            Expression::Select {
                condition: new_handle(expr_map, *condition)?,
                accept: new_handle(expr_map, *accept)?,
                reject: new_handle(expr_map, *reject)?,
            },
        ),
        Expression::Derivative { axis, expr } => Some(
            Expression::Derivative { axis: *axis, expr: new_handle(expr_map, *expr)? },
        ),
        Expression::Relational { fun, argument } => Some(
            Expression::Relational { fun: *fun, argument: new_handle(expr_map, *argument)? },
        ),
        Expression::Math { fun, arg, arg1, arg2, arg3 } => Some(
            Expression::Math {
                fun: *fun,
                arg: new_handle(expr_map, *arg)?,
                arg1: new_opt(expr_map, arg1)?,
                arg2: new_opt(expr_map, arg2)?,
                arg3: new_opt(expr_map, arg3)?,
            },
        ),
        Expression::As { expr, kind, convert } => Some(
            Expression::As { expr: new_handle(expr_map, *expr)?, kind: *kind, convert: *convert },
        ),
        Expression::CallResult(f) => Some(
            Expression::CallResult(new_handle(&handles.functions, *f)?),
        ),
        Expression::AtomicResult { kind, width, comparison } => Some(
            Expression::AtomicResult { kind: *kind, width: *width, comparison: *comparison },
        ),
        Expression::ArrayLength(expr) => Some(
            Expression::ArrayLength(new_handle(expr_map, *expr)?),
        ),
    }
}

} // verus!
