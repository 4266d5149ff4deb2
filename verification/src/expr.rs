//! What a required expression requires in turn.
use crate::context::{add_opt, opt_add, Context, RequiredContext};
use crate::ir::{Expression, Function, ImageQuery, Module, SampleLevel, SwizzleComponent};
use crate::live::{lemma_reqs_insert, live, Found, Live, Pruner};
use crate::part::{only, reqs_of, PartReq, Req};
use crate::table::{lists, sorted_entries};
use std::collections::{BTreeMap, HashMap};
use vstd::prelude::*;

verus! {

/// The requirement that `pattern` puts on component `c` of the vector where
/// `parts` is required of the swizzle. Of several positions of the pattern
/// that show the component, the last one decides.
pub open spec fn shown_by(
    parts: Map<usize, Req>,
    pattern: Seq<SwizzleComponent>,
    c: usize,
    n: nat,
) -> Option<Req>
    decreases n,
{
    if n == 0 {
        None
    } else if parts.contains_key((n - 1) as usize) && pattern[n - 1].position_spec() == c {
        Some(parts[(n - 1) as usize])
    } else {
        shown_by(parts, pattern, c, (n - 1) as nat)
    }
}

/// What is required of the vector where `parts` is required of the swizzle.
pub open spec fn swizzled(parts: Map<usize, Req>, pattern: Seq<SwizzleComponent>) -> Map<
    usize,
    Req,
> {
    Map::new(
        |c: usize| shown_by(parts, pattern, c, pattern.len()) is Some,
        |c: usize| shown_by(parts, pattern, c, pattern.len())->0,
    )
}

/// Whether the parts are those of a vector of up to `n` components.
pub open spec fn vector_parts(parts: Map<usize, Req>, n: nat) -> bool {
    forall|i: usize| #[trigger] parts.contains_key(i) ==> i < n && !(parts[i] is Part)
}

/// Whether each index is less than `n`.
pub open spec fn below(parts: Map<usize, Req>, n: nat) -> bool {
    forall|i: usize| #[trigger] parts.contains_key(i) ==> i < n
}

/// The first `n` components, each with the requirement on it, where there is
/// one.
pub open spec fn picked(components: Seq<usize>, parts: Map<usize, Req>, n: nat) -> Seq<
    (usize, Req),
>
    decreases n,
{
    if n == 0 {
        Seq::empty()
    } else if parts.contains_key((n - 1) as usize) {
        picked(components, parts, (n - 1) as nat).push(
            (components[n - 1], parts[(n - 1) as usize]),
        )
    } else {
        picked(components, parts, (n - 1) as nat)
    }
}

/// All of each of the expressions.
pub open spec fn all_of(handles: Seq<usize>) -> Seq<(usize, Req)> {
    Seq::new(handles.len(), |i: int| (handles[i], Req::All))
}

/// All of an optional operand, besides `demands`.
pub open spec fn and_all(demands: Seq<(usize, Req)>, operand: Option<usize>) -> Seq<(usize, Req)> {
    match operand {
        Some(h) => demands.push((h, Req::All)),
        None => demands,
    }
}

/// All operands of a level of detail, besides `demands`.
pub open spec fn and_level(demands: Seq<(usize, Req)>, level: SampleLevel) -> Seq<(usize, Req)> {
    match level {
        SampleLevel::Auto => demands,
        SampleLevel::Zero => demands,
        SampleLevel::Exact(e) => demands.push((e, Req::All)),
        SampleLevel::Bias(e) => demands.push((e, Req::All)),
        SampleLevel::Gradient { x, y } => demands.push((x, Req::All)).push((y, Req::All)),
    }
}

/// The operands of `expr` that are required where `part` of it is, in the
/// order in which they are visited, each with the requirement on it. `None`
/// where the expression does not have the part, and for the result of an
/// atomic operation.
pub open spec fn demands(expr: Expression, part: Req) -> Option<Seq<(usize, Req)>> {
    match expr {
        Expression::AccessIndex { base, index } => Some(
            seq![
                (
                    base,
                    only(
                        index as usize,
                        if part.bare() {
                            part
                        } else {
                            Req::All
                        },
                    ),
                ),
            ],
        ),
        Expression::Access { base, index } => Some(all_of(seq![base, index])),
        Expression::Constant(_) => if part is Part {
            None
        } else {
            Some(Seq::empty())
        },
        Expression::Splat { value, .. } => Some(all_of(seq![value])),
        Expression::Swizzle { vector, pattern, .. } => match part {
            Req::Part(parts) => if vector_parts(parts, 4) {
                Some(seq![(vector, Req::Part(swizzled(parts, pattern@)))])
            } else {
                None
            },
            _ => Some(seq![(vector, part)]),
        },
        Expression::Compose { components, .. } => match part {
            Req::All => Some(all_of(components@)),
            Req::Part(parts) => if below(parts, components@.len()) {
                Some(picked(components@, parts, components@.len()))
            } else {
                None
            },
            Req::Exist => Some(Seq::empty()),
        },
        Expression::FunctionArgument(_) => Some(Seq::empty()),
        Expression::GlobalVariable(_) => Some(Seq::empty()),
        Expression::LocalVariable(_) => Some(Seq::empty()),
        Expression::Load { pointer } => Some(seq![(pointer, part)]),
        Expression::ImageSample {
            image,
            sampler,
            coordinate,
            array_index,
            level,
            depth_ref,
            ..
        } => Some(
            and_all(
                and_level(and_all(all_of(seq![image, sampler, coordinate]), array_index), level),
                depth_ref,
            ),
        ),
        Expression::ImageLoad { image, coordinate, array_index, sample, level } => Some(
            and_all(
                and_all(and_all(all_of(seq![image, coordinate]), array_index), sample),
                level,
            ),
        ),
        Expression::ImageQuery { image, query } => Some(
            and_all(
                all_of(seq![image]),
                match query {
                    ImageQuery::Size { level } => level,
                    _ => None,
                },
            ),
        ),
        Expression::Unary { expr, .. } => Some(seq![(expr, part)]),
        Expression::Binary { left, right, .. } => Some(seq![(left, part), (right, part)]),
        Expression::Select { condition, accept, reject } => Some(
            seq![(condition, Req::All), (accept, part), (reject, part)],
        ),
        Expression::Derivative { expr, .. } => Some(all_of(seq![expr])),
        Expression::Relational { argument, .. } => Some(all_of(seq![argument])),
        Expression::Math { arg, arg1, arg2, arg3, .. } => Some(
            and_all(and_all(and_all(all_of(seq![arg]), arg1), arg2), arg3),
        ),
        Expression::As { expr, .. } => Some(seq![(expr, part)]),
        Expression::CallResult(_) => Some(Seq::empty()),
        Expression::AtomicResult { .. } => None,
        Expression::ArrayLength(expr) => Some(seq![(expr, Req::Exist)]),
    }
}

impl Live {
    /// With a constant required.
    pub open spec fn with_constant(self, constant: Option<usize>) -> Live {
        match constant {
            Some(c) => Live {
                found: Found { constants: self.found.constants.insert(c), ..self.found },
                ..self
            },
            None => self,
        }
    }

    /// With a type required.
    pub open spec fn with_type(self, ty: usize) -> Live {
        Live { found: Found { types: self.found.types.insert(ty), ..self.found }, ..self }
    }

    /// With a requirement on a global variable of the module.
    pub open spec fn with_global(self, gv: usize, req: Req) -> Live {
        Live { found: Found { globals: self.found.globals.insert(gv, req), ..self.found }, ..self }
    }

    /// With a further requirement on an expression.
    pub open spec fn with_expr(self, h: usize, req: Req) -> Live {
        Live { exprs: self.exprs.insert(h, with_more(self.exprs, h, req)), ..self }
    }
}

/// What is required of index `i` where `req` is required besides `reqs`.
pub open spec fn with_more(reqs: Map<usize, Req>, i: usize, req: Req) -> Req {
    if reqs.contains_key(i) {
        reqs[i].add(req)
    } else {
        req
    }
}

/// Requires `part` of index `i` besides what is required of it already.
fn require_more(reqs: &mut HashMap<usize, PartReq>, i: usize, part: &PartReq)
    ensures
        reqs_of(final(reqs)@) == reqs_of(old(reqs)@).insert(
            i,
            with_more(reqs_of(old(reqs)@), i, part@),
        ),
{
    assert(reqs_of(reqs@).contains_key(i) == reqs@.contains_key(i));
    let sum = match reqs.get(&i) {
        Some(cur) => cur.add(part),
        None => part.clone(),
    };
    proof {
        lemma_reqs_insert(reqs@, i, sum);
    }
    reqs.insert(i, sum);
}

/// What is required where `part` of the expression is, besides its operands:
/// constants, arguments and variables. `None` where one of those does not
/// exist.
///
/// A global variable that is required somewhere already is only required more
/// of; it is not asked for at this point of the function again.
pub open spec fn touched(
    shader: Module,
    function: Function,
    expr: Expression,
    part: Req,
    s: Live,
) -> Option<Live> {
    match expr {
        Expression::Constant(c) => Some(s.with_constant(Some(c))),
        Expression::ImageSample { offset, .. } => Some(s.with_constant(offset)),
        Expression::FunctionArgument(i) => if i < s.context.args.len() {
            Some(
                s.at(
                    Context {
                        args: s.context.args.update(
                            i as int,
                            opt_add(s.context.args[i as int], Some(part)),
                        ),
                        ..s.context
                    },
                ),
            )
        } else {
            None
        },
        Expression::GlobalVariable(gv) => if s.found.globals.contains_key(gv) {
            Some(s.with_global(gv, s.found.globals[gv].add(part)))
        } else if gv < shader.global_variables.len() {
            Some(
                s.with_type(shader.global_variables[gv as int].ty).with_global(gv, part).at(
                    Context {
                        globals: s.context.globals.insert(
                            gv,
                            with_more(s.context.globals, gv, part),
                        ),
                        ..s.context
                    },
                ),
            )
        } else {
            None
        },
        Expression::LocalVariable(lv) => if lv < function.local_variables.len() {
            let local = function.local_variables[lv as int];
            let s = s.with_constant(local.init);
            let context = Context {
                locals: s.context.locals.insert(lv, with_more(s.context.locals, lv, part)),
                ..s.context
            };
            if s.context.locals.contains_key(lv) {
                Some(s.at(context))
            } else {
                Some(s.with_type(local.ty).at(context))
            }
        } else {
            None
        },
        _ => Some(s),
    }
}

/// What is required where `part` of the expression `h` is required besides
/// `s`. `None` where something that is required does not exist, and where
/// expressions are nested `depth` deep or more.
pub open spec fn need_expr(
    shader: Module,
    function: Function,
    depth: nat,
    h: usize,
    part: Req,
    s: Live,
) -> Option<Live>
    decreases depth, 0nat,
{
    if depth == 0 || h >= function.expressions.len() {
        None
    } else {
        let expr = function.expressions[h as int];
        match (demands(expr, part), touched(shader, function, expr, part, s)) {
            (Some(operands), Some(s1)) => match need_all(
                shader,
                function,
                (depth - 1) as nat,
                operands,
                operands.len(),
                s1,
            ) {
                Some(s2) => Some(s2.with_expr(h, part)),
                None => None,
            },
            _ => None,
        }
    }
}

/// What is required where the first `n` of the demands are made besides `s`.
pub open spec fn need_all(
    shader: Module,
    function: Function,
    depth: nat,
    demands: Seq<(usize, Req)>,
    n: nat,
    s: Live,
) -> Option<Live>
    decreases depth, n,
{
    if n == 0 {
        Some(s)
    } else {
        match need_all(shader, function, depth, demands, (n - 1) as nat, s) {
            Some(s1) => need_expr(
                shader,
                function,
                depth,
                demands[n - 1].0,
                demands[n - 1].1,
                s1,
            ),
            None => None,
        }
    }
}

/// Demands that cannot be met stop any longer list of them.
pub proof fn lemma_need_all_none(
    shader: Module,
    function: Function,
    depth: nat,
    demands: Seq<(usize, Req)>,
    k: nat,
    n: nat,
    s: Live,
)
    requires
        k <= n,
        need_all(shader, function, depth, demands, k, s) is None,
    ensures
        need_all(shader, function, depth, demands, n, s) is None,
    decreases n,
{
    if k < n {
        lemma_need_all_none(shader, function, depth, demands, k, (n - 1) as nat, s);
    }
}

/// What a list of demands says.
pub open spec fn demands_of(list: Seq<(usize, PartReq)>) -> Seq<(usize, Req)> {
    Seq::new(list.len(), |i: int| (list[i].0, list[i].1@))
}

/// Puts a demand at the end of the list.
pub(crate) fn demand(list: &mut Vec<(usize, PartReq)>, h: usize, part: PartReq)
    ensures
        demands_of(final(list)@) == demands_of(old(list)@).push((h, part@)),
{
    list.push((h, part));
    assert(demands_of(list@) =~= demands_of(old(list)@).push((h, part@)));
}

/// Puts a demand for all of an optional operand at the end of the list.
fn demand_all(list: &mut Vec<(usize, PartReq)>, operand: &Option<usize>)
    ensures
        demands_of(final(list)@) == and_all(demands_of(old(list)@), *operand),
{
    match operand {
        Some(h) => demand(list, *h, PartReq::All),
        None => (),
    }
}

/// Demands for all of each of the expressions.
fn demands_for_all(handles: &Vec<usize>) -> (list: Vec<(usize, PartReq)>)
    ensures
        demands_of(list@) == all_of(handles@),
{
    let mut list: Vec<(usize, PartReq)> = Vec::new();
    let mut i: usize = 0;
    while i < handles.len()
        invariant
            i <= handles.len(),
            list.len() == i,
            forall|j: int|
                0 <= j < i ==> (#[trigger] list[j]).0 == handles[j] && list[j].1@ == Req::All,
        decreases handles.len() - i,
    {
        list.push((handles[i], PartReq::All));
        i = i + 1;
    }
    assert(demands_of(list@) =~= all_of(handles@));
    list
}

/// What is required of the vector where `parts` is required of the swizzle.
fn swizzle_parts(parts: &BTreeMap<usize, PartReq>, pattern: &[SwizzleComponent; 4]) -> (r: Option<
    BTreeMap<usize, PartReq>,
>)
    ensures
        r is Some <==> vector_parts(reqs_of(parts@), 4),
        r matches Some(shown) ==> reqs_of(shown@) == swizzled(reqs_of(parts@), pattern@),
{
    let ghost reqs = reqs_of(parts@);
    let entries = sorted_entries(parts);
    let mut n: usize = 0;
    while n < entries.len()
        invariant
            n <= entries.len(),
            lists(entries@, parts@),
            reqs == reqs_of(parts@),
            forall|j: int|
                0 <= j < n ==> (#[trigger] entries[j]).0 < 4 && !(reqs[entries[j].0] is Part),
        decreases entries.len() - n,
    {
        let (index, req) = entries[n];
        assert(parts@.contains_key(entries@[n as int].0));
        assert(reqs.contains_key(index) && reqs[index] == req@);
        if index >= 4 {
            return None;
        }
        match req {
            PartReq::Part(_) => {
                return None;
            },
            _ => (),
        }
        n = n + 1;
    }
    assert(vector_parts(reqs, 4)) by {
        assert forall|i: usize| #[trigger] reqs.contains_key(i) implies i < 4 && !(
        reqs[i] is Part) by {
            assert(parts@.contains_key(i));
        }
    }
    let mut shown: BTreeMap<usize, PartReq> = BTreeMap::new();
    let mut i: usize = 0;
    while i < 4
        invariant
            i <= 4,
            reqs == reqs_of(parts@),
            forall|c: usize| #[trigger]
                shown@.contains_key(c) == (shown_by(reqs, pattern@, c, i as nat) is Some),
            forall|c: usize| #[trigger]
                shown@.contains_key(c) ==> Some(shown@[c]@) == shown_by(
                    reqs,
                    pattern@,
                    c,
                    i as nat,
                ),
        decreases 4 - i,
    {
        match parts.get(&i) {
            Some(req) => {
                assert(reqs.contains_key(i) && reqs[i] == req@);
                shown.insert(pattern[i].position(), req.clone());
            },
            None => {
                assert(!reqs.contains_key(i));
            },
        }
        i = i + 1;
    }
    assert(reqs_of(shown@) =~= swizzled(reqs, pattern@));
    Some(shown)
}

/// The required components of a composed value, each with the requirement on
/// it.
fn pick_components(components: &Vec<usize>, parts: &BTreeMap<usize, PartReq>) -> (r: Option<
    Vec<(usize, PartReq)>,
>)
    ensures
        r is Some <==> below(reqs_of(parts@), components@.len()),
        r matches Some(list) ==> demands_of(list@) == picked(
            components@,
            reqs_of(parts@),
            components@.len(),
        ),
{
    let ghost reqs = reqs_of(parts@);
    let entries = sorted_entries(parts);
    let mut n: usize = 0;
    while n < entries.len()
        invariant
            n <= entries.len(),
            lists(entries@, parts@),
            reqs == reqs_of(parts@),
            forall|j: int| 0 <= j < n ==> (#[trigger] entries[j]).0 < components.len(),
        decreases entries.len() - n,
    {
        let (index, _) = entries[n];
        assert(parts@.contains_key(entries@[n as int].0));
        assert(reqs.contains_key(index));
        if index >= components.len() {
            return None;
        }
        n = n + 1;
    }
    assert(below(reqs, components@.len())) by {
        assert forall|i: usize| #[trigger] reqs.contains_key(i) implies i < components@.len() by {
            assert(parts@.contains_key(i));
        }
    }
    let mut list: Vec<(usize, PartReq)> = Vec::new();
    assert(demands_of(list@) =~= Seq::empty());
    let mut i: usize = 0;
    while i < components.len()
        invariant
            i <= components.len(),
            reqs == reqs_of(parts@),
            demands_of(list@) == picked(components@, reqs, i as nat),
        decreases components.len() - i,
    {
        match parts.get(&i) {
            Some(req) => {
                assert(reqs.contains_key(i) && reqs[i] == req@);
                demand(&mut list, components[i], req.clone());
            },
            None => {
                assert(!reqs.contains_key(i));
            },
        }
        i = i + 1;
    }
    Some(list)
}

/// The operands of `expr` that are required where `part` of it is, each with
/// the requirement on it.
fn operand_demands(expr: &Expression, part: &PartReq) -> (r: Option<Vec<(usize, PartReq)>>)
    ensures
        r is Some <==> demands(*expr, part@) is Some,
        r matches Some(list) ==> Some(demands_of(list@)) == demands(*expr, part@),
{
    let mut list: Vec<(usize, PartReq)> = Vec::new();
    assert(demands_of(list@) =~= Seq::empty());
    match expr {
        Expression::AccessIndex { base, index } => {
            let inner = if part.is_bare() {
                part.clone()
            } else {
                PartReq::All
            };
            demand(&mut list, *base, PartReq::only(*index as usize, inner));
        },
        Expression::Access { base, index } => {
            list = demands_for_all(&vec![*base, *index]);
        },
        Expression::Constant(_) => match part {
            PartReq::Part(_) => {
                return None;
            },
            _ => (),
        },
        Expression::Splat { value, .. } => {
            list = demands_for_all(&vec![*value]);
        },
        Expression::Swizzle { vector, pattern, .. } => match part {
            PartReq::Part(parts) => {
                proof {
                    PartReq::lemma_part_view(*parts);
                }
                match swizzle_parts(parts, pattern) {
                    Some(shown) => {
                        proof {
                            PartReq::lemma_part_view(shown);
                        }
                        demand(&mut list, *vector, PartReq::Part(shown));
                    },
                    None => {
                        return None;
                    },
                }
            },
            _ => demand(&mut list, *vector, part.clone()),
        },
        Expression::Compose { components, .. } => match part {
            PartReq::All => {
                list = demands_for_all(components);
            },
            PartReq::Part(parts) => {
                proof {
                    PartReq::lemma_part_view(*parts);
                }
                match pick_components(components, parts) {
                    Some(picked) => {
                        list = picked;
                    },
                    None => {
                        return None;
                    },
                }
            },
            PartReq::Exist => (),
        },
        Expression::FunctionArgument(_) => (),
        Expression::GlobalVariable(_) => (),
        Expression::LocalVariable(_) => (),
        Expression::Load { pointer } => {
            demand(&mut list, *pointer, part.clone());
        },
        Expression::ImageSample {
            image,
            sampler,
            coordinate,
            array_index,
            level,
            depth_ref,
            ..
        } => {
            list = demands_for_all(&vec![*image, *sampler, *coordinate]);
            demand_all(&mut list, array_index);
            match level {
                SampleLevel::Auto => (),
                SampleLevel::Zero => (),
                SampleLevel::Exact(e) => demand(&mut list, *e, PartReq::All),
                SampleLevel::Bias(e) => demand(&mut list, *e, PartReq::All),
                SampleLevel::Gradient { x, y } => {
                    demand(&mut list, *x, PartReq::All);
                    demand(&mut list, *y, PartReq::All);
                },
            }
            demand_all(&mut list, depth_ref);
        },
        Expression::ImageLoad { image, coordinate, array_index, sample, level } => {
            list = demands_for_all(&vec![*image, *coordinate]);
            demand_all(&mut list, array_index);
            demand_all(&mut list, sample);
            demand_all(&mut list, level);
        },
        Expression::ImageQuery { image, query } => {
            list = demands_for_all(&vec![*image]);
            match query {
                ImageQuery::Size { level } => demand_all(&mut list, level),
                _ => (),
            }
        },
        Expression::Unary { expr, .. } => {
            demand(&mut list, *expr, part.clone());
        },
        Expression::Binary { left, right, .. } => {
            demand(&mut list, *left, part.clone());
            demand(&mut list, *right, part.clone());
        },
        Expression::Select { condition, accept, reject } => {
            demand(&mut list, *condition, PartReq::All);
            demand(&mut list, *accept, part.clone());
            demand(&mut list, *reject, part.clone());
        },
        Expression::Derivative { expr, .. } => {
            list = demands_for_all(&vec![*expr]);
        },
        Expression::Relational { argument, .. } => {
            list = demands_for_all(&vec![*argument]);
        },
        Expression::Math { arg, arg1, arg2, arg3, .. } => {
            list = demands_for_all(&vec![*arg]);
            demand_all(&mut list, arg1);
            demand_all(&mut list, arg2);
            demand_all(&mut list, arg3);
        },
        Expression::As { expr, .. } => {
            demand(&mut list, *expr, part.clone());
        },
        Expression::CallResult(_) => (),
        Expression::AtomicResult { .. } => {
            return None;
        },
        Expression::ArrayLength(expr) => {
            demand(&mut list, *expr, PartReq::Exist);
        },
    }
    proof {
        assert(Some(demands_of(list@)) =~= demands(*expr, part@)) by {
            assert(demands_of(list@) =~= demands(*expr, part@)->0);
        }
    }
    Some(list)
}

impl Pruner {
    /// Requires what is required besides the operands where `part` of the
    /// expression is.
    fn add_leaf(
        &mut self,
        shader: &Module,
        function: &Function,
        exprs_required: &HashMap<usize, PartReq>,
        context: &mut RequiredContext,
        expr: &Expression,
        part: &PartReq,
    ) -> (done: bool)
        ensures
            final(self).entry_points == old(self).entry_points,
            done == (touched(
                *shader,
                *function,
                *expr,
                part@,
                live(*old(self), *exprs_required, *old(context)),
            ) is Some),
            done ==> touched(
                *shader,
                *function,
                *expr,
                part@,
                live(*old(self), *exprs_required, *old(context)),
            ) == Some(live(*final(self), *exprs_required, *final(context))),
    {
        match expr {
            Expression::Constant(c) => {
                self.constants.insert(*c);
            },
            Expression::ImageSample { offset, .. } => match offset {
                Some(c) => {
                    self.constants.insert(*c);
                },
                None => (),
            },
            Expression::FunctionArgument(index) => {
                let i: usize = *index as usize;
                if i >= context.args.len() {
                    return false;
                }
                let new = add_opt(&context.args[i], &Some(part.clone()));
                let ghost before = context@;
                context.args.set(i, new);
                assert(context@.args =~= before.args.update(
                    i as int,
                    opt_add(before.args[i as int], Some(part@)),
                ));
            },
            Expression::GlobalVariable(gv) => {
                assert(self.globals@.contains_key(*gv) == self@.found.globals.contains_key(*gv));
                let sum = match self.globals.get(gv) {
                    Some(cur) => Some(cur.add(part)),
                    None => None,
                };
                match sum {
                    Some(sum) => {
                        proof {
                            lemma_reqs_insert(self.globals@, *gv, sum);
                        }
                        self.globals.insert(*gv, sum);
                    },
                    None => {
                        if *gv >= shader.global_variables.len() {
                            return false;
                        }
                        self.types.insert(shader.global_variables[*gv].ty);
                        let own = part.clone();
                        proof {
                            lemma_reqs_insert(self.globals@, *gv, own);
                        }
                        self.globals.insert(*gv, own);
                        require_more(&mut context.globals, *gv, part);
                    },
                }
            },
            Expression::LocalVariable(lv) => {
                if *lv >= function.local_variables.len() {
                    return false;
                }
                let local = &function.local_variables[*lv];
                assert(context.locals@.contains_key(*lv) == context@.locals.contains_key(*lv));
                if !context.locals.contains_key(lv) {
                    self.types.insert(local.ty);
                }
                require_more(&mut context.locals, *lv, part);
                match local.init {
                    Some(init) => {
                        self.constants.insert(init);
                    },
                    None => (),
                }
            },
            _ => (),
        }
        proof {
            let s = live(*old(self), *exprs_required, *old(context));
            let t = touched(*shader, *function, *expr, part@, s);
            assert(t->0 =~= live(*self, *exprs_required, *context));
        }
        true
    }

    /// Requires `part` of the expression `h_expr`, and what that requires in
    /// turn.
    pub(crate) fn add_expression(
        &mut self,
        shader: &Module,
        function: &Function,
        exprs_required: &mut HashMap<usize, PartReq>,
        context: &mut RequiredContext,
        h_expr: usize,
        part: &PartReq,
        depth: usize,
    ) -> (done: bool)
        ensures
            final(self).entry_points == old(self).entry_points,
            done == (need_expr(
                *shader,
                *function,
                depth as nat,
                h_expr,
                part@,
                live(*old(self), *old(exprs_required), *old(context)),
            ) is Some),
            done ==> need_expr(
                *shader,
                *function,
                depth as nat,
                h_expr,
                part@,
                live(*old(self), *old(exprs_required), *old(context)),
            ) == Some(live(*final(self), *final(exprs_required), *final(context))),
        decreases depth,
    {
        let ghost s = live(*self, *exprs_required, *context);
        if depth == 0 || h_expr >= function.expressions.len() {
            return false;
        }
        let expr = &function.expressions[h_expr];
        let operands = match operand_demands(expr, part) {
            Some(operands) => operands,
            None => {
                return false;
            },
        };
        let ghost list = demands_of(operands@);
        if !self.add_leaf(shader, function, &*exprs_required, context, expr, part) {
            return false;
        }
        let ghost s1 = live(*self, *exprs_required, *context);
        let mut n: usize = 0;
        while n < operands.len()
            invariant
                n <= operands.len(),
                depth > 0,
                h_expr < function.expressions.len(),
                expr == function.expressions[h_expr as int],
                demands(*expr, part@) == Some(list),
                list == demands_of(operands@),
                touched(*shader, *function, *expr, part@, s) == Some(s1),
                self.entry_points == old(self).entry_points,
                s == live(*old(self), *old(exprs_required), *old(context)),
                need_all(*shader, *function, (depth - 1) as nat, list, n as nat, s1) == Some(
                    live(*self, *exprs_required, *context),
                ),
            decreases operands.len() - n,
        {
            let (operand, req) = &operands[n];
            assert(list[n as int] == (*operand, req@));
            if !self.add_expression(
                shader,
                function,
                exprs_required,
                context,
                *operand,
                req,
                depth - 1,
            ) {
                proof {
                    lemma_need_all_none(
                        *shader,
                        *function,
                        (depth - 1) as nat,
                        list,
                        (n + 1) as nat,
                        list.len(),
                        s1,
                    );
                }
                return false;
            }
            n = n + 1;
        }
        require_more(exprs_required, h_expr, part);
        true
    }
}

} // verus!
