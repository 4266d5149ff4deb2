//! Which types, constants and global variables something uses.
use crate::ir::{
    ArraySize, Constant, ConstantInner, Expression, Function, FunctionArgument, FunctionResult,
    GlobalVariable, LocalVariable, Module, StructMember, Type, TypeInner,
};
use crate::need::{FnNeed, FunctionReq};
use crate::remap::{lemma_rank, rank};
use std::collections::HashSet;
use vstd::prelude::*;

verus! {

/// A type, constant or global variable of the module, by its handle.
#[derive(Clone, Copy, Debug, PartialEq, Eq, Structural)]
pub enum Item {
    Type(usize),
    Constant(usize),
    Global(usize),
}

/// An optional constant, besides `items`.
pub open spec fn and_constant(items: Seq<Item>, constant: Option<usize>) -> Seq<Item> {
    match constant {
        Some(c) => items.push(Item::Constant(c)),
        None => items,
    }
}

/// The constant of an array size, besides `items`.
pub open spec fn and_size(items: Seq<Item>, size: ArraySize) -> Seq<Item> {
    match size {
        ArraySize::Constant(c) => items.push(Item::Constant(c)),
        ArraySize::Dynamic => items,
    }
}

/// The types of the members of a structure.
pub open spec fn member_items(members: Seq<StructMember>) -> Seq<Item> {
    Seq::new(members.len(), |i: int| Item::Type(members[i].ty))
}

/// What a type uses.
pub open spec fn type_items(inner: TypeInner) -> Seq<Item> {
    match inner {
        TypeInner::Pointer { base, .. } => seq![Item::Type(base)],
        TypeInner::Array { base, size, .. } => and_size(seq![Item::Type(base)], size),
        TypeInner::BindingArray { base, size } => and_size(seq![Item::Type(base)], size),
        TypeInner::Struct { members, .. } => member_items(members@),
        _ => Seq::empty(),
    }
}

/// What a constant uses.
pub open spec fn constant_items(inner: ConstantInner) -> Seq<Item> {
    match inner {
        ConstantInner::Composite { ty, components } => Seq::new(
            components@.len(),
            |i: int| Item::Constant(components@[i]),
        ).push(Item::Type(ty)),
        ConstantInner::Scalar { .. } => Seq::empty(),
    }
}

/// What a global variable uses.
pub open spec fn global_items(global: GlobalVariable) -> Seq<Item> {
    and_constant(seq![Item::Type(global.ty)], global.init)
}

/// What a type, constant or global variable of the module uses.
pub open spec fn items_of(module: Module, item: Item) -> Seq<Item> {
    match item {
        Item::Type(h) => if h < module.types.len() {
            type_items(module.types[h as int].inner)
        } else {
            Seq::empty()
        },
        Item::Constant(h) => if h < module.constants.len() {
            constant_items(module.constants[h as int].inner)
        } else {
            Seq::empty()
        },
        Item::Global(h) => if h < module.global_variables.len() {
            global_items(module.global_variables[h as int])
        } else {
            Seq::empty()
        },
    }
}

/// What an expression uses, besides `items`.
pub open spec fn and_expr(items: Seq<Item>, expr: Expression) -> Seq<Item> {
    match expr {
        Expression::Constant(c) => items.push(Item::Constant(c)),
        Expression::Compose { ty, .. } => items.push(Item::Type(ty)),
        Expression::GlobalVariable(gv) => items.push(Item::Global(gv)),
        Expression::ImageSample { offset, .. } => and_constant(items, offset),
        _ => items,
    }
}

/// What the required expressions among the first `n` use, besides `items`.
pub open spec fn and_exprs(
    items: Seq<Item>,
    exprs: Seq<Expression>,
    required: Set<usize>,
    n: nat,
) -> Seq<Item>
    decreases n,
{
    if n == 0 {
        items
    } else {
        let before = and_exprs(items, exprs, required, (n - 1) as nat);
        if required.contains((n - 1) as usize) {
            and_expr(before, exprs[n - 1])
        } else {
            before
        }
    }
}

/// What the required local variables among the first `n` use, besides `items`.
pub open spec fn and_locals(
    items: Seq<Item>,
    locals: Seq<LocalVariable>,
    required: Set<usize>,
    n: nat,
) -> Seq<Item>
    decreases n,
{
    if n == 0 {
        items
    } else {
        let before = and_locals(items, locals, required, (n - 1) as nat);
        if required.contains((n - 1) as usize) {
            and_constant(before.push(Item::Type(locals[n - 1].ty)), locals[n - 1].init)
        } else {
            before
        }
    }
}

/// The types of the arguments.
pub open spec fn argument_items(arguments: Seq<FunctionArgument>) -> Seq<Item> {
    Seq::new(arguments.len(), |i: int| Item::Type(arguments[i].ty))
}

/// The type of the result, besides `items`.
pub open spec fn and_result(items: Seq<Item>, result: Option<FunctionResult>) -> Seq<Item> {
    match result {
        Some(result) => items.push(Item::Type(result.ty)),
        None => items,
    }
}

/// What a function uses once it has been pruned to `need`, besides `items`.
pub open spec fn and_function(items: Seq<Item>, need: FnNeed, function: Function) -> Seq<Item> {
    let of_arguments = items + argument_items(function.arguments@);
    let of_result = and_result(
        of_arguments,
        if need.body.context.retval is Some {
            function.result
        } else {
            None
        },
    );
    let of_locals = and_locals(
        of_result,
        function.local_variables@,
        need.body.context.locals.dom(),
        function.local_variables@.len(),
    );
    and_exprs(of_locals, function.expressions@, need.exprs.dom(), function.expressions@.len())
}

/// Whether `item` is one of `roots`, or used by one of them in at most `k`
/// steps.
pub open spec fn reached(module: Module, roots: Seq<Item>, k: nat, item: Item) -> bool
    decreases k,
{
    if k == 0 {
        roots.contains(item)
    } else {
        ||| reached(module, roots, (k - 1) as nat, item)
        ||| exists|user: Item|
            reached(module, roots, (k - 1) as nat, user) && #[trigger] items_of(
                module,
                user,
            ).contains(item)
    }
}

/// Whether `item` is one of `roots`, or used by one of them, directly or not.
pub open spec fn needed(module: Module, roots: Seq<Item>, item: Item) -> bool {
    exists|k: nat| reached(module, roots, k, item)
}

/// Whether the module has the item.
pub open spec fn exists_in(module: Module, item: Item) -> bool {
    match item {
        Item::Type(h) => h < module.types.len(),
        Item::Constant(h) => h < module.constants.len(),
        Item::Global(h) => h < module.global_variables.len(),
    }
}

/// Types, constants and global variables that are kept.
pub struct Kept {
    pub types: Set<usize>,
    pub constants: Set<usize>,
    pub globals: Set<usize>,
}

impl Kept {
    /// Whether an item is kept.
    pub open spec fn has(self, item: Item) -> bool {
        match item {
            Item::Type(h) => self.types.contains(h),
            Item::Constant(h) => self.constants.contains(h),
            Item::Global(h) => self.globals.contains(h),
        }
    }
}

/// What `roots` need of the module.
pub open spec fn kept_for(module: Module, roots: Seq<Item>) -> Kept {
    Kept {
        types: Set::new(|h: usize| needed(module, roots, Item::Type(h))),
        constants: Set::new(|h: usize| needed(module, roots, Item::Constant(h))),
        globals: Set::new(|h: usize| needed(module, roots, Item::Global(h))),
    }
}

/// Whether the module has all that `roots` need.
pub open spec fn complete(module: Module, roots: Seq<Item>) -> bool {
    forall|item: Item| #[trigger] needed(module, roots, item) ==> exists_in(module, item)
}

/// A root is needed.
pub proof fn lemma_root_needed(module: Module, roots: Seq<Item>, item: Item)
    requires
        roots.contains(item),
    ensures
        needed(module, roots, item),
{
    assert(reached(module, roots, 0, item));
}

/// What a needed item uses is needed.
pub proof fn lemma_used_needed(module: Module, roots: Seq<Item>, user: Item, item: Item)
    requires
        needed(module, roots, user),
        items_of(module, user).contains(item),
    ensures
        needed(module, roots, item),
{
    let k = choose|k: nat| reached(module, roots, k, user);
    assert(reached(module, roots, k + 1, item));
}

/// What holds of the roots and of all that something uses of which it holds,
/// holds of all that is needed.
proof fn lemma_needed_within(module: Module, roots: Seq<Item>, kept: Kept, k: nat, item: Item)
    requires
        forall|root: Item| #[trigger] roots.contains(root) ==> kept.has(root),
        forall|user: Item, used: Item|
            kept.has(user) && #[trigger] items_of(module, user).contains(used) ==> kept.has(used),
        reached(module, roots, k, item),
    ensures
        kept.has(item),
    decreases k,
{
    if k > 0 {
        if reached(module, roots, (k - 1) as nat, item) {
            lemma_needed_within(module, roots, kept, (k - 1) as nat, item);
        } else {
            let user = choose|user: Item|
                reached(module, roots, (k - 1) as nat, user) && #[trigger] items_of(
                    module,
                    user,
                ).contains(item);
            lemma_needed_within(module, roots, kept, (k - 1) as nat, user);
        }
    }
}

/// Puts an optional constant at the end of the list.
fn use_constant(items: &mut Vec<Item>, constant: &Option<usize>)
    ensures
        final(items)@ == and_constant(old(items)@, *constant),
{
    match constant {
        Some(c) => items.push(Item::Constant(*c)),
        None => (),
    }
}

/// Puts the constant of an array size at the end of the list.
fn use_size(items: &mut Vec<Item>, size: &ArraySize)
    ensures
        final(items)@ == and_size(old(items)@, *size),
{
    match size {
        ArraySize::Constant(c) => items.push(Item::Constant(*c)),
        ArraySize::Dynamic => (),
    }
}

/// What a type uses.
fn use_type(inner: &TypeInner) -> (items: Vec<Item>)
    ensures
        items@ == type_items(*inner),
{
    let mut items: Vec<Item> = Vec::new();
    match inner {
        TypeInner::Pointer { base, .. } => items.push(Item::Type(*base)),
        TypeInner::Array { base, size, .. } => {
            items.push(Item::Type(*base));
            use_size(&mut items, size);
        },
        TypeInner::BindingArray { base, size } => {
            items.push(Item::Type(*base));
            use_size(&mut items, size);
        },
        TypeInner::Struct { members, .. } => {
            let mut i: usize = 0;
            while i < members.len()
                invariant
                    i <= members.len(),
                    items.len() == i,
                    forall|j: int| 0 <= j < i ==> #[trigger] items[j] == Item::Type(members[j].ty),
                decreases members.len() - i,
            {
                items.push(Item::Type(members[i].ty));
                i = i + 1;
            }
        },
        _ => (),
    }
    assert(items@ =~= type_items(*inner));
    items
}

/// What a constant uses.
fn use_constant_inner(inner: &ConstantInner) -> (items: Vec<Item>)
    ensures
        items@ == constant_items(*inner),
{
    let mut items: Vec<Item> = Vec::new();
    match inner {
        ConstantInner::Composite { ty, components } => {
            let mut i: usize = 0;
            while i < components.len()
                invariant
                    i <= components.len(),
                    items.len() == i,
                    forall|j: int|
                        0 <= j < i ==> #[trigger] items[j] == Item::Constant(components[j]),
                decreases components.len() - i,
            {
                items.push(Item::Constant(components[i]));
                i = i + 1;
            }
            items.push(Item::Type(*ty));
        },
        ConstantInner::Scalar { .. } => (),
    }
    assert(items@ =~= constant_items(*inner));
    items
}

/// What an item of the module uses. `None` where the module does not have the
/// item.
fn use_item(module: &Module, item: Item) -> (r: Option<Vec<Item>>)
    ensures
        match r {
            Some(items) => exists_in(*module, item) && items@ == items_of(*module, item),
            None => !exists_in(*module, item),
        },
{
    match item {
        Item::Type(h) => if h < module.types.len() {
            Some(use_type(&module.types[h].inner))
        } else {
            None
        },
        Item::Constant(h) => if h < module.constants.len() {
            Some(use_constant_inner(&module.constants[h].inner))
        } else {
            None
        },
        Item::Global(h) => if h < module.global_variables.len() {
            let global = &module.global_variables[h];
            let mut items: Vec<Item> = Vec::new();
            items.push(Item::Type(global.ty));
            use_constant(&mut items, &global.init);
            assert(items@ =~= global_items(*global));
            Some(items)
        } else {
            None
        },
    }
}

/// Puts what an expression uses at the end of the list.
fn use_expr(items: &mut Vec<Item>, expr: &Expression)
    ensures
        final(items)@ == and_expr(old(items)@, *expr),
{
    match expr {
        Expression::Constant(c) => items.push(Item::Constant(*c)),
        Expression::Compose { ty, .. } => items.push(Item::Type(*ty)),
        Expression::GlobalVariable(gv) => items.push(Item::Global(*gv)),
        Expression::ImageSample { offset, .. } => use_constant(items, offset),
        _ => (),
    }
}

/// Puts what a function uses once it has been pruned at the end of the list.
pub fn use_function(items: &mut Vec<Item>, need: &FunctionReq, function: &Function)
    ensures
        final(items)@ == and_function(old(items)@, need@, *function),
{
    let ghost start = items@;
    let ghost all = argument_items(function.arguments@);
    let mut i: usize = 0;
    while i < function.arguments.len()
        invariant
            i <= function.arguments.len(),
            all == argument_items(function.arguments@),
            items@ == start + all.take(i as int),
        decreases function.arguments.len() - i,
    {
        items.push(Item::Type(function.arguments[i].ty));
        assert(all.take(i + 1) =~= all.take(i as int).push(all[i as int]));
        assert(items@ =~= start + all.take(i + 1));
        i = i + 1;
    }
    assert(items@ =~= start + all);
    match (need.requires_result(), &function.result) {
        (true, Some(result)) => items.push(Item::Type(result.ty)),
        _ => (),
    }
    let ghost of_result = items@;
    let ghost locals = need@.body.context.locals.dom();
    let mut i: usize = 0;
    while i < function.local_variables.len()
        invariant
            i <= function.local_variables.len(),
            locals == need@.body.context.locals.dom(),
            items@ == and_locals(of_result, function.local_variables@, locals, i as nat),
        decreases function.local_variables.len() - i,
    {
        if need.requires_local(i) {
            items.push(Item::Type(function.local_variables[i].ty));
            use_constant(items, &function.local_variables[i].init);
        }
        i = i + 1;
    }
    let ghost of_locals = items@;
    let ghost required = need@.exprs.dom();
    let mut i: usize = 0;
    while i < function.expressions.len()
        invariant
            i <= function.expressions.len(),
            required == need@.exprs.dom(),
            items@ == and_exprs(of_locals, function.expressions@, required, i as nat),
        decreases function.expressions.len() - i,
    {
        if need.requires_expr(i) {
            use_expr(items, &function.expressions[i]);
        }
        i = i + 1;
    }
}

/// Types, constants and global variables that are kept, by their handles.
pub struct Keep {
    pub types: HashSet<usize>,
    pub constants: HashSet<usize>,
    pub globals: HashSet<usize>,
}

impl View for Keep {
    type V = Kept;

    open spec fn view(&self) -> Kept {
        Kept { types: self.types@, constants: self.constants@, globals: self.globals@ }
    }
}

/// The number of items of the module that are not kept.
spec fn left_out(module: Module, kept: Kept) -> int {
    module.types@.len() + module.constants@.len() + module.global_variables@.len() - rank(
        kept.types,
        module.types@.len(),
    ) - rank(kept.constants, module.constants@.len()) - rank(
        kept.globals,
        module.global_variables@.len(),
    )
}

/// A handle more raises the count of those above it by one.
proof fn lemma_rank_insert(kept: Set<usize>, h: usize, n: nat)
    requires
        !kept.contains(h),
        n <= usize::MAX,
    ensures
        rank(kept.insert(h), n) == rank(kept, n) + if h < n {
            1nat
        } else {
            0nat
        },
    decreases n,
{
    if n > 0 {
        lemma_rank_insert(kept, h, (n - 1) as nat);
    }
}

impl Keep {
    /// Keeps an item; gives whether it was not kept before.
    fn keep(&mut self, item: Item) -> (new: bool)
        ensures
            new == !old(self)@.has(item),
            !new ==> final(self)@ == old(self)@,
            forall|other: Item| #[trigger]
                final(self)@.has(other) <==> old(self)@.has(other) || other == item,
            new ==> forall|module: Module|
                exists_in(module, item) ==> #[trigger] left_out(module, final(self)@) < left_out(
                    module,
                    old(self)@,
                ),
    {
        let ghost before = self@;
        let new = match item {
            Item::Type(h) => !self.types.contains(&h),
            Item::Constant(h) => !self.constants.contains(&h),
            Item::Global(h) => !self.globals.contains(&h),
        };
        if new {
            match item {
                Item::Type(h) => {
                    self.types.insert(h);
                },
                Item::Constant(h) => {
                    self.constants.insert(h);
                },
                Item::Global(h) => {
                    self.globals.insert(h);
                },
            }
            proof {
                assert forall|module: Module| exists_in(module, item) implies #[trigger] left_out(
                    module,
                    self@,
                ) < left_out(module, before) by {
                    match item {
                        Item::Type(h) => lemma_rank_insert(before.types, h, module.types@.len()),
                        Item::Constant(h) => lemma_rank_insert(
                            before.constants,
                            h,
                            module.constants@.len(),
                        ),
                        Item::Global(h) => lemma_rank_insert(
                            before.globals,
                            h,
                            module.global_variables@.len(),
                        ),
                    }
                }
            }
        }
        new
    }
}

/// No more items are kept than there are.
proof fn lemma_left_out(module: Module, kept: Kept)
    ensures
        left_out(module, kept) >= 0,
{
    lemma_rank(kept.types, 0, module.types@.len());
    lemma_rank(kept.constants, 0, module.constants@.len());
    lemma_rank(kept.globals, 0, module.global_variables@.len());
}

/// Whether the module has the item.
fn has_item(module: &Module, item: Item) -> (r: bool)
    ensures
        r == exists_in(*module, item),
{
    match item {
        Item::Type(h) => h < module.types.len(),
        Item::Constant(h) => h < module.constants.len(),
        Item::Global(h) => h < module.global_variables.len(),
    }
}

/// Whether all that is kept is needed, and the module has it.
spec fn only_needed(module: Module, roots: Seq<Item>, kept: Kept) -> bool {
    forall|item: Item| #[trigger]
        kept.has(item) ==> needed(module, roots, item) && exists_in(module, item)
}

/// Whether all that a kept item uses is kept, but for items still to do.
spec fn closed_but(module: Module, kept: Kept, todo: Seq<Item>) -> bool {
    forall|user: Item, used: Item|
        kept.has(user) && !todo.contains(user) && #[trigger] items_of(module, user).contains(used)
            ==> kept.has(used)
}

/// What `roots` need of the module. `None` where the module lacks some of it.
pub fn keep_for(module: &Module, roots: &Vec<Item>) -> (r: Option<Keep>)
    ensures
        match r {
            Some(keep) => complete(*module, roots@) && keep@ == kept_for(*module, roots@),
            None => !complete(*module, roots@),
        },
{
    let mut keep = Keep { types: HashSet::new(), constants: HashSet::new(), globals: HashSet::new(),
    };
    let mut todo: Vec<Item> = Vec::new();
    let mut i: usize = 0;
    while i < roots.len()
        invariant
            i <= roots.len(),
            only_needed(*module, roots@, keep@),
            forall|j: int| 0 <= j < i ==> keep@.has(#[trigger] roots[j]),
            forall|item: Item| #[trigger] keep@.has(item) ==> todo@.contains(item),
            forall|j: int| 0 <= j < todo.len() ==> keep@.has(#[trigger] todo[j]),
        decreases roots.len() - i,
    {
        let root = roots[i];
        proof {
            assert(roots@.contains(root));
            lemma_root_needed(*module, roots@, root);
        }
        if !has_item(module, root) {
            assert(needed(*module, roots@, root));
            return None;
        }
        if keep.keep(root) {
            let ghost before = todo@;
            todo.push(root);
            assert(todo@[before.len() as int] == root);
            assert forall|item: Item| #[trigger] keep@.has(item) implies todo@.contains(item) by {
                if item != root {
                    let k = choose|k: int| 0 <= k < before.len() && before[k] == item;
                    assert(todo@[k] == item);
                }
            }
        }
        i = i + 1;
    }
    assert(closed_but(*module, keep@, todo@));
    proof {
        lemma_left_out(*module, keep@);
    }
    while todo.len() > 0
        invariant
            only_needed(*module, roots@, keep@),
            forall|j: int| 0 <= j < roots.len() ==> keep@.has(#[trigger] roots[j]),
            forall|j: int| 0 <= j < todo.len() ==> keep@.has(#[trigger] todo[j]),
            closed_but(*module, keep@, todo@),
            left_out(*module, keep@) >= 0,
        decreases left_out(*module, keep@), todo.len(),
    {
        let ghost start = left_out(*module, keep@);
        let ghost all = todo@;
        assert(keep@.has(todo[todo.len() - 1]));
        let item = todo.pop().unwrap();
        let ghost len = todo@.len();
        assert(needed(*module, roots@, item) && exists_in(*module, item));
        assert forall|user: Item, used: Item|
            keep@.has(user) && user != item && !todo@.contains(user) && #[trigger] items_of(
                *module,
                user,
            ).contains(used) implies keep@.has(used) by {
            if all.contains(user) {
                let k = choose|k: int| 0 <= k < all.len() && all[k] == user;
                assert(k < todo@.len());
                assert(todo@[k] == user);
            }
        }
        let items = match use_item(module, item) {
            Some(items) => items,
            None => {
                return None;
            },
        };
        let mut j: usize = 0;
        while j < items.len()
            invariant
                j <= items.len(),
                items@ == items_of(*module, item),
                needed(*module, roots@, item),
                only_needed(*module, roots@, keep@),
                forall|k: int| 0 <= k < roots.len() ==> keep@.has(#[trigger] roots[k]),
                forall|k: int| 0 <= k < todo.len() ==> keep@.has(#[trigger] todo[k]),
                forall|k: int| 0 <= k < j ==> keep@.has(#[trigger] items[k]),
                forall|user: Item, used: Item|
                    keep@.has(user) && user != item && !todo@.contains(user) && #[trigger] items_of(
                        *module,
                        user,
                    ).contains(used) ==> keep@.has(used),
                left_out(*module, keep@) >= 0,
                left_out(*module, keep@) < start || (left_out(*module, keep@) == start
                    && todo.len() == len),
            decreases items.len() - j,
        {
            let used = items[j];
            proof {
                assert(items_of(*module, item).contains(used));
                lemma_used_needed(*module, roots@, item, used);
            }
            if !has_item(module, used) {
                assert(needed(*module, roots@, used));
                return None;
            }
            let ghost before = keep@;
            if keep.keep(used) {
                let ghost was = todo@;
                todo.push(used);
                proof {
                    lemma_left_out(*module, keep@);
                    assert(left_out(*module, keep@) < left_out(*module, before));
                    assert(todo@[was.len() as int] == used);
                    assert forall|user: Item|
                        keep@.has(user) && user != item && !todo@.contains(
                            user,
                        ) implies #[trigger] before.has(user) && !was.contains(user) by {
                        assert(user != used);
                        if was.contains(user) {
                            let k = choose|k: int| 0 <= k < was.len() && was[k] == user;
                            assert(todo@[k] == user);
                        }
                    }
                }
            }
            j = j + 1;
        }
        assert(closed_but(*module, keep@, todo@)) by {
            assert forall|user: Item, used: Item|
                keep@.has(user) && !todo@.contains(user) && #[trigger] items_of(
                    *module,
                    user,
                ).contains(used) implies keep@.has(used) by {
                if user == item {
                    let k = choose|k: int| 0 <= k < items@.len() && items@[k] == used;
                    assert(keep@.has(items[k]));
                }
            }
        }
    }
    proof {
        let kept = keep@;
        assert forall|root: Item| #[trigger] roots@.contains(root) implies kept.has(root) by {
            let k = choose|k: int| 0 <= k < roots@.len() && roots@[k] == root;
            assert(kept.has(roots[k]));
        }
        assert forall|item: Item| needed(*module, roots@, item) implies #[trigger] kept.has(
            item,
        ) by {
            let k = choose|k: nat| reached(*module, roots@, k, item);
            lemma_needed_within(*module, roots@, kept, k, item);
        }
        assert forall|item: Item| #[trigger] needed(*module, roots@, item) implies exists_in(
            *module,
            item,
        ) by {
            assert(kept.has(item));
        }
        let want = kept_for(*module, roots@);
        assert forall|h: usize| kept.types.contains(h) == want.types.contains(h) by {
            assert(kept.has(Item::Type(h)) == needed(*module, roots@, Item::Type(h)));
        }
        assert forall|h: usize| kept.constants.contains(h) == want.constants.contains(h) by {
            assert(kept.has(Item::Constant(h)) == needed(*module, roots@, Item::Constant(h)));
        }
        assert forall|h: usize| kept.globals.contains(h) == want.globals.contains(h) by {
            assert(kept.has(Item::Global(h)) == needed(*module, roots@, Item::Global(h)));
        }
        assert(kept.types =~= want.types);
        assert(kept.constants =~= want.constants);
        assert(kept.globals =~= want.globals);
    }
    Some(keep)
}

} // verus!
