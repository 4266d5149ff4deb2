//! Laws of the types, constants and global variables that are kept: what the
//! kept functions and entry points name, what that uses in turn, and nothing
//! else.
use crate::ir::{
    ArraySize, ConstantInner, EntryPoint, Expression, Function, LocalVariable, Module, TypeInner,
};
use crate::need::FnNeed;
use crate::rewrite::{
    entry_roots, function_roots, kept_functions, module_rewritable, new_handles, roots,
};
use crate::uses::{
    and_exprs, and_function, and_locals, and_result, and_size, argument_items, exists_in, items_of,
    lemma_root_needed, lemma_used_needed, needed, reached, Item,
};
use vstd::prelude::*;

verus! {

/// Whether an expression names the item.
pub open spec fn expr_names(expr: Expression, item: Item) -> bool {
    match item {
        Item::Type(t) => expr matches Expression::Compose { ty, .. } && ty == t,
        Item::Constant(c) => expr == Expression::Constant(c) || (
        expr matches Expression::ImageSample { offset, .. } && offset == Some(c)),
        Item::Global(g) => expr == Expression::GlobalVariable(g),
    }
}

/// Whether a local variable names the item.
pub open spec fn local_names(local: LocalVariable, item: Item) -> bool {
    match item {
        Item::Type(t) => local.ty == t,
        Item::Constant(c) => local.init == Some(c),
        Item::Global(_) => false,
    }
}

/// Whether one of the first `n` expressions that are required names the item.
pub open spec fn exprs_name(
    exprs: Seq<Expression>,
    required: Set<usize>,
    n: nat,
    item: Item,
) -> bool {
    exists|h: usize|
        h < n && #[trigger] required.contains(h) && expr_names(exprs[h as int], item)
}

/// Whether one of the first `n` local variables that are required names the
/// item.
pub open spec fn locals_name(
    locals: Seq<LocalVariable>,
    required: Set<usize>,
    n: nat,
    item: Item,
) -> bool {
    exists|h: usize|
        h < n && #[trigger] required.contains(h) && local_names(locals[h as int], item)
}

/// Whether a function that is pruned to `need` names the item: as the type of
/// an argument or of its required result, or by a required local variable or
/// expression.
pub open spec fn function_names(need: FnNeed, function: Function, item: Item) -> bool {
    ||| exists|i: int|
        0 <= i < function.arguments@.len() && item == Item::Type(
            (#[trigger] function.arguments@[i]).ty,
        )
    ||| need.body.context.retval is Some && function.result is Some && item == Item::Type(
        function.result->0.ty,
    )
    ||| locals_name(
        function.local_variables@,
        need.body.context.locals.dom(),
        function.local_variables@.len(),
        item,
    )
    ||| exprs_name(
        function.expressions@,
        need.exprs.dom(),
        function.expressions@.len(),
        item,
    )
}

/// Whether a type, constant or global variable of the module names the item.
pub open spec fn item_names(module: Module, user: Item, item: Item) -> bool {
    match user {
        Item::Type(h) => h < module.types.len() && match module.types[h as int].inner {
            TypeInner::Pointer { base, .. } => item == Item::Type(base),
            TypeInner::Array { base, size, .. } => item == Item::Type(base) || (
            size matches ArraySize::Constant(c) && item == Item::Constant(c)),
            TypeInner::BindingArray { base, size } => item == Item::Type(base) || (
            size matches ArraySize::Constant(c) && item == Item::Constant(c)),
            TypeInner::Struct { members, .. } => exists|i: int|
                0 <= i < members@.len() && item == Item::Type((#[trigger] members@[i]).ty),
            _ => false,
        },
        Item::Constant(h) => h < module.constants.len() && match module.constants[h as int].inner {
            ConstantInner::Composite { ty, components } => item == Item::Type(ty) || exists|i: int|
                0 <= i < components@.len() && item == Item::Constant(#[trigger] components@[i]),
            ConstantInner::Scalar { .. } => false,
        },
        Item::Global(h) => h < module.global_variables.len() && {
            let global = module.global_variables[h as int];
            item == Item::Type(global.ty) || (global.init matches Some(c) && item
                == Item::Constant(c))
        },
    }
}

/// One item more.
proof fn lemma_push_contains(items: Seq<Item>, last: Item, item: Item)
    ensures
        items.push(last).contains(item) <==> items.contains(item) || item == last,
{
    let longer = items.push(last);
    if items.contains(item) {
        let i = choose|i: int| 0 <= i < items.len() && items[i] == item;
        assert(longer[i] == item);
    }
    if item == last {
        assert(longer[items.len() as int] == item);
    }
    if longer.contains(item) {
        let i = choose|i: int| 0 <= i < longer.len() && longer[i] == item;
        if i < items.len() {
            assert(items[i] == item);
        }
    }
}

/// What the required expressions name.
proof fn lemma_and_exprs(
    items: Seq<Item>,
    exprs: Seq<Expression>,
    required: Set<usize>,
    n: nat,
    item: Item,
)
    requires
        n <= exprs.len() <= usize::MAX,
    ensures
        and_exprs(items, exprs, required, n).contains(item) <==> items.contains(item)
            || exprs_name(exprs, required, n, item),
    decreases n,
{
    if n > 0 {
        let m = (n - 1) as nat;
        lemma_and_exprs(items, exprs, required, m, item);
        let before = and_exprs(items, exprs, required, m);
        let h = m as usize;
        if exprs_name(exprs, required, m, item) {
            let g = choose|g: usize|
                g < m && #[trigger] required.contains(g) && expr_names(exprs[g as int], item);
            assert(g < n && required.contains(g));
        }
        if required.contains(h) {
            match exprs[m as int] {
                Expression::Constant(c) => lemma_push_contains(before, Item::Constant(c), item),
                Expression::Compose { ty, .. } => lemma_push_contains(before, Item::Type(ty), item),
                Expression::GlobalVariable(gv) => lemma_push_contains(
                    before,
                    Item::Global(gv),
                    item,
                ),
                Expression::ImageSample { offset: Some(c), .. } => lemma_push_contains(
                    before,
                    Item::Constant(c),
                    item,
                ),
                _ => {},
            }
        }
    }
}

/// What the required local variables name.
proof fn lemma_and_locals(
    items: Seq<Item>,
    locals: Seq<LocalVariable>,
    required: Set<usize>,
    n: nat,
    item: Item,
)
    requires
        n <= locals.len() <= usize::MAX,
    ensures
        and_locals(items, locals, required, n).contains(item) <==> items.contains(item)
            || locals_name(locals, required, n, item),
    decreases n,
{
    if n > 0 {
        let m = (n - 1) as nat;
        lemma_and_locals(items, locals, required, m, item);
        let before = and_locals(items, locals, required, m);
        let h = m as usize;
        if locals_name(locals, required, m, item) {
            let g = choose|g: usize|
                g < m && #[trigger] required.contains(g) && local_names(locals[g as int], item);
            assert(g < n && required.contains(g));
        }
        if required.contains(h) {
            let local = locals[m as int];
            lemma_push_contains(before, Item::Type(local.ty), item);
            if let Some(c) = local.init {
                lemma_push_contains(before.push(Item::Type(local.ty)), Item::Constant(c), item);
            }
        }
    }
}

/// What a function names once it has been pruned.
proof fn lemma_and_function(items: Seq<Item>, need: FnNeed, function: Function, item: Item)
    ensures
        and_function(items, need, function).contains(item) <==> items.contains(item)
            || function_names(need, function, item),
{
    let of_arguments = items + argument_items(function.arguments@);
    let args = argument_items(function.arguments@);
    assert(of_arguments.contains(item) <==> items.contains(item) || args.contains(item)) by {
        if items.contains(item) {
            let i = choose|i: int| 0 <= i < items.len() && items[i] == item;
            assert(of_arguments[i] == item);
        }
        if args.contains(item) {
            let i = choose|i: int| 0 <= i < args.len() && args[i] == item;
            assert(of_arguments[items.len() + i] == item);
        }
        if of_arguments.contains(item) {
            let i = choose|i: int| 0 <= i < of_arguments.len() && of_arguments[i] == item;
            if i < items.len() {
                assert(items[i] == item);
            } else {
                assert(args[i - items.len()] == item);
            }
        }
    }
    if args.contains(item) {
        let i = choose|i: int| 0 <= i < args.len() && args[i] == item;
        assert(item == Item::Type(function.arguments@[i].ty));
    }
    if exists|i: int|
        0 <= i < function.arguments@.len() && item == Item::Type(
            (#[trigger] function.arguments@[i]).ty,
        ) {
        let i = choose|i: int|
            0 <= i < function.arguments@.len() && item == Item::Type(
                (#[trigger] function.arguments@[i]).ty,
            );
        assert(args[i] == item);
    }
    let result = if need.body.context.retval is Some {
        function.result
    } else {
        None
    };
    let of_result = and_result(of_arguments, result);
    if let Some(result) = result {
        lemma_push_contains(of_arguments, Item::Type(result.ty), item);
    }
    let locals = function.local_variables@;
    assert(locals.len() == function.local_variables.len());
    let required = need.body.context.locals.dom();
    lemma_and_locals(of_result, locals, required, locals.len(), item);
    let of_locals = and_locals(of_result, locals, required, locals.len());
    let exprs = function.expressions@;
    assert(exprs.len() == function.expressions.len());
    lemma_and_exprs(of_locals, exprs, need.exprs.dom(), exprs.len(), item);
}

/// Whether one of the first `n` functions whose bodies are required names the
/// item.
pub open spec fn a_function_names(
    functions: Map<usize, FnNeed>,
    source: Seq<Function>,
    n: nat,
    item: Item,
) -> bool {
    exists|h: usize|
        h < n && #[trigger] functions.contains_key(h) && functions[h].body.is_required()
            && function_names(functions[h], source[h as int], item)
}

/// Whether one of the first `n` entry points of which something is required
/// names the item.
pub open spec fn an_entry_names(
    entries: Map<Seq<char>, FnNeed>,
    source: Seq<EntryPoint>,
    n: nat,
    item: Item,
) -> bool {
    exists|i: int|
        0 <= i < n && entries.contains_key((#[trigger] source[i]).name@) && function_names(
            entries[source[i].name@],
            source[i].function,
            item,
        )
}

/// What the kept functions name.
proof fn lemma_function_roots(
    functions: Map<usize, FnNeed>,
    source: Seq<Function>,
    n: nat,
    item: Item,
)
    requires
        n <= source.len() <= usize::MAX,
    ensures
        function_roots(functions, source, n).contains(item) <==> a_function_names(
            functions,
            source,
            n,
            item,
        ),
    decreases n,
{
    if n > 0 {
        let m = (n - 1) as nat;
        lemma_function_roots(functions, source, m, item);
        let before = function_roots(functions, source, m);
        let h = m as usize;
        if a_function_names(functions, source, m, item) {
            let g = choose|g: usize|
                g < m && #[trigger] functions.contains_key(g) && functions[g].body.is_required()
                    && function_names(functions[g], source[g as int], item);
            assert(g < n && functions.contains_key(g));
        }
        if kept_functions(functions).contains(h) {
            lemma_and_function(before, functions[h], source[m as int], item);
        }
    }
}

/// What the kept entry points name.
proof fn lemma_entry_roots(
    items: Seq<Item>,
    entries: Map<Seq<char>, FnNeed>,
    source: Seq<EntryPoint>,
    n: nat,
    item: Item,
)
    requires
        n <= source.len(),
    ensures
        entry_roots(items, entries, source, n).contains(item) <==> items.contains(item)
            || an_entry_names(entries, source, n, item),
    decreases n,
{
    if n > 0 {
        let m = (n - 1) as nat;
        lemma_entry_roots(items, entries, source, m, item);
        let before = entry_roots(items, entries, source, m);
        if an_entry_names(entries, source, m, item) {
            let i = choose|i: int|
                0 <= i < m && entries.contains_key((#[trigger] source[i]).name@)
                    && function_names(entries[source[i].name@], source[i].function, item);
            assert(i < n && entries.contains_key(source[i].name@));
        }
        let entry = source[m as int];
        if entries.contains_key(entry.name@) {
            lemma_and_function(before, entries[entry.name@], entry.function, item);
        }
    }
}

/// What an item of the module uses is what it names.
proof fn lemma_items_of(module: Module, user: Item, item: Item)
    ensures
        items_of(module, user).contains(item) <==> item_names(module, user, item),
{
    let items = items_of(module, user);
    match user {
        Item::Type(h) => if h < module.types.len() {
            match module.types[h as int].inner {
                TypeInner::Pointer { base, .. } => {
                    assert(items[0] == Item::Type(base));
                },
                TypeInner::Array { base, size, .. } => lemma_size_items(base, size, item),
                TypeInner::BindingArray { base, size } => lemma_size_items(base, size, item),
                TypeInner::Struct { members, .. } => {
                    if items.contains(item) {
                        let i = choose|i: int| 0 <= i < items.len() && items[i] == item;
                        assert(item == Item::Type(members@[i].ty));
                    }
                    if item_names(module, user, item) {
                        let i = choose|i: int|
                            0 <= i < members@.len() && item == Item::Type(
                                (#[trigger] members@[i]).ty,
                            );
                        assert(items[i] == item);
                    }
                },
                _ => {},
            }
        },
        Item::Constant(h) => if h < module.constants.len() {
            if let ConstantInner::Composite { ty, components } = module.constants[h as int].inner {
                let first = Seq::new(components@.len(), |i: int| Item::Constant(components@[i]));
                lemma_push_contains(first, Item::Type(ty), item);
                if first.contains(item) {
                    let i = choose|i: int| 0 <= i < first.len() && first[i] == item;
                    assert(item == Item::Constant(components@[i]));
                }
                if exists|i: int|
                    0 <= i < components@.len() && item == Item::Constant(
                        #[trigger] components@[i],
                    ) {
                    let i = choose|i: int|
                        0 <= i < components@.len() && item == Item::Constant(
                            #[trigger] components@[i],
                        );
                    assert(first[i] == item);
                }
            }
        },
        Item::Global(h) => if h < module.global_variables.len() {
            let global = module.global_variables[h as int];
            let first = seq![Item::Type(global.ty)];
            assert(first[0] == Item::Type(global.ty));
            if let Some(c) = global.init {
                lemma_push_contains(first, Item::Constant(c), item);
            }
        },
    }
}

/// What an array uses.
proof fn lemma_size_items(base: usize, size: ArraySize, item: Item)
    ensures
        and_size(seq![Item::Type(base)], size).contains(item) <==> item == Item::Type(base) || (
        size matches ArraySize::Constant(c) && item == Item::Constant(c)),
{
    let first = seq![Item::Type(base)];
    assert(first[0] == Item::Type(base));
    if let ArraySize::Constant(c) = size {
        lemma_push_contains(first, Item::Constant(c), item);
    }
}

/// What is needed is a root, or used by something that is needed.
proof fn lemma_needed_by(module: Module, items: Seq<Item>, k: nat, item: Item) -> (user: Item)
    requires
        reached(module, items, k, item),
    ensures
        items.contains(item) || (needed(module, items, user) && items_of(module, user).contains(
            item,
        )),
    decreases k,
{
    if k == 0 {
        item
    } else if reached(module, items, (k - 1) as nat, item) {
        lemma_needed_by(module, items, (k - 1) as nat, item)
    } else {
        let user = choose|user: Item|
            reached(module, items, (k - 1) as nat, user) && #[trigger] items_of(
                module,
                user,
            ).contains(item);
        assert(needed(module, items, user));
        user
    }
}

/// Whether an item of the module is kept: it has a new handle.
pub open spec fn is_kept(
    functions: Map<usize, FnNeed>,
    entries: Map<Seq<char>, FnNeed>,
    source: Module,
    item: Item,
) -> bool {
    let handles = new_handles(functions, entries, source);
    match item {
        Item::Type(h) => handles.types.contains_key(h),
        Item::Constant(h) => handles.constants.contains_key(h),
        Item::Global(h) => handles.globals.contains_key(h),
    }
}

/// What a kept function or entry point names is kept, and so is what a kept
/// type, constant or global variable names.
pub proof fn law_named_kept(
    functions: Map<usize, FnNeed>,
    entries: Map<Seq<char>, FnNeed>,
    source: Module,
    user: Item,
    item: Item,
)
    requires
        module_rewritable(functions, entries, source),
        a_function_names(functions, source.functions@, source.functions@.len(), item)
            || an_entry_names(entries, source.entry_points@, source.entry_points@.len(), item) || (
        is_kept(functions, entries, source, user) && item_names(source, user, item)),
    ensures
        is_kept(functions, entries, source, item),
{
    let items = roots(functions, entries, source);
    lemma_roots(functions, entries, source, item);
    if items.contains(item) {
        lemma_root_needed(source, items, item);
    } else {
        lemma_items_of(source, user, item);
        lemma_used_needed(source, items, user, item);
    }
    assert(needed(source, items, item));
    assert(exists_in(source, item));
}

/// The roots are what the kept functions and entry points name.
proof fn lemma_roots(
    functions: Map<usize, FnNeed>,
    entries: Map<Seq<char>, FnNeed>,
    source: Module,
    item: Item,
)
    ensures
        roots(functions, entries, source).contains(item) <==> a_function_names(
            functions,
            source.functions@,
            source.functions@.len(),
            item,
        ) || an_entry_names(entries, source.entry_points@, source.entry_points@.len(), item),
{
    assert(source.functions@.len() == source.functions.len());
    lemma_function_roots(functions, source.functions@, source.functions@.len(), item);
    lemma_entry_roots(
        function_roots(functions, source.functions@, source.functions@.len()),
        entries,
        source.entry_points@,
        source.entry_points@.len(),
        item,
    );
}

/// What is kept is named by a kept function or entry point, or by a kept type,
/// constant or global variable. A global variable is named by a function or
/// entry point.
pub proof fn law_kept_named(
    functions: Map<usize, FnNeed>,
    entries: Map<Seq<char>, FnNeed>,
    source: Module,
    item: Item,
)
    requires
        module_rewritable(functions, entries, source),
        is_kept(functions, entries, source, item),
    ensures
        ({
            ||| a_function_names(functions, source.functions@, source.functions@.len(), item)
            ||| an_entry_names(entries, source.entry_points@, source.entry_points@.len(), item)
            ||| !(item is Global) && exists|user: Item|
                is_kept(functions, entries, source, user) && #[trigger] item_names(
                    source,
                    user,
                    item,
                )
        }),
{
    let items = roots(functions, entries, source);
    lemma_roots(functions, entries, source, item);
    assert(needed(source, items, item));
    let k = choose|k: nat| reached(source, items, k, item);
    let user = lemma_needed_by(source, items, k, item);
    if !items.contains(item) {
        lemma_items_of(source, user, item);
        assert(needed(source, items, user));
        assert(exists_in(source, user));
        assert(is_kept(functions, entries, source, user) && item_names(source, user, item));
    }
}

} // verus!
