//! Types, constants and global variables of a pruned module.
use crate::ir::{
    ArraySize, Constant, ConstantInner, GlobalVariable, Module, StructMember, Type, TypeInner,
};
use crate::prune::copy_name;
use crate::remap::{
    compacted, lemma_compacted_step, lemma_rank, maps, maps_each, moved_opt, new_handle, new_opt,
    rank, HandleMaps, Handles,
};
use crate::uses::{
    complete, constant_items, exists_in, global_items, items_of, kept_for, lemma_used_needed,
    member_items, needed, type_items, Item,
};
use std::collections::{HashMap, HashSet};
use vstd::prelude::*;

verus! {

impl Handles {
    /// Whether an item has a new handle.
    pub open spec fn has(self, item: Item) -> bool {
        match item {
            Item::Type(h) => self.types.contains_key(h),
            Item::Constant(h) => self.constants.contains_key(h),
            Item::Global(h) => self.globals.contains_key(h),
        }
    }

    /// Whether each of the items has a new handle.
    pub open spec fn has_all(self, items: Seq<Item>) -> bool {
        forall|item: Item| #[trigger] items.contains(item) ==> self.has(item)
    }
}

/// The size of an array with the new handle of its constant.
pub open spec fn moved_size(size: ArraySize, handles: Handles) -> ArraySize {
    match size {
        ArraySize::Constant(c) => ArraySize::Constant(handles.constants[c]),
        ArraySize::Dynamic => ArraySize::Dynamic,
    }
}

/// The members of a structure with the new handles of their types.
pub open spec fn moved_members(members: Seq<StructMember>, handles: Handles) -> Seq<StructMember> {
    Seq::new(
        members.len(),
        |i: int| StructMember { ty: handles.types[members[i].ty], ..members[i] },
    )
}

/// Whether `new` is the type with the new handles of what it uses.
pub open spec fn type_moved(ty: Type, handles: Handles, new: Type) -> bool {
    &&& new.name == ty.name
    &&& match ty.inner {
        TypeInner::Pointer { base, space } => new.inner == (TypeInner::Pointer {
            base: handles.types[base],
            space,
        }),
        TypeInner::Array { base, size, stride } => new.inner == (TypeInner::Array {
            base: handles.types[base],
            size: moved_size(size, handles),
            stride,
        }),
        TypeInner::BindingArray { base, size } => new.inner == (TypeInner::BindingArray {
            base: handles.types[base],
            size: moved_size(size, handles),
        }),
        TypeInner::Struct { members, span } => {
            &&& new.inner matches TypeInner::Struct { members: new_members, span: new_span }
            &&& new_members@ == moved_members(members@, handles)
            &&& new_span == span
        },
        inner => new.inner == inner,
    }
}

/// Whether `new` is the constant with the new handles of what it uses.
pub open spec fn constant_moved(constant: Constant, handles: Handles, new: Constant) -> bool {
    &&& new.name == constant.name
    &&& new.specialization == constant.specialization
    &&& match constant.inner {
        ConstantInner::Composite { ty, components } => {
            &&& new.inner matches ConstantInner::Composite {
                ty: new_ty,
                components: new_components,
            }
            &&& new_ty == handles.types[ty]
            &&& maps_each(handles.constants, components@, new_components@)
        },
        inner => new.inner == inner,
    }
}

/// The global variable with the new handles of what it uses.
pub open spec fn moved_global(global: GlobalVariable, handles: Handles) -> GlobalVariable {
    GlobalVariable {
        ty: handles.types[global.ty],
        init: moved_opt(global.init, handles.constants),
        ..global
    }
}

/// Whether `new` are the kept types, in their order, with new handles.
pub open spec fn types_moved(
    kept: Set<usize>,
    types: Seq<Type>,
    n: nat,
    handles: Handles,
    new: Seq<Type>,
) -> bool {
    &&& new.len() == rank(kept, n)
    &&& forall|h: usize|
        h < n && #[trigger] kept.contains(h) ==> type_moved(
            types[h as int],
            handles,
            new[rank(kept, h as nat) as int],
        )
}

/// Whether `new` are the kept constants, in their order, with new handles.
pub open spec fn constants_moved(
    kept: Set<usize>,
    constants: Seq<Constant>,
    n: nat,
    handles: Handles,
    new: Seq<Constant>,
) -> bool {
    &&& new.len() == rank(kept, n)
    &&& forall|h: usize|
        h < n && #[trigger] kept.contains(h) ==> constant_moved(
            constants[h as int],
            handles,
            new[rank(kept, h as nat) as int],
        )
}

/// Whether `new` are the kept global variables, in their order, with new
/// handles.
pub open spec fn globals_moved(
    kept: Set<usize>,
    globals: Seq<GlobalVariable>,
    n: nat,
    handles: Handles,
    new: Seq<GlobalVariable>,
) -> bool {
    &&& new.len() == rank(kept, n)
    &&& forall|h: usize|
        h < n && #[trigger] kept.contains(h) ==> new[rank(kept, h as nat) as int] == moved_global(
            globals[h as int],
            handles,
        )
}

/// The new handles of a kept set of handles below `n`.
pub fn compact(kept: &HashSet<usize>, n: usize) -> (map: HashMap<usize, usize>)
    ensures
        map@ == compacted(kept@, n as nat),
{
    let mut map: HashMap<usize, usize> = HashMap::new();
    assert(map@ =~= compacted(kept@, 0));
    let mut count: usize = 0;
    let mut h: usize = 0;
    while h < n
        invariant
            h <= n,
            count == rank(kept@, h as nat),
            count <= h,
            map@ == compacted(kept@, h as nat),
        decreases n - h,
    {
        proof {
            lemma_compacted_step(kept@, h);
        }
        if kept.contains(&h) {
            map.insert(h, count);
            count = count + 1;
        }
        h = h + 1;
    }
    map
}

/// The size of an array with the new handle of its constant.
fn move_size(size: &ArraySize, handles: &HandleMaps) -> (r: ArraySize)
    requires
        *size matches ArraySize::Constant(c) ==> handles@.constants.contains_key(c),
    ensures
        r == moved_size(*size, handles@),
{
    match size {
        ArraySize::Constant(c) => ArraySize::Constant(new_handle(&handles.constants, *c).unwrap()),
        ArraySize::Dynamic => ArraySize::Dynamic,
    }
}

/// The type with the new handles of what it uses.
fn move_type(ty: &Type, handles: &HandleMaps) -> (new: Type)
    requires
        handles@.has_all(type_items(ty.inner)),
    ensures
        type_moved(*ty, handles@, new),
{
    let ghost items = type_items(ty.inner);
    let inner = match &ty.inner {
        TypeInner::Pointer { base, space } => {
            assert(items[0] == Item::Type(*base) && items.contains(items[0]));
            TypeInner::Pointer {
                base: new_handle(&handles.types, *base).unwrap(),
                space: *space,
            }
        },
        TypeInner::Array { base, size, stride } => {
            assert(items[0] == Item::Type(*base) && items.contains(items[0]));
            proof {
                if let ArraySize::Constant(c) = size {
                    assert(items[1] == Item::Constant(*c) && items.contains(items[1]));
                }
            }
            TypeInner::Array {
                base: new_handle(&handles.types, *base).unwrap(),
                size: move_size(size, handles),
                stride: *stride,
            }
        },
        TypeInner::BindingArray { base, size } => {
            assert(items[0] == Item::Type(*base) && items.contains(items[0]));
            proof {
                if let ArraySize::Constant(c) = size {
                    assert(items[1] == Item::Constant(*c) && items.contains(items[1]));
                }
            }
            TypeInner::BindingArray {
                base: new_handle(&handles.types, *base).unwrap(),
                size: move_size(size, handles),
            }
        },
        TypeInner::Struct { members, span } => {
            let ghost all = moved_members(members@, handles@);
            let mut new_members: Vec<StructMember> = Vec::new();
            let mut i: usize = 0;
            while i < members.len()
                invariant
                    i <= members.len(),
                    items == member_items(members@),
                    handles@.has_all(items),
                    all == moved_members(members@, handles@),
                    new_members.len() == i,
                    forall|j: int| 0 <= j < i ==> #[trigger] new_members[j] == all[j],
                decreases members.len() - i,
            {
                let member = &members[i];
                assert(items[i as int] == Item::Type(member.ty) && items.contains(
                    items[i as int],
                ));
                new_members.push(
                    StructMember {
                        name: copy_name(&member.name),
                        ty: new_handle(&handles.types, member.ty).unwrap(),
                        binding: member.binding,
                        offset: member.offset,
                    },
                );
                i = i + 1;
            }
            assert(new_members@ =~= all);
            TypeInner::Struct { members: new_members, span: *span }
        },
        TypeInner::Scalar { kind, width } => TypeInner::Scalar { kind: *kind, width: *width },
        TypeInner::Vector { size, kind, width } => TypeInner::Vector {
            size: *size,
            kind: *kind,
            width: *width,
        },
        TypeInner::Matrix { columns, rows, width } => TypeInner::Matrix {
            columns: *columns,
            rows: *rows,
            width: *width,
        },
        TypeInner::Atomic { kind, width } => TypeInner::Atomic { kind: *kind, width: *width },
        TypeInner::ValuePointer { size, kind, width, space } => TypeInner::ValuePointer {
            size: *size,
            kind: *kind,
            width: *width,
            space: *space,
        },
        TypeInner::Image { dim, arrayed, class } => TypeInner::Image {
            dim: *dim,
            arrayed: *arrayed,
            class: *class,
        },
        TypeInner::Sampler { comparison } => TypeInner::Sampler { comparison: *comparison },
    };
    Type { name: copy_name(&ty.name), inner }
}

/// The constant with the new handles of what it uses.
fn move_constant(constant: &Constant, handles: &HandleMaps) -> (new: Constant)
    requires
        handles@.has_all(constant_items(constant.inner)),
    ensures
        constant_moved(*constant, handles@, new),
{
    let ghost items = constant_items(constant.inner);
    let inner = match &constant.inner {
        ConstantInner::Composite { ty, components } => {
            let mut new_components: Vec<usize> = Vec::new();
            let mut i: usize = 0;
            while i < components.len()
                invariant
                    i <= components.len(),
                    items == constant_items(
                        ConstantInner::Composite { ty: *ty, components: *components },
                    ),
                    handles@.has_all(items),
                    new_components.len() == i,
                    forall|j: int|
                        0 <= j < i ==> maps(
                            handles@.constants,
                            components@[j],
                            #[trigger] new_components@[j],
                        ),
                decreases components.len() - i,
            {
                assert(items[i as int] == Item::Constant(components@[i as int]) && items.contains(
                    items[i as int],
                ));
                new_components.push(new_handle(&handles.constants, components[i]).unwrap());
                i = i + 1;
            }
            assert(items.last() == Item::Type(*ty) && items.contains(items.last()));
            ConstantInner::Composite {
                ty: new_handle(&handles.types, *ty).unwrap(),
                components: new_components,
            }
        },
        ConstantInner::Scalar { width, value } => ConstantInner::Scalar {
            width: *width,
            value: *value,
        },
    };
    Constant { name: copy_name(&constant.name), specialization: constant.specialization, inner }
}

/// The global variable with the new handles of what it uses.
fn move_global(global: &GlobalVariable, handles: &HandleMaps) -> (new: GlobalVariable)
    requires
        handles@.has_all(global_items(*global)),
    ensures
        new == moved_global(*global, handles@),
{
    let ghost items = global_items(*global);
    assert(items[0] == Item::Type(global.ty) && items.contains(items[0]));
    proof {
        if let Some(c) = global.init {
            assert(items[1] == Item::Constant(c) && items.contains(items[1]));
        }
    }
    GlobalVariable {
        name: copy_name(&global.name),
        space: global.space,
        binding: global.binding,
        ty: new_handle(&handles.types, global.ty).unwrap(),
        init: new_opt(&handles.constants, &global.init).unwrap(),
    }
}

/// Whether `handles` are the new handles of what `roots` need of the module.
pub open spec fn handles_for(module: Module, roots: Seq<Item>, handles: Handles) -> bool {
    let kept = kept_for(module, roots);
    &&& handles.types == compacted(kept.types, module.types@.len())
    &&& handles.constants == compacted(kept.constants, module.constants@.len())
    &&& handles.globals == compacted(kept.globals, module.global_variables@.len())
}

/// All that a needed item uses has a new handle.
pub proof fn lemma_has_used(module: Module, roots: Seq<Item>, handles: Handles, user: Item)
    requires
        complete(module, roots),
        handles_for(module, roots, handles),
        needed(module, roots, user),
    ensures
        handles.has_all(items_of(module, user)),
{
    assert forall|item: Item| #[trigger] items_of(module, user).contains(item) implies handles.has(
        item,
    ) by {
        lemma_used_needed(module, roots, user, item);
        assert(exists_in(module, item));
    }
}

/// The kept types, in their order, with new handles.
pub(crate) fn move_types(
    module: &Module,
    kept: &HashSet<usize>,
    handles: &HandleMaps,
    Ghost(roots): Ghost<Seq<Item>>,
) -> (new: Vec<Type>)
    requires
        complete(*module, roots),
        kept@ == kept_for(*module, roots).types,
        handles_for(*module, roots, handles@),
    ensures
        types_moved(kept@, module.types@, module.types@.len(), handles@, new@),
{
    let mut new: Vec<Type> = Vec::new();
    let mut h: usize = 0;
    while h < module.types.len()
        invariant
            h <= module.types.len(),
            complete(*module, roots),
            kept@ == kept_for(*module, roots).types,
            handles_for(*module, roots, handles@),
            types_moved(kept@, module.types@, h as nat, handles@, new@),
        decreases module.types.len() - h,
    {
        if kept.contains(&h) {
            proof {
                lemma_has_used(*module, roots, handles@, Item::Type(h));
            }
            new.push(move_type(&module.types[h], handles));
            assert forall|g: usize| g < h + 1 && #[trigger] kept@.contains(g) implies type_moved(
                module.types@[g as int],
                handles@,
                new@[rank(kept@, g as nat) as int],
            ) by {
                if g < h {
                    lemma_rank(kept@, g as nat, h as nat);
                }
            }
        }
        h = h + 1;
    }
    new
}

/// The kept constants, in their order, with new handles.
pub(crate) fn move_constants(
    module: &Module,
    kept: &HashSet<usize>,
    handles: &HandleMaps,
    Ghost(roots): Ghost<Seq<Item>>,
) -> (new: Vec<Constant>)
    requires
        complete(*module, roots),
        kept@ == kept_for(*module, roots).constants,
        handles_for(*module, roots, handles@),
    ensures
        constants_moved(kept@, module.constants@, module.constants@.len(), handles@, new@),
{
    let mut new: Vec<Constant> = Vec::new();
    let mut h: usize = 0;
    while h < module.constants.len()
        invariant
            h <= module.constants.len(),
            complete(*module, roots),
            kept@ == kept_for(*module, roots).constants,
            handles_for(*module, roots, handles@),
            constants_moved(kept@, module.constants@, h as nat, handles@, new@),
        decreases module.constants.len() - h,
    {
        if kept.contains(&h) {
            proof {
                lemma_has_used(*module, roots, handles@, Item::Constant(h));
            }
            new.push(move_constant(&module.constants[h], handles));
            assert forall|g: usize|
                g < h + 1 && #[trigger] kept@.contains(g) implies constant_moved(
                module.constants@[g as int],
                handles@,
                new@[rank(kept@, g as nat) as int],
            ) by {
                if g < h {
                    lemma_rank(kept@, g as nat, h as nat);
                }
            }
        }
        h = h + 1;
    }
    new
}

/// The kept global variables, in their order, with new handles.
pub(crate) fn move_globals(
    module: &Module,
    kept: &HashSet<usize>,
    handles: &HandleMaps,
    Ghost(roots): Ghost<Seq<Item>>,
) -> (new: Vec<GlobalVariable>)
    requires
        complete(*module, roots),
        kept@ == kept_for(*module, roots).globals,
        handles_for(*module, roots, handles@),
    ensures
        globals_moved(
            kept@,
            module.global_variables@,
            module.global_variables@.len(),
            handles@,
            new@,
        ),
{
    let mut new: Vec<GlobalVariable> = Vec::new();
    let mut h: usize = 0;
    while h < module.global_variables.len()
        invariant
            h <= module.global_variables.len(),
            complete(*module, roots),
            kept@ == kept_for(*module, roots).globals,
            handles_for(*module, roots, handles@),
            globals_moved(kept@, module.global_variables@, h as nat, handles@, new@),
        decreases module.global_variables.len() - h,
    {
        if kept.contains(&h) {
            proof {
                lemma_has_used(*module, roots, handles@, Item::Global(h));
            }
            new.push(move_global(&module.global_variables[h], handles));
            assert forall|g: usize| g < h + 1 && #[trigger] kept@.contains(g) implies new@[rank(
                kept@,
                g as nat,
            ) as int] == moved_global(module.global_variables@[g as int], handles@) by {
                if g < h {
                    lemma_rank(kept@, g as nat, h as nat);
                }
            }
        }
        h = h + 1;
    }
    new
}

} // verus!
