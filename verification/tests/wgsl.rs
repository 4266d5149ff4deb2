//! Shaders from their source text to their pruned text.
use naga::back::wgsl::{write_string, WriterFlags};
use naga::front::wgsl::parse_str;
use naga::valid::{Capabilities, ValidationFlags, Validator};
use naga::{Arena, Handle, Span, UniqueArena};
use naga_prune::ir;
use naga_prune::live::Pruner;
use naga_prune::part::PartReq;
use std::collections::{BTreeMap, HashMap};

fn index<T>(h: &Handle<T>) -> usize {
    h.index()
}

fn opt_index<T>(h: &Option<Handle<T>>) -> Option<usize> {
    h.map(|h| h.index())
}

fn indices<T>(handles: &[Handle<T>]) -> Vec<usize> {
    handles.iter().map(index).collect()
}

fn to_size(size: naga::VectorSize) -> ir::VectorSize {
    match size {
        naga::VectorSize::Bi => ir::VectorSize::Bi,
        naga::VectorSize::Tri => ir::VectorSize::Tri,
        naga::VectorSize::Quad => ir::VectorSize::Quad,
    }
}

fn from_size(size: ir::VectorSize) -> naga::VectorSize {
    match size {
        ir::VectorSize::Bi => naga::VectorSize::Bi,
        ir::VectorSize::Tri => naga::VectorSize::Tri,
        ir::VectorSize::Quad => naga::VectorSize::Quad,
    }
}

fn to_component(component: naga::SwizzleComponent) -> ir::SwizzleComponent {
    match component {
        naga::SwizzleComponent::X => ir::SwizzleComponent::X,
        naga::SwizzleComponent::Y => ir::SwizzleComponent::Y,
        naga::SwizzleComponent::Z => ir::SwizzleComponent::Z,
        naga::SwizzleComponent::W => ir::SwizzleComponent::W,
    }
}

fn from_component(component: ir::SwizzleComponent) -> naga::SwizzleComponent {
    match component {
        ir::SwizzleComponent::X => naga::SwizzleComponent::X,
        ir::SwizzleComponent::Y => naga::SwizzleComponent::Y,
        ir::SwizzleComponent::Z => naga::SwizzleComponent::Z,
        ir::SwizzleComponent::W => naga::SwizzleComponent::W,
    }
}

fn to_binding(binding: &naga::Binding) -> ir::Binding {
    match *binding {
        naga::Binding::BuiltIn(built_in) => ir::Binding::BuiltIn(built_in),
        naga::Binding::Location {
            location,
            interpolation,
            sampling,
        } => ir::Binding::Location {
            location,
            interpolation,
            sampling,
        },
    }
}

fn from_binding(binding: &ir::Binding) -> naga::Binding {
    match *binding {
        ir::Binding::BuiltIn(built_in) => naga::Binding::BuiltIn(built_in),
        ir::Binding::Location {
            location,
            interpolation,
            sampling,
        } => naga::Binding::Location {
            location,
            interpolation,
            sampling,
        },
    }
}

fn to_array_size(size: &naga::ArraySize) -> ir::ArraySize {
    match size {
        naga::ArraySize::Constant(c) => ir::ArraySize::Constant(c.index()),
        naga::ArraySize::Dynamic => ir::ArraySize::Dynamic,
    }
}

fn to_type(ty: &naga::Type) -> ir::Type {
    let inner = match &ty.inner {
        naga::TypeInner::Scalar { kind, width } => ir::TypeInner::Scalar {
            kind: *kind,
            width: *width,
        },
        naga::TypeInner::Vector { size, kind, width } => ir::TypeInner::Vector {
            size: to_size(*size),
            kind: *kind,
            width: *width,
        },
        naga::TypeInner::Matrix {
            columns,
            rows,
            width,
        } => ir::TypeInner::Matrix {
            columns: to_size(*columns),
            rows: to_size(*rows),
            width: *width,
        },
        naga::TypeInner::Atomic { kind, width } => ir::TypeInner::Atomic {
            kind: *kind,
            width: *width,
        },
        naga::TypeInner::Pointer { base, space } => ir::TypeInner::Pointer {
            base: base.index(),
            space: *space,
        },
        naga::TypeInner::ValuePointer {
            size,
            kind,
            width,
            space,
        } => ir::TypeInner::ValuePointer {
            size: size.map(to_size),
            kind: *kind,
            width: *width,
            space: *space,
        },
        naga::TypeInner::Array { base, size, stride } => ir::TypeInner::Array {
            base: base.index(),
            size: to_array_size(size),
            stride: *stride,
        },
        naga::TypeInner::Struct { members, span } => ir::TypeInner::Struct {
            members: members
                .iter()
                .map(|member| ir::StructMember {
                    name: member.name.clone(),
                    ty: member.ty.index(),
                    binding: member.binding.as_ref().map(to_binding),
                    offset: member.offset,
                })
                .collect(),
            span: *span,
        },
        naga::TypeInner::Image {
            dim,
            arrayed,
            class,
        } => ir::TypeInner::Image {
            dim: *dim,
            arrayed: *arrayed,
            class: *class,
        },
        naga::TypeInner::Sampler { comparison } => ir::TypeInner::Sampler {
            comparison: *comparison,
        },
        naga::TypeInner::BindingArray { base, size } => ir::TypeInner::BindingArray {
            base: base.index(),
            size: to_array_size(size),
        },
    };
    ir::Type {
        name: ty.name.clone(),
        inner,
    }
}

fn to_constant(constant: &naga::Constant) -> ir::Constant {
    ir::Constant {
        name: constant.name.clone(),
        specialization: constant.specialization,
        inner: match &constant.inner {
            naga::ConstantInner::Scalar { width, value } => ir::ConstantInner::Scalar {
                width: *width,
                value: *value,
            },
            naga::ConstantInner::Composite { ty, components } => ir::ConstantInner::Composite {
                ty: ty.index(),
                components: indices(components),
            },
        },
    }
}

fn to_level(level: &naga::SampleLevel) -> ir::SampleLevel {
    match level {
        naga::SampleLevel::Auto => ir::SampleLevel::Auto,
        naga::SampleLevel::Zero => ir::SampleLevel::Zero,
        naga::SampleLevel::Exact(e) => ir::SampleLevel::Exact(e.index()),
        naga::SampleLevel::Bias(e) => ir::SampleLevel::Bias(e.index()),
        naga::SampleLevel::Gradient { x, y } => ir::SampleLevel::Gradient {
            x: x.index(),
            y: y.index(),
        },
    }
}

fn to_query(query: &naga::ImageQuery) -> ir::ImageQuery {
    match query {
        naga::ImageQuery::Size { level } => ir::ImageQuery::Size {
            level: opt_index(level),
        },
        naga::ImageQuery::NumLevels => ir::ImageQuery::NumLevels,
        naga::ImageQuery::NumLayers => ir::ImageQuery::NumLayers,
        naga::ImageQuery::NumSamples => ir::ImageQuery::NumSamples,
    }
}

fn to_expression(expr: &naga::Expression) -> ir::Expression {
    match expr {
        naga::Expression::Access { base, index } => ir::Expression::Access {
            base: base.index(),
            index: index.index(),
        },
        naga::Expression::AccessIndex { base, index } => ir::Expression::AccessIndex {
            base: base.index(),
            index: *index,
        },
        naga::Expression::Constant(c) => ir::Expression::Constant(c.index()),
        naga::Expression::Splat { size, value } => ir::Expression::Splat {
            size: to_size(*size),
            value: value.index(),
        },
        naga::Expression::Swizzle {
            size,
            vector,
            pattern,
        } => ir::Expression::Swizzle {
            size: to_size(*size),
            vector: vector.index(),
            pattern: pattern.map(to_component),
        },
        naga::Expression::Compose { ty, components } => ir::Expression::Compose {
            ty: ty.index(),
            components: indices(components),
        },
        naga::Expression::FunctionArgument(index) => ir::Expression::FunctionArgument(*index),
        naga::Expression::GlobalVariable(gv) => ir::Expression::GlobalVariable(gv.index()),
        naga::Expression::LocalVariable(lv) => ir::Expression::LocalVariable(lv.index()),
        naga::Expression::Load { pointer } => ir::Expression::Load {
            pointer: pointer.index(),
        },
        naga::Expression::ImageSample {
            image,
            sampler,
            gather,
            coordinate,
            array_index,
            offset,
            level,
            depth_ref,
        } => ir::Expression::ImageSample {
            image: image.index(),
            sampler: sampler.index(),
            gather: gather.map(to_component),
            coordinate: coordinate.index(),
            array_index: opt_index(array_index),
            offset: opt_index(offset),
            level: to_level(level),
            depth_ref: opt_index(depth_ref),
        },
        naga::Expression::ImageLoad {
            image,
            coordinate,
            array_index,
            sample,
            level,
        } => ir::Expression::ImageLoad {
            image: image.index(),
            coordinate: coordinate.index(),
            array_index: opt_index(array_index),
            sample: opt_index(sample),
            level: opt_index(level),
        },
        naga::Expression::ImageQuery { image, query } => ir::Expression::ImageQuery {
            image: image.index(),
            query: to_query(query),
        },
        naga::Expression::Unary { op, expr } => ir::Expression::Unary {
            op: *op,
            expr: expr.index(),
        },
        naga::Expression::Binary { op, left, right } => ir::Expression::Binary {
            op: *op,
            left: left.index(),
            right: right.index(),
        },
        naga::Expression::Select {
            condition,
            accept,
            reject,
        } => ir::Expression::Select {
            condition: condition.index(),
            accept: accept.index(),
            reject: reject.index(),
        },
        naga::Expression::Derivative { axis, expr } => ir::Expression::Derivative {
            axis: *axis,
            expr: expr.index(),
        },
        naga::Expression::Relational { fun, argument } => ir::Expression::Relational {
            fun: *fun,
            argument: argument.index(),
        },
        naga::Expression::Math {
            fun,
            arg,
            arg1,
            arg2,
            arg3,
        } => ir::Expression::Math {
            fun: *fun,
            arg: arg.index(),
            arg1: opt_index(arg1),
            arg2: opt_index(arg2),
            arg3: opt_index(arg3),
        },
        naga::Expression::As {
            expr,
            kind,
            convert,
        } => ir::Expression::As {
            expr: expr.index(),
            kind: *kind,
            convert: *convert,
        },
        naga::Expression::CallResult(f) => ir::Expression::CallResult(f.index()),
        naga::Expression::AtomicResult {
            kind,
            width,
            comparison,
        } => ir::Expression::AtomicResult {
            kind: *kind,
            width: *width,
            comparison: *comparison,
        },
        naga::Expression::ArrayLength(expr) => ir::Expression::ArrayLength(expr.index()),
    }
}

fn to_atomic(fun: &naga::AtomicFunction) -> ir::AtomicFunction {
    match fun {
        naga::AtomicFunction::Add => ir::AtomicFunction::Add,
        naga::AtomicFunction::Subtract => ir::AtomicFunction::Subtract,
        naga::AtomicFunction::And => ir::AtomicFunction::And,
        naga::AtomicFunction::ExclusiveOr => ir::AtomicFunction::ExclusiveOr,
        naga::AtomicFunction::InclusiveOr => ir::AtomicFunction::InclusiveOr,
        naga::AtomicFunction::Min => ir::AtomicFunction::Min,
        naga::AtomicFunction::Max => ir::AtomicFunction::Max,
        naga::AtomicFunction::Exchange { compare } => ir::AtomicFunction::Exchange {
            compare: opt_index(compare),
        },
    }
}

fn to_range(range: &naga::Range<naga::Expression>) -> ir::Range {
    let mut handles = range.clone();
    match handles.next() {
        Some(first) => ir::Range {
            start: first.index(),
            end: handles.last().unwrap_or(first).index() + 1,
        },
        None => ir::Range { start: 0, end: 0 },
    }
}

fn to_block(block: &naga::Block) -> ir::Block {
    ir::Block {
        body: block.iter().map(to_statement).collect(),
    }
}

fn to_statement(stmt: &naga::Statement) -> ir::Statement {
    match stmt {
        naga::Statement::Emit(range) => ir::Statement::Emit(to_range(range)),
        naga::Statement::Block(block) => ir::Statement::Block(to_block(block)),
        naga::Statement::If {
            condition,
            accept,
            reject,
        } => ir::Statement::If {
            condition: condition.index(),
            accept: to_block(accept),
            reject: to_block(reject),
        },
        naga::Statement::Switch { selector, cases } => ir::Statement::Switch {
            selector: selector.index(),
            cases: cases
                .iter()
                .map(|case| ir::SwitchCase {
                    value: match case.value {
                        naga::SwitchValue::Integer(value) => ir::SwitchValue::Integer(value),
                        naga::SwitchValue::Default => ir::SwitchValue::Default,
                    },
                    body: to_block(&case.body),
                    fall_through: case.fall_through,
                })
                .collect(),
        },
        naga::Statement::Loop {
            body,
            continuing,
            break_if,
        } => ir::Statement::Loop {
            body: to_block(body),
            continuing: to_block(continuing),
            break_if: opt_index(break_if),
        },
        naga::Statement::Break => ir::Statement::Break,
        naga::Statement::Continue => ir::Statement::Continue,
        naga::Statement::Return { value } => ir::Statement::Return {
            value: opt_index(value),
        },
        naga::Statement::Kill => ir::Statement::Kill,
        naga::Statement::Barrier(barrier) => ir::Statement::Barrier(*barrier),
        naga::Statement::Store { pointer, value } => ir::Statement::Store {
            pointer: pointer.index(),
            value: value.index(),
        },
        naga::Statement::ImageStore {
            image,
            coordinate,
            array_index,
            value,
        } => ir::Statement::ImageStore {
            image: image.index(),
            coordinate: coordinate.index(),
            array_index: opt_index(array_index),
            value: value.index(),
        },
        naga::Statement::Atomic {
            pointer,
            fun,
            value,
            result,
        } => ir::Statement::Atomic {
            pointer: pointer.index(),
            fun: to_atomic(fun),
            value: value.index(),
            result: result.index(),
        },
        naga::Statement::Call {
            function,
            arguments,
            result,
        } => ir::Statement::Call {
            function: function.index(),
            arguments: indices(arguments),
            result: opt_index(result),
        },
    }
}

fn to_function(function: &naga::Function) -> ir::Function {
    ir::Function {
        name: function.name.clone(),
        arguments: function
            .arguments
            .iter()
            .map(|arg| ir::FunctionArgument {
                name: arg.name.clone(),
                ty: arg.ty.index(),
                binding: arg.binding.as_ref().map(to_binding),
            })
            .collect(),
        result: function.result.as_ref().map(|result| ir::FunctionResult {
            ty: result.ty.index(),
            binding: result.binding.as_ref().map(to_binding),
        }),
        local_variables: function
            .local_variables
            .iter()
            .map(|(_, local)| ir::LocalVariable {
                name: local.name.clone(),
                ty: local.ty.index(),
                init: opt_index(&local.init),
            })
            .collect(),
        expressions: function
            .expressions
            .iter()
            .map(|(_, expr)| to_expression(expr))
            .collect(),
        named_expressions: function
            .named_expressions
            .iter()
            .map(|(h, name)| (h.index(), name.clone()))
            .collect(),
        body: to_block(&function.body),
    }
}

/// An entry point of naga as one of the library.
fn to_entry_point(entry: &naga::EntryPoint) -> ir::EntryPoint {
    ir::EntryPoint {
        name: entry.name.clone(),
        stage: entry.stage,
        early_depth_test: entry.early_depth_test,
        workgroup_size: entry.workgroup_size,
        function: to_function(&entry.function),
    }
}

/// A module of naga as one of the library.
fn to_module(module: &naga::Module) -> ir::Module {
    ir::Module {
        types: module.types.iter().map(|(_, ty)| to_type(ty)).collect(),
        constants: module
            .constants
            .iter()
            .map(|(_, constant)| to_constant(constant))
            .collect(),
        global_variables: module
            .global_variables
            .iter()
            .map(|(_, global)| ir::GlobalVariable {
                name: global.name.clone(),
                space: global.space,
                binding: global.binding.as_ref().map(|binding| ir::ResourceBinding {
                    group: binding.group,
                    binding: binding.binding,
                }),
                ty: global.ty.index(),
                init: opt_index(&global.init),
            })
            .collect(),
        functions: module
            .functions
            .iter()
            .map(|(_, function)| to_function(function))
            .collect(),
        entry_points: module.entry_points.iter().map(to_entry_point).collect(),
    }
}

/// The handles that have been given out so far, by the handles of the library.
struct Handles {
    types: HashMap<usize, Handle<naga::Type>>,
    constants: HashMap<usize, Handle<naga::Constant>>,
    globals: HashMap<usize, Handle<naga::GlobalVariable>>,
    functions: HashMap<usize, Handle<naga::Function>>,
}

/// The handles of a function.
struct Locals<'a> {
    module: &'a Handles,
    locals: Vec<Handle<naga::LocalVariable>>,
    exprs: Vec<Handle<naga::Expression>>,
}

impl Locals<'_> {
    fn expr(&self, h: &usize) -> Handle<naga::Expression> {
        self.exprs[*h]
    }

    fn opt(&self, h: &Option<usize>) -> Option<Handle<naga::Expression>> {
        h.map(|h| self.exprs[h])
    }

    fn each(&self, handles: &[usize]) -> Vec<Handle<naga::Expression>> {
        handles.iter().map(|h| self.expr(h)).collect()
    }
}

/// Types and constants may use one another, so they are made as they are used.
struct Maker<'a> {
    source: &'a ir::Module,
    handles: Handles,
    types: UniqueArena<naga::Type>,
    constants: Arena<naga::Constant>,
}

impl Maker<'_> {
    fn array_size(&mut self, size: &ir::ArraySize) -> naga::ArraySize {
        match size {
            ir::ArraySize::Constant(c) => naga::ArraySize::Constant(self.constant(*c)),
            ir::ArraySize::Dynamic => naga::ArraySize::Dynamic,
        }
    }

    fn ty(&mut self, h: usize) -> Handle<naga::Type> {
        if let Some(made) = self.handles.types.get(&h) {
            return *made;
        }
        let source = self.source;
        let ty = &source.types[h];
        let inner = match &ty.inner {
            ir::TypeInner::Scalar { kind, width } => naga::TypeInner::Scalar {
                kind: *kind,
                width: *width,
            },
            ir::TypeInner::Vector { size, kind, width } => naga::TypeInner::Vector {
                size: from_size(*size),
                kind: *kind,
                width: *width,
            },
            ir::TypeInner::Matrix {
                columns,
                rows,
                width,
            } => naga::TypeInner::Matrix {
                columns: from_size(*columns),
                rows: from_size(*rows),
                width: *width,
            },
            ir::TypeInner::Atomic { kind, width } => naga::TypeInner::Atomic {
                kind: *kind,
                width: *width,
            },
            ir::TypeInner::Pointer { base, space } => naga::TypeInner::Pointer {
                base: self.ty(*base),
                space: *space,
            },
            ir::TypeInner::ValuePointer {
                size,
                kind,
                width,
                space,
            } => naga::TypeInner::ValuePointer {
                size: size.map(from_size),
                kind: *kind,
                width: *width,
                space: *space,
            },
            ir::TypeInner::Array { base, size, stride } => naga::TypeInner::Array {
                base: self.ty(*base),
                size: self.array_size(size),
                stride: *stride,
            },
            ir::TypeInner::Struct { members, span } => naga::TypeInner::Struct {
                members: members
                    .iter()
                    .map(|member| naga::StructMember {
                        name: member.name.clone(),
                        ty: self.ty(member.ty),
                        binding: member.binding.as_ref().map(from_binding),
                        offset: member.offset,
                    })
                    .collect(),
                span: *span,
            },
            ir::TypeInner::Image {
                dim,
                arrayed,
                class,
            } => naga::TypeInner::Image {
                dim: *dim,
                arrayed: *arrayed,
                class: *class,
            },
            ir::TypeInner::Sampler { comparison } => naga::TypeInner::Sampler {
                comparison: *comparison,
            },
            ir::TypeInner::BindingArray { base, size } => naga::TypeInner::BindingArray {
                base: self.ty(*base),
                size: self.array_size(size),
            },
        };
        let made = self.types.insert(
            naga::Type {
                name: ty.name.clone(),
                inner,
            },
            Span::UNDEFINED,
        );
        self.handles.types.insert(h, made);
        made
    }

    fn constant(&mut self, h: usize) -> Handle<naga::Constant> {
        if let Some(made) = self.handles.constants.get(&h) {
            return *made;
        }
        let source = self.source;
        let constant = &source.constants[h];
        let inner = match &constant.inner {
            ir::ConstantInner::Scalar { width, value } => naga::ConstantInner::Scalar {
                width: *width,
                value: *value,
            },
            ir::ConstantInner::Composite { ty, components } => naga::ConstantInner::Composite {
                ty: self.ty(*ty),
                components: components.iter().map(|c| self.constant(*c)).collect(),
            },
        };
        let made = self.constants.append(
            naga::Constant {
                name: constant.name.clone(),
                specialization: constant.specialization,
                inner,
            },
            Span::UNDEFINED,
        );
        self.handles.constants.insert(h, made);
        made
    }
}

fn from_level(level: &ir::SampleLevel, f: &Locals) -> naga::SampleLevel {
    match level {
        ir::SampleLevel::Auto => naga::SampleLevel::Auto,
        ir::SampleLevel::Zero => naga::SampleLevel::Zero,
        ir::SampleLevel::Exact(e) => naga::SampleLevel::Exact(f.expr(e)),
        ir::SampleLevel::Bias(e) => naga::SampleLevel::Bias(f.expr(e)),
        ir::SampleLevel::Gradient { x, y } => naga::SampleLevel::Gradient {
            x: f.expr(x),
            y: f.expr(y),
        },
    }
}

fn from_query(query: &ir::ImageQuery, f: &Locals) -> naga::ImageQuery {
    match query {
        ir::ImageQuery::Size { level } => naga::ImageQuery::Size {
            level: f.opt(level),
        },
        ir::ImageQuery::NumLevels => naga::ImageQuery::NumLevels,
        ir::ImageQuery::NumLayers => naga::ImageQuery::NumLayers,
        ir::ImageQuery::NumSamples => naga::ImageQuery::NumSamples,
    }
}

fn from_expression(expr: &ir::Expression, f: &Locals) -> naga::Expression {
    match expr {
        ir::Expression::Access { base, index } => naga::Expression::Access {
            base: f.expr(base),
            index: f.expr(index),
        },
        ir::Expression::AccessIndex { base, index } => naga::Expression::AccessIndex {
            base: f.expr(base),
            index: *index,
        },
        ir::Expression::Constant(c) => naga::Expression::Constant(f.module.constants[c]),
        ir::Expression::Splat { size, value } => naga::Expression::Splat {
            size: from_size(*size),
            value: f.expr(value),
        },
        ir::Expression::Swizzle {
            size,
            vector,
            pattern,
        } => naga::Expression::Swizzle {
            size: from_size(*size),
            vector: f.expr(vector),
            pattern: pattern.map(from_component),
        },
        ir::Expression::Compose { ty, components } => naga::Expression::Compose {
            ty: f.module.types[ty],
            components: f.each(components),
        },
        ir::Expression::FunctionArgument(index) => naga::Expression::FunctionArgument(*index),
        ir::Expression::GlobalVariable(gv) => naga::Expression::GlobalVariable(f.module.globals[gv]),
        ir::Expression::LocalVariable(lv) => naga::Expression::LocalVariable(f.locals[*lv]),
        ir::Expression::Load { pointer } => naga::Expression::Load {
            pointer: f.expr(pointer),
        },
        ir::Expression::ImageSample {
            image,
            sampler,
            gather,
            coordinate,
            array_index,
            offset,
            level,
            depth_ref,
        } => naga::Expression::ImageSample {
            image: f.expr(image),
            sampler: f.expr(sampler),
            gather: gather.map(from_component),
            coordinate: f.expr(coordinate),
            array_index: f.opt(array_index),
            offset: offset.map(|c| f.module.constants[&c]),
            level: from_level(level, f),
            depth_ref: f.opt(depth_ref),
        },
        ir::Expression::ImageLoad {
            image,
            coordinate,
            array_index,
            sample,
            level,
        } => naga::Expression::ImageLoad {
            image: f.expr(image),
            coordinate: f.expr(coordinate),
            array_index: f.opt(array_index),
            sample: f.opt(sample),
            level: f.opt(level),
        },
        ir::Expression::ImageQuery { image, query } => naga::Expression::ImageQuery {
            image: f.expr(image),
            query: from_query(query, f),
        },
        ir::Expression::Unary { op, expr } => naga::Expression::Unary {
            op: *op,
            expr: f.expr(expr),
        },
        ir::Expression::Binary { op, left, right } => naga::Expression::Binary {
            op: *op,
            left: f.expr(left),
            right: f.expr(right),
        },
        ir::Expression::Select {
            condition,
            accept,
            reject,
        } => naga::Expression::Select {
            condition: f.expr(condition),
            accept: f.expr(accept),
            reject: f.expr(reject),
        },
        ir::Expression::Derivative { axis, expr } => naga::Expression::Derivative {
            axis: *axis,
            expr: f.expr(expr),
        },
        ir::Expression::Relational { fun, argument } => naga::Expression::Relational {
            fun: *fun,
            argument: f.expr(argument),
        },
        ir::Expression::Math {
            fun,
            arg,
            arg1,
            arg2,
            arg3,
        } => naga::Expression::Math {
            fun: *fun,
            arg: f.expr(arg),
            arg1: f.opt(arg1),
            arg2: f.opt(arg2),
            arg3: f.opt(arg3),
        },
        ir::Expression::As {
            expr,
            kind,
            convert,
        } => naga::Expression::As {
            expr: f.expr(expr),
            kind: *kind,
            convert: *convert,
        },
        ir::Expression::CallResult(function) => naga::Expression::CallResult(f.module.functions[function]),
        ir::Expression::AtomicResult {
            kind,
            width,
            comparison,
        } => naga::Expression::AtomicResult {
            kind: *kind,
            width: *width,
            comparison: *comparison,
        },
        ir::Expression::ArrayLength(expr) => naga::Expression::ArrayLength(f.expr(expr)),
    }
}

fn from_atomic(fun: &ir::AtomicFunction, f: &Locals) -> naga::AtomicFunction {
    match fun {
        ir::AtomicFunction::Add => naga::AtomicFunction::Add,
        ir::AtomicFunction::Subtract => naga::AtomicFunction::Subtract,
        ir::AtomicFunction::And => naga::AtomicFunction::And,
        ir::AtomicFunction::ExclusiveOr => naga::AtomicFunction::ExclusiveOr,
        ir::AtomicFunction::InclusiveOr => naga::AtomicFunction::InclusiveOr,
        ir::AtomicFunction::Min => naga::AtomicFunction::Min,
        ir::AtomicFunction::Max => naga::AtomicFunction::Max,
        ir::AtomicFunction::Exchange { compare } => naga::AtomicFunction::Exchange {
            compare: f.opt(compare),
        },
    }
}

/// naga hands out a range only for the tail of an arena, so one of the right
/// length is filled for it.
fn from_range(range: &ir::Range) -> naga::Range<naga::Expression> {
    let mut arena = Arena::new();
    for _ in 0..range.end {
        arena.append(naga::Expression::FunctionArgument(0), Span::UNDEFINED);
    }
    arena.range_from(range.start)
}

fn from_block(block: &ir::Block, f: &Locals) -> naga::Block {
    naga::Block::from_vec(block.body.iter().map(|s| from_statement(s, f)).collect())
}

fn from_statement(stmt: &ir::Statement, f: &Locals) -> naga::Statement {
    match stmt {
        ir::Statement::Emit(range) => naga::Statement::Emit(from_range(range)),
        ir::Statement::Block(block) => naga::Statement::Block(from_block(block, f)),
        ir::Statement::If {
            condition,
            accept,
            reject,
        } => naga::Statement::If {
            condition: f.expr(condition),
            accept: from_block(accept, f),
            reject: from_block(reject, f),
        },
        ir::Statement::Switch { selector, cases } => naga::Statement::Switch {
            selector: f.expr(selector),
            cases: cases
                .iter()
                .map(|case| naga::SwitchCase {
                    value: match case.value {
                        ir::SwitchValue::Integer(value) => naga::SwitchValue::Integer(value),
                        ir::SwitchValue::Default => naga::SwitchValue::Default,
                    },
                    body: from_block(&case.body, f),
                    fall_through: case.fall_through,
                })
                .collect(),
        },
        ir::Statement::Loop {
            body,
            continuing,
            break_if,
        } => naga::Statement::Loop {
            body: from_block(body, f),
            continuing: from_block(continuing, f),
            break_if: f.opt(break_if),
        },
        ir::Statement::Break => naga::Statement::Break,
        ir::Statement::Continue => naga::Statement::Continue,
        ir::Statement::Return { value } => naga::Statement::Return {
            value: f.opt(value),
        },
        ir::Statement::Kill => naga::Statement::Kill,
        ir::Statement::Barrier(barrier) => naga::Statement::Barrier(*barrier),
        ir::Statement::Store { pointer, value } => naga::Statement::Store {
            pointer: f.expr(pointer),
            value: f.expr(value),
        },
        ir::Statement::ImageStore {
            image,
            coordinate,
            array_index,
            value,
        } => naga::Statement::ImageStore {
            image: f.expr(image),
            coordinate: f.expr(coordinate),
            array_index: f.opt(array_index),
            value: f.expr(value),
        },
        ir::Statement::Atomic {
            pointer,
            fun,
            value,
            result,
        } => naga::Statement::Atomic {
            pointer: f.expr(pointer),
            fun: from_atomic(fun, f),
            value: f.expr(value),
            result: f.expr(result),
        },
        ir::Statement::Call {
            function,
            arguments,
            result,
        } => naga::Statement::Call {
            function: f.module.functions[function],
            arguments: f.each(arguments),
            result: f.opt(result),
        },
    }
}

fn from_function(function: &ir::Function, handles: &Handles) -> naga::Function {
    let mut made = naga::Function {
        name: function.name.clone(),
        arguments: function
            .arguments
            .iter()
            .map(|arg| naga::FunctionArgument {
                name: arg.name.clone(),
                ty: handles.types[&arg.ty],
                binding: arg.binding.as_ref().map(from_binding),
            })
            .collect(),
        result: function.result.as_ref().map(|result| naga::FunctionResult {
            ty: handles.types[&result.ty],
            binding: result.binding.as_ref().map(from_binding),
        }),
        ..Default::default()
    };
    let mut f = Locals {
        module: handles,
        locals: Vec::new(),
        exprs: Vec::new(),
    };
    for local in &function.local_variables {
        let h = made.local_variables.append(
            naga::LocalVariable {
                name: local.name.clone(),
                ty: handles.types[&local.ty],
                init: local.init.map(|c| handles.constants[&c]),
            },
            Span::UNDEFINED,
        );
        f.locals.push(h);
    }
    for expr in &function.expressions {
        let expr = from_expression(expr, &f);
        let h = made.expressions.append(expr, Span::UNDEFINED);
        f.exprs.push(h);
    }
    for (h, name) in &function.named_expressions {
        made.named_expressions.insert(f.exprs[*h], name.clone());
    }
    made.body = from_block(&function.body, &f);
    made
}

/// A module of the library as one of naga.
fn from_module(module: &ir::Module) -> naga::Module {
    let mut maker = Maker {
        source: module,
        handles: Handles {
            types: HashMap::new(),
            constants: HashMap::new(),
            globals: HashMap::new(),
            functions: HashMap::new(),
        },
        types: UniqueArena::new(),
        constants: Arena::new(),
    };
    for h in 0..module.types.len() {
        maker.ty(h);
    }
    for h in 0..module.constants.len() {
        maker.constant(h);
    }
    let Maker {
        mut handles,
        types,
        constants,
        ..
    } = maker;
    let mut made = naga::Module {
        types,
        constants,
        ..Default::default()
    };
    for (h, global) in module.global_variables.iter().enumerate() {
        let new = made.global_variables.append(
            naga::GlobalVariable {
                name: global.name.clone(),
                space: global.space,
                binding: global.binding.as_ref().map(|binding| naga::ResourceBinding {
                    group: binding.group,
                    binding: binding.binding,
                }),
                ty: handles.types[&global.ty],
                init: global.init.map(|c| handles.constants[&c]),
            },
            Span::UNDEFINED,
        );
        handles.globals.insert(h, new);
    }
    for (h, function) in module.functions.iter().enumerate() {
        let function = from_function(function, &handles);
        let new = made.functions.append(function, Span::UNDEFINED);
        handles.functions.insert(h, new);
    }
    made.entry_points = module
        .entry_points
        .iter()
        .map(|entry| naga::EntryPoint {
            name: entry.name.clone(),
            stage: entry.stage,
            early_depth_test: entry.early_depth_test,
            workgroup_size: entry.workgroup_size,
            function: from_function(&entry.function, &handles),
        })
        .collect();
    made
}

/// The text of a module, which has to be valid.
fn text_of(module: &naga::Module) -> String {
    let info = Validator::new(ValidationFlags::all(), Capabilities::default())
        .validate(module)
        .unwrap();
    write_string(module, &info, WriterFlags::EXPLICIT_TYPES).unwrap()
}

fn parts(list: &[usize]) -> PartReq {
    let mut map = BTreeMap::new();
    for i in list {
        map.insert(*i, PartReq::All);
    }
    PartReq::Part(map)
}

/// The place of a function, by its name.
fn place_of(module: &ir::Module, name: &str) -> usize {
    module
        .functions
        .iter()
        .position(|f| f.name.as_deref() == Some(name))
        .unwrap()
}

/// The text that is left where `retval` is required of the function `name`.
fn pruned(source: &str, name: &str, retval: Option<PartReq>) -> String {
    let module = to_module(&parse_str(source).unwrap());
    let mut pruner = Pruner::default();
    let function = place_of(&module, name);
    pruner
        .try_add_function(&module, function, HashMap::new(), retval, 1000)
        .unwrap();
    text_of(&from_module(&pruner.try_rewrite(&module).unwrap()))
}

const OUT: &str = "struct Out { a: f32, b: f32 }
fn helper(x: f32) -> f32 { return x * 2.0; }
fn other(x: f32) -> f32 { return x + 1.0; }
fn test(p: f32, q: f32) -> Out {
    var out: Out;
    out.a = helper(p);
    out.b = other(q);
    return out;
}
";

#[test]
fn modules_survive_conversion() {
    let module = parse_str(OUT).unwrap();
    let text = text_of(&module);
    assert_eq!(text_of(&from_module(&to_module(&module))), text);
}

#[test]
fn it_works() {
    let shader = parse_str(OUT).unwrap();
    println!("base wgsl:\n{}", text_of(&shader));
    let module = to_module(&shader);
    let mut modreq = Pruner::default();
    let func = place_of(&module, "test");
    let input_req = modreq.add_function(
        &module,
        func,
        HashMap::new(),
        Some(PartReq::Part([(0, PartReq::All)].into())),
    );
    println!("input_req:\n{:#?}", input_req);
    println!("modreq:\n{:#?}", modreq);
    let rewritten_shader = from_module(&modreq.rewrite(&module));
    println!("wgsl:\n{}", text_of(&rewritten_shader));
}

#[test]
fn one_member_is_left() {
    let text = pruned(OUT, "test", Some(parts(&[0])));
    assert_eq!(
        text,
        "struct Out {
    a: f32,
    b: f32,
}

fn helper(x: f32) -> f32 {
    return (x * 2.0);
}

fn test(p: f32, q: f32) -> Out {
    var out: Out;

    let _e3: f32 = helper(p);
    out.a = _e3;
    let _e4: Out = out;
    return _e4;
}

"
    );
}

#[test]
fn a_whole_result_leaves_the_module_as_it_is() {
    let text = text_of(&parse_str(OUT).unwrap());
    assert_eq!(pruned(OUT, "test", Some(PartReq::All)), text);
}

#[test]
fn no_result_leaves_nothing() {
    assert_eq!(pruned(OUT, "test", None), "");
}

const NESTED: &str = "struct Out { color: vec4<f32>, other: vec4<f32> }
fn test(p: f32, q: f32) -> Out {
    var out: Out;
    out.color.y = p;
    out.other.x = q;
    return out;
}
";

#[test]
fn stores_to_parts_of_members_are_left() {
    let text = text_of(&parse_str(NESTED).unwrap());
    assert_eq!(pruned(NESTED, "test", Some(PartReq::All)), text);
    let first = pruned(NESTED, "test", Some(parts(&[0])));
    assert!(first.contains("out.color.y = p;") && !first.contains("out.other.x"));
    let second = pruned(NESTED, "test", Some(parts(&[1])));
    assert!(second.contains("out.other.x = q;") && !second.contains("out.color.y"));
}

const BRANCHES: &str = "var<private> seen: f32;
fn note(x: f32) { seen = x; }
fn test(p: f32, q: f32) -> vec2<f32> {
    var r: vec2<f32>;
    if (q > 0.5) {
        r.x = p;
        note(q);
    } else {
        r.y = q;
    }
    if (p > 2.0) {
        discard;
    }
    return r;
}
";

#[test]
fn branches_are_pruned_inside() {
    let text = pruned(BRANCHES, "test", Some(parts(&[0])));
    assert_eq!(
        text,
        "fn test(p: f32, q: f32) -> vec2<f32> {
    var r: vec2<f32>;

    if (q > 0.5) {
        r.x = p;
    }
    if (p > 2.0) {
        discard;
    }
    let _e8: vec2<f32> = r;
    return _e8;
}

"
    );
}

const LOOPS: &str = "fn test(n: i32) -> i32 {
    var i: i32 = 0;
    var sum: i32 = 0;
    var other: i32 = 0;
    loop {
        if (i >= n) { break; }
        sum = sum + i;
        other = other + 2;
        continuing { i = i + 1; }
    }
    return sum;
}
";

#[test]
fn loops_are_pruned_inside() {
    let text = pruned(LOOPS, "test", Some(PartReq::All));
    assert_eq!(
        text,
        "fn test(n: i32) -> i32 {
    var i: i32 = 0;
    var sum: i32 = 0;

    loop {
        let _e3: i32 = i;
        if (_e3 >= n) {
            break;
        }
        let _e5: i32 = sum;
        let _e6: i32 = i;
        sum = (_e5 + _e6);
        continuing {
            let _e8: i32 = i;
            i = (_e8 + 1);
        }
    }
    let _e11: i32 = sum;
    return _e11;
}

"
    );
}

const STAGE: &str = "struct Params { scale: vec4<f32>, bias: vec4<f32> }
@group(0) @binding(0) var<uniform> params: Params;
@group(0) @binding(1) var tex: texture_2d<f32>;
@group(0) @binding(2) var samp: sampler;
struct Out { @location(0) color: vec4<f32>, @location(1) extra: vec4<f32> }
fn shade(uv: vec2<f32>) -> vec4<f32> {
    return textureSample(tex, samp, uv) * params.scale;
}
@fragment
fn main(@location(0) uv: vec2<f32>, @location(1) w: vec4<f32>) -> Out {
    var out: Out;
    out.color = shade(uv);
    out.extra = w + params.bias;
    return out;
}
";

/// The text that is left where `retval` is required of the entry point.
fn pruned_entry(source: &str, retval: Option<PartReq>) -> String {
    let module = to_module(&parse_str(source).unwrap());
    let mut pruner = Pruner::default();
    pruner
        .try_add_entrypoint(&module, &module.entry_points[0], HashMap::new(), retval, 1000)
        .unwrap();
    text_of(&from_module(&pruner.try_rewrite(&module).unwrap()))
}

#[test]
fn stages_keep_the_resources_of_an_output() {
    let text = pruned_entry(STAGE, Some(parts(&[0])));
    assert_eq!(
        text,
        "struct Params {
    scale: vec4<f32>,
    bias: vec4<f32>,
}

struct Out {
    @location(0) color: vec4<f32>,
    @location(1) extra: vec4<f32>,
}

@group(0) @binding(0) 
var<uniform> params: Params;
@group(0) @binding(1) 
var tex: texture_2d<f32>;
@group(0) @binding(2) 
var samp: sampler;

fn shade(uv_1: vec2<f32>) -> vec4<f32> {
    let _e4: vec4<f32> = textureSample(tex, samp, uv_1);
    let _e6: vec4<f32> = params.scale;
    return (_e4 * _e6);
}

@fragment 
fn main(@location(0) uv: vec2<f32>, @location(1) w: vec4<f32>) -> Out {
    var out: Out;

    let _e3: vec4<f32> = shade(uv);
    out.color = _e3;
    let _e4: Out = out;
    return _e4;
}
"
    );
}

#[test]
fn stages_drop_the_resources_of_other_outputs() {
    let text = pruned_entry(STAGE, Some(parts(&[1])));
    assert_eq!(
        text,
        "struct Params {
    scale: vec4<f32>,
    bias: vec4<f32>,
}

struct Out {
    @location(0) color: vec4<f32>,
    @location(1) extra: vec4<f32>,
}

@group(0) @binding(0) 
var<uniform> params: Params;

@fragment 
fn main(@location(0) uv: vec2<f32>, @location(1) w: vec4<f32>) -> Out {
    var out: Out;

    let _e5: vec4<f32> = params.bias;
    out.extra = (w + _e5);
    let _e7: Out = out;
    return _e7;
}
"
    );
}
