//! The shader module that the pruner reads and rebuilds.
//!
//! The data follows naga's intermediate representation. An arena is a vector,
//! and a handle is the index of an item in its arena. Values that the pruner
//! only carries along keep naga's own types.
use std::collections::HashMap;
use vstd::prelude::*;

verus! {

/// `naga::ScalarKind`, carried along and never inspected.
#[verifier::external_type_specification]
#[verifier::external_body]
pub struct ExScalarKind(naga::ScalarKind);

/// `naga::ScalarValue`, carried along and never inspected.
#[verifier::external_type_specification]
#[verifier::external_body]
pub struct ExScalarValue(naga::ScalarValue);

/// `naga::AddressSpace`, carried along and never inspected.
#[verifier::external_type_specification]
#[verifier::external_body]
pub struct ExAddressSpace(naga::AddressSpace);

/// `naga::ImageDimension`, carried along and never inspected.
#[verifier::external_type_specification]
#[verifier::external_body]
pub struct ExImageDimension(naga::ImageDimension);

/// `naga::ImageClass`, carried along and never inspected.
#[verifier::external_type_specification]
#[verifier::external_body]
pub struct ExImageClass(naga::ImageClass);

/// `naga::BuiltIn`, carried along and never inspected.
#[verifier::external_type_specification]
#[verifier::external_body]
pub struct ExBuiltIn(naga::BuiltIn);

/// `naga::Interpolation`, carried along and never inspected.
#[verifier::external_type_specification]
#[verifier::external_body]
pub struct ExInterpolation(naga::Interpolation);

/// `naga::Sampling`, carried along and never inspected.
#[verifier::external_type_specification]
#[verifier::external_body]
pub struct ExSampling(naga::Sampling);

/// `naga::UnaryOperator`, carried along and never inspected.
#[verifier::external_type_specification]
#[verifier::external_body]
pub struct ExUnaryOperator(naga::UnaryOperator);

/// `naga::BinaryOperator`, carried along and never inspected.
#[verifier::external_type_specification]
#[verifier::external_body]
pub struct ExBinaryOperator(naga::BinaryOperator);

/// `naga::DerivativeAxis`, carried along and never inspected.
#[verifier::external_type_specification]
#[verifier::external_body]
pub struct ExDerivativeAxis(naga::DerivativeAxis);

/// `naga::RelationalFunction`, carried along and never inspected.
#[verifier::external_type_specification]
#[verifier::external_body]
pub struct ExRelationalFunction(naga::RelationalFunction);

/// `naga::MathFunction`, carried along and never inspected.
#[verifier::external_type_specification]
#[verifier::external_body]
pub struct ExMathFunction(naga::MathFunction);

/// `naga::Barrier`, carried along and never inspected.
#[verifier::external_type_specification]
#[verifier::external_body]
pub struct ExBarrier(naga::Barrier);

/// `naga::ShaderStage`, carried along and never inspected.
#[verifier::external_type_specification]
#[verifier::external_body]
pub struct ExShaderStage(naga::ShaderStage);

/// `naga::EarlyDepthTest`, carried along and never inspected.
#[verifier::external_type_specification]
#[verifier::external_body]
pub struct ExEarlyDepthTest(naga::EarlyDepthTest);

/// Number of components in a vector.
#[derive(Clone, Copy, Debug, PartialEq, Eq)]
pub enum VectorSize {
    Bi,
    Tri,
    Quad,
}

impl VectorSize {
    /// The number of components.
    pub open spec fn lanes_spec(self) -> usize {
        match self {
            VectorSize::Bi => 2,
            VectorSize::Tri => 3,
            VectorSize::Quad => 4,
        }
    }

    /// The number of components.
    pub fn lanes(self) -> (n: usize)
        ensures
            n == self.lanes_spec(),
    {
        match self {
            VectorSize::Bi => 2,
            VectorSize::Tri => 3,
            VectorSize::Quad => 4,
        }
    }
}

/// Component selection for a vector swizzle.
#[derive(Clone, Copy, Debug, PartialEq, Eq)]
pub enum SwizzleComponent {
    X,
    Y,
    Z,
    W,
}

impl SwizzleComponent {
    /// The position of the component in its vector.
    pub open spec fn position_spec(self) -> usize {
        match self {
            SwizzleComponent::X => 0,
            SwizzleComponent::Y => 1,
            SwizzleComponent::Z => 2,
            SwizzleComponent::W => 3,
        }
    }

    /// The position of the component in its vector.
    pub fn position(self) -> (n: usize)
        ensures
            n == self.position_spec(),
    {
        match self {
            SwizzleComponent::X => 0,
            SwizzleComponent::Y => 1,
            SwizzleComponent::Z => 2,
            SwizzleComponent::W => 3,
        }
    }
}

/// How an input or output variable is bound.
#[derive(Clone, Copy, Debug, PartialEq, Eq)]
pub enum Binding {
    BuiltIn(naga::BuiltIn),
    Location {
        location: u32,
        interpolation: Option<naga::Interpolation>,
        sampling: Option<naga::Sampling>,
    },
}

/// Where a global resource is bound.
#[derive(Clone, Copy, Debug, PartialEq, Eq)]
pub struct ResourceBinding {
    pub group: u32,
    pub binding: u32,
}

/// Size of an array: a handle of a constant, or known at run time only.
#[derive(Clone, Copy, Debug, PartialEq, Eq)]
pub enum ArraySize {
    Constant(usize),
    Dynamic,
}

/// Member of a structure type.
#[derive(Debug, PartialEq, Eq)]
pub struct StructMember {
    pub name: Option<String>,
    pub ty: usize,
    pub binding: Option<Binding>,
    pub offset: u32,
}

/// What kind of type a type is.
#[derive(Debug, PartialEq, Eq)]
#[allow(inconsistent_fields)]
pub enum TypeInner {
    Scalar { kind: naga::ScalarKind, width: u8 },
    Vector { size: VectorSize, kind: naga::ScalarKind, width: u8 },
    Matrix { columns: VectorSize, rows: VectorSize, width: u8 },
    Atomic { kind: naga::ScalarKind, width: u8 },
    Pointer { base: usize, space: naga::AddressSpace },
    ValuePointer {
        size: Option<VectorSize>,
        kind: naga::ScalarKind,
        width: u8,
        space: naga::AddressSpace,
    },
    Array { base: usize, size: ArraySize, stride: u32 },
    Struct { members: Vec<StructMember>, span: u32 },
    Image { dim: naga::ImageDimension, arrayed: bool, class: naga::ImageClass },
    Sampler { comparison: bool },
    BindingArray { base: usize, size: ArraySize },
}

/// A type of the module.
#[derive(Debug, PartialEq, Eq)]
pub struct Type {
    pub name: Option<String>,
    pub inner: TypeInner,
}

/// The value of a constant.
#[derive(Debug, PartialEq)]
pub enum ConstantInner {
    Scalar { width: u8, value: naga::ScalarValue },
    Composite { ty: usize, components: Vec<usize> },
}

/// A constant of the module.
#[derive(Debug, PartialEq)]
pub struct Constant {
    pub name: Option<String>,
    pub specialization: Option<u32>,
    pub inner: ConstantInner,
}

/// A variable of the module.
#[derive(Debug, PartialEq)]
pub struct GlobalVariable {
    pub name: Option<String>,
    pub space: naga::AddressSpace,
    pub binding: Option<ResourceBinding>,
    pub ty: usize,
    pub init: Option<usize>,
}

/// A variable of a function.
#[derive(Debug, PartialEq, Eq)]
pub struct LocalVariable {
    pub name: Option<String>,
    pub ty: usize,
    pub init: Option<usize>,
}

/// Level of detail of an image sample.
#[derive(Clone, Copy, Debug, PartialEq, Eq)]
pub enum SampleLevel {
    Auto,
    Zero,
    Exact(usize),
    Bias(usize),
    Gradient { x: usize, y: usize },
}

/// What an image query asks for.
#[derive(Clone, Copy, Debug, PartialEq, Eq)]
pub enum ImageQuery {
    Size { level: Option<usize> },
    NumLevels,
    NumLayers,
    NumSamples,
}

/// An expression of a function; its operands are handles of expressions.
#[derive(Debug, PartialEq, Eq)]
#[allow(inconsistent_fields)]
pub enum Expression {
    Access { base: usize, index: usize },
    AccessIndex { base: usize, index: u32 },
    Constant(usize),
    Splat { size: VectorSize, value: usize },
    Swizzle { size: VectorSize, vector: usize, pattern: [SwizzleComponent; 4] },
    Compose { ty: usize, components: Vec<usize> },
    FunctionArgument(u32),
    GlobalVariable(usize),
    LocalVariable(usize),
    Load { pointer: usize },
    ImageSample {
        image: usize,
        sampler: usize,
        gather: Option<SwizzleComponent>,
        coordinate: usize,
        array_index: Option<usize>,
        offset: Option<usize>,
        level: SampleLevel,
        depth_ref: Option<usize>,
    },
    ImageLoad {
        image: usize,
        coordinate: usize,
        array_index: Option<usize>,
        sample: Option<usize>,
        level: Option<usize>,
    },
    ImageQuery { image: usize, query: ImageQuery },
    Unary { op: naga::UnaryOperator, expr: usize },
    Binary { op: naga::BinaryOperator, left: usize, right: usize },
    Select { condition: usize, accept: usize, reject: usize },
    Derivative { axis: naga::DerivativeAxis, expr: usize },
    Relational { fun: naga::RelationalFunction, argument: usize },
    Math {
        fun: naga::MathFunction,
        arg: usize,
        arg1: Option<usize>,
        arg2: Option<usize>,
        arg3: Option<usize>,
    },
    As { expr: usize, kind: naga::ScalarKind, convert: Option<u8> },
    CallResult(usize),
    AtomicResult { kind: naga::ScalarKind, width: u8, comparison: bool },
    ArrayLength(usize),
}

/// Function on an atomic value.
#[derive(Clone, Copy, Debug, PartialEq, Eq)]
pub enum AtomicFunction {
    Add,
    Subtract,
    And,
    ExclusiveOr,
    InclusiveOr,
    Min,
    Max,
    Exchange { compare: Option<usize> },
}

/// The value that selects a case of a switch.
#[derive(Clone, Copy, Debug, PartialEq, Eq)]
pub enum SwitchValue {
    Integer(i32),
    Default,
}

/// A case of a switch.
#[derive(Debug, PartialEq, Eq)]
pub struct SwitchCase {
    pub value: SwitchValue,
    pub body: Block,
    pub fall_through: bool,
}

/// Statements that run one after the other.
#[derive(Debug, PartialEq, Eq)]
pub struct Block {
    pub body: Vec<Statement>,
}

/// The handles from `start` up to, but not including, `end`.
#[derive(Clone, Copy, Debug, PartialEq, Eq)]
pub struct Range {
    pub start: usize,
    pub end: usize,
}

/// A statement of a function.
#[derive(Debug, PartialEq, Eq)]
#[allow(inconsistent_fields)]
pub enum Statement {
    Emit(Range),
    Block(Block),
    If { condition: usize, accept: Block, reject: Block },
    Switch { selector: usize, cases: Vec<SwitchCase> },
    Loop { body: Block, continuing: Block, break_if: Option<usize> },
    Break,
    Continue,
    Return { value: Option<usize> },
    Kill,
    Barrier(naga::Barrier),
    Store { pointer: usize, value: usize },
    ImageStore { image: usize, coordinate: usize, array_index: Option<usize>, value: usize },
    Atomic { pointer: usize, fun: AtomicFunction, value: usize, result: usize },
    Call { function: usize, arguments: Vec<usize>, result: Option<usize> },
}

/// An argument of a function.
#[derive(Debug, PartialEq, Eq)]
pub struct FunctionArgument {
    pub name: Option<String>,
    pub ty: usize,
    pub binding: Option<Binding>,
}

/// The result of a function.
#[derive(Clone, Copy, Debug, PartialEq, Eq)]
pub struct FunctionResult {
    pub ty: usize,
    pub binding: Option<Binding>,
}

/// A function.
///
/// An expression stands in `expressions` before all other expressions that
/// use its value.
#[derive(Debug, PartialEq, Eq)]
pub struct Function {
    pub name: Option<String>,
    pub arguments: Vec<FunctionArgument>,
    pub result: Option<FunctionResult>,
    pub local_variables: Vec<LocalVariable>,
    pub expressions: Vec<Expression>,
    pub named_expressions: HashMap<usize, String>,
    pub body: Block,
}

/// The main function of a pipeline stage.
#[derive(Debug, PartialEq, Eq)]
pub struct EntryPoint {
    pub name: String,
    pub stage: naga::ShaderStage,
    pub early_depth_test: Option<naga::EarlyDepthTest>,
    pub workgroup_size: [u32; 3],
    pub function: Function,
}

/// A shader module.
///
/// No type occurs twice in `types`, and a function stands in `functions`
/// before all its callers.
#[derive(Debug, PartialEq)]
pub struct Module {
    pub types: Vec<Type>,
    pub constants: Vec<Constant>,
    pub global_variables: Vec<GlobalVariable>,
    pub functions: Vec<Function>,
    pub entry_points: Vec<EntryPoint>,
}

} // verus!
