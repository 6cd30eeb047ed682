//! The Pure abstract syntax tree: elements, expressions, type references
//! and source locations.
use vstd::prelude::*;

verus! {

// ───────────────────────────── source locations ─────────────────────────────

/// Source location of an AST node (1-based lines and columns).
#[derive(Debug, Clone, PartialEq, Eq)]
pub struct SourceInfo {
    pub source_id: String,
    pub start_line: usize,
    pub start_column: usize,
    pub end_line: usize,
    pub end_column: usize,
}

impl SourceInfo {
    /// Builds a source location from its parts.
    pub fn new(
        source_id: &str,
        start_line: usize,
        start_column: usize,
        end_line: usize,
        end_column: usize,
    ) -> (r: SourceInfo)
        ensures
            r.source_id@ == source_id@,
            r.start_line == start_line,
            r.start_column == start_column,
            r.end_line == end_line,
            r.end_column == end_column,
    {
        SourceInfo {
            source_id: source_id.to_string(),
            start_line,
            start_column,
            end_line,
            end_column,
        }
    }

    /// The empty location: no source id, every coordinate zero.
    pub fn dummy() -> (r: SourceInfo)
        ensures
            r.is_dummy(),
    {
        SourceInfo {
            source_id: String::new(),
            start_line: 0,
            start_column: 0,
            end_line: 0,
            end_column: 0,
        }
    }

    /// A field-by-field copy.
    pub fn duplicate(&self) -> (r: SourceInfo)
        ensures
            r == *self,
    {
        SourceInfo {
            source_id: self.source_id.clone(),
            start_line: self.start_line,
            start_column: self.start_column,
            end_line: self.end_line,
            end_column: self.end_column,
        }
    }

    /// The location that `dummy` builds.
    pub open spec fn is_dummy(&self) -> bool {
        &&& self.source_id@ == Seq::<char>::empty()
        &&& self.start_line == 0
        &&& self.start_column == 0
        &&& self.end_line == 0
        &&& self.end_column == 0
    }
}

// ───────────────────────────── type references ─────────────────────────────

/// A package path such as `meta::pure::mapping`.
#[derive(Debug, Clone, PartialEq, Eq)]
pub struct PackagePath {
    pub path: Vec<String>,
    pub source_info: SourceInfo,
}

impl PackagePath {
    /// The root package: no segments and a dummy location.
    pub fn root() -> (r: PackagePath)
        ensures
            r.path@.len() == 0,
            r.source_info.is_dummy(),
    {
        PackagePath { path: Vec::new(), source_info: SourceInfo::dummy() }
    }
}

/// A type reference.
#[derive(Debug, Clone, PartialEq, Eq)]
pub enum Type {
    Packageable(PackageableType),
}

/// A reference to a packageable element by its full path.
#[derive(Debug, Clone, PartialEq, Eq)]
pub struct PackageableType {
    pub full_path: String,
    pub source_info: SourceInfo,
}

/// A generic type with its type and multiplicity arguments.
#[derive(Debug)]
pub struct GenericType {
    pub raw_type: Type,
    pub type_arguments: Vec<GenericType>,
    pub multiplicity_arguments: Vec<Multiplicity>,
}

/// A multiplicity such as `[1]`, `[0..1]`, `[*]` or `[1..*]`; an absent
/// upper bound stands for `*`.
#[derive(Debug, Clone, Copy, PartialEq, Eq)]
pub struct Multiplicity {
    pub lower_bound: usize,
    pub upper_bound: Option<usize>,
}

impl Multiplicity {
    /// The multiplicity `[lower..upper]`.
    pub fn new(lower: usize, upper: Option<usize>) -> (r: Multiplicity)
        ensures
            r.lower_bound == lower,
            r.upper_bound == upper,
    {
        Multiplicity { lower_bound: lower, upper_bound: upper }
    }

    /// `[1]`.
    pub fn pure_one() -> (r: Multiplicity)
        ensures
            r == (Multiplicity { lower_bound: 1, upper_bound: Some(1) }),
    {
        Self::new(1, Some(1))
    }

    /// `[0..1]`.
    pub fn pure_zero_one() -> (r: Multiplicity)
        ensures
            r == (Multiplicity { lower_bound: 0, upper_bound: Some(1) }),
    {
        Self::new(0, Some(1))
    }

    /// `[*]`.
    pub fn pure_many() -> (r: Multiplicity)
        ensures
            r == (Multiplicity { lower_bound: 0, upper_bound: None }),
    {
        Self::new(0, None)
    }

    /// `[1..*]`.
    pub fn pure_one_many() -> (r: Multiplicity)
        ensures
            r == (Multiplicity { lower_bound: 1, upper_bound: None }),
    {
        Self::new(1, None)
    }
}

// ───────────────────────────── elements ─────────────────────────────

/// A top-level Pure element.
#[derive(Debug)]
pub enum Element {
    Class(ClassDef),
    Enumeration(EnumDef),
    Function(FunctionDef),
    Profile(ProfileDef),
    Association(AssociationDef),
    Measure(MeasureDef),
    Extension(ExtensionElement),
}

/// A Pure class definition.
#[derive(Debug)]
pub struct ClassDef {
    pub package: PackagePath,
    pub name: String,
    pub super_types: Vec<Type>,
    pub properties: Vec<Property>,
    pub qualified_properties: Vec<QualifiedProperty>,
    pub constraints: Vec<Constraint>,
    pub stereotypes: Vec<StereotypePtr>,
    pub tagged_values: Vec<TaggedValue>,
    pub source_info: SourceInfo,
}

/// A property of a class.
#[derive(Debug)]
pub struct Property {
    pub name: String,
    pub property_type: Type,
    pub multiplicity: Multiplicity,
    pub stereotypes: Vec<StereotypePtr>,
    pub tagged_values: Vec<TaggedValue>,
    pub source_info: SourceInfo,
}

/// A qualified property such as `fullName() { $this.first + $this.last }`.
#[derive(Debug)]
pub struct QualifiedProperty {
    pub name: String,
    pub return_type: Type,
    pub multiplicity: Multiplicity,
    pub parameters: Vec<Variable>,
    pub expression: Vec<Expression>,
    pub stereotypes: Vec<StereotypePtr>,
    pub tagged_values: Vec<TaggedValue>,
    pub source_info: SourceInfo,
}

/// A class constraint.
#[derive(Debug)]
pub struct Constraint {
    pub name: String,
    pub function_definition: Expression,
    pub source_info: SourceInfo,
}

/// An enumeration definition.
#[derive(Debug)]
pub struct EnumDef {
    pub package: PackagePath,
    pub name: String,
    pub values: Vec<EnumValue>,
    pub stereotypes: Vec<StereotypePtr>,
    pub tagged_values: Vec<TaggedValue>,
    pub source_info: SourceInfo,
}

/// One value of an enumeration.
#[derive(Debug)]
pub struct EnumValue {
    pub value: String,
    pub stereotypes: Vec<StereotypePtr>,
    pub tagged_values: Vec<TaggedValue>,
    pub source_info: SourceInfo,
}

/// A function definition.
#[derive(Debug)]
pub struct FunctionDef {
    pub package: PackagePath,
    pub name: String,
    pub return_type: Type,
    pub return_multiplicity: Multiplicity,
    pub parameters: Vec<Variable>,
    pub expression: Vec<Expression>,
    pub source_info: SourceInfo,
}

/// A profile definition: its tags and stereotypes.
#[derive(Debug)]
pub struct ProfileDef {
    pub package: PackagePath,
    pub name: String,
    pub tags: Vec<ProfileTag>,
    pub stereotypes: Vec<ProfileStereotype>,
    pub source_info: SourceInfo,
}

/// A tag declared by a profile.
#[derive(Debug, Clone)]
pub struct ProfileTag {
    pub value: String,
    pub source_info: SourceInfo,
}

/// A stereotype declared by a profile.
#[derive(Debug, Clone)]
pub struct ProfileStereotype {
    pub value: String,
    pub source_info: SourceInfo,
}

/// An association definition.
#[derive(Debug)]
pub struct AssociationDef {
    pub package: PackagePath,
    pub name: String,
    pub source_info: SourceInfo,
}

/// A measure definition.
#[derive(Debug)]
pub struct MeasureDef {
    pub package: PackagePath,
    pub name: String,
    pub source_info: SourceInfo,
}

/// A variable (function or lambda parameter, or a `$x` reference).
#[derive(Debug)]
pub struct Variable {
    pub name: String,
    pub variable_type: Option<Type>,
    pub multiplicity: Option<Multiplicity>,
    pub source_info: SourceInfo,
}

/// A stereotype application `<<profile.value>>`.
#[derive(Debug, Clone)]
pub struct StereotypePtr {
    pub profile: String,
    pub value: String,
    pub profile_source_info: SourceInfo,
    pub source_info: SourceInfo,
}

/// A tagged value `{profile.tag = 'value'}`.
#[derive(Debug, Clone)]
pub struct TaggedValue {
    pub profile: String,
    pub profile_source_info: SourceInfo,
    pub tag: String,
    pub value: String,
    pub source_info: SourceInfo,
}

/// An element produced by a section plugin.
#[derive(Debug)]
pub struct ExtensionElement {
    pub section: String,
    pub element_type: String,
    pub package: PackagePath,
    pub name: String,
    pub source_info: SourceInfo,
}

// ───────────────────────────── expressions ─────────────────────────────

/// A Pure value specification.
#[derive(Debug)]
pub enum Expression {
    Variable(Variable),
    Lambda(Lambda),
    Application(FunctionApplication),
    Property(PropertyAccess),
    Literal(Literal),
    Collection(Vec<Expression>),
    ColumnSpec(ColumnSpec),
    ClassInstance(ClassInstance),
    Let(LetExpression),
    Not(Box<Expression>),
    ArithmeticOp { op: ArithOp, left: Box<Expression>, right: Box<Expression> },
    BooleanOp { op: BoolOp, left: Box<Expression>, right: Box<Expression> },
    ComparisonOp { op: CompOp, left: Box<Expression>, right: Box<Expression> },
}

/// A lambda: parameters and body.
#[derive(Debug)]
pub struct Lambda {
    pub parameters: Vec<Variable>,
    pub body: Vec<Expression>,
    pub source_info: SourceInfo,
}

/// A function application `f(a, b)` (also the desugaring of `a->f(b)`).
#[derive(Debug)]
pub struct FunctionApplication {
    pub function_name: String,
    pub parameters: Vec<Expression>,
    pub source_info: SourceInfo,
}

/// A property access `target.name`.
#[derive(Debug)]
pub struct PropertyAccess {
    pub property_name: String,
    pub target: Option<Box<Expression>>,
    pub source_info: SourceInfo,
}

/// A literal. Float literals keep the text they were written with.
#[derive(Debug)]
pub enum Literal {
    String(String, SourceInfo),
    Integer(i64, SourceInfo),
    Float(String, SourceInfo),
    Decimal(String, SourceInfo),
    Boolean(bool, SourceInfo),
    Date(String, SourceInfo),
}

/// A `let name = value` expression.
#[derive(Debug)]
pub struct LetExpression {
    pub name: String,
    pub value: Box<Expression>,
    pub source_info: SourceInfo,
}

/// A column specification `~name:Type` or `~name:lambda`.
#[derive(Debug)]
pub struct ColumnSpec {
    pub name: String,
    pub col_type: Option<Type>,
    pub mapping_function: Option<Lambda>,
    pub source_info: SourceInfo,
}

/// Arithmetic operators.
#[derive(Debug, Clone, Copy, PartialEq, Eq, Structural)]
pub enum ArithOp {
    Add,
    Subtract,
    Multiply,
    Divide,
}

/// Boolean operators.
#[derive(Debug, Clone, Copy, PartialEq, Eq, Structural)]
pub enum BoolOp {
    And,
    Or,
}

/// Comparison operators.
#[derive(Debug, Clone, Copy, PartialEq, Eq, Structural)]
pub enum CompOp {
    Eq,
    NotEq,
    Lt,
    Lte,
    Gt,
    Gte,
}

/// What an island plugin produced for an island such as `#>{db.table}#`.
#[derive(Debug, Clone)]
pub enum IslandData {
    RelationAccessor(RelationAccessorData),
}

/// The path of a relation accessor island: its dot-separated segments.
#[derive(Debug, Clone)]
pub struct RelationAccessorData {
    pub path: Vec<String>,
}

/// The value an island grammar produced.
#[derive(Debug, Clone)]
pub struct ClassInstance {
    pub instance_type: String,
    pub data: IslandData,
    pub source_info: SourceInfo,
}

} // verus!
