use vstd::prelude::*;
use crate::expr::CompiledExpression;

verus! {

/// How a target value is compared with the achieved metric.
#[derive(Clone, Copy, Debug, PartialEq, Eq, Structural)]
pub enum TargetMode {
    /// The target is an upper bound.
    Min,
    /// The target is a lower bound.
    Max,
    /// The target is to be met exactly.
    Target,
}

impl TargetMode {
    pub open spec fn repr_spec(self) -> Seq<char> {
        match self {
            TargetMode::Min => "TargetMode.Min"@,
            TargetMode::Max => "TargetMode.Max"@,
            TargetMode::Target => "TargetMode.Target"@,
        }
    }

    /// The qualified name of the mode.
    pub fn repr(&self) -> (r: String)
        ensures
            r@ == self.repr_spec(),
    {
        let s = match self {
            TargetMode::Min => "TargetMode.Min",
            TargetMode::Max => "TargetMode.Max",
            TargetMode::Target => "TargetMode.Target",
        };
        crate::text::string_of(crate::text::chars_of(s).as_slice())
    }
}

/// The relation a constraint asserts between its expression and its target parameter.
#[derive(Clone, Copy, Debug, PartialEq, Eq, Structural)]
pub enum RelationshipType {
    Equals,
    GreaterThan,
    LessThan,
    GreaterThanOrEqual,
    LessThanOrEqual,
}

impl RelationshipType {
    pub open spec fn repr_spec(self) -> Seq<char> {
        match self {
            RelationshipType::Equals => "RelationshipType.Equals"@,
            RelationshipType::GreaterThan => "RelationshipType.GreaterThan"@,
            RelationshipType::LessThan => "RelationshipType.LessThan"@,
            RelationshipType::GreaterThanOrEqual => "RelationshipType.GreaterThanOrEqual"@,
            RelationshipType::LessThanOrEqual => "RelationshipType.LessThanOrEqual"@,
        }
    }

    /// The qualified name of the relation.
    pub fn repr(&self) -> (r: String)
        ensures
            r@ == self.repr_spec(),
    {
        let s = match self {
            RelationshipType::Equals => "RelationshipType.Equals",
            RelationshipType::GreaterThan => "RelationshipType.GreaterThan",
            RelationshipType::LessThan => "RelationshipType.LessThan",
            RelationshipType::GreaterThanOrEqual => "RelationshipType.GreaterThanOrEqual",
            RelationshipType::LessThanOrEqual => "RelationshipType.LessThanOrEqual",
        };
        crate::text::string_of(crate::text::chars_of(s).as_slice())
    }
}

/// A named value applied before a test runs.
#[derive(Clone, Debug)]
pub struct Environment {
    pub name: String,
    pub value: String,
}

impl Environment {
    pub fn new(name: String, value: String) -> (r: Environment)
        ensures
            r.name@ == name@,
            r.value@ == value@,
    {
        Environment { name, value }
    }
}

/// A simulator program: one analysis directive followed by measurements.
#[derive(Clone, Debug)]
pub struct Test {
    pub name: String,
    pub spice_code: String,
    pub description: String,
    pub environment: Vec<Environment>,
}

impl Test {
    pub fn new(name: String, environment: Vec<Environment>, spice_code: String, description: String) -> (r: Test)
        ensures
            r.name@ == name@,
            r.environment@ == environment@,
            r.spice_code@ == spice_code@,
            r.description@ == description@,
    {
        Test { name, spice_code, description, environment }
    }
}

/// An algebraic relation: `expression(source_params) <relationship> target_param`.
/// Parameters are named; `compiled` is filled in by validation.
#[derive(Clone, Debug)]
pub struct ParameterConstraint {
    pub relationship: RelationshipType,
    pub description: String,
    pub expression: String,
    pub target_param: String,
    pub source_params: Vec<String>,
    pub compiled: Option<CompiledExpression>,
}

impl ParameterConstraint {
    pub fn new(
        target_param: String,
        source_params: Vec<String>,
        expression: String,
        relationship: RelationshipType,
        description: String,
    ) -> (r: ParameterConstraint)
        ensures
            r.target_param@ == target_param@,
            r.source_params@ == source_params@,
            r.expression@ == expression@,
            r.relationship == relationship,
            r.description@ == description@,
            r.compiled is None,
    {
        ParameterConstraint {
            relationship,
            description,
            expression,
            target_param,
            source_params,
            compiled: None,
        }
    }

    /// The compiled expression, once validation has made it.
    pub fn get_compiled(&self) -> (r: Option<&CompiledExpression>)
        ensures
            r matches Some(e) ==> self.compiled == Some(*e),
            r is None <==> self.compiled is None,
    {
        self.compiled.as_ref()
    }
}

/// How `current` stands against the value an expression computed.
#[derive(Clone, Copy, Debug, PartialEq, Eq, Structural)]
pub enum Standing {
    Below,
    Equal,
    Above,
}

/// What projection does to a constraint's target parameter.
#[derive(Clone, Copy, Debug, PartialEq, Eq, Structural)]
pub enum Correction {
    /// Leave the current value.
    Keep,
    /// Replace it by the computed value.
    Replace,
    /// Replace it by the computed value plus the margin.
    ReplaceAbove,
    /// Replace it by the computed value minus the margin.
    ReplaceBelow,
}

/// The correction that restores `rel` for a target that stands `standing` against the
/// computed value.
pub open spec fn correction_spec(rel: RelationshipType, standing: Standing) -> Correction {
    match rel {
        RelationshipType::Equals => Correction::Replace,
        RelationshipType::GreaterThanOrEqual => if standing == Standing::Below {
            Correction::Replace
        } else {
            Correction::Keep
        },
        RelationshipType::LessThanOrEqual => if standing == Standing::Above {
            Correction::Replace
        } else {
            Correction::Keep
        },
        RelationshipType::GreaterThan => if standing != Standing::Above {
            Correction::ReplaceAbove
        } else {
            Correction::Keep
        },
        RelationshipType::LessThan => if standing != Standing::Below {
            Correction::ReplaceBelow
        } else {
            Correction::Keep
        },
    }
}

impl RelationshipType {
    /// The correction that restores the relation for a target that stands `standing`
    /// against the computed value.
    pub fn correction(self, standing: Standing) -> (r: Correction)
        ensures
            r == correction_spec(self, standing),
    {
        match self {
            RelationshipType::Equals => Correction::Replace,
            RelationshipType::GreaterThanOrEqual => if standing == Standing::Below {
                Correction::Replace
            } else {
                Correction::Keep
            },
            RelationshipType::LessThanOrEqual => if standing == Standing::Above {
                Correction::Replace
            } else {
                Correction::Keep
            },
            RelationshipType::GreaterThan => if standing != Standing::Above {
                Correction::ReplaceAbove
            } else {
                Correction::Keep
            },
            RelationshipType::LessThan => if standing != Standing::Below {
                Correction::ReplaceBelow
            } else {
                Correction::Keep
            },
        }
    }
}

} // verus!
