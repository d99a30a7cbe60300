use vstd::prelude::*;

use crate::text::{i32_to_text, int_text};

verus! {

/// How a constraint compares a value with its bound.
#[derive(Debug, Clone, Copy, PartialEq, Eq, Structural)]
pub enum ConstraintType {
    Min,
    Max,
    Equal,
    NotEqual,
    AtLeast,
    AtMost,
}

/// A rule that a field's value must meet.
#[derive(Debug, Clone)]
pub struct Constraint {
    pub constraint_type: ConstraintType,
    pub value: i32,
    pub field: String,
    pub scope: String,
    pub shared: bool,
    pub id: String,
    pub include_child_selections: Option<bool>,
    pub include_child_forces: Option<bool>,
    pub percent_value: Option<bool>,
}

/// The outcome of checking one value against one constraint.
#[derive(Debug)]
pub struct ValidationResult {
    pub is_valid: bool,
    pub message: String,
    pub constraint: Constraint,
}

/// The mathematical value of a constraint.
pub struct ConstraintV {
    pub constraint_type: ConstraintType,
    pub value: i32,
    pub field: Seq<char>,
    pub scope: Seq<char>,
    pub shared: bool,
    pub id: Seq<char>,
    pub include_child_selections: Option<bool>,
    pub include_child_forces: Option<bool>,
    pub percent_value: Option<bool>,
}

/// The mathematical value of a validation result.
pub struct ResultV {
    pub is_valid: bool,
    pub message: Seq<char>,
    pub constraint: ConstraintV,
}

impl View for Constraint {
    type V = ConstraintV;

    open spec fn view(&self) -> ConstraintV {
        ConstraintV {
            constraint_type: self.constraint_type,
            value: self.value,
            field: self.field@,
            scope: self.scope@,
            shared: self.shared,
            id: self.id@,
            include_child_selections: self.include_child_selections,
            include_child_forces: self.include_child_forces,
            percent_value: self.percent_value,
        }
    }
}

impl View for ValidationResult {
    type V = ResultV;

    open spec fn view(&self) -> ResultV {
        ResultV { is_valid: self.is_valid, message: self.message@, constraint: self.constraint@ }
    }
}

/// The name of a constraint type as catalogue files write it.
pub open spec fn type_text(t: ConstraintType) -> Seq<char> {
    match t {
        ConstraintType::Min => "min"@,
        ConstraintType::Max => "max"@,
        ConstraintType::Equal => "equal"@,
        ConstraintType::NotEqual => "notEqual"@,
        ConstraintType::AtLeast => "atLeast"@,
        ConstraintType::AtMost => "atMost"@,
    }
}

/// The constraint type that a catalogue name stands for.
pub open spec fn type_named(s: Seq<char>) -> Option<ConstraintType> {
    if s == "min"@ {
        Some(ConstraintType::Min)
    } else if s == "max"@ {
        Some(ConstraintType::Max)
    } else if s == "equal"@ {
        Some(ConstraintType::Equal)
    } else if s == "notEqual"@ {
        Some(ConstraintType::NotEqual)
    } else if s == "atLeast"@ {
        Some(ConstraintType::AtLeast)
    } else if s == "atMost"@ {
        Some(ConstraintType::AtMost)
    } else {
        None
    }
}

/// Whether `value` meets a constraint of type `t` with bound `bound`.
pub open spec fn meets(t: ConstraintType, value: i32, bound: i32) -> bool {
    match t {
        ConstraintType::Min => value >= bound,
        ConstraintType::Max => value <= bound,
        ConstraintType::Equal => value == bound,
        ConstraintType::NotEqual => value != bound,
        ConstraintType::AtLeast => value >= bound,
        ConstraintType::AtMost => value <= bound,
    }
}

/// The text that describes a constraint.
pub open spec fn constraint_text(c: ConstraintV) -> Seq<char> {
    "Constraint { type: "@ + type_text(c.constraint_type) + ", value: "@ + int_text(c.value as int)
        + ", field: "@ + c.field + ", scope: "@ + c.scope + ", id: "@ + c.id + " }"@
}

/// Whether two strings hold the same characters.
pub(crate) fn same_text(a: &String, b: &str) -> (r: bool)
    ensures
        r == (a@ == b@),
{
    *a == String::from_str(b)
}

impl ConstraintType {
    /// The name of the type as catalogue files write it.
    pub fn to_string(&self) -> (r: String)
        ensures
            r@ == type_text(*self),
    {
        match self {
            ConstraintType::Min => String::from_str("min"),
            ConstraintType::Max => String::from_str("max"),
            ConstraintType::Equal => String::from_str("equal"),
            ConstraintType::NotEqual => String::from_str("notEqual"),
            ConstraintType::AtLeast => String::from_str("atLeast"),
            ConstraintType::AtMost => String::from_str("atMost"),
        }
    }

    /// The type that a catalogue name stands for, if any.
    pub(crate) fn from_name(s: &String) -> (r: Option<ConstraintType>)
        ensures
            r == type_named(s@),
    {
        if same_text(s, "min") {
            Some(ConstraintType::Min)
        } else if same_text(s, "max") {
            Some(ConstraintType::Max)
        } else if same_text(s, "equal") {
            Some(ConstraintType::Equal)
        } else if same_text(s, "notEqual") {
            Some(ConstraintType::NotEqual)
        } else if same_text(s, "atLeast") {
            Some(ConstraintType::AtLeast)
        } else if same_text(s, "atMost") {
            Some(ConstraintType::AtMost)
        } else {
            None
        }
    }
}

impl Constraint {
    /// A copy of the constraint with the same field values.
    pub(crate) fn duplicate(&self) -> (r: Constraint)
        ensures
            r@ == self@,
    {
        Constraint {
            constraint_type: self.constraint_type,
            value: self.value,
            field: self.field.clone(),
            scope: self.scope.clone(),
            shared: self.shared,
            id: self.id.clone(),
            include_child_selections: self.include_child_selections,
            include_child_forces: self.include_child_forces,
            percent_value: self.percent_value,
        }
    }

    /// A one-line description of the constraint.
    pub fn to_string(&self) -> (r: String)
        ensures
            r@ == constraint_text(self@),
    {
        let s = String::from_str("Constraint { type: ");
        let s = s.concat(self.constraint_type.to_string().as_str());
        let s = s.concat(", value: ");
        let s = s.concat(i32_to_text(self.value).as_str());
        let s = s.concat(", field: ");
        let s = s.concat(self.field.as_str());
        let s = s.concat(", scope: ");
        let s = s.concat(self.scope.as_str());
        let s = s.concat(", id: ");
        let s = s.concat(self.id.as_str());
        s.concat(" }")
    }
}

} // verus!
