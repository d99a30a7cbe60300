use vstd::prelude::*;

use crate::constraint::{
    constraint_text, meets, same_text, type_named, type_text, Constraint, ConstraintType,
    ConstraintV, ResultV, ValidationResult,
};
use crate::document::{attr_lookup, lemma_nodes_view, node_view, ElemV, NodeV, XmlElement, XmlNode};
use crate::text::{i32_text_value, i32_to_text, int_text, parse_i32};

verus! {

/// Holds constraints and checks values against them.
pub struct ConstraintValidator {
    constraints: Vec<Constraint>,
}

pub open spec fn constraints_view(cs: Seq<Constraint>) -> Seq<ConstraintV> {
    cs.map_values(|c: Constraint| c@)
}

pub open spec fn results_view(rs: Seq<ValidationResult>) -> Seq<ResultV> {
    rs.map_values(|r: ValidationResult| r@)
}

pub open spec fn refs_view(cs: Seq<&Constraint>) -> Seq<ConstraintV> {
    cs.map_values(|c: &Constraint| c@)
}

impl View for ConstraintValidator {
    type V = Seq<ConstraintV>;

    closed spec fn view(&self) -> Seq<ConstraintV> {
        constraints_view(self.constraints@)
    }
}

/// An optional flag attribute: present means `true` exactly when its value is `true`.
pub open spec fn flag(v: Option<Seq<char>>) -> Option<bool> {
    match v {
        Some(s) => Some(s == "true"@),
        None => None,
    }
}

/// The constraint that a `constraint` element describes, or the message saying why it
/// describes none.
pub open spec fn constraint_of(e: ElemV) -> Result<ConstraintV, Seq<char>> {
    let a = e.attrs;
    match attr_lookup(a, "type"@) {
        None => Err("Constraint type is required"@),
        Some(t) => match type_named(t) {
            None => Err("Unknown constraint type: "@ + t),
            Some(ct) => match attr_lookup(a, "value"@) {
                None => Err("Constraint value is required"@),
                Some(vs) => match i32_text_value(vs) {
                    None => Err("Constraint value must be a valid integer"@),
                    Some(v) => match attr_lookup(a, "field"@) {
                        None => Err("Constraint field is required"@),
                        Some(f) => match attr_lookup(a, "id"@) {
                            None => Err("Constraint id is required"@),
                            Some(id) => Ok(
                                ConstraintV {
                                    constraint_type: ct,
                                    value: v,
                                    field: f,
                                    scope: match attr_lookup(a, "scope"@) {
                                        Some(s) => s,
                                        None => "parent"@,
                                    },
                                    shared: attr_lookup(a, "shared"@) == Some("true"@),
                                    id,
                                    include_child_selections: flag(
                                        attr_lookup(a, "includeChildSelections"@),
                                    ),
                                    include_child_forces: flag(
                                        attr_lookup(a, "includeChildForces"@),
                                    ),
                                    percent_value: flag(attr_lookup(a, "percentValue"@)),
                                },
                            ),
                        },
                    },
                },
            },
        },
    }
}

/// The constraints read from the `constraint` children of `ns`, in order, up to the first
/// one that fails, and that failure's message.
pub open spec fn collect_constraints(ns: Seq<NodeV>) -> (Seq<ConstraintV>, Option<Seq<char>>)
    decreases ns.len(),
{
    if ns.len() == 0 {
        (Seq::empty(), None)
    } else {
        let (cs, err) = collect_constraints(ns.drop_last());
        if err is Some {
            (cs, err)
        } else {
            match ns.last() {
                NodeV::Element(e) => if e.name == "constraint"@ {
                    match constraint_of(e) {
                        Ok(c) => (cs.push(c), None),
                        Err(m) => (cs, Some(m)),
                    }
                } else {
                    (cs, None)
                },
                _ => (cs, None),
            }
        }
    }
}

/// The message for checking `value` against `c`.
pub open spec fn result_message(c: ConstraintV, value: i32) -> Seq<char> {
    "Value "@ + int_text(value as int) + (if meets(c.constraint_type, value, c.value) {
        " meets constraint "@
    } else {
        " fails constraint "@
    }) + type_text(c.constraint_type) + " "@ + int_text(c.value as int)
}

/// The result of checking `value` against `c`.
pub open spec fn check(c: ConstraintV, value: i32) -> ResultV {
    ResultV {
        is_valid: meets(c.constraint_type, value, c.value),
        message: result_message(c, value),
        constraint: c,
    }
}

/// The results of checking `value` against each constraint on `field`, in order.
pub open spec fn check_all(cs: Seq<ConstraintV>, field: Seq<char>, value: i32) -> Seq<ResultV>
    decreases cs.len(),
{
    if cs.len() == 0 {
        Seq::empty()
    } else if cs.last().field == field {
        check_all(cs.drop_last(), field, value).push(check(cs.last(), value))
    } else {
        check_all(cs.drop_last(), field, value)
    }
}

/// The constraints of `cs` on `field`, in order.
pub open spec fn on_field(cs: Seq<ConstraintV>, field: Seq<char>) -> Seq<ConstraintV>
    decreases cs.len(),
{
    if cs.len() == 0 {
        Seq::empty()
    } else if cs.last().field == field {
        on_field(cs.drop_last(), field).push(cs.last())
    } else {
        on_field(cs.drop_last(), field)
    }
}

/// The constraints of `cs` of type `t`, in order.
pub open spec fn of_type(cs: Seq<ConstraintV>, t: ConstraintType) -> Seq<ConstraintV>
    decreases cs.len(),
{
    if cs.len() == 0 {
        Seq::empty()
    } else if cs.last().constraint_type == t {
        of_type(cs.drop_last(), t).push(cs.last())
    } else {
        of_type(cs.drop_last(), t)
    }
}

fn message_for(c: &Constraint, value: i32, is_valid: bool) -> (r: String)
    requires
        is_valid == meets(c.constraint_type, value, c.value),
    ensures
        r@ == result_message(c@, value),
{
    let s = String::from_str("Value ");
    let s = s.concat(i32_to_text(value).as_str());
    let s = if is_valid {
        s.concat(" meets constraint ")
    } else {
        s.concat(" fails constraint ")
    };
    let s = s.concat(c.constraint_type.to_string().as_str());
    let s = s.concat(" ");
    let s = s.concat(i32_to_text(c.value).as_str());
    s
}

fn attribute_flag(element: &XmlElement, name: &str) -> (r: Option<bool>)
    ensures
        r == flag(attr_lookup(element@.attrs, name@)),
{
    match element.get_attribute(name) {
        Some(s) => Some(same_text(s, "true")),
        None => None,
    }
}

impl ConstraintValidator {
    /// A validator with no constraints.
    pub fn new() -> (r: Self)
        ensures
            r@ == Seq::<ConstraintV>::empty(),
    {
        let r = ConstraintValidator { constraints: Vec::new() };
        assert(r@ =~= Seq::<ConstraintV>::empty());
        r
    }

    /// Adds a constraint after the ones already held.
    pub fn add_constraint(&mut self, constraint: Constraint)
        ensures
            final(self)@ == old(self)@.push(constraint@),
    {
        self.constraints.push(constraint);
        assert(self@ =~= old(self)@.push(constraint@));
    }

    /// Reads one `constraint` element: its `type`, `value`, `field` and `id` attributes are
    /// required; `scope` defaults to `parent`; the flags are `true` when written `true`.
    pub fn parse_constraint_element(&self, element: &XmlElement) -> (r: Result<Constraint, String>)
        ensures
            match r {
                Ok(c) => constraint_of(element@) == Ok::<ConstraintV, Seq<char>>(c@),
                Err(m) => constraint_of(element@) == Err::<ConstraintV, Seq<char>>(m@),
            },
    {
        let constraint_type = match element.get_attribute("type") {
            Some(type_str) => match ConstraintType::from_name(type_str) {
                Some(t) => t,
                None => {
                    return Err(String::from_str("Unknown constraint type: ").concat(type_str.as_str()));
                },
            },
            None => {
                return Err(String::from_str("Constraint type is required"));
            },
        };
        let value = match element.get_attribute("value") {
            Some(s) => match parse_i32(s.as_str()) {
                Some(v) => v,
                None => {
                    return Err(String::from_str("Constraint value must be a valid integer"));
                },
            },
            None => {
                return Err(String::from_str("Constraint value is required"));
            },
        };
        let field = match element.get_attribute("field") {
            Some(s) => s.clone(),
            None => {
                return Err(String::from_str("Constraint field is required"));
            },
        };
        let scope = match element.get_attribute("scope") {
            Some(s) => s.clone(),
            None => String::from_str("parent"),
        };
        let shared = match element.get_attribute("shared") {
            Some(s) => same_text(s, "true"),
            None => false,
        };
        let id = match element.get_attribute("id") {
            Some(s) => s.clone(),
            None => {
                return Err(String::from_str("Constraint id is required"));
            },
        };
        let include_child_selections = attribute_flag(element, "includeChildSelections");
        let include_child_forces = attribute_flag(element, "includeChildForces");
        let percent_value = attribute_flag(element, "percentValue");
        Ok(
            Constraint {
                constraint_type,
                value,
                field,
                scope,
                shared,
                id,
                include_child_selections,
                include_child_forces,
                percent_value,
            },
        )
    }

    /// Reads the `constraint` children of a `constraints` element, in order, and adds each.
    /// The first one that fails stops the reading: those before it stay added.
    pub fn parse_constraints_from_element(&mut self, element: &XmlElement) -> (r: Result<(), String>)
        ensures
            element@.name != "constraints"@ ==> r is Err && r->Err_0@
                == "Element is not a constraints element"@ && final(self)@ == old(self)@,
            element@.name == "constraints"@ ==> final(self)@ == old(self)@ + collect_constraints(
                element@.children,
            ).0 && match collect_constraints(element@.children).1 {
                None => r is Ok,
                Some(m) => r is Err && r->Err_0@ == m,
            },
    {
        if !same_text(&element.name, "constraints") {
            return Err(String::from_str("Element is not a constraints element"));
        }
        let ghost ns = element@.children;
        proof {
            lemma_nodes_view(element.children@);
            assert(old(self)@ + collect_constraints(ns.subrange(0, 0)).0 =~= old(self)@);
        }
        let mut i: usize = 0;
        while i < element.children.len()
            invariant
                i <= element.children@.len(),
                ns == element@.children,
                ns.len() == element.children@.len(),
                forall|k: int| 0 <= k < ns.len() ==> #[trigger] ns[k] == node_view(element.children@[k]),
                self@ == old(self)@ + collect_constraints(ns.subrange(0, i as int)).0,
                collect_constraints(ns.subrange(0, i as int)).1 is None,
                element@.name == "constraints"@,
            decreases element.children@.len() - i,
        {
            let ghost before = ns.subrange(0, i as int);
            let ghost after = ns.subrange(0, i + 1);
            assert(after.drop_last() =~= before);
            assert(after.last() == ns[i as int]);
            if let XmlNode::Element(constraint_element) = &element.children[i] {
                if same_text(&constraint_element.name, "constraint") {
                    match self.parse_constraint_element(constraint_element) {
                        Ok(c) => {
                            self.add_constraint(c);
                            assert(self@ =~= old(self)@ + collect_constraints(after).0);
                        },
                        Err(m) => {
                            proof {
                                lemma_collect_stops(ns, i + 1);
                                assert(ns.subrange(0, ns.len() as int) =~= ns);
                            }
                            return Err(m);
                        },
                    }
                }
            }
            i = i + 1;
        }
        assert(ns.subrange(0, ns.len() as int) =~= ns);
        Ok(())
    }

    /// Checks `value` against every constraint on `field_name`, in the order they were added.
    pub fn validate_value(&self, field_name: &str, value: i32) -> (r: Vec<ValidationResult>)
        ensures
            results_view(r@) == check_all(self@, field_name@, value),
    {
        let target = String::from_str(field_name);
        let ghost cs = self@;
        let mut results: Vec<ValidationResult> = Vec::new();
        let mut i: usize = 0;
        proof {
            assert(results_view(results@) =~= check_all(cs.subrange(0, 0), field_name@, value));
        }
        while i < self.constraints.len()
            invariant
                i <= self.constraints@.len(),
                cs == self@,
                cs == constraints_view(self.constraints@),
                target@ == field_name@,
                results_view(results@) == check_all(cs.subrange(0, i as int), field_name@, value),
            decreases self.constraints@.len() - i,
        {
            let ghost before = cs.subrange(0, i as int);
            let ghost after = cs.subrange(0, i + 1);
            assert(after.drop_last() =~= before);
            let constraint = &self.constraints[i];
            if constraint.field == target {
                let is_valid = match constraint.constraint_type {
                    ConstraintType::Min => value >= constraint.value,
                    ConstraintType::Max => value <= constraint.value,
                    ConstraintType::Equal => value == constraint.value,
                    ConstraintType::NotEqual => value != constraint.value,
                    ConstraintType::AtLeast => value >= constraint.value,
                    ConstraintType::AtMost => value <= constraint.value,
                };
                let message = message_for(constraint, value, is_valid);
                let ghost old_results = results@;
                let copy = constraint.duplicate();
                results.push(ValidationResult { is_valid, message, constraint: copy });
                assert(results_view(results@) =~= results_view(old_results).push(
                    check(after.last(), value),
                ));
            }
            i = i + 1;
        }
        assert(cs.subrange(0, cs.len() as int) =~= cs);
        results
    }

    /// Checks a selection count against the constraints on the `selections` field.
    pub fn validate_selections(&self, selection_count: i32) -> (r: Vec<ValidationResult>)
        ensures
            results_view(r@) == check_all(self@, "selections"@, selection_count),
    {
        self.validate_value("selections", selection_count)
    }

    /// Checks `value` against the constraints on `field_id`.
    pub fn validate_field(&self, field_id: &str, value: i32) -> (r: Vec<ValidationResult>)
        ensures
            results_view(r@) == check_all(self@, field_id@, value),
    {
        self.validate_value(field_id, value)
    }

    /// The constraints on `field_name`, in the order they were added.
    pub fn get_constraints_for_field(&self, field_name: &str) -> (r: Vec<&Constraint>)
        ensures
            refs_view(r@) == on_field(self@, field_name@),
    {
        let target = String::from_str(field_name);
        let ghost cs = self@;
        let mut found: Vec<&Constraint> = Vec::new();
        let mut i: usize = 0;
        proof {
            assert(refs_view(found@) =~= on_field(cs.subrange(0, 0), field_name@));
        }
        while i < self.constraints.len()
            invariant
                i <= self.constraints@.len(),
                cs == self@,
                cs == constraints_view(self.constraints@),
                target@ == field_name@,
                refs_view(found@) == on_field(cs.subrange(0, i as int), field_name@),
            decreases self.constraints@.len() - i,
        {
            let ghost after = cs.subrange(0, i + 1);
            assert(after.drop_last() =~= cs.subrange(0, i as int));
            let constraint = &self.constraints[i];
            if constraint.field == target {
                let ghost old_found = found@;
                found.push(constraint);
                assert(refs_view(found@) =~= refs_view(old_found).push(constraint@));
            }
            i = i + 1;
        }
        assert(cs.subrange(0, cs.len() as int) =~= cs);
        found
    }

    /// The constraints of type `constraint_type`, in the order they were added.
    pub fn get_constraints_by_type(&self, constraint_type: &ConstraintType) -> (r: Vec<&Constraint>)
        ensures
            refs_view(r@) == of_type(self@, *constraint_type),
    {
        let ghost cs = self@;
        let mut found: Vec<&Constraint> = Vec::new();
        let mut i: usize = 0;
        proof {
            assert(refs_view(found@) =~= of_type(cs.subrange(0, 0), *constraint_type));
        }
        while i < self.constraints.len()
            invariant
                i <= self.constraints@.len(),
                cs == self@,
                cs == constraints_view(self.constraints@),
                refs_view(found@) == of_type(cs.subrange(0, i as int), *constraint_type),
            decreases self.constraints@.len() - i,
        {
            let ghost after = cs.subrange(0, i + 1);
            assert(after.drop_last() =~= cs.subrange(0, i as int));
            let constraint = &self.constraints[i];
            if constraint.constraint_type == *constraint_type {
                let ghost old_found = found@;
                found.push(constraint);
                assert(refs_view(found@) =~= refs_view(old_found).push(constraint@));
            }
            i = i + 1;
        }
        assert(cs.subrange(0, cs.len() as int) =~= cs);
        found
    }

    /// Removes every constraint.
    pub fn clear_constraints(&mut self)
        ensures
            final(self)@ == Seq::<ConstraintV>::empty(),
    {
        self.constraints.clear();
        assert(self@ =~= Seq::<ConstraintV>::empty());
    }

    /// How many constraints are held.
    pub fn constraint_count(&self) -> (r: usize)
        ensures
            r == self@.len(),
    {
        self.constraints.len()
    }

    /// Checks `value` against the constraints on `field_name`; the text is not read.
    pub fn validate_xml_constraints_string(
        &self,
        xml_string: &str,
        field_name: &str,
        value: i32,
    ) -> (r: Result<Vec<ValidationResult>, String>)
        ensures
            r is Ok,
            results_view(r->Ok_0@) == check_all(self@, field_name@, value),
    {
        Ok(self.validate_value(field_name, value))
    }

    /// A validator with no constraints; the text is not read.
    pub fn from_xml_string(xml_string: &str) -> (r: Result<Self, String>)
        ensures
            r is Ok,
            r->Ok_0@ == Seq::<ConstraintV>::empty(),
    {
        Ok(Self::new())
    }

    /// A validator holding the constraints of a `constraints` element, or the message of
    /// the first one that cannot be read.
    pub fn from_selection_entry_group_constraints(constraints_element: &XmlElement) -> (r: Result<
        Self,
        String,
    >)
        ensures
            constraints_element@.name != "constraints"@ ==> r is Err && r->Err_0@
                == "Element is not a constraints element"@,
            constraints_element@.name == "constraints"@ ==> match collect_constraints(
                constraints_element@.children,
            ).1 {
                None => r is Ok && r->Ok_0@ == collect_constraints(
                    constraints_element@.children,
                ).0,
                Some(m) => r is Err && r->Err_0@ == m,
            },
    {
        let mut validator = Self::new();
        match validator.parse_constraints_from_element(constraints_element) {
            Ok(()) => {
                assert(validator@ =~= collect_constraints(constraints_element@.children).0);
                Ok(validator)
            },
            Err(m) => Err(m),
        }
    }
}

/// Once reading the children has failed, the children after it change nothing.
proof fn lemma_collect_stops(ns: Seq<NodeV>, k: int)
    requires
        0 <= k <= ns.len(),
        collect_constraints(ns.subrange(0, k)).1 is Some,
    ensures
        collect_constraints(ns) == collect_constraints(ns.subrange(0, k)),
    decreases ns.len() - k,
{
    if k < ns.len() {
        assert(ns.drop_last().subrange(0, k) =~= ns.subrange(0, k));
        lemma_collect_stops(ns.drop_last(), k);
    } else {
        assert(ns.subrange(0, k) =~= ns);
    }
}

} // verus!
