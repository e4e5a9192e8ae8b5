//! Which field holds the error core.

use vstd::prelude::*;

use crate::error_derive::syntax::{
    fields_of, has_name, identifier, is_named, is_plain, named_throughout, parse_identifier, plain, refuse,
    Attribute, Data, Diagnostic, DiagnosticModel, Field, FieldType, Input, List, Member, MemberModel, Meta,
    Place,
};

verus! {

pub const NO_ERROR_FIELD: &'static str = "No field marked with `#[error]` found and no OhnoCore field detected. Either mark a field with `#[error]` or include a field of type OhnoCore";

pub const MULTIPLE_ERROR_FIELDS: &'static str = "Multiple OhnoCore fields found. Please mark the desired field with `#[error]` to disambiguate";

pub const ERROR_ATTRIBUTE_ARGUMENTS: &'static str = "`#[error]` takes no arguments";

pub const MULTIPLE_MARKED_FIELDS: &'static str = "Multiple fields marked with `#[error]`. Mark only the field holding the OhnoCore";

pub const DUPLICATE_MARKER: &'static str = "Duplicate `#[error]` on the same field. Mark it once";

pub const MARKED_FIELD_TYPE: &'static str = "`#[error]` marks the field holding the OhnoCore, so it cannot appear on a field of another type. Refer to the type by its own name if it is reached through an alias or a rename";

pub const NOT_A_STRUCT: &'static str = "Error derive only supports structs";

pub const UNIT_STRUCT: &'static str = "Error derive does not support unit structs";

/// The word that marks the core field which the error attribute adds.
pub const GENERATED_MARKER: &'static str = "generated";

/// The place of the first attribute of that name at or after a place, or the number of attributes.
pub open spec fn next_named(attributes: Seq<Attribute>, name: Seq<char>, from: int) -> int
    decreases attributes.len() - from,
{
    if from >= attributes.len() {
        attributes.len() as int
    } else if is_named(attributes[from], name) {
        from
    } else {
        next_named(attributes, name, from + 1)
    }
}

/// Finds the first attribute of that name at or after a place.
pub fn find_named(attributes: &Vec<Attribute>, name: &str, from: usize) -> (place: usize)
    requires
        from <= attributes@.len(),
    ensures
        place == next_named(attributes@, name@, from as int),
        from <= place <= attributes@.len(),
        place < attributes@.len() ==> is_named(attributes@[place as int], name@),
{
    let mut at: usize = from;
    while at < attributes.len()
        invariant
            from <= at <= attributes@.len(),
            next_named(attributes@, name@, from as int) == next_named(attributes@, name@, at as int),
        decreases attributes@.len() - at,
    {
        if has_name(&attributes[at], name) {
            return at;
        }
        at = at + 1;
    }
    at
}

/// Whether the tokens are the marker of a generated field.
pub open spec fn marks_generated(tokens: Seq<char>) -> bool {
    plain(tokens) && identifier(tokens) == Some(GENERATED_MARKER@)
}

/// Checks whether an argument list is the marker of a generated field.
pub fn is_generated_marker(tokens: &str) -> (generated: bool)
    ensures
        generated == marks_generated(tokens@),
{
    if !is_plain(tokens) {
        return false;
    }
    match parse_identifier(tokens) {
        Some(name) => name == GENERATED_MARKER.to_owned(),
        None => false,
    }
}

/// Whether the attribute marks a generated field.
pub open spec fn generated_attribute(attribute: Attribute) -> bool {
    &&& is_named(attribute, "error"@)
    &&& attribute.meta matches Meta::List(List::Tokens(tokens))
    &&& marks_generated(tokens@)
}

/// Whether the field is one that the error attribute added.
pub open spec fn generated_field(field: Field) -> bool {
    exists|at: int| 0 <= at < field.attributes@.len() && #[trigger] generated_attribute(field.attributes@[at])
}

/// Checks whether the field is one that the error attribute added.
pub fn is_generated_error_field(field: &Field) -> (generated: bool)
    ensures
        generated == generated_field(*field),
{
    let mut at: usize = 0;
    while at < field.attributes.len()
        invariant
            at <= field.attributes@.len(),
            forall|before: int| 0 <= before < at ==> !#[trigger] generated_attribute(field.attributes@[before]),
        decreases field.attributes@.len() - at,
    {
        if has_name(&field.attributes[at], "error") {
            if let Meta::List(List::Tokens(tokens)) = &field.attributes[at].meta {
                if is_generated_marker(tokens.as_str()) {
                    assert(generated_attribute(field.attributes@[at as int]));
                    return true;
                }
            }
        }
        at = at + 1;
    }
    false
}

/// Whether the type is the core type, under whatever path.
pub open spec fn core_type(field_type: FieldType) -> bool {
    &&& field_type matches FieldType::Path(segments)
    &&& segments@.len() > 0
    &&& segments@.last()@ == "OhnoCore"@
}

/// Checks whether a type is the core type, under whatever path.
pub fn is_inner_error_type(field_type: &FieldType) -> (inner: bool)
    ensures
        inner == core_type(*field_type),
{
    match field_type {
        FieldType::Path(segments) => {
            if segments.len() == 0 {
                return false;
            }
            segments[segments.len() - 1] == "OhnoCore".to_owned()
        },
        FieldType::Other => false,
    }
}

/// The attribute that marks the field, by its place among the field's attributes.
pub open spec fn mark(field: Field) -> int {
    next_named(field.attributes@, "error"@, 0)
}

/// Whether the field carries the error attribute.
pub open spec fn marked(field: Field) -> bool {
    mark(field) < field.attributes@.len()
}

/// Whether the error attribute has one of its two forms.
pub open spec fn mark_form(meta: Meta) -> bool {
    match meta {
        Meta::Path => true,
        Meta::List(List::Tokens(tokens)) => marks_generated(tokens@),
        _ => false,
    }
}

/// What is wrong with a field's mark, where some fields before it are marked already.
pub open spec fn mark_problem(field: Field, at: int, marked_before: bool) -> Option<DiagnosticModel> {
    let first = mark(field);
    let second = next_named(field.attributes@, "error"@, first + 1);
    if !marked(field) {
        None
    } else if second < field.attributes@.len() {
        Some(DiagnosticModel {
            place: Place::FieldAttribute { field: at as usize, attribute: second as usize },
            message: DUPLICATE_MARKER@,
        })
    } else if !mark_form(field.attributes@[first].meta) {
        Some(DiagnosticModel {
            place: Place::FieldAttribute { field: at as usize, attribute: first as usize },
            message: ERROR_ATTRIBUTE_ARGUMENTS@,
        })
    } else if !core_type(field.field_type) {
        Some(DiagnosticModel { place: Place::FieldType { field: at as usize }, message: MARKED_FIELD_TYPE@ })
    } else if marked_before {
        Some(DiagnosticModel {
            place: Place::FieldAttribute { field: at as usize, attribute: first as usize },
            message: MULTIPLE_MARKED_FIELDS@,
        })
    } else {
        None
    }
}

/// The first problem with the marks of the fields from a place on.
pub open spec fn marks_problem(fields: Seq<Field>, at: int, marked_before: bool) -> Option<DiagnosticModel>
    decreases fields.len() - at,
{
    if at >= fields.len() {
        None
    } else {
        match mark_problem(fields[at], at, marked_before) {
            Some(problem) => Some(problem),
            None => marks_problem(fields, at + 1, marked_before || marked(fields[at])),
        }
    }
}

/// Whether a result reports the problem, or nothing where there is none.
pub open spec fn reports(result: Result<(), Diagnostic>, problem: Option<DiagnosticModel>) -> bool {
    match result {
        Ok(()) => problem is None,
        Err(diagnostic) => problem == Some(diagnostic@),
    }
}

fn validate_field(field: &Field, at: usize, marked_before: bool) -> (result: Result<bool, Diagnostic>)
    ensures
        match result {
            Ok(own) => mark_problem(*field, at as int, marked_before) is None && own == marked(*field),
            Err(diagnostic) => mark_problem(*field, at as int, marked_before) == Some(diagnostic@),
        },
{
    let first: usize = find_named(&field.attributes, "error", 0);
    if first == field.attributes.len() {
        return Ok(false);
    }
    let second: usize = find_named(&field.attributes, "error", first + 1);
    if second < field.attributes.len() {
        return Err(refuse(Place::FieldAttribute { field: at, attribute: second }, DUPLICATE_MARKER));
    }
    let accepted: bool = match &field.attributes[first].meta {
        Meta::Path => true,
        Meta::List(List::Tokens(tokens)) => is_generated_marker(tokens.as_str()),
        _ => false,
    };
    if !accepted {
        return Err(refuse(Place::FieldAttribute { field: at, attribute: first }, ERROR_ATTRIBUTE_ARGUMENTS));
    }
    if !is_inner_error_type(&field.field_type) {
        return Err(refuse(Place::FieldType { field: at }, MARKED_FIELD_TYPE));
    }
    if marked_before {
        return Err(refuse(Place::FieldAttribute { field: at, attribute: first }, MULTIPLE_MARKED_FIELDS));
    }
    Ok(true)
}

fn validate_fields(fields: &Vec<Field>) -> (result: Result<(), Diagnostic>)
    ensures
        reports(result, marks_problem(fields@, 0, false)),
{
    let mut at: usize = 0;
    let mut marked_before: bool = false;
    while at < fields.len()
        invariant
            at <= fields@.len(),
            marks_problem(fields@, 0, false) == marks_problem(fields@, at as int, marked_before),
        decreases fields@.len() - at,
    {
        match validate_field(&fields[at], at, marked_before) {
            Ok(own) => {
                marked_before = marked_before || own;
            },
            Err(diagnostic) => {
                return Err(diagnostic);
            },
        }
        at = at + 1;
    }
    Ok(())
}

/// Validates every error attribute on the struct's fields. It marks the field that holds the
/// core, takes no arguments but the marker of a generated field, and stands on one field once.
pub fn validate_error_attributes(input: &Input) -> (result: Result<(), Diagnostic>)
    ensures
        reports(result, marks_problem(fields_of(*input), 0, false)),
{
    match &input.data {
        Data::Named(fields) => validate_fields(fields),
        Data::Unnamed(fields) => validate_fields(fields),
        Data::Unit => Ok(()),
        Data::Other => Ok(()),
    }
}

/// The first marked field at or after a place, or the number of fields.
pub open spec fn next_marked(fields: Seq<Field>, from: int) -> int
    decreases fields.len() - from,
{
    if from >= fields.len() {
        fields.len() as int
    } else if marked(fields[from]) {
        from
    } else {
        next_marked(fields, from + 1)
    }
}

/// The first field of the core type at or after a place, or the number of fields.
pub open spec fn next_core(fields: Seq<Field>, from: int) -> int
    decreases fields.len() - from,
{
    if from >= fields.len() {
        fields.len() as int
    } else if core_type(fields[from].field_type) {
        from
    } else {
        next_core(fields, from + 1)
    }
}

/// The place of the error field: the marked one, or else the only one of the core type.
pub open spec fn error_field_place(fields: Seq<Field>) -> Result<int, Seq<char>> {
    let first = next_core(fields, 0);
    if next_marked(fields, 0) < fields.len() {
        Ok(next_marked(fields, 0))
    } else if first >= fields.len() {
        Err(NO_ERROR_FIELD@)
    } else if next_core(fields, first + 1) < fields.len() {
        Err(MULTIPLE_ERROR_FIELDS@)
    } else {
        Ok(first)
    }
}

/// The error field of the item, or why it has none.
pub open spec fn error_field(input: Input) -> Result<MemberModel, Seq<char>> {
    match input.data {
        Data::Other => Err(NOT_A_STRUCT@),
        Data::Unit => Err(UNIT_STRUCT@),
        Data::Named(fields) => match error_field_place(fields@) {
            Ok(place) => Ok(MemberModel::Named(fields@[place].name->Some_0@)),
            Err(message) => Err(message),
        },
        Data::Unnamed(fields) => match error_field_place(fields@) {
            Ok(place) => Ok(MemberModel::Indexed(place)),
            Err(message) => Err(message),
        },
    }
}

fn find_marked(fields: &Vec<Field>) -> (place: usize)
    ensures
        place == next_marked(fields@, 0),
        place <= fields@.len(),
{
    let mut at: usize = 0;
    while at < fields.len()
        invariant
            at <= fields@.len(),
            next_marked(fields@, 0) == next_marked(fields@, at as int),
        decreases fields@.len() - at,
    {
        if find_named(&fields[at].attributes, "error", 0) < fields[at].attributes.len() {
            return at;
        }
        at = at + 1;
    }
    at
}

fn find_core(fields: &Vec<Field>, from: usize) -> (place: usize)
    requires
        from <= fields@.len(),
    ensures
        place == next_core(fields@, from as int),
        from <= place <= fields@.len(),
{
    let mut at: usize = from;
    while at < fields.len()
        invariant
            from <= at <= fields@.len(),
            next_core(fields@, from as int) == next_core(fields@, at as int),
        decreases fields@.len() - at,
    {
        if is_inner_error_type(&fields[at].field_type) {
            return at;
        }
        at = at + 1;
    }
    at
}

fn find_error_field_place(fields: &Vec<Field>) -> (result: Result<usize, Diagnostic>)
    ensures
        match result {
            Ok(place) => place < fields@.len() && error_field_place(fields@) == Ok::<int, Seq<char>>(place as int),
            Err(diagnostic) => diagnostic.place == Place::CallSite && error_field_place(fields@) == Err::<int, Seq<char>>(
                diagnostic.message@,
            ),
        },
{
    let marked_place: usize = find_marked(fields);
    if marked_place < fields.len() {
        return Ok(marked_place);
    }
    let first: usize = find_core(fields, 0);
    if first == fields.len() {
        return Err(refuse(Place::CallSite, NO_ERROR_FIELD));
    }
    if find_core(fields, first + 1) < fields.len() {
        return Err(refuse(Place::CallSite, MULTIPLE_ERROR_FIELDS));
    }
    Ok(first)
}

/// Finds the field that holds the core: the marked one, or else the only one of the core type.
pub fn find_error_field(input: &Input) -> (result: Result<Member, Diagnostic>)
    requires
        named_throughout(*input),
    ensures
        match result {
            Ok(member) => error_field(*input) == Ok::<MemberModel, Seq<char>>(member@),
            Err(diagnostic) => diagnostic.place == Place::CallSite && error_field(*input) == Err::<MemberModel, Seq<char>>(
                diagnostic.message@,
            ),
        },
{
    match &input.data {
        Data::Named(fields) => match find_error_field_place(fields) {
            Ok(place) => match &fields[place].name {
                Some(name) => Ok(Member::Named(name.clone())),
                None => Err(refuse(Place::CallSite, NO_ERROR_FIELD)),
            },
            Err(diagnostic) => Err(diagnostic),
        },
        Data::Unnamed(fields) => match find_error_field_place(fields) {
            Ok(place) => Ok(Member::Indexed(place)),
            Err(diagnostic) => Err(diagnostic),
        },
        Data::Unit => Err(refuse(Place::CallSite, UNIT_STRUCT)),
        Data::Other => Err(refuse(Place::CallSite, NOT_A_STRUCT)),
    }
}

} // verus!
