//! What the derive and the attribute make of an item.

use vstd::prelude::*;

use crate::error_derive::attributes::{
    carries, configs_wf, display_content, display_place, find_display_attribute, find_from_attribute,
    from_found, from_models, has_no_constructors_attribute, has_no_debug_attribute, FromConfig, FromModel,
};
use crate::error_derive::display::{
    display_expression, names_of, parse_display_template, referenceable_names, texts, value_models,
    DisplayExpression, ValueModel,
};
use crate::error_derive::fields::{
    core_type, error_field, error_field_place, find_error_field, find_named, generated_field,
    is_inner_error_type, mark, marked, marks_problem, next_marked, reports, validate_error_attributes,
};
use crate::error_derive::numbers::{decimal, decimal_text, lemma_decimal_is_injective};
use crate::error_derive::syntax::{
    fields_of, is_named, named_throughout, refuse, Attribute, Data, Diagnostic, DiagnosticModel, Field,
    FieldType, Input, List, Member, MemberModel, Meta, Place,
};

verus! {

pub const ALREADY_MARKED: &'static str = "`#[ohno::error]` adds the OhnoCore field itself, so no field can be marked with `#[error]`. Use `#[derive(ohno::Error)]` to place the field yourself";

pub const ALREADY_DECLARED: &'static str = "`#[ohno::error]` adds the OhnoCore field itself, so the struct cannot declare one. Use `#[derive(ohno::Error)]` to place the field yourself";

pub const ONLY_STRUCTS: &'static str = "#[ohno::error] can only be applied to structs";

/// How the `Debug` implementation shows a value.
pub enum DebugBody {
    /// As a struct with these fields.
    Struct(Vec<String>),
    /// As a tuple struct with so many fields.
    Tuple(usize),
    /// As a struct whose fields are left out.
    NonExhaustive,
}

/// What the implementations of an error type are generated from.
pub struct ErrorDerive {
    pub constructors: bool,
    pub conversions: Vec<FromConfig>,
    pub error_field: Member,
    pub display: Option<DisplayExpression>,
    pub debug: Option<DebugBody>,
}

/// The names of named fields.
pub open spec fn field_names(fields: Seq<Field>) -> Seq<Seq<char>> {
    Seq::new(fields.len(), |at: int| fields[at].name->Some_0@)
}

/// Whether the body shows the item's fields.
pub open spec fn shows(body: DebugBody, input: Input) -> bool {
    match input.data {
        Data::Named(fields) => body matches DebugBody::Struct(names) && texts(names@) == field_names(fields@),
        Data::Unnamed(fields) => body matches DebugBody::Tuple(count) && count == fields@.len(),
        Data::Unit => body matches DebugBody::Struct(names) && names@.len() == 0,
        Data::Other => body is NonExhaustive,
    }
}

fn collect_field_names(fields: &Vec<Field>) -> (names: Vec<String>)
    requires
        forall|at: int| 0 <= at < fields@.len() ==> (#[trigger] fields@[at]).name is Some,
    ensures
        texts(names@) == field_names(fields@),
{
    let mut names: Vec<String> = Vec::new();
    let mut at: usize = 0;
    while at < fields.len()
        invariant
            at <= fields@.len(),
            names@.len() == at,
            forall|place: int| 0 <= place < fields@.len() ==> (#[trigger] fields@[place]).name is Some,
            forall|place: int| 0 <= place < at ==> (#[trigger] names@[place])@ == fields@[place].name->Some_0@,
        decreases fields@.len() - at,
    {
        if let Some(name) = &fields[at].name {
            names.push(name.clone());
        }
        at = at + 1;
    }
    assert(texts(names@) =~= field_names(fields@));
    names
}

/// Decides how the `Debug` implementation shows the item.
pub fn generate_debug_impl(input: &Input) -> (body: DebugBody)
    requires
        named_throughout(*input),
    ensures
        shows(body, *input),
{
    match &input.data {
        Data::Named(fields) => DebugBody::Struct(collect_field_names(fields)),
        Data::Unnamed(fields) => DebugBody::Tuple(fields.len()),
        Data::Unit => DebugBody::Struct(Vec::new()),
        Data::Other => DebugBody::NonExhaustive,
    }
}

/// The display expression that the item asks for, or why it is refused.
pub open spec fn display_of(input: Input) -> Result<Option<(Seq<char>, Seq<ValueModel>)>, DiagnosticModel> {
    let place = display_place(input);
    if place >= input.attributes@.len() {
        Ok(None)
    } else {
        match display_content(input.attributes@[place].meta, place as usize) {
            Err(diagnostic) => Err(diagnostic),
            Ok(content) => match display_expression(content.0, content.1, input) {
                Ok(expression) => Ok(Some(expression)),
                Err(problem) => Err(problem),
            },
        }
    }
}

/// The first problem that stands against deriving an error from the item: its marks, its error
/// field, its display attribute, its conversions, in this order.
pub open spec fn derive_problem(input: Input) -> Option<DiagnosticModel> {
    if marks_problem(fields_of(input), 0, false) is Some {
        marks_problem(fields_of(input), 0, false)
    } else if error_field(input) is Err {
        Some(DiagnosticModel { place: Place::CallSite, message: error_field(input)->Err_0 })
    } else if display_of(input) is Err {
        Some(display_of(input)->Err_0)
    } else if from_found(input.attributes@, input.attributes@.len() as int) is Err {
        Some(from_found(input.attributes@, input.attributes@.len() as int)->Err_0)
    } else {
        None
    }
}

/// Whether the parts are those that the item asks for.
pub open spec fn derives(parts: ErrorDerive, input: Input) -> bool {
    &&& parts.constructors == !carries(input, "no_constructors"@)
    &&& configs_wf(parts.conversions@)
    &&& from_found(input.attributes@, input.attributes@.len() as int) == Ok::<Seq<FromModel>, DiagnosticModel>(
        from_models(parts.conversions@),
    )
    &&& error_field(input) == Ok::<MemberModel, Seq<char>>(parts.error_field@)
    &&& match parts.display {
        Some(expression) => display_of(input) == Ok::<Option<(Seq<char>, Seq<ValueModel>)>, DiagnosticModel>(
            Some((expression.format@, value_models(expression.values@))),
        ),
        None => display_of(input) == Ok::<Option<(Seq<char>, Seq<ValueModel>)>, DiagnosticModel>(None),
    }
    &&& match parts.debug {
        Some(body) => !carries(input, "no_debug"@) && shows(body, input),
        None => carries(input, "no_debug"@),
    }
}

/// Decides what the implementations of the error type are generated from.
pub fn impl_error_derive(input: &Input) -> (result: Result<ErrorDerive, Diagnostic>)
    requires
        named_throughout(*input),
    ensures
        match result {
            Ok(parts) => derive_problem(*input) is None && derives(parts, *input),
            Err(diagnostic) => derive_problem(*input) == Some(diagnostic@),
        },
{
    match validate_error_attributes(input) {
        Ok(()) => {},
        Err(diagnostic) => {
            return Err(diagnostic);
        },
    }
    let error_field: Member = match find_error_field(input) {
        Ok(member) => member,
        Err(diagnostic) => {
            return Err(diagnostic);
        },
    };
    let display: Option<DisplayExpression> = match find_display_attribute(input) {
        Err(diagnostic) => {
            return Err(diagnostic);
        },
        Ok(None) => None,
        Ok(Some(attribute)) => match parse_display_template(&attribute, input) {
            Ok(expression) => Some(expression),
            Err(diagnostic) => {
                return Err(diagnostic);
            },
        },
    };
    let conversions: Vec<FromConfig> = match find_from_attribute(input) {
        Ok(configs) => configs,
        Err(diagnostic) => {
            return Err(diagnostic);
        },
    };
    let debug: Option<DebugBody> = if has_no_debug_attribute(input) {
        None
    } else {
        Some(generate_debug_impl(input))
    };
    Ok(ErrorDerive { constructors: !has_no_constructors_attribute(input), conversions, error_field, display, debug })
}

/// The candidate for the core field's name: the plain name first, then numbered ones.
pub open spec fn core_name(counter: nat) -> Seq<char> {
    if counter == 0 {
        "ohno_core"@
    } else {
        "ohno_core_"@ + decimal(counter)
    }
}

/// Whether the candidate is the first that is not taken.
pub open spec fn first_free(taken: Seq<Seq<char>>, counter: nat) -> bool {
    &&& !taken.contains(core_name(counter))
    &&& forall|earlier: nat| earlier < counter ==> taken.contains(#[trigger] core_name(earlier))
}

proof fn lemma_core_names_differ(left: nat, right: nat)
    requires
        core_name(left) == core_name(right),
    ensures
        left == right,
{
    reveal_strlit("ohno_core");
    reveal_strlit("ohno_core_");
    if left == 0 || right == 0 {
        assert("ohno_core"@.len() == 9);
        assert("ohno_core_"@.len() == 10);
    } else {
        let prefix = "ohno_core_"@;
        assert((prefix + decimal(left)).skip(10) =~= decimal(left));
        assert((prefix + decimal(right)).skip(10) =~= decimal(right));
        lemma_decimal_is_injective(left, right);
    }
}

/// With so many candidates taken there are at least as many names.
proof fn lemma_taken_count(taken: Seq<Seq<char>>, counter: nat)
    requires
        forall|earlier: nat| earlier < counter ==> taken.contains(#[trigger] core_name(earlier)),
    ensures
        counter <= taken.len(),
{
    let candidates = Seq::new(counter, |at: int| core_name(at as nat));
    assert(candidates.no_duplicates()) by {
        assert forall|left: int, right: int| 0 <= left < right < candidates.len() implies candidates[left]
            != candidates[right] by {
            if candidates[left] == candidates[right] {
                lemma_core_names_differ(left as nat, right as nat);
            }
        }
    }
    candidates.unique_seq_to_set();
    taken.lemma_cardinality_of_set();
    vstd::seq_lib::seq_to_set_is_finite(taken);
    assert(candidates.to_set().subset_of(taken.to_set())) by {
        assert forall|name: Seq<char>| candidates.to_set().contains(name) implies taken.to_set().contains(name) by {
            let at = choose|at: int| 0 <= at < candidates.len() && candidates[at] == name;
            assert(taken.contains(core_name(at as nat)));
        }
    }
    vstd::set_lib::lemma_len_subset(candidates.to_set(), taken.to_set());
}

fn is_taken(existing: &Vec<String>, name: &String) -> (taken: bool)
    ensures
        taken == texts(existing@).contains(name@),
{
    let mut at: usize = 0;
    while at < existing.len()
        invariant
            at <= existing@.len(),
            forall|before: int| 0 <= before < at ==> (#[trigger] existing@[before])@ != name@,
        decreases existing@.len() - at,
    {
        if existing[at] == *name {
            assert(texts(existing@)[at as int] == name@);
            return true;
        }
        at = at + 1;
    }
    assert forall|place: int| 0 <= place < texts(existing@).len() implies texts(existing@)[place] != name@ by {
        assert(existing@[place]@ != name@);
    }
    false
}

/// Makes a name for the core field that no field has.
pub fn generate_unique_field_name(existing: &Vec<String>) -> (name: String)
    ensures
        exists|counter: nat| #[trigger] core_name(counter) == name@ && first_free(texts(existing@), counter),
{
    let ghost taken = texts(existing@);
    let count: usize = existing.len();
    let mut counter: usize = 0;
    let mut candidate: String = "ohno_core".to_owned();
    while is_taken(existing, &candidate)
        invariant
            taken == texts(existing@),
            taken.len() == existing@.len(),
            count == existing@.len(),
            counter <= count,
            candidate@ == core_name(counter as nat),
            forall|earlier: nat| earlier < counter ==> taken.contains(#[trigger] core_name(earlier)),
        decreases count - counter,
    {
        proof {
            assert forall|earlier: nat| earlier < counter + 1 implies taken.contains(#[trigger] core_name(earlier)) by {
                if earlier == counter {
                    assert(core_name(earlier) == candidate@);
                }
            }
            lemma_taken_count(taken, (counter + 1) as nat);
        }
        counter = counter + 1;
        candidate = "ohno_core_".to_owned();
        candidate.append(decimal_text(counter).as_str());
    }
    assert(core_name(counter as nat) == candidate@ && first_free(taken, counter as nat));
    candidate
}

/// Whether the item already carries an error field of its own, and what is said of it: the first
/// field that is marked or of the core type counts.
pub open spec fn own_core(fields: Seq<Field>, at: int) -> Option<DiagnosticModel>
    decreases fields.len() - at,
{
    if at >= fields.len() {
        None
    } else if marked(fields[at]) {
        Some(DiagnosticModel {
            place: Place::FieldAttribute { field: at as usize, attribute: mark(fields[at]) as usize },
            message: ALREADY_MARKED@,
        })
    } else if core_type(fields[at].field_type) {
        Some(DiagnosticModel { place: Place::FieldType { field: at as usize }, message: ALREADY_DECLARED@ })
    } else {
        own_core(fields, at + 1)
    }
}

fn reject_core_among(fields: &Vec<Field>) -> (result: Result<(), Diagnostic>)
    ensures
        reports(result, own_core(fields@, 0)),
{
    let mut at: usize = 0;
    while at < fields.len()
        invariant
            at <= fields@.len(),
            own_core(fields@, 0) == own_core(fields@, at as int),
        decreases fields@.len() - at,
    {
        let attribute: usize = find_named(&fields[at].attributes, "error", 0);
        if attribute < fields[at].attributes.len() {
            return Err(refuse(Place::FieldAttribute { field: at, attribute }, ALREADY_MARKED));
        }
        if is_inner_error_type(&fields[at].field_type) {
            return Err(refuse(Place::FieldType { field: at }, ALREADY_DECLARED));
        }
        at = at + 1;
    }
    Ok(())
}

/// Rejects a struct that already carries its own error field.
pub fn reject_existing_error_field(input: &Input) -> (result: Result<(), Diagnostic>)
    ensures
        reports(result, own_core(fields_of(*input), 0)),
{
    match &input.data {
        Data::Named(fields) => reject_core_among(fields),
        Data::Unnamed(fields) => reject_core_among(fields),
        Data::Unit => Ok(()),
        Data::Other => Ok(()),
    }
}

/// Whether the attribute is the derive that the error attribute adds.
pub open spec fn derive_attribute(attribute: Attribute) -> bool {
    &&& is_named(attribute, "derive"@)
    &&& attribute.meta matches Meta::List(List::Tokens(tokens))
    &&& tokens@ == "ohno::Error"@
}

/// Puts the error derive in front of the item's attributes.
pub fn add_fiasko_error_derive(input: &mut Input)
    ensures
        final(input).data == old(input).data,
        final(input).attributes@.len() == old(input).attributes@.len() + 1,
        derive_attribute(final(input).attributes@[0]),
        final(input).attributes@.skip(1) == old(input).attributes@,
{
    let ghost before = input.attributes@;
    let attribute = Attribute {
        name: Some("derive".to_owned()),
        meta: Meta::List(List::Tokens("ohno::Error".to_owned())),
    };
    input.attributes.insert(0, attribute);
    assert(input.attributes@.skip(1) =~= before);
}

/// Whether the field is a core field under the name, marked as generated.
pub open spec fn added_core(field: Field, name: Option<Seq<char>>) -> bool {
    &&& match name {
        Some(name) => field.name matches Some(own) && own@ == name,
        None => field.name is None,
    }
    &&& core_type(field.field_type)
    &&& field.field_type matches FieldType::Path(segments)
    &&& texts(segments@) == seq!["ohno"@, "OhnoCore"@]
    &&& field.attributes@.len() == 1
    &&& is_named(field.attributes@[0], "error"@)
    &&& field.attributes@[0].meta matches Meta::List(List::Tokens(tokens))
    &&& tokens@ == "generated"@
}

fn core_field(name: Option<String>) -> (field: Field)
    ensures
        added_core(field, match name {
            Some(name) => Some(name@),
            None => None,
        }),
{
    let mut attributes: Vec<Attribute> = Vec::new();
    attributes.push(
        Attribute { name: Some("error".to_owned()), meta: Meta::List(List::Tokens("generated".to_owned())) },
    );
    let mut segments: Vec<String> = Vec::new();
    segments.push("ohno".to_owned());
    segments.push("OhnoCore".to_owned());
    assert(texts(segments@) =~= seq!["ohno"@, "OhnoCore"@]);
    Field { name, attributes, field_type: FieldType::Path(segments) }
}

/// The struct with the core field behind its own fields: a unit struct becomes a tuple struct.
pub open spec fn with_core(before: Data, after: Data) -> bool {
    match before {
        Data::Named(fields) => {
            &&& after matches Data::Named(more)
            &&& more@.len() == fields@.len() + 1
            &&& more@.take(fields@.len() as int) == fields@
            &&& exists|counter: nat|
                first_free(field_names(fields@), counter) && added_core(
                    more@[fields@.len() as int],
                    Some(#[trigger] core_name(counter)),
                )
        },
        Data::Unnamed(fields) => {
            &&& after matches Data::Unnamed(more)
            &&& more@.len() == fields@.len() + 1
            &&& more@.take(fields@.len() as int) == fields@
            &&& added_core(more@[fields@.len() as int], None)
        },
        Data::Unit => {
            &&& after matches Data::Unnamed(more)
            &&& more@.len() == 1
            &&& added_core(more@[0], None)
        },
        Data::Other => false,
    }
}

/// Adds the core field to the struct, under a name that is free.
pub fn add_ohno_core_field(input: &mut Input) -> (result: Result<(), Diagnostic>)
    requires
        named_throughout(*old(input)),
    ensures
        final(input).attributes == old(input).attributes,
        match result {
            Ok(()) => with_core(old(input).data, final(input).data) && named_throughout(*final(input)),
            Err(diagnostic) => {
                &&& old(input).data is Other
                &&& *final(input) == *old(input)
                &&& diagnostic@ == (DiagnosticModel { place: Place::Name, message: ONLY_STRUCTS@ })
            },
        },
{
    let ghost before = *input;
    match &mut input.data {
        Data::Unit => {
            let mut fields: Vec<Field> = Vec::new();
            fields.push(core_field(None));
            input.data = Data::Unnamed(fields);
            Ok(())
        },
        Data::Unnamed(fields) => {
            let ghost own = fields@;
            fields.push(core_field(None));
            assert(fields@.take(own.len() as int) =~= own);
            Ok(())
        },
        Data::Named(fields) => {
            let ghost own = fields@;
            let names: Vec<String> = collect_field_names(fields);
            let name: String = generate_unique_field_name(&names);
            let field: Field = core_field(Some(name));
            fields.push(field);
            proof {
                assert(fields@.take(own.len() as int) =~= own);
                assert(field.name is Some);
                let counter = choose|counter: nat|
                    #[trigger] core_name(counter) == name@ && first_free(field_names(own), counter);
                assert(added_core(field, Some(core_name(counter))));
            }
            Ok(())
        },
        Data::Other => Err(refuse(Place::Name, ONLY_STRUCTS)),
    }
}

/// Turns a struct into an error type: adds the core field and the derive.
pub fn error_impl(input: &mut Input) -> (result: Result<(), Diagnostic>)
    requires
        named_throughout(*old(input)),
    ensures
        match result {
            Ok(()) => {
                &&& own_core(fields_of(*old(input)), 0) is None
                &&& with_core(old(input).data, final(input).data)
                &&& named_throughout(*final(input))
                &&& derive_attribute(final(input).attributes@[0])
                &&& final(input).attributes@.skip(1) == old(input).attributes@
            },
            Err(diagnostic) => {
                &&& *final(input) == *old(input)
                &&& if own_core(fields_of(*old(input)), 0) is Some {
                    own_core(fields_of(*old(input)), 0) == Some(diagnostic@)
                } else {
                    &&& old(input).data is Other
                    &&& diagnostic@ == (DiagnosticModel { place: Place::Name, message: ONLY_STRUCTS@ })
                }
            },
        },
{
    match reject_existing_error_field(input) {
        Ok(()) => {},
        Err(diagnostic) => {
            return Err(diagnostic);
        },
    }
    match add_ohno_core_field(input) {
        Ok(()) => {},
        Err(diagnostic) => {
            return Err(diagnostic);
        },
    }
    add_fiasko_error_derive(input);
    Ok(())
}

proof fn lemma_marked_behind(fields: Seq<Field>, more: Seq<Field>, at: int)
    requires
        more.len() == fields.len() + 1,
        more.take(fields.len() as int) == fields,
        0 <= at <= fields.len(),
        own_core(fields, at) is None,
        marked(more[fields.len() as int]),
    ensures
        next_marked(more, at) == fields.len(),
    decreases fields.len() - at,
{
    if at < fields.len() {
        assert(more[at] == more.take(fields.len() as int)[at]);
        lemma_marked_behind(fields, more, at + 1);
    }
}

/// The error attribute and the derive agree: in a struct that carries no core of its own, the
/// field that the attribute adds is the one that the derive takes for the error field.
pub proof fn law_added_core_is_the_error_field(before: Input, after: Input)
    requires
        own_core(fields_of(before), 0) is None,
        with_core(before.data, after.data),
    ensures
        error_field_place(fields_of(after)) == Ok::<int, Seq<char>>(fields_of(before).len() as int),
        added_core(fields_of(after)[fields_of(before).len() as int], match fields_of(after)[fields_of(before).len() as int].name {
            Some(name) => Some(name@),
            None => None,
        }),
{
    let fields = fields_of(before);
    let more = fields_of(after);
    let last = more[fields.len() as int];
    assert(is_named(last.attributes@[0], "error"@));
    assert(mark(last) == 0);
    assert(more.take(fields.len() as int) =~= fields);
    lemma_marked_behind(fields, more, 0);
}

/// A generated core is hidden from templates: the fields that they may refer to are those that the
/// struct declared.
pub proof fn law_generated_core_is_hidden(before: Input, after: Input)
    requires
        with_core(before.data, after.data),
        generated_field(fields_of(after)[fields_of(before).len() as int]),
    ensures
        referenceable_names(after) == referenceable_names(before),
{
    let fields = fields_of(before);
    let more = fields_of(after);
    let count = fields.len() as int;
    assert(more.take(count) =~= fields);
    lemma_names_of_prefix(fields, more, after.data is Unnamed, count);
    if before.data is Unit {
        assert(names_of(more, true, 0) =~= names_of(fields, false, 0));
    }
}

proof fn lemma_names_of_prefix(fields: Seq<Field>, more: Seq<Field>, indexed: bool, count: int)
    requires
        0 <= count <= fields.len() < more.len(),
        more.take(fields.len() as int) == fields,
    ensures
        names_of(more, indexed, count) == names_of(fields, indexed, count),
    decreases count,
{
    if count > 0 {
        lemma_names_of_prefix(fields, more, indexed, count - 1);
        assert(more[count - 1] == more.take(fields.len() as int)[count - 1]);
    }
}

} // verus!
