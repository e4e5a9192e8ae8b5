//! The attributes of an item that steer its expansion.

use vstd::prelude::*;

use crate::error_derive::fields::{find_named, next_named};
use crate::error_derive::syntax::{
    has_name, is_named, refuse, Attribute, Conversion, Diagnostic, DiagnosticModel, Expression, FieldKey, Input,
    List, Literal, Meta, Place,
};

verus! {

pub const DISPLAY_FORM: &'static str = "display attribute must be in the form #[display(\"message\")] or #[display(\"format_template\", arg1, arg2)]";

pub const DISPLAY_TEMPLATE: &'static str = "display attribute template must be a string literal";

pub const EXPECTED_LITERAL: &'static str = "expected literal";

pub const FROM_EMPTY_PARENS: &'static str = "empty #[from()] attribute is not allowed. Either specify types like #[from(ErrorType)] or remove the attribute entirely";

pub const FROM_EMPTY_PATH: &'static str = "empty #[from] attribute is not allowed. Either specify types like #[from(ErrorType)] or remove the attribute entirely";

pub const FROM_INVALID_FORM: &'static str = "from attribute must be in the form #[from(Type1, Type2, ...)] with at least one type specified";

pub const FIELD_INDEX: &'static str = "Only integer literals are supported for tuple field indices";

/// A display attribute: its template and the arguments behind it.
pub struct DisplayAttribute<'a> {
    pub template: &'a str,
    pub arguments: &'a Vec<Expression>,
}

/// What a display attribute holds, or why it is refused.
pub open spec fn display_content(meta: Meta, attribute: usize) -> Result<(Seq<char>, Seq<Expression>), DiagnosticModel> {
    match meta {
        Meta::List(List::Template { literal: Literal::Text(template), arguments }) => Ok((template@, arguments@)),
        Meta::List(List::Template { .. }) => Err(DiagnosticModel { place: Place::Template, message: DISPLAY_TEMPLATE@ }),
        Meta::List(List::Malformed(message)) => Err(DiagnosticModel { place: Place::Tokens { attribute }, message: message@ }),
        Meta::List(_) => Err(DiagnosticModel { place: Place::Attribute { attribute }, message: EXPECTED_LITERAL@ }),
        _ => Err(DiagnosticModel { place: Place::Attribute { attribute }, message: DISPLAY_FORM@ }),
    }
}

/// The place of the item's display attribute, or the number of attributes.
pub open spec fn display_place(input: Input) -> int {
    next_named(input.attributes@, "display"@, 0)
}

/// Finds the first display attribute of the item.
pub fn find_display_attribute(input: &Input) -> (result: Result<Option<DisplayAttribute<'_>>, Diagnostic>)
    ensures
        match result {
            Ok(None) => display_place(*input) == input.attributes@.len(),
            Ok(Some(found)) => {
                &&& display_place(*input) < input.attributes@.len()
                &&& display_content(input.attributes@[display_place(*input)].meta, display_place(*input) as usize) == Ok::<
                    (Seq<char>, Seq<Expression>),
                    DiagnosticModel,
                >((found.template@, found.arguments@))
            },
            Err(diagnostic) => {
                &&& display_place(*input) < input.attributes@.len()
                &&& display_content(input.attributes@[display_place(*input)].meta, display_place(*input) as usize) == Err::<
                    (Seq<char>, Seq<Expression>),
                    DiagnosticModel,
                >(diagnostic@)
            },
        },
{
    let place: usize = find_named(&input.attributes, "display", 0);
    if place == input.attributes.len() {
        return Ok(None);
    }
    match &input.attributes[place].meta {
        Meta::List(List::Template { literal, arguments }) => match literal {
            Literal::Text(template) => Ok(Some(DisplayAttribute { template: template.as_str(), arguments })),
            _ => Err(refuse(Place::Template, DISPLAY_TEMPLATE)),
        },
        Meta::List(List::Malformed(message)) => Err(refuse(Place::Tokens { attribute: place }, message.as_str())),
        Meta::List(_) => Err(refuse(Place::Attribute { attribute: place }, EXPECTED_LITERAL)),
        _ => Err(refuse(Place::Attribute { attribute: place }, DISPLAY_FORM)),
    }
}

/// Whether the item carries an attribute of that name.
pub open spec fn carries(input: Input, name: Seq<char>) -> bool {
    next_named(input.attributes@, name, 0) < input.attributes@.len()
}

/// Checks whether the item asks for no constructors.
pub fn has_no_constructors_attribute(input: &Input) -> (present: bool)
    ensures
        present == carries(*input, "no_constructors"@),
{
    find_named(&input.attributes, "no_constructors", 0) < input.attributes.len()
}

/// Checks whether the item asks for no `Debug` implementation.
pub fn has_no_debug_attribute(input: &Input) -> (present: bool)
    ensures
        present == carries(*input, "no_debug"@),
{
    find_named(&input.attributes, "no_debug", 0) < input.attributes.len()
}

/// A conversion into the error type, with an expression for each field that has one.
pub struct FromConfig {
    pub from_type: String,
    pub field_expressions: Vec<(String, String)>,
}

/// A conversion by its content.
pub ghost struct FromModel {
    pub from_type: Seq<char>,
    pub field_expressions: Map<Seq<char>, Seq<char>>,
}

/// The pairs as a map; a key's last pair counts.
pub open spec fn pairs_map(pairs: Seq<(String, String)>) -> Map<Seq<char>, Seq<char>>
    decreases pairs.len(),
{
    if pairs.len() == 0 {
        Map::empty()
    } else {
        pairs_map(pairs.drop_last()).insert(pairs.last().0@, pairs.last().1@)
    }
}

/// Whether no key stands in two pairs.
pub open spec fn keys_differ(pairs: Seq<(String, String)>) -> bool {
    forall|left: int, right: int|
        0 <= left < right < pairs.len() ==> (#[trigger] pairs[left]).0@ != (#[trigger] pairs[right]).0@
}

impl FromConfig {
    /// The conversion's content.
    pub open spec fn model(self) -> FromModel {
        FromModel { from_type: self.from_type@, field_expressions: pairs_map(self.field_expressions@) }
    }

    /// Whether every key has one expression.
    pub open spec fn wf(self) -> bool {
        keys_differ(self.field_expressions@)
    }
}

/// The contents of conversions.
pub open spec fn from_models(configs: Seq<FromConfig>) -> Seq<FromModel> {
    Seq::new(configs.len(), |at: int| configs[at].model())
}

/// Whether every key of every conversion has one expression.
pub open spec fn configs_wf(configs: Seq<FromConfig>) -> bool {
    forall|at: int| 0 <= at < configs.len() ==> (#[trigger] configs[at]).wf()
}

/// The name that a key gives a field: an identifier, or the digits of an integer.
pub open spec fn key_name(key: FieldKey) -> Option<Seq<char>> {
    match key {
        FieldKey::Name(name) => Some(name@),
        FieldKey::Literal(Literal::Integer(digits)) => Some(digits@),
        FieldKey::Literal(_) => None,
    }
}

/// The field expressions as a map, or the place of the first key that names no field.
pub open spec fn expressions_map(fields: Seq<(FieldKey, String)>) -> Result<Map<Seq<char>, Seq<char>>, int>
    decreases fields.len(),
{
    if fields.len() == 0 {
        Ok(Map::empty())
    } else {
        match expressions_map(fields.drop_last()) {
            Err(at) => Err(at),
            Ok(map) => match key_name(fields.last().0) {
                Some(name) => Ok(map.insert(name, fields.last().1@)),
                None => Err(fields.len() - 1),
            },
        }
    }
}

/// The conversions that a list gives, or the places of the first conversion with a key that names no
/// field, and of that key.
pub open spec fn conversion_models(conversions: Seq<Conversion>) -> Result<Seq<FromModel>, (int, int)>
    decreases conversions.len(),
{
    if conversions.len() == 0 {
        Ok(Seq::empty())
    } else {
        match conversion_models(conversions.drop_last()) {
            Err(at) => Err(at),
            Ok(models) => match expressions_map(conversions.last().fields@) {
                Ok(map) => Ok(models.push(FromModel { from_type: conversions.last().from_type@, field_expressions: map })),
                Err(field) => Err((conversions.len() - 1, field)),
            },
        }
    }
}

/// The conversions that one attribute gives, or why it is refused.
pub open spec fn from_content(meta: Meta, attribute: usize) -> Result<Seq<FromModel>, DiagnosticModel> {
    let place = Place::Attribute { attribute };
    match meta {
        Meta::List(List::Conversions(conversions)) => if conversions@.len() == 0 {
            Err(DiagnosticModel { place, message: FROM_EMPTY_PARENS@ })
        } else {
            match conversion_models(conversions@) {
                Ok(models) => Ok(models),
                Err((conversion, field)) => Err(
                    DiagnosticModel {
                        place: Place::Key { attribute, conversion: conversion as usize, field: field as usize },
                        message: FIELD_INDEX@,
                    },
                ),
            }
        },
        Meta::List(List::Malformed(message)) => Err(DiagnosticModel { place: Place::Tokens { attribute }, message: message@ }),
        Meta::List(_) => Err(DiagnosticModel { place, message: FROM_INVALID_FORM@ }),
        Meta::Path => Err(DiagnosticModel { place, message: FROM_EMPTY_PATH@ }),
        Meta::NameValue => Err(DiagnosticModel { place, message: FROM_INVALID_FORM@ }),
    }
}

/// The conversions that the first attributes give together, or the first refusal among them.
pub open spec fn from_found(attributes: Seq<Attribute>, count: int) -> Result<Seq<FromModel>, DiagnosticModel>
    decreases count,
{
    if count <= 0 {
        Ok(Seq::empty())
    } else {
        match from_found(attributes, count - 1) {
            Err(diagnostic) => Err(diagnostic),
            Ok(found) => if is_named(attributes[count - 1], "from"@) {
                match from_content(attributes[count - 1].meta, (count - 1) as usize) {
                    Ok(more) => Ok(found + more),
                    Err(diagnostic) => Err(diagnostic),
                }
            } else {
                Ok(found)
            },
        }
    }
}

proof fn lemma_first_refusal_stands(attributes: Seq<Attribute>, at: int, count: int)
    requires
        0 <= at <= count,
        from_found(attributes, at) is Err,
    ensures
        from_found(attributes, count) == from_found(attributes, at),
    decreases count - at,
{
    if at < count {
        lemma_first_refusal_stands(attributes, at, count - 1);
    }
}

proof fn lemma_pairs_insert(pairs: Seq<(String, String)>, at: int, key: String, value: String)
    requires
        0 <= at < pairs.len(),
        keys_differ(pairs),
        pairs[at].0@ == key@,
    ensures
        pairs_map(pairs.update(at, (key, value))) == pairs_map(pairs).insert(key@, value@),
        keys_differ(pairs.update(at, (key, value))),
    decreases pairs.len(),
{
    let updated = pairs.update(at, (key, value));
    if at == pairs.len() - 1 {
        assert(updated.drop_last() =~= pairs.drop_last());
        assert(pairs_map(updated) =~= pairs_map(pairs).insert(key@, value@));
    } else {
        assert(updated.drop_last() =~= pairs.drop_last().update(at, (key, value)));
        lemma_pairs_insert(pairs.drop_last(), at, key, value);
        assert(pairs.last().0@ != pairs[at].0@);
        assert(pairs_map(updated) =~= pairs_map(pairs).insert(key@, value@));
    }
}

/// Puts an expression under a key, in place of the one that stood there.
fn put(pairs: &mut Vec<(String, String)>, key: String, value: String)
    requires
        keys_differ(old(pairs)@),
    ensures
        keys_differ(final(pairs)@),
        pairs_map(final(pairs)@) == pairs_map(old(pairs)@).insert(key@, value@),
{
    let ghost before = pairs@;
    let mut at: usize = 0;
    while at < pairs.len()
        invariant
            pairs@ == before,
            before == old(pairs)@,
            keys_differ(before),
            at <= before.len(),
            forall|seen: int| 0 <= seen < at ==> (#[trigger] before[seen]).0@ != key@,
        decreases before.len() - at,
    {
        if pairs[at].0 == key {
            proof {
                lemma_pairs_insert(before, at as int, key, value);
            }
            pairs.set(at, (key, value));
            return ;
        }
        at = at + 1;
    }
    pairs.push((key, value));
    assert(pairs@.drop_last() =~= before);
}

fn parse_field_expressions(fields: &Vec<(FieldKey, String)>) -> (result: Result<Vec<(String, String)>, usize>)
    ensures
        match result {
            Ok(pairs) => keys_differ(pairs@) && expressions_map(fields@) == Ok::<Map<Seq<char>, Seq<char>>, int>(pairs_map(pairs@)),
            Err(at) => expressions_map(fields@) == Err::<Map<Seq<char>, Seq<char>>, int>(at as int),
        },
{
    let mut pairs: Vec<(String, String)> = Vec::new();
    let mut at: usize = 0;
    while at < fields.len()
        invariant
            at <= fields@.len(),
            keys_differ(pairs@),
            expressions_map(fields@.take(at as int)) == Ok::<Map<Seq<char>, Seq<char>>, int>(pairs_map(pairs@)),
        decreases fields@.len() - at,
    {
        let ghost more = fields@.take(at + 1);
        assert(more.drop_last() =~= fields@.take(at as int));
        let name: Option<String> = match &fields[at].0 {
            FieldKey::Name(name) => Some(name.clone()),
            FieldKey::Literal(Literal::Integer(digits)) => Some(digits.clone()),
            FieldKey::Literal(_) => None,
        };
        match name {
            Some(name) => {
                put(&mut pairs, name, fields[at].1.clone());
            },
            None => {
                assert(expressions_map(more) == Err::<Map<Seq<char>, Seq<char>>, int>(at as int));
                proof {
                    lemma_foreign_key_stays(fields@, at + 1);
                }
                return Err(at);
            },
        }
        at = at + 1;
    }
    assert(fields@.take(at as int) =~= fields@);
    Ok(pairs)
}

proof fn lemma_foreign_key_stays(fields: Seq<(FieldKey, String)>, count: int)
    requires
        0 <= count <= fields.len(),
        expressions_map(fields.take(count)) is Err,
    ensures
        expressions_map(fields) == expressions_map(fields.take(count)),
    decreases fields.len(),
{
    if count == fields.len() {
        assert(fields.take(count) =~= fields);
    } else {
        assert(fields.drop_last().take(count) =~= fields.take(count));
        lemma_foreign_key_stays(fields.drop_last(), count);
    }
}

proof fn lemma_refused_conversion_stays(conversions: Seq<Conversion>, count: int)
    requires
        0 <= count <= conversions.len(),
        conversion_models(conversions.take(count)) is Err,
    ensures
        conversion_models(conversions) == conversion_models(conversions.take(count)),
    decreases conversions.len(),
{
    if count == conversions.len() {
        assert(conversions.take(count) =~= conversions);
    } else {
        assert(conversions.drop_last().take(count) =~= conversions.take(count));
        lemma_refused_conversion_stays(conversions.drop_last(), count);
    }
}

/// Adds the conversions of one list to those found before.
fn parse_conversions(conversions: &Vec<Conversion>, configs: &mut Vec<FromConfig>) -> (result: Result<(), (usize, usize)>)
    requires
        configs_wf(old(configs)@),
    ensures
        match result {
            Ok(()) => conversion_models(conversions@) is Ok && configs_wf(final(configs)@) && from_models(final(configs)@)
                == from_models(old(configs)@) + conversion_models(conversions@)->Ok_0,
            Err((conversion, field)) => conversion_models(conversions@) == Err::<Seq<FromModel>, (int, int)>(
                (conversion as int, field as int),
            ),
        },
{
    let ghost before = from_models(configs@);
    let mut at: usize = 0;
    assert(conversions@.take(0) =~= Seq::<Conversion>::empty());
    assert(before + Seq::<FromModel>::empty() =~= before);
    while at < conversions.len()
        invariant
            at <= conversions@.len(),
            configs_wf(configs@),
            conversion_models(conversions@.take(at as int)) is Ok,
            from_models(configs@) == before + conversion_models(conversions@.take(at as int))->Ok_0,
        decreases conversions@.len() - at,
    {
        let ghost more = conversions@.take(at + 1);
        let ghost earlier = configs@;
        assert(more.drop_last() =~= conversions@.take(at as int));
        assert(more.last() == conversions@[at as int]);
        match parse_field_expressions(&conversions[at].fields) {
            Ok(pairs) => {
                let config = FromConfig { from_type: conversions[at].from_type.clone(), field_expressions: pairs };
                configs.push(config);
                proof {
                    let model = config.model();
                    assert(from_models(configs@) =~= from_models(earlier).push(model));
                    assert(conversion_models(more) == Ok::<Seq<FromModel>, (int, int)>(
                        conversion_models(conversions@.take(at as int))->Ok_0.push(model),
                    ));
                    assert(from_models(earlier).push(model) =~= before + conversion_models(more)->Ok_0);
                }
            },
            Err(field) => {
                proof {
                    assert(conversion_models(more) == Err::<Seq<FromModel>, (int, int)>((at as int, field as int)));
                    lemma_refused_conversion_stays(conversions@, at + 1);
                }
                return Err((at, field));
            },
        }
        at = at + 1;
    }
    assert(conversions@.take(at as int) =~= conversions@);
    Ok(())
}

/// Collects the conversions that the item's attributes ask for.
pub fn find_from_attribute(input: &Input) -> (result: Result<Vec<FromConfig>, Diagnostic>)
    ensures
        match result {
            Ok(configs) => configs_wf(configs@) && from_found(input.attributes@, input.attributes@.len() as int) == Ok::<
                Seq<FromModel>,
                DiagnosticModel,
            >(from_models(configs@)),
            Err(diagnostic) => from_found(input.attributes@, input.attributes@.len() as int) == Err::<Seq<FromModel>, DiagnosticModel>(
                diagnostic@,
            ),
        },
{
    let mut configs: Vec<FromConfig> = Vec::new();
    let mut at: usize = 0;
    assert(from_models(configs@) =~= Seq::<FromModel>::empty());
    while at < input.attributes.len()
        invariant
            at <= input.attributes@.len(),
            configs_wf(configs@),
            from_found(input.attributes@, at as int) == Ok::<Seq<FromModel>, DiagnosticModel>(from_models(configs@)),
        decreases input.attributes@.len() - at,
    {
        if has_name(&input.attributes[at], "from") {
            let ghost earlier = from_models(configs@);
            let problem: Option<Diagnostic> = match &input.attributes[at].meta {
                Meta::List(List::Conversions(conversions)) => {
                    if conversions.len() == 0 {
                        Some(refuse(Place::Attribute { attribute: at }, FROM_EMPTY_PARENS))
                    } else {
                        match parse_conversions(conversions, &mut configs) {
                            Ok(()) => None,
                            Err((conversion, field)) => Some(refuse(Place::Key { attribute: at, conversion, field }, FIELD_INDEX)),
                        }
                    }
                },
                Meta::List(List::Malformed(message)) => Some(refuse(Place::Tokens { attribute: at }, message.as_str())),
                Meta::List(_) => Some(refuse(Place::Attribute { attribute: at }, FROM_INVALID_FORM)),
                Meta::Path => Some(refuse(Place::Attribute { attribute: at }, FROM_EMPTY_PATH)),
                Meta::NameValue => Some(refuse(Place::Attribute { attribute: at }, FROM_INVALID_FORM)),
            };
            match problem {
                Some(diagnostic) => {
                    proof {
                        assert(from_found(input.attributes@, at + 1) == Err::<Seq<FromModel>, DiagnosticModel>(diagnostic@));
                        lemma_first_refusal_stands(input.attributes@, at + 1, input.attributes@.len() as int);
                    }
                    return Err(diagnostic);
                },
                None => {},
            }
        }
        at = at + 1;
    }
    Ok(configs)
}

} // verus!
