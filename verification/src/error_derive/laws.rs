//! What holds of the derive as a whole, stated on what is written and what comes of it.

use vstd::prelude::*;

use crate::error_derive::attributes::{
    conversion_models, expressions_map, from_content, from_found, keys_differ, pairs_map, FromModel,
};
use crate::error_derive::display::{
    add_pieces, behind, display_expression, member_of, position, reference, referenceable, root_problem,
    template_pieces, texts, PieceModel, Progress, ValueModel,
};
use crate::error_derive::expansion::{
    added_core, core_name, derives, display_of, field_names, first_free, own_core, with_core, DebugBody,
    ErrorDerive,
};
use crate::error_derive::fields::{
    core_type, error_field_place, generated_field, mark, marked, marks_problem, next_core, next_marked,
    next_named,
};
use crate::error_derive::numbers::{decimal, digits_value, written_index};
use crate::error_derive::syntax::{
    fields_of, identifier, is_named, named_throughout, plain, Attribute, Conversion, Data, DiagnosticModel,
    Expression, Field, FieldKey, FieldType, Input, List, Literal, MemberModel, Meta,
};

verus! {

/// Whether the key names a field: by an identifier, or by an integer.
pub open spec fn names_field(key: FieldKey) -> bool {
    match key {
        FieldKey::Name(_) => true,
        FieldKey::Literal(literal) => literal is Integer,
    }
}

/// The text of a key that names a field.
pub open spec fn key_text(key: FieldKey) -> Seq<char> {
    match key {
        FieldKey::Name(name) => name@,
        FieldKey::Literal(Literal::Integer(digits)) => digits@,
        FieldKey::Literal(_) => Seq::empty(),
    }
}

/// Whether no place behind this one has the same key.
pub open spec fn last_of_its_key(fields: Seq<(FieldKey, String)>, place: int) -> bool {
    forall|later: int| place < later < fields.len() ==> key_text((#[trigger] fields[later]).0) != key_text(fields[place].0)
}

/// Whether some place has the key.
pub open spec fn key_written(fields: Seq<(FieldKey, String)>, key: Seq<char>) -> bool {
    exists|place: int| 0 <= place < fields.len() && key_text((#[trigger] fields[place]).0) == key
}

/// Under every key of a conversion stands the expression that was written behind the key's last
/// occurrence, and there are no other keys. The list is refused exactly where a key names no field,
/// at the first such key.
#[verifier::spinoff_prover]
#[verifier::rlimit(60)]
pub proof fn law_keys_keep_their_last_expression(fields: Seq<(FieldKey, String)>)
    ensures
        expressions_map(fields) is Ok <==> forall|place: int|
            0 <= place < fields.len() ==> names_field((#[trigger] fields[place]).0),
        expressions_map(fields) matches Ok(map) ==> {
            &&& forall|place: int|
                #![trigger fields[place]]
                0 <= place < fields.len() && last_of_its_key(fields, place) ==> map.dom().contains(key_text(fields[place].0))
                    && map[key_text(fields[place].0)] == fields[place].1@
            &&& forall|key: Seq<char>| #[trigger] map.dom().contains(key) <==> key_written(fields, key)
        },
        expressions_map(fields) matches Err(at) ==> 0 <= at < fields.len() && !names_field(fields[at].0) && forall|place: int|
            0 <= place < at ==> names_field((#[trigger] fields[place]).0),
    decreases fields.len(),
{
    if fields.len() > 0 {
        let earlier = fields.drop_last();
        let last = fields.len() - 1;
        law_keys_keep_their_last_expression(earlier);
        assert(fields[last] == fields.last());
        if expressions_map(earlier) is Ok {
            assert forall|place: int| 0 <= place < last implies names_field((#[trigger] fields[place]).0) by {
                assert(earlier[place] == fields[place]);
            }
        } else {
            let at = expressions_map(earlier)->Err_0;
            assert(earlier[at] == fields[at]);
            assert forall|place: int| 0 <= place < at implies names_field((#[trigger] fields[place]).0) by {
                assert(earlier[place] == fields[place]);
            }
        }
        if let Ok(map) = expressions_map(fields) {
            let before = expressions_map(earlier)->Ok_0;
            assert(map == before.insert(key_text(fields[last].0), fields[last].1@));
            assert forall|place: int|
                #![trigger fields[place]]
                0 <= place < fields.len() && last_of_its_key(fields, place) implies map.dom().contains(key_text(fields[place].0))
                && map[key_text(fields[place].0)] == fields[place].1@ by {
                if place < last {
                    assert(earlier[place] == fields[place]);
                    assert(key_text(fields[last].0) != key_text(fields[place].0));
                    assert forall|later: int| place < later < earlier.len() implies key_text((#[trigger] earlier[later]).0)
                        != key_text(earlier[place].0) by {
                        assert(earlier[later] == fields[later]);
                    }
                    assert(last_of_its_key(earlier, place));
                }
            }
            assert forall|key: Seq<char>| #[trigger] map.dom().contains(key) <==> key_written(fields, key) by {
                if before.dom().contains(key) {
                    let place = choose|place: int| 0 <= place < earlier.len() && key_text((#[trigger] earlier[place]).0) == key;
                    assert(fields[place] == earlier[place]);
                }
                if key_written(fields, key) {
                    let place = choose|place: int| 0 <= place < fields.len() && key_text((#[trigger] fields[place]).0) == key;
                    if place < last {
                        assert(earlier[place] == fields[place]);
                        assert(key_written(earlier, key));
                    }
                }
                if key == key_text(fields[last].0) {
                    assert(key_written(fields, key));
                } else {
                    assert(map.dom().contains(key) <==> before.dom().contains(key));
                }
            }
        }
    }
}

/// Whether some pair has the key.
pub open spec fn key_paired(pairs: Seq<(String, String)>, key: Seq<char>) -> bool {
    exists|at: int| 0 <= at < pairs.len() && (#[trigger] pairs[at]).0@ == key
}

/// Pairs whose keys differ are the map: each key has the expression that it is paired with.
pub proof fn law_pairs_are_their_map(pairs: Seq<(String, String)>)
    requires
        keys_differ(pairs),
    ensures
        forall|at: int|
            #![trigger pairs[at]]
            0 <= at < pairs.len() ==> pairs_map(pairs).dom().contains(pairs[at].0@) && pairs_map(pairs)[pairs[at].0@] == pairs[at].1@,
        forall|key: Seq<char>| #[trigger] pairs_map(pairs).dom().contains(key) <==> key_paired(pairs, key),
    decreases pairs.len(),
{
    if pairs.len() > 0 {
        let earlier = pairs.drop_last();
        let last = pairs.len() - 1;
        law_pairs_are_their_map(earlier);
        assert(pairs[last] == pairs.last());
        assert(pairs_map(pairs) == pairs_map(earlier).insert(pairs[last].0@, pairs[last].1@));
        assert forall|at: int| #![trigger pairs[at]] 0 <= at < pairs.len() implies pairs_map(pairs).dom().contains(pairs[at].0@)
            && pairs_map(pairs)[pairs[at].0@] == pairs[at].1@ by {
            if at < last {
                assert(earlier[at] == pairs[at]);
                assert(pairs[at].0@ != pairs[last].0@);
            }
        }
        assert forall|key: Seq<char>| #[trigger] pairs_map(pairs).dom().contains(key) <==> key_paired(pairs, key) by {
            if key_paired(earlier, key) {
                let at = choose|at: int| 0 <= at < earlier.len() && (#[trigger] earlier[at]).0@ == key;
                assert(pairs[at] == earlier[at]);
            }
            if key_paired(pairs, key) {
                let at = choose|at: int| 0 <= at < pairs.len() && (#[trigger] pairs[at]).0@ == key;
                if at < last {
                    assert(earlier[at] == pairs[at]);
                    assert(key_paired(earlier, key));
                }
            }
            if key == pairs[last].0@ {
                assert(key_paired(pairs, key));
            } else {
                assert(pairs_map(pairs).dom().contains(key) <==> pairs_map(earlier).dom().contains(key));
            }
        }
    }
}

/// The conversions that the first attributes of the name `from` list, in order.
pub open spec fn listed_conversions(attributes: Seq<Attribute>, count: int) -> Seq<Conversion>
    decreases count,
{
    if count <= 0 {
        Seq::empty()
    } else {
        let earlier = listed_conversions(attributes, count - 1);
        match attributes[count - 1] {
            Attribute { name: Some(name), meta: Meta::List(List::Conversions(own)) } => if name@ == "from"@ {
                earlier + own@
            } else {
                earlier
            },
            _ => earlier,
        }
    }
}

/// Whether the model is the conversion: from the type that is written, with the expressions that its
/// list gives.
pub open spec fn converts(model: FromModel, own: Conversion) -> bool {
    &&& model.from_type == own.from_type@
    &&& expressions_map(own.fields@) == Ok::<Map<Seq<char>, Seq<char>>, int>(model.field_expressions)
}

/// Whether the models are the conversions, one for one.
pub open spec fn converts_each(models: Seq<FromModel>, conversions: Seq<Conversion>) -> bool {
    &&& models.len() == conversions.len()
    &&& forall|at: int| #![trigger models[at]] 0 <= at < models.len() ==> converts(models[at], conversions[at])
}

proof fn lemma_models_convert(conversions: Seq<Conversion>)
    requires
        conversion_models(conversions) is Ok,
    ensures
        converts_each(conversion_models(conversions)->Ok_0, conversions),
    decreases conversions.len(),
{
    if conversions.len() > 0 {
        lemma_models_convert(conversions.drop_last());
        let earlier = conversion_models(conversions.drop_last())->Ok_0;
        let models = conversion_models(conversions)->Ok_0;
        assert forall|at: int| #![trigger models[at]] 0 <= at < models.len() implies converts(models[at], conversions[at]) by {
            if at < earlier.len() {
                assert(models[at] == earlier[at]);
                assert(conversions.drop_last()[at] == conversions[at]);
            }
        }
    }
}

/// Every conversion that the attributes list is found, in the order in which it is written, with its
/// type and the expressions of its list, and no other.
pub proof fn law_conversions_are_those_listed(attributes: Seq<Attribute>, count: int)
    requires
        0 <= count <= attributes.len(),
        from_found(attributes, count) is Ok,
    ensures
        converts_each(from_found(attributes, count)->Ok_0, listed_conversions(attributes, count)),
    decreases count,
{
    if count > 0 {
        law_conversions_are_those_listed(attributes, count - 1);
        let attribute = attributes[count - 1];
        let earlier = from_found(attributes, count - 1)->Ok_0;
        let models = from_found(attributes, count)->Ok_0;
        if attribute.name is Some && attribute.name->Some_0@ == "from"@ {
            let more = from_content(attribute.meta, (count - 1) as usize)->Ok_0;
            let own = attribute.meta->List_0->Conversions_0;
            lemma_models_convert(own@);
            let listed = listed_conversions(attributes, count - 1);
            assert(listed_conversions(attributes, count) == listed + own@);
            assert forall|at: int| #![trigger models[at]] 0 <= at < models.len() implies converts(
                models[at],
                listed_conversions(attributes, count)[at],
            ) by {
                if at < earlier.len() {
                    assert(models[at] == earlier[at]);
                } else {
                    assert(models[at] == more[at - earlier.len()]);
                }
            }
        }
    }
}

/// A part of a template as it is written.
pub ghost enum Part {
    /// A character that opens nothing.
    Text(char),
    /// A doubled opening brace.
    Brace,
    /// A placeholder, with what stands in front of its first colon, and what stands behind it.
    Slot { name: Seq<char>, format: Option<Seq<char>> },
}

/// Whether the character does not occur.
pub open spec fn without(text: Seq<char>, character: char) -> bool {
    forall|at: int| 0 <= at < text.len() ==> #[trigger] text[at] != character
}

/// Whether the part can be written.
pub open spec fn writable(part: Part) -> bool {
    match part {
        Part::Text(character) => character != '{',
        Part::Brace => true,
        Part::Slot { name, format } => {
            &&& without(name, ':')
            &&& without(name, '}')
            &&& name.len() > 0 ==> name[0] != '{'
            &&& format matches Some(format) ==> without(format, '}')
        },
    }
}

/// What stands between the braces of a placeholder.
pub open spec fn inside(name: Seq<char>, format: Option<Seq<char>>) -> Seq<char> {
    match format {
        Some(format) => name + seq![':'] + format,
        None => name,
    }
}

/// The part as it is written.
pub open spec fn written(part: Part) -> Seq<char> {
    match part {
        Part::Text(character) => seq![character],
        Part::Brace => seq!['{', '{'],
        Part::Slot { name, format } => seq!['{'] + inside(name, format) + seq!['}'],
    }
}

/// The part without the name of a field. A colon with nothing behind it goes too.
pub open spec fn nameless(part: Part) -> Seq<char> {
    match part {
        Part::Slot { name, format: Some(format) } => if format.len() > 0 {
            seq!['{', ':'] + format + seq!['}']
        } else {
            seq!['{', '}']
        },
        Part::Slot { name, format: None } => seq!['{', '}'],
        _ => written(part),
    }
}

pub open spec fn template_of(parts: Seq<Part>) -> Seq<char>
    decreases parts.len(),
{
    if parts.len() == 0 {
        Seq::empty()
    } else {
        template_of(parts.drop_last()) + written(parts.last())
    }
}

pub open spec fn format_of(parts: Seq<Part>) -> Seq<char>
    decreases parts.len(),
{
    if parts.len() == 0 {
        Seq::empty()
    } else {
        format_of(parts.drop_last()) + nameless(parts.last())
    }
}

/// How many of the placeholders name no field.
pub open spec fn positional(parts: Seq<Part>) -> int
    decreases parts.len(),
{
    if parts.len() == 0 {
        0
    } else {
        positional(parts.drop_last()) + match parts.last() {
            Part::Slot { name, format } => if name.len() == 0 {
                1int
            } else {
                0
            },
            _ => 0,
        }
    }
}

/// What fills the placeholders, in order: the field that is named, or the next argument.
pub open spec fn fillings(parts: Seq<Part>) -> Seq<ValueModel>
    decreases parts.len(),
{
    if parts.len() == 0 {
        Seq::empty()
    } else {
        let earlier = fillings(parts.drop_last());
        match parts.last() {
            Part::Slot { name, format } => earlier.push(
                if name.len() == 0 {
                    ValueModel::Argument(positional(parts.drop_last()))
                } else {
                    ValueModel::Member(member_of(name))
                },
            ),
            _ => earlier,
        }
    }
}

/// Whether the part names no field, or one that can be referred to.
pub open spec fn known(part: Part, input: Input) -> bool {
    match part {
        Part::Slot { name, format } => name.len() > 0 ==> referenceable(name, input),
        _ => true,
    }
}

/// Whether every placeholder that names a field names one that can be referred to.
pub open spec fn all_known(parts: Seq<Part>, input: Input) -> bool {
    forall|at: int| 0 <= at < parts.len() ==> known(#[trigger] parts[at], input)
}

spec fn piece_of(part: Part) -> PieceModel {
    match part {
        Part::Text(character) => PieceModel::Character(character),
        Part::Brace => PieceModel::Brace,
        Part::Slot { name, format } => PieceModel::Reference {
            name,
            format: match format {
                Some(format) => format,
                None => Seq::empty(),
            },
        },
    }
}

spec fn pieces_of(parts: Seq<Part>) -> Seq<PieceModel> {
    Seq::new(parts.len(), |at: int| piece_of(parts[at]))
}

proof fn lemma_first_position(text: Seq<char>, character: char, from: int, at: int)
    requires
        0 <= from <= at <= text.len(),
        at < text.len() ==> text[at] == character,
        forall|before: int| from <= before < at ==> #[trigger] text[before] != character,
    ensures
        position(text, character, from) == at,
    decreases at - from,
{
    if from < at {
        assert(text[from] != character);
        lemma_first_position(text, character, from + 1, at);
    }
}

proof fn lemma_slot_content(name: Seq<char>, format: Option<Seq<char>>)
    requires
        writable((Part::Slot { name, format })),
    ensures
        reference(inside(name, format)) == piece_of((Part::Slot { name, format })),
        without(inside(name, format), '}'),
        inside(name, format).len() > 0 ==> inside(name, format)[0] != '{',
{
    let content = inside(name, format);
    match format {
        Some(own) => {
            assert(content[name.len() as int] == ':');
            assert forall|before: int| 0 <= before < name.len() implies #[trigger] content[before] != ':' by {
                assert(content[before] == name[before]);
            }
            lemma_first_position(content, ':', 0, name.len() as int);
            assert(content.take(name.len() as int) =~= name);
            assert(behind(content, name.len() as int + 1) =~= own);
            assert forall|at: int| 0 <= at < content.len() implies #[trigger] content[at] != '}' by {
                if at < name.len() {
                    assert(content[at] == name[at]);
                } else if at > name.len() {
                    assert(content[at] == own[at - name.len() - 1]);
                }
            }
        },
        None => {
            lemma_first_position(content, ':', 0, name.len() as int);
            assert(content.take(name.len() as int) =~= name);
            assert(behind(content, name.len() as int + 1) =~= Seq::<char>::empty());
        },
    }
}

proof fn lemma_part_parses(part: Part, rest: Seq<char>)
    requires
        writable(part),
    ensures
        template_pieces(written(part) + rest) == seq![piece_of(part)] + template_pieces(rest),
{
    let whole = written(part) + rest;
    match part {
        Part::Text(character) => {
            assert(whole[0] == character);
            assert(whole.skip(1) =~= rest);
        },
        Part::Brace => {
            assert(whole[0] == '{' && whole[1] == '{');
            assert(whole.skip(2) =~= rest);
        },
        Part::Slot { name, format } => {
            let content = inside(name, format);
            let close = content.len() + 1;
            lemma_slot_content(name, format);
            assert(whole[0] == '{');
            assert(whole[close as int] == '}');
            if content.len() > 0 {
                assert(whole[1] == content[0]);
            }
            assert forall|before: int| 1 <= before < close implies #[trigger] whole[before] != '}' by {
                assert(whole[before] == content[before - 1]);
            }
            lemma_first_position(whole, '}', 1, close as int);
            assert(whole.subrange(1, close as int) =~= content);
            assert(behind(whole, close as int + 1) =~= rest);
        },
    }
}

proof fn lemma_parts_parse(parts: Seq<Part>, rest: Seq<char>)
    requires
        forall|at: int| 0 <= at < parts.len() ==> writable(#[trigger] parts[at]),
    ensures
        template_pieces(template_of(parts) + rest) == pieces_of(parts) + template_pieces(rest),
    decreases parts.len(),
{
    if parts.len() == 0 {
        assert(template_of(parts) + rest =~= rest);
        assert(pieces_of(parts) + template_pieces(rest) =~= template_pieces(rest));
    } else {
        let earlier = parts.drop_last();
        let last = parts.last();
        assert(parts[parts.len() - 1] == last);
        assert forall|at: int| 0 <= at < earlier.len() implies writable(#[trigger] earlier[at]) by {
            assert(earlier[at] == parts[at]);
        }
        lemma_parts_parse(earlier, written(last) + rest);
        lemma_part_parses(last, rest);
        assert(template_of(parts) + rest =~= template_of(earlier) + (written(last) + rest));
        assert(pieces_of(earlier) + (seq![piece_of(last)] + template_pieces(rest)) =~= pieces_of(parts) + template_pieces(rest));
    }
}

/// Whether the arguments up to the count are rooted in something that can be shown.
pub open spec fn rooted(arguments: Seq<Expression>, count: int, input: Input) -> bool {
    forall|at: int| 0 <= at < count ==> root_problem(#[trigger] arguments[at], at, input) is None
}

proof fn lemma_parts_add_up(parts: Seq<Part>, arguments: Seq<Expression>, input: Input)
    requires
        forall|at: int| 0 <= at < parts.len() ==> writable(#[trigger] parts[at]),
    ensures
        0 <= positional(parts),
        add_pieces(pieces_of(parts), arguments, input) is Ok <==> all_known(parts, input) && positional(parts) <= arguments.len()
            && rooted(arguments, positional(parts), input),
        add_pieces(pieces_of(parts), arguments, input) matches Ok(progress) ==> progress == (Progress {
            format: format_of(parts),
            values: fillings(parts),
            used: positional(parts),
        }),
    decreases parts.len(),
{
    let pieces = pieces_of(parts);
    if parts.len() > 0 {
        let earlier = parts.drop_last();
        let last = parts.last();
        assert(parts[parts.len() - 1] == last);
        assert forall|at: int| 0 <= at < earlier.len() implies writable(#[trigger] earlier[at]) by {
            assert(earlier[at] == parts[at]);
        }
        lemma_parts_add_up(earlier, arguments, input);
        assert(pieces.drop_last() =~= pieces_of(earlier));
        assert(pieces.last() == piece_of(last));
        assert(all_known(parts, input) ==> all_known(earlier, input)) by {
            if all_known(parts, input) {
                assert forall|at: int| 0 <= at < earlier.len() implies known(#[trigger] earlier[at], input) by {
                    assert(earlier[at] == parts[at]);
                }
            }
        }
        reveal_strlit("{{");
        reveal_strlit("{}");
        reveal_strlit("{:");
        reveal_strlit("}");
        let added = add_pieces(pieces_of(earlier), arguments, input);
        if let Ok(progress) = added {
            match last {
                Part::Text(character) => {
                    assert(progress.format.push(character) =~= format_of(parts));
                },
                Part::Brace => {
                    assert(progress.format + "{{"@ =~= format_of(parts));
                },
                Part::Slot { name, format } => {
                    let own = match format {
                        Some(format) => format,
                        None => Seq::empty(),
                    };
                    assert(progress.format + crate::error_derive::display::placeholder(own) =~= format_of(parts));
                    if name.len() == 0 {
                        assert(rooted(arguments, positional(parts), input) ==> rooted(arguments, positional(earlier), input));
                    }
                },
            }
            assert(all_known(parts, input) <==> known(last, input)) by {
                if known(last, input) {
                    assert forall|at: int| 0 <= at < parts.len() implies known(#[trigger] parts[at], input) by {
                        if at < earlier.len() {
                            assert(earlier[at] == parts[at]);
                        }
                    }
                }
            }
        }
    }
}

/// The format string is the template without the names of fields: whatever stands outside of the
/// placeholders stays, and every placeholder, whether it names a field or not, keeps its format. The
/// placeholders are filled in order, those without a name with one argument after the other. The
/// template is accepted exactly where every name is known, and every argument is used and can be
/// shown.
pub proof fn law_templates_lose_only_their_names(parts: Seq<Part>, arguments: Seq<Expression>, input: Input)
    requires
        forall|at: int| 0 <= at < parts.len() ==> writable(#[trigger] parts[at]),
    ensures
        display_expression(template_of(parts), arguments, input) is Ok <==> all_known(parts, input) && positional(parts)
            == arguments.len() && rooted(arguments, arguments.len() as int, input),
        display_expression(template_of(parts), arguments, input) matches Ok(shown) ==> shown == (
            format_of(parts),
            fillings(parts),
        ),
{
    let none = Seq::<char>::empty();
    lemma_parts_parse(parts, none);
    assert(template_of(parts) + none =~= template_of(parts));
    assert(template_pieces(none) =~= Seq::<PieceModel>::empty());
    assert(pieces_of(parts) + Seq::<PieceModel>::empty() =~= pieces_of(parts));
    lemma_parts_add_up(parts, arguments, input);
}

/// A placeholder that is not closed runs to the end of the template, as if it were closed there.
pub proof fn law_unclosed_placeholders_end_with_the_template(
    parts: Seq<Part>,
    content: Seq<char>,
    arguments: Seq<Expression>,
    input: Input,
)
    requires
        forall|at: int| 0 <= at < parts.len() ==> writable(#[trigger] parts[at]),
        without(content, '}'),
        content.len() > 0 ==> content[0] != '{',
    ensures
        display_expression(template_of(parts) + (seq!['{'] + content), arguments, input) == display_expression(
            template_of(parts) + (seq!['{'] + content + seq!['}']),
            arguments,
            input,
        ),
{
    let open = seq!['{'] + content;
    let closed = seq!['{'] + content + seq!['}'];
    lemma_parts_parse(parts, open);
    lemma_parts_parse(parts, closed);
    let close = content.len() + 1;
    assert(open[0] == '{' && closed[0] == '{' && closed[close as int] == '}');
    if content.len() > 0 {
        assert(open[1] == content[0] && closed[1] == content[0]);
    }
    assert forall|before: int| 1 <= before < close implies #[trigger] open[before] != '}' by {
        assert(open[before] == content[before - 1]);
    }
    assert forall|before: int| 1 <= before < close implies #[trigger] closed[before] != '}' by {
        assert(closed[before] == content[before - 1]);
    }
    lemma_first_position(open, '}', 1, close as int);
    lemma_first_position(closed, '}', 1, close as int);
    assert(open.subrange(1, close as int) =~= content);
    assert(closed.subrange(1, close as int) =~= content);
    assert(behind(open, close as int + 1) =~= Seq::<char>::empty());
    assert(behind(closed, close as int + 1) =~= Seq::<char>::empty());
    assert(template_pieces(open) == template_pieces(closed));
}

/// Whether the attribute has the name.
pub open spec fn called(attribute: Attribute, name: Seq<char>) -> bool {
    attribute.name is Some && attribute.name->Some_0@ == name
}

/// Whether one of the attributes has the name.
pub open spec fn one_called(attributes: Seq<Attribute>, name: Seq<char>) -> bool {
    exists|at: int| 0 <= at < attributes.len() && called(#[trigger] attributes[at], name)
}

/// Whether the field has an attribute `error(generated)`.
pub open spec fn says_generated(field: Field) -> bool {
    exists|at: int|
        #![trigger field.attributes@[at]]
        0 <= at < field.attributes@.len() && called(field.attributes@[at], "error"@) && (field.attributes@[at].meta matches Meta::List(
            List::Tokens(tokens),
        ) && plain(tokens@) && identifier(tokens@) == Some("generated"@))
}

/// Whether the field has the name, and is none that was generated.
pub open spec fn declared_as(field: Field, name: Seq<char>) -> bool {
    field.name is Some && field.name->Some_0@ == name && !says_generated(field)
}

proof fn lemma_generated(field: Field)
    ensures
        generated_field(field) <==> says_generated(field),
{
    if generated_field(field) {
        let at = choose|at: int|
            0 <= at < field.attributes@.len() && #[trigger] crate::error_derive::fields::generated_attribute(field.attributes@[at]);
        assert(called(field.attributes@[at], "error"@));
    }
    if says_generated(field) {
        let at = choose|at: int|
            #![trigger field.attributes@[at]]
            0 <= at < field.attributes@.len() && called(field.attributes@[at], "error"@) && (field.attributes@[at].meta matches Meta::List(
                List::Tokens(tokens),
            ) && plain(tokens@) && identifier(tokens@) == Some("generated"@));
        assert(crate::error_derive::fields::generated_attribute(field.attributes@[at]));
    }
}

/// A template refers to the fields of a struct by their names, and to those of a tuple struct by
/// their places, written in base ten. A generated field cannot be referred to, and where there are no
/// fields, nothing can.
pub proof fn law_fields_are_known_by_name_or_place(input: Input, name: Seq<char>, place: nat)
    requires
        place <= usize::MAX,
    ensures
        match input.data {
            Data::Named(fields) => referenceable(name, input) <==> exists|at: int|
                0 <= at < fields@.len() && declared_as(#[trigger] fields@[at], name),
            Data::Unnamed(fields) => referenceable(decimal(place), input) <==> place < fields@.len() && !says_generated(
                fields@[place as int],
            ),
            _ => !referenceable(name, input),
        },
        input.data is Unnamed && name.len() > 0 && name[0] != '+' && !('0' <= name[0] <= '9') ==> !referenceable(name, input),
        member_of(decimal(place)) == MemberModel::Indexed(place as int),
        name.len() > 0 && name[0] != '+' && !('0' <= name[0] <= '9') ==> member_of(name) == MemberModel::Named(name),
{
    lemma_decimal_read(place);
    if name.len() > 0 && name[0] != '+' && !('0' <= name[0] <= '9') {
        lemma_no_number(name);
    }
    match input.data {
        Data::Named(fields) => {
            if referenceable(name, input) {
                let at = choose|at: int|
                    0 <= at < fields@.len() && #[trigger] crate::error_derive::display::answers_to(fields@[at], name);
                lemma_generated(fields@[at]);
                assert(declared_as(fields@[at], name));
            }
            if exists|at: int| 0 <= at < fields@.len() && declared_as(#[trigger] fields@[at], name) {
                let at = choose|at: int| 0 <= at < fields@.len() && declared_as(#[trigger] fields@[at], name);
                lemma_generated(fields@[at]);
                assert(crate::error_derive::display::answers_to(fields@[at], name));
            }
        },
        Data::Unnamed(fields) => {
            if place < fields@.len() {
                lemma_generated(fields@[place as int]);
            }
        },
        _ => {},
    }
}

proof fn lemma_no_number(text: Seq<char>)
    requires
        text.len() > 0,
        !('0' <= text[0] <= '9'),
        text[0] != '+',
    ensures
        written_index(text) is None,
{
    lemma_no_digits(text);
}

proof fn lemma_no_digits(text: Seq<char>)
    requires
        text.len() > 0,
        !('0' <= text[0] <= '9'),
    ensures
        digits_value(text) is None,
    decreases text.len(),
{
    if text.len() > 1 {
        lemma_no_digits(text.drop_last());
    } else {
        assert(text.last() == text[0]);
    }
}

proof fn lemma_decimal_digits(value: nat)
    ensures
        digits_value(decimal(value)) == Some(value as int),
        decimal(value).len() > 0,
        '0' <= decimal(value)[0] <= '9',
    decreases value,
{
    let text = decimal(value);
    if value < 10 {
        assert(text.drop_last() =~= Seq::<char>::empty());
        assert(text.last() as int == 48 + value);
        assert(digits_value(Seq::<char>::empty()) == Some(0int));
    } else {
        lemma_decimal_digits(value / 10);
        assert(text.drop_last() =~= decimal(value / 10));
        assert(text.last() as int == 48 + value % 10);
        assert(text[0] == decimal(value / 10)[0]);
    }
}

proof fn lemma_decimal_read(value: nat)
    requires
        value <= usize::MAX,
    ensures
        written_index(decimal(value)) == Some(value as int),
{
    lemma_decimal_digits(value);
}

/// An argument is judged by the term that it is rooted in, through whatever fields, calls and indices
/// it goes from there: a plain name must be that of a field and not `self`, and a number that of a
/// field's place.
pub proof fn law_arguments_are_judged_by_their_root(expression: Expression, argument: int, input: Input)
    ensures
        root_problem(Expression::Field(Box::new(expression)), argument, input) == root_problem(expression, argument, input),
        root_problem(Expression::MethodCall(Box::new(expression)), argument, input) == root_problem(expression, argument, input),
        root_problem(Expression::Index(Box::new(expression)), argument, input) == root_problem(expression, argument, input),
        expression matches Expression::Path(segments) ==> (root_problem(expression, argument, input) is None <==> segments@.len() == 1
            && segments@[0]@ != "self"@ && referenceable(segments@[0]@, input)),
        expression matches Expression::Literal(literal) ==> (root_problem(expression, argument, input) is None <==> match literal {
            Literal::Integer(digits) => referenceable(digits@, input),
            Literal::Float => true,
            _ => false,
        }),
        expression is Other ==> root_problem(expression, argument, input) is Some,
{
}

/// Whether the type's path ends in the name of the core.
pub open spec fn is_core(field: Field) -> bool {
    match field.field_type {
        FieldType::Path(segments) => segments@.len() > 0 && segments@[segments@.len() - 1]@ == "OhnoCore"@,
        FieldType::Other => false,
    }
}

proof fn lemma_named_found(attributes: Seq<Attribute>, name: Seq<char>, from: int)
    requires
        0 <= from,
    ensures
        ({
            let found = next_named(attributes, name, from);
            &&& from <= found || found == attributes.len()
            &&& found <= attributes.len()
            &&& found < attributes.len() ==> called(attributes[found], name)
            &&& forall|at: int| from <= at < found && at < attributes.len() ==> !called(#[trigger] attributes[at], name)
        }),
    decreases attributes.len() - from,
{
    if from < attributes.len() && !is_named(attributes[from], name) {
        lemma_named_found(attributes, name, from + 1);
    }
}

proof fn lemma_marked(field: Field)
    ensures
        marked(field) <==> one_called(field.attributes@, "error"@),
{
    lemma_named_found(field.attributes@, "error"@, 0);
}

proof fn lemma_marked_found(fields: Seq<Field>, from: int)
    requires
        0 <= from,
    ensures
        ({
            let found = next_marked(fields, from);
            &&& from <= found || found == fields.len()
            &&& found <= fields.len()
            &&& found < fields.len() ==> one_called(fields[found].attributes@, "error"@)
            &&& forall|at: int| from <= at < found && at < fields.len() ==> !one_called((#[trigger] fields[at]).attributes@, "error"@)
        }),
    decreases fields.len() - from,
{
    if from < fields.len() {
        lemma_marked(fields[from]);
        if !marked(fields[from]) {
            lemma_marked_found(fields, from + 1);
        }
    }
}

proof fn lemma_core_found(fields: Seq<Field>, from: int)
    requires
        0 <= from,
    ensures
        ({
            let found = next_core(fields, from);
            &&& from <= found || found == fields.len()
            &&& found <= fields.len()
            &&& found < fields.len() ==> is_core(fields[found])
            &&& forall|at: int| from <= at < found && at < fields.len() ==> !is_core(#[trigger] fields[at])
        }),
    decreases fields.len() - from,
{
    if from < fields.len() && !core_type(fields[from].field_type) {
        lemma_core_found(fields, from + 1);
    }
}

/// The error field is the first one with an `error` attribute, whatever its type. Where no field has
/// one, it is the only field of the core type, and there is none where no field or more than one is
/// of that type.
pub proof fn law_the_error_field_is_marked_or_alone(fields: Seq<Field>)
    ensures
        match error_field_place(fields) {
            Ok(place) => {
                &&& 0 <= place < fields.len()
                &&& one_called(fields[place].attributes@, "error"@) ==> forall|at: int|
                    0 <= at < place ==> !one_called((#[trigger] fields[at]).attributes@, "error"@)
                &&& !one_called(fields[place].attributes@, "error"@) ==> is_core(fields[place]) && forall|at: int|
                    0 <= at < fields.len() ==> !one_called((#[trigger] fields[at]).attributes@, "error"@) && (at != place
                        ==> !is_core(fields[at]))
            },
            Err(message) => {
                &&& forall|at: int| 0 <= at < fields.len() ==> !one_called((#[trigger] fields[at]).attributes@, "error"@)
                &&& (forall|at: int| 0 <= at < fields.len() ==> !is_core(#[trigger] fields[at])) || exists|left: int, right: int|
                    #![trigger fields[left], fields[right]]
                    0 <= left < right < fields.len() && is_core(fields[left]) && is_core(fields[right])
            },
        },
{
    lemma_marked_found(fields, 0);
    lemma_core_found(fields, 0);
    let first = next_core(fields, 0);
    if first < fields.len() {
        lemma_core_found(fields, first + 1);
        let second = next_core(fields, first + 1);
        if second < fields.len() {
            assert(is_core(fields[first]) && is_core(fields[second]));
        } else {
            assert forall|at: int| 0 <= at < fields.len() && at != first implies !is_core(#[trigger] fields[at]) by {}
        }
    }
    if next_marked(fields, 0) >= fields.len() {
        assert forall|at: int| 0 <= at < fields.len() implies !one_called((#[trigger] fields[at]).attributes@, "error"@) by {}
    }
}

/// The marks of a struct are accepted only where no field has two of them or one without the core
/// type, and no two fields have one.
pub proof fn law_accepted_marks_are_single(fields: Seq<Field>, from: int, marked_before: bool)
    requires
        0 <= from,
        marks_problem(fields, from, marked_before) is None,
    ensures
        forall|at: int|
            from <= at < fields.len() && one_called((#[trigger] fields[at]).attributes@, "error"@) ==> is_core(fields[at])
                && !marked_before,
        forall|left: int, right: int|
            #![trigger fields[left], fields[right]]
            from <= left < right < fields.len() && one_called(fields[left].attributes@, "error"@) ==> !one_called(
                fields[right].attributes@,
                "error"@,
            ),
        forall|at: int, left: int, right: int|
            #![trigger fields[at].attributes@[left], fields[at].attributes@[right]]
            from <= at < fields.len() && 0 <= left < right < fields[at].attributes@.len() && called(
                fields[at].attributes@[left],
                "error"@,
            ) ==> !called(fields[at].attributes@[right], "error"@),
    decreases fields.len() - from,
{
    if from < fields.len() {
        let field = fields[from];
        let first = mark(field);
        lemma_marked(field);
        lemma_named_found(field.attributes@, "error"@, 0);
        if first < field.attributes@.len() {
            lemma_named_found(field.attributes@, "error"@, first + 1);
        }
        law_accepted_marks_are_single(fields, from + 1, marked_before || marked(field));
        assert forall|left: int, right: int|
            #![trigger field.attributes@[left], field.attributes@[right]]
            0 <= left < right < field.attributes@.len() && called(field.attributes@[left], "error"@) implies !called(
            field.attributes@[right],
            "error"@,
        ) by {}
        assert forall|at: int, left: int, right: int|
            #![trigger fields[at].attributes@[left], fields[at].attributes@[right]]
            from <= at < fields.len() && 0 <= left < right < fields[at].attributes@.len() && called(
                fields[at].attributes@[left],
                "error"@,
            ) implies !called(fields[at].attributes@[right], "error"@) by {
            if at == from {
                assert(called(field.attributes@[left], "error"@));
            }
        }
    }
}

/// A derive makes constructors unless an attribute `no_constructors` forbids it, and shows a struct for
/// debugging with all its fields, by name or by number, unless an attribute `no_debug` forbids that.
pub proof fn law_attributes_switch_parts_off(parts: ErrorDerive, input: Input)
    requires
        derives(parts, input),
    ensures
        parts.constructors <==> !one_called(input.attributes@, "no_constructors"@),
        parts.debug is Some <==> !one_called(input.attributes@, "no_debug"@),
        parts.display is Some <==> one_called(input.attributes@, "display"@),
        parts.debug matches Some(body) ==> match input.data {
            Data::Named(fields) => body matches DebugBody::Struct(names) && names@.len() == fields@.len() && forall|at: int|
                0 <= at < fields@.len() ==> (#[trigger] names@[at])@ == fields@[at].name->Some_0@,
            Data::Unnamed(fields) => body == DebugBody::Tuple(fields@.len() as usize) || fields@.len() > usize::MAX,
            _ => true,
        },
{
    lemma_named_found(input.attributes@, "no_constructors"@, 0);
    lemma_named_found(input.attributes@, "no_debug"@, 0);
    lemma_named_found(input.attributes@, "display"@, 0);
    if let Some(body) = parts.debug {
        if let Data::Named(fields) = input.data {
            let names = body->Struct_0;
            assert(texts(names@).len() == field_names(fields@).len());
            assert forall|at: int| 0 <= at < fields@.len() implies (#[trigger] names@[at])@ == fields@[at].name->Some_0@ by {
                assert(texts(names@)[at] == field_names(fields@)[at]);
            }
        }
    }
}

/// The display of an item is that of its first `display` attribute, with that attribute's template and
/// arguments.
pub proof fn law_the_first_display_attribute_counts(input: Input, place: int, template: String, arguments: Vec<Expression>)
    requires
        0 <= place < input.attributes@.len(),
        called(input.attributes@[place], "display"@),
        forall|at: int| 0 <= at < place ==> !called(#[trigger] input.attributes@[at], "display"@),
        input.attributes@[place].meta == Meta::List(List::Template { literal: Literal::Text(template), arguments }),
    ensures
        match display_of(input) {
            Ok(shown) => shown is Some && display_expression(template@, arguments@, input) == Ok::<
                (Seq<char>, Seq<ValueModel>),
                DiagnosticModel,
            >(shown->Some_0),
            Err(diagnostic) => display_expression(template@, arguments@, input) == Err::<
                (Seq<char>, Seq<ValueModel>),
                DiagnosticModel,
            >(diagnostic),
        },
{
    lemma_named_found(input.attributes@, "display"@, 0);
}

/// A struct is refused the error attribute exactly where one of its fields is marked or of the core
/// type.
pub proof fn law_own_cores_are_refused(fields: Seq<Field>, from: int)
    requires
        0 <= from,
    ensures
        own_core(fields, from) is None <==> forall|at: int|
            from <= at < fields.len() ==> !one_called((#[trigger] fields[at]).attributes@, "error"@) && !is_core(fields[at]),
    decreases fields.len() - from,
{
    if from < fields.len() {
        lemma_marked(fields[from]);
        law_own_cores_are_refused(fields, from + 1);
        if own_core(fields, from) is None {
            assert forall|at: int| from <= at < fields.len() implies !one_called((#[trigger] fields[at]).attributes@, "error"@)
                && !is_core(fields[at]) by {}
        }
    }
}

/// The error attribute keeps the fields of a struct, in order, and puts one behind them: of the core
/// type, with the attribute `error(generated)`, and in a struct with names under one that no other
/// field has, `ohno_core` where that is free.
pub proof fn law_the_core_is_added_behind(before: Input, after: Input)
    requires
        named_throughout(before),
        with_core(before.data, after.data),
    ensures
        ({
            let fields = fields_of(before);
            let more = fields_of(after);
            let core = more[fields.len() as int];
            &&& more.len() == fields.len() + 1
            &&& forall|at: int| 0 <= at < fields.len() ==> #[trigger] more[at] == fields[at]
            &&& is_core(core)
            &&& core.attributes@.len() == 1
            &&& called(core.attributes@[0], "error"@)
            &&& core.attributes@[0].meta matches Meta::List(List::Tokens(tokens)) && tokens@ == "generated"@
            &&& before.data is Named <==> after.data is Named
            &&& before.data is Named ==> core.name is Some && forall|at: int|
                0 <= at < fields.len() ==> (#[trigger] fields[at]).name->Some_0@ != core.name->Some_0@
            &&& before.data is Named && core.name->Some_0@ != "ohno_core"@ ==> exists|at: int|
                0 <= at < fields.len() && (#[trigger] fields[at]).name->Some_0@ == "ohno_core"@
        }),
{
    let fields = fields_of(before);
    let more = fields_of(after);
    assert forall|at: int| 0 <= at < fields.len() implies #[trigger] more[at] == fields[at] by {
        assert(more.take(fields.len() as int)[at] == fields[at]);
    }
    if before.data is Named {
        let names = field_names(fields);
        let counter = choose|counter: nat|
            first_free(field_names(fields), counter) && added_core(more[fields.len() as int], Some(#[trigger] core_name(counter)));
        assert forall|at: int| 0 <= at < fields.len() implies (#[trigger] fields[at]).name->Some_0@ != core_name(counter) by {
            assert(names[at] == fields[at].name->Some_0@);
            assert(!names.contains(core_name(counter)));
        }
        if counter > 0 {
            assert(names.contains(core_name(0)));
            let at = choose|at: int| 0 <= at < names.len() && names[at] == core_name(0);
            assert(fields[at].name->Some_0@ == "ohno_core"@);
        }
    }
}

/// The digits of a number stand for it.
proof fn lemma_digits_stand_for_their_number(value: nat)
    ensures
        digits_value(decimal(value)) == Some(value as int),
        decimal(value).len() > 0,
        decimal(value)[0] != '+',
    decreases value,
{
    let text = decimal(value);
    if value >= 10 {
        lemma_digits_stand_for_their_number(value / 10);
        assert(text.drop_last() =~= decimal(value / 10));
    } else {
        assert(text.drop_last() =~= Seq::<char>::empty());
        assert(digits_value(text.drop_last()) == Some(0int));
    }
}

/// A number that is written out is read back, with a plus sign in front of it or without.
pub proof fn law_written_numbers_are_read_back(value: nat)
    requires
        value <= usize::MAX,
    ensures
        written_index(decimal(value)) == Some(value as int),
        written_index(seq!['+'] + decimal(value)) == Some(value as int),
{
    lemma_digits_stand_for_their_number(value);
    assert((seq!['+'] + decimal(value)).skip(1) =~= decimal(value));
}

} // verus!
