//! Display templates.

use vstd::prelude::*;

use crate::error_derive::attributes::DisplayAttribute;
use crate::error_derive::fields::{generated_field, is_generated_error_field};
use crate::error_derive::numbers::{decimal, decimal_text, parse_index, written_index};
use crate::error_derive::syntax::{
    fields_of, refuse, Data, Diagnostic, DiagnosticModel, Expression, Field, Input, Literal, Member,
    MemberModel, Place,
};

verus! {

pub const SELF_SCOPED_ARGS: &'static str = "`#[display(...)]` positional arguments are implicitly scoped to `self`, so the `self.` prefix must be omitted: write `path.display()` instead of `self.path.display()`";

pub const UNSUPPORTED_ARG_ROOT: &'static str = "`#[display(...)]` positional arguments are implicitly scoped to `self`, so each of them must start with a field or a method of the error type";

pub const NOT_ENOUGH_ARGUMENTS: &'static str = "Not enough arguments for format placeholders";

pub const TOO_MANY_ARGUMENTS: &'static str = "Too many arguments for format placeholders";

pub const NO_FIELDS: &'static str = "the error type has no fields that can be referenced";

/// A piece of a display template.
pub enum Piece {
    Character(char),
    /// A doubled opening brace.
    Brace,
    /// A placeholder, with the field it names and its format.
    Reference { name: String, format: String },
}

/// A piece by its content.
pub ghost enum PieceModel {
    Character(char),
    Brace,
    Reference { name: Seq<char>, format: Seq<char> },
}

impl View for Piece {
    type V = PieceModel;

    open spec fn view(&self) -> PieceModel {
        match *self {
            Piece::Character(character) => PieceModel::Character(character),
            Piece::Brace => PieceModel::Brace,
            Piece::Reference { name, format } => PieceModel::Reference { name: name@, format: format@ },
        }
    }
}

/// The contents of pieces.
pub open spec fn piece_models(pieces: Seq<Piece>) -> Seq<PieceModel> {
    Seq::new(pieces.len(), |at: int| pieces[at]@)
}

/// Where the character first stands at or after a place, or the length of the text.
pub open spec fn position(text: Seq<char>, character: char, from: int) -> int
    decreases text.len() - from,
{
    if from >= text.len() {
        text.len() as int
    } else if text[from] == character {
        from
    } else {
        position(text, character, from + 1)
    }
}

/// What follows a place, or nothing past the end.
pub open spec fn behind(text: Seq<char>, place: int) -> Seq<char> {
    if place < text.len() {
        text.skip(place)
    } else {
        Seq::empty()
    }
}

/// The placeholder whose text between the braces this is: a name, and behind the first colon a
/// format.
pub open spec fn reference(content: Seq<char>) -> PieceModel {
    let colon = position(content, ':', 0);
    PieceModel::Reference { name: content.take(colon), format: behind(content, colon + 1) }
}

/// The pieces of a template. A placeholder that is not closed runs to the end.
pub open spec fn template_pieces(template: Seq<char>) -> Seq<PieceModel>
    decreases template.len(),
{
    if template.len() == 0 {
        Seq::empty()
    } else if template[0] != '{' {
        seq![PieceModel::Character(template[0])] + template_pieces(template.skip(1))
    } else if template.len() > 1 && template[1] == '{' {
        seq![PieceModel::Brace] + template_pieces(template.skip(2))
    } else {
        let close = position(template, '}', 1);
        if 1 <= close <= template.len() {
            seq![reference(template.subrange(1, close))] + template_pieces(behind(template, close + 1))
        } else {
            Seq::empty()
        }
    }
}

fn find_position(text: &str, character: char, from: usize) -> (place: usize)
    requires
        from <= text@.len(),
    ensures
        place == position(text@, character, from as int),
        from <= place <= text@.len(),
{
    let length: usize = text.unicode_len();
    let mut at: usize = from;
    while at < length
        invariant
            length == text@.len(),
            from <= at <= length,
            position(text@, character, from as int) == position(text@, character, at as int),
        decreases length - at,
    {
        if text.get_char(at) == character {
            return at;
        }
        at = at + 1;
    }
    at
}

proof fn lemma_position_skips(text: Seq<char>, character: char, skipped: int, from: int)
    requires
        0 <= skipped <= text.len(),
        0 <= from,
        from <= text.len() - skipped,
    ensures
        position(text.skip(skipped), character, from) + skipped == position(text, character, skipped + from),
    decreases text.len() - skipped - from,
{
    if from < text.len() - skipped {
        lemma_position_skips(text, character, skipped, from + 1);
    }
}

/// Splits the text of a placeholder into the field's name and the format.
fn parse_field_reference(content: &str) -> (piece: Piece)
    ensures
        piece@ == reference(content@),
{
    let colon: usize = find_position(content, ':', 0);
    let length: usize = content.unicode_len();
    let name: String = content.substring_char(0, colon).to_owned();
    let format: String = if colon < length {
        content.substring_char(colon + 1, length).to_owned()
    } else {
        String::new()
    };
    proof {
        assert(name@ =~= content@.take(colon as int));
        assert(format@ =~= behind(content@, colon + 1));
    }
    Piece::Reference { name, format }
}

/// Splits a template into its pieces.
pub fn parse_template(template: &str) -> (pieces: Vec<Piece>)
    ensures
        piece_models(pieces@) == template_pieces(template@),
{
    let length: usize = template.unicode_len();
    let mut pieces: Vec<Piece> = Vec::new();
    let mut at: usize = 0;
    proof {
        assert(template@.skip(0) =~= template@);
        assert(piece_models(pieces@) + template_pieces(template@) =~= template_pieces(template@));
    }
    while at < length
        invariant
            length == template@.len(),
            at <= length,
            piece_models(pieces@) + template_pieces(template@.skip(at as int)) == template_pieces(template@),
        decreases length - at,
    {
        let ghost rest = template@.skip(at as int);
        let ghost before = piece_models(pieces@);
        let character: char = template.get_char(at);
        let mut next: usize = at + 1;
        let piece: Piece;
        if character != '{' {
            piece = Piece::Character(character);
            assert(rest.skip(1) =~= template@.skip(next as int));
        } else if at + 1 < length && template.get_char(at + 1) == '{' {
            piece = Piece::Brace;
            next = at + 2;
            assert(rest.skip(2) =~= template@.skip(next as int));
        } else {
            let close: usize = find_position(template, '}', at + 1);
            piece = parse_field_reference(template.substring_char(at + 1, close));
            next = if close < length {
                close + 1
            } else {
                length
            };
            proof {
                lemma_position_skips(template@, '}', at as int, 1);
                assert(template@.subrange(at + 1, close as int) =~= rest.subrange(1, close - at));
                assert(behind(rest, close - at + 1) =~= template@.skip(next as int));
            }
        }
        pieces.push(piece);
        proof {
            assert(piece_models(pieces@) =~= before.push(piece@));
            assert(template_pieces(rest) == seq![piece@] + template_pieces(template@.skip(next as int)));
            assert(before + (seq![piece@] + template_pieces(template@.skip(next as int))) =~= before.push(piece@)
                + template_pieces(template@.skip(next as int)));
        }
        at = next;
    }
    proof {
        assert(template@.skip(at as int) =~= Seq::<char>::empty());
        assert(piece_models(pieces@) + Seq::<PieceModel>::empty() =~= piece_models(pieces@));
    }
    pieces
}

/// Whether the template may refer to the field under the name: by its own name, or by its place
/// in a tuple struct. A generated core field is nothing the template can refer to.
pub open spec fn referenceable(name: Seq<char>, input: Input) -> bool {
    match input.data {
        Data::Named(fields) => exists|at: int|
            0 <= at < fields@.len() && #[trigger] answers_to(fields@[at], name),
        Data::Unnamed(fields) => match written_index(name) {
            Some(index) => index < fields@.len() && !generated_field(fields@[index]),
            None => false,
        },
        _ => false,
    }
}

/// Whether the field has the name and is not generated.
pub open spec fn answers_to(field: Field, name: Seq<char>) -> bool {
    &&& field.name matches Some(own)
    &&& own@ == name
    &&& !generated_field(field)
}

fn find_answering(fields: &Vec<Field>, name: &str) -> (found: bool)
    ensures
        found == exists|at: int| 0 <= at < fields@.len() && #[trigger] answers_to(fields@[at], name@),
{
    let wanted: String = name.to_owned();
    let mut at: usize = 0;
    while at < fields.len()
        invariant
            at <= fields@.len(),
            wanted@ == name@,
            forall|before: int| 0 <= before < at ==> !#[trigger] answers_to(fields@[before], name@),
        decreases fields@.len() - at,
    {
        if let Some(own) = &fields[at].name {
            if *own == wanted && !is_generated_error_field(&fields[at]) {
                assert(answers_to(fields@[at as int], name@));
                return true;
            }
        }
        at = at + 1;
    }
    false
}

/// Checks whether the struct has a field that a template may refer to under the name.
pub fn field_exists(name: &str, input: &Input) -> (exists_there: bool)
    ensures
        exists_there == referenceable(name@, *input),
{
    match &input.data {
        Data::Named(fields) => find_answering(fields, name),
        Data::Unnamed(fields) => match parse_index(name) {
            Some(index) => index < fields.len() && !is_generated_error_field(&fields[index]),
            None => false,
        },
        Data::Unit => false,
        Data::Other => false,
    }
}

/// The names under which a template may refer to the first fields.
pub open spec fn names_of(fields: Seq<Field>, indexed: bool, count: int) -> Seq<Seq<char>>
    decreases count,
{
    if count <= 0 {
        Seq::empty()
    } else {
        let earlier = names_of(fields, indexed, count - 1);
        let field = fields[count - 1];
        if generated_field(field) {
            earlier
        } else if indexed {
            earlier.push(decimal((count - 1) as nat))
        } else {
            match field.name {
                Some(name) => earlier.push(name@),
                None => earlier,
            }
        }
    }
}

/// The names under which a template may refer to fields, in order.
pub open spec fn referenceable_names(input: Input) -> Seq<Seq<char>> {
    names_of(fields_of(input), input.data is Unnamed, fields_of(input).len() as int)
}

/// The contents of strings.
pub open spec fn texts(strings: Seq<String>) -> Seq<Seq<char>> {
    Seq::new(strings.len(), |at: int| strings[at]@)
}

fn collect_names(fields: &Vec<Field>, indexed: bool) -> (names: Vec<String>)
    ensures
        texts(names@) == names_of(fields@, indexed, fields@.len() as int),
{
    let mut names: Vec<String> = Vec::new();
    let mut at: usize = 0;
    assert(texts(names@) =~= Seq::<Seq<char>>::empty());
    while at < fields.len()
        invariant
            at <= fields@.len(),
            texts(names@) == names_of(fields@, indexed, at as int),
        decreases fields@.len() - at,
    {
        let ghost before = names@;
        if !is_generated_error_field(&fields[at]) {
            if indexed {
                let name: String = decimal_text(at);
                names.push(name);
                assert(texts(names@) =~= texts(before).push(name@));
            } else if let Some(own) = &fields[at].name {
                let name: String = own.clone();
                names.push(name);
                assert(texts(names@) =~= texts(before).push(name@));
            }
        }
        at = at + 1;
    }
    names
}

/// Collects the names of the fields that a template may refer to, without the generated core.
pub fn referenceable_field_names(input: &Input) -> (names: Vec<String>)
    ensures
        texts(names@) == referenceable_names(*input),
{
    match &input.data {
        Data::Named(fields) => collect_names(fields, false),
        Data::Unnamed(fields) => collect_names(fields, true),
        _ => {
            let names: Vec<String> = Vec::new();
            assert(texts(names@) =~= Seq::<Seq<char>>::empty());
            names
        },
    }
}

/// A name between backquotes.
pub open spec fn quoted(name: Seq<char>) -> Seq<char> {
    "`"@ + name + "`"@
}

/// Quoted names with commas between them.
pub open spec fn listed(names: Seq<Seq<char>>) -> Seq<char>
    decreases names.len(),
{
    if names.len() == 0 {
        Seq::empty()
    } else if names.len() == 1 {
        quoted(names[0])
    } else {
        listed(names.drop_last()) + ", "@ + quoted(names.last())
    }
}

/// What a template may refer to, in words.
pub open spec fn available_fields(names: Seq<Seq<char>>) -> Seq<char> {
    if names.len() == 0 {
        NO_FIELDS@
    } else {
        "available fields: "@ + listed(names)
    }
}

/// What is said of a field that is not there.
pub open spec fn unknown_field(name: Seq<char>, input: Input) -> Seq<char> {
    "unknown field `"@ + name + "` in `#[display(...)]`, "@ + available_fields(referenceable_names(input))
}

fn describe_referenceable_fields(input: &Input) -> (text: String)
    ensures
        text@ == available_fields(referenceable_names(*input)),
{
    let names: Vec<String> = referenceable_field_names(input);
    if names.len() == 0 {
        return NO_FIELDS.to_owned();
    }
    let ghost all = texts(names@);
    let mut list: String = String::new();
    let mut at: usize = 0;
    assert(all.take(0) =~= Seq::<Seq<char>>::empty());
    assert(list@ =~= Seq::<char>::empty());
    while at < names.len()
        invariant
            at <= names@.len(),
            all == texts(names@),
            list@ == listed(all.take(at as int)),
        decreases names@.len() - at,
    {
        let ghost before = list@;
        let ghost more = all.take(at + 1);
        if at > 0 {
            list.append(", ");
        }
        list.append("`");
        list.append(names[at].as_str());
        list.append("`");
        proof {
            assert(more.drop_last() =~= all.take(at as int));
            assert(more.last() == names@[at as int]@);
            if at == 0 {
                assert(before =~= Seq::<char>::empty());
                assert(list@ =~= quoted(more[0]));
            } else {
                assert(list@ =~= before + ", "@ + quoted(more.last()));
            }
        }
        at = at + 1;
    }
    assert(all.take(at as int) =~= all);
    let mut text: String = "available fields: ".to_owned();
    text.append(list.as_str());
    text
}

/// Validates that a template may refer to a field under the name.
pub fn validate_field_exists(name: &str, input: &Input, place: Place) -> (result: Result<(), Diagnostic>)
    ensures
        match result {
            Ok(()) => referenceable(name@, *input),
            Err(diagnostic) => !referenceable(name@, *input) && diagnostic@ == (DiagnosticModel {
                place,
                message: unknown_field(name@, *input),
            }),
        },
{
    if field_exists(name, input) {
        return Ok(());
    }
    let available: String = describe_referenceable_fields(input);
    let mut message: String = "unknown field `".to_owned();
    message.append(name);
    message.append("` in `#[display(...)]`, ");
    message.append(available.as_str());
    Err(Diagnostic { place, message })
}

/// The term that the whole expression is rooted in.
pub open spec fn root(expression: Expression) -> Expression
    decreases expression,
{
    match expression {
        Expression::Field(base) => root(*base),
        Expression::MethodCall(receiver) => root(*receiver),
        Expression::Index(base) => root(*base),
        _ => expression,
    }
}

/// Walks an expression down to the term that it is rooted in.
pub fn root_of_expr(expression: &Expression) -> (term: &Expression)
    ensures
        *term == root(*expression),
    decreases expression,
{
    match expression {
        Expression::Field(base) => root_of_expr(base),
        Expression::MethodCall(receiver) => root_of_expr(receiver),
        Expression::Index(base) => root_of_expr(base),
        _ => expression,
    }
}

/// Whether what the expression begins with can stand behind `self.`.
pub open spec fn follows_dot(expression: Expression) -> bool
    decreases expression,
{
    match expression {
        Expression::Field(base) => follows_dot(*base),
        Expression::MethodCall(receiver) => follows_dot(*receiver),
        Expression::Index(base) => follows_dot(*base),
        Expression::Leading(first) => follows_dot(*first),
        Expression::Path(segments) => segments@.len() == 1,
        Expression::Literal(literal) => literal is Integer || literal is Float,
        Expression::Other => false,
    }
}

/// Checks whether what the expression begins with can stand behind `self.`.
pub fn can_follow_dot(expression: &Expression) -> (result: bool)
    ensures
        result == follows_dot(*expression),
    decreases expression,
{
    match expression {
        Expression::Field(base) => can_follow_dot(base),
        Expression::MethodCall(receiver) => can_follow_dot(receiver),
        Expression::Index(base) => can_follow_dot(base),
        Expression::Leading(first) => can_follow_dot(first),
        Expression::Path(segments) => segments.len() == 1,
        Expression::Literal(literal) => matches!(literal, Literal::Integer(_) | Literal::Float),
        Expression::Other => false,
    }
}

/// What is wrong with an argument's root: `self` itself, a field that is not there, or a term that
/// cannot stand behind `self.`.
pub open spec fn root_problem(expression: Expression, argument: int, input: Input) -> Option<DiagnosticModel> {
    let own = root(expression);
    if !follows_dot(own) {
        Some(DiagnosticModel { place: Place::Argument { argument: argument as usize }, message: UNSUPPORTED_ARG_ROOT@ })
    } else {
        match own {
            Expression::Path(segments) => if segments@[0]@ == "self"@ {
                Some(DiagnosticModel { place: Place::Argument { argument: argument as usize }, message: SELF_SCOPED_ARGS@ })
            } else if !referenceable(segments@[0]@, input) {
                Some(DiagnosticModel {
                    place: Place::ArgumentRoot { argument: argument as usize },
                    message: unknown_field(segments@[0]@, input),
                })
            } else {
                None
            },
            Expression::Literal(Literal::Integer(digits)) => if !referenceable(digits@, input) {
                Some(DiagnosticModel {
                    place: Place::ArgumentRoot { argument: argument as usize },
                    message: unknown_field(digits@, input),
                })
            } else {
                None
            },
            _ => None,
        }
    }
}

/// Validates the field access that a positional argument is rooted in.
pub fn validate_arg_root(expression: &Expression, argument: usize, input: &Input) -> (result: Result<(), Diagnostic>)
    ensures
        match result {
            Ok(()) => root_problem(*expression, argument as int, *input) is None,
            Err(diagnostic) => root_problem(*expression, argument as int, *input) == Some(diagnostic@),
        },
{
    let own: &Expression = root_of_expr(expression);
    if !can_follow_dot(own) {
        return Err(refuse(Place::Argument { argument }, UNSUPPORTED_ARG_ROOT));
    }
    match own {
        Expression::Path(segments) => {
            if segments[0] == "self".to_owned() {
                return Err(refuse(Place::Argument { argument }, SELF_SCOPED_ARGS));
            }
            validate_field_exists(segments[0].as_str(), input, Place::ArgumentRoot { argument })
        },
        Expression::Literal(literal) => match literal {
            Literal::Integer(digits) => validate_field_exists(digits.as_str(), input, Place::ArgumentRoot { argument }),
            _ => Ok(()),
        },
        _ => Ok(()),
    }
}

/// The member that a name in a template stands for: a tuple index, or else a field's name.
pub open spec fn member_of(name: Seq<char>) -> MemberModel {
    match written_index(name) {
        Some(index) => MemberModel::Indexed(index),
        None => MemberModel::Named(name),
    }
}

/// Builds the member that a name in a template stands for.
pub fn field_member(name: &str) -> (member: Member)
    ensures
        member@ == member_of(name@),
{
    match parse_index(name) {
        Some(index) => Member::Indexed(index),
        None => Member::Named(name.to_owned()),
    }
}

/// A value that fills a placeholder: a field, or a positional argument by its place.
pub enum Value {
    Member(Member),
    Argument(usize),
}

/// A value by its content.
pub ghost enum ValueModel {
    Member(MemberModel),
    Argument(int),
}

impl View for Value {
    type V = ValueModel;

    open spec fn view(&self) -> ValueModel {
        match *self {
            Value::Member(member) => ValueModel::Member(member@),
            Value::Argument(argument) => ValueModel::Argument(argument as int),
        }
    }
}

/// The contents of values.
pub open spec fn value_models(values: Seq<Value>) -> Seq<ValueModel> {
    Seq::new(values.len(), |at: int| values[at]@)
}

/// A format string for `format!`, and the values behind it.
pub struct DisplayExpression {
    pub format: String,
    pub values: Vec<Value>,
}

/// A display expression in the making: the format and the values so far, and how many arguments
/// they used.
pub ghost struct Progress {
    pub format: Seq<char>,
    pub values: Seq<ValueModel>,
    pub used: int,
}

/// A placeholder without a name: empty braces, or the format between them.
pub open spec fn placeholder(format: Seq<char>) -> Seq<char> {
    if format.len() == 0 {
        "{}"@
    } else {
        "{:"@ + format + "}"@
    }
}

/// What one piece adds.
pub open spec fn add_piece(
    progress: Progress,
    piece: PieceModel,
    arguments: Seq<Expression>,
    input: Input,
) -> Result<Progress, DiagnosticModel> {
    match piece {
        PieceModel::Character(character) => Ok(Progress { format: progress.format.push(character), ..progress }),
        PieceModel::Brace => Ok(Progress { format: progress.format + "{{"@, ..progress }),
        PieceModel::Reference { name, format } => if name.len() == 0 {
            if progress.used >= arguments.len() {
                Err(DiagnosticModel { place: Place::Template, message: NOT_ENOUGH_ARGUMENTS@ })
            } else {
                match root_problem(arguments[progress.used], progress.used, input) {
                    Some(problem) => Err(problem),
                    None => Ok(
                        Progress {
                            format: progress.format + placeholder(format),
                            values: progress.values.push(ValueModel::Argument(progress.used)),
                            used: progress.used + 1,
                        },
                    ),
                }
            }
        } else if !referenceable(name, input) {
            Err(DiagnosticModel { place: Place::Template, message: unknown_field(name, input) })
        } else {
            Ok(
                Progress {
                    format: progress.format + placeholder(format),
                    values: progress.values.push(ValueModel::Member(member_of(name))),
                    used: progress.used,
                },
            )
        },
    }
}

/// What the pieces make together, or the first problem among them.
pub open spec fn add_pieces(pieces: Seq<PieceModel>, arguments: Seq<Expression>, input: Input) -> Result<
    Progress,
    DiagnosticModel,
>
    decreases pieces.len(),
{
    if pieces.len() == 0 {
        Ok(Progress { format: Seq::empty(), values: Seq::empty(), used: 0 })
    } else {
        match add_pieces(pieces.drop_last(), arguments, input) {
            Ok(progress) => add_piece(progress, pieces.last(), arguments, input),
            Err(problem) => Err(problem),
        }
    }
}

/// The display expression of a template, or why it is refused.
pub open spec fn display_expression(template: Seq<char>, arguments: Seq<Expression>, input: Input) -> Result<
    (Seq<char>, Seq<ValueModel>),
    DiagnosticModel,
> {
    match add_pieces(template_pieces(template), arguments, input) {
        Ok(progress) => if progress.used != arguments.len() {
            Err(DiagnosticModel { place: Place::Template, message: TOO_MANY_ARGUMENTS@ })
        } else {
            Ok((progress.format, progress.values))
        },
        Err(problem) => Err(problem),
    }
}

proof fn lemma_problem_stands(pieces: Seq<PieceModel>, count: int, arguments: Seq<Expression>, input: Input)
    requires
        0 <= count <= pieces.len(),
        add_pieces(pieces.take(count), arguments, input) is Err,
    ensures
        add_pieces(pieces, arguments, input) == add_pieces(pieces.take(count), arguments, input),
    decreases pieces.len(),
{
    if count == pieces.len() {
        assert(pieces.take(count) =~= pieces);
    } else {
        assert(pieces.drop_last().take(count) =~= pieces.take(count));
        lemma_problem_stands(pieces.drop_last(), count, arguments, input);
    }
}

/// Turns a display template into a format string and the values that fill it. A placeholder
/// without a name takes the next positional argument; the others name a field.
pub fn parse_display_template(display: &DisplayAttribute<'_>, input: &Input) -> (result: Result<DisplayExpression, Diagnostic>)
    ensures
        match result {
            Ok(expression) => display_expression(display.template@, display.arguments@, *input) == Ok::<
                (Seq<char>, Seq<ValueModel>),
                DiagnosticModel,
            >((expression.format@, value_models(expression.values@))),
            Err(diagnostic) => display_expression(display.template@, display.arguments@, *input) == Err::<
                (Seq<char>, Seq<ValueModel>),
                DiagnosticModel,
            >(diagnostic@),
        },
{
    let pieces: Vec<Piece> = parse_template(display.template);
    let ghost models = piece_models(pieces@);
    let ghost arguments = display.arguments@;
    let mut format: String = String::new();
    let mut values: Vec<Value> = Vec::new();
    let mut used: usize = 0;
    let mut at: usize = 0;
    proof {
        assert(models.take(0) =~= Seq::<PieceModel>::empty());
        assert(value_models(values@) =~= Seq::<ValueModel>::empty());
        assert(format@ =~= Seq::<char>::empty());
    }
    while at < pieces.len()
        invariant
            at <= pieces@.len(),
            models == piece_models(pieces@),
            models == template_pieces(display.template@),
            arguments == display.arguments@,
            used <= arguments.len(),
            add_pieces(models.take(at as int), arguments, *input) == Ok::<Progress, DiagnosticModel>(
                (Progress { format: format@, values: value_models(values@), used: used as int }),
            ),
        decreases pieces@.len() - at,
    {
        let ghost more = models.take(at + 1);
        let ghost before = values@;
        let ghost progress = Progress { format: format@, values: value_models(values@), used: used as int };
        proof {
            assert(more.drop_last() =~= models.take(at as int));
            assert(more.last() == pieces@[at as int]@);
            assert(add_pieces(more, arguments, *input) == add_piece(progress, more.last(), arguments, *input));
            if add_pieces(more, arguments, *input) is Err {
                lemma_problem_stands(models, at + 1, arguments, *input);
            }
        }
        match &pieces[at] {
            Piece::Character(character) => {
                format.push(*character);
            },
            Piece::Brace => {
                format.append("{{");
            },
            Piece::Reference { name, format: specification } => {
                let value: Value;
                if name.as_str().is_empty() {
                    if used >= display.arguments.len() {
                        return Err(refuse(Place::Template, NOT_ENOUGH_ARGUMENTS));
                    }
                    match validate_arg_root(&display.arguments[used], used, input) {
                        Ok(()) => {},
                        Err(diagnostic) => {
                            return Err(diagnostic);
                        },
                    }
                    value = Value::Argument(used);
                    used = used + 1;
                } else {
                    match validate_field_exists(name.as_str(), input, Place::Template) {
                        Ok(()) => {},
                        Err(diagnostic) => {
                            return Err(diagnostic);
                        },
                    }
                    value = Value::Member(field_member(name.as_str()));
                }
                values.push(value);
                if specification.as_str().is_empty() {
                    format.append("{}");
                } else {
                    format.append("{:");
                    format.append(specification.as_str());
                    format.append("}");
                }
                proof {
                    assert(value_models(values@) =~= value_models(before).push(value@));
                    assert(format@ =~= progress.format + placeholder(specification@));
                }
            },
        }
        at = at + 1;
    }
    assert(models.take(at as int) =~= models);
    if used != display.arguments.len() {
        return Err(refuse(Place::Template, TOO_MANY_ARGUMENTS));
    }
    Ok(DisplayExpression { format, values })
}

} // verus!
