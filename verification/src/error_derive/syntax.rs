//! The parts of an item's syntax that the derive reads.

use vstd::prelude::*;

verus! {

/// A literal as it stands in the source.
pub enum Literal {
    /// A string literal, with its value.
    Text(String),
    /// An integer literal, with its digits in base ten.
    Integer(String),
    Float,
    Other,
}

/// An expression, down to the term it is rooted in.
pub enum Expression {
    Field(Box<Expression>),
    MethodCall(Box<Expression>),
    Index(Box<Expression>),
    /// A path of plain segments; a path of one segment is an identifier.
    Path(Vec<String>),
    Literal(Literal),
    /// A call, an operation or a conversion, by the expression that it begins with.
    Leading(Box<Expression>),
    Other,
}

/// The key of a field expression in a conversion.
pub enum FieldKey {
    Name(String),
    Literal(Literal),
}

/// One entry of a conversion list: a type and the field expressions written after it.
pub struct Conversion {
    pub from_type: String,
    pub fields: Vec<(FieldKey, String)>,
}

/// What stands between the brackets of an attribute.
pub enum List {
    /// Tokens, as text.
    Tokens(String),
    /// A literal, and expressions behind it.
    Template { literal: Literal, arguments: Vec<Expression> },
    /// Types with their field expressions.
    Conversions(Vec<Conversion>),
    /// Tokens that do not parse, with what the parser says of them.
    Malformed(String),
}

/// The form of an attribute.
pub enum Meta {
    Path,
    List(List),
    NameValue,
}

/// An attribute. The name is absent where its path is no single identifier.
pub struct Attribute {
    pub name: Option<String>,
    pub meta: Meta,
}

/// The type of a field, as far as the derive reads it.
pub enum FieldType {
    /// A path, by the names of its segments.
    Path(Vec<String>),
    Other,
}

/// A field of a struct.
pub struct Field {
    pub name: Option<String>,
    pub attributes: Vec<Attribute>,
    pub field_type: FieldType,
}

/// What the item declares.
pub enum Data {
    Named(Vec<Field>),
    Unnamed(Vec<Field>),
    Unit,
    /// An item that is no struct.
    Other,
}

/// The item that a derive or an attribute stands on.
pub struct Input {
    pub attributes: Vec<Attribute>,
    pub data: Data,
}

/// A field, by its name or by its place in a tuple struct.
pub enum Member {
    Named(String),
    Indexed(usize),
}

/// What a diagnostic points at.
#[derive(Clone, Copy, Debug, PartialEq, Eq, Structural)]
pub enum Place {
    CallSite,
    Name,
    Attribute { attribute: usize },
    /// Where the tokens of an attribute do not parse.
    Tokens { attribute: usize },
    /// The key of a field expression in one of the conversions of an attribute.
    Key { attribute: usize, conversion: usize, field: usize },
    FieldAttribute { field: usize, attribute: usize },
    FieldType { field: usize },
    Template,
    Argument { argument: usize },
    ArgumentRoot { argument: usize },
}

/// Why an item is refused.
pub struct Diagnostic {
    pub place: Place,
    pub message: String,
}

/// A diagnostic by its content.
pub ghost struct DiagnosticModel {
    pub place: Place,
    pub message: Seq<char>,
}

impl View for Diagnostic {
    type V = DiagnosticModel;

    open spec fn view(&self) -> DiagnosticModel {
        DiagnosticModel { place: self.place, message: self.message@ }
    }
}

/// A member by its content.
pub ghost enum MemberModel {
    Named(Seq<char>),
    Indexed(int),
}

impl View for Member {
    type V = MemberModel;

    open spec fn view(&self) -> MemberModel {
        match *self {
            Member::Named(name) => MemberModel::Named(name@),
            Member::Indexed(index) => MemberModel::Indexed(index as int),
        }
    }
}

/// The diagnostic with the given message.
pub fn refuse(place: Place, message: &str) -> (diagnostic: Diagnostic)
    ensures
        diagnostic@ == (DiagnosticModel { place, message: message@ }),
{
    Diagnostic { place, message: message.to_owned() }
}

/// Whether the text is plain: of ASCII alone, and without brackets that open a group.
pub open spec fn plain(tokens: Seq<char>) -> bool {
    forall|at: int|
        0 <= at < tokens.len() ==> (#[trigger] tokens[at]) as int <= 127 && tokens[at] != '(' && tokens[at] != '[' && tokens[at] != '{'
}

/// Checks whether the text is plain.
pub fn is_plain(tokens: &str) -> (result: bool)
    ensures
        result == plain(tokens@),
{
    let count: usize = tokens.unicode_len();
    let mut at: usize = 0;
    while at < count
        invariant
            at <= count == tokens@.len(),
            forall|before: int|
                0 <= before < at ==> (#[trigger] tokens@[before]) as int <= 127 && tokens@[before] != '(' && tokens@[before] != '['
                    && tokens@[before] != '{',
        decreases count - at,
    {
        let character: char = tokens.get_char(at);
        if character > '\u{7f}' || character == '(' || character == '[' || character == '{' {
            return false;
        }
        at = at + 1;
    }
    true
}

/// The single identifier that plain tokens are, if they are one.
pub uninterp spec fn identifier(tokens: Seq<char>) -> Option<Seq<char>>;

/// Parses tokens as one identifier with `syn::parse_str`. What counts as an identifier is left to
/// the parser; the contract says that the answer depends on the tokens alone. They are plain: the
/// parser descends once for every group in a group, and its two lexers may spell an identifier
/// beyond ASCII differently.
#[verifier::external_body]
pub(crate) fn parse_identifier(tokens: &str) -> (name: Option<String>)
    requires
        plain(tokens@),
    ensures
        name is Some <==> identifier(tokens@) is Some,
        name matches Some(name) ==> name@ == identifier(tokens@)->Some_0,
{
    match syn::parse_str::<syn::Ident>(tokens) {
        Ok(name) => Some(name.to_string()),
        Err(_) => None,
    }
}

/// Whether the attribute has the name.
pub open spec fn is_named(attribute: Attribute, name: Seq<char>) -> bool {
    attribute.name matches Some(own) && own@ == name
}

/// Whether the attribute's path is the given identifier.
pub fn has_name(attribute: &Attribute, name: &str) -> (named: bool)
    ensures
        named == is_named(*attribute, name@),
{
    match &attribute.name {
        Some(own) => *own == name.to_owned(),
        None => false,
    }
}

/// The fields of a struct, in order; none where the item has none.
pub open spec fn fields_of(input: Input) -> Seq<Field> {
    match input.data {
        Data::Named(fields) => fields@,
        Data::Unnamed(fields) => fields@,
        Data::Unit => Seq::empty(),
        Data::Other => Seq::empty(),
    }
}

/// Whether every field has a name exactly where the struct names its fields.
pub open spec fn named_throughout(input: Input) -> bool {
    input.data matches Data::Named(fields) ==> forall|at: int|
        0 <= at < fields@.len() ==> (#[trigger] fields@[at]).name is Some
}

} // verus!
