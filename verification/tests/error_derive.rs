use quote::ToTokens;
use rallocator::error_derive::attributes::{
    find_display_attribute, find_from_attribute, has_no_constructors_attribute, has_no_debug_attribute, DisplayAttribute, FromConfig,
};
use rallocator::error_derive::display::{
    field_exists, parse_display_template, validate_field_exists, Value, SELF_SCOPED_ARGS, UNSUPPORTED_ARG_ROOT,
};
use rallocator::error_derive::expansion::{
    add_fiasko_error_derive, add_ohno_core_field, error_impl, generate_unique_field_name, impl_error_derive,
    reject_existing_error_field, DebugBody, ALREADY_DECLARED, ALREADY_MARKED,
};
use rallocator::error_derive::fields::{
    find_error_field, is_generated_error_field, is_inner_error_type, validate_error_attributes, DUPLICATE_MARKER,
    ERROR_ATTRIBUTE_ARGUMENTS, MARKED_FIELD_TYPE, MULTIPLE_MARKED_FIELDS, NO_ERROR_FIELD,
};
use rallocator::error_derive::lists::{Ahead, DisplayReader, FromReader, FromStage, Wanted};
use rallocator::error_derive::numbers::{decimal_text, parse_index};
use rallocator::error_derive::syntax::{
    Attribute, Data, Expression, Field, FieldKey, FieldType, Input, List, Literal, Member, Meta, Place,
};
use syn::parse::{ParseStream, Parser};

fn text(tokens: &impl ToTokens) -> String {
    tokens.to_token_stream().to_string()
}

fn literal(lit: &syn::Lit) -> Literal {
    match lit {
        syn::Lit::Str(text) => Literal::Text(text.value()),
        syn::Lit::Int(number) => Literal::Integer(number.base10_digits().to_string()),
        syn::Lit::Float(_) => Literal::Float,
        _ => Literal::Other,
    }
}

fn expression(expr: &syn::Expr) -> Expression {
    match expr {
        syn::Expr::Field(inner) => Expression::Field(Box::new(expression(&inner.base))),
        syn::Expr::MethodCall(inner) => Expression::MethodCall(Box::new(expression(&inner.receiver))),
        syn::Expr::Index(inner) => Expression::Index(Box::new(expression(&inner.expr))),
        syn::Expr::Path(path) => {
            Expression::Path(path.path.segments.iter().map(|segment| segment.ident.to_string()).collect())
        }
        syn::Expr::Lit(inner) => Expression::Literal(literal(&inner.lit)),
        syn::Expr::Call(inner) => Expression::Leading(Box::new(expression(&inner.func))),
        syn::Expr::Binary(inner) => Expression::Leading(Box::new(expression(&inner.left))),
        syn::Expr::Assign(inner) => Expression::Leading(Box::new(expression(&inner.left))),
        syn::Expr::Cast(inner) => Expression::Leading(Box::new(expression(&inner.expr))),
        syn::Expr::Try(inner) => Expression::Leading(Box::new(expression(&inner.expr))),
        syn::Expr::Await(inner) => Expression::Leading(Box::new(expression(&inner.base))),
        syn::Expr::Range(syn::ExprRange { start: Some(start), .. }) => Expression::Leading(Box::new(expression(start))),
        _ => Expression::Other,
    }
}

fn ahead(tokens: ParseStream) -> Ahead {
    if tokens.is_empty() {
        Ahead::End
    } else if tokens.peek(syn::token::Comma) {
        Ahead::Comma
    } else if tokens.peek(syn::token::Paren) {
        Ahead::Group
    } else if tokens.peek(syn::Lit) {
        Ahead::Literal
    } else {
        Ahead::Other
    }
}

fn template(tokens: ParseStream) -> syn::Result<List> {
    let mut reader = DisplayReader::new();
    loop {
        match reader.wanted(ahead(tokens)) {
            Wanted::Literal => reader.accept_template(literal(&tokens.parse()?)),
            Wanted::Comma => {
                tokens.parse::<syn::token::Comma>()?;
                reader.accept_comma();
            }
            Wanted::Expression => reader.accept_argument(expression(&tokens.parse()?)),
            Wanted::Nothing => {
                tokens.parse::<proc_macro2::TokenStream>()?;
                break;
            }
            _ => break,
        }
    }
    Ok(reader.finish())
}

fn read_conversions(reader: &mut FromReader, tokens: ParseStream) -> syn::Result<()> {
    loop {
        match reader.wanted(ahead(tokens)) {
            Wanted::Type => reader.accept_type(text(&tokens.parse::<syn::Type>()?)),
            Wanted::Group => {
                let group: proc_macro2::Group = tokens.parse()?;
                reader.enter_group();
                (|content: ParseStream| read_conversions(reader, content)).parse2(group.stream())?;
                if reader.stage != FromStage::Refused {
                    reader.leave_group();
                }
            }
            Wanted::Literal => reader.accept_key(FieldKey::Literal(literal(&tokens.parse()?))),
            Wanted::Name => reader.accept_key(FieldKey::Name(tokens.parse::<syn::Ident>()?.to_string())),
            Wanted::Colon => {
                tokens.parse::<syn::token::Colon>()?;
                reader.accept_colon();
            }
            Wanted::Expression => reader.accept_value(text(&tokens.parse::<syn::Expr>()?)),
            Wanted::Comma => {
                tokens.parse::<syn::token::Comma>()?;
                reader.accept_comma();
            }
            Wanted::End => return Ok(()),
            Wanted::Nothing => {
                tokens.parse::<proc_macro2::TokenStream>()?;
                return Ok(());
            }
        }
    }
}

fn conversions(tokens: ParseStream) -> syn::Result<List> {
    let mut reader = FromReader::new();
    read_conversions(&mut reader, tokens)?;
    Ok(reader.finish())
}

fn attribute(attr: &syn::Attribute) -> Attribute {
    let name = attr.path().get_ident().map(|name| name.to_string());
    let meta = match &attr.meta {
        syn::Meta::Path(_) => Meta::Path,
        syn::Meta::NameValue(_) => Meta::NameValue,
        syn::Meta::List(list) => {
            let parsed = match name.as_deref() {
                Some("display") => template.parse2(list.tokens.clone()),
                Some("from") => conversions.parse2(list.tokens.clone()),
                _ => Ok(List::Tokens(list.tokens.to_string())),
            };
            Meta::List(parsed.unwrap_or_else(|error| List::Malformed(error.to_string())))
        }
    };
    Attribute { name, meta }
}

fn field_type(own: &syn::Type) -> FieldType {
    match own {
        syn::Type::Path(path) => {
            FieldType::Path(path.path.segments.iter().map(|segment| segment.ident.to_string()).collect())
        }
        _ => FieldType::Other,
    }
}

fn field(own: &syn::Field) -> Field {
    Field {
        name: own.ident.as_ref().map(|name| name.to_string()),
        attributes: own.attrs.iter().map(attribute).collect(),
        field_type: field_type(&own.ty),
    }
}

fn input(source: &str) -> Input {
    let item: syn::DeriveInput = syn::parse_str(source).unwrap();
    let data = match &item.data {
        syn::Data::Struct(data) => match &data.fields {
            syn::Fields::Named(fields) => Data::Named(fields.named.iter().map(field).collect()),
            syn::Fields::Unnamed(fields) => Data::Unnamed(fields.unnamed.iter().map(field).collect()),
            syn::Fields::Unit => Data::Unit,
        },
        _ => Data::Other,
    };
    Input { attributes: item.attrs.iter().map(attribute).collect(), data }
}

fn arguments(sources: &[&str]) -> Vec<Expression> {
    sources.iter().map(|source| expression(&syn::parse_str(source).unwrap())).collect()
}

fn member(member: &Member) -> String {
    match member {
        Member::Named(name) => name.clone(),
        Member::Indexed(index) => index.to_string(),
    }
}

fn try_parse(template: &str, sources: &[&str], input: &Input) -> Result<(String, Vec<String>), String> {
    let arguments = arguments(sources);
    let display = DisplayAttribute { template, arguments: &arguments };
    match parse_display_template(&display, input) {
        Ok(shown) => {
            let values = shown
                .values
                .iter()
                .map(|value| match value {
                    Value::Member(own) => format!("&self.{}", member(own)),
                    Value::Argument(at) => format!("&self.{}", sources[*at]),
                })
                .collect();
            Ok((shown.format, values))
        }
        Err(diagnostic) => Err(diagnostic.message),
    }
}

fn parse(template: &str, sources: &[&str], input: &Input) -> (String, Vec<String>) {
    try_parse(template, sources, input).unwrap()
}

fn parse_err(template: &str, sources: &[&str], input: &Input) -> String {
    try_parse(template, sources, input).unwrap_err()
}

fn shown(format: &str, values: &[&str]) -> (String, Vec<String>) {
    (format.to_string(), values.iter().map(|value| value.to_string()).collect())
}

fn validate(name: &str, input: &Input) -> Result<(), String> {
    validate_field_exists(name, input, Place::CallSite).map_err(|diagnostic| diagnostic.message)
}

fn expect_display_error(input: &Input, expected: &str) {
    let message = find_display_attribute(input).map(|_| ()).unwrap_err_message();
    assert!(message.contains(expected), "Expected error to contain '{expected}', got '{message}'");
}

fn expect_from_error(input: &Input, expected: &str) {
    let message = find_from_attribute(input).map(|_| ()).unwrap_err_message();
    assert!(message.contains(expected), "Expected error to contain '{expected}', got '{message}'");
}

trait Refused {
    fn unwrap_err_message(self) -> String;
}

impl<T> Refused for Result<T, rallocator::error_derive::syntax::Diagnostic> {
    fn unwrap_err_message(self) -> String {
        match self {
            Ok(_) => panic!("expected a refusal"),
            Err(diagnostic) => diagnostic.message,
        }
    }
}

fn assert_field_keys(config: &FromConfig, expected: &[&str]) {
    assert_eq!(config.field_expressions.len(), expected.len());
    for key in expected {
        assert!(config.field_expressions.iter().any(|(own, _)| own == key), "Missing expected key '{key}'");
    }
}

#[test]
fn test_find_display_attribute() {
    let input = input(
        "#[display(\"Failed to read config with path: {path}\")] struct ConfigError { pub path: String, #[error] pub inner_error: OhnoCore }",
    );
    let Ok(Some(attr)) = find_display_attribute(&input) else {
        panic!("expected a display attribute");
    };
    assert_eq!(attr.template, "Failed to read config with path: {path}");
    assert!(attr.arguments.is_empty());
}

#[test]
fn test_find_display_attribute_error_cases() {
    expect_display_error(
        &input("#[display] struct ConfigError { pub path: String, #[error] pub inner_error: OhnoCore }"),
        "display attribute must be in the form",
    );
    expect_display_error(
        &input("#[display(1, 2, 3)] struct ConfigError { pub path: String, #[error] pub inner_error: OhnoCore }"),
        "display attribute template must be a string literal",
    );
}

#[test]
fn test_find_display_attribute_with_args() {
    let input =
        input("#[display(\"Invalid data: {} - {}\", data.0, data.1, )] struct InvalidData { pub data: Data, #[error] pub inner_error: OhnoCore }");
    let Ok(Some(attr)) = find_display_attribute(&input) else {
        panic!("expected a display attribute");
    };
    assert_eq!(attr.template, "Invalid data: {} - {}");
    assert_eq!(attr.arguments.len(), 2);
}

#[test]
fn test_has_no_constructors_attribute() {
    let input_with = input("#[no_constructors] struct TestError { #[error] inner: OhnoCore }");
    let input_without = input("struct TestError { #[error] inner: OhnoCore }");

    assert!(has_no_constructors_attribute(&input_with));
    assert!(!has_no_constructors_attribute(&input_without));
    assert!(has_no_debug_attribute(&input("#[no_debug] struct TestError;")));
    assert!(!has_no_debug_attribute(&input_without));
}

#[test]
fn test_find_from_attribute_valid() {
    let input = input("#[from(std::io::Error, std::fmt::Error)] struct TestError { #[error] inner: OhnoCore }");
    let Ok(from_configs) = find_from_attribute(&input) else {
        panic!("expected conversions");
    };
    assert_eq!(from_configs.len(), 2);
    assert!(from_configs[0].field_expressions.is_empty());
    assert!(from_configs[1].field_expressions.is_empty());
}

#[test]
fn test_find_from_attribute_with_field_expressions() {
    let input = input(
        "#[from(std::io::Error(kind: ErrorKind::Io, message: \"IO error occurred\".to_string()))] struct TestError { kind: ErrorKind, message: String, #[error] inner: OhnoCore }",
    );
    let Ok(from_configs) = find_from_attribute(&input) else {
        panic!("expected conversions");
    };
    assert_eq!(from_configs.len(), 1);
    assert_field_keys(&from_configs[0], &["kind", "message"]);
}

#[test]
fn test_find_from_attribute_with_field_expressions_for_tuple_error() {
    let input = input("#[from(std::io::Error(1: \"IO error occurred\".to_string()))] struct TestError(OhnoCore, String);");
    let Ok(from_configs) = find_from_attribute(&input) else {
        panic!("expected conversions");
    };
    assert_eq!(from_configs.len(), 1);
    assert_field_keys(&from_configs[0], &["1"]);
}

#[test]
fn test_find_from_attribute_with_invalid_field_for_tuple() {
    let input = input("#[from(std::io::Error(\"XYZ\": \"IO error occurred\".to_string()))] struct TestError(OhnoCore, String);");
    expect_from_error(&input, "Only integer literals are supported for tuple field indices");
}

#[test]
fn test_find_from_attribute_invalid_forms() {
    expect_from_error(
        &input("#[from()] struct TestError { #[error] inner: OhnoCore }"),
        "empty #[from()] attribute is not allowed",
    );
    expect_from_error(&input("#[from] struct TestError { #[error] inner: OhnoCore }"), "empty #[from] attribute is not allowed");
    expect_from_error(&input("#[from = \"Hello\"] struct TestError(OhnoCore, String);"), "from attribute must be in the form");
}

#[test]
fn test_parse_display_template_simple() {
    let input = input("struct TestError { path: String, #[error] inner: OhnoCore }");
    assert_eq!(parse("Error with path: {path}", &[], &input), shown("Error with path: {}", &["&self.path"]));
}

#[test]
fn test_parse_display_template_no_fields() {
    let input = input("struct TestError { #[error] inner: OhnoCore }");
    assert_eq!(parse("Static error message", &[], &input), shown("Static error message", &[]));
}

#[test]
fn test_parse_display_template_with_args() {
    let input = input("struct TestError { data: Data, #[error] inner: OhnoCore }");
    assert_eq!(
        parse("Invalid data: {} - {}", &["data.0", "data.1"], &input),
        shown("Invalid data: {} - {}", &["&self.data.0", "&self.data.1"])
    );
}

#[test]
fn test_field_exists_valid_and_invalid() {
    let input = input("struct TestError { path: String, code: i32, #[error] inner: OhnoCore }");
    validate("path", &input).unwrap();
    validate("code", &input).unwrap();
    validate("inner", &input).unwrap();
    assert!(validate("nonexistent", &input).is_err());
    assert!(validate("inner2", &input).is_err());
}

#[test]
fn test_field_exists_negative_struct_variants() {
    let enum_input = input("enum TestError { Variant1, Variant2 { field: String } }");
    assert!(!field_exists("field", &enum_input));
    assert!(!field_exists("any_field", &enum_input));

    let tuple_input = input("struct TestError(String, i32);");
    assert!(field_exists("0", &tuple_input));
    assert!(field_exists("1", &tuple_input));
    assert!(!field_exists("2", &tuple_input));
    assert!(!field_exists("field", &tuple_input));

    let unit_input = input("struct TestError;");
    assert!(!field_exists("field", &unit_input));
    assert!(!field_exists("0", &unit_input));
}

#[test]
fn test_parse_display_template_with_format_specifiers() {
    let input = input("struct TestError { errors: Vec<String>, #[error] inner: OhnoCore }");
    assert_eq!(parse("Failed to parse: {errors:?}", &[], &input), shown("Failed to parse: {:?}", &["&self.errors"]));
}

#[test]
fn test_parse_display_template_escaped_braces() {
    let input = input("struct TestError { field: String, #[error] inner: OhnoCore }");
    assert_eq!(parse("Error: {{static}} with {field}", &[], &input), shown("Error: {{static}} with {}", &["&self.field"]));
    assert_eq!(parse("Error: {field}} extra brace", &[], &input), shown("Error: {}} extra brace", &["&self.field"]));
    assert_eq!(parse("{{Error}}: {field} {{end}}", &[], &input), shown("{{Error}}: {} {{end}}", &["&self.field"]));
}

#[test]
fn test_parse_display_template_with_method_calls() {
    let input = input("struct TestError { data: Data, #[error] inner: OhnoCore }");
    assert_eq!(
        parse("Error: {} - {}", &["data.to_string()", "data.len()"], &input),
        shown("Error: {} - {}", &["&self.data.to_string()", "&self.data.len()"])
    );
}

#[test]
fn test_parse_display_template_with_nested_access() {
    let input = input("struct TestError { t: TupleType, #[error] inner: OhnoCore }");
    assert_eq!(
        parse("Error: {} - {}", &["t.0.0.0.message()", "t.0.0.0.m"], &input),
        shown("Error: {} - {}", &["&self.t.0.0.0.message()", "&self.t.0.0.0.m"])
    );
}

#[test]
fn test_parse_display_template_not_enough_arguments() {
    let input = input("struct TestError { data: Data, #[error] inner: OhnoCore }");
    assert_eq!(
        parse_err("Error: {} - {} - {}", &["data.field1", "data.field2"], &input),
        "Not enough arguments for format placeholders"
    );
}

#[test]
fn test_parse_display_template_too_many_arguments() {
    let input = input("struct TestError { data: Data, #[error] inner: OhnoCore }");
    assert_eq!(
        parse_err("Error: {} - {}", &["data.field1", "data.field2", "data.field3"], &input),
        "Too many arguments for format placeholders"
    );
}

#[test]
fn test_parse_display_template_exact_argument_match() {
    let input = input("struct TestError { data: Data, #[error] inner: OhnoCore }");
    parse("Error: {} - {}", &["data.field1", "data.field2"], &input);
}

#[test]
fn test_positional_argument_with_self_prefix_is_rejected() {
    let input = input("struct TestError { path: PathBuf, #[error(generated)] ohno_core: OhnoCore }");
    for argument in ["self.path", "self.path.display()", "self.path.as_os_str().len()", "self.paths[0].display()", "self"] {
        assert_eq!(parse_err("bad path: {}", &[argument], &input), SELF_SCOPED_ARGS);
    }
}

#[test]
fn test_unknown_field_reports_available_fields_without_the_error_core() {
    let input = input("struct TestError { path: PathBuf, code: i32, #[error(generated)] ohno_core: OhnoCore }");
    for message in [
        parse_err("bad path: {pth}", &[], &input),
        parse_err("bad path: {}", &["pth.display()"], &input),
        parse_err("bad path: {}", &["pth[0].display()"], &input),
    ] {
        assert_eq!(message, "unknown field `pth` in `#[display(...)]`, available fields: `path`, `code`");
        assert!(!message.contains("ohno_core"));
    }
}

#[test]
fn test_unknown_field_reports_a_core_field_the_user_declared() {
    let input = input("struct TestError { path: PathBuf, #[error] inner: OhnoCore }");
    assert_eq!(
        parse_err("bad path: {pth}", &[], &input),
        "unknown field `pth` in `#[display(...)]`, available fields: `path`, `inner`"
    );
}

#[test]
fn test_unknown_field_on_error_type_without_referenceable_fields() {
    let input = input("struct TestError { #[error(generated)] ohno_core: OhnoCore }");
    assert_eq!(
        parse_err("bad path: {path}", &[], &input),
        "unknown field `path` in `#[display(...)]`, the error type has no fields that can be referenced"
    );
}

#[test]
fn test_tuple_struct_fields_are_referenceable_by_index() {
    let input = input("struct TestError(PathBuf, #[error(generated)] OhnoCore);");
    assert_eq!(parse("bad path: {0}", &[], &input), shown("bad path: {}", &["&self.0"]));
    assert_eq!(parse("bad path: {}", &["0.display()"], &input), shown("bad path: {}", &["&self.0.display()"]));
    assert_eq!(
        parse_err("bad path: {5}", &[], &input),
        "unknown field `5` in `#[display(...)]`, available fields: `0`"
    );
}

#[test]
fn test_positional_argument_that_is_not_a_field_access_is_left_alone() {
    let input = input("struct TestError { path: PathBuf, #[error(generated)] ohno_core: OhnoCore }");
    assert_eq!(parse("bad path: {}", &["describe()"], &input), shown("bad path: {}", &["&self.describe()"]));
}

fn error_field(source: &str) -> String {
    match find_error_field(&input(source)) {
        Ok(own) => member(&own),
        Err(diagnostic) => panic!("{}", diagnostic.message),
    }
}

fn no_error_field(source: &str) -> String {
    find_error_field(&input(source)).unwrap_err_message()
}

fn accept_markers(source: &str) {
    if let Err(diagnostic) = validate_error_attributes(&input(source)) {
        panic!("{}", diagnostic.message);
    }
}

fn refuse_markers(source: &str) -> String {
    validate_error_attributes(&input(source)).unwrap_err_message()
}

#[test]
fn test_find_error_field() {
    assert_eq!(error_field("struct TestError { message: String, #[error] inner: OhnoCore }"), "inner");
}

#[test]
fn test_auto_detect_inner_error_field() {
    assert_eq!(error_field("struct TestError { message: String, inner: OhnoCore }"), "inner");
}

#[test]
fn test_auto_detect_qualified_inner_error_field() {
    assert_eq!(error_field("struct TestError { message: String, error: ohno::OhnoCore }"), "error");
}

#[test]
fn test_explicit_error_attribute_takes_precedence() {
    assert_eq!(error_field("struct TestError { inner1: OhnoCore, #[error] inner2: OhnoCore }"), "inner2");
}

#[test]
fn test_multiple_inner_error_fields_require_explicit_attribute() {
    let message = no_error_field("struct TestError { inner1: OhnoCore, inner2: OhnoCore }");
    assert!(message.contains("Multiple OhnoCore fields found"));
}

#[test]
fn test_no_error_fields_found() {
    let message = no_error_field("struct TestError { message: String, code: i32 }");
    assert!(message.contains("No field marked with `#[error]` found and no OhnoCore field detected"));
}

#[test]
fn test_error_attribute_accepts_its_two_forms() {
    accept_markers("struct TestError { path: String, #[error] inner: OhnoCore }");
    accept_markers("struct TestError { path: String, #[error(generated)] ohno_core: OhnoCore }");
    accept_markers("struct TestError(String, #[error(generated)] OhnoCore);");
    accept_markers("enum TestError { A, B }");
}

#[test]
fn test_error_attribute_rejects_unrecognized_arguments() {
    for source in [
        "struct TestError { #[error(generatd)] inner: OhnoCore }",
        "struct TestError { #[error(generated, extra)] inner: OhnoCore }",
        "struct TestError { #[error(generated = true)] inner: OhnoCore }",
        "struct TestError { #[error(\"generated\")] inner: OhnoCore }",
        "struct TestError { #[error()] inner: OhnoCore }",
        "struct TestError { #[error = \"x\"] inner: OhnoCore }",
        "struct TestError(String, #[error(nonsense)] OhnoCore);",
    ] {
        assert_eq!(refuse_markers(source), ERROR_ATTRIBUTE_ARGUMENTS);
    }
}

#[test]
fn test_error_attribute_rejects_a_second_marked_field() {
    for source in [
        "struct TestError { #[error] first: OhnoCore, #[error] second: OhnoCore }",
        "struct TestError(#[error] OhnoCore, #[error] OhnoCore);",
        "struct TestError { #[error] inner: OhnoCore, #[error(generated)] ohno_core: OhnoCore }",
    ] {
        assert_eq!(refuse_markers(source), MULTIPLE_MARKED_FIELDS);
    }
}

#[test]
fn test_error_attribute_rejects_a_duplicate_marker_on_one_field() {
    for source in ["struct TestError { #[error] #[error] inner: OhnoCore }", "struct TestError(#[error] #[error] OhnoCore);"] {
        assert_eq!(refuse_markers(source), DUPLICATE_MARKER);
    }
}

#[test]
fn test_marked_field_must_hold_the_core_type() {
    for source in [
        "struct TestError { #[error] not_a_core: String }",
        "struct TestError(#[error] String);",
        "struct TestError { #[error(generated)] hidden: String, inner: OhnoCore }",
        "struct TestError { #[error] aliased: MyCore }",
    ] {
        assert_eq!(refuse_markers(source), MARKED_FIELD_TYPE);
    }
    for source in [
        "struct TestError { #[error] inner: ohno::OhnoCore }",
        "struct TestError { #[error] inner: crate::OhnoCore }",
        "struct TestError(String, #[error(generated)] ohno::OhnoCore);",
    ] {
        accept_markers(source);
    }
}

#[test]
fn test_find_error_field_in_tuple() {
    assert_eq!(error_field("struct TestError( String, #[error] OhnoCore);"), "1");
}

#[test]
fn test_find_unmarked_error_field_in_tuple() {
    assert_eq!(error_field("struct TestError( String, OhnoCore);"), "1");
}

#[test]
fn test_find_missing_error_field_in_tuple() {
    assert!(no_error_field("struct TestError( String, String);").contains(NO_ERROR_FIELD));
}

#[test]
fn test_double_field_in_tuple() {
    assert_eq!(
        no_error_field("struct TestError( String, OhnoCore, OhnoCore);"),
        "Multiple OhnoCore fields found. Please mark the desired field with `#[error]` to disambiguate"
    );
}

#[test]
fn test_marked_field_with_another_type_in_tuple() {
    assert_eq!(error_field("struct TestError( String, #[error] MyCore);"), "1");
}

#[test]
fn test_is_inner_error_type() {
    let inner = |source: &str| is_inner_error_type(&field_type(&syn::parse_str(source).unwrap()));
    assert!(inner("OhnoCore"));
    assert!(inner("ohno::OhnoCore"));
    assert!(inner("crate::OhnoCore"));
    assert!(!inner("String"));
    assert!(!inner("MyError"));
}

#[test]
fn test_is_inner_error_type_non_path() {
    assert!(!is_inner_error_type(&field_type(&syn::parse_str("&OhnoCore").unwrap())));
}

#[test]
fn test_find_error_field_rejects_non_structs() {
    assert_eq!(no_error_field("enum TestError { Variant(OhnoCore) }"), "Error derive only supports structs");
}

#[test]
fn test_find_error_field_rejects_unit_structs() {
    assert_eq!(no_error_field("struct TestError;"), "Error derive does not support unit structs");
}

#[test]
fn test_find_explicit_error_field_unnamed() {
    assert_eq!(error_field("struct TestError(String, #[error] OhnoCore, OhnoCore);"), "1");
}

#[test]
fn generated_fields_are_told_apart() {
    let Data::Named(fields) = input("struct TestError { #[error] a: OhnoCore, #[error( generated )] b: OhnoCore, c: String }").data else {
        panic!("expected named fields");
    };
    assert!(!is_generated_error_field(&fields[0]));
    assert!(is_generated_error_field(&fields[1]));
    assert!(!is_generated_error_field(&fields[2]));
}

#[test]
fn test_reject_existing_error_field() {
    for (source, expected) in [
        ("struct TestError { path: String, #[error] inner: ohno::OhnoCore }", ALREADY_MARKED),
        ("struct TestError(String, #[error] ohno::OhnoCore);", ALREADY_MARKED),
        ("struct TestError { path: String, inner: ohno::OhnoCore }", ALREADY_DECLARED),
        ("struct TestError(String, OhnoCore);", ALREADY_DECLARED),
    ] {
        assert_eq!(reject_existing_error_field(&input(source)).unwrap_err_message(), expected);
    }
    for source in ["struct TestError { path: String }", "struct TestError;", "enum TestError { A }"] {
        assert!(reject_existing_error_field(&input(source)).is_ok());
    }
}

#[test]
fn test_error_impl_reports_an_already_marked_field() {
    let mut input = input("struct TestError { #[error] inner: ohno::OhnoCore }");
    let message = error_impl(&mut input).unwrap_err_message();
    assert!(message.contains("adds the OhnoCore field itself"), "got: {message}");
}

#[test]
fn test_add_fiasko_error_derive_effect() {
    let mut input = input("struct TestError { message: String }");
    add_fiasko_error_derive(&mut input);
    assert_eq!(input.attributes.len(), 1);
    assert_eq!(input.attributes[0].name.as_deref(), Some("derive"));
    assert!(matches!(&input.attributes[0].meta, Meta::List(List::Tokens(tokens)) if tokens == "ohno::Error"));
}

#[test]
fn test_add_ohno_core_field_effect() {
    let mut input = input("struct TestError { message: String }");
    assert!(add_ohno_core_field(&mut input).is_ok());
    let Data::Named(fields) = &input.data else {
        panic!("expected named fields");
    };
    assert_eq!(fields.len(), 2);
    assert_eq!(fields[0].name.as_deref(), Some("message"));
    assert_eq!(fields[1].name.as_deref(), Some("ohno_core"));
    assert!(matches!(&fields[1].field_type, FieldType::Path(segments) if segments.join("::") == "ohno::OhnoCore"));
    assert!(is_generated_error_field(&fields[1]));
}

#[test]
fn test_add_ohno_core_field_with_enum() {
    let mut input = input("enum TestError { Variant1, Variant2 }");
    let message = add_ohno_core_field(&mut input).unwrap_err_message();
    assert!(message.contains("#[ohno::error] can only be applied to structs"));
}

#[test]
fn test_add_ohno_core_field_enum_produces_compile_error() {
    let mut input = input("enum NotAStruct { A }");
    let message = add_ohno_core_field(&mut input).unwrap_err_message();
    let expansion = syn::Error::new(proc_macro2::Span::call_site(), message).to_string();
    assert!(expansion.contains("#[ohno::error] can only be applied to structs"));
}

#[test]
fn test_error_impl_returns_compile_error_for_enum() {
    let mut input = input("enum NotAStruct { A }");
    assert_eq!(error_impl(&mut input).unwrap_err_message(), "#[ohno::error] can only be applied to structs");
}

fn names(names: &[&str]) -> Vec<String> {
    names.iter().map(|name| name.to_string()).collect()
}

#[test]
fn test_generate_inner_error_field_name() {
    assert_eq!(generate_unique_field_name(&names(&["msg", "path"])), "ohno_core");
}

#[test]
fn test_generate_inner_error_field_name_conflict() {
    assert_eq!(generate_unique_field_name(&names(&["ohno_core", "path"])), "ohno_core_1");
}

#[test]
fn test_generate_unique_field_name_equality_check() {
    let fields = names(&["ohno_core", "other_field"]);
    let name = generate_unique_field_name(&fields);
    assert_eq!(name, "ohno_core_1");
    assert!(!fields.contains(&name));
}

#[test]
fn test_generate_unique_field_name_multiple_collisions() {
    assert_eq!(generate_unique_field_name(&names(&["ohno_core", "ohno_core_1", "ohno_core_2"])), "ohno_core_3");
}

/// What the attribute and then the derive make of an item.
fn expand(source: &str, attribute: bool) -> Result<String, String> {
    let mut input = input(source);
    if attribute {
        if let Err(diagnostic) = error_impl(&mut input) {
            return Err(diagnostic.message);
        }
        input.attributes.remove(0);
    }
    match impl_error_derive(&input) {
        Ok(derived) => Ok(member(&derived.error_field)),
        Err(diagnostic) => Err(diagnostic.message),
    }
}

#[test]
fn display_diagnostics() {
    for source in [
        "#[display(\"bad path: {}\", self.path.display())] pub struct PrefixedError { pub path: PathBuf }",
        "#[display(\"bad path: {}\", self)] pub struct BareSelfError { pub path: PathBuf }",
    ] {
        assert_eq!(expand(source, true).unwrap_err(), SELF_SCOPED_ARGS);
    }
    for source in [
        "#[display(\"bad path: {pth}\")] pub struct NamedPlaceholderError { pub path: PathBuf, pub code: i32 }",
        "#[display(\"bad path: {}\", pth.display())] pub struct PositionalRootError { pub path: PathBuf, pub code: i32 }",
    ] {
        assert_eq!(
            expand(source, true).unwrap_err(),
            "unknown field `pth` in `#[display(...)]`, available fields: `path`, `code`"
        );
    }
    for source in [
        "#[display(\"bad: {}\", Self::LABEL.len())] pub struct QualifiedPathRootError { pub path: String }",
        "#[display(\"bad: {}\", \"prefix\".len())] pub struct StringLiteralRootError { pub path: String }",
    ] {
        assert_eq!(expand(source, true).unwrap_err(), UNSUPPORTED_ARG_ROOT);
    }
    for source in [
        "pub struct UnknownArgumentError { pub path: String, #[error(nonsense)] inner: ohno::OhnoCore }",
        "pub struct NameValueError { pub path: String, #[error = \"nonsense\"] inner: ohno::OhnoCore }",
    ] {
        assert_eq!(expand(source, false).unwrap_err(), ERROR_ATTRIBUTE_ARGUMENTS);
    }
    for source in [
        "pub struct TwoMarkedFields { #[error] first: ohno::OhnoCore, #[error] second: ohno::OhnoCore }",
        "pub struct TwoMarkedTupleFields(#[error] ohno::OhnoCore, #[error] ohno::OhnoCore);",
    ] {
        assert_eq!(expand(source, false).unwrap_err(), MULTIPLE_MARKED_FIELDS);
    }
    for source in [
        "pub struct GeneratedMarkerOnAnotherType { #[error(generated)] hidden: String, inner: ohno::OhnoCore }",
        "pub struct BareMarkerOnAnotherType { #[error] not_a_core: String }",
    ] {
        assert_eq!(expand(source, false).unwrap_err(), MARKED_FIELD_TYPE);
    }
    assert_eq!(expand("#[display(\"bad path: {0}\")] pub struct DeclaredIndexError(pub String);", true).unwrap(), "1");
    assert_eq!(
        expand("#[display(\"bad path: {1}\")] pub struct InjectedIndexError(pub String);", true).unwrap_err(),
        "unknown field `1` in `#[display(...)]`, available fields: `0`"
    );
}

#[test]
fn the_added_core_is_the_error_field() {
    assert_eq!(expand("struct TestError { path: String }", true).unwrap(), "ohno_core");
    assert_eq!(expand("struct TestError { ohno_core: String }", true).unwrap(), "ohno_core_1");
    assert_eq!(expand("struct TestError(String);", true).unwrap(), "1");
    assert_eq!(expand("struct TestError;", true).unwrap(), "0");
}

#[test]
fn debug_bodies_follow_the_fields() {
    let Ok(derived) = impl_error_derive(&input("struct TestError { path: String, inner: OhnoCore }")) else {
        panic!("expected a derive");
    };
    assert!(derived.constructors);
    assert!(matches!(&derived.debug, Some(DebugBody::Struct(fields)) if fields.join(",") == "path,inner"));
    let Ok(derived) = impl_error_derive(&input("#[no_debug] #[no_constructors] struct TestError(OhnoCore);")) else {
        panic!("expected a derive");
    };
    assert!(!derived.constructors);
    assert!(derived.debug.is_none());
}

#[test]
fn numbers_are_read_and_written_in_base_ten() {
    assert_eq!(decimal_text(0), "0");
    assert_eq!(decimal_text(1_204), "1204");
    assert_eq!(parse_index("1204"), Some(1_204));
    assert_eq!(parse_index("+7"), Some(7));
    assert_eq!(parse_index(""), None);
    assert_eq!(parse_index("7a"), None);
    assert_eq!(parse_index("99999999999999999999999"), None);
}

#[test]
fn arguments_start_with_what_can_follow_a_dot() {
    let input = input("struct TestError { path: PathBuf, code: i32, #[error(generated)] ohno_core: OhnoCore }");
    for argument in ["-code", "(code)", "&code", "format!(\"x\")", "Self::label()", "[code]"] {
        assert_eq!(parse_err("bad path: {}", &[argument], &input), UNSUPPORTED_ARG_ROOT);
    }
    assert_eq!(parse("bad path: {}", &["describe(code)"], &input), shown("bad path: {}", &["&self.describe(code)"]));
    assert_eq!(parse("bad path: {}", &["code + 1"], &input), shown("bad path: {}", &["&self.code + 1"]));
    assert_eq!(parse("bad path: {}", &["code as u8"], &input), shown("bad path: {}", &["&self.code as u8"]));
}

#[test]
fn markers_are_single_plain_words() {
    for (tokens, generated) in [
        ("generated", true),
        (" generated ", true),
        ("(generated)", false),
        ("[generated]", false),
        ("{generated}", false),
        ("g\u{e9}n\u{e9}r\u{e9}", false),
        ("generated twice", false),
        ("", false),
    ] {
        let field = Field {
            name: Some("core".to_string()),
            attributes: vec![Attribute { name: Some("error".to_string()), meta: Meta::List(List::Tokens(tokens.to_string())) }],
            field_type: FieldType::Path(vec!["OhnoCore".to_string()]),
        };
        assert_eq!(is_generated_error_field(&field), generated, "{tokens}");
    }
}

#[test]
fn diagnostics_name_their_place() {
    let refused = input("#[other] #[display(5)] struct TestError { path: String }");
    assert!(matches!(find_display_attribute(&refused).map_err(|diagnostic| diagnostic.place), Err(Place::Template)));
    let refused = input("#[other] #[display] struct TestError { path: String }");
    assert!(matches!(find_display_attribute(&refused).map_err(|diagnostic| diagnostic.place), Err(Place::Attribute { attribute: 1 })));
    let refused = input("#[display(+)] struct TestError { path: String }");
    assert!(matches!(find_display_attribute(&refused).map_err(|diagnostic| diagnostic.place), Err(Place::Tokens { attribute: 0 })));
    let refused = input("#[from(A, B(0: x, \"y\": y))] struct TestError { path: String }");
    assert!(matches!(
        find_from_attribute(&refused).map_err(|diagnostic| diagnostic.place),
        Err(Place::Key { attribute: 0, conversion: 1, field: 1 })
    ));
}

#[test]
fn display_lists_are_read_in_order() {
    let mut reader = DisplayReader::new();
    assert_eq!(reader.wanted(Ahead::Literal), Wanted::Literal);
    reader.accept_template(Literal::Text("{}".to_string()));
    assert_eq!(reader.wanted(Ahead::Other), Wanted::End);
    assert_eq!(reader.wanted(Ahead::Comma), Wanted::Comma);
    reader.accept_comma();
    assert_eq!(reader.wanted(Ahead::End), Wanted::End);
    assert_eq!(reader.wanted(Ahead::Comma), Wanted::Expression);
    reader.accept_argument(Expression::Other);
    assert_eq!(reader.wanted(Ahead::End), Wanted::End);
    match reader.finish() {
        List::Template { literal: Literal::Text(text), arguments } => {
            assert_eq!(text, "{}");
            assert_eq!(arguments.len(), 1);
        }
        _ => panic!("expected a template"),
    }
    let mut reader = DisplayReader::new();
    reader.accept_template(Literal::Float);
    assert_eq!(reader.wanted(Ahead::Comma), Wanted::Nothing);
}

#[test]
fn conversion_lists_are_read_in_order() {
    let refused = input("#[from(A(\"x\": ), )] struct TestError { path: String }");
    assert!(matches!(
        find_from_attribute(&refused).map_err(|diagnostic| diagnostic.place),
        Err(Place::Key { attribute: 0, conversion: 0, field: 0 })
    ));
    let refused = input("#[from(A B)] struct TestError { path: String }");
    assert!(matches!(find_from_attribute(&refused).map_err(|diagnostic| diagnostic.place), Err(Place::Tokens { attribute: 0 })));
    let read = input("#[from(A, B(), C(a: 1, b: 2,),)] struct TestError { a: u8, b: u8 }");
    let Ok(configs) = find_from_attribute(&read) else {
        panic!("expected conversions");
    };
    assert_eq!(configs.len(), 3);
    assert_field_keys(&configs[0], &[]);
    assert_field_keys(&configs[1], &[]);
    assert_field_keys(&configs[2], &["a", "b"]);
}
