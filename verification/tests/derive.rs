use mvcc::attribute::{
    read_field_attribute, read_struct_attribute, Arguments, AttributeError, FieldOpts, Token,
    Wanted,
};
use mvcc::derive::{
    expand, parse_field_opts, Attribute, Declaration, Failure, Fault, Field, IndexPlan, Place,
    Shape,
};

fn word(w: &str) -> Token {
    Token::Word(w.to_string())
}

fn text(t: &str) -> Token {
    Token::Text(t.to_string())
}

fn attribute(tokens: Vec<Token>) -> Attribute {
    Attribute { path: Some("mvcc".to_string()), arguments: Arguments::List(tokens) }
}

fn field(name: &str, attributes: Vec<Attribute>) -> Field {
    Field { name: name.to_string(), attributes }
}

fn unique_index() -> Vec<Token> {
    vec![word("index"), Token::Group(vec![word("unique")])]
}

fn account(attributes: Vec<Attribute>, fields: Vec<Field>) -> Declaration {
    Declaration { name: "Account".to_string(), attributes, shape: Shape::Named(fields) }
}

fn field_error(tokens: Vec<Token>) -> AttributeError {
    read_field_attribute(&Arguments::List(tokens), FieldOpts::default()).unwrap_err()
}

fn struct_error(tokens: Vec<Token>) -> AttributeError {
    read_struct_attribute(&Arguments::List(tokens), "T".to_string()).unwrap_err()
}

#[test]
fn a_declaration_becomes_a_table() {
    let declaration = account(
        vec![attribute(vec![word("table"), Token::Equals, text("accounts")])],
        vec![
            field("id", vec![attribute(vec![word("primary_key")])]),
            field("owner", vec![attribute(unique_index())]),
            field("branch", vec![attribute(vec![word("index")])]),
            field("balance", vec![]),
        ],
    );
    let expansion = expand(&declaration).unwrap();
    assert_eq!(expansion.table, "accounts");
    assert_eq!(expansion.key, 0);
    assert_eq!(expansion.indexes.len(), 2);
    assert_eq!(expansion.indexes[0].field, 1);
    assert_eq!(expansion.indexes[0].name, "owner");
    assert_eq!(expansion.indexes[0].constant, "OWNER");
    assert_eq!(
        expansion.indexes[0].doc,
        "The `owner` secondary index. See [`Index`](::mvcc::Index)."
    );
    assert!(expansion.indexes[0].unique);
    assert_eq!(expansion.indexes[1].field, 2);
    assert_eq!(expansion.indexes[1].constant, "BRANCH");
    assert!(!expansion.indexes[1].unique);
}

#[test]
fn a_table_is_named_after_its_type_by_default() {
    let declaration =
        account(vec![], vec![field("id", vec![attribute(vec![word("primary_key")])])]);
    let expansion = expand(&declaration).unwrap();
    assert_eq!(expansion.table, "Account");
    assert!(expansion.indexes.is_empty());
}

#[test]
fn a_field_can_be_key_and_index_at_once() {
    let both = vec![word("primary_key"), Token::Comma, word("index"), Token::Comma];
    let split = vec![attribute(vec![word("primary_key")]), attribute(vec![word("index")])];
    let expected = FieldOpts { primary_key: true, index: true, unique: false };
    assert_eq!(parse_field_opts(&field("id", vec![attribute(both)])), Ok(expected));
    assert_eq!(parse_field_opts(&field("id", split)), Ok(expected));
}

#[test]
fn attributes_of_others_are_ignored() {
    let other = Attribute { path: Some("serde".to_string()), arguments: Arguments::Value };
    let nested = Attribute { path: None, arguments: Arguments::Absent };
    assert_eq!(parse_field_opts(&field("id", vec![other, nested])), Ok(FieldOpts::default()));
}

#[test]
fn an_empty_list_asks_for_nothing() {
    assert_eq!(
        parse_field_opts(&field("id", vec![attribute(vec![])])),
        Ok(FieldOpts::default())
    );
    assert_eq!(
        read_struct_attribute(&Arguments::List(vec![]), "T".to_string()),
        Ok("T".to_string())
    );
}

#[test]
fn unknown_options_are_named() {
    assert_eq!(
        field_error(vec![word("skip")]).message(),
        "expected `primary_key`, `index`, or `index(unique)`"
    );
    assert_eq!(
        field_error(vec![word("mvcc"), Token::PathSep, word("index")]),
        AttributeError::UnknownFieldOption
    );
    assert_eq!(
        field_error(vec![word("index"), Token::Group(vec![word("name")])]).message(),
        "expected `unique`"
    );
    assert_eq!(
        struct_error(vec![word("name")]).message(),
        "expected `table = \"…\"`"
    );
}

#[test]
fn malformed_attributes_say_what_is_missing() {
    assert_eq!(
        field_error(vec![Token::Literal]).message(),
        "unexpected literal in nested attribute, expected ident"
    );
    assert_eq!(
        field_error(vec![Token::Comma]).message(),
        "unexpected token in nested attribute, expected ident"
    );
    assert_eq!(
        field_error(vec![word("index"), Token::Group(vec![])]).message(),
        "unexpected end of input, expected nested attribute"
    );
    assert_eq!(
        field_error(vec![word("index"), Token::Equals, text("x")]).message(),
        "expected `,`"
    );
    assert_eq!(
        field_error(vec![word("a"), Token::PathSep]),
        AttributeError::Expected { what: Wanted::Word, at_end: true }
    );
    assert_eq!(struct_error(vec![word("table")]).message(), "unexpected end of input, expected `=`");
    assert_eq!(
        struct_error(vec![word("table"), Token::Equals, Token::Literal]).message(),
        "expected string literal"
    );
    assert_eq!(
        struct_error(vec![word("table"), Token::Equals]).message(),
        "unexpected end of input, expected string literal"
    );
    assert_eq!(
        read_field_attribute(&Arguments::Absent, FieldOpts::default()).unwrap_err().message(),
        "expected attribute arguments in parentheses: #[mvcc(...)]"
    );
    assert_eq!(
        read_struct_attribute(&Arguments::Value, "T".to_string()).unwrap_err().message(),
        "expected parentheses: #[mvcc(...)]"
    );
}

#[test]
fn the_last_table_name_counts() {
    let tokens = vec![
        word("table"),
        Token::Equals,
        text("first"),
        Token::Comma,
        word("table"),
        Token::Equals,
        text("second"),
    ];
    assert_eq!(
        read_struct_attribute(&Arguments::List(tokens), "T".to_string()),
        Ok("second".to_string())
    );
}

#[test]
fn a_primary_key_is_required() {
    let failure = expand(&account(vec![], vec![field("name", vec![])])).unwrap_err();
    assert_eq!(failure, Failure { place: Place::Whole, fault: Fault::NoPrimaryKey });
    assert_eq!(
        failure.fault.message("Account"),
        "`Account` has no primary key: mark exactly one field with `#[mvcc(primary_key)]`"
    );
}

#[test]
fn a_second_primary_key_is_refused() {
    let key = |name: &str| field(name, vec![attribute(vec![word("primary_key")])]);
    let failure = expand(&account(vec![], vec![key("a"), field("b", vec![]), key("c")])).unwrap_err();
    assert_eq!(failure, Failure { place: Place::Field(2), fault: Fault::SecondPrimaryKey });
    assert_eq!(
        failure.fault.message("Account"),
        "a second `#[mvcc(primary_key)]`: exactly one is allowed"
    );
}

#[test]
fn only_structs_with_named_fields_are_tables() {
    let shaped = |shape: Shape| Declaration { name: "T".to_string(), attributes: vec![], shape };
    let unnamed = expand(&shaped(Shape::Unnamed)).unwrap_err();
    assert_eq!(unnamed.fault, Fault::UnnamedFields);
    assert_eq!(
        unnamed.fault.message("T"),
        "`Mvcc` requires a struct with named fields: index declarations refer to fields by name"
    );
    let other = expand(&shaped(Shape::NotAStruct)).unwrap_err();
    assert_eq!(other.fault.message("T"), "`Mvcc` can only be derived for structs");
}

#[test]
fn the_first_fault_is_reported_where_it_is() {
    let declaration = account(
        vec![],
        vec![
            field("id", vec![attribute(vec![word("primary_key")])]),
            field("x", vec![attribute(vec![]), attribute(vec![word("skip")])]),
            field("y", vec![attribute(vec![word("primary_key")])]),
        ],
    );
    assert_eq!(
        expand(&declaration).unwrap_err(),
        Failure {
            place: Place::FieldAttribute(1, 1),
            fault: Fault::Attribute(AttributeError::UnknownFieldOption),
        }
    );

    let on_struct = account(vec![attribute(vec![word("index")])], vec![]);
    assert_eq!(
        expand(&on_struct).unwrap_err(),
        Failure {
            place: Place::Attribute(0),
            fault: Fault::Attribute(AttributeError::UnknownStructOption),
        }
    );
}

#[test]
fn an_index_is_described_by_its_field() {
    let plan = IndexPlan::new(3, "tag", "TAG".to_string(), true);
    assert_eq!((plan.field, plan.name.as_str(), plan.constant.as_str()), (3, "tag", "TAG"));
    assert_eq!(plan.doc, "The `tag` secondary index. See [`Index`](::mvcc::Index).");
    assert!(plan.unique);
}
