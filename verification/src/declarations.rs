//! What a declaration has to say, told by the tokens in it.

use vstd::prelude::*;

use crate::attribute::{
    field_option, field_options, index_options, lemma_path_advances, path_end, read_field_attribute,
    read_struct_attribute, segments_end, struct_options, with_field_attribute,
    with_struct_attribute, Arguments, AttributeError, FieldOpts, Token, Wanted,
};
use crate::derive::{
    asked, derived, expand, field_opts, is_ours, lemma_roles_fit, parse_field_opts, readable, roles,
    table_name, Attribute, Declaration, Expansion, Failure, Fault, Field, Place, Shape,
};

verus! {

// --- one attribute -----------------------------------------------------------------

/// Whether this word stands at `i`.
pub open spec fn says(tokens: Seq<Token>, i: int, word: Seq<char>) -> bool {
    match tokens[i] {
        Token::Word(w) => w@ == word,
        _ => false,
    }
}

/// `unique`, again and again, with commas between and perhaps one at the end.
pub open spec fn only_unique(tokens: Seq<Token>) -> bool {
    tokens.len() > 0 && forall|i: int|
        0 <= i < tokens.len() ==> if i % 2 == 0 {
            says(tokens, i, "unique"@)
        } else {
            #[trigger] tokens[i] is Comma
        }
}

/// Where an option of a field that starts at `i` ends: `primary_key`, `index`, or
/// `index` with `unique` in brackets.
pub open spec fn option_ends(tokens: Seq<Token>, i: int, end: int) -> bool {
    &&& 0 <= i < end <= tokens.len()
    &&& {
        ||| end == i + 1 && says(tokens, i, "primary_key"@)
        ||| end == i + 1 && says(tokens, i, "index"@) && !(end < tokens.len()
            && tokens[end] is Group)
        ||| end == i + 2 && says(tokens, i, "index"@) && match tokens[i + 1] {
            Token::Group(inner) => only_unique(inner@),
            _ => false,
        }
    }
}

/// Whether the tokens from `i` on are options of a field, with commas between and
/// perhaps one at the end.
pub open spec fn field_list(tokens: Seq<Token>, i: int) -> bool
    decreases tokens.len() - i,
{
    exists|end: int| #[trigger]
        option_ends(tokens, i, end) && (end == tokens.len() || (tokens[end] is Comma && (end + 1
            == tokens.len() || field_list(tokens, end + 1))))
}

/// Whether the token at `i` is the one that a name is given by there: every fourth one
/// is `table`, followed by `=`, a text and a comma.
pub open spec fn in_place(tokens: Seq<Token>, i: int) -> bool {
    if i % 4 == 0 {
        says(tokens, i, "table"@)
    } else if i % 4 == 1 {
        tokens[i] is Equals
    } else if i % 4 == 2 {
        tokens[i] is Text
    } else {
        tokens[i] is Comma
    }
}

/// `table`, `=` and a text, again and again, with commas between and perhaps one at
/// the end.
pub open spec fn struct_list(tokens: Seq<Token>) -> bool {
    &&& tokens.len() % 4 == 3 || (tokens.len() % 4 == 0 && tokens.len() > 0)
    &&& forall|i: int| 0 <= i < tokens.len() ==> #[trigger] in_place(tokens, i)
}

/// The text of the last of them.
pub open spec fn last_name(tokens: Seq<Token>) -> Seq<char> {
    if tokens.len() % 4 == 3 {
        tokens[tokens.len() - 1]->Text_0@
    } else {
        tokens[tokens.len() - 2]->Text_0@
    }
}

/// Whether the attribute of a field is in order: brackets, with options or nothing
/// in them.
pub open spec fn good_for_field(arguments: Arguments) -> bool {
    match arguments {
        Arguments::List(tokens) => tokens@.len() == 0 || field_list(tokens@, 0),
        _ => false,
    }
}

/// Whether the attribute of a struct is.
pub open spec fn good_for_struct(arguments: Arguments) -> bool {
    match arguments {
        Arguments::List(tokens) => tokens@.len() == 0 || struct_list(tokens@),
        _ => false,
    }
}

/// Whether this word stands anywhere in brackets, outside of inner ones.
pub open spec fn mentions(arguments: Arguments, word: Seq<char>) -> bool {
    match arguments {
        Arguments::List(tokens) => exists|i: int|
            0 <= i < tokens@.len() && #[trigger] says(tokens@, i, word),
        _ => false,
    }
}

/// Whether there are inner brackets.
pub open spec fn has_group(arguments: Arguments) -> bool {
    match arguments {
        Arguments::List(tokens) => exists|i: int|
            0 <= i < tokens@.len() && #[trigger] tokens@[i] is Group,
        _ => false,
    }
}

proof fn lemma_words()
    ensures
        "primary_key"@ != "index"@,
        "index"@ != "unique"@,
{
    reveal_strlit("primary_key");
    reveal_strlit("index");
    reveal_strlit("unique");
    assert("primary_key"@.len() == 11);
    assert("index"@.len() == 5);
    assert("unique"@.len() == 6);
}

/// A word with nothing but a comma, a bracket or the end behind it is a path.
proof fn lemma_word(tokens: Seq<Token>, i: int)
    requires
        0 <= i < tokens.len(),
        tokens[i] is Word,
        i + 1 < tokens.len() ==> !(tokens[i + 1] is PathSep),
    ensures
        path_end(tokens, i) == Ok::<int, AttributeError>(i + 1),
{
}

proof fn lemma_only_unique(tokens: Seq<Token>, i: int)
    requires
        0 <= i < tokens.len(),
        i % 2 == 0,
    ensures
        index_options(tokens, i) is Ok <==> forall|j: int|
            i <= j < tokens.len() ==> if j % 2 == 0 {
                says(tokens, j, "unique"@)
            } else {
                #[trigger] tokens[j] is Comma
            },
    decreases tokens.len() - i,
{
    lemma_path_advances(tokens, i);
    if i + 2 < tokens.len() {
        lemma_only_unique(tokens, i + 2);
    }
    if forall|j: int|
        i <= j < tokens.len() ==> if j % 2 == 0 {
            says(tokens, j, "unique"@)
        } else {
            #[trigger] tokens[j] is Comma
        } {
        assert(says(tokens, i, "unique"@)) by {
            let z = tokens[i];
        }
        if i + 1 < tokens.len() {
            assert(tokens[i + 1] is Comma);
        }
        lemma_word(tokens, i);
    }
    if index_options(tokens, i) is Ok {
        assert forall|j: int| i <= j < tokens.len() implies if j % 2 == 0 {
            says(tokens, j, "unique"@)
        } else {
            #[trigger] tokens[j] is Comma
        } by {
            if j >= i + 2 {
                let z = tokens[j];
            }
        }
    }
}

proof fn lemma_field_list(tokens: Seq<Token>, i: int, opts: FieldOpts)
    requires
        0 <= i < tokens.len(),
    ensures
        field_options(tokens, i, opts) is Ok <==> field_list(tokens, i),
        field_options(tokens, i, opts) matches Ok(read) ==> {
            &&& read.primary_key <==> opts.primary_key || exists|j: int|
                i <= j < tokens.len() && #[trigger] says(tokens, j, "primary_key"@)
            &&& read.index <==> opts.index || exists|j: int|
                i <= j < tokens.len() && #[trigger] says(tokens, j, "index"@)
            &&& read.unique <==> opts.unique || exists|j: int|
                i <= j < tokens.len() && #[trigger] tokens[j] is Group
        },
    decreases tokens.len() - i,
{
    lemma_words();
    lemma_path_advances(tokens, i);
    if field_list(tokens, i) {
        let end = choose|end: int| #[trigger]
            option_ends(tokens, i, end) && (end == tokens.len() || (tokens[end] is Comma && (end + 1
                == tokens.len() || field_list(tokens, end + 1))));
        lemma_word(tokens, i);
        if end == i + 2 {
            lemma_only_unique(tokens[i + 1]->Group_0@, 0);
        }
        let more = field_option(tokens, i, i + 1, opts)->Ok_0.0;
        assert(field_option(tokens, i, i + 1, opts) == Ok::<(FieldOpts, int), AttributeError>(
            (more, end),
        ));
        if end + 1 < tokens.len() {
            lemma_field_list(tokens, end + 1, more);
        }
    }
    if field_options(tokens, i, opts) is Ok {
        let start = path_end(tokens, i)->Ok_0;
        let (more, end) = field_option(tokens, i, start, opts)->Ok_0;
        assert(start == i + 1);
        if end == i + 2 {
            let inner = tokens[i + 1]->Group_0@;
            if inner.len() == 0 {
                assert(path_end(inner, 0) is Err);
            } else {
                lemma_only_unique(inner, 0);
            }
            assert(only_unique(inner));
        }
        assert(option_ends(tokens, i, end));
        if end + 1 < tokens.len() {
            lemma_field_list(tokens, end + 1, more);
        }
        let read = field_options(tokens, i, opts)->Ok_0;
        assert(says(tokens, i, "primary_key"@) || says(tokens, i, "index"@));
        assert(end < tokens.len() ==> tokens[end] is Comma);
        if exists|j: int| i <= j < tokens.len() && #[trigger] says(tokens, j, "primary_key"@) {
            let j = choose|j: int|
                i <= j < tokens.len() && #[trigger] says(tokens, j, "primary_key"@);
            assert(j == i || j >= end + 1);
        }
        if exists|j: int| i <= j < tokens.len() && #[trigger] says(tokens, j, "index"@) {
            let j = choose|j: int| i <= j < tokens.len() && #[trigger] says(tokens, j, "index"@);
            assert(j == i || j >= end + 1);
        }
        if exists|j: int| i <= j < tokens.len() && #[trigger] tokens[j] is Group {
            let j = choose|j: int| i <= j < tokens.len() && #[trigger] tokens[j] is Group;
            assert((j == i + 1 && end == i + 2) || j >= end + 1);
        }
        if end == i + 2 {
            assert(tokens[i + 1] is Group);
        }
    }
}

proof fn lemma_struct_list(tokens: Seq<Token>, i: int)
    requires
        0 <= i < tokens.len(),
        i % 4 == 0,
    ensures
        struct_options(tokens, i) is Ok <==> {
            &&& tokens.len() % 4 == 3 || tokens.len() % 4 == 0
            &&& forall|j: int| i <= j < tokens.len() ==> #[trigger] in_place(tokens, j)
        },
        struct_options(tokens, i) is Ok ==> struct_options(tokens, i)->Ok_0 == last_name(tokens),
    decreases tokens.len() - i,
{
    lemma_path_advances(tokens, i);
    if i + 4 < tokens.len() {
        lemma_struct_list(tokens, i + 4);
    }
    if tokens.len() % 4 == 3 || tokens.len() % 4 == 0 {
        if forall|j: int| i <= j < tokens.len() ==> #[trigger] in_place(tokens, j) {
            assert(i + 2 < tokens.len());
            assert(in_place(tokens, i) && in_place(tokens, i + 1) && in_place(tokens, i + 2));
            lemma_word(tokens, i);
            if i + 3 < tokens.len() {
                assert(in_place(tokens, i + 3));
            }
        }
    }
    if struct_options(tokens, i) is Ok {
        let end = path_end(tokens, i)->Ok_0;
        assert(end == i + 1);
        assert forall|j: int| i <= j < tokens.len() implies #[trigger] in_place(tokens, j) by {}
    }
}

/// The attribute of a field is read if and only if it is in order. The field is then a
/// primary key, has an index, or a unique one, if it was before or the attribute says
/// so.
pub proof fn law_field_attributes_say_what_they_mention(arguments: Arguments, opts: FieldOpts)
    ensures
        forall|r: Result<FieldOpts, AttributeError>| #[trigger]
            call_ensures(read_field_attribute, (&arguments, opts), r) ==> {
                &&& r is Ok <==> good_for_field(arguments)
                &&& r matches Ok(read) ==> {
                    &&& read.primary_key <==> opts.primary_key || mentions(
                        arguments,
                        "primary_key"@,
                    )
                    &&& read.index <==> opts.index || mentions(arguments, "index"@)
                    &&& read.unique <==> opts.unique || has_group(arguments)
                }
            },
{
    lemma_field_attribute(arguments, opts);
}

proof fn lemma_field_attribute(arguments: Arguments, opts: FieldOpts)
    ensures
        with_field_attribute(arguments, opts) is Ok <==> good_for_field(arguments),
        with_field_attribute(arguments, opts) matches Ok(read) ==> {
            &&& read.primary_key <==> opts.primary_key || mentions(arguments, "primary_key"@)
            &&& read.index <==> opts.index || mentions(arguments, "index"@)
            &&& read.unique <==> opts.unique || has_group(arguments)
        },
{
    if let Arguments::List(tokens) = arguments {
        if tokens@.len() > 0 {
            lemma_field_list(tokens@, 0, opts);
        }
    }
}

/// The attribute of a struct is read if and only if it is in order. The table is then
/// called by the last name that it gives, or as before if it gives none.
pub proof fn law_struct_attributes_name_the_table(arguments: Arguments, name: String)
    ensures
        forall|r: Result<String, AttributeError>| #[trigger]
            call_ensures(read_struct_attribute, (&arguments, name), r) ==> {
                &&& r is Ok <==> good_for_struct(arguments)
                &&& r matches Ok(given) ==> given@ == named(arguments, name@)
            },
{
    lemma_struct_attribute(arguments, name@);
}

/// What the table is called after an attribute, being called `name` before it.
pub open spec fn named(arguments: Arguments, name: Seq<char>) -> Seq<char> {
    match arguments {
        Arguments::List(tokens) => if tokens@.len() == 0 {
            name
        } else {
            last_name(tokens@)
        },
        _ => name,
    }
}

proof fn lemma_struct_attribute(arguments: Arguments, name: Seq<char>)
    ensures
        with_struct_attribute(arguments, name) is Ok <==> good_for_struct(arguments),
        with_struct_attribute(arguments, name) matches Ok(given) ==> given == named(
            arguments,
            name,
        ),
{
    if let Arguments::List(tokens) = arguments {
        if tokens@.len() > 0 {
            lemma_struct_list(tokens@, 0);
        }
    }
}

// --- what is wrong with one --------------------------------------------------------

/// Whether the tokens before `i` are options of a field, each with a comma behind it.
pub open spec fn options_before(tokens: Seq<Token>, i: int) -> bool
    decreases i,
{
    i == 0 || (0 < i <= tokens.len() && exists|start: int|
        0 <= start < i && #[trigger] option_ends(tokens, start, i - 1) && tokens[i - 1] is Comma
            && options_before(tokens, start))
}

/// What is wrong if no option of a field starts at `i`, or something else than a comma
/// stands behind one, as far as one token can tell.
pub open spec fn wrong_at(tokens: Seq<Token>, i: int, e: AttributeError) -> bool {
    let n = tokens.len();
    match tokens[i] {
        Token::Text(_) | Token::Literal => e == AttributeError::LiteralForOption,
        Token::Comma | Token::Equals | Token::Group(_) | Token::Other => e
            == AttributeError::TokenForOption,
        Token::PathSep => i + 1 >= n && e == AttributeError::MissingOption,
        Token::Word(_) => if i + 1 < n && tokens[i + 1] is PathSep {
            (i + 2 >= n || !(tokens[i + 2] is Word)) && e == AttributeError::Expected {
                what: Wanted::Word,
                at_end: i + 2 >= n,
            }
        } else if says(tokens, i, "primary_key"@) || says(tokens, i, "index"@) {
            exists|end: int| #[trigger]
                option_ends(tokens, i, end) && end < n && !(tokens[end] is Comma) && e
                    == AttributeError::Expected { what: Wanted::Comma, at_end: false }
        } else {
            e == AttributeError::UnknownFieldOption
        },
    }
}

proof fn lemma_options_before(tokens: Seq<Token>, i: int, opts: FieldOpts) -> (more: FieldOpts)
    requires
        0 <= i < tokens.len(),
        options_before(tokens, i),
    ensures
        field_options(tokens, 0, opts) == field_options(tokens, i, more),
    decreases i,
{
    if i == 0 {
        opts
    } else {
        let start = choose|start: int|
            0 <= start < i && #[trigger] option_ends(tokens, start, i - 1) && tokens[i - 1] is Comma
                && options_before(tokens, start);
        let before = lemma_options_before(tokens, start, opts);
        lemma_words();
        lemma_word(tokens, start);
        lemma_path_advances(tokens, start);
        if i - 1 == start + 2 {
            lemma_only_unique(tokens[start + 1]->Group_0@, 0);
        }
        let more = field_option(tokens, start, start + 1, before)->Ok_0.0;
        assert(field_option(tokens, start, start + 1, before) == Ok::<
            (FieldOpts, int),
            AttributeError,
        >((more, i - 1)));
        more
    }
}

/// The first thing that is wrong with the attribute of a field is what is reported.
pub proof fn law_field_attributes_report_what_is_wrong(arguments: Arguments, opts: FieldOpts)
    ensures
        forall|r: Result<FieldOpts, AttributeError>| #[trigger]
            call_ensures(read_field_attribute, (&arguments, opts), r) ==> match arguments {
                Arguments::Absent => r == Err::<FieldOpts, AttributeError>(
                    AttributeError::MissingArguments,
                ),
                Arguments::Value => r == Err::<FieldOpts, AttributeError>(
                    AttributeError::ValueForArguments,
                ),
                Arguments::List(tokens) => forall|i: int, e: AttributeError|
                    0 <= i < tokens@.len() && options_before(tokens@, i) && #[trigger] wrong_at(
                        tokens@,
                        i,
                        e,
                    ) ==> r == Err::<FieldOpts, AttributeError>(e),
            },
{
    if let Arguments::List(list) = arguments {
        let tokens = list@;
        assert forall|i: int, e: AttributeError|
            0 <= i < tokens.len() && options_before(tokens, i) && #[trigger] wrong_at(
                tokens,
                i,
                e,
            ) implies field_options(tokens, 0, opts) == Err::<FieldOpts, AttributeError>(e) by {
            let more = lemma_options_before(tokens, i, opts);
            lemma_words();
            lemma_path_advances(tokens, i);
            if tokens[i] is Word && !(i + 1 < tokens.len() && tokens[i + 1] is PathSep) {
                lemma_word(tokens, i);
                if says(tokens, i, "primary_key"@) || says(tokens, i, "index"@) {
                    let end = choose|end: int| #[trigger]
                        option_ends(tokens, i, end) && end < tokens.len()
                            && !(tokens[end] is Comma) && e == AttributeError::Expected {
                            what: Wanted::Comma,
                            at_end: false,
                        };
                    if end == i + 2 {
                        lemma_only_unique(tokens[i + 1]->Group_0@, 0);
                    }
                    let sum = field_option(tokens, i, i + 1, more)->Ok_0.0;
                    assert(field_option(tokens, i, i + 1, more) == Ok::<
                        (FieldOpts, int),
                        AttributeError,
                    >((sum, end)));
                }
            } else if tokens[i] is Word {
                assert(segments_end(tokens, i + 1) is Err);
            }
        }
    }
}

/// What is wrong at `i` if the tokens before give names, each with a comma behind it.
pub open spec fn wrong_name_at(tokens: Seq<Token>, i: int, e: AttributeError) -> bool {
    let n = tokens.len();
    match tokens[i] {
        Token::Text(_) | Token::Literal => e == AttributeError::LiteralForOption,
        Token::Comma | Token::Equals | Token::Group(_) | Token::Other => e
            == AttributeError::TokenForOption,
        Token::PathSep => i + 1 >= n && e == AttributeError::MissingOption,
        Token::Word(_) => if i + 1 < n && tokens[i + 1] is PathSep {
            (i + 2 >= n || !(tokens[i + 2] is Word)) && e == AttributeError::Expected {
                what: Wanted::Word,
                at_end: i + 2 >= n,
            }
        } else if !says(tokens, i, "table"@) {
            e == AttributeError::UnknownStructOption
        } else if i + 1 >= n || !(tokens[i + 1] is Equals) {
            e == AttributeError::Expected { what: Wanted::Equals, at_end: i + 1 >= n }
        } else if i + 2 >= n || !(tokens[i + 2] is Text) {
            e == AttributeError::Expected { what: Wanted::Text, at_end: i + 2 >= n }
        } else {
            i + 3 < n && !(tokens[i + 3] is Comma) && e == AttributeError::Expected {
                what: Wanted::Comma,
                at_end: false,
            }
        },
    }
}

proof fn lemma_names_before(tokens: Seq<Token>, i: int)
    requires
        0 <= i < tokens.len(),
        i % 4 == 0,
        forall|j: int| 0 <= j < i ==> #[trigger] in_place(tokens, j),
    ensures
        struct_options(tokens, 0) == struct_options(tokens, i),
    decreases i,
{
    if i > 0 {
        let start = i - 4;
        lemma_names_before(tokens, start);
        assert(in_place(tokens, start) && in_place(tokens, start + 1) && in_place(tokens, start + 2)
            && in_place(tokens, start + 3));
        lemma_word(tokens, start);
        lemma_path_advances(tokens, start);
    }
}

/// The first thing that is wrong with the attribute of a struct is what is reported.
pub proof fn law_struct_attributes_report_what_is_wrong(arguments: Arguments, name: String)
    ensures
        forall|r: Result<String, AttributeError>| #[trigger]
            call_ensures(read_struct_attribute, (&arguments, name), r) ==> match arguments {
                Arguments::Absent => r == Err::<String, AttributeError>(
                    AttributeError::MissingArguments,
                ),
                Arguments::Value => r == Err::<String, AttributeError>(
                    AttributeError::ValueForArguments,
                ),
                Arguments::List(tokens) => forall|i: int, e: AttributeError|
                    0 <= i < tokens@.len() && i % 4 == 0 && (forall|j: int|
                        0 <= j < i ==> #[trigger] in_place(tokens@, j))
                        && #[trigger] wrong_name_at(tokens@, i, e) ==> r == Err::<
                        String,
                        AttributeError,
                    >(e),
            },
{
    if let Arguments::List(list) = arguments {
        let tokens = list@;
        assert forall|i: int, e: AttributeError|
            0 <= i < tokens.len() && i % 4 == 0 && (forall|j: int|
                0 <= j < i ==> #[trigger] in_place(tokens, j)) && #[trigger] wrong_name_at(
                tokens,
                i,
                e,
            ) implies struct_options(tokens, 0) == Err::<Seq<char>, AttributeError>(e) by {
            lemma_names_before(tokens, i);
            lemma_path_advances(tokens, i);
            if tokens[i] is Word && !(i + 1 < tokens.len() && tokens[i + 1] is PathSep) {
                lemma_word(tokens, i);
            } else if tokens[i] is Word {
                assert(segments_end(tokens, i + 1) is Err);
            }
        }
    }
}

// --- a declaration -----------------------------------------------------------------

/// Whether the attribute is `mvcc`'s.
pub open spec fn is_mvcc(attribute: Attribute) -> bool {
    match attribute.path {
        Some(path) => path@ == "mvcc"@,
        None => false,
    }
}

/// Whether all attributes of the field that are `mvcc`'s are in order.
pub open spec fn in_order(field: Field) -> bool {
    forall|j: int|
        #![trigger field.attributes@[j]]
        0 <= j < field.attributes@.len() && is_mvcc(field.attributes@[j]) ==> good_for_field(
            field.attributes@[j].arguments,
        )
}

/// Whether one of them mentions this word.
pub open spec fn is_marked(field: Field, word: Seq<char>) -> bool {
    exists|j: int|
        #![trigger field.attributes@[j]]
        0 <= j < field.attributes@.len() && is_mvcc(field.attributes@[j]) && mentions(
            field.attributes@[j].arguments,
            word,
        )
}

/// Whether one of them has inner brackets.
pub open spec fn is_marked_unique(field: Field) -> bool {
    exists|j: int|
        #![trigger field.attributes@[j]]
        0 <= j < field.attributes@.len() && is_mvcc(field.attributes@[j]) && has_group(
            field.attributes@[j].arguments,
        )
}

proof fn lemma_field_opts(field: Field, n: int)
    requires
        0 <= n <= field.attributes@.len(),
    ensures
        ({
            let a = field.attributes@;
            &&& field_opts(a, n) is Ok <==> forall|j: int|
                #![trigger a[j]]
                0 <= j < n && is_mvcc(a[j]) ==> good_for_field(a[j].arguments)
            &&& field_opts(a, n) matches Ok(opts) ==> {
                &&& opts.primary_key <==> exists|j: int|
                    #![trigger a[j]]
                    0 <= j < n && is_mvcc(a[j]) && mentions(a[j].arguments, "primary_key"@)
                &&& opts.index <==> exists|j: int|
                    #![trigger a[j]]
                    0 <= j < n && is_mvcc(a[j]) && mentions(a[j].arguments, "index"@)
                &&& opts.unique <==> exists|j: int|
                    #![trigger a[j]]
                    0 <= j < n && is_mvcc(a[j]) && has_group(a[j].arguments)
            }
            &&& field_opts(a, n) matches Err(e) ==> {
                &&& 0 <= e.0 < n && is_mvcc(a[e.0 as int]) && !good_for_field(
                    a[e.0 as int].arguments,
                )
                &&& forall|j: int|
                    #![trigger a[j]]
                    0 <= j < e.0 && is_mvcc(a[j]) ==> good_for_field(a[j].arguments)
            }
        }),
    decreases n,
{
    let a = field.attributes@;
    if n > 0 {
        lemma_field_opts(field, n - 1);
        if field_opts(a, n - 1) is Ok {
            lemma_field_attribute(a[n - 1].arguments, field_opts(a, n - 1)->Ok_0);
        }
        assert(n - 1 < field.attributes.len());
        let ours = is_ours(a[n - 1]);
        if exists|j: int| 0 <= j < n - 1 && is_mvcc(#[trigger] a[j]) && !good_for_field(
            a[j].arguments,
        ) {
            assert(field_opts(a, n - 1) is Err);
        }
    }
}

/// The attributes of a field are read if and only if all are in order, and say together
/// what each of them says. Otherwise the first that is not is reported.
pub proof fn law_fields_are_what_their_attributes_say(field: Field)
    ensures
        forall|r: Result<FieldOpts, (usize, AttributeError)>| #[trigger]
            call_ensures(parse_field_opts, (&field,), r) ==> match r {
                Ok(opts) => {
                    &&& in_order(field)
                    &&& opts.primary_key <==> is_marked(field, "primary_key"@)
                    &&& opts.index <==> is_marked(field, "index"@)
                    &&& opts.unique <==> is_marked_unique(field)
                },
                Err((a, _)) => {
                    &&& a < field.attributes@.len()
                    &&& is_mvcc(field.attributes@[a as int])
                    &&& !good_for_field(field.attributes@[a as int].arguments)
                    &&& forall|j: int|
                        #![trigger field.attributes@[j]]
                        0 <= j < a && is_mvcc(field.attributes@[j]) ==> good_for_field(
                            field.attributes@[j].arguments,
                        )
                },
            },
{
    lemma_field_opts(field, field.attributes@.len() as int);
}

/// Whether all attributes of the struct that are `mvcc`'s are in order.
pub open spec fn struct_in_order(declaration: Declaration) -> bool {
    forall|j: int|
        #![trigger declaration.attributes@[j]]
        0 <= j < declaration.attributes@.len() && is_mvcc(declaration.attributes@[j])
            ==> good_for_struct(declaration.attributes@[j].arguments)
}

/// Whether this attribute gives the table a name.
pub open spec fn gives_name(attribute: Attribute) -> bool {
    is_mvcc(attribute) && match attribute.arguments {
        Arguments::List(tokens) => tokens@.len() > 0,
        _ => false,
    }
}

/// Whether the table is called `name`: by the last attribute of the first `n` that
/// gives one, or else like the struct.
pub open spec fn called(declaration: Declaration, n: int, name: Seq<char>) -> bool {
    let a = declaration.attributes@;
    if exists|j: int| 0 <= j < n && gives_name(#[trigger] a[j]) {
        exists|j: int|
            0 <= j < n && gives_name(#[trigger] a[j]) && name == last_name(
                a[j].arguments->List_0@,
            ) && forall|i: int| j < i < n ==> !gives_name(#[trigger] a[i])
    } else {
        name == declaration.name@
    }
}

proof fn lemma_called(declaration: Declaration, n: int)
    requires
        0 <= n <= declaration.attributes@.len(),
    ensures
        ({
            let a = declaration.attributes@;
            let read = table_name(a, declaration.name@, n);
            &&& read is Ok <==> forall|j: int|
                #![trigger a[j]]
                0 <= j < n && is_mvcc(a[j]) ==> good_for_struct(a[j].arguments)
            &&& read matches Ok(name) ==> called(declaration, n, name)
            &&& read matches Err(e) ==> {
                &&& 0 <= e.0 < n && is_mvcc(a[e.0 as int]) && !good_for_struct(
                    a[e.0 as int].arguments,
                )
                &&& forall|j: int|
                    #![trigger a[j]]
                    0 <= j < e.0 && is_mvcc(a[j]) ==> good_for_struct(a[j].arguments)
            }
        }),
    decreases n,
{
    let a = declaration.attributes@;
    if n > 0 {
        lemma_called(declaration, n - 1);
        let before = table_name(a, declaration.name@, n - 1);
        assert(n - 1 < declaration.attributes.len());
        let ours = is_ours(a[n - 1]);
        if before is Ok {
            lemma_struct_attribute(a[n - 1].arguments, before->Ok_0);
            let read = table_name(a, declaration.name@, n);
            if read is Ok {
                if gives_name(a[n - 1]) {
                    assert(called(declaration, n, read->Ok_0));
                } else if exists|j: int| 0 <= j < n - 1 && gives_name(#[trigger] a[j]) {
                    let j = choose|j: int|
                        0 <= j < n - 1 && gives_name(#[trigger] a[j]) && before->Ok_0 == last_name(
                            a[j].arguments->List_0@,
                        ) && forall|i: int| j < i < n - 1 ==> !gives_name(#[trigger] a[i]);
                    assert(gives_name(a[j]));
                    assert(called(declaration, n, read->Ok_0));
                } else {
                    assert(called(declaration, n, read->Ok_0));
                }
            }
        }
        if exists|j: int| 0 <= j < n - 1 && is_mvcc(#[trigger] a[j]) && !good_for_struct(
            a[j].arguments,
        ) {
            assert(before is Err);
        }
    }
}

/// Whether an expansion has an index for each field that asks for one, in the order of
/// the fields, named after it, and unique where it says so.
pub open spec fn indexes_follow(fields: Seq<Field>, x: Expansion) -> bool {
    &&& forall|i: int, j: int|
        0 <= i < j < x.indexes@.len() ==> (#[trigger] x.indexes@[i]).field < (
        #[trigger] x.indexes@[j]).field
    &&& forall|j: int|
        0 <= j < x.indexes@.len() ==> {
            let plan = #[trigger] x.indexes@[j];
            let field = fields[plan.field as int];
            &&& plan.field < fields.len()
            &&& is_marked(field, "index"@)
            &&& plan.unique == is_marked_unique(field)
            &&& plan.name@ == field.name@
            &&& plan.constant@ == crate::derive::upper_case(field.name@)
            &&& plan.doc@ == "The `"@ + field.name@
                + "` secondary index. See [`Index`](::mvcc::Index)."@
        }
    &&& forall|f: int|
        0 <= f < fields.len() && is_marked(#[trigger] fields[f], "index"@) ==> exists|j: int|
            0 <= j < x.indexes@.len() && (#[trigger] x.indexes@[j]).field == f
}

/// Whether every field before the `n`-th is in order, and no two of them are marked as
/// the primary key.
pub open spec fn fine_before(fields: Seq<Field>, n: int) -> bool {
    &&& forall|i: int| 0 <= i < n ==> in_order(#[trigger] fields[i])
    &&& forall|i: int, j: int|
        0 <= i < j < n && is_marked(#[trigger] fields[i], "primary_key"@) ==> !is_marked(
            #[trigger] fields[j],
            "primary_key"@,
        )
}

/// Whether `failure` is about the first thing that is wrong with the fields.
pub open spec fn wrong_field(fields: Seq<Field>, failure: Failure) -> bool {
    match failure.fault {
        Fault::Attribute(_) => match failure.place {
            Place::FieldAttribute(f, a) => {
                let attributes = fields[f as int].attributes@;
                &&& f < fields.len() && fine_before(fields, f as int)
                &&& a < attributes.len() && is_mvcc(attributes[a as int]) && !good_for_field(
                    attributes[a as int].arguments,
                )
                &&& forall|j: int|
                    #![trigger attributes[j]]
                    0 <= j < a && is_mvcc(attributes[j]) ==> good_for_field(
                        attributes[j].arguments,
                    )
            },
            _ => false,
        },
        Fault::SecondPrimaryKey => match failure.place {
            Place::Field(f) => {
                &&& f < fields.len() && fine_before(fields, f as int) && in_order(fields[f as int])
                &&& is_marked(fields[f as int], "primary_key"@)
                &&& exists|i: int|
                    0 <= i < f && is_marked(#[trigger] fields[i], "primary_key"@)
            },
            _ => false,
        },
        _ => false,
    }
}

proof fn lemma_asked(field: Field)
    ensures
        readable(field) <==> in_order(field),
        readable(field) ==> {
            &&& asked(field).primary_key <==> is_marked(field, "primary_key"@)
            &&& asked(field).index <==> is_marked(field, "index"@)
            &&& asked(field).unique <==> is_marked_unique(field)
        },
{
    lemma_field_opts(field, field.attributes@.len() as int);
}

proof fn lemma_wrong_field(fields: Vec<Field>, n: int)
    requires
        0 <= n <= fields@.len(),
    ensures
        roles(fields@, n) is Ok <==> fine_before(fields@, n),
        roles(fields@, n) matches Err(failure) ==> wrong_field(fields@, failure),
    decreases n,
{
    if n > 0 {
        lemma_wrong_field(fields, n - 1);
        assert forall|i: int| 0 <= i < fields@.len() implies {
            &&& readable(#[trigger] fields@[i]) <==> in_order(fields@[i])
            &&& readable(fields@[i]) ==> (asked(fields@[i]).primary_key <==> is_marked(
                fields@[i],
                "primary_key"@,
            ))
        } by {
            lemma_asked(fields@[i]);
        }
        let field = fields@[n - 1];
        assert(n - 1 < fields.len());
        lemma_field_opts(field, field.attributes@.len() as int);
        if roles(fields@, n - 1) is Ok {
            lemma_roles_fit(fields@, n - 1);
            let before = roles(fields@, n - 1)->Ok_0;
            if before.key is Some {
                assert(asked(fields@[before.key->Some_0]).primary_key);
            }
            if roles(fields@, n) is Ok {
                assert forall|i: int, j: int|
                    0 <= i < j < n && is_marked(#[trigger] fields@[i], "primary_key"@) implies
                    !is_marked(#[trigger] fields@[j], "primary_key"@) by {
                    assert(asked(fields@[i]).primary_key);
                }
                assert(fine_before(fields@, n));
            } else if fine_before(fields@, n) {
                assert(in_order(fields@[n - 1]));
                assert(is_marked(fields@[n - 1], "primary_key"@));
                assert(is_marked(fields@[before.key->Some_0], "primary_key"@));
            }
        } else if fine_before(fields@, n) {
            assert(fine_before(fields@, n - 1));
        }
    }
}

/// Something is derived for a declaration if and only if it is a struct with named
/// fields, the attributes of the struct and of every field are in order, and exactly
/// one field is marked as the primary key. That is then the key, the table is called as
/// the struct says, and the indexes are those that the fields ask for. Otherwise the
/// first thing that is wrong is reported.
pub proof fn law_declarations_expand_to_what_they_say(declaration: Declaration)
    ensures
        forall|r: Result<Expansion, Failure>| #[trigger]
            call_ensures(expand, (&declaration,), r) ==> match r {
                Ok(x) => match declaration.shape {
                    Shape::Named(fields) => {
                        &&& struct_in_order(declaration)
                        &&& called(declaration, declaration.attributes@.len() as int, x.table@)
                        &&& fine_before(fields@, fields@.len() as int)
                        &&& x.key < fields@.len()
                        &&& is_marked(fields@[x.key as int], "primary_key"@)
                        &&& indexes_follow(fields@, x)
                    },
                    _ => false,
                },
                Err(failure) => if !struct_in_order(declaration) {
                    match failure {
                        Failure { place: Place::Attribute(a), fault: Fault::Attribute(_) } => {
                            let attributes = declaration.attributes@;
                            &&& a < attributes.len() && is_mvcc(attributes[a as int])
                            &&& !good_for_struct(attributes[a as int].arguments)
                            &&& forall|j: int|
                                #![trigger attributes[j]]
                                0 <= j < a && is_mvcc(attributes[j]) ==> good_for_struct(
                                    attributes[j].arguments,
                                )
                        },
                        _ => false,
                    }
                } else {
                    match declaration.shape {
                        Shape::NotAStruct => failure == (Failure {
                            place: Place::Whole,
                            fault: Fault::NotAStruct,
                        }),
                        Shape::Unnamed => failure == (Failure {
                            place: Place::Whole,
                            fault: Fault::UnnamedFields,
                        }),
                        Shape::Named(fields) => if fine_before(
                            fields@,
                            fields@.len() as int,
                        ) {
                            &&& failure == (Failure {
                                place: Place::Whole,
                                fault: Fault::NoPrimaryKey,
                            })
                            &&& forall|i: int|
                                0 <= i < fields@.len() ==> !is_marked(
                                    #[trigger] fields@[i],
                                    "primary_key"@,
                                )
                        } else {
                            wrong_field(fields@, failure)
                        },
                    }
                },
            },
{
    let n = declaration.attributes@.len() as int;
    lemma_called(declaration, n);
    if let Shape::Named(fields) = declaration.shape {
        let m = fields@.len() as int;
        lemma_wrong_field(fields, m);
        if roles(fields@, m) is Ok {
            let found = roles(fields@, m)->Ok_0;
            lemma_roles_fit(fields@, m);
            assert forall|i: int| 0 <= i < m implies {
                &&& readable(#[trigger] fields@[i])
                &&& asked(fields@[i]).primary_key <==> is_marked(fields@[i], "primary_key"@)
                &&& asked(fields@[i]).index <==> is_marked(fields@[i], "index"@)
                &&& asked(fields@[i]).unique <==> is_marked_unique(fields@[i])
            } by {
                lemma_asked(fields@[i]);
            }
            assert forall|r: Result<Expansion, Failure>| #[trigger]
                call_ensures(expand, (&declaration,), r) && r is Ok implies indexes_follow(
                fields@,
                r->Ok_0,
            ) by {
                let x = r->Ok_0;
                assert(derived(declaration) is Ok);
                assert forall|i: int, j: int|
                    0 <= i < j < x.indexes@.len() implies (#[trigger] x.indexes@[i]).field < (
                #[trigger] x.indexes@[j]).field by {
                    let z = (found.indexes[i], found.indexes[j]);
                }
                assert forall|f: int|
                    0 <= f < m && is_marked(#[trigger] fields@[f], "index"@) implies exists|j: int|
                    0 <= j < x.indexes@.len() && (#[trigger] x.indexes@[j]).field == f by {
                    let pair = (f, asked(fields@[f]).unique);
                    assert(found.indexes.contains(pair));
                    let j = choose|j: int|
                        0 <= j < found.indexes.len() && found.indexes[j] == pair;
                    assert(x.indexes@[j].field == f);
                }
            }
        }
    }
}

/// What is wrong with an attribute is said in these words.
pub proof fn law_attribute_messages_say_what_is_expected(e: AttributeError)
    ensures
        forall|m: String| #[trigger]
            call_ensures(AttributeError::message, (e,), m) ==> m@ == match e {
                AttributeError::MissingArguments =>
                    "expected attribute arguments in parentheses: #[mvcc(...)]"@,
                AttributeError::ValueForArguments => "expected parentheses: #[mvcc(...)]"@,
                AttributeError::MissingOption =>
                    "unexpected end of input, expected nested attribute"@,
                AttributeError::LiteralForOption =>
                    "unexpected literal in nested attribute, expected ident"@,
                AttributeError::TokenForOption =>
                    "unexpected token in nested attribute, expected ident"@,
                AttributeError::UnknownStructOption => "expected `table = \"…\"`"@,
                AttributeError::UnknownFieldOption =>
                    "expected `primary_key`, `index`, or `index(unique)`"@,
                AttributeError::UnknownIndexOption => "expected `unique`"@,
                AttributeError::Expected { what, at_end } => {
                    let wanted = match what {
                        Wanted::Word => "expected ident"@,
                        Wanted::Comma => "expected `,`"@,
                        Wanted::Equals => "expected `=`"@,
                        Wanted::Text => "expected string literal"@,
                    };
                    if at_end {
                        "unexpected end of input, "@ + wanted
                    } else {
                        wanted
                    }
                },
            },
{
}

/// And what is wrong with a declaration of `ty` in these.
pub proof fn law_fault_messages_say_what_is_missing(fault: Fault, ty: &str)
    ensures
        forall|m: String| #[trigger]
            call_ensures(Fault::message, (fault, ty), m) ==> match fault {
                Fault::Attribute(e) => m@ == e.text(),
                Fault::NotAStruct => m@ == "`Mvcc` can only be derived for structs"@,
                Fault::UnnamedFields => m@
                    == "`Mvcc` requires a struct with named fields: index declarations refer to fields by name"@,
                Fault::SecondPrimaryKey => m@
                    == "a second `#[mvcc(primary_key)]`: exactly one is allowed"@,
                Fault::NoPrimaryKey => m@ == "`"@ + ty@
                    + "` has no primary key: mark exactly one field with `#[mvcc(primary_key)]`"@,
            },
{
}

} // verus!
