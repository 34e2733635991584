//! The grammar of the attributes that declare a table.
//!
//! | attribute       | position | meaning                                        |
//! |-----------------|----------|------------------------------------------------|
//! | `table = "..."` | struct   | the table's name; the type's name by default   |
//! | `primary_key`   | field    | required, on exactly one field                 |
//! | `index`         | field    | secondary index on this field                  |
//! | `index(unique)` | field    | unique secondary index                         |
//!
//! Options are separated by commas, and a trailing comma is allowed.

use vstd::prelude::*;

use crate::order::same_text;

verus! {

/// One token of an attribute's arguments.
#[derive(Debug)]
pub enum Token {
    /// An identifier or a keyword.
    Word(String),
    /// A string literal, by the text it stands for.
    Text(String),
    /// Any other literal.
    Literal,
    /// `,`
    Comma,
    /// `=`
    Equals,
    /// `::`
    PathSep,
    /// Tokens in parentheses.
    Group(Vec<Token>),
    /// Anything else.
    Other,
}

/// What an attribute carries behind its path.
#[derive(Debug)]
pub enum Arguments {
    /// Nothing.
    Absent,
    /// `= value`
    Value,
    /// Tokens in brackets of any kind.
    List(Vec<Token>),
}

/// What was expected where something else stood.
#[derive(Clone, Copy, PartialEq, Eq, Debug, Structural)]
pub enum Wanted {
    Word,
    Comma,
    Equals,
    Text,
}

/// What can be wrong with one attribute.
#[derive(Clone, Copy, PartialEq, Eq, Debug, Structural)]
pub enum AttributeError {
    /// The attribute has no arguments.
    MissingArguments,
    /// The attribute has a value in place of arguments.
    ValueForArguments,
    /// The tokens end where an option is due.
    MissingOption,
    /// A literal stands where an option is due.
    LiteralForOption,
    /// Another token stands where an option is due.
    TokenForOption,
    /// The option is none of a struct's.
    UnknownStructOption,
    /// The option is none of a field's.
    UnknownFieldOption,
    /// The option is none of an index's.
    UnknownIndexOption,
    /// Something else than `what` stands here, or nothing at all.
    Expected { what: Wanted, at_end: bool },
}

impl Wanted {
    pub open spec fn text(self) -> Seq<char> {
        match self {
            Wanted::Word => "expected ident"@,
            Wanted::Comma => "expected `,`"@,
            Wanted::Equals => "expected `=`"@,
            Wanted::Text => "expected string literal"@,
        }
    }

    pub fn message(self) -> (m: &'static str)
        ensures
            m@ == self.text(),
    {
        match self {
            Wanted::Word => "expected ident",
            Wanted::Comma => "expected `,`",
            Wanted::Equals => "expected `=`",
            Wanted::Text => "expected string literal",
        }
    }
}

impl AttributeError {
    /// The text of [`AttributeError::message`].
    pub open spec fn text(self) -> Seq<char> {
        match self {
            AttributeError::MissingArguments =>
                "expected attribute arguments in parentheses: #[mvcc(...)]"@,
            AttributeError::ValueForArguments => "expected parentheses: #[mvcc(...)]"@,
            AttributeError::MissingOption => "unexpected end of input, expected nested attribute"@,
            AttributeError::LiteralForOption =>
                "unexpected literal in nested attribute, expected ident"@,
            AttributeError::TokenForOption =>
                "unexpected token in nested attribute, expected ident"@,
            AttributeError::UnknownStructOption => "expected `table = \"…\"`"@,
            AttributeError::UnknownFieldOption =>
                "expected `primary_key`, `index`, or `index(unique)`"@,
            AttributeError::UnknownIndexOption => "expected `unique`"@,
            AttributeError::Expected { what, at_end } => if at_end {
                "unexpected end of input, "@ + what.text()
            } else {
                what.text()
            },
        }
    }

    /// The compiler error to report.
    pub fn message(self) -> (m: String)
        ensures
            m@ == self.text(),
    {
        match self {
            AttributeError::MissingArguments => {
                "expected attribute arguments in parentheses: #[mvcc(...)]".to_owned()
            },
            AttributeError::ValueForArguments => "expected parentheses: #[mvcc(...)]".to_owned(),
            AttributeError::MissingOption => {
                "unexpected end of input, expected nested attribute".to_owned()
            },
            AttributeError::LiteralForOption => {
                "unexpected literal in nested attribute, expected ident".to_owned()
            },
            AttributeError::TokenForOption => {
                "unexpected token in nested attribute, expected ident".to_owned()
            },
            AttributeError::UnknownStructOption => "expected `table = \"…\"`".to_owned(),
            AttributeError::UnknownFieldOption => {
                "expected `primary_key`, `index`, or `index(unique)`".to_owned()
            },
            AttributeError::UnknownIndexOption => "expected `unique`".to_owned(),
            AttributeError::Expected { what, at_end } => {
                if at_end {
                    let mut m = "unexpected end of input, ".to_owned();
                    m.append(what.message());
                    m
                } else {
                    what.message().to_owned()
                }
            },
        }
    }
}

/// Where the `::word` segments that start at `i` end.
pub open spec fn segments_end(tokens: Seq<Token>, i: int) -> Result<int, AttributeError>
    decreases tokens.len() - i,
{
    if i < tokens.len() && tokens[i] is PathSep {
        if i + 1 < tokens.len() && tokens[i + 1] is Word {
            segments_end(tokens, i + 2)
        } else {
            Err(AttributeError::Expected { what: Wanted::Word, at_end: i + 1 >= tokens.len() })
        }
    } else {
        Ok(i)
    }
}

/// Where the path that starts at `i` ends.
pub open spec fn path_end(tokens: Seq<Token>, i: int) -> Result<int, AttributeError> {
    let first = if i < tokens.len() && tokens[i] is PathSep {
        i + 1
    } else {
        i
    };
    if first >= tokens.len() {
        Err(AttributeError::MissingOption)
    } else {
        match tokens[first] {
            Token::Word(_) => segments_end(tokens, first + 1),
            Token::Text(_) | Token::Literal => Err(AttributeError::LiteralForOption),
            _ => Err(AttributeError::TokenForOption),
        }
    }
}

/// Whether the path from `i` to `end` is this one word.
pub open spec fn is_word(tokens: Seq<Token>, i: int, end: int, word: Seq<char>) -> bool {
    end == i + 1 && tokens[i] is Word && tokens[i]->Word_0@ == word
}

/// Where the option after the one that ends at `end` starts, if there is one.
pub open spec fn next_start(tokens: Seq<Token>, end: int) -> Result<Option<int>, AttributeError> {
    if end >= tokens.len() {
        Ok(None)
    } else if !(tokens[end] is Comma) {
        Err(AttributeError::Expected { what: Wanted::Comma, at_end: false })
    } else if end + 1 >= tokens.len() {
        Ok(None)
    } else {
        Ok(Some(end + 1))
    }
}

/// A path takes at least one token.
pub proof fn lemma_path_advances(tokens: Seq<Token>, i: int)
    requires
        0 <= i,
    ensures
        path_end(tokens, i) matches Ok(end) ==> i < end <= tokens.len(),
{
    let first = if i < tokens.len() && tokens[i] is PathSep {
        i + 1
    } else {
        i
    };
    if first < tokens.len() {
        lemma_segments_advance(tokens, first + 1);
    }
}

proof fn lemma_segments_advance(tokens: Seq<Token>, i: int)
    requires
        0 <= i <= tokens.len(),
    ensures
        segments_end(tokens, i) matches Ok(end) ==> i <= end <= tokens.len(),
    decreases tokens.len() - i,
{
    if i < tokens.len() && tokens[i] is PathSep && i + 1 < tokens.len() && tokens[i + 1] is Word {
        lemma_segments_advance(tokens, i + 2);
    }
}

/// Find the end of the path that starts at `i`.
fn find_path_end(tokens: &Vec<Token>, i: usize) -> (r: Result<usize, AttributeError>)
    requires
        i <= tokens@.len(),
    ensures
        match r {
            Ok(end) => path_end(tokens@, i as int) == Ok::<int, AttributeError>(end as int),
            Err(e) => path_end(tokens@, i as int) == Err::<int, AttributeError>(e),
        },
        r matches Ok(end) ==> i < end <= tokens@.len(),
{
    proof {
        lemma_path_advances(tokens@, i as int);
    }
    let first: usize = if i < tokens.len() && matches!(tokens[i], Token::PathSep) {
        i + 1
    } else {
        i
    };
    if first >= tokens.len() {
        return Err(AttributeError::MissingOption);
    }
    match &tokens[first] {
        Token::Word(_) => {},
        Token::Text(_) | Token::Literal => {
            return Err(AttributeError::LiteralForOption);
        },
        _ => {
            return Err(AttributeError::TokenForOption);
        },
    }
    let mut end: usize = first + 1;
    while end < tokens.len() && matches!(tokens[end], Token::PathSep)
        invariant
            first < end <= tokens@.len(),
            i <= first,
            segments_end(tokens@, end as int) == path_end(tokens@, i as int),
        decreases tokens@.len() - end,
    {
        if end + 1 < tokens.len() && matches!(tokens[end + 1], Token::Word(_)) {
            end = end + 2;
        } else {
            return Err(
                AttributeError::Expected { what: Wanted::Word, at_end: end + 1 >= tokens.len() },
            );
        }
    }
    Ok(end)
}

/// Whether the path from `i` to `end` is this one word.
fn names(tokens: &Vec<Token>, i: usize, end: usize, word: &str) -> (r: bool)
    requires
        i < end <= tokens@.len(),
    ensures
        r == is_word(tokens@, i as int, end as int, word@),
{
    if end != i + 1 {
        return false;
    }
    match &tokens[i] {
        Token::Word(w) => same_text(w.as_str(), word),
        _ => false,
    }
}

/// Step over the comma behind an option.
fn find_next(tokens: &Vec<Token>, end: usize) -> (r: Result<Option<usize>, AttributeError>)
    requires
        end <= tokens@.len(),
    ensures
        match r {
            Ok(None) => next_start(tokens@, end as int) == Ok::<Option<int>, AttributeError>(None),
            Ok(Some(n)) => n < tokens@.len() && next_start(tokens@, end as int) == Ok::<
                Option<int>,
                AttributeError,
            >(Some(n as int)),
            Err(e) => next_start(tokens@, end as int) == Err::<Option<int>, AttributeError>(e),
        },
{
    if end >= tokens.len() {
        Ok(None)
    } else if !matches!(tokens[end], Token::Comma) {
        Err(AttributeError::Expected { what: Wanted::Comma, at_end: false })
    } else if end + 1 >= tokens.len() {
        Ok(None)
    } else {
        Ok(Some(end + 1))
    }
}

/// The tokens from `i` on as options of an index: `unique`, once or more.
pub open spec fn index_options(tokens: Seq<Token>, i: int) -> Result<(), AttributeError>
    decreases tokens.len() - i when 0 <= i
{
    proof {
        lemma_path_advances(tokens, i);
    }
    match path_end(tokens, i) {
        Err(e) => Err(e),
        Ok(end) => if is_word(tokens, i, end, "unique"@) {
            match next_start(tokens, end) {
                Err(e) => Err(e),
                Ok(None) => Ok(()),
                Ok(Some(next)) => index_options(tokens, next),
            }
        } else {
            Err(AttributeError::UnknownIndexOption)
        },
    }
}

/// Read the options of an index.
fn read_index_options(tokens: &Vec<Token>) -> (r: Result<(), AttributeError>)
    ensures
        r == index_options(tokens@, 0),
{
    let mut i: usize = 0;
    loop
        invariant
            i <= tokens@.len(),
            index_options(tokens@, i as int) == index_options(tokens@, 0),
        decreases tokens@.len() - i,
    {
        let end: usize = match find_path_end(tokens, i) {
            Ok(end) => end,
            Err(e) => {
                return Err(e);
            },
        };
        if !names(tokens, i, end, "unique") {
            return Err(AttributeError::UnknownIndexOption);
        }
        match find_next(tokens, end) {
            Err(e) => {
                return Err(e);
            },
            Ok(None) => {
                return Ok(());
            },
            Ok(Some(next)) => {
                i = next;
            },
        }
    }
}

/// What the attributes of a field ask for.
#[derive(Clone, Copy, PartialEq, Eq, Debug, Structural)]
pub struct FieldOpts {
    pub primary_key: bool,
    pub index: bool,
    pub unique: bool,
}

impl FieldOpts {
    /// A field without attributes.
    pub open spec fn plain() -> FieldOpts {
        FieldOpts { primary_key: false, index: false, unique: false }
    }
}

impl Default for FieldOpts {
    fn default() -> (o: Self)
        ensures
            o == FieldOpts::plain(),
    {
        FieldOpts { primary_key: false, index: false, unique: false }
    }
}

/// The option of a field whose path stands from `i` to `end`: what it adds to
/// `opts`, and where it ends.
pub open spec fn field_option(tokens: Seq<Token>, i: int, end: int, opts: FieldOpts) -> Result<
    (FieldOpts, int),
    AttributeError,
> {
    if is_word(tokens, i, end, "primary_key"@) {
        Ok((FieldOpts { primary_key: true, ..opts }, end))
    } else if is_word(tokens, i, end, "index"@) {
        if end < tokens.len() && tokens[end] is Group {
            match index_options(tokens[end]->Group_0@, 0) {
                Err(e) => Err(e),
                Ok(_) => Ok((FieldOpts { index: true, unique: true, ..opts }, end + 1)),
            }
        } else {
            Ok((FieldOpts { index: true, ..opts }, end))
        }
    } else {
        Err(AttributeError::UnknownFieldOption)
    }
}

/// What the tokens from `i` on, as options of a field, add to `opts`.
pub open spec fn field_options(tokens: Seq<Token>, i: int, opts: FieldOpts) -> Result<
    FieldOpts,
    AttributeError,
>
    decreases tokens.len() - i when 0 <= i
{
    proof {
        lemma_path_advances(tokens, i);
    }
    match path_end(tokens, i) {
        Err(e) => Err(e),
        Ok(end) => match field_option(tokens, i, end, opts) {
            Err(e) => Err(e),
            Ok((more, after)) => match next_start(tokens, after) {
                Err(e) => Err(e),
                Ok(None) => Ok(more),
                Ok(Some(next)) => field_options(tokens, next, more),
            },
        },
    }
}

/// Read the options of a field into `opts`.
fn read_field_options(tokens: &Vec<Token>, opts: FieldOpts) -> (r: Result<
    FieldOpts,
    AttributeError,
>)
    ensures
        r == field_options(tokens@, 0, opts),
{
    let mut i: usize = 0;
    let mut sum = opts;
    loop
        invariant
            i <= tokens@.len(),
            field_options(tokens@, i as int, sum) == field_options(tokens@, 0, opts),
        decreases tokens@.len() - i,
    {
        let mut end: usize = match find_path_end(tokens, i) {
            Ok(end) => end,
            Err(e) => {
                return Err(e);
            },
        };
        if names(tokens, i, end, "primary_key") {
            sum = FieldOpts { primary_key: true, ..sum };
        } else if names(tokens, i, end, "index") {
            sum = FieldOpts { index: true, ..sum };
            if end < tokens.len() {
                if let Token::Group(inner) = &tokens[end] {
                    match read_index_options(inner) {
                        Ok(_) => {},
                        Err(e) => {
                            return Err(e);
                        },
                    }
                    sum = FieldOpts { unique: true, ..sum };
                    end = end + 1;
                }
            }
        } else {
            return Err(AttributeError::UnknownFieldOption);
        }
        match find_next(tokens, end) {
            Err(e) => {
                return Err(e);
            },
            Ok(None) => {
                return Ok(sum);
            },
            Ok(Some(next)) => {
                i = next;
            },
        }
    }
}

/// What one attribute of a field adds to `opts`.
pub open spec fn with_field_attribute(arguments: Arguments, opts: FieldOpts) -> Result<
    FieldOpts,
    AttributeError,
> {
    match arguments {
        Arguments::Absent => Err(AttributeError::MissingArguments),
        Arguments::Value => Err(AttributeError::ValueForArguments),
        Arguments::List(tokens) => if tokens@.len() == 0 {
            Ok(opts)
        } else {
            field_options(tokens@, 0, opts)
        },
    }
}

/// Read one attribute of a field into `opts`.
pub fn read_field_attribute(arguments: &Arguments, opts: FieldOpts) -> (r: Result<
    FieldOpts,
    AttributeError,
>)
    ensures
        r == with_field_attribute(*arguments, opts),
{
    match arguments {
        Arguments::Absent => Err(AttributeError::MissingArguments),
        Arguments::Value => Err(AttributeError::ValueForArguments),
        Arguments::List(tokens) => {
            if tokens.len() == 0 {
                Ok(opts)
            } else {
                read_field_options(tokens, opts)
            }
        },
    }
}

/// The table name that the option of a struct gives, whose path stands from `i`
/// to `end`, and takes two tokens more.
pub open spec fn struct_option(tokens: Seq<Token>, i: int, end: int) -> Result<
    Seq<char>,
    AttributeError,
> {
    if !is_word(tokens, i, end, "table"@) {
        Err(AttributeError::UnknownStructOption)
    } else if !(end < tokens.len() && tokens[end] is Equals) {
        Err(AttributeError::Expected { what: Wanted::Equals, at_end: end >= tokens.len() })
    } else if !(end + 1 < tokens.len() && tokens[end + 1] is Text) {
        Err(AttributeError::Expected { what: Wanted::Text, at_end: end + 1 >= tokens.len() })
    } else {
        Ok(tokens[end + 1]->Text_0@)
    }
}

/// The table name that the tokens from `i` on give, as options of a struct. The
/// last one counts.
pub open spec fn struct_options(tokens: Seq<Token>, i: int) -> Result<Seq<char>, AttributeError>
    decreases tokens.len() - i when 0 <= i
{
    proof {
        lemma_path_advances(tokens, i);
    }
    match path_end(tokens, i) {
        Err(e) => Err(e),
        Ok(end) => match struct_option(tokens, i, end) {
            Err(e) => Err(e),
            Ok(name) => match next_start(tokens, end + 2) {
                Err(e) => Err(e),
                Ok(None) => Ok(name),
                Ok(Some(next)) => struct_options(tokens, next),
            },
        },
    }
}

/// Read the options of a struct.
fn read_struct_options(tokens: &Vec<Token>) -> (r: Result<String, AttributeError>)
    ensures
        match r {
            Ok(name) => struct_options(tokens@, 0) == Ok::<Seq<char>, AttributeError>(name@),
            Err(e) => struct_options(tokens@, 0) == Err::<Seq<char>, AttributeError>(e),
        },
{
    let mut i: usize = 0;
    loop
        invariant
            i <= tokens@.len(),
            struct_options(tokens@, i as int) == struct_options(tokens@, 0),
        decreases tokens@.len() - i,
    {
        let end: usize = match find_path_end(tokens, i) {
            Ok(end) => end,
            Err(e) => {
                return Err(e);
            },
        };
        if !names(tokens, i, end, "table") {
            return Err(AttributeError::UnknownStructOption);
        }
        if end >= tokens.len() || !matches!(tokens[end], Token::Equals) {
            return Err(
                AttributeError::Expected { what: Wanted::Equals, at_end: end >= tokens.len() },
            );
        }
        if end + 1 >= tokens.len() {
            return Err(AttributeError::Expected { what: Wanted::Text, at_end: true });
        }
        let name: String = match &tokens[end + 1] {
            Token::Text(name) => name.as_str().to_owned(),
            _ => {
                return Err(AttributeError::Expected { what: Wanted::Text, at_end: false });
            },
        };
        match find_next(tokens, end + 2) {
            Err(e) => {
                return Err(e);
            },
            Ok(None) => {
                return Ok(name);
            },
            Ok(Some(next)) => {
                i = next;
            },
        }
    }
}

/// The table name after one attribute of a struct, being `name` before it.
pub open spec fn with_struct_attribute(arguments: Arguments, name: Seq<char>) -> Result<
    Seq<char>,
    AttributeError,
> {
    match arguments {
        Arguments::Absent => Err(AttributeError::MissingArguments),
        Arguments::Value => Err(AttributeError::ValueForArguments),
        Arguments::List(tokens) => if tokens@.len() == 0 {
            Ok(name)
        } else {
            struct_options(tokens@, 0)
        },
    }
}

/// Read one attribute of a struct, whose table was called `name` so far.
pub fn read_struct_attribute(arguments: &Arguments, name: String) -> (r: Result<
    String,
    AttributeError,
>)
    ensures
        match r {
            Ok(n) => with_struct_attribute(*arguments, name@) == Ok::<Seq<char>, AttributeError>(
                n@,
            ),
            Err(e) => with_struct_attribute(*arguments, name@) == Err::<Seq<char>, AttributeError>(
                e,
            ),
        },
{
    match arguments {
        Arguments::Absent => Err(AttributeError::MissingArguments),
        Arguments::Value => Err(AttributeError::ValueForArguments),
        Arguments::List(tokens) => {
            if tokens.len() == 0 {
                Ok(name)
            } else {
                read_struct_options(tokens)
            }
        },
    }
}

/// One option of a field.
pub enum FieldOption {
    PrimaryKey,
    Index,
    UniqueIndex,
}

/// What `option` adds to `opts`.
pub open spec fn joined(opts: FieldOpts, option: FieldOption) -> FieldOpts {
    match option {
        FieldOption::PrimaryKey => FieldOpts { primary_key: true, ..opts },
        FieldOption::Index => FieldOpts { index: true, ..opts },
        FieldOption::UniqueIndex => FieldOpts { index: true, unique: true, ..opts },
    }
}

/// What `options` add to `opts`.
pub open spec fn all_joined(opts: FieldOpts, options: Seq<FieldOption>) -> FieldOpts
    decreases options.len(),
{
    if options.len() == 0 {
        opts
    } else {
        all_joined(joined(opts, options[0]), options.drop_first())
    }
}

/// Whether `option` stands in `tokens` from `i` to `end`.
pub open spec fn spells_option(
    tokens: Seq<Token>,
    i: int,
    end: int,
    option: FieldOption,
) -> bool {
    &&& 0 <= i < end <= tokens.len()
    &&& match option {
        FieldOption::PrimaryKey => is_word(tokens, i, end, "primary_key"@),
        FieldOption::Index => is_word(tokens, i, end, "index"@) && !(end < tokens.len()
            && tokens[end] is Group),
        FieldOption::UniqueIndex => is_word(tokens, i, end - 1, "index"@) && tokens[end
            - 1] is Group && index_options(tokens[end - 1]->Group_0@, 0) is Ok,
    }
}

/// Whether the tokens from `i` on are `options`, with commas between them and
/// perhaps one at the end.
pub open spec fn spells(tokens: Seq<Token>, i: int, options: Seq<FieldOption>) -> bool
    decreases options.len(),
{
    options.len() > 0 && exists|end: int| #[trigger]
        spells_option(tokens, i, end, options[0]) && if options.len() == 1 {
            end == tokens.len() || (end == tokens.len() - 1 && tokens[end] is Comma)
        } else {
            end < tokens.len() - 1 && tokens[end] is Comma && spells(
                tokens,
                end + 1,
                options.drop_first(),
            )
        }
}

proof fn lemma_spelled_is_read(
    tokens: Seq<Token>,
    i: int,
    opts: FieldOpts,
    options: Seq<FieldOption>,
)
    requires
        spells(tokens, i, options),
    ensures
        field_options(tokens, i, opts) == Ok::<FieldOpts, AttributeError>(
            all_joined(opts, options),
        ),
    decreases options.len(),
{
    reveal_strlit("primary_key");
    reveal_strlit("index");
    let end = choose|end: int| #[trigger]
        spells_option(tokens, i, end, options[0]) && if options.len() == 1 {
            end == tokens.len() || (end == tokens.len() - 1 && tokens[end] is Comma)
        } else {
            end < tokens.len() - 1 && tokens[end] is Comma && spells(
                tokens,
                end + 1,
                options.drop_first(),
            )
        };
    assert("primary_key"@[0] != "index"@[0]);
    assert(path_end(tokens, i) == Ok::<int, AttributeError>(i + 1));
    let more = joined(opts, options[0]);
    assert(field_option(tokens, i, i + 1, opts) == Ok::<(FieldOpts, int), AttributeError>(
        (more, end),
    ));
    if options.len() == 1 {
        assert(all_joined(more, options.drop_first()) == more);
    } else {
        lemma_spelled_is_read(tokens, end + 1, more, options.drop_first());
    }
}

proof fn lemma_read_is_spelled(tokens: Seq<Token>, i: int, opts: FieldOpts) -> (options: Seq<
    FieldOption,
>)
    requires
        0 <= i,
        field_options(tokens, i, opts) is Ok,
    ensures
        spells(tokens, i, options),
        field_options(tokens, i, opts) == Ok::<FieldOpts, AttributeError>(
            all_joined(opts, options),
        ),
    decreases tokens.len() - i,
{
    lemma_path_advances(tokens, i);
    let start = path_end(tokens, i)->Ok_0;
    let (more, end) = field_option(tokens, i, start, opts)->Ok_0;
    let option = if is_word(tokens, i, start, "primary_key"@) {
        FieldOption::PrimaryKey
    } else if start < tokens.len() && tokens[start] is Group {
        FieldOption::UniqueIndex
    } else {
        FieldOption::Index
    };
    assert(spells_option(tokens, i, end, option));
    assert(more == joined(opts, option));
    if next_start(tokens, end)->Ok_0 is None {
        let options = seq![option];
        assert(options.drop_first() =~= Seq::empty());
        assert(all_joined(more, options.drop_first()) == more);
        assert(spells_option(tokens, i, end, options[0]));
        assert(spells(tokens, i, options));
        options
    } else {
        let rest = lemma_read_is_spelled(tokens, end + 1, more);
        let options = seq![option] + rest;
        assert(options.drop_first() =~= rest);
        assert(rest.len() > 0);
        assert(spells_option(tokens, i, end, options[0]));
        assert(spells(tokens, i, options));
        options
    }
}

/// The tokens of an attribute are read exactly if they are a list of options,
/// with commas between them and perhaps one at the end, and what is read is what
/// the options add up to.
pub proof fn law_field_options_are_lists(tokens: Seq<Token>, opts: FieldOpts, read: FieldOpts)
    ensures
        field_options(tokens, 0, opts) == Ok::<FieldOpts, AttributeError>(read) <==> (exists|
            options: Seq<FieldOption>,
        | #[trigger]
            spells(tokens, 0, options) && all_joined(opts, options) == read),
{
    if field_options(tokens, 0, opts) == Ok::<FieldOpts, AttributeError>(read) {
        let options = lemma_read_is_spelled(tokens, 0, opts);
        assert(spells(tokens, 0, options) && all_joined(opts, options) == read);
    }
    if exists|options: Seq<FieldOption>| #[trigger]
        spells(tokens, 0, options) && all_joined(opts, options) == read {
        let options = choose|options: Seq<FieldOption>| #[trigger]
            spells(tokens, 0, options) && all_joined(opts, options) == read;
        lemma_spelled_is_read(tokens, 0, opts, options);
    }
}

} // verus!
