//! From a struct declaration to what its record implementation is made of.
//!
//! The declaration comes as plain values, and so does the result: reading the
//! declaration off the compiler's tokens, and writing the implementation out as
//! tokens, is left to the derive macro.

use vstd::prelude::*;
use vstd::string::*;

use crate::attribute::{
    read_field_attribute, read_struct_attribute, with_field_attribute, with_struct_attribute,
    Arguments, AttributeError, FieldOpts,
};
use crate::order::same_text;

verus! {

/// An attribute of a declaration.
#[derive(Debug)]
pub struct Attribute {
    /// The attribute's path, if it is a single identifier.
    pub path: Option<String>,
    pub arguments: Arguments,
}

/// A named field.
#[derive(Debug)]
pub struct Field {
    pub name: String,
    pub attributes: Vec<Attribute>,
}

/// What is declared.
#[derive(Debug)]
pub enum Shape {
    /// A struct with named fields.
    Named(Vec<Field>),
    /// A tuple struct or a unit struct.
    Unnamed,
    /// An enum or a union.
    NotAStruct,
}

/// A declaration to derive a record implementation for.
#[derive(Debug)]
pub struct Declaration {
    pub name: String,
    pub attributes: Vec<Attribute>,
    pub shape: Shape,
}

/// Which part of a declaration an error is about.
#[derive(Clone, Copy, PartialEq, Eq, Debug, Structural)]
pub enum Place {
    /// The declaration as a whole.
    Whole,
    /// An attribute of the declaration, by its position.
    Attribute(usize),
    /// A field, by its position.
    Field(usize),
    /// An attribute of a field, by the positions of both.
    FieldAttribute(usize, usize),
}

/// What can be wrong with a declaration.
#[derive(Clone, Copy, PartialEq, Eq, Debug, Structural)]
pub enum Fault {
    Attribute(AttributeError),
    NotAStruct,
    UnnamedFields,
    SecondPrimaryKey,
    NoPrimaryKey,
}

/// Why nothing can be derived.
#[derive(Clone, Copy, PartialEq, Eq, Debug, Structural)]
pub struct Failure {
    pub place: Place,
    pub fault: Fault,
}

impl Fault {
    /// The text of [`Fault::message`].
    pub open spec fn text(self, ty: Seq<char>) -> Seq<char> {
        match self {
            Fault::Attribute(e) => e.text(),
            Fault::NotAStruct => "`Mvcc` can only be derived for structs"@,
            Fault::UnnamedFields =>
                "`Mvcc` requires a struct with named fields: index declarations refer to fields by name"@,
            Fault::SecondPrimaryKey => "a second `#[mvcc(primary_key)]`: exactly one is allowed"@,
            Fault::NoPrimaryKey => "`"@ + ty
                + "` has no primary key: mark exactly one field with `#[mvcc(primary_key)]`"@,
        }
    }

    /// The compiler error to report for a type named `ty`.
    pub fn message(self, ty: &str) -> (m: String)
        ensures
            m@ == self.text(ty@),
    {
        match self {
            Fault::Attribute(e) => e.message(),
            Fault::NotAStruct => "`Mvcc` can only be derived for structs".to_owned(),
            Fault::UnnamedFields => {
                "`Mvcc` requires a struct with named fields: index declarations refer to fields by name".to_owned()
            },
            Fault::SecondPrimaryKey => {
                "a second `#[mvcc(primary_key)]`: exactly one is allowed".to_owned()
            },
            Fault::NoPrimaryKey => {
                let mut m = "`".to_owned();
                m.append(ty);
                m.append(
                    "` has no primary key: mark exactly one field with `#[mvcc(primary_key)]`",
                );
                m
            },
        }
    }
}

/// Whether the attribute is one of this library's.
pub open spec fn is_ours(attribute: Attribute) -> bool {
    attribute.path is Some && attribute.path->Some_0@ == "mvcc"@
}

/// Whether the attribute is one of this library's.
fn ours(attribute: &Attribute) -> (r: bool)
    ensures
        r == is_ours(*attribute),
{
    match &attribute.path {
        Some(path) => same_text(path.as_str(), "mvcc"),
        None => false,
    }
}

/// What the first `n` attributes of a field ask for together, or which of them
/// is wrong.
pub open spec fn field_opts(attributes: Seq<Attribute>, n: int) -> Result<
    FieldOpts,
    (usize, AttributeError),
>
    decreases n,
{
    if n <= 0 {
        Ok(FieldOpts::plain())
    } else {
        match field_opts(attributes, n - 1) {
            Err(e) => Err(e),
            Ok(opts) => if is_ours(attributes[n - 1]) {
                match with_field_attribute(attributes[n - 1].arguments, opts) {
                    Ok(more) => Ok(more),
                    Err(e) => Err(((n - 1) as usize, e)),
                }
            } else {
                Ok(opts)
            },
        }
    }
}

/// Read what the attributes of a field ask for.
pub fn parse_field_opts(field: &Field) -> (r: Result<FieldOpts, (usize, AttributeError)>)
    ensures
        r == field_opts(field.attributes@, field.attributes@.len() as int),
{
    let mut opts = FieldOpts::default();
    let mut i: usize = 0;
    while i < field.attributes.len()
        invariant
            i <= field.attributes@.len(),
            field_opts(field.attributes@, i as int) == Ok::<FieldOpts, (usize, AttributeError)>(
                opts,
            ),
        decreases field.attributes@.len() - i,
    {
        if ours(&field.attributes[i]) {
            match read_field_attribute(&field.attributes[i].arguments, opts) {
                Ok(more) => {
                    opts = more;
                },
                Err(e) => {
                    proof {
                        lemma_field_opts_stop(
                            field.attributes@,
                            i + 1,
                            field.attributes@.len() as int,
                        );
                    }
                    return Err((i, e));
                },
            }
        }
        i = i + 1;
    }
    Ok(opts)
}

/// The first attribute that is wrong decides.
proof fn lemma_field_opts_stop(attributes: Seq<Attribute>, n: int, m: int)
    requires
        n <= m,
        field_opts(attributes, n) is Err,
    ensures
        field_opts(attributes, m) == field_opts(attributes, n),
    decreases m - n,
{
    if n < m {
        lemma_field_opts_stop(attributes, n, m - 1);
    }
}

/// The table name after the first `n` attributes of a struct named `ty`, or
/// which of them is wrong.
pub open spec fn table_name(attributes: Seq<Attribute>, ty: Seq<char>, n: int) -> Result<
    Seq<char>,
    (usize, AttributeError),
>
    decreases n,
{
    if n <= 0 {
        Ok(ty)
    } else {
        match table_name(attributes, ty, n - 1) {
            Err(e) => Err(e),
            Ok(name) => if is_ours(attributes[n - 1]) {
                match with_struct_attribute(attributes[n - 1].arguments, name) {
                    Ok(name) => Ok(name),
                    Err(e) => Err(((n - 1) as usize, e)),
                }
            } else {
                Ok(name)
            },
        }
    }
}

proof fn lemma_table_name_stop(attributes: Seq<Attribute>, ty: Seq<char>, n: int, m: int)
    requires
        n <= m,
        table_name(attributes, ty, n) is Err,
    ensures
        table_name(attributes, ty, m) == table_name(attributes, ty, n),
    decreases m - n,
{
    if n < m {
        lemma_table_name_stop(attributes, ty, n, m - 1);
    }
}

/// Read the table name off the attributes of a struct.
fn parse_table_name(declaration: &Declaration) -> (r: Result<String, (usize, AttributeError)>)
    ensures
        ({
            let read = table_name(
                declaration.attributes@,
                declaration.name@,
                declaration.attributes@.len() as int,
            );
            match r {
                Ok(name) => read == Ok::<Seq<char>, (usize, AttributeError)>(name@),
                Err(e) => read == Err::<Seq<char>, (usize, AttributeError)>(e),
            }
        }),
{
    let attributes = &declaration.attributes;
    let mut name: String = declaration.name.as_str().to_owned();
    let mut i: usize = 0;
    while i < attributes.len()
        invariant
            i <= attributes@.len(),
            attributes@ == declaration.attributes@,
            table_name(attributes@, declaration.name@, i as int) == Ok::<
                Seq<char>,
                (usize, AttributeError),
            >(name@),
        decreases attributes@.len() - i,
    {
        if ours(&attributes[i]) {
            match read_struct_attribute(&attributes[i].arguments, name) {
                Ok(given) => {
                    name = given;
                },
                Err(e) => {
                    proof {
                        lemma_table_name_stop(
                            attributes@,
                            declaration.name@,
                            i + 1,
                            attributes@.len() as int,
                        );
                    }
                    return Err((i, e));
                },
            }
        }
        i = i + 1;
    }
    Ok(name)
}

/// The roles of a struct's fields.
#[verifier::ext_equal]
pub struct Roles {
    /// The field that is the primary key.
    pub key: Option<int>,
    /// The indexed fields in order, each with whether its index is unique.
    pub indexes: Seq<(int, bool)>,
}

/// The roles of the first `n` fields, or what is wrong with one of them.
pub open spec fn roles(fields: Seq<Field>, n: int) -> Result<Roles, Failure>
    decreases n,
{
    if n <= 0 {
        Ok(Roles { key: None, indexes: Seq::empty() })
    } else {
        let field = fields[n - 1];
        match roles(fields, n - 1) {
            Err(e) => Err(e),
            Ok(before) => match field_opts(field.attributes@, field.attributes@.len() as int) {
                Err((a, e)) => Err(
                    Failure {
                        place: Place::FieldAttribute((n - 1) as usize, a),
                        fault: Fault::Attribute(e),
                    },
                ),
                Ok(opts) => if opts.primary_key && before.key is Some {
                    Err(
                        Failure {
                            place: Place::Field((n - 1) as usize),
                            fault: Fault::SecondPrimaryKey,
                        },
                    )
                } else {
                    Ok(
                        Roles {
                            key: if opts.primary_key {
                                Some(n - 1)
                            } else {
                                before.key
                            },
                            indexes: if opts.index {
                                before.indexes.push((n - 1, opts.unique))
                            } else {
                                before.indexes
                            },
                        },
                    )
                },
            },
        }
    }
}

proof fn lemma_roles_stop(fields: Seq<Field>, n: int, m: int)
    requires
        n <= m,
        roles(fields, n) is Err,
    ensures
        roles(fields, m) == roles(fields, n),
    decreases m - n,
{
    if n < m {
        lemma_roles_stop(fields, n, m - 1);
    }
}

/// The name of the table and the roles of the fields, or why there are none.
///
/// Attributes of the struct are read first, then its shape is looked at, then
/// its fields in order. The first thing that is wrong decides.
pub open spec fn derived(declaration: Declaration) -> Result<(Seq<char>, Roles), Failure> {
    match table_name(
        declaration.attributes@,
        declaration.name@,
        declaration.attributes@.len() as int,
    ) {
        Err((a, e)) => Err(Failure { place: Place::Attribute(a), fault: Fault::Attribute(e) }),
        Ok(table) => match declaration.shape {
            Shape::NotAStruct => Err(Failure { place: Place::Whole, fault: Fault::NotAStruct }),
            Shape::Unnamed => Err(Failure { place: Place::Whole, fault: Fault::UnnamedFields }),
            Shape::Named(fields) => match roles(fields@, fields@.len() as int) {
                Err(e) => Err(e),
                Ok(roles) => if roles.key is None {
                    Err(Failure { place: Place::Whole, fault: Fault::NoPrimaryKey })
                } else {
                    Ok((table, roles))
                },
            },
        },
    }
}

/// A text in upper case.
pub uninterp spec fn upper_case(text: Seq<char>) -> Seq<char>;

/// `str::to_uppercase`: the text in upper case, a function of the text alone.
/// Which letters change, and into what, is Unicode's and is left unsaid.
#[verifier::external_body]
fn to_upper_case(text: &str) -> (upper: String)
    ensures
        upper@ == upper_case(text@),
{
    text.to_uppercase()
}

/// One index of a derived table.
#[derive(Debug)]
pub struct IndexPlan {
    /// The position of the indexed field.
    pub field: usize,
    /// The index is named after its field.
    pub name: String,
    /// The constant that scans name the index by: the field in upper case.
    pub constant: String,
    /// The documentation of the constant.
    pub doc: String,
    pub unique: bool,
}

impl IndexPlan {
    /// The plan of an index on the field `field` called `name`, scanned by
    /// `constant`.
    pub open spec fn is(
        self,
        field: int,
        name: Seq<char>,
        constant: Seq<char>,
        unique: bool,
    ) -> bool {
        &&& self.field == field
        &&& self.name@ == name
        &&& self.constant@ == constant
        &&& self.doc@ == "The `"@ + name + "` secondary index. See [`Index`](::mvcc::Index)."@
        &&& self.unique == unique
    }

    /// Describe the index on the field `field` called `name`, given the name of
    /// its constant.
    pub fn new(field: usize, name: &str, constant: String, unique: bool) -> (p: Self)
        ensures
            p.is(field as int, name@, constant@, unique),
    {
        let mut doc = "The `".to_owned();
        doc.append(name);
        doc.append("` secondary index. See [`Index`](::mvcc::Index).");
        IndexPlan { field, name: name.to_owned(), constant, doc, unique }
    }
}

/// What the implementation for a record type is made of.
#[derive(Debug)]
pub struct Expansion {
    /// The table's name.
    pub table: String,
    /// The position of the field that is the primary key.
    pub key: usize,
    /// The indexes, in the order of their fields.
    pub indexes: Vec<IndexPlan>,
}

impl Expansion {
    /// The expansion holds what was derived of `fields`.
    pub open spec fn holds(self, fields: Seq<Field>, table: Seq<char>, roles: Roles) -> bool {
        &&& self.table@ == table
        &&& roles.key == Some(self.key as int)
        &&& self.indexes@.len() == roles.indexes.len()
        &&& forall|i: int|
            0 <= i < roles.indexes.len() ==> {
                let (field, unique) = roles.indexes[i];
                (#[trigger] self.indexes@[i]).is(
                    field,
                    fields[field].name@,
                    upper_case(fields[field].name@),
                    unique,
                )
            }
    }
}

/// Work out what the implementation for a declared record type is made of.
pub fn expand(declaration: &Declaration) -> (r: Result<Expansion, Failure>)
    ensures
        match derived(*declaration) {
            Err(failure) => r == Err::<Expansion, Failure>(failure),
            Ok((table, roles)) => r is Ok && r->Ok_0.holds(
                declaration.shape->Named_0@,
                table,
                roles,
            ),
        },
{
    let table: String = match parse_table_name(declaration) {
        Ok(name) => name,
        Err((a, e)) => {
            return Err(Failure { place: Place::Attribute(a), fault: Fault::Attribute(e) });
        },
    };
    let fields: &Vec<Field> = match &declaration.shape {
        Shape::Named(fields) => fields,
        Shape::Unnamed => {
            return Err(Failure { place: Place::Whole, fault: Fault::UnnamedFields });
        },
        Shape::NotAStruct => {
            return Err(Failure { place: Place::Whole, fault: Fault::NotAStruct });
        },
    };
    let mut key: Option<usize> = None;
    let mut indexes: Vec<IndexPlan> = Vec::new();
    let mut i: usize = 0;
    while i < fields.len()
        invariant
            i <= fields@.len(),
            declaration.shape == Shape::Named(*fields),
            table_name(
                declaration.attributes@,
                declaration.name@,
                declaration.attributes@.len() as int,
            ) == Ok::<Seq<char>, (usize, AttributeError)>(table@),
            ({
                let found = roles(fields@, i as int);
                &&& found is Ok
                &&& found->Ok_0.key == match key {
                    Some(k) => Some(k as int),
                    None => None,
                }
                &&& found->Ok_0.indexes.len() == indexes@.len()
                &&& forall|j: int|
                    0 <= j < indexes@.len() ==> {
                        let (field, unique) = found->Ok_0.indexes[j];
                        (#[trigger] indexes@[j]).is(
                            field,
                            fields@[field].name@,
                            upper_case(fields@[field].name@),
                            unique,
                        )
                    }
            }),
        decreases fields@.len() - i,
    {
        let field = &fields[i];
        let opts = match parse_field_opts(field) {
            Ok(opts) => opts,
            Err((a, e)) => {
                proof {
                    lemma_roles_stop(fields@, i + 1, fields@.len() as int);
                }
                return Err(
                    Failure { place: Place::FieldAttribute(i, a), fault: Fault::Attribute(e) },
                );
            },
        };
        if opts.primary_key {
            if key.is_some() {
                proof {
                    lemma_roles_stop(fields@, i + 1, fields@.len() as int);
                }
                return Err(Failure { place: Place::Field(i), fault: Fault::SecondPrimaryKey });
            }
            key = Some(i);
        }
        if opts.index {
            let constant = to_upper_case(field.name.as_str());
            indexes.push(IndexPlan::new(i, field.name.as_str(), constant, opts.unique));
        }
        i = i + 1;
    }
    match key {
        Some(key) => Ok(Expansion { table, key, indexes }),
        None => Err(Failure { place: Place::Whole, fault: Fault::NoPrimaryKey }),
    }
}

/// The attributes of the field can be read.
pub open spec fn readable(field: Field) -> bool {
    field_opts(field.attributes@, field.attributes@.len() as int) is Ok
}

/// What the attributes of the field ask for.
pub open spec fn asked(field: Field) -> FieldOpts {
    field_opts(field.attributes@, field.attributes@.len() as int)->Ok_0
}

/// `roles` are those of the first `n` fields: `key` is the only primary key, and
/// `indexes` lists the indexed fields, each once and in order.
pub open spec fn fits(fields: Seq<Field>, n: int, roles: Roles) -> bool {
    &&& forall|i: int| 0 <= i < n ==> readable(#[trigger] fields[i])
    &&& forall|i: int|
        0 <= i < n ==> (asked(#[trigger] fields[i]).primary_key <==> roles.key == Some(i))
    &&& roles.key matches Some(k) ==> 0 <= k < n
    &&& forall|i: int, j: int|
        0 <= i < j < roles.indexes.len() ==> (#[trigger] roles.indexes[i]).0 < (
        #[trigger] roles.indexes[j]).0
    &&& forall|j: int|
        0 <= j < roles.indexes.len() ==> {
            let (i, unique) = #[trigger] roles.indexes[j];
            0 <= i < n && asked(fields[i]).index && asked(fields[i]).unique == unique
        }
    &&& forall|i: int|
        0 <= i < n && asked(#[trigger] fields[i]).index ==> roles.indexes.contains(
            (i, asked(fields[i]).unique),
        )
}

pub proof fn lemma_roles_fit(fields: Seq<Field>, n: int)
    requires
        0 <= n <= fields.len(),
        roles(fields, n) is Ok,
    ensures
        fits(fields, n, roles(fields, n)->Ok_0),
    decreases n,
{
    if n > 0 {
        lemma_roles_fit(fields, n - 1);
        let before = roles(fields, n - 1)->Ok_0;
        let after = roles(fields, n)->Ok_0;
        let opts = asked(fields[n - 1]);
        assert forall|i: int| 0 <= i < n && asked(#[trigger] fields[i]).index implies after.indexes.contains(
            (i, asked(fields[i]).unique),
        ) by {
            if i < n - 1 {
                let pair = (i, asked(fields[i]).unique);
                let j = choose|j: int| 0 <= j < before.indexes.len() && before.indexes[j] == pair;
                assert(after.indexes[j] == pair);
            } else {
                assert(after.indexes.last() == (i, opts.unique));
            }
        }
    }
}

proof fn lemma_roles_found(fields: Seq<Field>, n: int)
    requires
        0 <= n <= fields.len(),
        forall|i: int| 0 <= i < n ==> readable(#[trigger] fields[i]),
        forall|i: int, j: int|
            0 <= i < j < n ==> !(asked(#[trigger] fields[i]).primary_key && asked(
                #[trigger] fields[j],
            ).primary_key),
    ensures
        roles(fields, n) is Ok,
    decreases n,
{
    if n > 0 {
        lemma_roles_found(fields, n - 1);
        lemma_roles_fit(fields, n - 1);
        let before = roles(fields, n - 1)->Ok_0;
        if before.key is Some {
            assert(asked(fields[before.key->Some_0]).primary_key);
        }
        assert(readable(fields[n - 1]));
    }
}

/// A table has exactly one primary key. Something is derived for a struct whose
/// attributes can be read if and only if exactly one of its fields is marked as
/// the primary key, and that field is the key.
pub proof fn law_exactly_one_primary_key(declaration: Declaration)
    requires
        declaration.shape is Named,
        table_name(
            declaration.attributes@,
            declaration.name@,
            declaration.attributes@.len() as int,
        ) is Ok,
        forall|i: int|
            0 <= i < declaration.shape->Named_0@.len() ==> readable(
                #[trigger] declaration.shape->Named_0@[i],
            ),
    ensures
        forall|k: int|
            0 <= k < declaration.shape->Named_0@.len() ==> {
                (derived(declaration) is Ok && derived(declaration)->Ok_0.1.key == Some(k))
                    <==> (forall|i: int|
                    0 <= i < declaration.shape->Named_0@.len() ==> (asked(
                        #[trigger] declaration.shape->Named_0@[i],
                    ).primary_key <==> i == k))
            },
        derived(declaration) is Ok ==> exists|k: int|
            0 <= k < declaration.shape->Named_0@.len() && derived(declaration)->Ok_0.1.key == Some(
                k,
            ),
{
    let fields = declaration.shape->Named_0@;
    let n = fields.len() as int;
    if roles(fields, n) is Ok {
        lemma_roles_fit(fields, n);
    }
    assert forall|k: int| 0 <= k < n implies {
        (derived(declaration) is Ok && derived(declaration)->Ok_0.1.key == Some(k)) <==> (forall|
            i: int,
        |
            0 <= i < n ==> (asked(#[trigger] fields[i]).primary_key <==> i == k))
    } by {
        if forall|i: int| 0 <= i < n ==> (asked(#[trigger] fields[i]).primary_key <==> i == k) {
            lemma_roles_found(fields, n);
            lemma_roles_fit(fields, n);
            assert(asked(fields[k]).primary_key);
        }
    }
    if derived(declaration) is Ok {
        let k = derived(declaration)->Ok_0.1.key->Some_0;
        assert(0 <= k < n);
    }
}

/// A table has one index for each field that asks for one, in the order of the
/// fields, unique where the field says so.
pub proof fn law_indexes_follow_the_fields(declaration: Declaration)
    requires
        derived(declaration) is Ok,
    ensures
        fits(
            declaration.shape->Named_0@,
            declaration.shape->Named_0@.len() as int,
            derived(declaration)->Ok_0.1,
        ),
{
    let fields = declaration.shape->Named_0@;
    lemma_roles_fit(fields, fields.len() as int);
}

} // verus!
