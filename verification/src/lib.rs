//! The GraphQL schema content contract.
//!
//! Two claims: well-formedness is a given, and conformance is a given once
//! a schema is named.
//!
//! Well-formed here is a *sound document*, the GraphQL grammar: it lexes,
//! every definition is one the language has, every selection set and body
//! closes and is not empty. That holds for an executable document — a
//! request's operations and fragments — and for a schema written in the
//! definition language alike.
//!
//! Conformance is the *schema*: a contract bound to a schema holds every
//! operation to it at the root — the operation's root type exists, and
//! every field it selects there is a field of that type — and every
//! fragment's type condition is a type the schema defines.

pub mod document;
pub mod joined;
pub mod keyed;
pub mod lexer;
pub mod text;
pub mod type_system;
pub mod validation;

use vstd::prelude::*;
use crate::document::{Definition, DefinitionView, parse, spec_parse};
use crate::keyed::{as_map, find_key, insert_entry, keys_distinct};
use crate::text::{
    alphanumeric, chars_of, contains_text, copy_texts, decimal, decimal_string, eq_ignore_ascii_case,
    eq_ignore_ascii_case_exec, first_segment, first_segment_exec, is_alphanumeric_char,
    is_reserved_name, joined, lemma_space_end, reserved_name, space_end_exec, trim, trim_start,
    trimmed, utf8_error_text, utf8_text,
};
use crate::validation::{
    ContractDescriptor, ContractError, ContractId, IssueView, Stream, ValidationIssue,
    ValidationResult, ValidationView,
};
use vstd::utf8::{decode_utf8, valid_utf8};

verus! {

/// What a bound schema knows: its root operation types and the fields of
/// every type, `extend`s merged in.
#[derive(Debug)]
pub struct Schema {
    roots: Vec<(String, String)>,
    types: Vec<(String, Vec<String>)>,
}

/// What a [`Schema`] holds: the root type of each operation kind, and the
/// fields of each type.
pub struct SchemaView {
    pub roots: Map<Seq<char>, Seq<char>>,
    pub types: Map<Seq<char>, Seq<Seq<char>>>,
}

impl View for Schema {
    type V = SchemaView;

    closed spec fn view(&self) -> SchemaView {
        SchemaView { roots: as_map(self.roots.deep_view()), types: as_map(self.types.deep_view()) }
    }
}

/// The root types a schema has before it names any.
pub open spec fn default_roots() -> Map<Seq<char>, Seq<char>> {
    Map::empty().insert("query"@, "Query"@).insert("mutation"@, "Mutation"@).insert(
        "subscription"@,
        "Subscription"@,
    )
}

/// `m` with the roots `rs` set, in order.
pub open spec fn with_roots(m: Map<Seq<char>, Seq<char>>, rs: Seq<(Seq<char>, Seq<char>)>) -> Map<
    Seq<char>,
    Seq<char>,
>
    decreases rs.len(),
{
    if rs.len() == 0 {
        m
    } else {
        with_roots(m, rs.drop_last()).insert(rs.last().0, rs.last().1)
    }
}

/// The fields `s` knows of the type `name`: none where it knows no such type.
pub open spec fn known_fields(s: SchemaView, name: Seq<char>) -> Seq<Seq<char>> {
    if s.types.contains_key(name) {
        s.types[name]
    } else {
        seq![]
    }
}

/// What a schema knows after one more definition: a schema definition
/// sets roots, a type definition or extension adds fields to its type.
pub open spec fn read_definition(s: SchemaView, d: DefinitionView) -> SchemaView {
    match d {
        DefinitionView::Schema { roots } => SchemaView {
            roots: with_roots(s.roots, roots),
            types: s.types,
        },
        DefinitionView::Type { name, fields, .. } => SchemaView {
            roots: s.roots,
            types: s.types.insert(name, known_fields(s, name) + fields),
        },
        _ => s,
    }
}

/// What a schema of these definitions knows.
pub open spec fn read_definitions(defs: Seq<DefinitionView>) -> SchemaView
    decreases defs.len(),
{
    if defs.len() == 0 {
        SchemaView { roots: default_roots(), types: Map::empty() }
    } else {
        read_definition(read_definitions(defs.drop_last()), defs.last())
    }
}

pub open spec fn defines_a_type(defs: Seq<DefinitionView>) -> bool {
    exists|i: int| 0 <= i < defs.len() && #[trigger] defs[i] is Type
}

/// The schema `text` defines, or why it is none.
pub open spec fn schema_of_text(text: Seq<char>) -> Result<SchemaView, Seq<char>> {
    match spec_parse(text) {
        Err(e) => Err(e),
        Ok(defs) => if defines_a_type(defs) {
            Ok(read_definitions(defs))
        } else {
            Err("a schema that defines no type"@)
        },
    }
}

fn copy_roots(v: &Vec<(String, String)>) -> (r: Vec<(String, String)>)
    ensures
        r.deep_view() == v.deep_view(),
{
    let mut r: Vec<(String, String)> = Vec::new();
    let mut i: usize = 0;
    while i < v.len()
        invariant
            i <= v@.len(),
            r.deep_view() =~= v.deep_view().take(i as int),
        decreases v@.len() - i,
    {
        let ghost before = r.deep_view();
        r.push((v[i].0.clone(), v[i].1.clone()));
        assert(r.deep_view() =~= before.push(v.deep_view()[i as int]));
        assert(v.deep_view().take(i + 1) =~= v.deep_view().take(i as int).push(v.deep_view()[i as int]));
        i += 1;
    }
    assert(v.deep_view().take(v@.len() as int) =~= v.deep_view());
    r
}

fn copy_types(v: &Vec<(String, Vec<String>)>) -> (r: Vec<(String, Vec<String>)>)
    ensures
        r.deep_view() == v.deep_view(),
{
    let mut r: Vec<(String, Vec<String>)> = Vec::new();
    let mut i: usize = 0;
    while i < v.len()
        invariant
            i <= v@.len(),
            r.deep_view() =~= v.deep_view().take(i as int),
        decreases v@.len() - i,
    {
        let ghost before = r.deep_view();
        r.push((v[i].0.clone(), copy_texts(&v[i].1)));
        assert(r.deep_view() =~= before.push(v.deep_view()[i as int]));
        assert(v.deep_view().take(i + 1) =~= v.deep_view().take(i as int).push(v.deep_view()[i as int]));
        i += 1;
    }
    assert(v.deep_view().take(v@.len() as int) =~= v.deep_view());
    r
}

impl Clone for Schema {
    fn clone(&self) -> (r: Self)
        ensures
            r@ == self@,
    {
        proof {
            use_type_invariant(self);
        }
        Schema { roots: copy_roots(&self.roots), types: copy_types(&self.types) }
    }
}

impl Default for Schema {
    /// A schema that knows no root and no type.
    fn default() -> (r: Self)
        ensures
            r@ == (SchemaView { roots: Map::empty(), types: Map::empty() }),
    {
        let roots: Vec<(String, String)> = Vec::new();
        let types: Vec<(String, Vec<String>)> = Vec::new();
        assert(roots.deep_view() =~= seq![]);
        assert(types.deep_view() =~= seq![]);
        assert(as_map(roots.deep_view()) =~= Map::empty());
        assert(as_map(types.deep_view()) =~= Map::empty());
        Schema { roots, types }
    }
}

impl Schema {
    #[verifier::type_invariant]
    closed spec fn wf(&self) -> bool {
        keys_distinct(self.roots.deep_view()) && keys_distinct(self.types.deep_view())
    }

    /// Read `text` as a schema in the definition language.
    ///
    /// # Errors
    /// Not a sound document, or one with no type in it.
    pub fn parse(text: &str) -> (r: Result<Self, ContractError>)
        ensures
            match schema_of_text(text@) {
                Ok(s) => r matches Ok(x) && x@ == s,
                Err(e) => r matches Err(x) && x.message@ == e,
            },
    {
        let definitions = match parse(text) {
            Ok(d) => d,
            Err(message) => return Err(ContractError { message }),
        };
        let ghost defs = definitions.deep_view();
        let mut roots: Vec<(String, String)> = Vec::new();
        assert(roots.deep_view() =~= seq![]);
        insert_entry(&mut roots, String::from_str("query"), String::from_str("Query"));
        insert_entry(&mut roots, String::from_str("mutation"), String::from_str("Mutation"));
        insert_entry(
            &mut roots,
            String::from_str("subscription"),
            String::from_str("Subscription"),
        );
        let mut types: Vec<(String, Vec<String>)> = Vec::new();
        assert(types.deep_view() =~= seq![]);
        assert(as_map(types.deep_view()) =~= Map::empty());
        assert(as_map(roots.deep_view()) =~= default_roots());
        let mut i: usize = 0;
        while i < definitions.len()
            invariant
                defs == definitions.deep_view(),
                i <= defs.len(),
                keys_distinct(roots.deep_view()),
                keys_distinct(types.deep_view()),
                read_definitions(defs.take(i as int)) == (SchemaView {
                    roots: as_map(roots.deep_view()),
                    types: as_map(types.deep_view()),
                }),
                types@.len() == 0 <==> !defines_a_type(defs.take(i as int)),
            decreases defs.len() - i,
        {
            let ghost before = SchemaView {
                roots: as_map(roots.deep_view()),
                types: as_map(types.deep_view()),
            };
            assert(defs.take(i + 1).drop_last() =~= defs.take(i as int));
            match &definitions[i] {
                Definition::Schema { roots: named } => {
                    let mut j: usize = 0;
                    while j < named.len()
                        invariant
                            j <= named@.len(),
                            keys_distinct(roots.deep_view()),
                            as_map(roots.deep_view()) == with_roots(
                                before.roots,
                                named.deep_view().take(j as int),
                            ),
                        decreases named@.len() - j,
                    {
                        assert(named.deep_view().take(j + 1).drop_last() =~= named.deep_view().take(
                            j as int,
                        ));
                        insert_entry(&mut roots, named[j].0.clone(), named[j].1.clone());
                        j += 1;
                    }
                    assert(named.deep_view().take(named@.len() as int) =~= named.deep_view());
                },
                Definition::Type { name, fields, .. } => {
                    let mut current = match find_key(&types, name.as_str()) {
                        Some(k) => {
                            proof {
                                crate::keyed::lemma_as_map_lookup(types.deep_view(), name@);
                            }
                            copy_texts(&types[k].1)
                        },
                        None => {
                            proof {
                                crate::keyed::lemma_as_map_lookup(types.deep_view(), name@);
                            }
                            let none: Vec<String> = Vec::new();
                            assert(none.deep_view() =~= seq![]);
                            none
                        },
                    };
                    let ghost known = current.deep_view();
                    let more = copy_texts(fields);
                    let mut j: usize = 0;
                    while j < more.len()
                        invariant
                            j <= more@.len(),
                            current.deep_view() =~= known + more.deep_view().take(j as int),
                        decreases more@.len() - j,
                    {
                        let ghost was = current.deep_view();
                        current.push(more[j].clone());
                        assert(current.deep_view() =~= was.push(more[j as int]@));
                        j += 1;
                    }
                    assert(more.deep_view().take(more@.len() as int) =~= more.deep_view());
                    insert_entry(&mut types, name.clone(), current);
                    assert(defs.take(i + 1)[i as int] is Type);
                },
                _ => {},
            }
            assert(defs.take(i + 1) =~= defs.take(i as int).push(defs[i as int]));
            proof {
                if defines_a_type(defs.take(i as int)) {
                    let j = choose|j: int| 0 <= j < i && #[trigger] defs.take(i as int)[j] is Type;
                    assert(defs.take(i + 1)[j] is Type);
                }
                if defs[i as int] is Type {
                    assert(defs.take(i + 1)[i as int] is Type);
                }
            }
            i += 1;
        }
        assert(defs.take(defs.len() as int) =~= defs);
        if types.len() == 0 {
            return Err(ContractError { message: String::from_str("a schema that defines no type") });
        }
        Ok(Schema { roots, types })
    }
}


// ------------------------------------------------------------------ issues

/// An issue of conformance to the schema.
pub open spec fn schema_issue(message: Seq<char>, path: Seq<char>) -> IssueView {
    IssueView { code: "schema"@, message, path: Some(path) }
}

/// The issues of the root fields `fields` of an operation labelled `label`,
/// of the type `root` that has the fields `known`: one for every field the
/// type lacks, but for the reserved `__` names.
pub open spec fn field_issues(
    known: Seq<Seq<char>>,
    root: Seq<char>,
    fields: Seq<Seq<char>>,
    label: Seq<char>,
) -> Seq<IssueView>
    decreases fields.len(),
{
    if fields.len() == 0 {
        seq![]
    } else {
        let f = fields.last();
        field_issues(known, root, fields.drop_last(), label) + if !known.contains(f)
            && !is_reserved_name(f) {
            seq![schema_issue(root + " has no field "@ + f, label)]
        } else {
            seq![]
        }
    }
}

/// How an operation is named in an issue: its name, or its kind and its
/// place among the definitions, counted from 1.
pub open spec fn operation_label(kind: Seq<char>, name: Option<Seq<char>>, ordinal: nat) -> Seq<char> {
    match name {
        Some(n) => n,
        None => kind + " "@ + decimal(ordinal + 1),
    }
}

/// The root type `s` gives operations of `kind`; none where it names none.
pub open spec fn root_of(s: SchemaView, kind: Seq<char>) -> Seq<char> {
    if s.roots.contains_key(kind) {
        s.roots[kind]
    } else {
        seq![]
    }
}

/// Why the definition at `ordinal` does not fit `s` at the root.
pub open spec fn definition_issues(s: SchemaView, d: DefinitionView, ordinal: nat) -> Seq<IssueView> {
    match d {
        DefinitionView::Operation { kind, name, fields } => {
            let root = root_of(s, kind);
            let label = operation_label(kind, name, ordinal);
            if s.types.contains_key(root) {
                field_issues(s.types[root], root, fields, label)
            } else {
                seq![schema_issue("the schema has no "@ + kind + " root type"@, label)]
            }
        },
        DefinitionView::Fragment { name, on } => if s.types.contains_key(on) {
            seq![]
        } else {
            seq![schema_issue("the schema has no type "@ + on, "fragment "@ + name)]
        },
        _ => seq![],
    }
}

/// Why `defs` do not fit `s` at the root, definition by definition.
pub open spec fn issues_of(s: SchemaView, defs: Seq<DefinitionView>) -> Seq<IssueView>
    decreases defs.len(),
{
    if defs.len() == 0 {
        seq![]
    } else {
        issues_of(s, defs.drop_last()) + definition_issues(s, defs.last(), (defs.len() - 1) as nat)
    }
}

fn schema_issue_exec(message: String, path: String) -> (r: ValidationIssue)
    ensures
        r@ == schema_issue(message@, path@),
{
    ValidationIssue { code: String::from_str("schema"), message, path: Some(path) }
}

/// `a`, `b` and `c` one after the other.
fn joined3(a: &str, b: &str, c: &str) -> (r: String)
    ensures
        r@ == a@ + b@ + c@,
{
    let ab = joined(a, b);
    joined(ab.as_str(), c)
}

impl Schema {
    /// The root type of operations of `kind`; empty where the schema names none.
    fn root_type(&self, kind: &str) -> (r: String)
        ensures
            r@ == root_of(self@, kind@),
    {
        proof {
            use_type_invariant(self);
            crate::keyed::lemma_as_map_lookup(self.roots.deep_view(), kind@);
        }
        match find_key(&self.roots, kind) {
            Some(i) => self.roots[i].1.clone(),
            None => String::new(),
        }
    }

    /// The fields of the type `name`, if the schema defines it.
    fn type_fields(&self, name: &str) -> (r: Option<&Vec<String>>)
        ensures
            match r {
                Some(v) => self@.types.contains_key(name@) && v.deep_view() == self@.types[name@],
                None => !self@.types.contains_key(name@),
            },
    {
        proof {
            use_type_invariant(self);
            crate::keyed::lemma_as_map_lookup(self.types.deep_view(), name@);
        }
        match find_key(&self.types, name) {
            Some(i) => Some(&self.types[i].1),
            None => None,
        }
    }

    /// Why `definitions` do not fit this schema at the root.
    pub fn issues(&self, definitions: &Vec<Definition>) -> (r: Vec<ValidationIssue>)
        ensures
            r.deep_view() == issues_of(self@, definitions.deep_view()),
    {
        let ghost defs = definitions.deep_view();
        let mut issues: Vec<ValidationIssue> = Vec::new();
        assert(issues.deep_view() =~= seq![]);
        let mut ordinal: usize = 0;
        while ordinal < definitions.len()
            invariant
                defs == definitions.deep_view(),
                ordinal <= defs.len(),
                issues.deep_view() == issues_of(self@, defs.take(ordinal as int)),
            decreases defs.len() - ordinal,
        {
            let ghost before = issues.deep_view();
            assert(defs.take(ordinal + 1).drop_last() =~= defs.take(ordinal as int));
            match &definitions[ordinal] {
                Definition::Operation { kind, name, fields } => {
                    let root = self.root_type(kind.as_str());
                    let label = match name {
                        Some(n) => n.clone(),
                        None => {
                            let number = decimal_string(ordinal + 1);
                            joined3(kind.as_str(), " ", number.as_str())
                        },
                    };
                    match self.type_fields(root.as_str()) {
                        None => {
                            let message = joined3(
                                "the schema has no ",
                                kind.as_str(),
                                " root type",
                            );
                            issues.push(schema_issue_exec(message, label));
                        },
                        Some(known) => {
                            let ghost fs = fields.deep_view();
                            let mut j: usize = 0;
                            while j < fields.len()
                                invariant
                                    fs == fields.deep_view(),
                                    j <= fs.len(),
                                    issues.deep_view() == before + field_issues(
                                        known.deep_view(),
                                        root@,
                                        fs.take(j as int),
                                        label@,
                                    ),
                                decreases fs.len() - j,
                            {
                                assert(fs.take(j + 1).drop_last() =~= fs.take(j as int));
                                let field = fields[j].as_str();
                                let ghost was = issues.deep_view();
                                if !contains_text(known, field) && !reserved_name(field) {
                                    let message = joined3(root.as_str(), " has no field ", field);
                                    let issue = schema_issue_exec(message, label.clone());
                                    let ghost iv = issue@;
                                    issues.push(issue);
                                    assert(issues.deep_view() =~= was.push(iv));
                                } else {
                                    assert(was + seq![] =~= was);
                                }
                                j += 1;
                            }
                            assert(fs.take(fs.len() as int) =~= fs);
                        },
                    }
                },
                Definition::Fragment { name, on } => {
                    match self.type_fields(on.as_str()) {
                        Some(_) => {},
                        None => {
                            let message = joined("the schema has no type ", on.as_str());
                            let path = joined("fragment ", name.as_str());
                            issues.push(schema_issue_exec(message, path));
                        },
                    }
                },
                _ => {},
            }
            assert(issues.deep_view() =~= before + definition_issues(
                self@,
                defs[ordinal as int],
                ordinal as nat,
            ));
            ordinal += 1;
        }
        assert(defs.take(defs.len() as int) =~= defs);
        issues
    }
}

// ------------------------------------------------------------ the contract

/// What a [`GraphqlSchema`] holds: its descriptor's texts, and the schema
/// it is bound to, if any.
pub struct GraphqlSchemaView {
    pub id: Seq<char>,
    pub version: Seq<char>,
    pub representation: Seq<char>,
    pub schema: Option<SchemaView>,
}

/// The GraphQL contract, bare or bound to a schema.
pub struct GraphqlSchema {
    descriptor: ContractDescriptor,
    schema: Option<Schema>,
}

impl View for GraphqlSchema {
    type V = GraphqlSchemaView;

    closed spec fn view(&self) -> GraphqlSchemaView {
        GraphqlSchemaView {
            id: self.descriptor.id.0@,
            version: self.descriptor.version@,
            representation: self.descriptor.representation@,
            schema: match self.schema {
                Some(s) => Some(s@),
                None => None,
            },
        }
    }
}

/// The contract with the identifier `id`, bound to `schema` where there is
/// one.
pub open spec fn contract_view(id: Seq<char>, schema: Option<SchemaView>) -> GraphqlSchemaView {
    GraphqlSchemaView { id, version: "1"@, representation: "application/graphql"@, schema }
}

fn descriptor(id: String) -> (r: ContractDescriptor)
    ensures
        r.id.0@ == id@,
        r.version@ == "1"@,
        r.representation@ == "application/graphql"@,
{
    ContractDescriptor {
        id: ContractId(id),
        version: String::from_str("1"),
        representation: String::from_str("application/graphql"),
    }
}

/// A validation that refuses the content as malformed.
pub open spec fn malformed(message: Seq<char>) -> ValidationView {
    ValidationView {
        valid: false,
        issues: seq![IssueView { code: "malformed"@, message, path: None }],
    }
}

/// What a contract bound to `schema`, or bare, answers of `bytes`: not
/// text, not a sound document, or the issues of its definitions at the
/// root — valid exactly when there are none.
pub open spec fn validation_of(schema: Option<SchemaView>, bytes: Seq<u8>) -> ValidationView {
    if !valid_utf8(bytes) {
        malformed("not text: "@ + utf8_error_text(bytes))
    } else {
        match spec_parse(decode_utf8(bytes)) {
            Err(m) => malformed(m),
            Ok(defs) => {
                let issues = match schema {
                    Some(s) => issues_of(s, defs),
                    None => seq![],
                };
                ValidationView { valid: issues.len() == 0, issues }
            },
        }
    }
}

/// Whether a media type names GraphQL: `application/graphql`, in any case,
/// parameters after `;` and white space around it aside.
pub open spec fn is_graphql_media_type(m: Seq<char>) -> bool {
    eq_ignore_ascii_case(trim(first_segment(m)), "application/graphql"@)
}

/// Whether `head` begins with the word `word`, something not alphanumeric
/// after it.
pub open spec fn opens_with(head: Seq<char>, word: Seq<char>) -> bool {
    head.len() > word.len() && head.take(word.len() as int) == word && !is_alphanumeric_char(
        head[word.len() as int],
    )
}

/// Whether `head` begins the way a GraphQL document does: a selection set,
/// a block string, or a definition's keyword.
pub open spec fn opens_a_document(head: Seq<char>) -> bool {
    ||| head.len() > 0 && head[0] == '{'
    ||| head.len() >= 3 && head[0] == '"' && head[1] == '"' && head[2] == '"'
    ||| opens_with(head, "query"@)
    ||| opens_with(head, "mutation"@)
    ||| opens_with(head, "subscription"@)
    ||| opens_with(head, "fragment"@)
    ||| opens_with(head, "schema"@)
    ||| opens_with(head, "type"@)
    ||| opens_with(head, "interface"@)
    ||| opens_with(head, "input"@)
    ||| opens_with(head, "enum"@)
    ||| opens_with(head, "union"@)
    ||| opens_with(head, "scalar"@)
    ||| opens_with(head, "directive"@)
}

/// Whether content labelled `media_type` with these bytes is taken for
/// GraphQL: by its label, or by how its text begins.
pub open spec fn identifies(media_type: Option<Seq<char>>, bytes: Seq<u8>) -> bool {
    ||| media_type matches Some(m) && is_graphql_media_type(m)
    ||| valid_utf8(bytes) && opens_a_document(trim_start(decode_utf8(bytes)))
}

fn graphql_media_type(m: &str) -> (r: bool)
    ensures
        r == is_graphql_media_type(m@),
{
    let cs = chars_of(m);
    let segment = first_segment_exec(&cs);
    let bare = trimmed(&segment);
    let expected = chars_of("application/graphql");
    eq_ignore_ascii_case_exec(&bare, &expected)
}

/// Whether `cs[start..]` begins with `word`, something not alphanumeric
/// after it.
fn opens_with_exec(cs: &Vec<char>, start: usize, word: &str) -> (r: bool)
    requires
        start <= cs@.len(),
    ensures
        r == opens_with(cs@.skip(start as int), word@),
{
    let w = chars_of(word);
    let n = cs.len() - start;
    if n <= w.len() {
        return false;
    }
    let mut i: usize = 0;
    while i < w.len()
        invariant
            w@ == word@,
            start <= cs@.len() <= usize::MAX,
            n == cs@.len() - start,
            w@.len() < n,
            i <= w@.len(),
            forall|j: int| 0 <= j < i ==> #[trigger] cs@[start + j] == w@[j],
        decreases w@.len() - i,
    {
        if cs[start + i] != w[i] {
            assert(cs@.skip(start as int).take(w@.len() as int)[i as int] != w@[i as int]);
            return false;
        }
        i += 1;
    }
    assert forall|j: int| 0 <= j < w@.len() implies #[trigger] cs@.skip(start as int).take(
        w@.len() as int,
    )[j] == w@[j] by {
        assert(cs@[start + j] == w@[j]);
    }
    assert(cs@.skip(start as int).take(w@.len() as int) =~= w@);
    !alphanumeric(cs[start + w.len()])
}

impl GraphqlSchema {
    /// A sound document, of any shape.
    pub fn new() -> (r: Self)
        ensures
            r@ == contract_view("graphql-schema"@, None),
    {
        GraphqlSchema { descriptor: descriptor(String::from_str("graphql-schema")), schema: None }
    }

    /// A sound document held to `schema` at the root.
    pub fn against(schema: Schema, name: &str) -> (r: Self)
        ensures
            r@ == contract_view("graphql-schema:"@ + name@, Some(schema@)),
    {
        GraphqlSchema {
            descriptor: descriptor(joined("graphql-schema:", name)),
            schema: Some(schema),
        }
    }

    /// Whether a schema is bound.
    pub fn is_bound(&self) -> (r: bool)
        ensures
            r == self@.schema is Some,
    {
        self.schema.is_some()
    }

    pub fn descriptor(&self) -> (r: &ContractDescriptor)
        ensures
            r.id.0@ == self@.id,
            r.version@ == self@.version,
            r.representation@ == self@.representation,
    {
        &self.descriptor
    }

    /// Whether `stream` is taken for GraphQL.
    pub fn identify(&self, stream: &Stream) -> (r: Result<bool, ContractError>)
        ensures
            r matches Ok(b) && b == identifies(stream.media_type_view(), stream.bytes_view()),
    {
        match stream.media_type() {
            Some(m) => {
                if graphql_media_type(m) {
                    return Ok(true);
                }
            },
            None => {},
        }
        let text = match utf8_text(stream.bytes()) {
            Ok(text) => text,
            Err(_) => return Ok(false),
        };
        let cs = chars_of(text.as_str());
        proof {
            lemma_space_end(cs@, 0);
        }
        let start = space_end_exec(&cs);
        let ghost head = cs@.skip(start as int);
        assert(head == trim_start(cs@));
        let braced = start < cs.len() && cs[start] == '{';
        let quoted = cs.len() - start >= 3 && cs[start] == '"' && cs[start + 1] == '"'
            && cs[start + 2] == '"';
        Ok(braced || quoted || opens_with_exec(&cs, start, "query") || opens_with_exec(
            &cs,
            start,
            "mutation",
        ) || opens_with_exec(&cs, start, "subscription") || opens_with_exec(&cs, start, "fragment")
            || opens_with_exec(&cs, start, "schema") || opens_with_exec(&cs, start, "type")
            || opens_with_exec(&cs, start, "interface") || opens_with_exec(&cs, start, "input")
            || opens_with_exec(&cs, start, "enum") || opens_with_exec(&cs, start, "union")
            || opens_with_exec(&cs, start, "scalar") || opens_with_exec(&cs, start, "directive"))
    }

    /// Whether `stream` holds: a sound document, and where a schema is
    /// bound, one that fits it at the root.
    pub fn validate(&self, stream: &Stream) -> (r: Result<ValidationResult, ContractError>)
        ensures
            r matches Ok(v) && v@ == validation_of(self@.schema, stream.bytes_view()),
    {
        let text = match utf8_text(stream.bytes()) {
            Ok(text) => text,
            Err(error) => {
                return Ok(malformed_exec(joined("not text: ", error.as_str())));
            },
        };
        let definitions = match parse(text.as_str()) {
            Ok(definitions) => definitions,
            Err(message) => return Ok(malformed_exec(message)),
        };
        let issues = match &self.schema {
            Some(schema) => schema.issues(&definitions),
            None => {
                let none: Vec<ValidationIssue> = Vec::new();
                assert(none.deep_view() =~= seq![]);
                none
            },
        };
        Ok(ValidationResult { valid: issues.len() == 0, issues })
    }
}

fn malformed_exec(message: String) -> (r: ValidationResult)
    ensures
        r@ == malformed(message@),
{
    let issue = ValidationIssue { code: String::from_str("malformed"), message, path: None };
    let ghost iv = issue@;
    let issues = vec![issue];
    assert(issues.deep_view() =~= seq![iv]);
    ValidationResult { valid: false, issues }
}

impl Default for GraphqlSchema {
    fn default() -> (r: Self)
        ensures
            r@ == contract_view("graphql-schema"@, None),
    {
        Self::new()
    }
}

/// Loads the contract a Location names: an empty reference is the bare
/// contract, anything else the path of a schema file in the definition
/// language.
pub struct GraphqlSchemaFactory;

impl GraphqlSchemaFactory {
    pub fn technology(&self) -> (r: &'static str)
        ensures
            r@ == "graphql-schema"@,
    {
        "graphql-schema"
    }

    /// The path of the schema file `reference` names, white space around
    /// it aside; none where it names none and the bare contract is meant.
    pub fn schema_path(&self, reference: &str) -> (r: Option<String>)
        ensures
            trim(reference@).len() == 0 ==> r is None,
            trim(reference@).len() > 0 ==> (r matches Some(p) && p@ == trim(reference@)),
    {
        let cs = chars_of(reference);
        let t = trimmed(&cs);
        if t.len() == 0 {
            None
        } else {
            Some(crate::text::string_of(&t, 0, t.len()))
        }
    }

    /// The contract bound to the schema read from `path`, given what reading
    /// the file gave: its text, or why it could not be read.
    pub fn load_read(&self, path: &str, read: Result<String, String>) -> (r: Result<
        GraphqlSchema,
        ContractError,
    >)
        ensures
            match read {
                Err(e) => r matches Err(x) && x.message@ == "cannot read schema "@ + path@ + ": "@
                    + e@,
                Ok(text) => match schema_of_text(text@) {
                    Err(e) => r matches Err(x) && x.message@ == e,
                    Ok(s) => r matches Ok(g) && g@ == contract_view(
                        "graphql-schema:"@ + path@,
                        Some(s),
                    ),
                },
            },
    {
        match read {
            Err(error) => {
                let head = joined3("cannot read schema ", path, ": ");
                Err(ContractError { message: joined(head.as_str(), error.as_str()) })
            },
            Ok(text) => match Schema::parse(text.as_str()) {
                Ok(schema) => Ok(GraphqlSchema::against(schema, path)),
                Err(e) => Err(e),
            },
        }
    }
}


// -------------------------------------------------------------------- laws

/// Whether the definition `d` fits `s` at the root: an operation's root
/// type exists and has every field it selects there, `__` names aside; a
/// fragment's type condition is a type `s` defines.
pub open spec fn definition_conforms(s: SchemaView, d: DefinitionView) -> bool {
    match d {
        DefinitionView::Operation { kind, fields, .. } => {
            &&& s.types.contains_key(root_of(s, kind))
            &&& forall|j: int|
                0 <= j < fields.len() ==> s.types[root_of(s, kind)].contains(#[trigger] fields[j])
                    || is_reserved_name(fields[j])
        },
        DefinitionView::Fragment { on, .. } => s.types.contains_key(on),
        _ => true,
    }
}

/// Whether every definition of `defs` fits `s` at the root.
pub open spec fn conforms(s: SchemaView, defs: Seq<DefinitionView>) -> bool {
    forall|i: int| 0 <= i < defs.len() ==> definition_conforms(s, #[trigger] defs[i])
}

proof fn lemma_field_issues_empty(
    known: Seq<Seq<char>>,
    root: Seq<char>,
    fields: Seq<Seq<char>>,
    label: Seq<char>,
)
    ensures
        field_issues(known, root, fields, label).len() == 0 <==> forall|j: int|
            0 <= j < fields.len() ==> known.contains(#[trigger] fields[j]) || is_reserved_name(
                fields[j],
            ),
    decreases fields.len(),
{
    if fields.len() > 0 {
        let d = fields.drop_last();
        lemma_field_issues_empty(known, root, d, label);
        if field_issues(known, root, fields, label).len() == 0 {
            assert forall|j: int| 0 <= j < fields.len() implies known.contains(
                #[trigger] fields[j],
            ) || is_reserved_name(fields[j]) by {
                if j < fields.len() - 1 {
                    assert(fields[j] == d[j]);
                }
            }
        }
        if forall|j: int|
            0 <= j < fields.len() ==> known.contains(#[trigger] fields[j]) || is_reserved_name(
                fields[j],
            ) {
            assert forall|j: int| 0 <= j < d.len() implies known.contains(#[trigger] d[j])
                || is_reserved_name(d[j]) by {
                assert(fields[j] == d[j]);
            }
            assert(known.contains(fields[fields.len() - 1]) || is_reserved_name(
                fields[fields.len() - 1],
            ));
        }
    }
}

/// A schema finds no issue with definitions exactly when every one of them
/// fits it at the root.
pub proof fn law_no_issue_exactly_when_conforming(s: SchemaView, defs: Seq<DefinitionView>)
    ensures
        issues_of(s, defs).len() == 0 <==> conforms(s, defs),
    decreases defs.len(),
{
    if defs.len() > 0 {
        let d = defs.drop_last();
        law_no_issue_exactly_when_conforming(s, d);
        let last = defs.last();
        match last {
            DefinitionView::Operation { kind, name, fields } => {
                lemma_field_issues_empty(
                    s.types[root_of(s, kind)],
                    root_of(s, kind),
                    fields,
                    operation_label(kind, name, (defs.len() - 1) as nat),
                );
            },
            _ => {},
        }
        assert(definition_issues(s, last, (defs.len() - 1) as nat).len() == 0 <==> definition_conforms(
            s,
            last,
        ));
        if conforms(s, defs) {
            assert forall|i: int| 0 <= i < d.len() implies definition_conforms(s, #[trigger] d[i]) by {
                assert(d[i] == defs[i]);
            }
            assert(definition_conforms(s, defs[defs.len() - 1]));
        }
        if conforms(s, d) && definition_conforms(s, last) {
            assert forall|i: int| 0 <= i < defs.len() implies definition_conforms(
                s,
                #[trigger] defs[i],
            ) by {
                if i < defs.len() - 1 {
                    assert(d[i] == defs[i]);
                }
            }
        }
    }
}

/// Every issue a schema finds is a conformance issue that names where it
/// stands.
pub proof fn law_every_issue_is_named(s: SchemaView, defs: Seq<DefinitionView>)
    ensures
        forall|i: int| 0 <= i < issues_of(s, defs).len() ==> {
            &&& (#[trigger] issues_of(s, defs)[i]).code == "schema"@
            &&& issues_of(s, defs)[i].path is Some
        },
    decreases defs.len(),
{
    if defs.len() > 0 {
        law_every_issue_is_named(s, defs.drop_last());
        let last = defs.last();
        match last {
            DefinitionView::Operation { kind, name, fields } => {
                lemma_field_issues_named(
                    s.types[root_of(s, kind)],
                    root_of(s, kind),
                    fields,
                    operation_label(kind, name, (defs.len() - 1) as nat),
                );
            },
            _ => {},
        }
    }
}

proof fn lemma_field_issues_named(
    known: Seq<Seq<char>>,
    root: Seq<char>,
    fields: Seq<Seq<char>>,
    label: Seq<char>,
)
    ensures
        forall|i: int| 0 <= i < field_issues(known, root, fields, label).len() ==> (
        #[trigger] field_issues(known, root, fields, label)[i]) == schema_issue(
            field_issues(known, root, fields, label)[i].message,
            label,
        ),
    decreases fields.len(),
{
    if fields.len() > 0 {
        lemma_field_issues_named(known, root, fields.drop_last(), label);
    }
}

/// Valid exactly when no issue is found; content refused as malformed is
/// answered with one issue that says why.
pub proof fn law_valid_exactly_without_issues(schema: Option<SchemaView>, bytes: Seq<u8>)
    ensures
        validation_of(schema, bytes).valid <==> validation_of(schema, bytes).issues.len() == 0,
        !valid_utf8(bytes) || spec_parse(decode_utf8(bytes)) is Err ==> {
            &&& validation_of(schema, bytes).issues.len() == 1
            &&& validation_of(schema, bytes).issues[0].code == "malformed"@
        },
{
}

/// Well-formedness is a given: the bare contract holds exactly the content
/// that is text and a sound document.
pub proof fn law_bare_contract_holds_sound_documents(bytes: Seq<u8>)
    ensures
        validation_of(None, bytes).valid <==> valid_utf8(bytes) && spec_parse(decode_utf8(bytes)) is Ok,
{
}

/// Conformance is a given once a schema is bound: the bound contract holds
/// exactly the sound documents whose every definition fits the schema at the
/// root.
pub proof fn law_bound_contract_holds_conforming_documents(s: SchemaView, bytes: Seq<u8>)
    ensures
        validation_of(Some(s), bytes).valid <==> valid_utf8(bytes) && (spec_parse(
            decode_utf8(bytes),
        ) matches Ok(defs) && conforms(s, defs)),
{
    if valid_utf8(bytes) {
        if let Ok(defs) = spec_parse(decode_utf8(bytes)) {
            law_no_issue_exactly_when_conforming(s, defs);
        }
    }
}

/// A bound contract holds only what the bare contract holds: conformance
/// comes on top of well-formedness.
pub proof fn law_bound_holds_only_sound_documents(s: SchemaView, bytes: Seq<u8>)
    ensures
        validation_of(Some(s), bytes).valid ==> validation_of(None, bytes).valid,
{
}

/// Text that begins — white space aside — with a keyword that begins a
/// definition, but `extend`, and something not alphanumeric after it, is
/// taken for GraphQL, whatever its label.
pub proof fn law_definition_keywords_identify(
    media_type: Option<Seq<char>>,
    bytes: Seq<u8>,
    kw: Seq<char>,
)
    requires
        crate::document::is_definition_keyword(kw),
        kw != "extend"@,
        valid_utf8(bytes),
        trim_start(decode_utf8(bytes)).len() > kw.len(),
        trim_start(decode_utf8(bytes)).take(kw.len() as int) == kw,
        !is_alphanumeric_char(trim_start(decode_utf8(bytes))[kw.len() as int]),
    ensures
        identifies(media_type, bytes),
{
    assert(opens_with(trim_start(decode_utf8(bytes)), kw));
}

/// Text that begins — white space aside — with a selection set or a block
/// string is taken for GraphQL, whatever its label.
pub proof fn law_selection_sets_and_descriptions_identify(media_type: Option<Seq<char>>, bytes: Seq<u8>)
    requires
        valid_utf8(bytes),
        trim_start(decode_utf8(bytes)).len() > 0 && trim_start(decode_utf8(bytes))[0] == '{'
            || trim_start(decode_utf8(bytes)).len() >= 3 && trim_start(decode_utf8(bytes)).take(3)
            =~= seq!['"', '"', '"'],
    ensures
        identifies(media_type, bytes),
{
    let head = trim_start(decode_utf8(bytes));
    if !(head.len() > 0 && head[0] == '{') {
        assert(head.take(3)[0] == '"' && head.take(3)[1] == '"' && head.take(3)[2] == '"');
    }
}

/// Content labelled with the GraphQL media type is taken for GraphQL,
/// whatever it holds.
pub proof fn law_graphql_media_type_identifies(m: Seq<char>, bytes: Seq<u8>)
    requires
        is_graphql_media_type(m),
    ensures
        identifies(Some(m), bytes),
{
}


/// The fields the definitions and extensions of the type `name` among
/// `defs` give, in order.
pub open spec fn fields_given(defs: Seq<DefinitionView>, name: Seq<char>) -> Seq<Seq<char>>
    decreases defs.len(),
{
    if defs.len() == 0 {
        seq![]
    } else {
        fields_given(defs.drop_last(), name) + match defs.last() {
            DefinitionView::Type { name: n, fields, .. } => if n == name {
                fields
            } else {
                seq![]
            },
            _ => seq![],
        }
    }
}

/// Whether a definition or extension of the type `name` stands among `defs`.
pub open spec fn defines_type(defs: Seq<DefinitionView>, name: Seq<char>) -> bool {
    exists|i: int| 0 <= i < defs.len() && (#[trigger] defs[i] matches DefinitionView::Type { name: n, .. } && n == name)
}

/// The roots the schema definitions among `defs` name, in order.
pub open spec fn roots_named(defs: Seq<DefinitionView>) -> Seq<(Seq<char>, Seq<char>)>
    decreases defs.len(),
{
    if defs.len() == 0 {
        seq![]
    } else {
        roots_named(defs.drop_last()) + match defs.last() {
            DefinitionView::Schema { roots } => roots,
            _ => seq![],
        }
    }
}

proof fn lemma_with_roots_append(
    m: Map<Seq<char>, Seq<char>>,
    a: Seq<(Seq<char>, Seq<char>)>,
    b: Seq<(Seq<char>, Seq<char>)>,
)
    ensures
        with_roots(m, a + b) == with_roots(with_roots(m, a), b),
    decreases b.len(),
{
    if b.len() == 0 {
        assert(a + b =~= a);
    } else {
        lemma_with_roots_append(m, a, b.drop_last());
        assert((a + b).drop_last() =~= a + b.drop_last());
    }
}

/// A schema knows a type exactly when the document defines or extends it,
/// and knows of it the fields of its definition and every extension, in
/// order: `extend`s are merged in.
pub proof fn law_schema_merges_extensions(defs: Seq<DefinitionView>, name: Seq<char>)
    ensures
        read_definitions(defs).types.contains_key(name) <==> defines_type(defs, name),
        read_definitions(defs).types.contains_key(name) ==> read_definitions(defs).types[name]
            == fields_given(defs, name),
    decreases defs.len(),
{
    if defs.len() > 0 {
        let d = defs.drop_last();
        law_schema_merges_extensions(d, name);
        if defines_type(d, name) {
            let i = choose|i: int| 0 <= i < d.len() && (#[trigger] d[i] matches DefinitionView::Type { name: n, .. } && n == name);
            assert(defs[i] == d[i]);
        }
        if defines_type(defs, name) && !(defs.last() matches DefinitionView::Type { name: n, .. } && n == name) {
            let i = choose|i: int| 0 <= i < defs.len() && (#[trigger] defs[i] matches DefinitionView::Type { name: n, .. } && n == name);
            assert(i < defs.len() - 1);
            assert(d[i] == defs[i]);
        }
        if defs.last() matches DefinitionView::Type { name: n, .. } && n == name {
            assert(defs[defs.len() - 1] == defs.last());
        }
        assert(fields_given(d, name) + seq![] =~= fields_given(d, name));
        if !defines_type(d, name) {
            assert(fields_given(d, name) =~= seq![]) by {
                lemma_fields_given_empty(d, name);
            }
        }
    }
}

proof fn lemma_fields_given_empty(defs: Seq<DefinitionView>, name: Seq<char>)
    requires
        !defines_type(defs, name),
    ensures
        fields_given(defs, name) == Seq::<Seq<char>>::empty(),
    decreases defs.len(),
{
    if defs.len() > 0 {
        let d = defs.drop_last();
        if defines_type(d, name) {
            let i = choose|i: int| 0 <= i < d.len() && (#[trigger] d[i] matches DefinitionView::Type { name: n, .. } && n == name);
            assert(defs[i] == d[i]);
        }
        lemma_fields_given_empty(d, name);
        assert(!(defs[defs.len() - 1] matches DefinitionView::Type { name: n, .. } && n == name));
        assert(fields_given(defs, name) =~= Seq::<Seq<char>>::empty());
    }
}

/// A schema's roots are the default ones, `query`, `mutation` and
/// `subscription` to `Query`, `Mutation` and `Subscription`, set over by
/// every root its schema definitions name, the later over the earlier.
pub proof fn law_schema_roots(defs: Seq<DefinitionView>)
    ensures
        read_definitions(defs).roots == with_roots(default_roots(), roots_named(defs)),
    decreases defs.len(),
{
    if defs.len() > 0 {
        let d = defs.drop_last();
        law_schema_roots(d);
        match defs.last() {
            DefinitionView::Schema { roots } => {
                lemma_with_roots_append(default_roots(), roots_named(d), roots);
            },
            _ => {
                assert(roots_named(d) + seq![] =~= roots_named(d));
            },
        }
    }
}

} // verus!
