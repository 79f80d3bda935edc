//! The TOML tables written into the scratch projects: each sub-project's `[dependencies]` and
//! the `[registries]` of its cargo configuration.
use vstd::prelude::*;
use crate::source::DependencySpec;

verus! {

#[verifier::external_type_specification]
#[verifier::external_body]
pub struct ExTable(toml_edit::Table);

#[verifier::external_type_specification]
#[verifier::external_body]
pub struct ExItem(toml_edit::Item);

#[verifier::external_type_specification]
#[verifier::external_body]
pub struct ExDocumentMut(toml_edit::DocumentMut);

#[verifier::external_type_specification]
#[verifier::external_body]
pub struct ExTomlError(toml_edit::TomlError);

/// What a TOML item holds, as far as these tables need it: a string, a boolean, a table with its
/// entries in order, or anything else.
pub enum TomlModel {
    Str(Seq<char>),
    Bool(bool),
    Table(Seq<(Seq<char>, TomlModel)>),
    Other,
}

/// The entries of a table, in order.
pub uninterp spec fn table_model(t: toml_edit::Table) -> Seq<(Seq<char>, TomlModel)>;

/// What an item holds.
pub uninterp spec fn item_model(i: toml_edit::Item) -> TomlModel;

/// The entries of a document's root table, in order.
pub uninterp spec fn document_model(d: toml_edit::DocumentMut) -> Seq<(Seq<char>, TomlModel)>;

/// The entries of the root table of the TOML document `text`.
pub uninterp spec fn parsed_model(text: Seq<char>) -> Seq<(Seq<char>, TomlModel)>;

/// Whether `text` is a TOML document.
pub uninterp spec fn toml_parses(text: Seq<char>) -> bool;

/// The keys of the entries `m`, in order.
pub open spec fn model_keys(m: Seq<(Seq<char>, TomlModel)>) -> Seq<Seq<char>> {
    m.map_values(|e: (Seq<char>, TomlModel)| e.0)
}

/// The entries `m` after setting `key` to `v`: a present key keeps its place and takes the new
/// value, a new key is appended.
pub open spec fn model_insert(m: Seq<(Seq<char>, TomlModel)>, key: Seq<char>, v: TomlModel) -> Seq<
    (Seq<char>, TomlModel),
> {
    if model_keys(m).contains(key) {
        m.update(model_keys(m).index_of(key), (key, v))
    } else {
        m.push((key, v))
    }
}

/// The entries `m` after setting each of `added` in order.
pub open spec fn inserted(m: Seq<(Seq<char>, TomlModel)>, added: Seq<(Seq<char>, TomlModel)>) -> Seq<
    (Seq<char>, TomlModel),
>
    decreases added.len(),
{
    if added.len() == 0 {
        m
    } else {
        let prev = inserted(m, added.drop_last());
        model_insert(prev, added.last().0, added.last().1)
    }
}

/// Setting entries with distinct keys in an empty table gives exactly those entries, in order.
pub proof fn lemma_inserted_distinct(added: Seq<(Seq<char>, TomlModel)>)
    requires
        model_keys(added).no_duplicates(),
    ensures
        inserted(Seq::empty(), added) == added,
    decreases added.len(),
{
    if added.len() > 0 {
        let prev = added.drop_last();
        assert(model_keys(prev) =~= model_keys(added).drop_last());
        lemma_inserted_distinct(prev);
        assert(!model_keys(prev).contains(added.last().0)) by {
            if model_keys(prev).contains(added.last().0) {
                let i = model_keys(prev).index_of(added.last().0);
                assert(model_keys(added)[i] == model_keys(added)[added.len() - 1]);
            }
        }
        assert(prev.push(added.last()) =~= added);
    }
}

/// Relies on toml_edit::Table::new: a new table has no entries.
#[verifier::external_body]
fn new_table() -> (r: toml_edit::Table)
    ensures
        table_model(r) == Seq::<(Seq<char>, TomlModel)>::empty(),
{
    toml_edit::Table::new()
}

/// Relies on toml_edit::value: the item holding the string `v`.
#[verifier::external_body]
fn string_item(v: &str) -> (r: toml_edit::Item)
    ensures
        item_model(r) == TomlModel::Str(v@),
{
    toml_edit::value(v)
}

/// Relies on toml_edit's `From<bool> for Value`: the value holding the boolean `v`, as an item.
#[verifier::external_body]
fn bool_item(v: bool) -> (r: toml_edit::Item)
    ensures
        item_model(r) == TomlModel::Bool(v),
{
    toml_edit::Item::Value(toml_edit::Value::from(v))
}

/// Relies on toml_edit's `From<Table> for Item`: the item holding the table.
#[verifier::external_body]
fn table_item(t: toml_edit::Table) -> (r: toml_edit::Item)
    ensures
        item_model(r) == TomlModel::Table(table_model(t)),
{
    toml_edit::Item::from(t)
}

/// Relies on toml_edit::Table::insert: a key already present keeps its place and takes the new
/// item, a new key is appended.
#[verifier::external_body]
fn insert_item(t: &mut toml_edit::Table, key: &str, item: toml_edit::Item)
    ensures
        table_model(*final(t)) == model_insert(table_model(*old(t)), key@, item_model(item)),
{
    t.insert(key, item);
}

/// Relies on toml_edit's `FromStr for DocumentMut`: it succeeds exactly on TOML documents, and
/// the document's root table is that of the text.
#[verifier::external_body]
fn parse_document(text: &str) -> (r: Result<toml_edit::DocumentMut, toml_edit::TomlError>)
    ensures
        r is Ok <==> toml_parses(text@),
        r matches Ok(d) ==> document_model(d) == parsed_model(text@),
{
    text.parse::<toml_edit::DocumentMut>()
}

/// Relies on toml_edit's `IndexMut<&str> for DocumentMut`: sets the root table's `key` to `item`,
/// in the place of what it held, or appended where it held nothing.
#[verifier::external_body]
fn set_root_item(doc: &mut toml_edit::DocumentMut, key: &str, item: toml_edit::Item)
    ensures
        document_model(*final(doc)) == model_insert(document_model(*old(doc)), key@, item_model(item)),
{
    doc[key] = item;
}

/// The entries set in the table of a dependency entry: each field as a string, then
/// `default-features`.
pub open spec fn entry_fields(spec: (Seq<(Seq<char>, Seq<char>)>, bool)) -> Seq<
    (Seq<char>, TomlModel),
> {
    spec.0.map_values(|f: (Seq<char>, Seq<char>)| (f.0, TomlModel::Str(f.1))).push(
        ("default-features"@, TomlModel::Bool(spec.1)),
    )
}

/// The table of a dependency entry.
pub open spec fn entry_model(spec: (Seq<(Seq<char>, Seq<char>)>, bool)) -> Seq<
    (Seq<char>, TomlModel),
> {
    inserted(Seq::empty(), entry_fields(spec))
}

/// The dependency table of `entries`: each entry's table under its name.
pub open spec fn dependencies_model(entries: Seq<(String, DependencySpec)>) -> Seq<
    (Seq<char>, TomlModel),
> {
    inserted(
        Seq::empty(),
        entries.map_values(|e: (String, DependencySpec)| (e.0@, TomlModel::Table(entry_model(e.1@)))),
    )
}

/// The `[registries]` table of the `(alias, endpoint)` pairs `registries`: under each alias, a
/// table whose `index` is the endpoint.
pub open spec fn registries_model(registries: Seq<(String, String)>) -> Seq<(Seq<char>, TomlModel)> {
    inserted(
        Seq::empty(),
        registries.map_values(
            |e: (String, String)| (e.0@, TomlModel::Table(seq![("index"@, TomlModel::Str(e.1@))])),
        ),
    )
}

/// Where the aliases are distinct, the `[registries]` table holds one entry per pair, in order:
/// under each alias a table whose one entry is `index` = the endpoint.
pub proof fn lemma_registries_distinct(registries: Seq<(String, String)>)
    requires
        registries.map_values(|e: (String, String)| e.0@).no_duplicates(),
    ensures
        registries_model(registries) == registries.map_values(
            |e: (String, String)| (e.0@, TomlModel::Table(seq![("index"@, TomlModel::Str(e.1@))])),
        ),
{
    let added = registries.map_values(
        |e: (String, String)| (e.0@, TomlModel::Table(seq![("index"@, TomlModel::Str(e.1@))])),
    );
    assert(model_keys(added) =~= registries.map_values(|e: (String, String)| e.0@));
    lemma_inserted_distinct(added);
}

/// The table of one dependency entry: each field as a string, and `default-features`.
pub fn dependency_table(spec: &DependencySpec) -> (r: toml_edit::Table)
    ensures
        table_model(r) == entry_model(spec@),
{
    let mut t = new_table();
    let mut i: usize = 0;
    let ghost added = entry_fields(spec@);
    while i < spec.fields.len()
        invariant
            i <= spec.fields@.len(),
            added == entry_fields(spec@),
            table_model(t) == inserted(Seq::empty(), added.take(i as int)),
        decreases spec.fields@.len() - i,
    {
        let (key, value) = &spec.fields[i];
        insert_item(&mut t, key.as_str(), string_item(value.as_str()));
        proof {
            assert(added.take(i + 1).drop_last() =~= added.take(i as int));
        }
        i = i + 1;
    }
    insert_item(&mut t, "default-features", bool_item(spec.default_features));
    proof {
        assert(added.drop_last() =~= added.take(i as int));
    }
    t
}

/// The dependency table of a manifest: one entry table under each name, in order.
pub fn dependencies_table(entries: &Vec<(String, DependencySpec)>) -> (r: toml_edit::Table)
    ensures
        table_model(r) == dependencies_model(entries@),
{
    let mut t = new_table();
    let ghost added = entries@.map_values(
        |e: (String, DependencySpec)| (e.0@, TomlModel::Table(entry_model(e.1@))),
    );
    let mut i: usize = 0;
    while i < entries.len()
        invariant
            i <= entries@.len(),
            added == entries@.map_values(
                |e: (String, DependencySpec)| (e.0@, TomlModel::Table(entry_model(e.1@))),
            ),
            table_model(t) == inserted(Seq::empty(), added.take(i as int)),
        decreases entries@.len() - i,
    {
        let (name, spec) = &entries[i];
        insert_item(&mut t, name.as_str(), table_item(dependency_table(spec)));
        proof {
            assert(added.take(i + 1).drop_last() =~= added.take(i as int));
        }
        i = i + 1;
    }
    assert(added.take(i as int) =~= added);
    t
}

/// Why a manifest could not be edited.
#[derive(Debug, PartialEq, Eq)]
pub enum ManifestError {
    /// The manifest is not a TOML document.
    InvalidToml,
}

/// The manifest `manifest` with its dependency table replaced by the table of `entries`, every
/// other top-level item kept, or `InvalidToml` where `manifest` is not TOML.
pub fn with_dependencies(manifest: &str, entries: &Vec<(String, DependencySpec)>) -> (r: Result<
    toml_edit::DocumentMut,
    ManifestError,
>)
    ensures
        r is Ok <==> toml_parses(manifest@),
        r matches Ok(doc) ==> document_model(doc) == model_insert(
            parsed_model(manifest@),
            "dependencies"@,
            TomlModel::Table(dependencies_model(entries@)),
        ),
        r matches Err(e) ==> e is InvalidToml,
{
    match parse_document(manifest) {
        Ok(mut doc) => {
            set_root_item(&mut doc, "dependencies", table_item(dependencies_table(entries)));
            Ok(doc)
        },
        Err(_) => Err(ManifestError::InvalidToml),
    }
}

/// The `[registries]` table of a cargo configuration: for each `(alias, endpoint)` pair, a table
/// under the alias whose `index` is the endpoint.
pub fn registries_table(registries: &Vec<(String, String)>) -> (r: toml_edit::Table)
    ensures
        table_model(r) == registries_model(registries@),
{
    let mut t = new_table();
    let ghost added = registries@.map_values(
        |e: (String, String)| (e.0@, TomlModel::Table(seq![("index"@, TomlModel::Str(e.1@))])),
    );
    let mut i: usize = 0;
    while i < registries.len()
        invariant
            i <= registries@.len(),
            added == registries@.map_values(
                |e: (String, String)| (e.0@, TomlModel::Table(seq![("index"@, TomlModel::Str(e.1@))])),
            ),
            table_model(t) == inserted(Seq::empty(), added.take(i as int)),
        decreases registries@.len() - i,
    {
        let (alias, endpoint) = &registries[i];
        let mut index = new_table();
        insert_item(&mut index, "index", string_item(endpoint.as_str()));
        proof {
            assert(model_insert(Seq::empty(), "index"@, TomlModel::Str(endpoint@)) =~= seq![
                ("index"@, TomlModel::Str(endpoint@)),
            ]);
        }
        insert_item(&mut t, alias.as_str(), table_item(index));
        proof {
            assert(added.take(i + 1).drop_last() =~= added.take(i as int));
        }
        i = i + 1;
    }
    assert(added.take(i as int) =~= added);
    t
}

/// The root table of a cargo configuration that holds only `[registries]`.
pub fn registries_config(registries: &Vec<(String, String)>) -> (r: toml_edit::Table)
    ensures
        table_model(r) == seq![("registries"@, TomlModel::Table(registries_model(registries@)))],
{
    let mut root = new_table();
    insert_item(&mut root, "registries", table_item(registries_table(registries)));
    assert(model_insert(
        Seq::empty(),
        "registries"@,
        TomlModel::Table(registries_model(registries@)),
    ) =~= seq![("registries"@, TomlModel::Table(registries_model(registries@)))]);
    root
}

} // verus!
