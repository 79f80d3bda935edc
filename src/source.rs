//! Translation of a package's source into the dependency entry that pins it in a manifest.
use vstd::prelude::*;
use crate::registry_aliases::{RegistryAliases, after_request, alias_in};

verus! {

/// The reference that a git source names.
#[derive(Debug, PartialEq, Eq)]
pub enum GitReference {
    Tag(String),
    Branch(String),
    Rev(String),
}

/// Where a package comes from.
#[derive(Debug, PartialEq, Eq)]
pub enum SourceDescriptor {
    /// A package index; `sparse` tells the sparse protocol from the git one.
    Registry { endpoint: String, sparse: bool },
    /// A git repository, with the commit that the lockfile pinned, if any.
    Git { repo: String, precise: Option<String>, reference: GitReference },
    /// A directory on the local disk.
    Path { uri: String },
    /// A kind of source that has no translation.
    Other { kind: String },
}

/// The manifest entry of one dependency: its fields in order, and whether default features are
/// enabled.
#[derive(Debug, PartialEq, Eq)]
pub struct DependencySpec {
    pub fields: Vec<(String, String)>,
    pub default_features: bool,
}

/// The views of a list of key/value pairs.
pub open spec fn pairs_view(s: Seq<(String, String)>) -> Seq<(Seq<char>, Seq<char>)> {
    s.map_values(|p: (String, String)| (p.0@, p.1@))
}

impl View for DependencySpec {
    type V = (Seq<(Seq<char>, Seq<char>)>, bool);

    open spec fn view(&self) -> (Seq<(Seq<char>, Seq<char>)>, bool) {
        (pairs_view(self.fields@), self.default_features)
    }
}

/// A translated source, with a flag that is false where the entry does not pin one commit.
#[derive(Debug, PartialEq, Eq)]
pub struct Translation {
    pub spec: DependencySpec,
    pub reproducible: bool,
}

/// Why a source could not be translated.
#[derive(Debug, PartialEq, Eq)]
pub enum TranslateError {
    UnsupportedSource { name: String, kind: String },
}

/// The key under which a registry is known: its protocol, `+`, and its endpoint, so that the
/// sparse and the git index at one address are distinct registries.
pub open spec fn registry_key(endpoint: Seq<char>, sparse: bool) -> Seq<char> {
    (if sparse {
        "sparse+"@
    } else {
        "registry+"@
    }) + endpoint
}

/// Whether `source` can be translated.
pub open spec fn is_supported(source: SourceDescriptor) -> bool {
    !(source is Other)
}

/// Whether the entry for `source` pins one exact version or commit; only a branch without a
/// recorded commit does not.
pub open spec fn is_reproducible(source: SourceDescriptor) -> bool {
    match source {
        SourceDescriptor::Git { precise, reference, .. } => precise is Some || !(reference is Branch),
        _ => true,
    }
}

/// The registries that a table with endpoints `endpoints` holds after translating `source`.
pub open spec fn endpoints_after(endpoints: Seq<Seq<char>>, source: SourceDescriptor) -> Seq<
    Seq<char>,
> {
    match source {
        SourceDescriptor::Registry { endpoint, sparse } => after_request(
            endpoints,
            registry_key(endpoint@, sparse),
        ),
        _ => endpoints,
    }
}

/// The fields of the entry for `source` at `version`, where the registries have the aliases of
/// a table whose endpoints are `endpoints`.
pub open spec fn translated_fields(
    source: SourceDescriptor,
    version: Seq<char>,
    endpoints: Seq<Seq<char>>,
) -> Seq<(Seq<char>, Seq<char>)> {
    match source {
        SourceDescriptor::Path { uri } => seq![("path"@, uri@)],
        SourceDescriptor::Git { repo, precise, reference } => match precise {
            Some(commit) => seq![("git"@, repo@), ("rev"@, commit@)],
            None => match reference {
                GitReference::Tag(t) => seq![("git"@, repo@), ("tag"@, t@)],
                GitReference::Rev(r) => seq![("git"@, repo@), ("rev"@, r@)],
                GitReference::Branch(_) => seq![("git"@, repo@), ("branch"@, repo@)],
            },
        },
        SourceDescriptor::Registry { endpoint, sparse } => seq![
            ("version"@, "="@ + version),
            ("registry"@, alias_in(endpoints, registry_key(endpoint@, sparse))),
        ],
        SourceDescriptor::Other { .. } => Seq::empty(),
    }
}

/// The protocol-qualified key of a registry endpoint.
pub fn registry_key_string(endpoint: &String, sparse: bool) -> (r: String)
    ensures
        r@ == registry_key(endpoint@, sparse),
{
    let prefix = if sparse {
        String::from_str("sparse+")
    } else {
        String::from_str("registry+")
    };
    prefix.concat(endpoint.as_str())
}

fn field(key: &str, value: &String) -> (r: (String, String))
    ensures
        r.0@ == key@,
        r.1@ == value@,
{
    (String::from_str(key), value.clone())
}

fn git_fields(repo: &String, key: &str, value: &String) -> (r: Vec<(String, String)>)
    ensures
        pairs_view(r@) == seq![("git"@, repo@), (key@, value@)],
{
    let r = vec![field("git", repo), field(key, value)];
    assert(pairs_view(r@) =~= seq![("git"@, repo@), (key@, value@)]);
    r
}

/// Translates the source of package `name` at `version` into its manifest entry, giving each
/// registry its alias in `aliases`.
///
/// A path gives `path`; a git source gives `git` and the pinned commit as `rev` where the
/// lockfile recorded one, else its tag as `tag`, its revision as `rev`, or, for a branch,
/// `branch` set to the repository (flagged as not reproducible); a registry gives the exact
/// version `=<version>` and the registry's alias. Default features are always disabled.
pub fn translate(
    name: &str,
    source: &SourceDescriptor,
    version: &str,
    aliases: &mut RegistryAliases,
) -> (r: Result<Translation, TranslateError>)
    requires
        old(aliases).wf(),
        old(aliases)@.len() < usize::MAX,
    ensures
        final(aliases).wf(),
        final(aliases)@ == endpoints_after(old(aliases)@, *source),
        r is Ok <==> is_supported(*source),
        match r {
            Ok(t) => {
                &&& t.spec@ == (translated_fields(*source, version@, final(aliases)@), false)
                &&& t.reproducible == is_reproducible(*source)
            },
            Err(TranslateError::UnsupportedSource { name: n, kind: k }) => {
                &&& n@ == name@
                &&& source matches SourceDescriptor::Other { kind } && k@ == kind@
            },
        },
{
    let mut reproducible = true;
    let fields = match source {
        SourceDescriptor::Path { uri } => {
            let r = vec![field("path", uri)];
            assert(pairs_view(r@) =~= seq![("path"@, uri@)]);
            r
        },
        SourceDescriptor::Git { repo, precise, reference } => match precise {
            Some(commit) => git_fields(repo, "rev", commit),
            None => match reference {
                GitReference::Tag(t) => git_fields(repo, "tag", t),
                GitReference::Rev(rev) => git_fields(repo, "rev", rev),
                GitReference::Branch(_) => {
                    reproducible = false;
                    git_fields(repo, "branch", repo)
                },
            },
        },
        SourceDescriptor::Registry { endpoint, sparse } => {
            let key = registry_key_string(endpoint, *sparse);
            let alias = aliases.get_alias(key);
            let exact = String::from_str("=").concat(version);
            let r = vec![field("version", &exact), field("registry", &alias)];
            assert(pairs_view(r@) =~= translated_fields(*source, version@, aliases@));
            r
        },
        SourceDescriptor::Other { kind } => {
            return Err(
                TranslateError::UnsupportedSource { name: String::from_str(name), kind: kind.clone() },
            );
        },
    };
    Ok(Translation { spec: DependencySpec { fields, default_features: false }, reproducible })
}

} // verus!
