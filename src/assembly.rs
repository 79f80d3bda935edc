//! The plan of the scratch projects: one sub-project per batch of packages, with its dependency
//! entries and registry aliases, and a root project that depends on every sub-project by path.
use vstd::prelude::*;
use crate::batches::{batch_values, into_batches, total_len};
use crate::numbering::{numbered, numbered_name};
use crate::registry_aliases::{RegistryAliases, alias_in, alias_name, lemma_request_new};
use crate::source::{
    DependencySpec, SourceDescriptor, TranslateError, endpoints_after, is_reproducible,
    is_supported, pairs_view, registry_key, translate, translated_fields,
};

verus! {

/// A package of the lockfile; one without a source is the project that the lockfile belongs to.
#[derive(Debug, PartialEq, Eq)]
pub struct Package {
    pub name: String,
    pub version: String,
    pub source: Option<SourceDescriptor>,
}

/// A package of the lockfile that has a source.
#[derive(Debug, PartialEq, Eq)]
pub struct PinnedPackage {
    pub name: String,
    pub version: String,
    pub source: SourceDescriptor,
}

/// A sub-project: its name, its dependency entries, the registry aliases that they use as
/// `(alias, endpoint)` pairs, and the names of the packages whose entries are not reproducible.
#[derive(Debug, PartialEq, Eq)]
pub struct SubProject {
    pub name: String,
    pub dependencies: Vec<(String, DependencySpec)>,
    pub registries: Vec<(String, String)>,
    pub unpinned: Vec<String>,
}

/// The whole plan: the sub-projects in batch order, the root project's entries and registry
/// aliases (those of all batches), and the names of the lockfile's packages without a source,
/// which are left out.
#[derive(Debug, PartialEq, Eq)]
pub struct Assembly {
    pub batches: Vec<SubProject>,
    pub root_dependencies: Vec<(String, DependencySpec)>,
    pub registries: Vec<(String, String)>,
    pub unsourced: Vec<String>,
}

/// Why no plan could be made.
#[derive(Debug, PartialEq, Eq)]
pub enum AssemblyError {
    /// The package `name` of batch `batch` (from 1) has a source of kind `kind`, which has no
    /// translation.
    UnsupportedSource { batch: usize, name: String, kind: String },
}

/// The view of a list of dependency entries.
pub type EntriesView = Seq<(Seq<char>, (Seq<(Seq<char>, Seq<char>)>, bool))>;

pub open spec fn entries_view(s: Seq<(String, DependencySpec)>) -> EntriesView {
    s.map_values(|e: (String, DependencySpec)| (e.0@, e.1@))
}

pub open spec fn names_view(s: Seq<String>) -> Seq<Seq<char>> {
    s.map_values(|n: String| n@)
}

impl View for SubProject {
    type V = (Seq<char>, EntriesView, Seq<(Seq<char>, Seq<char>)>, Seq<Seq<char>>);

    open spec fn view(&self) -> Self::V {
        (
            self.name@,
            entries_view(self.dependencies@),
            pairs_view(self.registries@),
            names_view(self.unpinned@),
        )
    }
}

impl View for Assembly {
    type V = (
        Seq<<SubProject as View>::V>,
        EntriesView,
        Seq<(Seq<char>, Seq<char>)>,
        Seq<Seq<char>>,
    );

    open spec fn view(&self) -> Self::V {
        (
            self.batches@.map_values(|s: SubProject| s@),
            entries_view(self.root_dependencies@),
            pairs_view(self.registries@),
            names_view(self.unsourced@),
        )
    }
}

/// The packages with a source, keyed by name, in lockfile order.
pub open spec fn sourced_pairs(packages: Seq<Package>) -> Seq<(String, PinnedPackage)>
    decreases packages.len(),
{
    if packages.len() == 0 {
        Seq::empty()
    } else {
        let prev = sourced_pairs(packages.drop_last());
        let p = packages.last();
        match p.source {
            Some(s) => prev.push((p.name, PinnedPackage { name: p.name, version: p.version, source: s })),
            None => prev,
        }
    }
}

/// The names of the packages without a source, in lockfile order.
pub open spec fn unsourced_names(packages: Seq<Package>) -> Seq<Seq<char>>
    decreases packages.len(),
{
    if packages.len() == 0 {
        Seq::empty()
    } else {
        let prev = unsourced_names(packages.drop_last());
        let p = packages.last();
        if p.source is None {
            prev.push(p.name@)
        } else {
            prev
        }
    }
}

/// The batches of the packages with a source, divided by name.
pub open spec fn package_batches(packages: Seq<Package>) -> Seq<Seq<PinnedPackage>> {
    batch_values(sourced_pairs(packages))
}

/// The registries of a table with endpoints `endpoints` after translating `ps` in order.
pub open spec fn endpoints_of(endpoints: Seq<Seq<char>>, ps: Seq<PinnedPackage>) -> Seq<Seq<char>>
    decreases ps.len(),
{
    if ps.len() == 0 {
        endpoints
    } else {
        endpoints_after(endpoints_of(endpoints, ps.drop_last()), ps.last().source)
    }
}

/// The registries of an empty table after translating the batches `bs` in order.
pub open spec fn batch_endpoints(bs: Seq<Seq<PinnedPackage>>) -> Seq<Seq<char>>
    decreases bs.len(),
{
    if bs.len() == 0 {
        Seq::empty()
    } else {
        endpoints_of(batch_endpoints(bs.drop_last()), bs.last())
    }
}

/// The entries of the packages `ps`, with the registry aliases of a table with `endpoints`.
pub open spec fn expected_entries(ps: Seq<PinnedPackage>, endpoints: Seq<Seq<char>>) -> EntriesView {
    ps.map_values(|p: PinnedPackage| (p.name@, (translated_fields(p.source, p.version@, endpoints), false)))
}

/// The names of the packages of `ps` whose entries are not reproducible, in order.
pub open spec fn unpinned_names(ps: Seq<PinnedPackage>) -> Seq<Seq<char>>
    decreases ps.len(),
{
    if ps.len() == 0 {
        Seq::empty()
    } else {
        let prev = unpinned_names(ps.drop_last());
        if is_reproducible(ps.last().source) {
            prev
        } else {
            prev.push(ps.last().name@)
        }
    }
}

/// The `(alias, endpoint)` pairs of a table with `endpoints`, in order of allocation.
pub open spec fn alias_listing(endpoints: Seq<Seq<char>>) -> Seq<(Seq<char>, Seq<char>)> {
    Seq::new(endpoints.len(), |j: int| (alias_name((j + 1) as nat), endpoints[j]))
}

/// The name of the `n`-th sub-project, counting from 1: `batch<n>`.
pub open spec fn batch_name(n: nat) -> Seq<char> {
    numbered("batch"@, n)
}

/// The root project's entries for `n` sub-projects: each one by its path.
pub open spec fn root_entries(n: nat) -> EntriesView {
    Seq::new(n, |i: int| (batch_name((i + 1) as nat), (seq![("path"@, batch_name((i + 1) as nat))], false)))
}

/// The view of the `i`-th sub-project of the batches `bs`.
pub open spec fn expected_subproject(bs: Seq<Seq<PinnedPackage>>, i: int) -> <SubProject as View>::V {
    let endpoints = batch_endpoints(bs.take(i + 1));
    (
        batch_name((i + 1) as nat),
        expected_entries(bs[i], endpoints),
        alias_listing(endpoints),
        unpinned_names(bs[i]),
    )
}

/// The plan for the lockfile packages `packages`, where every source can be translated.
pub open spec fn expected_assembly(packages: Seq<Package>) -> <Assembly as View>::V {
    let bs = package_batches(packages);
    (
        Seq::new(bs.len(), |i: int| expected_subproject(bs, i)),
        root_entries(bs.len()),
        alias_listing(batch_endpoints(bs)),
        unsourced_names(packages),
    )
}

/// Whether every package of the batches `bs` has a source with a translation.
pub open spec fn all_supported(bs: Seq<Seq<PinnedPackage>>) -> bool {
    forall|i: int, j: int|
        0 <= i < bs.len() && 0 <= j < bs[i].len() ==> is_supported(#[trigger] bs[i][j].source)
}

/// Whether the package at `j` of batch `i` is the first one, in batch order, whose source has no
/// translation.
pub open spec fn first_unsupported(bs: Seq<Seq<PinnedPackage>>, i: int, j: int) -> bool {
    &&& 0 <= i < bs.len()
    &&& 0 <= j < bs[i].len()
    &&& !is_supported(bs[i][j].source)
    &&& all_supported(bs.take(i))
    &&& forall|k: int| 0 <= k < j ==> is_supported(#[trigger] bs[i][k].source)
}

/// What planning the packages `packages` gives: the plan where every source can be translated,
/// else the error for the first package in batch order whose source cannot.
pub open spec fn assembles(packages: Seq<Package>, r: Result<Assembly, AssemblyError>) -> bool {
    let bs = package_batches(packages);
    &&& r is Ok <==> all_supported(bs)
    &&& match r {
        Ok(a) => a@ == expected_assembly(packages),
        Err(AssemblyError::UnsupportedSource { batch, name, kind }) => exists|i: int, j: int|
            {
                &&& first_unsupported(bs, i, j)
                &&& batch == i + 1
                &&& name@ == bs[i][j].name@
                &&& bs[i][j].source matches SourceDescriptor::Other { kind: k } && k@ == kind@
            },
    }
}

proof fn lemma_first_unsupported_unique(bs: Seq<Seq<PinnedPackage>>, i1: int, j1: int, i2: int, j2: int)
    requires
        first_unsupported(bs, i1, j1),
        first_unsupported(bs, i2, j2),
    ensures
        i1 == i2 && j1 == j2,
{
    if i1 < i2 {
        assert(bs.take(i2)[i1][j1] == bs[i1][j1]);
    } else if i2 < i1 {
        assert(bs.take(i1)[i2][j2] == bs[i2][j2]);
    }
}

/// Planning is deterministic: two plans of the same lockfile packages, each made with a fresh
/// alias table, have the same batches, aliases, entries and root, or report the same package.
pub proof fn lemma_assembly_deterministic(
    packages: Seq<Package>,
    r1: Result<Assembly, AssemblyError>,
    r2: Result<Assembly, AssemblyError>,
)
    requires
        assembles(packages, r1),
        assembles(packages, r2),
    ensures
        r1 is Ok <==> r2 is Ok,
        r1 is Ok ==> r1->Ok_0@ == r2->Ok_0@,
        r1 matches Err(AssemblyError::UnsupportedSource { batch: b1, name: n1, kind: k1 }) ==> (
        r2 matches Err(AssemblyError::UnsupportedSource { batch: b2, name: n2, kind: k2 }) && b1
            == b2 && n1@ == n2@ && k1@ == k2@),
{
    let bs = package_batches(packages);
    if let Err(AssemblyError::UnsupportedSource { batch: b1, name: n1, kind: k1 }) = r1 {
        if let Err(AssemblyError::UnsupportedSource { batch: b2, name: n2, kind: k2 }) = r2 {
            let (i1, j1) = choose|i: int, j: int|
                {
                    &&& first_unsupported(bs, i, j)
                    &&& b1 == i + 1
                    &&& n1@ == bs[i][j].name@
                    &&& bs[i][j].source matches SourceDescriptor::Other { kind: k } && k@ == k1@
                };
            let (i2, j2) = choose|i: int, j: int|
                {
                    &&& first_unsupported(bs, i, j)
                    &&& b2 == i + 1
                    &&& n2@ == bs[i][j].name@
                    &&& bs[i][j].source matches SourceDescriptor::Other { kind: k } && k@ == k2@
                };
            lemma_first_unsupported_unique(bs, i1, j1, i2, j2);
        }
    }
}

/// A registry package's key, if it has one.
pub open spec fn registry_key_of(source: SourceDescriptor) -> Option<Seq<char>> {
    match source {
        SourceDescriptor::Registry { endpoint, sparse } => Some(registry_key(endpoint@, sparse)),
        _ => None,
    }
}

/// Whether the table with `endpoints` has an alias for every registry of `ps`.
pub open spec fn keys_covered(ps: Seq<PinnedPackage>, endpoints: Seq<Seq<char>>) -> bool {
    forall|k: int|
        0 <= k < ps.len() ==> (#[trigger] registry_key_of(ps[k].source) matches Some(key)
            ==> endpoints.contains(key))
}

/// Translating one more source keeps the entries of packages whose registries had aliases.
proof fn lemma_entries_kept(ps: Seq<PinnedPackage>, endpoints: Seq<Seq<char>>, s: SourceDescriptor)
    requires
        endpoints.no_duplicates(),
        keys_covered(ps, endpoints),
    ensures
        endpoints_after(endpoints, s).no_duplicates(),
        keys_covered(ps, endpoints_after(endpoints, s)),
        expected_entries(ps, endpoints_after(endpoints, s)) == expected_entries(ps, endpoints),
{
    let next = endpoints_after(endpoints, s);
    if let SourceDescriptor::Registry { endpoint, sparse } = s {
        let key = registry_key(endpoint@, sparse);
        if !endpoints.contains(key) {
            lemma_request_new(endpoints, key);
            assert forall|y: Seq<char>| endpoints.contains(y) implies next.contains(y) by {
                let i = endpoints.index_of(y);
                assert(next[i] == y);
            }
            assert forall|k: int| 0 <= k < ps.len() implies expected_entries(ps, next)[k]
                == expected_entries(ps, endpoints)[k] by {
                if let Some(y) = registry_key_of(ps[k].source) {
                    assert(endpoints.contains(y));
                    assert(alias_in(next, y) == alias_in(endpoints, y));
                }
            }
        }
    }
    assert(expected_entries(ps, next) =~= expected_entries(ps, endpoints));
}

proof fn lemma_key_covered_after(endpoints: Seq<Seq<char>>, s: SourceDescriptor)
    ensures
        registry_key_of(s) matches Some(key) ==> endpoints_after(endpoints, s).contains(key),
{
    if let SourceDescriptor::Registry { endpoint, sparse } = s {
        let key = registry_key(endpoint@, sparse);
        if !endpoints.contains(key) {
            assert(endpoints.push(key)[endpoints.len() as int] == key);
        }
    }
}

proof fn lemma_sourced_len(packages: Seq<Package>)
    ensures
        sourced_pairs(packages).len() <= packages.len(),
    decreases packages.len(),
{
    if packages.len() > 0 {
        lemma_sourced_len(packages.drop_last());
    }
}

fn split_sourced(packages: Vec<Package>) -> (r: (Vec<(String, PinnedPackage)>, Vec<String>))
    ensures
        r.0@ == sourced_pairs(packages@),
        names_view(r.1@) == unsourced_names(packages@),
{
    let ghost all = packages@;
    let mut rest = packages;
    let mut keyed: Vec<(String, PinnedPackage)> = Vec::new();
    let mut unsourced: Vec<String> = Vec::new();
    let ghost mut n: int = 0;
    while rest.len() > 0
        invariant
            0 <= n <= all.len(),
            rest@ == all.subrange(n, all.len() as int),
            keyed@ == sourced_pairs(all.subrange(0, n)),
            names_view(unsourced@) == unsourced_names(all.subrange(0, n)),
        decreases rest@.len(),
    {
        let p = rest.remove(0);
        proof {
            assert(all.subrange(0, n + 1).drop_last() =~= all.subrange(0, n));
            assert(p == all[n]);
            assert(rest@ =~= all.subrange(n + 1, all.len() as int));
        }
        let ghost before = unsourced@;
        let Package { name, version, source } = p;
        match source {
            Some(s) => {
                let key = name.clone();
                keyed.push((key, PinnedPackage { name, version, source: s }));
            },
            None => {
                unsourced.push(name);
                assert(names_view(unsourced@) =~= names_view(before).push(p.name@));
            },
        }
        proof {
            n = n + 1;
        }
    }
    assert(all.subrange(0, n) =~= all);
    (keyed, unsourced)
}

fn path_entry(name: &String) -> (r: DependencySpec)
    ensures
        r@ == (seq![("path"@, name@)], false),
{
    let fields = vec![(String::from_str("path"), name.clone())];
    assert(pairs_view(fields@) =~= seq![("path"@, name@)]);
    DependencySpec { fields, default_features: false }
}

/// Translates the packages of one batch, numbered `number` from 1, into `aliases`.
fn assemble_batch(batch: &Vec<PinnedPackage>, number: usize, aliases: &mut RegistryAliases) -> (r:
    Result<(Vec<(String, DependencySpec)>, Vec<String>), AssemblyError>)
    requires
        old(aliases).wf(),
        old(aliases)@.len() + batch@.len() < usize::MAX,
    ensures
        final(aliases).wf(),
        final(aliases)@.len() <= old(aliases)@.len() + batch@.len(),
        r is Ok <==> forall|k: int| 0 <= k < batch@.len() ==> is_supported(#[trigger] batch@[k].source),
        match r {
            Ok((deps, unpinned)) => {
                &&& final(aliases)@ == endpoints_of(old(aliases)@, batch@)
                &&& entries_view(deps@) == expected_entries(batch@, final(aliases)@)
                &&& names_view(unpinned@) == unpinned_names(batch@)
            },
            Err(AssemblyError::UnsupportedSource { batch: b, name, kind }) => exists|j: int|
                {
                    &&& 0 <= j < batch@.len()
                    &&& b == number
                    &&& !is_supported(batch@[j].source)
                    &&& forall|k: int| 0 <= k < j ==> is_supported(#[trigger] batch@[k].source)
                    &&& name@ == batch@[j].name@
                    &&& batch@[j].source matches SourceDescriptor::Other { kind: k } && k@ == kind@
                },
        },
{
    let ghost start = aliases@;
    let mut deps: Vec<(String, DependencySpec)> = Vec::new();
    let mut unpinned: Vec<String> = Vec::new();
    let mut j: usize = 0;
    while j < batch.len()
        invariant
            j <= batch@.len(),
            start == old(aliases)@,
            aliases.wf(),
            aliases@ == endpoints_of(start, batch@.take(j as int)),
            aliases@.len() <= start.len() + j,
            start.len() + batch@.len() < usize::MAX,
            keys_covered(batch@.take(j as int), aliases@),
            entries_view(deps@) == expected_entries(batch@.take(j as int), aliases@),
            names_view(unpinned@) == unpinned_names(batch@.take(j as int)),
            forall|k: int| 0 <= k < j ==> is_supported(#[trigger] batch@[k].source),
        decreases batch@.len() - j,
    {
        let p = &batch[j];
        let ghost before = aliases@;
        let ghost done = batch@.take(j as int);
        let ghost next = batch@.take(j + 1);
        proof {
            assert(next.drop_last() =~= done);
            assert(next.last() == *p);
            lemma_entries_kept(done, before, p.source);
            lemma_key_covered_after(before, p.source);
        }
        match translate(p.name.as_str(), &p.source, p.version.as_str(), aliases) {
            Ok(t) => {
                let ghost unpinned_before = unpinned@;
                if !t.reproducible {
                    unpinned.push(p.name.clone());
                    assert(names_view(unpinned@) =~= names_view(unpinned_before).push(p.name@));
                }
                let ghost deps_before = deps@;
                deps.push((p.name.clone(), t.spec));
                proof {
                    assert(entries_view(deps@) =~= entries_view(deps_before).push(
                        (p.name@, (translated_fields(p.source, p.version@, aliases@), false)),
                    ));
                    assert(expected_entries(next, aliases@) =~= expected_entries(done, aliases@).push(
                        (p.name@, (translated_fields(p.source, p.version@, aliases@), false)),
                    ));
                    assert forall|k: int| 0 <= k < next.len() implies (#[trigger] registry_key_of(
                        next[k].source,
                    ) matches Some(key) ==> aliases@.contains(key)) by {
                        if k < done.len() {
                            assert(next[k] == done[k]);
                        }
                    }
                }
            },
            Err(TranslateError::UnsupportedSource { name, kind }) => {
                assert(aliases@ == before);
                return Err(AssemblyError::UnsupportedSource { batch: number, name, kind });
            },
        }
        j = j + 1;
    }
    assert(batch@.take(j as int) =~= batch@);
    Ok((deps, unpinned))
}

/// Plans the scratch projects for the lockfile packages `packages`.
///
/// The packages with a source are divided into batches by name; batch `n` (from 1) becomes the
/// sub-project `batch<n>`, whose entries are the translations of its packages, made in batch
/// order with one alias table shared by all batches. The root project depends on each
/// sub-project by its path. Where a source has no translation, the first such package in batch
/// order is reported with its batch.
pub fn assemble(packages: Vec<Package>) -> (r: Result<Assembly, AssemblyError>)
    requires
        packages@.len() < usize::MAX,
    ensures
        assembles(packages@, r),
{
    let ghost input = packages@;
    let (keyed, unsourced) = split_sourced(packages);
    let ghost pairs = keyed@;
    let batches = into_batches(keyed);
    let ghost bs = package_batches(input);
    proof {
        lemma_sourced_len(input);
        crate::batches::lemma_batches_total(pairs);
        assert(batches@.len() == bs.len());
        assert forall|i: int| 0 <= i < bs.len() implies #[trigger] batches@[i]@ == bs[i] by {
            assert(batches@.map_values(|b: Vec<PinnedPackage>| b@)[i] == bs[i]);
        }
        assert(bs.skip(0) =~= bs);
    }
    let mut aliases = RegistryAliases::new();
    let mut subprojects: Vec<SubProject> = Vec::new();
    let mut root: Vec<(String, DependencySpec)> = Vec::new();
    let mut b: usize = 0;
    while b < batches.len()
        invariant
            b <= bs.len(),
            bs == package_batches(input),
            input == packages@,
            batches@.len() == bs.len(),
            forall|i: int| 0 <= i < bs.len() ==> #[trigger] batches@[i]@ == bs[i],
            aliases.wf(),
            aliases@ == batch_endpoints(bs.take(b as int)),
            aliases@.len() + total_len(bs.skip(b as int)) <= input.len(),
            input.len() < usize::MAX,
            all_supported(bs.take(b as int)),
            subprojects@.len() == b,
            forall|i: int| 0 <= i < b ==> #[trigger] subprojects@[i]@ == expected_subproject(bs, i),
            entries_view(root@) == root_entries(b as nat),
        decreases bs.len() - b,
    {
        proof {
            assert(bs.skip(b as int).drop_first() =~= bs.skip(b + 1));
            assert(bs.skip(b as int)[0] == bs[b as int]);
            assert(bs.take(b + 1).drop_last() =~= bs.take(b as int));
            assert(bs.take(b + 1).last() == bs[b as int]);
        }
        let name = numbered_name("batch", b + 1);
        match assemble_batch(&batches[b], b + 1, &mut aliases) {
            Ok((dependencies, unpinned)) => {
                let registries = aliases.iter();
                let entry = path_entry(&name);
                let ghost root_before = root@;
                root.push((name.clone(), entry));
                let ghost name_view = name@;
                let sub = SubProject { name, dependencies, registries, unpinned };
                proof {
                    assert(pairs_view(sub.registries@) =~= alias_listing(aliases@));
                    assert(sub@ == expected_subproject(bs, b as int));
                    assert(entries_view(root@) =~= entries_view(root_before).push(
                        (name_view, (seq![("path"@, name_view)], false)),
                    ));
                    assert(name_view == batch_name((b + 1) as nat));
                    assert(entries_view(root@) =~= root_entries((b + 1) as nat));
                    assert forall|i: int, j: int|
                        0 <= i < bs.take(b + 1).len() && 0 <= j < bs.take(b + 1)[i].len()
                        implies is_supported(#[trigger] bs.take(b + 1)[i][j].source) by {
                        if i < b {
                            assert(bs.take(b + 1)[i] == bs.take(b as int)[i]);
                        } else {
                            assert(bs.take(b + 1)[i] == batches@[b as int]@);
                        }
                    }
                }
                subprojects.push(sub);
            },
            Err(e) => {
                proof {
                    let AssemblyError::UnsupportedSource { batch: bn, name: n, kind: kd } = e;
                    let j = choose|j: int|
                        {
                            &&& 0 <= j < batches@[b as int]@.len()
                            &&& bn == b + 1
                            &&& !is_supported(batches@[b as int]@[j].source)
                            &&& forall|k: int|
                                0 <= k < j ==> is_supported(#[trigger] batches@[b as int]@[k].source)
                            &&& n@ == batches@[b as int]@[j].name@
                            &&& batches@[b as int]@[j].source matches SourceDescriptor::Other {
                                kind: k,
                            } && k@ == kd@
                        };
                    assert(first_unsupported(bs, b as int, j));
                    assert(!is_supported(bs[b as int][j].source));
                    assert(!all_supported(bs));
                    assert(bn == b + 1 && n@ == bs[b as int][j].name@);
                    assert(bs[b as int][j].source matches SourceDescriptor::Other { kind: k } && k@
                        == kd@);
                }
                return Err(e);
            },
        }
        b = b + 1;
    }
    let registries = aliases.iter();
    let r = Assembly { batches: subprojects, root_dependencies: root, registries, unsourced };
    proof {
        assert(bs.take(b as int) =~= bs);
        assert(pairs_view(r.registries@) =~= alias_listing(batch_endpoints(bs)));
        assert(r@.0 =~= expected_assembly(input).0);
    }
    Ok(r)
}

} // verus!
