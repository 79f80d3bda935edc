//! Short, distinct aliases for the registries that packages come from.
use vstd::prelude::*;
use crate::numbering::{numbered, numbered_name, lemma_numbered_injective};

verus! {

/// The prefix of every registry alias.
pub open spec fn alias_prefix() -> Seq<char> {
    seq!['r', 'e', 'g']
}

/// The alias of the registry that was allocated `n`-th, counting from 1: `reg<n>`.
pub open spec fn alias_name(n: nat) -> Seq<char> {
    numbered(alias_prefix(), n)
}

/// The alias that a table which allocated `endpoints` in this order gives to `endpoint`.
pub open spec fn alias_in(endpoints: Seq<Seq<char>>, endpoint: Seq<char>) -> Seq<char> {
    alias_name((endpoints.index_of(endpoint) + 1) as nat)
}

/// The endpoints of a table that allocated `endpoints`, once it was asked for `endpoint`.
pub open spec fn after_request(endpoints: Seq<Seq<char>>, endpoint: Seq<char>) -> Seq<Seq<char>> {
    if endpoints.contains(endpoint) {
        endpoints
    } else {
        endpoints.push(endpoint)
    }
}

proof fn lemma_index_of_unique(endpoints: Seq<Seq<char>>, i: int)
    requires
        endpoints.no_duplicates(),
        0 <= i < endpoints.len(),
    ensures
        endpoints.index_of(endpoints[i]) == i,
{
    assert(endpoints.contains(endpoints[i]));
}

/// Asking twice for one endpoint gives the same alias both times, and the second request
/// changes nothing.
pub proof fn lemma_request_twice(endpoints: Seq<Seq<char>>, x: Seq<char>)
    requires
        endpoints.no_duplicates(),
    ensures
        after_request(after_request(endpoints, x), x) == after_request(endpoints, x),
        alias_in(after_request(after_request(endpoints, x), x), x) == alias_in(
            after_request(endpoints, x),
            x,
        ),
{
    let once = after_request(endpoints, x);
    if !endpoints.contains(x) {
        assert(once[endpoints.len() as int] == x);
    }
    assert(once.contains(x));
}

/// A new endpoint gets the alias `reg<n + 1>` where `n` endpoints had one, and the aliases
/// that were allocated before stay as they were.
pub proof fn lemma_request_new(endpoints: Seq<Seq<char>>, x: Seq<char>)
    requires
        endpoints.no_duplicates(),
        !endpoints.contains(x),
    ensures
        after_request(endpoints, x).no_duplicates(),
        alias_in(after_request(endpoints, x), x) == alias_name(endpoints.len() + 1),
        forall|y: Seq<char>|
            endpoints.contains(y) ==> #[trigger] alias_in(after_request(endpoints, x), y)
                == alias_in(endpoints, y),
{
    let next = endpoints.push(x);
    assert forall|i: int, j: int| 0 <= i < next.len() && 0 <= j < next.len() && i != j implies next[i]
        != next[j] by {
        if i < endpoints.len() && j < endpoints.len() {
        } else if i < endpoints.len() {
            assert(endpoints.contains(next[i]));
        } else {
            assert(endpoints.contains(next[j]));
        }
    }
    lemma_index_of_unique(next, endpoints.len() as int);
    assert forall|y: Seq<char>| endpoints.contains(y) implies #[trigger] alias_in(next, y)
        == alias_in(endpoints, y) by {
        let i = endpoints.index_of(y);
        lemma_index_of_unique(endpoints, i);
        lemma_index_of_unique(next, i);
    }
}

/// Two distinct endpoints asked for one after the other get distinct aliases.
pub proof fn lemma_request_distinct(endpoints: Seq<Seq<char>>, x: Seq<char>, y: Seq<char>)
    requires
        endpoints.no_duplicates(),
        x != y,
    ensures
        alias_in(after_request(after_request(endpoints, x), y), x) != alias_in(
            after_request(after_request(endpoints, x), y),
            y,
        ),
{
    let once = after_request(endpoints, x);
    if !endpoints.contains(x) {
        lemma_request_new(endpoints, x);
        assert(once[endpoints.len() as int] == x);
    }
    assert(once.contains(x));
    let twice = after_request(once, y);
    if !once.contains(y) {
        lemma_request_new(once, y);
        assert(twice[once.len() as int] == y);
    }
    assert(twice.contains(y));
    assert(twice.contains(x)) by {
        let i = once.index_of(x);
        assert(twice[i] == x);
    }
    lemma_distinct_aliases(twice, x, y);
}

/// In a table without repeated endpoints, distinct endpoints have distinct aliases.
pub proof fn lemma_distinct_aliases(endpoints: Seq<Seq<char>>, a: Seq<char>, b: Seq<char>)
    requires
        endpoints.no_duplicates(),
        endpoints.contains(a),
        endpoints.contains(b),
        a != b,
    ensures
        alias_in(endpoints, a) != alias_in(endpoints, b),
{
    let i = endpoints.index_of(a);
    let j = endpoints.index_of(b);
    assert(i != j);
    if alias_in(endpoints, a) == alias_in(endpoints, b) {
        lemma_numbered_injective(alias_prefix(), (i + 1) as nat, (j + 1) as nat);
    }
}

/// The endpoints of a new table after it was asked for each of `requests` in order.
pub open spec fn after_requests(requests: Seq<Seq<char>>) -> Seq<Seq<char>>
    decreases requests.len(),
{
    if requests.len() == 0 {
        Seq::empty()
    } else {
        after_request(after_requests(requests.drop_last()), requests.last())
    }
}

/// Whether `endpoint` was requested before the request at `i`.
pub open spec fn requested_before(requests: Seq<Seq<char>>, endpoint: Seq<char>, i: int) -> bool {
    exists|k: int| 0 <= k < i && requests[k] == endpoint
}

/// A whole run of requests on a new table: it ends up with the distinct endpoints requested, in
/// the order in which each was first requested, so the `n`-th distinct endpoint has `reg<n>`;
/// and the alias that each request returned (that of the table right after it) is the one that
/// endpoint keeps to the end. The result depends on the requests alone, so repeating the run
/// gives the same aliases.
pub proof fn lemma_requests_first_seen(requests: Seq<Seq<char>>)
    ensures
        after_requests(requests).no_duplicates(),
        forall|i: int| 0 <= i < requests.len() ==> after_requests(requests).contains(#[trigger] requests[i]),
        forall|j: int|
            0 <= j < after_requests(requests).len() ==> requests.contains(
                #[trigger] after_requests(requests)[j],
            ),
        forall|j1: int, j2: int, i2: int|
            #![trigger after_requests(requests)[j1], after_requests(requests)[j2], requests[i2]]
            0 <= j1 < j2 < after_requests(requests).len() && 0 <= i2 < requests.len()
                && requests[i2] == after_requests(requests)[j2] ==> requested_before(
                requests,
                after_requests(requests)[j1],
                i2,
            ),
        forall|i: int|
            0 <= i < requests.len() ==> alias_in(after_requests(requests.take(i + 1)), requests[i])
                == #[trigger] alias_in(after_requests(requests), requests[i]),
    decreases requests.len(),
{
    if requests.len() > 0 {
        let prev = requests.drop_last();
        let x = requests.last();
        let before = after_requests(prev);
        let now = after_requests(requests);
        lemma_requests_first_seen(prev);
        if !before.contains(x) {
            lemma_request_new(before, x);
            assert(now[before.len() as int] == x);
        }
        assert forall|j: int| 0 <= j < before.len() implies now[j] == before[j] by {}
        assert forall|i: int| 0 <= i < requests.len() implies now.contains(#[trigger] requests[i]) by {
            if i < prev.len() {
                assert(prev[i] == requests[i]);
                let j = choose|j: int| 0 <= j < before.len() && before[j] == requests[i];
                assert(now[j] == requests[i]);
            }
        }
        assert forall|j: int| 0 <= j < now.len() implies requests.contains(#[trigger] now[j]) by {
            if j < before.len() {
                assert(prev.contains(before[j]));
                let i = choose|i: int| 0 <= i < prev.len() && prev[i] == before[j];
                assert(requests[i] == now[j]);
            } else {
                assert(requests[requests.len() - 1] == now[j]);
            }
        }
        assert forall|j1: int, j2: int, i2: int|
            #![trigger now[j1], now[j2], requests[i2]]
            0 <= j1 < j2 < now.len() && 0 <= i2 < requests.len() && requests[i2] == now[j2]
            implies requested_before(requests, now[j1], i2) by {
            assert(prev.contains(before[j1]));
            let i1 = choose|i1: int| 0 <= i1 < prev.len() && prev[i1] == before[j1];
            assert(requests[i1] == now[j1]);
            if i2 < prev.len() {
                assert(prev[i2] == before[j2]);
                assert(requested_before(prev, before[j1], i2));
                let k = choose|k: int| 0 <= k < i2 && prev[k] == before[j1];
                assert(requests[k] == now[j1]);
            } else if j2 >= before.len() {
                assert(i1 < i2);
            } else {
                assert(i1 < i2);
            }
        }
        assert forall|i: int| 0 <= i < requests.len() implies alias_in(
            after_requests(requests.take(i + 1)),
            requests[i],
        ) == #[trigger] alias_in(now, requests[i]) by {
            if i < prev.len() {
                assert(requests.take(i + 1) =~= prev.take(i + 1));
                assert(prev[i] == requests[i]);
                assert(before.contains(requests[i]));
            } else {
                assert(requests.take(i + 1) =~= requests);
            }
        }
    }
}

/// Aliases for registry endpoints, allocated in order of first request.
pub struct RegistryAliases {
    entries: Vec<(String, String)>,
}

impl View for RegistryAliases {
    /// The endpoints, in the order in which their aliases were allocated.
    type V = Seq<Seq<char>>;

    closed spec fn view(&self) -> Seq<Seq<char>> {
        self.entries@.map_values(|e: (String, String)| e.0@)
    }
}

impl RegistryAliases {
    /// Lists no endpoint twice, and the `i`-th endpoint (from 0) has alias `reg<i + 1>`.
    pub open spec fn wf(&self) -> bool {
        &&& self@.no_duplicates()
        &&& self.aliases_numbered()
    }

    /// The `i`-th entry (from 0) holds alias `reg<i + 1>`.
    pub closed spec fn aliases_numbered(&self) -> bool {
        forall|i: int|
            0 <= i < self.entries@.len() ==> #[trigger] self.entries@[i].1@ == alias_name(
                (i + 1) as nat,
            )
    }

    /// The alias of `endpoint` in this table.
    pub open spec fn alias_of(&self, endpoint: Seq<char>) -> Seq<char> {
        alias_in(self@, endpoint)
    }

    /// An empty table.
    pub fn new() -> (r: Self)
        ensures
            r.wf(),
            r@ == Seq::<Seq<char>>::empty(),
    {
        let r = RegistryAliases { entries: Vec::new() };
        assert(r@ =~= Seq::<Seq<char>>::empty());
        r
    }

    /// The number of endpoints that have an alias.
    pub fn len(&self) -> (r: usize)
        ensures
            r == self@.len(),
    {
        self.entries.len()
    }

    fn position(&self, endpoint: &String) -> (r: Option<usize>)
        requires
            self.wf(),
        ensures
            match r {
                Some(i) => i < self@.len() && self@[i as int] == endpoint@,
                None => !self@.contains(endpoint@),
            },
    {
        let mut i: usize = 0;
        while i < self.entries.len()
            invariant
                i <= self@.len(),
                self@.len() == self.entries@.len(),
                forall|j: int| 0 <= j < i ==> self@[j] != endpoint@,
            decreases self.entries@.len() - i,
        {
            if self.entries[i].0 == *endpoint {
                return Some(i);
            }
            i = i + 1;
        }
        None
    }

    /// The alias of `uri`, allocated as `reg<n>` (where `n - 1` endpoints have aliases already)
    /// when `uri` has none yet.
    ///
    /// Equal endpoints always get equal aliases, distinct endpoints distinct ones.
    pub fn get_alias(&mut self, uri: String) -> (r: String)
        requires
            old(self).wf(),
            old(self)@.len() < usize::MAX,
        ensures
            final(self).wf(),
            final(self)@ == after_request(old(self)@, uri@),
            r@ == final(self).alias_of(uri@),
    {
        match self.position(&uri) {
            Some(i) => {
                proof {
                    self.lemma_alias_at(i as int);
                }
                self.entries[i].1.clone()
            },
            None => {
                let num = self.entries.len() + 1;
                let alias = numbered_name("reg", num);
                proof {
                    reveal_strlit("reg");
                    assert("reg"@ =~= alias_prefix());
                }
                let ghost before = self@;
                self.entries.push((uri, alias.clone()));
                proof {
                    assert(self@ =~= before.push(uri@));
                    lemma_request_new(before, uri@);
                }
                alias
            },
        }
    }

    proof fn lemma_alias_at(&self, i: int)
        requires
            self.wf(),
            0 <= i < self@.len(),
        ensures
            self.entries@[i].1@ == self.alias_of(self@[i]),
    {
        lemma_index_of_unique(self@, i);
    }

    /// All aliases as `(alias, endpoint)` pairs, in the order of allocation (`reg1` first).
    pub fn iter(&self) -> (r: Vec<(String, String)>)
        requires
            self.wf(),
        ensures
            r@.len() == self@.len(),
            forall|i: int|
                0 <= i < r@.len() ==> (#[trigger] r@[i]).1@ == self@[i] && r@[i].0@ == alias_name(
                    (i + 1) as nat,
                ),
    {
        let mut out: Vec<(String, String)> = Vec::new();
        let mut i: usize = 0;
        while i < self.entries.len()
            invariant
                i <= self.entries@.len(),
                self.wf(),
                out@.len() == i,
                forall|j: int|
                    0 <= j < i ==> (#[trigger] out@[j]).1@ == self@[j] && out@[j].0@ == alias_name(
                        (j + 1) as nat,
                    ),
            decreases self.entries@.len() - i,
        {
            let e = &self.entries[i];
            out.push((e.1.clone(), e.0.clone()));
            i = i + 1;
        }
        out
    }
}

} // verus!
