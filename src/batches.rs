//! Division of keyed items into batches in which no key occurs twice.
//!
//! A manifest cannot list two versions of one package in a single dependency table, while a
//! lockfile often pins several. The packages are therefore spread over as few batches as
//! possible, none of which holds two packages of the same name.
use vstd::prelude::*;
use vstd::multiset::Multiset;

verus! {

broadcast use vstd::seq_lib::group_to_multiset_ensures;

/// A key that batches are divided by: two keys conflict when their views are equal, and the
/// items of a batch are listed in the keys' order.
pub trait BatchKey: View + Sized {
    /// Whether key `a` comes before key `b`.
    spec fn precedes(a: Self::V, b: Self::V) -> bool;

    /// `precedes` is a strict total order.
    proof fn lemma_precedes_order(a: Self::V, b: Self::V, c: Self::V)
        ensures
            !Self::precedes(a, a),
            Self::precedes(a, b) && Self::precedes(b, c) ==> Self::precedes(a, c),
            a != b ==> Self::precedes(a, b) || Self::precedes(b, a),
    ;

    fn same_key(&self, other: &Self) -> (r: bool)
        ensures
            r == (self@ == other@),
    ;

    fn key_precedes(&self, other: &Self) -> (r: bool)
        ensures
            r == Self::precedes(self@, other@),
    ;
}

/// Lexicographic order of character sequences, by code point: the order of `String`'s `Ord`.
pub open spec fn lex_precedes(a: Seq<char>, b: Seq<char>) -> bool
    decreases a.len(),
{
    if a.len() == 0 {
        b.len() > 0
    } else if b.len() == 0 {
        false
    } else if a[0] != b[0] {
        (a[0] as int) < (b[0] as int)
    } else {
        lex_precedes(a.drop_first(), b.drop_first())
    }
}

/// Lexicographic order is a strict total order.
pub proof fn lemma_lex_order(a: Seq<char>, b: Seq<char>, c: Seq<char>)
    ensures
        !lex_precedes(a, a),
        lex_precedes(a, b) && lex_precedes(b, c) ==> lex_precedes(a, c),
        a != b ==> lex_precedes(a, b) || lex_precedes(b, a),
    decreases a.len(),
{
    if a.len() > 0 {
        lemma_lex_order(a.drop_first(), a.drop_first(), a.drop_first());
        if b.len() > 0 && c.len() > 0 {
            lemma_lex_order(a.drop_first(), b.drop_first(), c.drop_first());
        }
        if b.len() > 0 {
            lemma_lex_order(a.drop_first(), b.drop_first(), b.drop_first());
            if a[0] != b[0] {
                assert((a[0] as int) != (b[0] as int));
            }
            if a != b && a[0] == b[0] {
                assert(a =~= seq![a[0]] + a.drop_first());
                assert(b =~= seq![b[0]] + b.drop_first());
            }
        }
    } else if b.len() == 0 {
        assert(a =~= b);
    }
}

impl BatchKey for String {
    open spec fn precedes(a: Seq<char>, b: Seq<char>) -> bool {
        lex_precedes(a, b)
    }

    proof fn lemma_precedes_order(a: Seq<char>, b: Seq<char>, c: Seq<char>) {
        lemma_lex_order(a, b, c);
    }

    fn same_key(&self, other: &Self) -> (r: bool) {
        *self == *other
    }

    fn key_precedes(&self, other: &Self) -> (r: bool) {
        let a = self.as_str();
        let b = other.as_str();
        let la = a.unicode_len();
        let lb = b.unicode_len();
        let mut i: usize = 0;
        assert(self@.skip(0) =~= self@);
        assert(other@.skip(0) =~= other@);
        while i < la && i < lb
            invariant
                la == self@.len(),
                lb == other@.len(),
                a@ == self@,
                b@ == other@,
                i <= la && i <= lb,
                lex_precedes(self@, other@) == lex_precedes(
                    self@.skip(i as int),
                    other@.skip(i as int),
                ),
            decreases la - i,
        {
            let ca = a.get_char(i);
            let cb = b.get_char(i);
            if (ca as u32) != (cb as u32) {
                return (ca as u32) < (cb as u32);
            }
            assert(self@.skip(i as int).drop_first() =~= self@.skip(i + 1));
            assert(other@.skip(i as int).drop_first() =~= other@.skip(i + 1));
            i = i + 1;
        }
        i == la && i < lb
    }
}

impl BatchKey for () {
    open spec fn precedes(a: (), b: ()) -> bool {
        false
    }

    proof fn lemma_precedes_order(a: (), b: (), c: ()) {
    }

    fn same_key(&self, other: &Self) -> (r: bool) {
        true
    }

    fn key_precedes(&self, other: &Self) -> (r: bool) {
        false
    }
}

impl BatchKey for i32 {
    open spec fn precedes(a: i32, b: i32) -> bool {
        a < b
    }

    proof fn lemma_precedes_order(a: i32, b: i32, c: i32) {
    }

    fn same_key(&self, other: &Self) -> (r: bool) {
        *self == *other
    }

    fn key_precedes(&self, other: &Self) -> (r: bool) {
        *self < *other
    }
}

impl BatchKey for i64 {
    open spec fn precedes(a: i64, b: i64) -> bool {
        a < b
    }

    proof fn lemma_precedes_order(a: i64, b: i64, c: i64) {
    }

    fn same_key(&self, other: &Self) -> (r: bool) {
        *self == *other
    }

    fn key_precedes(&self, other: &Self) -> (r: bool) {
        *self < *other
    }
}

impl BatchKey for u32 {
    open spec fn precedes(a: u32, b: u32) -> bool {
        a < b
    }

    proof fn lemma_precedes_order(a: u32, b: u32, c: u32) {
    }

    fn same_key(&self, other: &Self) -> (r: bool) {
        *self == *other
    }

    fn key_precedes(&self, other: &Self) -> (r: bool) {
        *self < *other
    }
}

impl BatchKey for u64 {
    open spec fn precedes(a: u64, b: u64) -> bool {
        a < b
    }

    proof fn lemma_precedes_order(a: u64, b: u64, c: u64) {
    }

    fn same_key(&self, other: &Self) -> (r: bool) {
        *self == *other
    }

    fn key_precedes(&self, other: &Self) -> (r: bool) {
        *self < *other
    }
}

impl BatchKey for usize {
    open spec fn precedes(a: usize, b: usize) -> bool {
        a < b
    }

    proof fn lemma_precedes_order(a: usize, b: usize, c: usize) {
    }

    fn same_key(&self, other: &Self) -> (r: bool) {
        *self == *other
    }

    fn key_precedes(&self, other: &Self) -> (r: bool) {
        *self < *other
    }
}

/// The views of the keys of a sequence of pairs, in order.
pub open spec fn key_views<K: View, T>(s: Seq<(K, T)>) -> Seq<K::V> {
    s.map_values(|p: (K, T)| p.0@)
}

/// The items of a sequence of pairs, in order.
pub open spec fn item_values<K, T>(s: Seq<(K, T)>) -> Seq<T> {
    s.map_values(|p: (K, T)| p.1)
}

/// How many pairs of `s` have a key whose view is `k`.
pub open spec fn key_count<K: View, T>(s: Seq<(K, T)>, k: K::V) -> nat
    decreases s.len(),
{
    if s.len() == 0 {
        0
    } else {
        key_count(s.drop_last(), k) + if s.last().0@ == k {
            1nat
        } else {
            0nat
        }
    }
}

/// One pass over `items`: the first pair of each key is taken into the batch, every later pair
/// of that key is deferred. Both parts keep the order of the input.
pub open spec fn split_pass<K: View, T>(items: Seq<(K, T)>) -> (Seq<(K, T)>, Seq<(K, T)>)
    decreases items.len(),
{
    if items.len() == 0 {
        (Seq::empty(), Seq::empty())
    } else {
        let prev = split_pass(items.drop_last());
        let x = items.last();
        if key_views(prev.0).contains(x.0@) {
            (prev.0, prev.1.push(x))
        } else {
            (prev.0.push(x), prev.1)
        }
    }
}

/// The batches of `items`: the batch of a first pass, then the batches of what it deferred.
pub open spec fn batch_pairs<K: View, T>(items: Seq<(K, T)>) -> Seq<Seq<(K, T)>>
    decreases items.len(),
{
    if items.len() == 0 {
        Seq::empty()
    } else {
        proof {
            lemma_split_pass(items);
        }
        seq![split_pass(items).0] + batch_pairs(split_pass(items).1)
    }
}

/// `s` with `x` placed before the first pair whose key comes after the key of `x`.
pub open spec fn insert_by_key<K: BatchKey, T>(s: Seq<(K, T)>, x: (K, T)) -> Seq<(K, T)>
    decreases s.len(),
{
    if s.len() == 0 {
        seq![x]
    } else if K::precedes(x.0@, s[0].0@) {
        seq![x] + s
    } else {
        seq![s[0]] + insert_by_key(s.drop_first(), x)
    }
}

/// The pairs of `s` in the order of their keys (pairs with equal keys in input order).
pub open spec fn sort_by_key<K: BatchKey, T>(s: Seq<(K, T)>) -> Seq<(K, T)>
    decreases s.len(),
{
    if s.len() == 0 {
        s
    } else {
        insert_by_key(sort_by_key(s.drop_last()), s.last())
    }
}

/// Whether the keys of `s` strictly ascend.
pub open spec fn keys_ascending<K: BatchKey, T>(s: Seq<(K, T)>) -> bool {
    forall|i: int, j: int| 0 <= i < j < s.len() ==> K::precedes(#[trigger] s[i].0@, #[trigger] s[j].0@)
}

/// The batches of `items`, each listed in ascending key order.
pub open spec fn ordered_batches<K: BatchKey, T>(items: Seq<(K, T)>) -> Seq<Seq<(K, T)>> {
    batch_pairs(items).map_values(|b: Seq<(K, T)>| sort_by_key(b))
}

/// The batches of `items`, each as the sequence of its items in ascending key order.
pub open spec fn batch_values<K: BatchKey, T>(items: Seq<(K, T)>) -> Seq<Seq<T>> {
    ordered_batches(items).map_values(|b: Seq<(K, T)>| item_values(b))
}

/// Placing a pair keeps every other pair.
pub proof fn lemma_insert_by_key<K: BatchKey, T>(s: Seq<(K, T)>, x: (K, T))
    ensures
        insert_by_key(s, x).to_multiset() =~= s.to_multiset().insert(x),
        insert_by_key(s, x).len() == s.len() + 1,
    decreases s.len(),
{
    broadcast use vstd::seq_lib::lemma_multiset_commutative;

    if s.len() > 0 {
        lemma_insert_by_key(s.drop_first(), x);
        assert(s =~= seq![s[0]] + s.drop_first());
        if !K::precedes(x.0@, s[0].0@) {
            assert(seq![s[0]].to_multiset() =~= Multiset::empty().insert(s[0]));
        }
        assert(seq![x].to_multiset() =~= Multiset::empty().insert(x));
    } else {
        assert(seq![x] =~= Seq::<(K, T)>::empty().push(x));
    }
}

/// Placing a pair whose key is new into pairs with ascending keys keeps the keys ascending.
pub proof fn lemma_insert_ascending<K: BatchKey, T>(s: Seq<(K, T)>, x: (K, T))
    requires
        keys_ascending(s),
        !key_views(s).contains(x.0@),
    ensures
        keys_ascending(insert_by_key(s, x)),
    decreases s.len(),
{
    if s.len() > 0 {
        let r = insert_by_key(s, x);
        let rest = s.drop_first();
        assert(key_views(s)[0] == s[0].0@);
        if K::precedes(x.0@, s[0].0@) {
            assert forall|i: int, j: int| 0 <= i < j < r.len() implies K::precedes(
                #[trigger] r[i].0@,
                #[trigger] r[j].0@,
            ) by {
                if i == 0 {
                    if j > 1 {
                        K::lemma_precedes_order(x.0@, s[0].0@, s[j - 1].0@);
                    }
                } else {
                    assert(r[i] == s[i - 1] && r[j] == s[j - 1]);
                }
            }
        } else {
            K::lemma_precedes_order(x.0@, s[0].0@, s[0].0@);
            assert(K::precedes(s[0].0@, x.0@));
            assert(!key_views(rest).contains(x.0@)) by {
                if key_views(rest).contains(x.0@) {
                    let k = choose|k: int| 0 <= k < key_views(rest).len() && key_views(rest)[k] == x.0@;
                    assert(key_views(s)[k + 1] == x.0@);
                }
            }
            lemma_insert_by_key(rest, x);
            lemma_insert_ascending(rest, x);
            let tail = insert_by_key(rest, x);
            assert forall|i: int, j: int| 0 <= i < j < r.len() implies K::precedes(
                #[trigger] r[i].0@,
                #[trigger] r[j].0@,
            ) by {
                if i == 0 {
                    let y = tail[j - 1];
                    assert(r[j] == y);
                    assert(tail.to_multiset().count(y) > 0);
                    if y != x {
                        assert(rest.to_multiset().count(y) > 0);
                        let k = choose|k: int| 0 <= k < rest.len() && rest[k] == y;
                        assert(s[k + 1] == y);
                    }
                } else {
                    assert(r[i] == tail[i - 1] && r[j] == tail[j - 1]);
                }
            }
        }
    }
}

/// Sorting keeps every pair, and lists pairs whose keys are all distinct in ascending key order.
pub proof fn lemma_sort_by_key<K: BatchKey, T>(s: Seq<(K, T)>)
    ensures
        sort_by_key(s).to_multiset() =~= s.to_multiset(),
        sort_by_key(s).len() == s.len(),
        (forall|k: K::V| #[trigger] key_count(s, k) <= 1) ==> keys_ascending(sort_by_key(s)),
    decreases s.len(),
{
    if s.len() > 0 {
        let prev = s.drop_last();
        let x = s.last();
        lemma_sort_by_key(prev);
        lemma_insert_by_key(sort_by_key(prev), x);
        assert(prev.push(x) =~= s);
        if forall|k: K::V| #[trigger] key_count(s, k) <= 1 {
            assert forall|k: K::V| #[trigger] key_count(prev, k) <= 1 by {
                assert(key_count(s, k) <= 1);
            }
            assert(key_count(s, x.0@) <= 1);
            assert(key_count(prev, x.0@) == 0);
            lemma_key_count_contains(prev, x.0@);
            let sorted = sort_by_key(prev);
            assert(!key_views(sorted).contains(x.0@)) by {
                if key_views(sorted).contains(x.0@) {
                    let k = choose|k: int| 0 <= k < key_views(sorted).len() && key_views(sorted)[k] == x.0@;
                    let y = sorted[k];
                    assert(sorted.to_multiset().count(y) > 0);
                    let m = choose|m: int| 0 <= m < prev.len() && prev[m] == y;
                    assert(key_views(prev)[m] == x.0@);
                }
            }
            lemma_insert_ascending(sorted, x);
        }
    }
}

/// The number of items in all of `bs`.
pub open spec fn total_len<T>(bs: Seq<Seq<T>>) -> nat
    decreases bs.len(),
{
    if bs.len() == 0 {
        0
    } else {
        bs[0].len() + total_len(bs.drop_first())
    }
}

/// The batches hold as many items as the input.
pub proof fn lemma_batches_total<K: BatchKey, T>(items: Seq<(K, T)>)
    ensures
        total_len(batch_values(items)) == items.len(),
    decreases items.len(),
{
    if items.len() > 0 {
        lemma_split_pass(items);
        let d = split_pass(items).1;
        lemma_batches_total(d);
        lemma_sort_by_key(split_pass(items).0);
        assert(batch_values(items)[0].len() == split_pass(items).0.len());
        assert(batch_values(items).drop_first() =~= batch_values(d));
    }
}

pub proof fn lemma_key_count_contains<K: View, T>(s: Seq<(K, T)>, k: K::V)
    ensures
        key_views(s).contains(k) <==> key_count(s, k) > 0,
    decreases s.len(),
{
    if s.len() > 0 {
        lemma_key_count_contains(s.drop_last(), k);
        assert(key_views(s) =~= key_views(s.drop_last()).push(s.last().0@));
        if key_views(s.drop_last()).contains(k) {
            let j = choose|j: int| 0 <= j < key_views(s.drop_last()).len()
                && key_views(s.drop_last())[j] == k;
            assert(key_views(s)[j] == k);
        }
        if s.last().0@ == k {
            assert(key_views(s)[s.len() - 1] == k);
        }
    }
}

pub proof fn lemma_key_count_push<K: View, T>(s: Seq<(K, T)>, x: (K, T), k: K::V)
    ensures
        key_count(s.push(x), k) == key_count(s, k) + if x.0@ == k {
            1nat
        } else {
            0nat
        },
{
    assert(s.push(x).drop_last() =~= s);
}

/// What one pass keeps and defers: together exactly the input, the batch with one pair of each
/// key present, the deferred part with the rest.
pub proof fn lemma_split_pass<K: View, T>(items: Seq<(K, T)>)
    ensures
        split_pass(items).0.to_multiset().add(split_pass(items).1.to_multiset())
            =~= items.to_multiset(),
        split_pass(items).0.len() + split_pass(items).1.len() == items.len(),
        items.len() > 0 ==> split_pass(items).0.len() > 0,
        forall|k: K::V|
            #[trigger] key_count(split_pass(items).0, k) == if key_count(items, k) > 0 {
                1nat
            } else {
                0nat
            },
        forall|k: K::V|
            #[trigger] key_count(split_pass(items).1, k) == if key_count(items, k) > 0 {
                (key_count(items, k) - 1) as nat
            } else {
                0nat
            },
    decreases items.len(),
{
    if items.len() > 0 {
        let rest = items.drop_last();
        let x = items.last();
        let prev = split_pass(rest);
        lemma_split_pass(rest);
        assert(rest.push(x) =~= items);
        lemma_key_count_contains(prev.0, x.0@);
        assert forall|k: K::V| #[trigger]
            key_count(split_pass(items).0, k) == if key_count(items, k) > 0 {
                1nat
            } else {
                0nat
            } by {
            lemma_key_count_push(prev.0, x, k);
            lemma_key_count_push(rest, x, k);
            assert(key_count(prev.0, k) == if key_count(rest, k) > 0 {
                1nat
            } else {
                0nat
            });
        }
        assert forall|k: K::V| #[trigger]
            key_count(split_pass(items).1, k) == if key_count(items, k) > 0 {
                (key_count(items, k) - 1) as nat
            } else {
                0nat
            } by {
            lemma_key_count_push(prev.1, x, k);
            lemma_key_count_push(rest, x, k);
            assert(key_count(prev.1, k) == if key_count(rest, k) > 0 {
                (key_count(rest, k) - 1) as nat
            } else {
                0nat
            });
            assert(key_count(prev.0, k) == if key_count(rest, k) > 0 {
                1nat
            } else {
                0nat
            });
        }
    }
}

/// The passes' batches together hold the input, each key at most once per batch, and there are
/// as many batches as the most frequent key has pairs.
proof fn lemma_passes_partition<K: View, T>(items: Seq<(K, T)>)
    ensures
        batch_pairs(items).flatten().to_multiset() =~= items.to_multiset(),
        forall|i: int, k: K::V|
            0 <= i < batch_pairs(items).len() ==> #[trigger] key_count(batch_pairs(items)[i], k)
                <= 1,
        forall|i: int| 0 <= i < batch_pairs(items).len() ==> #[trigger] batch_pairs(items)[i].len() > 0,
        forall|k: K::V| #[trigger] key_count(items, k) <= batch_pairs(items).len(),
        batch_pairs(items).len() > 0 ==> exists|k: K::V|
            #[trigger] key_count(items, k) == batch_pairs(items).len(),
        batch_pairs(items).len() == 0 <==> items.len() == 0,
    decreases items.len(),
{
    if items.len() > 0 {
        lemma_split_pass(items);
        let (b, d) = split_pass(items);
        let bs = batch_pairs(items);
        let tail = batch_pairs(d);
        lemma_passes_partition(d);
        assert(bs =~= seq![b] + tail);
        assert(bs.drop_first() =~= tail);
        assert(bs.flatten() =~= b + tail.flatten());
        vstd::seq_lib::lemma_multiset_commutative(b, tail.flatten());
        assert forall|i: int, k: K::V| 0 <= i < bs.len() implies #[trigger] key_count(bs[i], k)
            <= 1 by {
            if i > 0 {
                assert(bs[i] == tail[i - 1]);
            } else {
                assert(key_count(b, k) <= 1);
            }
        }
        assert forall|i: int| 0 <= i < bs.len() implies #[trigger] bs[i].len() > 0 by {
            if i > 0 {
                assert(bs[i] == tail[i - 1]);
            }
        }
        assert forall|k: K::V| #[trigger] key_count(items, k) <= bs.len() by {
            assert(key_count(d, k) <= tail.len());
        }
        if tail.len() > 0 {
            let k = choose|k: K::V| #[trigger] key_count(d, k) == tail.len();
            assert(key_count(items, k) == bs.len());
        } else {
            let k = items.last().0@;
            assert(key_count(items, k) > 0);
            assert(key_count(d, k) == 0);
            assert(key_count(items, k) == bs.len());
        }
    }
}

proof fn lemma_sorted_flatten<K: BatchKey, T>(bs: Seq<Seq<(K, T)>>)
    ensures
        bs.map_values(|b: Seq<(K, T)>| sort_by_key(b)).flatten().to_multiset()
            =~= bs.flatten().to_multiset(),
    decreases bs.len(),
{
    broadcast use vstd::seq_lib::lemma_multiset_commutative;

    if bs.len() > 0 {
        let sorted = bs.map_values(|b: Seq<(K, T)>| sort_by_key(b));
        assert(sorted.drop_first() =~= bs.drop_first().map_values(|b: Seq<(K, T)>| sort_by_key(b)));
        lemma_sorted_flatten(bs.drop_first());
        lemma_sort_by_key(bs[0]);
    }
}

/// Partition law of the batches: together they hold every input pair exactly once, each batch
/// lists its pairs in strictly ascending key order (so no batch holds two pairs whose keys are
/// equal), no batch is empty, and there are exactly as many batches as the most frequent key
/// has pairs: every key has at most that many pairs, and (unless the input is empty) some key
/// has exactly that many.
pub proof fn lemma_batches_partition<K: BatchKey, T>(items: Seq<(K, T)>)
    ensures
        ordered_batches(items).flatten().to_multiset() =~= items.to_multiset(),
        forall|i: int|
            0 <= i < ordered_batches(items).len() ==> keys_ascending(
                #[trigger] ordered_batches(items)[i],
            ),
        forall|i: int|
            0 <= i < ordered_batches(items).len() ==> key_views(
                #[trigger] ordered_batches(items)[i],
            ).no_duplicates(),
        forall|i: int|
            0 <= i < ordered_batches(items).len() ==> #[trigger] ordered_batches(items)[i].len() > 0,
        forall|k: K::V| #[trigger] key_count(items, k) <= ordered_batches(items).len(),
        ordered_batches(items).len() > 0 ==> exists|k: K::V|
            #[trigger] key_count(items, k) == ordered_batches(items).len(),
        ordered_batches(items).len() == 0 <==> items.len() == 0,
{
    let bs = batch_pairs(items);
    let obs = ordered_batches(items);
    lemma_passes_partition(items);
    lemma_sorted_flatten(bs);
    assert forall|i: int| 0 <= i < obs.len() implies keys_ascending(#[trigger] obs[i]) && key_views(
        obs[i],
    ).no_duplicates() && obs[i].len() > 0 by {
        assert forall|k: K::V| #[trigger] key_count(bs[i], k) <= 1 by {}
        lemma_sort_by_key(bs[i]);
        assert forall|a: int, b: int|
            0 <= a < key_views(obs[i]).len() && 0 <= b < key_views(obs[i]).len() && a != b
            implies key_views(obs[i])[a] != key_views(obs[i])[b] by {
            let (lo, hi) = if a < b { (a, b) } else { (b, a) };
            assert(K::precedes(obs[i][lo].0@, obs[i][hi].0@));
            K::lemma_precedes_order(obs[i][lo].0@, obs[i][lo].0@, obs[i][lo].0@);
        }
    }
}

fn contains_key<K: BatchKey, T>(batch: &Vec<(K, T)>, k: &K) -> (r: bool)
    ensures
        r == key_views(batch@).contains(k@),
{
    let mut i: usize = 0;
    while i < batch.len()
        invariant
            i <= batch@.len(),
            forall|j: int| 0 <= j < i ==> batch@[j].0@ != k@,
        decreases batch@.len() - i,
    {
        if batch[i].0.same_key(k) {
            assert(key_views(batch@)[i as int] == k@);
            return true;
        }
        i = i + 1;
    }
    assert(!key_views(batch@).contains(k@)) by {
        if key_views(batch@).contains(k@) {
            let j = choose|j: int| 0 <= j < key_views(batch@).len() && key_views(batch@)[j] == k@;
            assert(batch@[j].0@ == k@);
        }
    }
    false
}

fn split_once<K: BatchKey, T>(items: Vec<(K, T)>) -> (r: (Vec<(K, T)>, Vec<(K, T)>))
    ensures
        (r.0@, r.1@) == split_pass(items@),
{
    let ghost all = items@;
    let mut rest = items;
    let mut taken: Vec<(K, T)> = Vec::new();
    let mut deferred: Vec<(K, T)> = Vec::new();
    let ghost mut n: int = 0;
    while rest.len() > 0
        invariant
            0 <= n <= all.len(),
            rest@ == all.subrange(n, all.len() as int),
            (taken@, deferred@) == split_pass(all.subrange(0, n)),
        decreases rest@.len(),
    {
        let x = rest.remove(0);
        proof {
            assert(all.subrange(0, n + 1).drop_last() =~= all.subrange(0, n));
            assert(x == all[n]);
            assert(rest@ =~= all.subrange(n + 1, all.len() as int));
        }
        if contains_key(&taken, &x.0) {
            deferred.push(x);
        } else {
            taken.push(x);
        }
        proof {
            n = n + 1;
        }
    }
    assert(all.subrange(0, n) =~= all);
    (taken, deferred)
}

fn insert_position<K: BatchKey, T>(s: &Vec<(K, T)>, k: &K) -> (j: usize)
    ensures
        j <= s@.len(),
        forall|m: int| 0 <= m < j ==> !K::precedes(k@, #[trigger] s@[m].0@),
        j < s@.len() ==> K::precedes(k@, s@[j as int].0@),
{
    let mut j: usize = 0;
    while j < s.len()
        invariant
            j <= s@.len(),
            forall|m: int| 0 <= m < j ==> !K::precedes(k@, #[trigger] s@[m].0@),
        decreases s@.len() - j,
    {
        if k.key_precedes(&s[j].0) {
            return j;
        }
        j = j + 1;
    }
    j
}

proof fn lemma_insert_at<K: BatchKey, T>(s: Seq<(K, T)>, x: (K, T), j: int)
    requires
        0 <= j <= s.len(),
        forall|m: int| 0 <= m < j ==> !K::precedes(x.0@, #[trigger] s[m].0@),
        j < s.len() ==> K::precedes(x.0@, s[j].0@),
    ensures
        insert_by_key(s, x) == s.insert(j, x),
    decreases s.len(),
{
    if s.len() == 0 {
        assert(s.insert(j, x) =~= seq![x]);
    } else if j == 0 {
        assert(s.insert(0, x) =~= seq![x] + s);
    } else {
        let rest = s.drop_first();
        assert forall|m: int| 0 <= m < j - 1 implies !K::precedes(x.0@, #[trigger] rest[m].0@) by {
            assert(rest[m] == s[m + 1]);
        }
        assert(!K::precedes(x.0@, s[0].0@));
        lemma_insert_at(rest, x, j - 1);
        assert(seq![s[0]] + rest.insert(j - 1, x) =~= s.insert(j, x));
    }
}

fn sort_pairs<K: BatchKey, T>(pairs: Vec<(K, T)>) -> (r: Vec<(K, T)>)
    ensures
        r@ == sort_by_key(pairs@),
{
    let ghost all = pairs@;
    let mut rest = pairs;
    let mut sorted: Vec<(K, T)> = Vec::new();
    let ghost mut n: int = 0;
    while rest.len() > 0
        invariant
            0 <= n <= all.len(),
            rest@ == all.subrange(n, all.len() as int),
            sorted@ == sort_by_key(all.subrange(0, n)),
        decreases rest@.len(),
    {
        let x = rest.remove(0);
        proof {
            assert(all.subrange(0, n + 1).drop_last() =~= all.subrange(0, n));
            assert(x == all[n]);
            assert(rest@ =~= all.subrange(n + 1, all.len() as int));
        }
        let j = insert_position(&sorted, &x.0);
        proof {
            lemma_insert_at(sorted@, x, j as int);
        }
        sorted.insert(j, x);
        proof {
            n = n + 1;
        }
    }
    assert(all.subrange(0, n) =~= all);
    sorted
}

fn into_values<K, T>(pairs: Vec<(K, T)>) -> (r: Vec<T>)
    ensures
        r@ == item_values(pairs@),
{
    let ghost all = pairs@;
    let mut rest = pairs;
    let mut out: Vec<T> = Vec::new();
    while rest.len() > 0
        invariant
            out@.len() <= all.len(),
            rest@ == all.subrange(out@.len() as int, all.len() as int),
            out@ =~= item_values(all.subrange(0, out@.len() as int)),
        decreases rest@.len(),
    {
        let x = rest.remove(0);
        proof {
            assert(x == all[out@.len() as int]);
        }
        out.push(x.1);
        assert(rest@ =~= all.subrange(out@.len() as int, all.len() as int));
    }
    out
}

/// Divides `items` into batches such that no batch holds two items whose keys are equal.
///
/// Each pass takes the first item of every key still waiting and defers the others, in their
/// order, to the next pass; the items of one batch are listed in ascending key order. An empty
/// input gives no batch.
pub fn into_batches<K: BatchKey, T>(items: Vec<(K, T)>) -> (r: Vec<Vec<T>>)
    ensures
        r@.map_values(|b: Vec<T>| b@) == batch_values(items@),
{
    let ghost all = items@;
    let mut remaining = items;
    let mut out: Vec<Vec<T>> = Vec::new();
    let ghost mut done: Seq<Seq<(K, T)>> = Seq::empty();
    while remaining.len() > 0
        invariant
            batch_pairs(all) =~= done + batch_pairs(remaining@),
            out@.len() == done.len(),
            forall|i: int|
                0 <= i < done.len() ==> #[trigger] out@[i]@ == item_values(sort_by_key(done[i])),
        decreases remaining@.len(),
    {
        proof {
            lemma_split_pass(remaining@);
        }
        let ghost before = remaining@;
        let (taken, deferred) = split_once(remaining);
        proof {
            assert(batch_pairs(before) =~= seq![taken@] + batch_pairs(deferred@));
            done = done.push(taken@);
        }
        out.push(into_values(sort_pairs(taken)));
        remaining = deferred;
    }
    assert(batch_pairs(remaining@) =~= Seq::<Seq<(K, T)>>::empty());
    assert(done =~= batch_pairs(all));
    assert forall|i: int| 0 <= i < out@.len() implies #[trigger] batch_values(all)[i] == out@[i]@ by {
        assert(ordered_batches(all)[i] == sort_by_key(done[i]));
    }
    assert(out@.map_values(|b: Vec<T>| b@) =~= batch_values(all));
    out
}

} // verus!
