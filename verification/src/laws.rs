//! The engine's general laws, proved once and for all inputs: comparing
//! a tree with itself reports nothing, writing back a value that is
//! already present changes nothing, and swapping the two inputs swaps
//! every record's side.

use vstd::prelude::*;
use vstd::multiset::Multiset;
use crate::access::{SetErrV, spec_get, spec_set};
use crate::diff::{
    DiffV, PathFilterV, arr_diffs, arr_elem, arr_len, entries_of, hash_diffs_first,
    hash_diffs_second, hget, hhas, leaf_diffs, max_int, spec_diffs,
};
use crate::index::DocKeyV;
use crate::keypath::ItemKeyV;
use crate::node::{
    NodeV, hash_has_key, hash_insert, hash_lookup, keys_unique, lemma_hash_lookup_at,
    lemma_hash_lookup_has_key, lemma_lookup_size, lemma_size_entries_elem, lemma_size_seq_elem,
    size_v, wf_node,
};

verus! {

// ---------------------------------------------------------------------
// Idempotence: comparing a well-formed tree with itself reports nothing.
// ---------------------------------------------------------------------
proof fn lemma_refl_arr(f: PathFilterV, d: DocKeyV, p: Seq<ItemKeyV>, a: NodeV, i: int)
    requires
        wf_node(a),
        a is Arr,
    ensures
        arr_diffs(f, d, p, a, a, i) == Seq::<DiffV>::empty(),
    decreases size_v(a) + size_v(a), 2int, max_int(arr_len(a), arr_len(a)) - i,
{
    if 0 <= i < max_int(arr_len(a), arr_len(a)) {
        lemma_size_seq_elem(a->Arr_0, i);
        assert(wf_node(arr_elem(a, i)));
        lemma_diff_self_empty(f, d, p.push(ItemKeyV::Index(i)), arr_elem(a, i));
        lemma_refl_arr(f, d, p, a, i + 1);
        assert(Seq::<DiffV>::empty() + Seq::<DiffV>::empty() =~= Seq::<DiffV>::empty());
    }
}

proof fn lemma_refl_hash_first(f: PathFilterV, d: DocKeyV, p: Seq<ItemKeyV>, a: NodeV, i: int)
    requires
        wf_node(a),
        a is Hash,
    ensures
        hash_diffs_first(f, d, p, a, a, i) == Seq::<DiffV>::empty(),
    decreases size_v(a) + size_v(a), 2int, entries_of(a).len() - i,
{
    if 0 <= i < entries_of(a).len() {
        let es = a->Hash_0;
        lemma_size_entries_elem(es, i);
        lemma_hash_lookup_at(es, i);
        assert(hget(a, es[i].0) == es[i].1);
        assert(wf_node(es[i].1));
        lemma_diff_self_empty(f, d, p.push(ItemKeyV::Key(es[i].0)), es[i].1);
        lemma_refl_hash_first(f, d, p, a, i + 1);
        assert(Seq::<DiffV>::empty() + Seq::<DiffV>::empty() =~= Seq::<DiffV>::empty());
    }
}

proof fn lemma_refl_hash_second(f: PathFilterV, d: DocKeyV, p: Seq<ItemKeyV>, a: NodeV, i: int)
    requires
        a is Hash,
    ensures
        hash_diffs_second(f, d, p, a, a, i) == Seq::<DiffV>::empty(),
    decreases entries_of(a).len() - i,
{
    if 0 <= i < entries_of(a).len() {
        let es = a->Hash_0;
        assert(hhas(a, es[i].0)) by {
            assert((#[trigger] es[i]).0 == es[i].0);
        }
        lemma_refl_hash_second(f, d, p, a, i + 1);
        assert(Seq::<DiffV>::empty() + Seq::<DiffV>::empty() =~= Seq::<DiffV>::empty());
    }
}

/// Idempotence: walking a well-formed tree against itself emits no
/// record, whatever the filter, the document key and the path prefix.
pub proof fn lemma_diff_self_empty(f: PathFilterV, d: DocKeyV, p: Seq<ItemKeyV>, a: NodeV)
    requires
        wf_node(a),
    ensures
        spec_diffs(f, d, p, a, a) == Seq::<DiffV>::empty(),
    decreases size_v(a) + size_v(a), 3int, 0int,
{
    if a is Arr {
        lemma_refl_arr(f, d, p, a, 0);
        assert(Seq::<DiffV>::empty() + Seq::<DiffV>::empty() =~= Seq::<DiffV>::empty());
    } else if a is Hash {
        lemma_refl_hash_first(f, d, p, a, 0);
        lemma_refl_hash_second(f, d, p, a, 0);
        assert(Seq::<DiffV>::empty() + Seq::<DiffV>::empty() + Seq::<DiffV>::empty() =~= Seq::<
            DiffV,
        >::empty());
    } else {
        assert(spec_diffs(f, d, p, a, a) == leaf_diffs(f, d, p, a, a));
    }
}

// ---------------------------------------------------------------------
// Writing back a value already present changes nothing.
// ---------------------------------------------------------------------
proof fn lemma_lookup_first_index(es: Seq<(Seq<char>, NodeV)>, k: Seq<char>)
    requires
        hash_lookup(es, k) is Some,
    ensures
        exists|i: int|
            {
                &&& 0 <= i < es.len()
                &&& (#[trigger] es[i]).0 == k
                &&& hash_lookup(es, k) == Some(es[i].1)
                &&& forall|j: int| 0 <= j < i ==> (#[trigger] es[j]).0 != k
            },
    decreases es.len(),
{
    if es.len() > 0 {
        if es[0].0 == k {
            assert(es[0].0 == k && hash_lookup(es, k) == Some(es[0].1));
        } else {
            lemma_lookup_first_index(es.drop_first(), k);
            let i = choose|i: int|
                {
                    &&& 0 <= i < es.drop_first().len()
                    &&& (#[trigger] es.drop_first()[i]).0 == k
                    &&& hash_lookup(es.drop_first(), k) == Some(es.drop_first()[i].1)
                    &&& forall|j: int|
                        0 <= j < i ==> (#[trigger] es.drop_first()[j]).0 != k
                };
            assert(es[i + 1] == es.drop_first()[i]);
            assert(forall|j: int| 0 < j < i + 1 ==> #[trigger] es[j] == es.drop_first()[j - 1]);
            assert((#[trigger] es[i + 1]).0 == k && hash_lookup(es, k) == Some(es[i + 1].1)
                && forall|j: int| 0 <= j < i + 1 ==> (#[trigger] es[j]).0 != k);
        }
    }
}

/// Writing back the value a path already resolves to leaves the tree
/// exactly as it was.
pub proof fn lemma_set_same_value(n: NodeV, p: Seq<ItemKeyV>)
    requires
        spec_get(n, p) is Ok,
    ensures
        spec_set(n, p, spec_get(n, p)->Ok_0) == Ok::<NodeV, SetErrV>(n),
    decreases p.len(),
{
    if p.len() > 0 {
        let v = spec_get(n, p)->Ok_0;
        match p[0] {
            ItemKeyV::Key(k) => {
                let es = n->Hash_0;
                assert(hash_lookup(es, k) is Some);
                let c = hash_lookup(es, k)->0;
                lemma_lookup_first_index(es, k);
                let i = choose|i: int|
                    {
                        &&& 0 <= i < es.len()
                        &&& (#[trigger] es[i]).0 == k
                        &&& hash_lookup(es, k) == Some(es[i].1)
                        &&& forall|j: int| 0 <= j < i ==> (#[trigger] es[j]).0 != k
                    };
                if p.len() == 1 {
                    assert(v == c);
                    crate::node::lemma_hash_insert_found(es, i, k, v);
                    assert(es.update(i, (k, v)) =~= es) by {
                        assert(es[i] == (k, v));
                    }
                    assert(NodeV::Hash(hash_insert(es, k, v)) == n);
                } else {
                    lemma_set_same_value(c, p.drop_first());
                    assert(spec_get(c, p.drop_first()) is Ok && spec_get(c, p.drop_first())->Ok_0
                        == v);
                    crate::node::lemma_hash_insert_found(es, i, k, c);
                    assert(es.update(i, (k, c)) =~= es) by {
                        assert(es[i] == (k, c));
                    }
                    assert(spec_set(n, p, v) == Ok::<NodeV, SetErrV>(
                        NodeV::Hash(hash_insert(es, k, c)),
                    ));
                }
            },
            ItemKeyV::Index(i) => {
                let elems = n->Arr_0;
                assert(n is Arr && 0 <= i < elems.len());
                let c = elems[i];
                if p.len() == 1 {
                    assert(v == c);
                    assert(elems.update(i, v) =~= elems);
                } else {
                    lemma_set_same_value(c, p.drop_first());
                    assert(elems.update(i, c) =~= elems);
                }
            },
        }
    }
}

// ---------------------------------------------------------------------
// Symmetry: swapping the two inputs swaps every record's side.
// ---------------------------------------------------------------------
/// The record with its sides swapped: an addition becomes a removal and
/// back, a change swaps its two values.
pub open spec fn swap_record(r: DiffV) -> DiffV {
    match r {
        DiffV::Added { doc, path, value } => DiffV::Removed { doc, path, value },
        DiffV::Removed { doc, path, value } => DiffV::Added { doc, path, value },
        DiffV::Changed { doc, path, original, modified } => DiffV::Changed {
            doc,
            path,
            original: modified,
            modified: original,
        },
    }
}

/// The records of a sequence as an unordered collection.
pub open spec fn ms(s: Seq<DiffV>) -> Multiset<DiffV>
    decreases s.len(),
{
    if s.len() == 0 {
        Multiset::empty()
    } else {
        ms(s.drop_first()).insert(s[0])
    }
}

/// The side-swapped records of a sequence as an unordered collection.
pub open spec fn msw(s: Seq<DiffV>) -> Multiset<DiffV> {
    ms(s.map_values(|r: DiffV| swap_record(r)))
}

proof fn lemma_ms_concat(a: Seq<DiffV>, b: Seq<DiffV>)
    ensures
        ms(a + b) == ms(a).add(ms(b)),
    decreases a.len(),
{
    if a.len() == 0 {
        assert(a + b =~= b);
        assert(ms(a) == Multiset::<DiffV>::empty());
        assert(Multiset::<DiffV>::empty().add(ms(b)) =~= ms(b));
    } else {
        assert((a + b).drop_first() =~= a.drop_first() + b);
        assert((a + b)[0] == a[0]);
        lemma_ms_concat(a.drop_first(), b);
        assert(ms(a + b) == (ms(a.drop_first()).add(ms(b))).insert(a[0]));
        assert((ms(a.drop_first()).add(ms(b))).insert(a[0]) =~= (ms(a.drop_first()).insert(
            a[0],
        )).add(ms(b)));
    }
}

proof fn lemma_msw_concat(a: Seq<DiffV>, b: Seq<DiffV>)
    ensures
        msw(a + b) == msw(a).add(msw(b)),
{
    let f = |r: DiffV| swap_record(r);
    assert((a + b).map_values(f) =~= a.map_values(f) + b.map_values(f));
    lemma_ms_concat(a.map_values(f), b.map_values(f));
}

proof fn lemma_ms_single(x: DiffV)
    ensures
        ms(seq![x]) == Multiset::<DiffV>::empty().insert(x),
{
    assert(seq![x].drop_first() =~= Seq::<DiffV>::empty());
    assert(ms(Seq::<DiffV>::empty()) == Multiset::<DiffV>::empty());
}

proof fn lemma_msw_single(x: DiffV)
    ensures
        msw(seq![x]) == Multiset::<DiffV>::empty().insert(swap_record(x)),
{
    let f = |r: DiffV| swap_record(r);
    assert(seq![x].map_values(f) =~= seq![swap_record(x)]);
    lemma_ms_single(swap_record(x));
}

proof fn lemma_ms_empty()
    ensures
        ms(Seq::<DiffV>::empty()) == Multiset::<DiffV>::empty(),
        msw(Seq::<DiffV>::empty()) == Multiset::<DiffV>::empty(),
{
    let f = |r: DiffV| swap_record(r);
    assert(Seq::<DiffV>::empty().map_values(f) =~= Seq::<DiffV>::empty());
}

/// The keys of a mapping's entries, in order.
spec fn keys_of(es: Seq<(Seq<char>, NodeV)>) -> Seq<Seq<char>> {
    es.map_values(|e: (Seq<char>, NodeV)| e.0)
}

/// The keys of a list that the other side does not bear, in order.
spec fn exkeys(ks: Seq<Seq<char>>, other: NodeV) -> Seq<Seq<char>>
    decreases ks.len(),
{
    if ks.len() == 0 {
        Seq::empty()
    } else if hhas(other, ks[0]) {
        exkeys(ks.drop_first(), other)
    } else {
        seq![ks[0]] + exkeys(ks.drop_first(), other)
    }
}

spec fn kdistinct(ks: Seq<Seq<char>>) -> bool {
    forall|i: int, j: int| 0 <= i < j < ks.len() ==> ks[i] != ks[j]
}

proof fn lemma_exkeys_facts(ks: Seq<Seq<char>>, other: NodeV)
    ensures
        forall|k: Seq<char>|
            #[trigger] exkeys(ks, other).contains(k) <==> (ks.contains(k) && !hhas(other, k)),
        kdistinct(ks) ==> kdistinct(exkeys(ks, other)),
    decreases ks.len(),
{
    let ex = exkeys(ks, other);
    if ks.len() == 0 {
        assert(forall|k: Seq<char>| !(#[trigger] ex.contains(k)));
        assert(forall|k: Seq<char>| !(#[trigger] ks.contains(k)));
    } else {
        lemma_exkeys_facts(ks.drop_first(), other);
        let rest = exkeys(ks.drop_first(), other);
        assert forall|k: Seq<char>| #[trigger] ks.contains(k) implies (k == ks[0]
            || ks.drop_first().contains(k)) by {
            let i = choose|i: int| 0 <= i < ks.len() && ks[i] == k;
            if i > 0 {
                assert(ks.drop_first()[i - 1] == k);
            }
        }
        assert(forall|k: Seq<char>|
            ks.drop_first().contains(k) ==> #[trigger] ks.contains(k)) by {
            assert forall|k: Seq<char>| ks.drop_first().contains(k) implies #[trigger] ks.contains(
                k,
            ) by {
                let i = choose|i: int| 0 <= i < ks.drop_first().len() && ks.drop_first()[i] == k;
                assert(ks[i + 1] == k);
            }
        }
        if hhas(other, ks[0]) {
            assert(ex == rest);
            assert forall|k: Seq<char>| #[trigger] ex.contains(k) implies (ks.contains(k) && !hhas(
                other,
                k,
            )) by {}
            assert forall|k: Seq<char>| ks.contains(k) && !hhas(other, k) implies #[trigger] ex.contains(
                k,
            ) by {
                assert(k != ks[0]);
                assert(ks.drop_first().contains(k));
            }
        } else {
            assert(ex == seq![ks[0]] + rest);
            assert forall|k: Seq<char>| #[trigger] ex.contains(k) implies (ks.contains(k) && !hhas(
                other,
                k,
            )) by {
                let i = choose|i: int| 0 <= i < ex.len() && ex[i] == k;
                if i == 0 {
                    assert(k == ks[0]);
                    assert(ks.contains(ks[0]));
                } else {
                    assert(rest[i - 1] == k);
                    assert(rest.contains(k));
                }
            }
            assert forall|k: Seq<char>| ks.contains(k) && !hhas(other, k) implies #[trigger] ex.contains(
                k,
            ) by {
                if k == ks[0] {
                    assert(ex[0] == k);
                } else {
                    assert(ks.drop_first().contains(k));
                    assert(rest.contains(k));
                    let i = choose|i: int| 0 <= i < rest.len() && rest[i] == k;
                    assert(ex[i + 1] == k);
                }
            }
            if kdistinct(ks) {
                assert(kdistinct(ks.drop_first())) by {
                    assert(forall|i: int|
                        0 <= i < ks.len() - 1 ==> #[trigger] ks.drop_first()[i] == ks[i + 1]);
                }
                assert forall|i: int, j: int| 0 <= i < j < ex.len() implies ex[i] != ex[j] by {
                    if i == 0 {
                        assert(ex[j] == rest[j - 1]);
                        assert(rest.contains(rest[j - 1]));
                        assert(ks.drop_first().contains(rest[j - 1]));
                        if ex[0] == ex[j] {
                            let m = choose|m: int|
                                0 <= m < ks.drop_first().len() && ks.drop_first()[m] == rest[j - 1];
                            assert(ks[m + 1] == ks[0]);
                        }
                    } else {
                        assert(ex[i] == rest[i - 1] && ex[j] == rest[j - 1]);
                    }
                }
            }
        }
        if kdistinct(ks) && hhas(other, ks[0]) {
            assert(kdistinct(ks.drop_first())) by {
                assert(forall|i: int|
                    0 <= i < ks.len() - 1 ==> #[trigger] ks.drop_first()[i] == ks[i + 1]);
            }
        }
    }
}

proof fn lemma_keys_of_has(es: Seq<(Seq<char>, NodeV)>, k: Seq<char>)
    ensures
        keys_of(es).contains(k) <==> hash_has_key(es, k),
{
    if keys_of(es).contains(k) {
        let i = choose|i: int| 0 <= i < keys_of(es).len() && keys_of(es)[i] == k;
        assert((#[trigger] es[i]).0 == k);
    }
    if hash_has_key(es, k) {
        let i = choose|i: int| 0 <= i < es.len() && (#[trigger] es[i]).0 == k;
        assert(keys_of(es)[i] == k);
    }
}

/// The collected records of walking, key by key, the values the two
/// sides hold under each key of a list (null where a side lacks it).
spec fn msum(f: PathFilterV, d: DocKeyV, p: Seq<ItemKeyV>, ks: Seq<Seq<char>>, x: NodeV, y: NodeV) -> Multiset<
    DiffV,
>
    decreases ks.len(),
{
    if ks.len() == 0 {
        Multiset::empty()
    } else {
        ms(spec_diffs(f, d, p.push(ItemKeyV::Key(ks[0])), hget(x, ks[0]), hget(y, ks[0]))).add(
            msum(f, d, p, ks.drop_first(), x, y),
        )
    }
}

/// As [`msum`], but collecting each walk's records side-swapped.
spec fn msum_sw(
    f: PathFilterV,
    d: DocKeyV,
    p: Seq<ItemKeyV>,
    ks: Seq<Seq<char>>,
    x: NodeV,
    y: NodeV,
) -> Multiset<DiffV>
    decreases ks.len(),
{
    if ks.len() == 0 {
        Multiset::empty()
    } else {
        msw(spec_diffs(f, d, p.push(ItemKeyV::Key(ks[0])), hget(x, ks[0]), hget(y, ks[0]))).add(
            msum_sw(f, d, p, ks.drop_first(), x, y),
        )
    }
}

/// The size of what either side holds under a key present on one side is
/// strictly below the pair's total size.
spec fn key_bound(k: Seq<char>, a: NodeV, b: NodeV) -> bool {
    size_v(hget(a, k)) + size_v(hget(b, k)) < size_v(a) + size_v(b)
}

proof fn lemma_hget_bound(x: NodeV, k: Seq<char>)
    ensures
        hhas(x, k) ==> x is Hash && size_v(hget(x, k)) <= size_v(x) - 1,
        !hhas(x, k) ==> hget(x, k) == NodeV::Null,
{
    if hhas(x, k) {
        lemma_hash_lookup_has_key(x->Hash_0, k);
        lemma_lookup_size(x->Hash_0, k);
    } else {
        if x is Hash {
            lemma_hash_lookup_has_key(x->Hash_0, k);
        }
    }
}

/// First walk of a mapping pair, as a key sum.
proof fn lemma_h1_as_msum(f: PathFilterV, d: DocKeyV, p: Seq<ItemKeyV>, a: NodeV, b: NodeV, i: int)
    requires
        a is Hash ==> keys_unique(a->Hash_0),
        0 <= i <= entries_of(a).len(),
    ensures
        ms(hash_diffs_first(f, d, p, a, b, i)) == msum(
            f,
            d,
            p,
            keys_of(entries_of(a)).skip(i),
            a,
            b,
        ),
    decreases entries_of(a).len() - i,
{
    let ks = keys_of(entries_of(a)).skip(i);
    if i >= entries_of(a).len() {
        assert(ks =~= Seq::<Seq<char>>::empty());
        lemma_ms_empty();
    } else {
        let es = entries_of(a);
        assert(ks[0] == es[i].0);
        assert(ks.drop_first() =~= keys_of(es).skip(i + 1));
        lemma_hash_lookup_at(es, i);
        assert(hget(a, es[i].0) == es[i].1);
        lemma_h1_as_msum(f, d, p, a, b, i + 1);
        lemma_ms_concat(
            spec_diffs(f, d, p.push(ItemKeyV::Key(es[i].0)), es[i].1, hget(b, es[i].0)),
            hash_diffs_first(f, d, p, a, b, i + 1),
        );
    }
}

/// Second walk of a mapping pair, as a key sum over the exclusive keys.
proof fn lemma_h2_as_msum(f: PathFilterV, d: DocKeyV, p: Seq<ItemKeyV>, a: NodeV, b: NodeV, i: int)
    requires
        b is Hash ==> keys_unique(b->Hash_0),
        0 <= i <= entries_of(b).len(),
    ensures
        ms(hash_diffs_second(f, d, p, a, b, i)) == msum(
            f,
            d,
            p,
            exkeys(keys_of(entries_of(b)).skip(i), a),
            a,
            b,
        ),
    decreases entries_of(b).len() - i,
{
    let ks = keys_of(entries_of(b)).skip(i);
    if i >= entries_of(b).len() {
        assert(ks =~= Seq::<Seq<char>>::empty());
        lemma_ms_empty();
    } else {
        let es = entries_of(b);
        assert(ks[0] == es[i].0);
        assert(ks.drop_first() =~= keys_of(es).skip(i + 1));
        lemma_h2_as_msum(f, d, p, a, b, i + 1);
        if hhas(a, es[i].0) {
            assert(exkeys(ks, a) == exkeys(ks.drop_first(), a));
            lemma_ms_concat(Seq::<DiffV>::empty(), hash_diffs_second(f, d, p, a, b, i + 1));
            assert(Seq::<DiffV>::empty() + hash_diffs_second(f, d, p, a, b, i + 1)
                =~= hash_diffs_second(f, d, p, a, b, i + 1));
        } else {
            lemma_hash_lookup_at(es, i);
            assert(hget(b, es[i].0) == es[i].1);
            lemma_hget_bound(a, es[i].0);
            assert(hget(a, es[i].0) == NodeV::Null);
            lemma_ms_concat(
                spec_diffs(f, d, p.push(ItemKeyV::Key(es[i].0)), NodeV::Null, es[i].1),
                hash_diffs_second(f, d, p, a, b, i + 1),
            );
            assert(exkeys(ks, a) == seq![es[i].0] + exkeys(ks.drop_first(), a));
            assert(exkeys(ks, a)[0] == es[i].0);
            assert(exkeys(ks, a).drop_first() =~= exkeys(ks.drop_first(), a));
        }
    }
}

/// First walk of a mapping pair, as a side-swapped key sum.
proof fn lemma_h1_as_msum_sw(
    f: PathFilterV,
    d: DocKeyV,
    p: Seq<ItemKeyV>,
    a: NodeV,
    b: NodeV,
    i: int,
)
    requires
        a is Hash ==> keys_unique(a->Hash_0),
        0 <= i <= entries_of(a).len(),
    ensures
        msw(hash_diffs_first(f, d, p, a, b, i)) == msum_sw(
            f,
            d,
            p,
            keys_of(entries_of(a)).skip(i),
            a,
            b,
        ),
    decreases entries_of(a).len() - i,
{
    let ks = keys_of(entries_of(a)).skip(i);
    if i >= entries_of(a).len() {
        assert(ks =~= Seq::<Seq<char>>::empty());
        lemma_ms_empty();
    } else {
        let es = entries_of(a);
        assert(ks[0] == es[i].0);
        assert(ks.drop_first() =~= keys_of(es).skip(i + 1));
        lemma_hash_lookup_at(es, i);
        assert(hget(a, es[i].0) == es[i].1);
        lemma_h1_as_msum_sw(f, d, p, a, b, i + 1);
        lemma_msw_concat(
            spec_diffs(f, d, p.push(ItemKeyV::Key(es[i].0)), es[i].1, hget(b, es[i].0)),
            hash_diffs_first(f, d, p, a, b, i + 1),
        );
    }
}

/// Second walk of a mapping pair, as a side-swapped key sum over the
/// exclusive keys.
proof fn lemma_h2_as_msum_sw(
    f: PathFilterV,
    d: DocKeyV,
    p: Seq<ItemKeyV>,
    a: NodeV,
    b: NodeV,
    i: int,
)
    requires
        b is Hash ==> keys_unique(b->Hash_0),
        0 <= i <= entries_of(b).len(),
    ensures
        msw(hash_diffs_second(f, d, p, a, b, i)) == msum_sw(
            f,
            d,
            p,
            exkeys(keys_of(entries_of(b)).skip(i), a),
            a,
            b,
        ),
    decreases entries_of(b).len() - i,
{
    let ks = keys_of(entries_of(b)).skip(i);
    if i >= entries_of(b).len() {
        assert(ks =~= Seq::<Seq<char>>::empty());
        lemma_ms_empty();
    } else {
        let es = entries_of(b);
        assert(ks[0] == es[i].0);
        assert(ks.drop_first() =~= keys_of(es).skip(i + 1));
        lemma_h2_as_msum_sw(f, d, p, a, b, i + 1);
        if hhas(a, es[i].0) {
            assert(exkeys(ks, a) == exkeys(ks.drop_first(), a));
            lemma_msw_concat(Seq::<DiffV>::empty(), hash_diffs_second(f, d, p, a, b, i + 1));
            assert(Seq::<DiffV>::empty() + hash_diffs_second(f, d, p, a, b, i + 1)
                =~= hash_diffs_second(f, d, p, a, b, i + 1));
            lemma_ms_empty();
        } else {
            lemma_hash_lookup_at(es, i);
            assert(hget(b, es[i].0) == es[i].1);
            lemma_hget_bound(a, es[i].0);
            assert(hget(a, es[i].0) == NodeV::Null);
            lemma_msw_concat(
                spec_diffs(f, d, p.push(ItemKeyV::Key(es[i].0)), NodeV::Null, es[i].1),
                hash_diffs_second(f, d, p, a, b, i + 1),
            );
            assert(exkeys(ks, a) == seq![es[i].0] + exkeys(ks.drop_first(), a));
            assert(exkeys(ks, a)[0] == es[i].0);
            assert(exkeys(ks, a).drop_first() =~= exkeys(ks.drop_first(), a));
        }
    }
}

/// A key sum is unchanged when one key is taken out and its term added
/// apart.
proof fn lemma_msum_remove(
    f: PathFilterV,
    d: DocKeyV,
    p: Seq<ItemKeyV>,
    ks: Seq<Seq<char>>,
    x: NodeV,
    y: NodeV,
    j: int,
)
    requires
        0 <= j < ks.len(),
    ensures
        msum(f, d, p, ks, x, y) == ms(
            spec_diffs(f, d, p.push(ItemKeyV::Key(ks[j])), hget(x, ks[j]), hget(y, ks[j])),
        ).add(msum(f, d, p, ks.remove(j), x, y)),
    decreases j,
{
    if j == 0 {
        assert(ks.remove(0) =~= ks.drop_first());
    } else {
        assert(ks.remove(j)[0] == ks[0]);
        assert(ks.remove(j).drop_first() =~= ks.drop_first().remove(j - 1));
        assert(ks.drop_first()[j - 1] == ks[j]);
        lemma_msum_remove(f, d, p, ks.drop_first(), x, y, j - 1);
        let t0 = ms(spec_diffs(f, d, p.push(ItemKeyV::Key(ks[0])), hget(x, ks[0]), hget(y, ks[0])));
        let tj = ms(spec_diffs(f, d, p.push(ItemKeyV::Key(ks[j])), hget(x, ks[j]), hget(y, ks[j])));
        assert(msum(f, d, p, ks, x, y) == t0.add(
            tj.add(msum(f, d, p, ks.drop_first().remove(j - 1), x, y)),
        ));
        assert(t0.add(tj.add(msum(f, d, p, ks.drop_first().remove(j - 1), x, y))) =~= tj.add(
            t0.add(msum(f, d, p, ks.drop_first().remove(j - 1), x, y)),
        ));
    }
}

/// A key sum does not depend on the order of a duplicate-free key list.
proof fn lemma_msum_perm(
    f: PathFilterV,
    d: DocKeyV,
    p: Seq<ItemKeyV>,
    ks1: Seq<Seq<char>>,
    ks2: Seq<Seq<char>>,
    x: NodeV,
    y: NodeV,
)
    requires
        kdistinct(ks1),
        kdistinct(ks2),
        forall|k: Seq<char>| ks1.contains(k) <==> ks2.contains(k),
    ensures
        msum(f, d, p, ks1, x, y) == msum(f, d, p, ks2, x, y),
    decreases ks1.len(),
{
    if ks1.len() == 0 {
        if ks2.len() > 0 {
            assert(ks2.contains(ks2[0]));
            assert(ks1.contains(ks2[0]));
        }
    } else {
        let k0 = ks1[0];
        assert(ks1.contains(k0));
        assert(ks2.contains(k0));
        let j = choose|j: int| 0 <= j < ks2.len() && ks2[j] == k0;
        lemma_msum_remove(f, d, p, ks2, x, y, j);
        assert(kdistinct(ks1.drop_first())) by {
            assert(forall|i: int|
                0 <= i < ks1.len() - 1 ==> #[trigger] ks1.drop_first()[i] == ks1[i + 1]);
        }
        assert(kdistinct(ks2.remove(j))) by {
            assert(forall|i: int|
                0 <= i < ks2.len() - 1 ==> #[trigger] ks2.remove(j)[i] == (if i < j {
                    ks2[i]
                } else {
                    ks2[i + 1]
                }));
        }
        assert(forall|k: Seq<char>|
            ks1.drop_first().contains(k) <==> ks2.remove(j).contains(k)) by {
            assert forall|k: Seq<char>| #[trigger] ks1.drop_first().contains(k) implies ks2.remove(
                j,
            ).contains(k) by {
                let i = choose|i: int| 0 <= i < ks1.drop_first().len() && ks1.drop_first()[i] == k;
                assert(ks1[i + 1] == k);
                assert(k != k0);
                assert(ks1.contains(k)) by {
                    assert(ks1[i + 1] == k);
                }
                assert(ks2.contains(k));
                let m = choose|m: int| 0 <= m < ks2.len() && ks2[m] == k;
                assert(m != j);
                if m < j {
                    assert(ks2.remove(j)[m] == k);
                } else {
                    assert(ks2.remove(j)[m - 1] == k);
                }
            }
            assert forall|k: Seq<char>| #[trigger] ks2.remove(j).contains(k) implies ks1.drop_first().contains(
                k,
            ) by {
                let m = choose|m: int| 0 <= m < ks2.remove(j).len() && ks2.remove(j)[m] == k;
                if m < j {
                    assert(ks2[m] == k);
                    assert(k != k0);
                } else {
                    assert(ks2[m + 1] == k);
                    assert(k != k0);
                }
                assert(ks2.contains(k));
                assert(ks1.contains(k));
                let i = choose|i: int| 0 <= i < ks1.len() && ks1[i] == k;
                assert(i != 0);
                assert(ks1.drop_first()[i - 1] == k);
            }
        }
        lemma_msum_perm(f, d, p, ks1.drop_first(), ks2.remove(j), x, y);
    }
}

/// Per key list, the swapped records of walking (x, y) are the records of
/// walking (y, x).
proof fn lemma_msum_swap(
    f: PathFilterV,
    d: DocKeyV,
    p: Seq<ItemKeyV>,
    ks: Seq<Seq<char>>,
    a: NodeV,
    b: NodeV,
)
    requires
        wf_node(a),
        wf_node(b),
        forall|k: Seq<char>| ks.contains(k) ==> #[trigger] key_bound(k, a, b),
    ensures
        msum(f, d, p, ks, b, a) == msum_sw(f, d, p, ks, a, b),
    decreases size_v(a) + size_v(b), 2int, ks.len(),
{
    if ks.len() > 0 {
        let k0 = ks[0];
        assert(ks.contains(k0));
        assert(key_bound(k0, a, b));
        assert(wf_node(hget(a, k0)) && wf_node(hget(b, k0))) by {
            lemma_hget_bound(a, k0);
            lemma_hget_bound(b, k0);
            if hhas(a, k0) {
                lemma_hash_lookup_has_key(a->Hash_0, k0);
                let i = choose|i: int|
                    0 <= i < a->Hash_0.len() && (#[trigger] a->Hash_0[i]).0 == k0;
                lemma_hash_lookup_at(a->Hash_0, i);
            }
            if hhas(b, k0) {
                lemma_hash_lookup_has_key(b->Hash_0, k0);
                let i = choose|i: int|
                    0 <= i < b->Hash_0.len() && (#[trigger] b->Hash_0[i]).0 == k0;
                lemma_hash_lookup_at(b->Hash_0, i);
            }
        }
        lemma_diff_swap(f, d, p.push(ItemKeyV::Key(k0)), hget(a, k0), hget(b, k0));
        assert(forall|k: Seq<char>|
            ks.drop_first().contains(k) ==> #[trigger] key_bound(k, a, b)) by {
            assert forall|k: Seq<char>| ks.drop_first().contains(k) implies #[trigger] key_bound(
                k,
                a,
                b,
            ) by {
                let i = choose|i: int| 0 <= i < ks.drop_first().len() && ks.drop_first()[i] == k;
                assert(ks[i + 1] == k);
                assert(ks.contains(k));
            }
        }
        lemma_msum_swap(f, d, p, ks.drop_first(), a, b);
    }
}

proof fn lemma_arr_swap(f: PathFilterV, d: DocKeyV, p: Seq<ItemKeyV>, a: NodeV, b: NodeV, i: int)
    requires
        wf_node(a),
        wf_node(b),
    ensures
        ms(arr_diffs(f, d, p, b, a, i)) == msw(arr_diffs(f, d, p, a, b, i)),
    decreases size_v(a) + size_v(b), 2int, max_int(arr_len(a), arr_len(b)) - i,
{
    if i < 0 || i >= max_int(arr_len(a), arr_len(b)) {
        lemma_ms_empty();
    } else {
        assert(max_int(arr_len(b), arr_len(a)) == max_int(arr_len(a), arr_len(b)));
        assert(wf_node(arr_elem(a, i)) && wf_node(arr_elem(b, i))) by {
            if a is Arr && 0 <= i < a->Arr_0.len() {
                assert(wf_node(a->Arr_0[i]));
            }
            if b is Arr && 0 <= i < b->Arr_0.len() {
                assert(wf_node(b->Arr_0[i]));
            }
        }
        if a is Arr && i < arr_len(a) {
            lemma_size_seq_elem(a->Arr_0, i);
        }
        if b is Arr && i < arr_len(b) {
            lemma_size_seq_elem(b->Arr_0, i);
        }
        lemma_diff_swap(f, d, p.push(ItemKeyV::Index(i)), arr_elem(a, i), arr_elem(b, i));
        lemma_arr_swap(f, d, p, a, b, i + 1);
        lemma_ms_concat(
            spec_diffs(f, d, p.push(ItemKeyV::Index(i)), arr_elem(b, i), arr_elem(a, i)),
            arr_diffs(f, d, p, b, a, i + 1),
        );
        lemma_msw_concat(
            spec_diffs(f, d, p.push(ItemKeyV::Index(i)), arr_elem(a, i), arr_elem(b, i)),
            arr_diffs(f, d, p, a, b, i + 1),
        );
    }
}

/// Symmetry: walking the two trees in the other order yields, as an
/// unordered collection, exactly the side-swapped records of walking
/// them in this order.
pub proof fn lemma_diff_swap(f: PathFilterV, d: DocKeyV, p: Seq<ItemKeyV>, a: NodeV, b: NodeV)
    requires
        wf_node(a),
        wf_node(b),
    ensures
        ms(spec_diffs(f, d, p, b, a)) == msw(spec_diffs(f, d, p, a, b)),
    decreases size_v(a) + size_v(b), 3int, 0int,
{
    lemma_ms_empty();
    if a is Arr || b is Arr {
        let tail_ab = if !(a is Arr) {
            spec_diffs(f, d, p, a, NodeV::Null)
        } else if !(b is Arr) {
            spec_diffs(f, d, p, NodeV::Null, b)
        } else {
            Seq::<DiffV>::empty()
        };
        let tail_ba = if !(b is Arr) {
            spec_diffs(f, d, p, b, NodeV::Null)
        } else if !(a is Arr) {
            spec_diffs(f, d, p, NodeV::Null, a)
        } else {
            Seq::<DiffV>::empty()
        };
        lemma_arr_swap(f, d, p, a, b, 0);
        if !(a is Arr) {
            lemma_diff_swap(f, d, p, a, NodeV::Null);
            assert(ms(tail_ba) == msw(tail_ab));
        } else if !(b is Arr) {
            lemma_diff_swap(f, d, p, NodeV::Null, b);
            assert(ms(tail_ba) == msw(tail_ab));
        } else {
            assert(ms(tail_ba) == msw(tail_ab));
        }
        lemma_ms_concat(arr_diffs(f, d, p, b, a, 0), tail_ba);
        lemma_msw_concat(arr_diffs(f, d, p, a, b, 0), tail_ab);
    } else if a is Hash || b is Hash {
        let akeys = keys_of(entries_of(a));
        let bkeys = keys_of(entries_of(b));
        let ks_ab = akeys + exkeys(bkeys, a);
        let ks_ba = bkeys + exkeys(akeys, b);
        assert(akeys.skip(0) =~= akeys);
        assert(bkeys.skip(0) =~= bkeys);
        lemma_h1_as_msum(f, d, p, a, b, 0);
        lemma_h2_as_msum(f, d, p, a, b, 0);
        lemma_h1_as_msum(f, d, p, b, a, 0);
        lemma_h2_as_msum(f, d, p, b, a, 0);
        // key lists: distinct and with the same membership
        assert(kdistinct(akeys)) by {
            if a is Hash {
                assert(forall|i: int|
                    0 <= i < akeys.len() ==> #[trigger] akeys[i] == entries_of(a)[i].0);
            }
        }
        assert(kdistinct(bkeys)) by {
            if b is Hash {
                assert(forall|i: int|
                    0 <= i < bkeys.len() ==> #[trigger] bkeys[i] == entries_of(b)[i].0);
            }
        }
        lemma_exkeys_facts(bkeys, a);
        lemma_exkeys_facts(akeys, b);
        assert(forall|k: Seq<char>| #[trigger] akeys.contains(k) <==> hhas(a, k)) by {
            assert forall|k: Seq<char>| true implies (#[trigger] akeys.contains(k) <==> hhas(
                a,
                k,
            )) by {
                if a is Hash {
                    lemma_keys_of_has(entries_of(a), k);
                } else {
                    assert(akeys =~= Seq::<Seq<char>>::empty());
                    if akeys.contains(k) {
                        let i = choose|i: int| 0 <= i < akeys.len() && akeys[i] == k;
                    }
                }
            }
        }
        assert(forall|k: Seq<char>| #[trigger] bkeys.contains(k) <==> hhas(b, k)) by {
            assert forall|k: Seq<char>| true implies (#[trigger] bkeys.contains(k) <==> hhas(
                b,
                k,
            )) by {
                if b is Hash {
                    lemma_keys_of_has(entries_of(b), k);
                } else {
                    assert(bkeys =~= Seq::<Seq<char>>::empty());
                    if bkeys.contains(k) {
                        let i = choose|i: int| 0 <= i < bkeys.len() && bkeys[i] == k;
                    }
                }
            }
        }
        assert(kdistinct(ks_ab)) by {
            lemma_concat_distinct(akeys, exkeys(bkeys, a));
        }
        assert(kdistinct(ks_ba)) by {
            lemma_concat_distinct(bkeys, exkeys(akeys, b));
        }
        assert(forall|k: Seq<char>| ks_ab.contains(k) <==> ks_ba.contains(k)) by {
            assert forall|k: Seq<char>| true implies (ks_ab.contains(k) <==> ks_ba.contains(
                k,
            )) by {
                lemma_concat_contains(akeys, exkeys(bkeys, a), k);
                lemma_concat_contains(bkeys, exkeys(akeys, b), k);
            }
        }
        // every key of either list is properly bounded
        assert(forall|k: Seq<char>|
            ks_ab.contains(k) ==> #[trigger] key_bound(k, a, b)) by {
            assert forall|k: Seq<char>| ks_ab.contains(k) implies #[trigger] key_bound(
                k,
                a,
                b,
            ) by {
                lemma_concat_contains(akeys, exkeys(bkeys, a), k);
                lemma_hget_bound(a, k);
                lemma_hget_bound(b, k);
                if akeys.contains(k) {
                    assert(hhas(a, k));
                } else {
                    assert(exkeys(bkeys, a).contains(k));
                    assert(bkeys.contains(k));
                    assert(hhas(b, k));
                }
            }
        }
        // sums: swapped walk equals the other-order walk, per key
        lemma_msum_swap(f, d, p, ks_ab, a, b);
        // reorder the other-order walk to the (b, a) listing
        lemma_msum_perm(f, d, p, ks_ab, ks_ba, b, a);
        // assemble both sides
        lemma_msum_concat(f, d, p, akeys, exkeys(bkeys, a), b, a);
        lemma_msum_concat(f, d, p, bkeys, exkeys(akeys, b), b, a);
        lemma_msum_sw_concat(f, d, p, akeys, exkeys(bkeys, a), a, b);
        let h1ab = hash_diffs_first(f, d, p, a, b, 0);
        let h2ab = hash_diffs_second(f, d, p, a, b, 0);
        let h1ba = hash_diffs_first(f, d, p, b, a, 0);
        let h2ba = hash_diffs_second(f, d, p, b, a, 0);
        let tail_ab = if !(a is Hash) {
            spec_diffs(f, d, p, a, NodeV::Null)
        } else if !(b is Hash) {
            spec_diffs(f, d, p, NodeV::Null, b)
        } else {
            Seq::<DiffV>::empty()
        };
        let tail_ba = if !(b is Hash) {
            spec_diffs(f, d, p, b, NodeV::Null)
        } else if !(a is Hash) {
            spec_diffs(f, d, p, NodeV::Null, a)
        } else {
            Seq::<DiffV>::empty()
        };
        if !(a is Hash) {
            lemma_diff_swap(f, d, p, a, NodeV::Null);
            assert(ms(tail_ba) == msw(tail_ab));
        } else if !(b is Hash) {
            lemma_diff_swap(f, d, p, NodeV::Null, b);
            assert(ms(tail_ba) == msw(tail_ab));
        } else {
            assert(ms(tail_ba) == msw(tail_ab));
        }
        lemma_ms_concat(h1ba + h2ba, tail_ba);
        lemma_ms_concat(h1ba, h2ba);
        lemma_msw_concat(h1ab + h2ab, tail_ab);
        lemma_msw_concat(h1ab, h2ab);
        assert(ms(h1ba).add(ms(h2ba)) == msum(f, d, p, ks_ba, b, a)) by {
            assert(msum(f, d, p, ks_ba, b, a) == msum(f, d, p, bkeys, b, a).add(
                msum(f, d, p, exkeys(akeys, b), b, a),
            ));
        }
        lemma_h1_as_msum_sw(f, d, p, a, b, 0);
        lemma_h2_as_msum_sw(f, d, p, a, b, 0);
        assert(msw(h1ab).add(msw(h2ab)) == msum_sw(f, d, p, ks_ab, a, b)) by {
            assert(msum_sw(f, d, p, ks_ab, a, b) == msum_sw(f, d, p, akeys, a, b).add(
                msum_sw(f, d, p, exkeys(bkeys, a), a, b),
            ));
        }
        assert(ms(spec_diffs(f, d, p, b, a)) == ms(h1ba).add(ms(h2ba)).add(ms(tail_ba)));
        assert(msw(spec_diffs(f, d, p, a, b)) == msw(h1ab).add(msw(h2ab)).add(msw(tail_ab)));
    } else {
        let lab = leaf_diffs(f, d, p, a, b);
        let lba = leaf_diffs(f, d, p, b, a);
        if pf_accepts_local(f, p) {
            if a is Null && !(b is Null) {
                lemma_ms_single(DiffV::Removed { doc: d, path: p, value: b });
                lemma_msw_single(DiffV::Added { doc: d, path: p, value: b });
            } else if !(a is Null) && b is Null {
                lemma_ms_single(DiffV::Added { doc: d, path: p, value: a });
                lemma_msw_single(DiffV::Removed { doc: d, path: p, value: a });
            } else if a != b {
                lemma_ms_single(DiffV::Changed { doc: d, path: p, original: b, modified: a });
                lemma_msw_single(DiffV::Changed { doc: d, path: p, original: a, modified: b });
            }
        }
    }
}

spec fn pf_accepts_local(f: PathFilterV, p: Seq<ItemKeyV>) -> bool {
    crate::diff::pf_accepts(f, p)
}

proof fn lemma_ms_map_swap_count(s: Seq<DiffV>, r: DiffV)
    ensures
        msw(s).count(swap_record(r)) == ms(s).count(r),
    decreases s.len(),
{
    let f = |x: DiffV| swap_record(x);
    if s.len() == 0 {
        lemma_ms_empty();
    } else {
        assert(s.map_values(f).drop_first() =~= s.drop_first().map_values(f));
        assert(s.map_values(f)[0] == swap_record(s[0]));
        lemma_ms_map_swap_count(s.drop_first(), r);
        assert(msw(s) == msw(s.drop_first()).insert(swap_record(s[0])));
        assert(swap_record(s[0]) == swap_record(r) <==> s[0] == r) by {
            assert(swap_record(swap_record(s[0])) == s[0]);
            assert(swap_record(swap_record(r)) == r);
        }
    }
}

/// How often a record occurs in one walk is how often its side-swapped
/// form occurs in the walk of the swapped inputs; in particular every
/// addition of one walk is a removal of the other, and the other way
/// round.
pub proof fn lemma_diff_swap_count(
    f: PathFilterV,
    d: DocKeyV,
    p: Seq<ItemKeyV>,
    a: NodeV,
    b: NodeV,
    r: DiffV,
)
    requires
        wf_node(a),
        wf_node(b),
    ensures
        ms(spec_diffs(f, d, p, b, a)).count(swap_record(r)) == ms(spec_diffs(f, d, p, a, b)).count(
            r,
        ),
{
    lemma_diff_swap(f, d, p, a, b);
    lemma_ms_map_swap_count(spec_diffs(f, d, p, a, b), r);
}

proof fn lemma_concat_distinct(x: Seq<Seq<char>>, y: Seq<Seq<char>>)
    requires
        kdistinct(x),
        kdistinct(y),
        forall|k: Seq<char>| x.contains(k) ==> !(#[trigger] y.contains(k)),
    ensures
        kdistinct(x + y),
{
    assert forall|i: int, j: int| 0 <= i < j < (x + y).len() implies (x + y)[i] != (x + y)[j] by {
        if i < x.len() && j >= x.len() {
            assert((x + y)[i] == x[i] && (x + y)[j] == y[j - x.len()]);
            if x[i] == y[j - x.len()] {
                assert(x.contains(x[i]));
                assert(y.contains(y[j - x.len()]));
            }
        }
    }
}

proof fn lemma_concat_contains(x: Seq<Seq<char>>, y: Seq<Seq<char>>, k: Seq<char>)
    ensures
        (x + y).contains(k) <==> (x.contains(k) || y.contains(k)),
{
    if (x + y).contains(k) {
        let i = choose|i: int| 0 <= i < (x + y).len() && (x + y)[i] == k;
        if i < x.len() {
            assert(x[i] == k);
        } else {
            assert(y[i - x.len()] == k);
        }
    }
    if x.contains(k) {
        let i = choose|i: int| 0 <= i < x.len() && x[i] == k;
        assert((x + y)[i] == k);
    }
    if y.contains(k) {
        let i = choose|i: int| 0 <= i < y.len() && y[i] == k;
        assert((x + y)[x.len() + i] == k);
    }
}

proof fn lemma_msum_concat(
    f: PathFilterV,
    d: DocKeyV,
    p: Seq<ItemKeyV>,
    x: Seq<Seq<char>>,
    y: Seq<Seq<char>>,
    n1: NodeV,
    n2: NodeV,
)
    ensures
        msum(f, d, p, x + y, n1, n2) == msum(f, d, p, x, n1, n2).add(msum(f, d, p, y, n1, n2)),
    decreases x.len(),
{
    if x.len() == 0 {
        assert(x + y =~= y);
        assert(Multiset::<DiffV>::empty().add(msum(f, d, p, y, n1, n2)) =~= msum(
            f,
            d,
            p,
            y,
            n1,
            n2,
        ));
    } else {
        assert((x + y)[0] == x[0]);
        assert((x + y).drop_first() =~= x.drop_first() + y);
        lemma_msum_concat(f, d, p, x.drop_first(), y, n1, n2);
        let t0 = ms(spec_diffs(f, d, p.push(ItemKeyV::Key(x[0])), hget(n1, x[0]), hget(n2, x[0])));
        assert(t0.add(msum(f, d, p, x.drop_first(), n1, n2).add(msum(f, d, p, y, n1, n2)))
            =~= (t0.add(msum(f, d, p, x.drop_first(), n1, n2))).add(msum(f, d, p, y, n1, n2)));
    }
}

proof fn lemma_msum_sw_concat(
    f: PathFilterV,
    d: DocKeyV,
    p: Seq<ItemKeyV>,
    x: Seq<Seq<char>>,
    y: Seq<Seq<char>>,
    n1: NodeV,
    n2: NodeV,
)
    ensures
        msum_sw(f, d, p, x + y, n1, n2) == msum_sw(f, d, p, x, n1, n2).add(
            msum_sw(f, d, p, y, n1, n2),
        ),
    decreases x.len(),
{
    if x.len() == 0 {
        assert(x + y =~= y);
        assert(Multiset::<DiffV>::empty().add(msum_sw(f, d, p, y, n1, n2)) =~= msum_sw(
            f,
            d,
            p,
            y,
            n1,
            n2,
        ));
    } else {
        assert((x + y)[0] == x[0]);
        assert((x + y).drop_first() =~= x.drop_first() + y);
        lemma_msum_sw_concat(f, d, p, x.drop_first(), y, n1, n2);
        let t0 = msw(spec_diffs(f, d, p.push(ItemKeyV::Key(x[0])), hget(n1, x[0]), hget(n2, x[0])));
        assert(t0.add(msum_sw(f, d, p, x.drop_first(), n1, n2).add(msum_sw(f, d, p, y, n1, n2)))
            =~= (t0.add(msum_sw(f, d, p, x.drop_first(), n1, n2))).add(
            msum_sw(f, d, p, y, n1, n2),
        ));
    }
}

/// After a write that stores the value already present, the tree still
/// compares clean against its former self.
pub proof fn lemma_set_rewrite_no_diffs(
    f: PathFilterV,
    d: DocKeyV,
    q: Seq<ItemKeyV>,
    n: NodeV,
    p: Seq<ItemKeyV>,
)
    requires
        wf_node(n),
        spec_get(n, p) is Ok,
    ensures
        spec_set(n, p, spec_get(n, p)->Ok_0) == Ok::<NodeV, SetErrV>(n),
        spec_diffs(f, d, q, n, spec_set(n, p, spec_get(n, p)->Ok_0)->Ok_0) == Seq::<
            DiffV,
        >::empty(),
{
    lemma_set_same_value(n, p);
    lemma_diff_self_empty(f, d, q, n);
}

} // verus!
