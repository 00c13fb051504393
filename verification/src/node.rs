//! The document tree: a tagged value that is null, a scalar, an ordered
//! sequence, or an insertion-ordered mapping with unique string keys.
//!
//! Equality of trees is structural and type-sensitive: an integer and a
//! real number never compare equal, whatever their text.

use vstd::prelude::*;

verus! {

/// Mathematical image of a document tree.
#[verifier::ext_equal]
pub enum NodeV {
    Null,
    Str(Seq<char>),
    Int(int),
    Real(Seq<char>),
    Bool(bool),
    Arr(Seq<NodeV>),
    Hash(Seq<(Seq<char>, NodeV)>),
}

/// One key/value pair of a mapping.
#[derive(Debug)]
pub struct MapEntry {
    pub key: String,
    pub value: Node,
}

/// A document tree node.
///
/// A real number is carried as its decimal text, exactly as written in the
/// source document, so that equality of reals is equality of their text.
#[derive(Debug)]
pub enum Node {
    Null,
    Str(String),
    Int(i64),
    Real(String),
    Bool(bool),
    Array(Vec<Node>),
    Hash(Vec<MapEntry>),
}

pub open spec fn view_node(n: Node) -> NodeV
    decreases n,
{
    match n {
        Node::Null => NodeV::Null,
        Node::Str(s) => NodeV::Str(s@),
        Node::Int(i) => NodeV::Int(i as int),
        Node::Real(s) => NodeV::Real(s@),
        Node::Bool(b) => NodeV::Bool(b),
        Node::Array(v) => NodeV::Arr(view_nodes(v@)),
        Node::Hash(es) => NodeV::Hash(view_entries(es@)),
    }
}

pub open spec fn view_nodes(s: Seq<Node>) -> Seq<NodeV>
    decreases s,
{
    if s.len() == 0 {
        Seq::empty()
    } else {
        seq![view_node(s[0])] + view_nodes(s.drop_first())
    }
}

pub open spec fn view_entries(s: Seq<MapEntry>) -> Seq<(Seq<char>, NodeV)>
    decreases s,
{
    if s.len() == 0 {
        Seq::empty()
    } else {
        seq![(s[0].key@, view_node(s[0].value))] + view_entries(s.drop_first())
    }
}

impl View for Node {
    type V = NodeV;

    open spec fn view(&self) -> NodeV {
        view_node(*self)
    }
}

impl View for MapEntry {
    type V = (Seq<char>, NodeV);

    open spec fn view(&self) -> (Seq<char>, NodeV) {
        (self.key@, view_node(self.value))
    }
}

pub broadcast proof fn lemma_view_nodes_len(s: Seq<Node>)
    ensures
        #[trigger] view_nodes(s).len() == s.len(),
    decreases s,
{
    if s.len() > 0 {
        lemma_view_nodes_len(s.drop_first());
    }
}

pub broadcast proof fn lemma_view_nodes_index(s: Seq<Node>, i: int)
    requires
        0 <= i < s.len(),
    ensures
        view_nodes(s).len() == s.len(),
        #[trigger] view_nodes(s)[i] == view_node(s[i]),
    decreases s,
{
    lemma_view_nodes_len(s);
    if i > 0 {
        lemma_view_nodes_index(s.drop_first(), i - 1);
    }
}

pub broadcast proof fn lemma_view_entries_len(s: Seq<MapEntry>)
    ensures
        #[trigger] view_entries(s).len() == s.len(),
    decreases s,
{
    if s.len() > 0 {
        lemma_view_entries_len(s.drop_first());
    }
}

pub broadcast proof fn lemma_view_entries_index(s: Seq<MapEntry>, i: int)
    requires
        0 <= i < s.len(),
    ensures
        view_entries(s).len() == s.len(),
        #[trigger] view_entries(s)[i] == (s[i].key@, view_node(s[i].value)),
    decreases s,
{
    lemma_view_entries_len(s);
    if i > 0 {
        lemma_view_entries_index(s.drop_first(), i - 1);
    }
}

/// The keys of a mapping's image are pairwise distinct.
pub open spec fn keys_unique(es: Seq<(Seq<char>, NodeV)>) -> bool {
    forall|i: int, j: int|
        0 <= i < j < es.len() ==> (#[trigger] es[i]).0 != (#[trigger] es[j]).0
}

/// Every mapping inside the tree has unique keys.
pub open spec fn wf_node(n: NodeV) -> bool
    decreases n,
{
    match n {
        NodeV::Arr(s) => forall|i: int| 0 <= i < s.len() ==> wf_node(#[trigger] s[i]),
        NodeV::Hash(es) => keys_unique(es) && forall|i: int|
            0 <= i < es.len() ==> wf_node((#[trigger] es[i]).1),
        _ => true,
    }
}

/// Whether some entry of a mapping's image bears the key `k`.
pub open spec fn hash_has_key(es: Seq<(Seq<char>, NodeV)>, k: Seq<char>) -> bool {
    exists|i: int| 0 <= i < es.len() && (#[trigger] es[i]).0 == k
}

/// The value at the first entry bearing key `k`, if any.
pub open spec fn hash_lookup(es: Seq<(Seq<char>, NodeV)>, k: Seq<char>) -> Option<NodeV>
    decreases es.len(),
{
    if es.len() == 0 {
        None
    } else if es[0].0 == k {
        Some(es[0].1)
    } else {
        hash_lookup(es.drop_first(), k)
    }
}

pub broadcast proof fn lemma_hash_lookup_has_key(es: Seq<(Seq<char>, NodeV)>, k: Seq<char>)
    ensures
        (#[trigger] hash_lookup(es, k)) is Some <==> hash_has_key(es, k),
    decreases es.len(),
{
    if es.len() > 0 {
        lemma_hash_lookup_has_key(es.drop_first(), k);
        if es[0].0 != k {
            assert(hash_has_key(es, k) ==> hash_has_key(es.drop_first(), k)) by {
                if hash_has_key(es, k) {
                    let i = choose|i: int| 0 <= i < es.len() && (#[trigger] es[i]).0 == k;
                    assert(es.drop_first()[i - 1] == es[i]);
                }
            }
            assert(hash_has_key(es.drop_first(), k) ==> hash_has_key(es, k)) by {
                if hash_has_key(es.drop_first(), k) {
                    let i = choose|i: int|
                        0 <= i < es.drop_first().len() && (#[trigger] es.drop_first()[i]).0 == k;
                    assert(es[i + 1] == es.drop_first()[i]);
                }
            }
        }
    }
}

/// With unique keys, a lookup returns the value of whichever entry bears
/// the key.
pub proof fn lemma_hash_lookup_at(es: Seq<(Seq<char>, NodeV)>, i: int)
    requires
        keys_unique(es),
        0 <= i < es.len(),
    ensures
        hash_lookup(es, es[i].0) == Some(es[i].1),
    decreases es.len(),
{
    if i > 0 {
        assert(es[0].0 != es[i].0);
        assert(es.drop_first()[i - 1] == es[i]);
        assert(keys_unique(es.drop_first())) by {
            assert(forall|x: int, y: int|
                0 <= x < y < es.drop_first().len() ==> (#[trigger] es.drop_first()[x]).0 != (
                #[trigger] es.drop_first()[y]).0) by {
                assert(forall|x: int|
                    0 <= x < es.drop_first().len() ==> #[trigger] es.drop_first()[x] == es[x + 1]);
            }
        }
        lemma_hash_lookup_at(es.drop_first(), i - 1);
    }
}

impl Node {
    /// Whether this node is a sequence.
    pub fn is_array(&self) -> (r: bool)
        ensures
            r == (self@ is Arr),
    {
        match self {
            Node::Array(_) => true,
            _ => false,
        }
    }

    /// Whether this node is a mapping.
    pub fn is_hash(&self) -> (r: bool)
        ensures
            r == (self@ is Hash),
    {
        match self {
            Node::Hash(_) => true,
            _ => false,
        }
    }

    /// Whether this node is null.
    pub fn is_null(&self) -> (r: bool)
        ensures
            r == (self@ is Null),
    {
        match self {
            Node::Null => true,
            _ => false,
        }
    }

    /// The text of a string scalar, or nothing for any other node.
    pub fn as_str(&self) -> (r: Option<&String>)
        ensures
            match r {
                Some(s) => self@ is Str && self@->Str_0 == s@,
                None => !(self@ is Str),
            },
    {
        match self {
            Node::Str(s) => Some(s),
            _ => None,
        }
    }
}

/// The index of the first entry of `entries` bearing `key`, if any.
pub fn hash_find(entries: &Vec<MapEntry>, key: &String) -> (r: Option<usize>)
    ensures
        match r {
            Some(i) => i < entries@.len() && entries@[i as int].key@ == key@ && forall|j: int|
                0 <= j < i ==> entries@[j].key@ != key@,
            None => forall|j: int| 0 <= j < entries@.len() ==> entries@[j].key@ != key@,
        },
{
    let mut i: usize = 0;
    while i < entries.len()
        invariant
            i <= entries@.len(),
            forall|j: int| 0 <= j < i ==> entries@[j].key@ != key@,
        decreases entries@.len() - i,
    {
        if entries[i].key.eq(key) {
            return Some(i);
        }
        i = i + 1;
    }
    None
}

/// Relates [`hash_find`] to the mapping image: when the key occurs, the
/// first entry bearing it gives the lookup's value.
pub proof fn lemma_first_key_lookup(es: Seq<MapEntry>, i: int, k: Seq<char>)
    requires
        0 <= i < es.len(),
        es[i].key@ == k,
        forall|j: int| 0 <= j < i ==> es[j].key@ != k,
    ensures
        hash_lookup(view_entries(es), k) == Some(view_node(es[i].value)),
    decreases i,
{
    lemma_view_entries_index(es, i);
    if i == 0 {
        assert(view_entries(es)[0] == (es[0].key@, view_node(es[0].value)));
        assert(view_entries(es) == seq![(es[0].key@, view_node(es[0].value))] + view_entries(
            es.drop_first(),
        ));
    } else {
        lemma_view_entries_index(es, 0);
        assert(view_entries(es)[0].0 != k);
        assert(es.drop_first()[i - 1] == es[i]);
        assert(forall|j: int| 0 <= j < i - 1 ==> #[trigger] es.drop_first()[j] == es[j + 1]);
        lemma_first_key_lookup(es.drop_first(), i - 1, k);
        assert(view_entries(es).drop_first() =~= view_entries(es.drop_first())) by {
            lemma_view_entries_len(es);
            lemma_view_entries_len(es.drop_first());
            assert(forall|j: int|
                0 <= j < es.len() - 1 ==> view_entries(es).drop_first()[j] == view_entries(
                    es,
                )[j + 1]);
            assert(forall|j: int|
                0 <= j < es.len() - 1 ==> {
                    &&& #[trigger] view_entries(es.drop_first())[j] == (
                    es.drop_first()[j].key@,
                    view_node(es.drop_first()[j].value),
                    )
                    &&& view_entries(es)[j + 1] == (es[j + 1].key@, view_node(es[j + 1].value))
                }) by {
                assert forall|j: int| 0 <= j < es.len() - 1 implies {
                    &&& #[trigger] view_entries(es.drop_first())[j] == (
                    es.drop_first()[j].key@,
                    view_node(es.drop_first()[j].value),
                    )
                    &&& view_entries(es)[j + 1] == (es[j + 1].key@, view_node(es[j + 1].value))
                } by {
                    lemma_view_entries_index(es.drop_first(), j);
                    lemma_view_entries_index(es, j + 1);
                }
            }
        }
    }
}

/// When no entry bears the key, the lookup returns nothing.
pub proof fn lemma_no_key_lookup(es: Seq<MapEntry>, k: Seq<char>)
    requires
        forall|j: int| 0 <= j < es.len() ==> es[j].key@ != k,
    ensures
        hash_lookup(view_entries(es), k) is None,
        !hash_has_key(view_entries(es), k),
    decreases es.len(),
{
    lemma_view_entries_len(es);
    if es.len() > 0 {
        lemma_view_entries_index(es, 0);
        assert(forall|j: int| 0 <= j < es.len() - 1 ==> #[trigger] es.drop_first()[j] == es[j + 1]);
        lemma_no_key_lookup(es.drop_first(), k);
        assert(view_entries(es).drop_first() =~= view_entries(es.drop_first())) by {
            lemma_view_entries_len(es.drop_first());
            assert forall|j: int| 0 <= j < es.len() - 1 implies view_entries(es).drop_first()[j]
                == view_entries(es.drop_first())[j] by {
                lemma_view_entries_index(es.drop_first(), j);
                lemma_view_entries_index(es, j + 1);
            }
        }
    }
    lemma_hash_lookup_has_key(view_entries(es), k);
}

/// Insert-or-replace in a mapping image: the first entry bearing `k` has
/// its value replaced in place; a fresh key is appended at the end.
pub open spec fn hash_insert(es: Seq<(Seq<char>, NodeV)>, k: Seq<char>, v: NodeV) -> Seq<
    (Seq<char>, NodeV),
>
    decreases es.len(),
{
    if es.len() == 0 {
        seq![(k, v)]
    } else if es[0].0 == k {
        seq![(k, v)] + es.drop_first()
    } else {
        seq![es[0]] + hash_insert(es.drop_first(), k, v)
    }
}

/// When the key occurs first at position `i`, insertion is an update in
/// place.
pub proof fn lemma_hash_insert_found(es: Seq<(Seq<char>, NodeV)>, i: int, k: Seq<char>, v: NodeV)
    requires
        0 <= i < es.len(),
        es[i].0 == k,
        forall|j: int| 0 <= j < i ==> (#[trigger] es[j]).0 != k,
    ensures
        hash_insert(es, k, v) == es.update(i, (k, v)),
    decreases i,
{
    if i == 0 {
        assert(hash_insert(es, k, v) == seq![(k, v)] + es.drop_first());
        assert(seq![(k, v)] + es.drop_first() =~= es.update(0, (k, v)));
    } else {
        assert(es[0].0 != k);
        assert(es.drop_first()[i - 1] == es[i]);
        assert(forall|j: int| 0 <= j < i - 1 ==> #[trigger] es.drop_first()[j] == es[j + 1]);
        lemma_hash_insert_found(es.drop_first(), i - 1, k, v);
        assert(hash_insert(es, k, v) == seq![es[0]] + es.drop_first().update(i - 1, (k, v)));
        assert(seq![es[0]] + es.drop_first().update(i - 1, (k, v)) =~= es.update(i, (k, v)));
    }
}

/// When the key is absent, insertion appends.
pub proof fn lemma_hash_insert_absent(es: Seq<(Seq<char>, NodeV)>, k: Seq<char>, v: NodeV)
    requires
        forall|j: int| 0 <= j < es.len() ==> (#[trigger] es[j]).0 != k,
    ensures
        hash_insert(es, k, v) == es.push((k, v)),
    decreases es.len(),
{
    if es.len() == 0 {
        assert(hash_insert(es, k, v) =~= es.push((k, v)));
    } else {
        assert(es[0].0 != k);
        assert(forall|j: int|
            0 <= j < es.len() - 1 ==> #[trigger] es.drop_first()[j] == es[j + 1]);
        lemma_hash_insert_absent(es.drop_first(), k, v);
        assert(hash_insert(es, k, v) == seq![es[0]] + es.drop_first().push((k, v)));
        assert(seq![es[0]] + es.drop_first().push((k, v)) =~= es.push((k, v)));
    }
}

/// Looking up the inserted key finds the inserted value; other keys are
/// untouched.
pub proof fn lemma_hash_insert_lookup(
    es: Seq<(Seq<char>, NodeV)>,
    k: Seq<char>,
    v: NodeV,
    k2: Seq<char>,
)
    ensures
        hash_lookup(hash_insert(es, k, v), k) == Some(v),
        k2 != k ==> hash_lookup(hash_insert(es, k, v), k2) == hash_lookup(es, k2),
        keys_unique(es) ==> keys_unique(hash_insert(es, k, v)),
    decreases es.len(),
{
    let out = hash_insert(es, k, v);
    if es.len() == 0 {
        assert(out == seq![(k, v)]);
        assert(out.drop_first() =~= Seq::<(Seq<char>, NodeV)>::empty());
        assert(keys_unique(out));
        assert(hash_lookup(Seq::<(Seq<char>, NodeV)>::empty(), k2) is None);
        if k2 != k {
            assert(hash_lookup(out, k2) == hash_lookup(out.drop_first(), k2));
        }
    } else if es[0].0 == k {
        assert(out == seq![(k, v)] + es.drop_first());
        assert(out[0] == (k, v));
        assert(out.drop_first() =~= es.drop_first());
        if keys_unique(es) {
            assert(forall|x: int, y: int|
                0 <= x < y < out.len() ==> (#[trigger] out[x]).0 != (#[trigger] out[y]).0) by {
                assert(forall|x: int| 1 <= x < out.len() ==> #[trigger] out[x] == es[x]);
            }
        }
    } else {
        lemma_hash_insert_lookup(es.drop_first(), k, v, k2);
        assert(out == seq![es[0]] + hash_insert(es.drop_first(), k, v));
        assert(out[0] == es[0]);
        assert(out.drop_first() =~= hash_insert(es.drop_first(), k, v));
        if keys_unique(es) {
            assert(keys_unique(es.drop_first())) by {
                assert(forall|x: int|
                    0 <= x < es.len() - 1 ==> #[trigger] es.drop_first()[x] == es[x + 1]);
            }
            assert(!hash_has_key(es.drop_first(), es[0].0)) by {
                if hash_has_key(es.drop_first(), es[0].0) {
                    let x = choose|x: int|
                        0 <= x < es.drop_first().len() && (#[trigger] es.drop_first()[x]).0
                            == es[0].0;
                    assert(es[x + 1].0 == es[0].0);
                }
            }
            assert(keys_unique(out)) by {
                let inner = hash_insert(es.drop_first(), k, v);
                assert(forall|x: int| 1 <= x < out.len() ==> #[trigger] out[x] == inner[x - 1]);
                assert(forall|x: int, y: int|
                    1 <= x < y < out.len() ==> (#[trigger] out[x]).0 != (#[trigger] out[y]).0);
                assert(forall|y: int| 1 <= y < out.len() ==> (#[trigger] out[y]).0 != out[0].0)
                    by {
                    assert forall|y: int| 1 <= y < out.len() implies (#[trigger] out[y]).0
                        != out[0].0 by {
                        lemma_hash_insert_keyset(es.drop_first(), k, v, out[y].0);
                        if out[y].0 == es[0].0 {
                            assert(hash_has_key(inner, es[0].0)) by {
                                assert(inner[y - 1].0 == es[0].0);
                            }
                            assert(es[0].0 == k || hash_has_key(es.drop_first(), es[0].0));
                        }
                    }
                }
            }
        }
    }
}

/// A key occurs in an insertion's result exactly when it is the inserted
/// key or occurred before.
pub proof fn lemma_hash_insert_keyset(
    es: Seq<(Seq<char>, NodeV)>,
    k: Seq<char>,
    v: NodeV,
    k2: Seq<char>,
)
    ensures
        hash_has_key(hash_insert(es, k, v), k2) <==> (k2 == k || hash_has_key(es, k2)),
    decreases es.len(),
{
    let out = hash_insert(es, k, v);
    if es.len() == 0 {
        assert(out == seq![(k, v)]);
        assert(out[0].0 == k);
        if hash_has_key(out, k2) {
            let x = choose|x: int| 0 <= x < out.len() && (#[trigger] out[x]).0 == k2;
            assert(x == 0);
        }
    } else if es[0].0 == k {
        assert(out == seq![(k, v)] + es.drop_first());
        assert(out[0].0 == k);
        if hash_has_key(out, k2) && k2 != k {
            let x = choose|x: int| 0 <= x < out.len() && (#[trigger] out[x]).0 == k2;
            assert(x >= 1);
            assert(es[x] == out[x]);
        }
        if hash_has_key(es, k2) && k2 != k {
            let x = choose|x: int| 0 <= x < es.len() && (#[trigger] es[x]).0 == k2;
            assert(x >= 1);
            assert(out[x] == es[x]);
        }
    } else {
        lemma_hash_insert_keyset(es.drop_first(), k, v, k2);
        assert(out == seq![es[0]] + hash_insert(es.drop_first(), k, v));
        let inner = hash_insert(es.drop_first(), k, v);
        assert(forall|x: int| 1 <= x < out.len() ==> #[trigger] out[x] == inner[x - 1]);
        assert(forall|x: int|
            0 <= x < es.len() - 1 ==> #[trigger] es.drop_first()[x] == es[x + 1]);
        if hash_has_key(out, k2) {
            let x = choose|x: int| 0 <= x < out.len() && (#[trigger] out[x]).0 == k2;
            if x == 0 {
                assert(hash_has_key(es, k2)) by {
                    assert(es[0].0 == k2);
                }
            } else {
                assert(hash_has_key(inner, k2)) by {
                    assert(inner[x - 1].0 == k2);
                }
                if k2 != k {
                    assert(hash_has_key(es.drop_first(), k2));
                    let y = choose|y: int|
                        0 <= y < es.drop_first().len() && (#[trigger] es.drop_first()[y]).0 == k2;
                    assert(es[y + 1].0 == k2);
                }
            }
        }
        if k2 == k {
            assert(hash_has_key(inner, k2));
            let y = choose|y: int| 0 <= y < inner.len() && (#[trigger] inner[y]).0 == k2;
            assert(out[y + 1].0 == k2);
        } else if hash_has_key(es, k2) {
            let x = choose|x: int| 0 <= x < es.len() && (#[trigger] es[x]).0 == k2;
            if x == 0 {
                assert(out[0].0 == k2);
            } else {
                assert(es.drop_first()[x - 1].0 == k2);
                assert(hash_has_key(es.drop_first(), k2));
                assert(hash_has_key(inner, k2));
                let y = choose|y: int| 0 <= y < inner.len() && (#[trigger] inner[y]).0 == k2;
                assert(out[y + 1].0 == k2);
            }
        }
    }
}

/// The image of a vector of entries after a removal.
pub proof fn lemma_view_entries_remove(s: Seq<MapEntry>, i: int)
    requires
        0 <= i < s.len(),
    ensures
        view_entries(s.remove(i)) == view_entries(s).remove(i),
{
    lemma_view_entries_len(s);
    lemma_view_entries_len(s.remove(i));
    assert forall|j: int| 0 <= j < s.len() - 1 implies view_entries(s.remove(i))[j]
        == view_entries(s).remove(i)[j] by {
        lemma_view_entries_index(s.remove(i), j);
        if j < i {
            lemma_view_entries_index(s, j);
        } else {
            lemma_view_entries_index(s, j + 1);
        }
    }
    assert(view_entries(s.remove(i)) =~= view_entries(s).remove(i));
}

/// The image of a vector of entries after an insertion at a position.
pub proof fn lemma_view_entries_insert(s: Seq<MapEntry>, i: int, e: MapEntry)
    requires
        0 <= i <= s.len(),
    ensures
        view_entries(s.insert(i, e)) == view_entries(s).insert(i, (e.key@, view_node(e.value))),
{
    lemma_view_entries_len(s);
    lemma_view_entries_len(s.insert(i, e));
    assert forall|j: int| 0 <= j < s.len() + 1 implies view_entries(s.insert(i, e))[j]
        == view_entries(s).insert(i, (e.key@, view_node(e.value)))[j] by {
        lemma_view_entries_index(s.insert(i, e), j);
        if j < i {
            lemma_view_entries_index(s, j);
        } else if j > i {
            lemma_view_entries_index(s, j - 1);
        }
    }
    assert(view_entries(s.insert(i, e)) =~= view_entries(s).insert(
        i,
        (e.key@, view_node(e.value)),
    ));
}

/// The image of a vector of entries after a push.
pub proof fn lemma_view_entries_push(s: Seq<MapEntry>, e: MapEntry)
    ensures
        view_entries(s.push(e)) == view_entries(s).push((e.key@, view_node(e.value))),
{
    lemma_view_entries_len(s);
    lemma_view_entries_len(s.push(e));
    assert forall|j: int| 0 <= j < s.len() + 1 implies view_entries(s.push(e))[j] == view_entries(
        s,
    ).push((e.key@, view_node(e.value)))[j] by {
        lemma_view_entries_index(s.push(e), j);
        if j < s.len() {
            lemma_view_entries_index(s, j);
        }
    }
    assert(view_entries(s.push(e)) =~= view_entries(s).push((e.key@, view_node(e.value))));
}

/// The image of a vector of nodes after a removal.
pub proof fn lemma_view_nodes_remove(s: Seq<Node>, i: int)
    requires
        0 <= i < s.len(),
    ensures
        view_nodes(s.remove(i)) == view_nodes(s).remove(i),
{
    lemma_view_nodes_len(s);
    lemma_view_nodes_len(s.remove(i));
    assert forall|j: int| 0 <= j < s.len() - 1 implies view_nodes(s.remove(i))[j] == view_nodes(
        s,
    ).remove(i)[j] by {
        lemma_view_nodes_index(s.remove(i), j);
        if j < i {
            lemma_view_nodes_index(s, j);
        } else {
            lemma_view_nodes_index(s, j + 1);
        }
    }
    assert(view_nodes(s.remove(i)) =~= view_nodes(s).remove(i));
}

/// The image of a vector of nodes after an insertion at a position.
pub proof fn lemma_view_nodes_insert(s: Seq<Node>, i: int, e: Node)
    requires
        0 <= i <= s.len(),
    ensures
        view_nodes(s.insert(i, e)) == view_nodes(s).insert(i, view_node(e)),
{
    lemma_view_nodes_len(s);
    lemma_view_nodes_len(s.insert(i, e));
    assert forall|j: int| 0 <= j < s.len() + 1 implies view_nodes(s.insert(i, e))[j] == view_nodes(
        s,
    ).insert(i, view_node(e))[j] by {
        lemma_view_nodes_index(s.insert(i, e), j);
        if j < i {
            lemma_view_nodes_index(s, j);
        } else if j > i {
            lemma_view_nodes_index(s, j - 1);
        }
    }
    assert(view_nodes(s.insert(i, e)) =~= view_nodes(s).insert(i, view_node(e)));
}

/// The number of nodes in a tree, counting every container and leaf.
pub open spec fn size_v(n: NodeV) -> nat
    decreases n,
{
    match n {
        NodeV::Arr(s) => 1 + size_seq(s),
        NodeV::Hash(es) => 1 + size_entries(es),
        NodeV::Null => 0,
        _ => 1,
    }
}

/// The value a lookup returns sits inside the mapping, so its size is
/// bounded by the entries' total.
pub proof fn lemma_lookup_size(es: Seq<(Seq<char>, NodeV)>, k: Seq<char>)
    requires
        hash_lookup(es, k) is Some,
    ensures
        size_v(hash_lookup(es, k)->0) <= size_entries(es),
    decreases es.len(),
{
    if es.len() > 0 {
        if es[0].0 == k {
        } else {
            lemma_lookup_size(es.drop_first(), k);
        }
    }
}

pub open spec fn size_seq(s: Seq<NodeV>) -> nat
    decreases s,
{
    if s.len() == 0 {
        0
    } else {
        size_v(s[0]) + size_seq(s.drop_first())
    }
}

pub open spec fn size_entries(es: Seq<(Seq<char>, NodeV)>) -> nat
    decreases es,
{
    if es.len() == 0 {
        0
    } else {
        size_v(es[0].1) + size_entries(es.drop_first())
    }
}

pub broadcast proof fn lemma_size_seq_elem(s: Seq<NodeV>, i: int)
    requires
        0 <= i < s.len(),
    ensures
        #[trigger] size_v(s[i]) <= size_seq(s),
    decreases s,
{
    if i > 0 {
        lemma_size_seq_elem(s.drop_first(), i - 1);
        assert(s.drop_first()[i - 1] == s[i]);
    }
}

pub broadcast proof fn lemma_size_entries_elem(es: Seq<(Seq<char>, NodeV)>, i: int)
    requires
        0 <= i < es.len(),
    ensures
        #[trigger] size_v(es[i].1) <= size_entries(es),
    decreases es,
{
    if i > 0 {
        lemma_size_entries_elem(es.drop_first(), i - 1);
        assert(es.drop_first()[i - 1] == es[i]);
    }
}

/// A deep, owned copy of a tree.
pub fn node_dup(n: &Node) -> (r: Node)
    ensures
        r@ == n@,
    decreases size_v(n@),
{
    match n {
        Node::Null => Node::Null,
        Node::Str(s) => Node::Str(s.clone()),
        Node::Int(i) => Node::Int(*i),
        Node::Real(s) => Node::Real(s.clone()),
        Node::Bool(b) => Node::Bool(*b),
        Node::Array(v) => {
            let mut out: Vec<Node> = Vec::new();
            let mut i: usize = 0;
            while i < v.len()
                invariant
                    i <= v@.len(),
                    n@ == NodeV::Arr(view_nodes(v@)),
                    out@.len() == i,
                    forall|j: int| 0 <= j < i ==> view_node(#[trigger] out@[j]) == view_nodes(
                        v@,
                    )[j],
                decreases v@.len() - i,
            {
                proof {
                    lemma_view_nodes_index(v@, i as int);
                    lemma_size_seq_elem(view_nodes(v@), i as int);
                }
                let c = node_dup(&v[i]);
                out.push(c);
                i = i + 1;
            }
            let r = Node::Array(out);
            proof {
                lemma_view_nodes_len(out@);
                lemma_view_nodes_len(v@);
                assert forall|j: int| 0 <= j < out@.len() implies #[trigger] view_nodes(out@)[j]
                    == view_nodes(v@)[j] by {
                    lemma_view_nodes_index(out@, j);
                }
                assert(view_nodes(out@) =~= view_nodes(v@));
            }
            r
        },
        Node::Hash(es) => {
            let mut out: Vec<MapEntry> = Vec::new();
            let mut i: usize = 0;
            while i < es.len()
                invariant
                    i <= es@.len(),
                    n@ == NodeV::Hash(view_entries(es@)),
                    out@.len() == i,
                    forall|j: int|
                        0 <= j < i ==> ((#[trigger] out@[j]).key@, view_node(out@[j].value))
                            == view_entries(es@)[j],
                decreases es@.len() - i,
            {
                proof {
                    lemma_view_entries_index(es@, i as int);
                    lemma_size_entries_elem(view_entries(es@), i as int);
                }
                let c = node_dup(&es[i].value);
                out.push(MapEntry { key: es[i].key.clone(), value: c });
                i = i + 1;
            }
            let r = Node::Hash(out);
            proof {
                lemma_view_entries_len(out@);
                lemma_view_entries_len(es@);
                assert forall|j: int| 0 <= j < out@.len() implies #[trigger] view_entries(out@)[j]
                    == view_entries(es@)[j] by {
                    lemma_view_entries_index(out@, j);
                }
                assert(view_entries(out@) =~= view_entries(es@));
            }
            r
        },
    }
}

/// Structural, type-sensitive equality of two trees.
pub fn node_eq(a: &Node, b: &Node) -> (r: bool)
    ensures
        r == (a@ == b@),
    decreases size_v(a@),
{
    match (a, b) {
        (Node::Null, Node::Null) => true,
        (Node::Str(x), Node::Str(y)) => x.eq(y),
        (Node::Int(x), Node::Int(y)) => x == y,
        (Node::Real(x), Node::Real(y)) => x.eq(y),
        (Node::Bool(x), Node::Bool(y)) => x == y,
        (Node::Array(u), Node::Array(v)) => {
            if u.len() != v.len() {
                proof {
                    lemma_view_nodes_len(u@);
                    lemma_view_nodes_len(v@);
                }
                false
            } else {
                let mut i: usize = 0;
                let mut same = true;
                while i < u.len()
                    invariant
                        u@.len() == v@.len(),
                        i <= u@.len(),
                        a@ == NodeV::Arr(view_nodes(u@)),
                        b@ == NodeV::Arr(view_nodes(v@)),
                        same == (forall|k: int|
                            0 <= k < i ==> view_nodes(u@)[k] == view_nodes(v@)[k]),
                    decreases u@.len() - i,
                {
                    proof {
                        lemma_view_nodes_index(u@, i as int);
                        lemma_view_nodes_index(v@, i as int);
                        lemma_size_seq_elem(view_nodes(u@), i as int);
                    }
                    let e = node_eq(&u[i], &v[i]);
                    same = same && e;
                    i = i + 1;
                }
                proof {
                    lemma_view_nodes_len(u@);
                    lemma_view_nodes_len(v@);
                    if same {
                        assert(view_nodes(u@) =~= view_nodes(v@));
                    }
                }
                same
            }
        },
        (Node::Hash(u), Node::Hash(v)) => {
            if u.len() != v.len() {
                proof {
                    lemma_view_entries_len(u@);
                    lemma_view_entries_len(v@);
                }
                false
            } else {
                let mut i: usize = 0;
                let mut same = true;
                while i < u.len()
                    invariant
                        u@.len() == v@.len(),
                        i <= u@.len(),
                        a@ == NodeV::Hash(view_entries(u@)),
                        b@ == NodeV::Hash(view_entries(v@)),
                        same == (forall|k: int|
                            0 <= k < i ==> view_entries(u@)[k] == view_entries(v@)[k]),
                    decreases u@.len() - i,
                {
                    proof {
                        lemma_view_entries_index(u@, i as int);
                        lemma_view_entries_index(v@, i as int);
                        lemma_size_entries_elem(view_entries(u@), i as int);
                    }
                    let ke = u[i].key.eq(&v[i].key);
                    let ve = node_eq(&u[i].value, &v[i].value);
                    same = same && ke && ve;
                    i = i + 1;
                }
                proof {
                    lemma_view_entries_len(u@);
                    lemma_view_entries_len(v@);
                    if same {
                        assert(view_entries(u@) =~= view_entries(v@));
                    }
                }
                same
            }
        },
        _ => {
            proof {
                assert(a@ != b@);
            }
            false
        },
    }
}

} // verus!
