//! The structural diff: walking two trees in lock step and classifying
//! every divergence as an addition, a removal or a change at a path.
//!
//! Sequences align by index, the shorter side padded with nulls; mappings
//! align by key, the first document's keys in their own order and then
//! the second document's exclusive keys in theirs; anything else is a
//! leaf. A type mismatch between a container and something else surfaces
//! as an extra walk of the odd side against null. The path filter gates
//! only the emission of leaf records, never the walk itself.

use vstd::prelude::*;
use crate::error::{DiffError, ErrorV};
use crate::index::{DocKey, DocKeyV, Documents, dk_has, dk_lookup};
use crate::keypath::{ItemKey, ItemKeyV, KeyPath};
use crate::node::{
    Node, NodeV, hash_find, hash_has_key, hash_lookup, lemma_first_key_lookup,
    lemma_hash_lookup_has_key, lemma_lookup_size, lemma_no_key_lookup, lemma_size_entries_elem,
    lemma_size_seq_elem, lemma_view_entries_index, lemma_view_entries_len, lemma_view_nodes_index,
    lemma_view_nodes_len, node_dup, node_eq, size_v,
};
use crate::re::{CompiledRegex, regex_match};
use crate::keypath::spec_serialize;
use crate::strategy::{Strategy, StrategyV, spec_filter_accept};

verus! {

/// Mathematical image of one diff record.
#[verifier::ext_equal]
pub enum DiffV {
    Added { doc: DocKeyV, path: Seq<ItemKeyV>, value: NodeV },
    Removed { doc: DocKeyV, path: Seq<ItemKeyV>, value: NodeV },
    Changed { doc: DocKeyV, path: Seq<ItemKeyV>, original: NodeV, modified: NodeV },
}

/// One reported difference: a value present only in the modified input,
/// present only in the original, or changed between the two. Each record
/// owns copies of the values it reports.
#[derive(Debug)]
pub enum DiffRecord {
    Added { doc: DocKey, path: KeyPath, value: Node },
    Removed { doc: DocKey, path: KeyPath, value: Node },
    Changed { doc: DocKey, path: KeyPath, original: Node, modified: Node },
}

impl View for DiffRecord {
    type V = DiffV;

    open spec fn view(&self) -> DiffV {
        match self {
            DiffRecord::Added { doc, path, value } => DiffV::Added {
                doc: doc@,
                path: path@,
                value: value@,
            },
            DiffRecord::Removed { doc, path, value } => DiffV::Removed {
                doc: doc@,
                path: path@,
                value: value@,
            },
            DiffRecord::Changed { doc, path, original, modified } => DiffV::Changed {
                doc: doc@,
                path: path@,
                original: original@,
                modified: modified@,
            },
        }
    }
}

/// The image of a vector of diff records.
pub open spec fn diffs_view(s: Seq<DiffRecord>) -> Seq<DiffV> {
    s.map_values(|r: DiffRecord| r@)
}

/// Mathematical image of the active path filter.
#[verifier::ext_equal]
pub struct PathFilterV {
    pub strategy: Option<StrategyV>,
    pub excludes: Seq<Seq<char>>,
}

/// The active path filter: the strategy's path filter composed with
/// extra exclusion patterns given outside any policy file.
pub struct PathFilter<'a> {
    pub strategy: &'a Option<Strategy>,
    pub excludes: &'a Vec<CompiledRegex>,
}

impl View for PathFilter<'_> {
    type V = PathFilterV;

    open spec fn view(&self) -> PathFilterV {
        PathFilterV {
            strategy: match self.strategy {
                Some(s) => Some(s@),
                None => None,
            },
            excludes: self.excludes@.map_values(|r: CompiledRegex| r.pattern_view()),
        }
    }
}

/// Whether a leaf diff at a path survives: no extra exclusion pattern
/// matches the serialized path, and the strategy's path filter keeps it.
pub open spec fn pf_accepts(f: PathFilterV, p: Seq<ItemKeyV>) -> bool {
    &&& forall|i: int|
        0 <= i < f.excludes.len() ==> !regex_match(
            #[trigger] f.excludes[i],
            spec_serialize(p),
        )
    &&& (match f.strategy {
        None => true,
        Some(s) => spec_filter_accept(s, p),
    })
}

impl PathFilter<'_> {
    pub fn new<'a>(strategy: &'a Option<Strategy>, excludes: &'a Vec<CompiledRegex>) -> (r:
        PathFilter<'a>)
        ensures
            r.strategy == strategy,
            r.excludes == excludes,
    {
        PathFilter { strategy, excludes }
    }

    /// Whether a leaf diff at this path survives the filter.
    pub fn accept(&self, path: &KeyPath) -> (r: bool)
        ensures
            r == pf_accepts(self@, path@),
    {
        let text = path.to_text();
        let mut i: usize = 0;
        while i < self.excludes.len()
            invariant
                i <= self.excludes@.len(),
                text@ == spec_serialize(path@),
                forall|j: int|
                    0 <= j < i ==> !regex_match(#[trigger] self@.excludes[j], spec_serialize(
                        path@,
                    )),
            decreases self.excludes@.len() - i,
        {
            if self.excludes[i].is_match(text.as_str()) {
                proof {
                    assert(self@.excludes[i as int] == self.excludes@[i as int].pattern_view());
                }
                return false;
            }
            proof {
                assert(self@.excludes[i as int] == self.excludes@[i as int].pattern_view());
            }
            i = i + 1;
        }
        match self.strategy {
            None => true,
            Some(s) => s.filter_accept(path),
        }
    }
}

/// The element count of a sequence node, zero for anything else.
pub open spec fn arr_len(n: NodeV) -> int {
    if n is Arr {
        n->Arr_0.len() as int
    } else {
        0
    }
}

/// The element of a sequence node at an index, null when out of range or
/// not a sequence.
pub open spec fn arr_elem(n: NodeV, i: int) -> NodeV {
    if n is Arr && 0 <= i < n->Arr_0.len() {
        n->Arr_0[i]
    } else {
        NodeV::Null
    }
}

/// The entries of a mapping node, none for anything else.
pub open spec fn entries_of(n: NodeV) -> Seq<(Seq<char>, NodeV)> {
    if n is Hash {
        n->Hash_0
    } else {
        Seq::empty()
    }
}

/// The value of a mapping node under a key, null when absent.
pub open spec fn hget(n: NodeV, k: Seq<char>) -> NodeV {
    if n is Hash {
        match hash_lookup(n->Hash_0, k) {
            Some(v) => v,
            None => NodeV::Null,
        }
    } else {
        NodeV::Null
    }
}

/// Whether a mapping node bears a key.
pub open spec fn hhas(n: NodeV, k: Seq<char>) -> bool {
    n is Hash && hash_has_key(n->Hash_0, k)
}

pub open spec fn max_int(a: int, b: int) -> int {
    if a >= b {
        a
    } else {
        b
    }
}

/// The records a leaf comparison emits.
pub open spec fn leaf_diffs(f: PathFilterV, d: DocKeyV, p: Seq<ItemKeyV>, a: NodeV, b: NodeV) -> Seq<
    DiffV,
> {
    if pf_accepts(f, p) {
        if a is Null && !(b is Null) {
            seq![DiffV::Added { doc: d, path: p, value: b }]
        } else if !(a is Null) && b is Null {
            seq![DiffV::Removed { doc: d, path: p, value: a }]
        } else if a != b {
            seq![DiffV::Changed { doc: d, path: p, original: a, modified: b }]
        } else {
            Seq::empty()
        }
    } else {
        Seq::empty()
    }
}

/// The records the whole walk of a pair of trees emits, in discovery
/// order.
pub open spec fn spec_diffs(f: PathFilterV, d: DocKeyV, p: Seq<ItemKeyV>, a: NodeV, b: NodeV) -> Seq<
    DiffV,
>
    decreases size_v(a) + size_v(b), 2int, 0int,
    via spec_diffs_dec
{
    if a is Arr || b is Arr {
        arr_diffs(f, d, p, a, b, 0) + (if !(a is Arr) {
            spec_diffs(f, d, p, a, NodeV::Null)
        } else if !(b is Arr) {
            spec_diffs(f, d, p, NodeV::Null, b)
        } else {
            Seq::empty()
        })
    } else if a is Hash || b is Hash {
        hash_diffs_first(f, d, p, a, b, 0) + hash_diffs_second(f, d, p, a, b, 0) + (if !(a
            is Hash) {
            spec_diffs(f, d, p, a, NodeV::Null)
        } else if !(b is Hash) {
            spec_diffs(f, d, p, NodeV::Null, b)
        } else {
            Seq::empty()
        })
    } else {
        leaf_diffs(f, d, p, a, b)
    }
}

#[via_fn]
proof fn spec_diffs_dec(f: PathFilterV, d: DocKeyV, p: Seq<ItemKeyV>, a: NodeV, b: NodeV) {
}

/// The records of the index-aligned walk of two (possibly absent)
/// sequences, from element `i` on.
pub open spec fn arr_diffs(
    f: PathFilterV,
    d: DocKeyV,
    p: Seq<ItemKeyV>,
    a: NodeV,
    b: NodeV,
    i: int,
) -> Seq<DiffV>
    decreases size_v(a) + size_v(b), 1int, max_int(arr_len(a), arr_len(b)) - i,
    via arr_diffs_dec
{
    if i < 0 || i >= max_int(arr_len(a), arr_len(b)) {
        Seq::empty()
    } else {
        spec_diffs(f, d, p.push(ItemKeyV::Index(i)), arr_elem(a, i), arr_elem(b, i)) + arr_diffs(
            f,
            d,
            p,
            a,
            b,
            i + 1,
        )
    }
}

#[via_fn]
proof fn arr_diffs_dec(f: PathFilterV, d: DocKeyV, p: Seq<ItemKeyV>, a: NodeV, b: NodeV, i: int) {
    if 0 <= i < max_int(arr_len(a), arr_len(b)) {
        if a is Arr && i < arr_len(a) {
            lemma_size_seq_elem(a->Arr_0, i);
        }
        if b is Arr && i < arr_len(b) {
            lemma_size_seq_elem(b->Arr_0, i);
        }
    }
}

/// The walk of the first document's keys, from entry `i` on: each value
/// against the second document's value under the same key, or null.
pub open spec fn hash_diffs_first(
    f: PathFilterV,
    d: DocKeyV,
    p: Seq<ItemKeyV>,
    a: NodeV,
    b: NodeV,
    i: int,
) -> Seq<DiffV>
    decreases size_v(a) + size_v(b), 1int, entries_of(a).len() - i,
    via hash_diffs_first_dec
{
    if i < 0 || i >= entries_of(a).len() {
        Seq::empty()
    } else {
        spec_diffs(
            f,
            d,
            p.push(ItemKeyV::Key(entries_of(a)[i].0)),
            entries_of(a)[i].1,
            hget(b, entries_of(a)[i].0),
        ) + hash_diffs_first(f, d, p, a, b, i + 1)
    }
}

#[via_fn]
proof fn hash_diffs_first_dec(
    f: PathFilterV,
    d: DocKeyV,
    p: Seq<ItemKeyV>,
    a: NodeV,
    b: NodeV,
    i: int,
) {
    if 0 <= i < entries_of(a).len() {
        lemma_size_entries_elem(a->Hash_0, i);
        if b is Hash && hash_lookup(b->Hash_0, entries_of(a)[i].0) is Some {
            lemma_lookup_size(b->Hash_0, entries_of(a)[i].0);
        }
    }
}

/// The walk of the second document's exclusive keys, from entry `i` on:
/// each value against null.
pub open spec fn hash_diffs_second(
    f: PathFilterV,
    d: DocKeyV,
    p: Seq<ItemKeyV>,
    a: NodeV,
    b: NodeV,
    i: int,
) -> Seq<DiffV>
    decreases size_v(a) + size_v(b), 1int, entries_of(b).len() - i,
    via hash_diffs_second_dec
{
    if i < 0 || i >= entries_of(b).len() {
        Seq::empty()
    } else {
        (if hhas(a, entries_of(b)[i].0) {
            Seq::empty()
        } else {
            spec_diffs(f, d, p.push(ItemKeyV::Key(entries_of(b)[i].0)), NodeV::Null, entries_of(
                b,
            )[i].1)
        }) + hash_diffs_second(f, d, p, a, b, i + 1)
    }
}

#[via_fn]
proof fn hash_diffs_second_dec(
    f: PathFilterV,
    d: DocKeyV,
    p: Seq<ItemKeyV>,
    a: NodeV,
    b: NodeV,
    i: int,
) {
    if 0 <= i < entries_of(b).len() {
        lemma_size_entries_elem(b->Hash_0, i);
    }
}

/// The element of a sequence node at an index, or the given null node.
fn arr_elem_ref<'a>(n: &'a Node, i: usize, null: &'a Node) -> (r: &'a Node)
    requires
        null@ == NodeV::Null,
    ensures
        r@ == arr_elem(n@, i as int),
{
    match n {
        Node::Array(v) => {
            proof {
                lemma_view_nodes_len(v@);
            }
            if i < v.len() {
                proof {
                    lemma_view_nodes_index(v@, i as int);
                }
                &v[i]
            } else {
                null
            }
        },
        _ => null,
    }
}

/// The value of a mapping node under a key, or the given null node.
fn hget_ref<'a>(n: &'a Node, key: &String, null: &'a Node) -> (r: &'a Node)
    requires
        null@ == NodeV::Null,
    ensures
        r@ == hget(n@, key@),
{
    match n {
        Node::Hash(es) => {
            match hash_find(es, key) {
                Some(j) => {
                    proof {
                        lemma_first_key_lookup(es@, j as int, key@);
                        lemma_view_entries_index(es@, j as int);
                    }
                    &es[j].value
                },
                None => {
                    proof {
                        lemma_no_key_lookup(es@, key@);
                    }
                    null
                },
            }
        },
        _ => null,
    }
}

/// Whether a mapping node bears a key.
fn hhas_exec(n: &Node, key: &String) -> (r: bool)
    ensures
        r == hhas(n@, key@),
{
    match n {
        Node::Hash(es) => {
            match hash_find(es, key) {
                Some(j) => {
                    proof {
                        lemma_first_key_lookup(es@, j as int, key@);
                        lemma_hash_lookup_has_key(crate::node::view_entries(es@), key@);
                    }
                    true
                },
                None => {
                    proof {
                        lemma_no_key_lookup(es@, key@);
                    }
                    false
                },
            }
        },
        _ => false,
    }
}

/// Walks a pair of trees and appends every discovered difference.
pub fn recurse_diffs(
    filter: &PathFilter,
    doc: &DocKey,
    path: &KeyPath,
    y1: &Node,
    y2: &Node,
    diffs: &mut Vec<DiffRecord>,
)
    ensures
        diffs_view(final(diffs)@) == diffs_view(old(diffs)@) + spec_diffs(
            filter@,
            doc@,
            path@,
            y1@,
            y2@,
        ),
    decreases size_v(y1@) + size_v(y2@), 3int, 0int,
{
    let ghost f = filter@;
    let ghost before = diffs@;
    if y1.is_array() || y2.is_array() {
        recurse_array_diffs(filter, doc, path, y1, y2, diffs);
    } else if y1.is_hash() || y2.is_hash() {
        recurse_hash_diffs(filter, doc, path, y1, y2, diffs);
    } else {
        if filter.accept(path) {
            if y1.is_null() && !y2.is_null() {
                diffs.push(
                    DiffRecord::Added {
                        doc: doc.duplicate(),
                        path: path.duplicate(),
                        value: node_dup(y2),
                    },
                );
            } else if !y1.is_null() && y2.is_null() {
                diffs.push(
                    DiffRecord::Removed {
                        doc: doc.duplicate(),
                        path: path.duplicate(),
                        value: node_dup(y1),
                    },
                );
            } else if !node_eq(y1, y2) {
                diffs.push(
                    DiffRecord::Changed {
                        doc: doc.duplicate(),
                        path: path.duplicate(),
                        original: node_dup(y1),
                        modified: node_dup(y2),
                    },
                );
            }
        }
        proof {
            assert(spec_diffs(f, doc@, path@, y1@, y2@) == leaf_diffs(f, doc@, path@, y1@, y2@));
            assert(diffs_view(diffs@) =~= diffs_view(before) + leaf_diffs(
                f,
                doc@,
                path@,
                y1@,
                y2@,
            ));
        }
    }
}

/// Walks two sides of which at least one is a sequence: elements pair by
/// index, the shorter or absent side read as null, and a side that is no
/// sequence at all is afterwards walked once against null.
pub fn recurse_array_diffs(
    filter: &PathFilter,
    doc: &DocKey,
    path: &KeyPath,
    y1: &Node,
    y2: &Node,
    diffs: &mut Vec<DiffRecord>,
)
    requires
        y1@ is Arr || y2@ is Arr,
    ensures
        diffs_view(final(diffs)@) == diffs_view(old(diffs)@) + spec_diffs(
            filter@,
            doc@,
            path@,
            y1@,
            y2@,
        ),
    decreases size_v(y1@) + size_v(y2@), 2int, 0int,
{
    let ghost f = filter@;
    let ghost before = diffs@;
    let null_node = Node::Null;
    let len1 = match y1 {
        Node::Array(v) => {
            proof {
                lemma_view_nodes_len(v@);
            }
            v.len()
        },
        _ => 0,
    };
    let len2 = match y2 {
        Node::Array(v) => {
            proof {
                lemma_view_nodes_len(v@);
            }
            v.len()
        },
        _ => 0,
    };
    let maxlen = if len1 >= len2 {
        len1
    } else {
        len2
    };
    proof {
        assert(maxlen as int == max_int(arr_len(y1@), arr_len(y2@)));
    }
    let mut i: usize = 0;
    while i < maxlen
        invariant
            i <= maxlen,
            maxlen as int == max_int(arr_len(y1@), arr_len(y2@)),
            null_node@ == NodeV::Null,
            f == filter@,
            diffs_view(diffs@) + arr_diffs(f, doc@, path@, y1@, y2@, i as int) == diffs_view(
                before,
            ) + arr_diffs(f, doc@, path@, y1@, y2@, 0),
        decreases maxlen - i,
    {
        let ghost pre = diffs@;
        let v1 = arr_elem_ref(y1, i, &null_node);
        let v2 = arr_elem_ref(y2, i, &null_node);
        let child_path = path.push(ItemKey::Index(i));
        proof {
            assert(child_path@ == path@.push(ItemKeyV::Index(i as int)));
            if y1@ is Arr && (i as int) < arr_len(y1@) {
                lemma_size_seq_elem(y1@->Arr_0, i as int);
            }
            if y2@ is Arr && (i as int) < arr_len(y2@) {
                lemma_size_seq_elem(y2@->Arr_0, i as int);
            }
            assert(size_v(v1@) + size_v(v2@) < size_v(y1@) + size_v(y2@));
        }
        recurse_diffs(filter, doc, &child_path, v1, v2, diffs);
        proof {
            assert(arr_diffs(f, doc@, path@, y1@, y2@, i as int) == spec_diffs(
                f,
                doc@,
                child_path@,
                v1@,
                v2@,
            ) + arr_diffs(f, doc@, path@, y1@, y2@, i as int + 1));
            assert(diffs_view(diffs@) + arr_diffs(f, doc@, path@, y1@, y2@, i as int + 1)
                =~= diffs_view(before) + arr_diffs(f, doc@, path@, y1@, y2@, 0)) by {
                assert((diffs_view(pre) + spec_diffs(f, doc@, child_path@, v1@, v2@)) + arr_diffs(
                    f,
                    doc@,
                    path@,
                    y1@,
                    y2@,
                    i as int + 1,
                ) =~= diffs_view(pre) + (spec_diffs(f, doc@, child_path@, v1@, v2@) + arr_diffs(
                    f,
                    doc@,
                    path@,
                    y1@,
                    y2@,
                    i as int + 1,
                )));
            }
        }
        i = i + 1;
    }
    proof {
        assert(arr_diffs(f, doc@, path@, y1@, y2@, maxlen as int) =~= Seq::<DiffV>::empty());
        assert(diffs_view(diffs@) + Seq::<DiffV>::empty() =~= diffs_view(diffs@));
    }
    let ghost mid = diffs@;
    if !y1.is_array() {
        recurse_diffs(filter, doc, path, y1, &null_node, diffs);
        proof {
            assert(diffs_view(diffs@) =~= diffs_view(before) + (arr_diffs(
                f,
                doc@,
                path@,
                y1@,
                y2@,
                0,
            ) + spec_diffs(f, doc@, path@, y1@, NodeV::Null)));
        }
    } else if !y2.is_array() {
        recurse_diffs(filter, doc, path, &null_node, y2, diffs);
        proof {
            assert(diffs_view(diffs@) =~= diffs_view(before) + (arr_diffs(
                f,
                doc@,
                path@,
                y1@,
                y2@,
                0,
            ) + spec_diffs(f, doc@, path@, NodeV::Null, y2@)));
        }
    } else {
        proof {
            assert(diffs_view(diffs@) =~= diffs_view(before) + (arr_diffs(
                f,
                doc@,
                path@,
                y1@,
                y2@,
                0,
            ) + Seq::<DiffV>::empty()));
        }
    }
}

/// Walks two sides of which at least one is a mapping: the first side's
/// keys in order, then the second side's exclusive keys, and a side that
/// is no mapping at all is afterwards walked once against null.
pub fn recurse_hash_diffs(
    filter: &PathFilter,
    doc: &DocKey,
    path: &KeyPath,
    y1: &Node,
    y2: &Node,
    diffs: &mut Vec<DiffRecord>,
)
    requires
        y1@ is Hash || y2@ is Hash,
        !(y1@ is Arr),
        !(y2@ is Arr),
    ensures
        diffs_view(final(diffs)@) == diffs_view(old(diffs)@) + spec_diffs(
            filter@,
            doc@,
            path@,
            y1@,
            y2@,
        ),
    decreases size_v(y1@) + size_v(y2@), 2int, 0int,
{
    let ghost f = filter@;
    let ghost before = diffs@;
    let null_node = Node::Null;
    if let Node::Hash(es1) = y1 {
        proof {
            lemma_view_entries_len(es1@);
        }
        let mut i: usize = 0;
        while i < es1.len()
            invariant
                i <= es1@.len(),
                y1@ == NodeV::Hash(crate::node::view_entries(es1@)),
                crate::node::view_entries(es1@).len() == es1@.len(),
                null_node@ == NodeV::Null,
                f == filter@,
                diffs_view(diffs@) + hash_diffs_first(f, doc@, path@, y1@, y2@, i as int)
                    == diffs_view(before) + hash_diffs_first(f, doc@, path@, y1@, y2@, 0),
            decreases es1@.len() - i,
        {
            let ghost pre = diffs@;
            proof {
                lemma_view_entries_index(es1@, i as int);
                lemma_size_entries_elem(crate::node::view_entries(es1@), i as int);
                if y2@ is Hash && hash_lookup(y2@->Hash_0, es1@[i as int].key@) is Some {
                    lemma_lookup_size(y2@->Hash_0, es1@[i as int].key@);
                }
            }
            let key = &es1[i].key;
            let v1 = &es1[i].value;
            let v2 = hget_ref(y2, key, &null_node);
            let child_path = path.push(ItemKey::Key(key.clone()));
            proof {
                assert(entries_of(y1@)[i as int] == (key@, v1@));
                assert(size_v(v1@) + size_v(v2@) < size_v(y1@) + size_v(y2@));
            }
            recurse_diffs(filter, doc, &child_path, v1, v2, diffs);
            proof {
                assert(hash_diffs_first(f, doc@, path@, y1@, y2@, i as int) == spec_diffs(
                    f,
                    doc@,
                    child_path@,
                    v1@,
                    v2@,
                ) + hash_diffs_first(f, doc@, path@, y1@, y2@, i as int + 1));
                assert(diffs_view(diffs@) + hash_diffs_first(f, doc@, path@, y1@, y2@, i as int + 1)
                    =~= diffs_view(before) + hash_diffs_first(f, doc@, path@, y1@, y2@, 0)) by {
                    assert((diffs_view(pre) + spec_diffs(f, doc@, child_path@, v1@, v2@))
                        + hash_diffs_first(f, doc@, path@, y1@, y2@, i as int + 1) =~= diffs_view(
                        pre,
                    ) + (spec_diffs(f, doc@, child_path@, v1@, v2@) + hash_diffs_first(
                        f,
                        doc@,
                        path@,
                        y1@,
                        y2@,
                        i as int + 1,
                    )));
                }
            }
            i = i + 1;
        }
        proof {
            assert(hash_diffs_first(f, doc@, path@, y1@, y2@, es1@.len() as int) =~= Seq::<
                DiffV,
            >::empty());
            assert(diffs_view(diffs@) =~= diffs_view(before) + hash_diffs_first(
                f,
                doc@,
                path@,
                y1@,
                y2@,
                0,
            ));
        }
    } else {
        proof {
            assert(entries_of(y1@) =~= Seq::<(Seq<char>, NodeV)>::empty());
            assert(hash_diffs_first(f, doc@, path@, y1@, y2@, 0) =~= Seq::<DiffV>::empty());
            assert(diffs_view(diffs@) =~= diffs_view(before) + hash_diffs_first(
                f,
                doc@,
                path@,
                y1@,
                y2@,
                0,
            ));
        }
    }
    let ghost after_first = diffs@;
    proof {
        assert(diffs_view(after_first) == diffs_view(before) + hash_diffs_first(
            f,
            doc@,
            path@,
            y1@,
            y2@,
            0,
        ));
    }
    if let Node::Hash(es2) = y2 {
        proof {
            lemma_view_entries_len(es2@);
        }
        let mut i: usize = 0;
        while i < es2.len()
            invariant
                i <= es2@.len(),
                y2@ == NodeV::Hash(crate::node::view_entries(es2@)),
                crate::node::view_entries(es2@).len() == es2@.len(),
                null_node@ == NodeV::Null,
                f == filter@,
                diffs_view(diffs@) + hash_diffs_second(f, doc@, path@, y1@, y2@, i as int)
                    == diffs_view(after_first) + hash_diffs_second(f, doc@, path@, y1@, y2@, 0),
            decreases es2@.len() - i,
        {
            let ghost pre = diffs@;
            proof {
                lemma_view_entries_index(es2@, i as int);
                lemma_size_entries_elem(crate::node::view_entries(es2@), i as int);
            }
            let key = &es2[i].key;
            let v2 = &es2[i].value;
            proof {
                assert(entries_of(y2@)[i as int] == (key@, v2@));
            }
            if !hhas_exec(y1, key) {
                let child_path = path.push(ItemKey::Key(key.clone()));
                proof {
                    assert(size_v(NodeV::Null) + size_v(v2@) < size_v(y1@) + size_v(y2@));
                }
                recurse_diffs(filter, doc, &child_path, &null_node, v2, diffs);
                proof {
                    assert(hash_diffs_second(f, doc@, path@, y1@, y2@, i as int) == spec_diffs(
                        f,
                        doc@,
                        child_path@,
                        NodeV::Null,
                        v2@,
                    ) + hash_diffs_second(f, doc@, path@, y1@, y2@, i as int + 1));
                    assert(diffs_view(diffs@) + hash_diffs_second(
                        f,
                        doc@,
                        path@,
                        y1@,
                        y2@,
                        i as int + 1,
                    ) =~= diffs_view(after_first) + hash_diffs_second(
                        f,
                        doc@,
                        path@,
                        y1@,
                        y2@,
                        0,
                    )) by {
                        assert((diffs_view(pre) + spec_diffs(f, doc@, child_path@, NodeV::Null, v2@))
                            + hash_diffs_second(f, doc@, path@, y1@, y2@, i as int + 1)
                            =~= diffs_view(pre) + (spec_diffs(
                            f,
                            doc@,
                            child_path@,
                            NodeV::Null,
                            v2@,
                        ) + hash_diffs_second(f, doc@, path@, y1@, y2@, i as int + 1)));
                    }
                }
            } else {
                proof {
                    assert(hash_diffs_second(f, doc@, path@, y1@, y2@, i as int) == Seq::<
                        DiffV,
                    >::empty() + hash_diffs_second(f, doc@, path@, y1@, y2@, i as int + 1));
                    assert(Seq::<DiffV>::empty() + hash_diffs_second(
                        f,
                        doc@,
                        path@,
                        y1@,
                        y2@,
                        i as int + 1,
                    ) =~= hash_diffs_second(f, doc@, path@, y1@, y2@, i as int + 1));
                }
            }
            i = i + 1;
        }
        proof {
            assert(hash_diffs_second(f, doc@, path@, y1@, y2@, es2@.len() as int) =~= Seq::<
                DiffV,
            >::empty());
            assert(diffs_view(diffs@) =~= diffs_view(after_first) + hash_diffs_second(
                f,
                doc@,
                path@,
                y1@,
                y2@,
                0,
            ));
        }
    } else {
        proof {
            assert(entries_of(y2@) =~= Seq::<(Seq<char>, NodeV)>::empty());
            assert(hash_diffs_second(f, doc@, path@, y1@, y2@, 0) =~= Seq::<DiffV>::empty());
            assert(diffs_view(diffs@) =~= diffs_view(after_first) + hash_diffs_second(
                f,
                doc@,
                path@,
                y1@,
                y2@,
                0,
            ));
        }
    }
    let ghost after_second = diffs@;
    if !y1.is_hash() {
        recurse_diffs(filter, doc, path, y1, &null_node, diffs);
    } else if !y2.is_hash() {
        recurse_diffs(filter, doc, path, &null_node, y2, diffs);
    }
    proof {
        let h1 = hash_diffs_first(f, doc@, path@, y1@, y2@, 0);
        let h2 = hash_diffs_second(f, doc@, path@, y1@, y2@, 0);
        let tail = if !(y1@ is Hash) {
            spec_diffs(f, doc@, path@, y1@, NodeV::Null)
        } else if !(y2@ is Hash) {
            spec_diffs(f, doc@, path@, NodeV::Null, y2@)
        } else {
            Seq::<DiffV>::empty()
        };
        assert(diffs_view(diffs@) =~= diffs_view(after_second) + tail);
        assert(spec_diffs(f, doc@, path@, y1@, y2@) == h1 + h2 + tail);
        assert(diffs_view(diffs@) =~= diffs_view(before) + (h1 + h2 + tail)) by {
            assert(((diffs_view(before) + h1) + h2) + tail =~= diffs_view(before) + ((h1 + h2)
                + tail));
        }
    }
}

/// The document paired with a key on the other side, or null.
pub open spec fn dkget(s: Seq<(DocKeyV, NodeV)>, k: DocKeyV) -> NodeV {
    match dk_lookup(s, k) {
        Some(v) => v,
        None => NodeV::Null,
    }
}

/// The records of walking the first input's documents, from entry `i`
/// on, each against its counterpart or null.
pub open spec fn fd_first(
    f: PathFilterV,
    s1: Seq<(DocKeyV, NodeV)>,
    s2: Seq<(DocKeyV, NodeV)>,
    i: int,
) -> Seq<DiffV>
    decreases s1.len() - i,
{
    if i < 0 || i >= s1.len() {
        Seq::empty()
    } else {
        spec_diffs(f, s1[i].0, Seq::empty(), s1[i].1, dkget(s2, s1[i].0)) + fd_first(
            f,
            s1,
            s2,
            i + 1,
        )
    }
}

/// The records of walking the second input's unmatched documents against
/// null, from entry `i` on.
pub open spec fn fd_second(
    f: PathFilterV,
    s1: Seq<(DocKeyV, NodeV)>,
    s2: Seq<(DocKeyV, NodeV)>,
    i: int,
) -> Seq<DiffV>
    decreases s2.len() - i,
{
    if i < 0 || i >= s2.len() {
        Seq::empty()
    } else {
        (if dk_has(s1, s2[i].0) {
            Seq::empty()
        } else {
            spec_diffs(f, s2[i].0, Seq::empty(), NodeV::Null, s2[i].1)
        }) + fd_second(f, s1, s2, i + 1)
    }
}

/// Every record of comparing two correlated document sets, in discovery
/// order.
pub open spec fn spec_find_diffs(
    f: PathFilterV,
    s1: Seq<(DocKeyV, NodeV)>,
    s2: Seq<(DocKeyV, NodeV)>,
) -> Seq<DiffV> {
    fd_first(f, s1, s2, 0) + fd_second(f, s1, s2, 0)
}

proof fn lemma_dk_lookup_first(s: Seq<(DocKeyV, NodeV)>, i: int, k: DocKeyV)
    requires
        0 <= i < s.len(),
        s[i].0 == k,
        forall|j: int| 0 <= j < i ==> (#[trigger] s[j]).0 != k,
    ensures
        dk_lookup(s, k) == Some(s[i].1),
    decreases i,
{
    if i > 0 {
        assert(s.drop_first()[i - 1] == s[i]);
        assert(forall|j: int| 0 <= j < i - 1 ==> #[trigger] s.drop_first()[j] == s[j + 1]);
        lemma_dk_lookup_first(s.drop_first(), i - 1, k);
    }
}

proof fn lemma_dk_lookup_none(s: Seq<(DocKeyV, NodeV)>, k: DocKeyV)
    requires
        forall|j: int| 0 <= j < s.len() ==> (#[trigger] s[j]).0 != k,
    ensures
        dk_lookup(s, k) is None,
        !dk_has(s, k),
    decreases s.len(),
{
    if s.len() > 0 {
        assert(forall|j: int| 0 <= j < s.len() - 1 ==> #[trigger] s.drop_first()[j] == s[j + 1]);
        lemma_dk_lookup_none(s.drop_first(), k);
    }
    if dk_has(s, k) {
        let j = choose|j: int| 0 <= j < s.len() && (#[trigger] s[j]).0 == k;
    }
}

/// Compares two correlated document sets: every document of the first
/// against its counterpart (or null), then every unmatched document of
/// the second against null.
pub fn find_diffs(
    strategy: &Option<Strategy>,
    excludes: &Vec<CompiledRegex>,
    d1: &Documents,
    d2: &Documents,
) -> (r: Vec<DiffRecord>)
    ensures
        diffs_view(r@) == spec_find_diffs(
            (PathFilterV {
                strategy: crate::index::opt_strategy_view(*strategy),
                excludes: excludes@.map_values(|c: CompiledRegex| c.pattern_view()),
            }),
            d1@,
            d2@,
        ),
{
    let filter = PathFilter { strategy, excludes };
    let ghost f = filter@;
    let null_node = Node::Null;
    let root = KeyPath::new();
    let mut out: Vec<DiffRecord> = Vec::new();
    proof {
        assert(f == (PathFilterV {
            strategy: crate::index::opt_strategy_view(*strategy),
            excludes: excludes@.map_values(|c: CompiledRegex| c.pattern_view()),
        }));
        assert(diffs_view(out@) =~= Seq::<DiffV>::empty());
    }
    let mut i: usize = 0;
    while i < d1.0.len()
        invariant
            i <= d1.0@.len(),
            d1@.len() == d1.0@.len(),
            d2@.len() == d2.0@.len(),
            f == filter@,
            null_node@ == NodeV::Null,
            root@ == Seq::<ItemKeyV>::empty(),
            diffs_view(out@) + fd_first(f, d1@, d2@, i as int) == fd_first(f, d1@, d2@, 0),
        decreases d1.0@.len() - i,
    {
        let ghost pre = out@;
        let key = &d1.0[i].key;
        let doc1 = &d1.0[i].doc;
        proof {
            assert(d1@[i as int] == (key@, doc1@));
        }
        let doc2: &Node = match d2.find(key) {
            Some(j) => {
                proof {
                    lemma_dk_lookup_first(d2@, j as int, key@);
                    assert(d2@[j as int] == (d2.0@[j as int].key@, d2.0@[j as int].doc@));
                }
                &d2.0[j].doc
            },
            None => {
                proof {
                    lemma_dk_lookup_none(d2@, key@);
                }
                &null_node
            },
        };
        proof {
            assert(doc2@ == dkget(d2@, key@));
        }
        recurse_diffs(&filter, key, &root, doc1, doc2, &mut out);
        proof {
            assert(fd_first(f, d1@, d2@, i as int) == spec_diffs(
                f,
                key@,
                Seq::<ItemKeyV>::empty(),
                doc1@,
                dkget(d2@, key@),
            ) + fd_first(f, d1@, d2@, i as int + 1));
            assert(diffs_view(out@) + fd_first(f, d1@, d2@, i as int + 1) =~= fd_first(
                f,
                d1@,
                d2@,
                0,
            )) by {
                assert((diffs_view(pre) + spec_diffs(
                    f,
                    key@,
                    Seq::<ItemKeyV>::empty(),
                    doc1@,
                    dkget(d2@, key@),
                )) + fd_first(f, d1@, d2@, i as int + 1) =~= diffs_view(pre) + (spec_diffs(
                    f,
                    key@,
                    Seq::<ItemKeyV>::empty(),
                    doc1@,
                    dkget(d2@, key@),
                ) + fd_first(f, d1@, d2@, i as int + 1)));
            }
        }
        i = i + 1;
    }
    proof {
        assert(fd_first(f, d1@, d2@, d1@.len() as int) =~= Seq::<DiffV>::empty());
        assert(diffs_view(out@) =~= fd_first(f, d1@, d2@, 0));
    }
    let ghost after_first = out@;
    let mut j: usize = 0;
    while j < d2.0.len()
        invariant
            j <= d2.0@.len(),
            d1@.len() == d1.0@.len(),
            d2@.len() == d2.0@.len(),
            f == filter@,
            null_node@ == NodeV::Null,
            root@ == Seq::<ItemKeyV>::empty(),
            diffs_view(out@) + fd_second(f, d1@, d2@, j as int) == diffs_view(after_first)
                + fd_second(f, d1@, d2@, 0),
        decreases d2.0@.len() - j,
    {
        let ghost pre = out@;
        let key = &d2.0[j].key;
        let doc2 = &d2.0[j].doc;
        proof {
            assert(d2@[j as int] == (key@, doc2@));
        }
        match d1.find(key) {
            Some(_) => {
                proof {
                    assert(dk_has(d1@, key@));
                    assert(fd_second(f, d1@, d2@, j as int) == Seq::<DiffV>::empty() + fd_second(
                        f,
                        d1@,
                        d2@,
                        j as int + 1,
                    ));
                    assert(Seq::<DiffV>::empty() + fd_second(f, d1@, d2@, j as int + 1)
                        =~= fd_second(f, d1@, d2@, j as int + 1));
                }
            },
            None => {
                proof {
                    lemma_dk_lookup_none(d1@, key@);
                }
                recurse_diffs(&filter, key, &root, &null_node, doc2, &mut out);
                proof {
                    assert(fd_second(f, d1@, d2@, j as int) == spec_diffs(
                        f,
                        key@,
                        Seq::<ItemKeyV>::empty(),
                        NodeV::Null,
                        doc2@,
                    ) + fd_second(f, d1@, d2@, j as int + 1));
                    assert(diffs_view(out@) + fd_second(f, d1@, d2@, j as int + 1) =~= diffs_view(
                        after_first,
                    ) + fd_second(f, d1@, d2@, 0)) by {
                        assert((diffs_view(pre) + spec_diffs(
                            f,
                            key@,
                            Seq::<ItemKeyV>::empty(),
                            NodeV::Null,
                            doc2@,
                        )) + fd_second(f, d1@, d2@, j as int + 1) =~= diffs_view(pre) + (spec_diffs(
                            f,
                            key@,
                            Seq::<ItemKeyV>::empty(),
                            NodeV::Null,
                            doc2@,
                        ) + fd_second(f, d1@, d2@, j as int + 1)));
                    }
                }
            },
        }
        j = j + 1;
    }
    proof {
        assert(fd_second(f, d1@, d2@, d2@.len() as int) =~= Seq::<DiffV>::empty());
        assert(diffs_view(out@) =~= diffs_view(after_first) + fd_second(f, d1@, d2@, 0));
        assert(diffs_view(out@) =~= spec_find_diffs(f, d1@, d2@));
    }
    out
}

/// How many records of a sequence satisfy a predicate.
pub open spec fn count_where(s: Seq<DiffV>, p: spec_fn(DiffV) -> bool) -> int
    decreases s.len(),
{
    if s.len() == 0 {
        0int
    } else {
        (if p(s[0]) {
            1int
        } else {
            0int
        }) + count_where(s.drop_first(), p)
    }
}

proof fn lemma_count_where_snoc(s: Seq<DiffV>, x: DiffV, p: spec_fn(DiffV) -> bool)
    ensures
        count_where(s.push(x), p) == count_where(s, p) + (if p(x) {
            1int
        } else {
            0int
        }),
    decreases s.len(),
{
    if s.len() == 0 {
        assert(s.push(x)[0] == x);
        assert(s.push(x).drop_first() =~= Seq::<DiffV>::empty());
        assert(count_where(Seq::<DiffV>::empty(), p) == 0);
    } else {
        assert(s.push(x)[0] == s[0]);
        assert(s.push(x).drop_first() =~= s.drop_first().push(x));
        lemma_count_where_snoc(s.drop_first(), x, p);
    }
}

pub proof fn lemma_count_where_nonneg(s: Seq<DiffV>, p: spec_fn(DiffV) -> bool)
    ensures
        0 <= count_where(s, p) <= s.len(),
    decreases s.len(),
{
    if s.len() > 0 {
        lemma_count_where_nonneg(s.drop_first(), p);
    }
}

/// Aggregate counts over a diff sequence: the total, and how many
/// records are additions, removals and changes.
pub struct DiffStats {
    pub total: usize,
    pub removals: usize,
    pub additions: usize,
    pub changes: usize,
}

impl DiffStats {
    /// Counts the records of each kind; every record is one of the three
    /// kinds, so the three counts sum to the total.
    pub fn from(diffs: &Vec<DiffRecord>) -> (r: DiffStats)
        ensures
            r.total == diffs@.len(),
            r.additions as int == count_where(diffs_view(diffs@), |d: DiffV| d is Added),
            r.removals as int == count_where(diffs_view(diffs@), |d: DiffV| d is Removed),
            r.changes as int == count_where(diffs_view(diffs@), |d: DiffV| d is Changed),
            r.additions + r.removals + r.changes == r.total,
    {
        let ghost dv = diffs_view(diffs@);
        let mut additions: usize = 0;
        let mut removals: usize = 0;
        let mut changes: usize = 0;
        let mut i: usize = 0;
        while i < diffs.len()
            invariant
                i <= diffs@.len(),
                dv == diffs_view(diffs@),
                dv.len() == diffs@.len(),
                additions as int == count_where(dv.take(i as int), |d: DiffV| d is Added),
                removals as int == count_where(dv.take(i as int), |d: DiffV| d is Removed),
                changes as int == count_where(dv.take(i as int), |d: DiffV| d is Changed),
                additions + removals + changes == i,
            decreases diffs@.len() - i,
        {
            proof {
                assert(dv.take(i as int + 1) =~= dv.take(i as int).push(dv[i as int]));
                lemma_count_where_snoc(dv.take(i as int), dv[i as int], |d: DiffV| d is Added);
                lemma_count_where_snoc(dv.take(i as int), dv[i as int], |d: DiffV| d is Removed);
                lemma_count_where_snoc(dv.take(i as int), dv[i as int], |d: DiffV| d is Changed);
                assert(dv[i as int] == diffs@[i as int]@);
            }
            match &diffs[i] {
                DiffRecord::Added { .. } => {
                    additions = additions + 1;
                },
                DiffRecord::Removed { .. } => {
                    removals = removals + 1;
                },
                DiffRecord::Changed { .. } => {
                    changes = changes + 1;
                },
            }
            i = i + 1;
        }
        proof {
            assert(dv.take(dv.len() as int) =~= dv);
        }
        DiffStats { total: diffs.len(), removals, additions, changes }
    }
}

/// Which input a fatal error belongs to.
#[derive(PartialEq, Eq, Structural, Clone, Copy, Debug)]
pub enum Side {
    Original,
    Modified,
}

/// A fatal error together with its context: the input it arose in and
/// the position of the document within that input.
#[derive(Debug)]
pub struct DocError {
    pub side: Side,
    pub index: usize,
    pub error: DiffError,
}

/// One side's documents after the strategy's transform, or the position
/// and error of the first document whose transform failed.
pub open spec fn spec_transform_seq(
    so: Option<StrategyV>,
    docs: Seq<NodeV>,
    modified: bool,
    i: int,
) -> Result<Seq<NodeV>, (int, ErrorV)>
    decreases docs.len() - i,
{
    if i < 0 || i >= docs.len() {
        Ok(docs)
    } else {
        match (match so {
            None => Ok::<NodeV, ErrorV>(docs[i]),
            Some(s) => crate::strategy::spec_strategy_transform(s, docs[i], modified),
        }) {
            Err(e) => Err((i, e)),
            Ok(d2) => spec_transform_seq(so, docs.update(i, d2), modified, i + 1),
        }
    }
}

/// Applies the strategy's transform to every document of one side, in
/// order, stopping at the first failure.
pub fn transform_side(strategy: &Option<Strategy>, docs: &mut Vec<Node>, modified: bool) -> (r:
    Result<(), (usize, DiffError)>)
    ensures
        (match r {
            Ok(()) => spec_transform_seq(
                crate::index::opt_strategy_view(*strategy),
                crate::node::view_nodes(old(docs)@),
                modified,
                0,
            ) == Ok::<Seq<NodeV>, (int, ErrorV)>(crate::node::view_nodes(final(docs)@)),
            Err((i, e)) => spec_transform_seq(
                crate::index::opt_strategy_view(*strategy),
                crate::node::view_nodes(old(docs)@),
                modified,
                0,
            ) == Err::<Seq<NodeV>, (int, ErrorV)>((i as int, e@)),
        }),
{
    let ghost so = crate::index::opt_strategy_view(*strategy);
    let mut i: usize = 0;
    proof {
        lemma_view_nodes_len(docs@);
    }
    while i < docs.len()
        invariant
            i <= docs@.len(),
            docs@.len() == old(docs)@.len(),
            so == crate::index::opt_strategy_view(*strategy),
            crate::node::view_nodes(docs@).len() == docs@.len(),
            spec_transform_seq(so, crate::node::view_nodes(old(docs)@), modified, 0)
                == spec_transform_seq(so, crate::node::view_nodes(docs@), modified, i as int),
        decreases docs@.len() - i,
    {
        let ghost cur = docs@;
        let ghost dv = crate::node::view_nodes(cur);
        proof {
            lemma_view_nodes_len(cur);
            lemma_view_nodes_index(cur, i as int);
        }
        let mut d = docs.remove(i);
        let ghost d0 = d@;
        let step = match strategy {
            None => Ok(()),
            Some(s) => s.transform(&mut d, modified),
        };
        match step {
            Ok(()) => {
                let ghost d1 = d@;
                docs.insert(i, d);
                proof {
                    assert(docs@ =~= cur.update(i as int, docs@[i as int]));
                    assert(docs@[i as int]@ == d1);
                    lemma_view_nodes_len(docs@);
                    assert(crate::node::view_nodes(docs@) =~= dv.update(i as int, d1)) by {
                        assert forall|k: int|
                            0 <= k < docs@.len() implies #[trigger] crate::node::view_nodes(
                            docs@,
                        )[k] == dv.update(i as int, d1)[k] by {
                            lemma_view_nodes_index(docs@, k);
                            lemma_view_nodes_index(cur, k);
                        }
                        lemma_view_nodes_len(docs@);
                    }
                    assert(spec_transform_seq(so, dv, modified, i as int) == spec_transform_seq(
                        so,
                        dv.update(i as int, d1),
                        modified,
                        i as int + 1,
                    )) by {
                        assert(dv[i as int] == d0);
                    }
                }
                i = i + 1;
            },
            Err(e) => {
                docs.insert(i, d);
                proof {
                    assert(spec_transform_seq(so, dv, modified, i as int) == Err::<
                        Seq<NodeV>,
                        (int, ErrorV),
                    >((i as int, e@))) by {
                        assert(dv[i as int] == d0);
                    }
                }
                return Err((i, e));
            },
        }
    }
    proof {
        assert(spec_transform_seq(so, crate::node::view_nodes(docs@), modified, i as int)
            == Ok::<Seq<NodeV>, (int, ErrorV)>(crate::node::view_nodes(docs@)));
    }
    Ok(())
}

/// The whole pipeline on two parsed inputs: transform both sides, index
/// both sides, and compare the correlated documents, giving either the
/// diff sequence or the first fatal error with its side and document
/// position.
pub open spec fn spec_diff_docs(
    k8s: bool,
    so: Option<StrategyV>,
    exc: Seq<Seq<char>>,
    rv: Seq<crate::index::RenameV>,
    a: Seq<NodeV>,
    b: Seq<NodeV>,
) -> Result<Seq<DiffV>, (Side, int, ErrorV)> {
    match spec_transform_seq(so, a, false, 0) {
        Err((i, e)) => Err((Side::Original, i, e)),
        Ok(a2) => match spec_transform_seq(so, b, true, 0) {
            Err((i, e)) => Err((Side::Modified, i, e)),
            Ok(b2) => {
                let d1 = if k8s {
                    crate::index::spec_index_k8s(a2, so, rv, 0, Seq::empty())
                } else {
                    Ok(crate::index::spec_index_positional(a2))
                };
                match d1 {
                    Err((i, e)) => Err((Side::Original, i, e)),
                    Ok(s1) => {
                        let d2 = if k8s {
                            crate::index::spec_index_k8s(b2, so, rv, 0, Seq::empty())
                        } else {
                            Ok(crate::index::spec_index_positional(b2))
                        };
                        match d2 {
                            Err((i, e)) => Err((Side::Modified, i, e)),
                            Ok(s2) => Ok(
                                spec_find_diffs(
                                    (PathFilterV { strategy: so, excludes: exc }),
                                    s1,
                                    s2,
                                ),
                            ),
                        }
                    },
                }
            },
        },
    }
}

/// Transforms, indexes and compares two parsed inputs.
pub fn diff_docs(
    k8s: bool,
    strategy: &Option<Strategy>,
    excludes: &Vec<CompiledRegex>,
    renames: &Vec<crate::index::RenameEntry>,
    y1: Vec<Node>,
    y2: Vec<Node>,
) -> (r: Result<Vec<DiffRecord>, DocError>)
    requires
        crate::index::renames_ok(crate::index::renames_view(renames@)),
    ensures
        (match r {
            Ok(diffs) => spec_diff_docs(
                k8s,
                crate::index::opt_strategy_view(*strategy),
                excludes@.map_values(|c: CompiledRegex| c.pattern_view()),
                crate::index::renames_view(renames@),
                crate::node::view_nodes(y1@),
                crate::node::view_nodes(y2@),
            ) == Ok::<Seq<DiffV>, (Side, int, ErrorV)>(diffs_view(diffs@)),
            Err(e) => spec_diff_docs(
                k8s,
                crate::index::opt_strategy_view(*strategy),
                excludes@.map_values(|c: CompiledRegex| c.pattern_view()),
                crate::index::renames_view(renames@),
                crate::node::view_nodes(y1@),
                crate::node::view_nodes(y2@),
            ) == Err::<Seq<DiffV>, (Side, int, ErrorV)>((e.side, e.index as int, e.error@)),
        }),
{
    let mut a = y1;
    let mut b = y2;
    match transform_side(strategy, &mut a, false) {
        Ok(()) => (),
        Err((i, e)) => {
            return Err(DocError { side: Side::Original, index: i, error: e });
        },
    }
    match transform_side(strategy, &mut b, true) {
        Ok(()) => (),
        Err((i, e)) => {
            return Err(DocError { side: Side::Modified, index: i, error: e });
        },
    }
    let d1 = match crate::index::index(a, k8s, strategy, renames) {
        Ok(d) => d,
        Err((i, e)) => {
            return Err(DocError { side: Side::Original, index: i, error: e });
        },
    };
    let d2 = match crate::index::index(b, k8s, strategy, renames) {
        Ok(d) => d,
        Err((i, e)) => {
            return Err(DocError { side: Side::Modified, index: i, error: e });
        },
    };
    let out = find_diffs(strategy, excludes, &d1, &d2);
    Ok(out)
}

} // verus!
