//! Correlating the top-level documents of the two inputs.
//!
//! In positional mode a document's identity is its position. In the
//! versioned-kind mode a document's identity is read from its own
//! well-known fields — API version, kind, name and an optional namespace
//! — after the document filter has had its say; a document that lacks a
//! required field is a fatal error. An optional rename table may rewrite
//! a matched document's name, patching the new name back into the
//! document itself so that later comparison sees it.

use vstd::prelude::*;
use crate::access::{KeyPathFuncs, set_err_view, spec_set};
use crate::error::{DiffError, ErrorV};
use crate::keypath::{ItemKey, ItemKeyV, KeyPath};
use crate::node::{Node, NodeV, hash_find, hash_lookup, lemma_first_key_lookup, lemma_no_key_lookup,
    lemma_view_entries_index, lemma_view_nodes_index, lemma_view_nodes_len, node_dup};
use crate::strategy::{Strategy, StrategyV, spec_accept_document};

verus! {

/// Mathematical image of a group/version-and-kind pair.
#[verifier::ext_equal]
pub struct GVKV {
    pub api_version: Seq<char>,
    pub kind: Seq<char>,
}

/// A document's API version and kind.
#[derive(Debug)]
pub struct GVK {
    pub api_version: String,
    pub kind: String,
}

impl View for GVK {
    type V = GVKV;

    open spec fn view(&self) -> GVKV {
        GVKV { api_version: self.api_version@, kind: self.kind@ }
    }
}

/// Mathematical image of a document's identity fields.
#[verifier::ext_equal]
pub struct K8SMetaV {
    pub grv: GVKV,
    pub name: Seq<char>,
    pub namespace: Option<Seq<char>>,
}

/// A document's identity: version and kind, name, optional namespace.
#[derive(Debug)]
pub struct K8SMeta {
    pub grv: GVK,
    pub name: String,
    pub namespace: Option<String>,
}

impl View for K8SMeta {
    type V = K8SMetaV;

    open spec fn view(&self) -> K8SMetaV {
        K8SMetaV {
            grv: self.grv@,
            name: self.name@,
            namespace: match &self.namespace {
                Some(ns) => Some(ns@),
                None => None,
            },
        }
    }
}

/// Mathematical image of a correlation key.
#[verifier::ext_equal]
pub enum DocKeyV {
    Position(int),
    K8S(K8SMetaV),
}

/// The correlation key of a top-level document: its position, or its
/// self-described identity.
#[derive(Debug)]
pub enum DocKey {
    Position(usize),
    K8S(K8SMeta),
}

impl View for DocKey {
    type V = DocKeyV;

    open spec fn view(&self) -> DocKeyV {
        match self {
            DocKey::Position(i) => DocKeyV::Position(*i as int),
            DocKey::K8S(m) => DocKeyV::K8S(m@),
        }
    }
}

impl DocKey {
    /// An owned copy of this key.
    pub fn duplicate(&self) -> (r: DocKey)
        ensures
            r@ == self@,
    {
        match self {
            DocKey::Position(i) => DocKey::Position(*i),
            DocKey::K8S(m) => DocKey::K8S(
                K8SMeta {
                    grv: GVK { api_version: m.grv.api_version.clone(), kind: m.grv.kind.clone() },
                    name: m.name.clone(),
                    namespace: match &m.namespace {
                        Some(ns) => Some(ns.clone()),
                        None => None,
                    },
                },
            ),
        }
    }

    /// Whether two keys denote the same identity.
    pub fn key_eq(&self, other: &DocKey) -> (r: bool)
        ensures
            r == (self@ == other@),
    {
        match (self, other) {
            (DocKey::Position(a), DocKey::Position(b)) => a == b,
            (DocKey::K8S(m1), DocKey::K8S(m2)) => {
                let ns_eq = match (&m1.namespace, &m2.namespace) {
                    (Some(a), Some(b)) => a.eq(b),
                    (None, None) => true,
                    _ => false,
                };
                let r = m1.grv.api_version.eq(&m2.grv.api_version) && m1.grv.kind.eq(&m2.grv.kind)
                    && m1.name.eq(&m2.name) && ns_eq;
                proof {
                    if r {
                        assert(m1@ =~= m2@);
                    }
                }
                r
            },
            _ => false,
        }
    }
}

/// One correlated document.
pub struct DocEntry {
    pub key: DocKey,
    pub doc: Node,
}

/// The documents of one input, each with its correlation key, in input
/// order, keys unique.
pub struct Documents(pub Vec<DocEntry>);

/// The image of a document set.
pub open spec fn docs_view(s: Seq<DocEntry>) -> Seq<(DocKeyV, NodeV)> {
    s.map_values(|e: DocEntry| (e.key@, crate::node::view_node(e.doc)))
}

impl View for Documents {
    type V = Seq<(DocKeyV, NodeV)>;

    open spec fn view(&self) -> Seq<(DocKeyV, NodeV)> {
        docs_view(self.0@)
    }
}

/// The document stored under a key: the first entry bearing it, if any.
pub open spec fn dk_lookup(s: Seq<(DocKeyV, NodeV)>, k: DocKeyV) -> Option<NodeV>
    decreases s.len(),
{
    if s.len() == 0 {
        None
    } else if s[0].0 == k {
        Some(s[0].1)
    } else {
        dk_lookup(s.drop_first(), k)
    }
}

pub open spec fn dk_has(s: Seq<(DocKeyV, NodeV)>, k: DocKeyV) -> bool {
    exists|i: int| 0 <= i < s.len() && (#[trigger] s[i]).0 == k
}

/// Insert-or-replace under a key, keeping the first bearer's position.
pub open spec fn dk_insert(s: Seq<(DocKeyV, NodeV)>, k: DocKeyV, v: NodeV) -> Seq<
    (DocKeyV, NodeV),
>
    decreases s.len(),
{
    if s.len() == 0 {
        seq![(k, v)]
    } else if s[0].0 == k {
        seq![(k, v)] + s.drop_first()
    } else {
        seq![s[0]] + dk_insert(s.drop_first(), k, v)
    }
}

proof fn lemma_dk_insert_found(s: Seq<(DocKeyV, NodeV)>, i: int, k: DocKeyV, v: NodeV)
    requires
        0 <= i < s.len(),
        s[i].0 == k,
        forall|j: int| 0 <= j < i ==> (#[trigger] s[j]).0 != k,
    ensures
        dk_insert(s, k, v) == s.update(i, (k, v)),
    decreases i,
{
    if i == 0 {
        assert(seq![(k, v)] + s.drop_first() =~= s.update(0, (k, v)));
    } else {
        assert(s[0].0 != k);
        assert(s.drop_first()[i - 1] == s[i]);
        assert(forall|j: int| 0 <= j < i - 1 ==> #[trigger] s.drop_first()[j] == s[j + 1]);
        lemma_dk_insert_found(s.drop_first(), i - 1, k, v);
        assert(seq![s[0]] + s.drop_first().update(i - 1, (k, v)) =~= s.update(i, (k, v)));
    }
}

proof fn lemma_dk_insert_absent(s: Seq<(DocKeyV, NodeV)>, k: DocKeyV, v: NodeV)
    requires
        forall|j: int| 0 <= j < s.len() ==> (#[trigger] s[j]).0 != k,
    ensures
        dk_insert(s, k, v) == s.push((k, v)),
    decreases s.len(),
{
    if s.len() == 0 {
        assert(dk_insert(s, k, v) =~= s.push((k, v)));
    } else {
        assert(forall|j: int| 0 <= j < s.len() - 1 ==> #[trigger] s.drop_first()[j] == s[j + 1]);
        lemma_dk_insert_absent(s.drop_first(), k, v);
        assert(seq![s[0]] + s.drop_first().push((k, v)) =~= s.push((k, v)));
    }
}

impl Documents {
    /// An empty document set.
    pub fn new() -> (r: Documents)
        ensures
            r@ == Seq::<(DocKeyV, NodeV)>::empty(),
    {
        let r = Documents(Vec::new());
        proof {
            assert(r@ =~= Seq::<(DocKeyV, NodeV)>::empty());
        }
        r
    }

    /// The position of the first entry bearing a key, if any.
    pub fn find(&self, key: &DocKey) -> (r: Option<usize>)
        ensures
            (match r {
                Some(i) => i < self@.len() && self@[i as int].0 == key@ && forall|j: int|
                    0 <= j < i ==> (#[trigger] self@[j]).0 != key@,
                None => forall|j: int| 0 <= j < self@.len() ==> (#[trigger] self@[j]).0 != key@,
            }),
    {
        let mut i: usize = 0;
        while i < self.0.len()
            invariant
                i <= self.0@.len(),
                self@.len() == self.0@.len(),
                forall|j: int| 0 <= j < i ==> (#[trigger] self@[j]).0 != key@,
            decreases self.0@.len() - i,
        {
            if self.0[i].key.key_eq(key) {
                proof {
                    assert(self@[i as int].0 == self.0@[i as int].key@);
                }
                return Some(i);
            }
            proof {
                assert(self@[i as int].0 == self.0@[i as int].key@);
            }
            i = i + 1;
        }
        None
    }

    /// Inserts a document under a key: an existing bearer keeps its
    /// position and has its document replaced; a fresh key goes at the
    /// end.
    pub fn insert(&mut self, key: DocKey, doc: Node)
        ensures
            final(self)@ == dk_insert(old(self)@, key@, doc@),
    {
        let ghost s0 = self@;
        match self.find(&key) {
            Some(i) => {
                let old_e = self.0.remove(i);
                self.0.insert(i, DocEntry { key: old_e.key, doc });
                proof {
                    lemma_dk_insert_found(s0, i as int, key@, doc@);
                    assert(self@ =~= s0.update(i as int, (key@, doc@)));
                }
            },
            None => {
                self.0.push(DocEntry { key, doc });
                proof {
                    lemma_dk_insert_absent(s0, key@, doc@);
                    assert(self@ =~= s0.push((key@, doc@)));
                }
            },
        }
    }

    /// How many documents the set holds.
    pub fn len(&self) -> (r: usize)
        ensures
            r == self@.len(),
    {
        self.0.len()
    }
}

/// A rename directive: when a document's version, kind and name match,
/// the named target field is rewritten to the new text.
pub struct RenameEntry {
    pub api_version: String,
    pub kind: String,
    pub field: String,
    pub from: String,
    pub to: String,
}

/// Mathematical image of a rename directive.
#[verifier::ext_equal]
pub struct RenameV {
    pub api_version: Seq<char>,
    pub kind: Seq<char>,
    pub field: Seq<char>,
    pub from: Seq<char>,
    pub to: Seq<char>,
}

impl View for RenameEntry {
    type V = RenameV;

    open spec fn view(&self) -> RenameV {
        RenameV {
            api_version: self.api_version@,
            kind: self.kind@,
            field: self.field@,
            from: self.from@,
            to: self.to@,
        }
    }
}

/// The one target field a rename directive may name.
pub open spec fn rename_ok(r: RenameV) -> bool {
    r.field == "name"@
}

pub open spec fn renames_ok(rs: Seq<RenameV>) -> bool {
    forall|i: int| 0 <= i < rs.len() ==> rename_ok(#[trigger] rs[i])
}

/// The image of a vector of rename directives.
pub open spec fn renames_view(rs: Seq<RenameEntry>) -> Seq<RenameV> {
    rs.map_values(|r: RenameEntry| r@)
}

/// Checks every rename directive names a supported target field; the
/// first offender is the fatal error.
pub fn validate_renames(renames: &Vec<RenameEntry>) -> (r: Result<(), DiffError>)
    ensures
        r is Ok <==> renames_ok(renames_view(renames@)),
        r is Err ==> exists|i: int|
            0 <= i < renames@.len() && !rename_ok(#[trigger] renames_view(renames@)[i])
                && r->Err_0@ == ErrorV::UnknownRenameField(renames_view(renames@)[i].field),
{
    let name_text: String = "name".to_owned();
    let mut i: usize = 0;
    while i < renames.len()
        invariant
            i <= renames@.len(),
            name_text@ == "name"@,
            forall|j: int| 0 <= j < i ==> rename_ok(#[trigger] renames_view(renames@)[j]),
        decreases renames@.len() - i,
    {
        if !renames[i].field.eq(&name_text) {
            proof {
                assert(renames_view(renames@)[i as int] == renames@[i as int]@);
            }
            return Err(DiffError::UnknownRenameField(renames[i].field.clone()));
        }
        proof {
            assert(renames_view(renames@)[i as int] == renames@[i as int]@);
        }
        i = i + 1;
    }
    Ok(())
}

/// The child of a mapping under a key, if the node is a mapping bearing
/// it.
pub open spec fn spec_child(n: NodeV, key: Seq<char>) -> Option<NodeV> {
    if n is Hash {
        hash_lookup(n->Hash_0, key)
    } else {
        None
    }
}

/// The text of a string child, if the node is a mapping whose child under
/// the key is a string.
pub open spec fn spec_str_child(n: NodeV, key: Seq<char>) -> Option<Seq<char>> {
    match spec_child(n, key) {
        Some(NodeV::Str(s)) => Some(s),
        _ => None,
    }
}

/// A string field of the document's `metadata` mapping.
pub open spec fn spec_meta_str(n: NodeV, key: Seq<char>) -> Option<Seq<char>> {
    match spec_child(n, "metadata"@) {
        Some(md) => spec_str_child(md, key),
        None => None,
    }
}

/// The identity fields read from a document; each required field that is
/// missing or not a string is a fatal error naming the field.
pub open spec fn spec_extract(n: NodeV) -> Result<K8SMetaV, ErrorV> {
    match spec_str_child(n, "apiVersion"@) {
        None => Err(ErrorV::KeyNotFound("apiVersion"@)),
        Some(av) => match spec_str_child(n, "kind"@) {
            None => Err(ErrorV::KeyNotFound("kind"@)),
            Some(kd) => match spec_meta_str(n, "name"@) {
                None => Err(ErrorV::KeyNotFound("name"@)),
                Some(nm) => Ok(
                    K8SMetaV {
                        grv: GVKV { api_version: av, kind: kd },
                        name: nm,
                        namespace: spec_meta_str(n, "namespace"@),
                    },
                ),
            },
        },
    }
}

/// The first rename directive matching an identity, if any.
pub open spec fn find_rename(rs: Seq<RenameV>, m: K8SMetaV) -> Option<RenameV>
    decreases rs.len(),
{
    if rs.len() == 0 {
        None
    } else if rs[0].api_version == m.grv.api_version && rs[0].kind == m.grv.kind && rs[0].from
        == m.name {
        Some(rs[0])
    } else {
        find_rename(rs.drop_first(), m)
    }
}

/// The path of the name field inside a document.
pub open spec fn name_path() -> Seq<ItemKeyV> {
    seq![ItemKeyV::Key("metadata"@), ItemKeyV::Key("name"@)]
}

/// A matching rename rewrites the identity's name and patches the new
/// name into the document's own metadata.
pub open spec fn spec_apply_rename(rs: Seq<RenameV>, m: K8SMetaV, d: NodeV) -> Result<
    (K8SMetaV, NodeV),
    ErrorV,
> {
    match find_rename(rs, m) {
        None => Ok((m, d)),
        Some(r) => {
            let m2 = K8SMetaV { name: r.to, ..m };
            match spec_set(d, name_path(), NodeV::Str(r.to)) {
                Ok(d2) => Ok((m2, d2)),
                Err(e) => Err(set_err_view(e, name_path())),
            }
        },
    }
}

/// The identity-mode indexing of documents `i` onward into `acc`: null
/// documents and documents the filter rejects are skipped; the rest are
/// keyed by their (possibly renamed) identity, a repeated identity
/// replacing the document already held.
pub open spec fn spec_index_k8s(
    docs: Seq<NodeV>,
    s: Option<StrategyV>,
    rs: Seq<RenameV>,
    i: int,
    acc: Seq<(DocKeyV, NodeV)>,
) -> Result<Seq<(DocKeyV, NodeV)>, (int, ErrorV)>
    decreases docs.len() - i,
{
    if i < 0 || i >= docs.len() {
        Ok(acc)
    } else {
        let d = docs[i];
        if d is Null {
            spec_index_k8s(docs, s, rs, i + 1, acc)
        } else if !(match s {
            None => true,
            Some(sv) => spec_accept_document(sv, d),
        }) {
            spec_index_k8s(docs, s, rs, i + 1, acc)
        } else {
            match spec_extract(d) {
                Err(e) => Err((i, e)),
                Ok(m) => match spec_apply_rename(rs, m, d) {
                    Err(e) => Err((i, e)),
                    Ok((m2, d2)) => spec_index_k8s(
                        docs,
                        s,
                        rs,
                        i + 1,
                        dk_insert(acc, DocKeyV::K8S(m2), d2),
                    ),
                },
            }
        }
    }
}

/// The positional indexing of documents: each keyed by its position.
pub open spec fn spec_index_positional(docs: Seq<NodeV>) -> Seq<(DocKeyV, NodeV)> {
    Seq::new(docs.len(), |i: int| (DocKeyV::Position(i), docs[i]))
}

pub open spec fn opt_strategy_view(s: Option<Strategy>) -> Option<StrategyV> {
    match s {
        Some(x) => Some(x@),
        None => None,
    }
}

/// The child of a mapping node under a key.
fn child_of<'a>(n: &'a Node, key: &String) -> (r: Option<&'a Node>)
    ensures
        (match r {
            Some(c) => spec_child(n@, key@) == Some(c@),
            None => spec_child(n@, key@) is None,
        }),
{
    match n {
        Node::Hash(es) => {
            match hash_find(es, key) {
                Some(i) => {
                    proof {
                        lemma_first_key_lookup(es@, i as int, key@);
                        lemma_view_entries_index(es@, i as int);
                    }
                    Some(&es[i].value)
                },
                None => {
                    proof {
                        lemma_no_key_lookup(es@, key@);
                    }
                    None
                },
            }
        },
        _ => None,
    }
}

/// The text under a key of a mapping node, when it is a string.
fn str_child<'a>(n: &'a Node, key: &String) -> (r: Option<&'a String>)
    ensures
        (match r {
            Some(s) => spec_str_child(n@, key@) == Some(s@),
            None => spec_str_child(n@, key@) is None,
        }),
{
    match child_of(n, key) {
        Some(c) => c.as_str(),
        None => None,
    }
}

/// A string field of the document's metadata mapping.
fn meta_str<'a>(n: &'a Node, meta_key: &String, key: &String) -> (r: Option<&'a String>)
    requires
        meta_key@ == "metadata"@,
    ensures
        (match r {
            Some(s) => spec_meta_str(n@, key@) == Some(s@),
            None => spec_meta_str(n@, key@) is None,
        }),
{
    match child_of(n, meta_key) {
        Some(md) => str_child(md, key),
        None => None,
    }
}

/// The first rename directive matching an identity.
fn find_rename_exec<'a>(renames: &'a Vec<RenameEntry>, m: &K8SMeta) -> (r: Option<
    &'a RenameEntry,
>)
    ensures
        (match r {
            Some(e) => find_rename(renames_view(renames@), m@) == Some(e@),
            None => find_rename(renames_view(renames@), m@) is None,
        }),
{
    let ghost rv = renames_view(renames@);
    let mut j: usize = 0;
    proof {
        assert(rv.skip(0) =~= rv);
    }
    while j < renames.len()
        invariant
            j <= renames@.len(),
            rv == renames_view(renames@),
            rv.len() == renames@.len(),
            find_rename(rv, m@) == find_rename(rv.skip(j as int), m@),
        decreases renames@.len() - j,
    {
        let ghost rest = rv.skip(j as int);
        proof {
            assert(rest[0] == rv[j as int]);
            assert(rv[j as int] == renames@[j as int]@);
            assert(rest.drop_first() =~= rv.skip(j as int + 1));
        }
        let e = &renames[j];
        if e.api_version.eq(&m.grv.api_version) && e.kind.eq(&m.grv.kind) && e.from.eq(&m.name) {
            return Some(e);
        }
        j = j + 1;
    }
    proof {
        assert(rv.skip(rv.len() as int) =~= Seq::<RenameV>::empty());
    }
    None
}

/// Correlates the top-level documents of one input: by position, or by
/// the identity read from each document, after the document filter and
/// the (already validated) rename table have been applied.
pub fn index(
    docs: Vec<Node>,
    k8s: bool,
    strategy: &Option<Strategy>,
    renames: &Vec<RenameEntry>,
) -> (r: Result<Documents, (usize, DiffError)>)
    requires
        renames_ok(renames_view(renames@)),
    ensures
        !k8s ==> r is Ok && r->Ok_0@ == spec_index_positional(crate::node::view_nodes(docs@)),
        k8s ==> (match spec_index_k8s(
            crate::node::view_nodes(docs@),
            opt_strategy_view(*strategy),
            renames_view(renames@),
            0,
            Seq::empty(),
        ) {
            Ok(s) => r is Ok && r->Ok_0@ == s,
            Err((i, e)) => r is Err && r->Err_0.0 as int == i && r->Err_0.1@ == e,
        }),
{
    let ghost dv = crate::node::view_nodes(docs@);
    let ghost sv = opt_strategy_view(*strategy);
    let ghost rv = renames_view(renames@);
    proof {
        lemma_view_nodes_len(docs@);
    }
    let mut result = Documents::new();
    if !k8s {
        let mut i: usize = 0;
        while i < docs.len()
            invariant
                i <= docs@.len(),
                dv == crate::node::view_nodes(docs@),
                dv.len() == docs@.len(),
                result@.len() == i,
                forall|j: int|
                    0 <= j < i ==> #[trigger] result@[j] == (DocKeyV::Position(j), dv[j]),
            decreases docs@.len() - i,
        {
            let ghost before = result@;
            proof {
                lemma_view_nodes_index(docs@, i as int);
            }
            let d = node_dup(&docs[i]);
            result.0.push(DocEntry { key: DocKey::Position(i), doc: d });
            proof {
                assert(result@.len() == i + 1);
                assert(result@[i as int] == (DocKeyV::Position(i as int), dv[i as int]));
                assert(forall|j: int| 0 <= j < i ==> #[trigger] result@[j] == before[j]);
            }
            i = i + 1;
        }
        proof {
            assert(result@ =~= spec_index_positional(dv));
        }
        return Ok(result);
    }
    let api_key: String = "apiVersion".to_owned();
    let kind_key: String = "kind".to_owned();
    let meta_key: String = "metadata".to_owned();
    let name_key: String = "name".to_owned();
    let ns_key: String = "namespace".to_owned();
    let name_keypath = KeyPath(
        vec![ItemKey::Key("metadata".to_owned()), ItemKey::Key("name".to_owned())],
    );
    proof {
        assert(name_keypath@ =~= name_path());
    }
    let mut i: usize = 0;
    while i < docs.len()
        invariant
            k8s,
            i <= docs@.len(),
            dv == crate::node::view_nodes(docs@),
            sv == opt_strategy_view(*strategy),
            rv == renames_view(renames@),
            dv.len() == docs@.len(),
            api_key@ == "apiVersion"@,
            kind_key@ == "kind"@,
            meta_key@ == "metadata"@,
            name_key@ == "name"@,
            ns_key@ == "namespace"@,
            name_keypath@ == name_path(),
            spec_index_k8s(dv, sv, rv, 0, Seq::empty()) == spec_index_k8s(
                dv,
                sv,
                rv,
                i as int,
                result@,
            ),
        decreases docs@.len() - i,
    {
        proof {
            lemma_view_nodes_index(docs@, i as int);
        }
        let d = &docs[i];
        let ghost dvi = dv[i as int];
        let skip = if d.is_null() {
            true
        } else {
            match strategy {
                None => false,
                Some(s) => !s.accept_document(d),
            }
        };
        if !skip {
            let av = match str_child(d, &api_key) {
                Some(s) => s.clone(),
                None => {
                    return Err((i, DiffError::KeyNotFound("apiVersion".to_owned())));
                },
            };
            let kd = match str_child(d, &kind_key) {
                Some(s) => s.clone(),
                None => {
                    return Err((i, DiffError::KeyNotFound("kind".to_owned())));
                },
            };
            let nm = match meta_str(d, &meta_key, &name_key) {
                Some(s) => s.clone(),
                None => {
                    return Err((i, DiffError::KeyNotFound("name".to_owned())));
                },
            };
            let ns: Option<String> = match meta_str(d, &meta_key, &ns_key) {
                Some(s) => Some(s.clone()),
                None => None,
            };
            let mut meta = K8SMeta {
                grv: GVK { api_version: av, kind: kd },
                name: nm,
                namespace: ns,
            };
            let ghost m0 = meta@;
            proof {
                assert(spec_extract(dvi) is Ok);
                assert(m0 =~= spec_extract(dvi)->Ok_0);
                assert(spec_extract(dvi) == Ok::<K8SMetaV, ErrorV>(m0));
            }
            let mut doc2 = node_dup(d);
            match find_rename_exec(renames, &meta) {
                None => {
                    proof {
                        assert(spec_apply_rename(rv, m0, dvi) == Ok::<(K8SMetaV, NodeV), ErrorV>(
                            (m0, dvi),
                        ));
                    }
                },
                Some(e) => {
                    let newname = e.to.clone();
                    meta.name = e.to.clone();
                    proof {
                        assert(meta@ =~= (K8SMetaV { name: e@.to, ..m0 }));
                    }
                    match doc2.set_at_path(&name_keypath, Node::Str(newname)) {
                        Ok(()) => (),
                        Err(er) => {
                            return Err((i, er));
                        },
                    }
                },
            }
            result.insert(DocKey::K8S(meta), doc2);
        }
        i = i + 1;
    }
    proof {
        assert(spec_index_k8s(dv, sv, rv, dv.len() as int, result@) == Ok::<
            Seq<(DocKeyV, NodeV)>,
            (int, ErrorV),
        >(result@));
    }
    Ok(result)
}

} // verus!
