//! Reading and writing a tree at a path.
//!
//! A read walks the segments: a key segment needs a mapping holding the
//! key, an index segment a sequence with the index in bounds; anything
//! else fails, naming the path prefix walked so far, the failing segment
//! included.
//!
//! A write walks the same way, but a missing key on a mapping is created
//! on the way down — as an empty mapping or an empty sequence, after the
//! next segment's kind — while an index must already be in bounds. A
//! non-container met where a container is needed fails the write, naming
//! the prefix before the offending segment. A failed write leaves the
//! tree unchanged.

use vstd::prelude::*;
use crate::error::{DiffError, ErrorV};
use crate::keypath::{ItemKey, ItemKeyV, KeyPath, spec_serialize};
use crate::node::{
    MapEntry, Node, NodeV, hash_find, hash_insert, hash_lookup, lemma_first_key_lookup,
    lemma_hash_insert_absent, lemma_hash_insert_found, lemma_no_key_lookup,
    lemma_view_entries_index, lemma_view_entries_insert, lemma_view_entries_len,
    lemma_view_entries_push, lemma_view_entries_remove, lemma_view_nodes_index,
    lemma_view_nodes_insert, lemma_view_nodes_len, lemma_view_nodes_remove,
};

verus! {

/// The value a read of `p` inside `n` resolves to; a failure carries how
/// many segments were consumed, the failing one included.
pub open spec fn spec_get(n: NodeV, p: Seq<ItemKeyV>) -> Result<NodeV, int>
    decreases p.len(),
{
    if p.len() == 0 {
        Ok(n)
    } else {
        let child = match p[0] {
            ItemKeyV::Key(k) => if n is Hash {
                hash_lookup(n->Hash_0, k)
            } else {
                None
            },
            ItemKeyV::Index(i) => if n is Arr && 0 <= i < n->Arr_0.len() {
                Some(n->Arr_0[i])
            } else {
                None
            },
        };
        match child {
            None => Err(1),
            Some(c) => match spec_get(c, p.drop_first()) {
                Ok(v) => Ok(v),
                Err(j) => Err(j + 1),
            },
        }
    }
}

/// How a write fails: a non-container where one was required, or an index
/// out of bounds; `at` counts the segments before the offending one.
#[verifier::ext_equal]
pub enum SetErrV {
    WrongType { at: int },
    BadIndex { at: int, index: int },
}

pub open spec fn set_err_shift(e: SetErrV) -> SetErrV {
    match e {
        SetErrV::WrongType { at } => SetErrV::WrongType { at: at + 1 },
        SetErrV::BadIndex { at, index } => SetErrV::BadIndex { at: at + 1, index },
    }
}

/// The error value a failed write reports, over the whole path.
pub open spec fn set_err_view(e: SetErrV, p: Seq<ItemKeyV>) -> ErrorV {
    match e {
        SetErrV::WrongType { at } => ErrorV::WrongType(spec_serialize(p.take(at))),
        SetErrV::BadIndex { at, index } => ErrorV::InvalidArrayIndex(
            index,
            spec_serialize(p.take(at)),
        ),
    }
}

/// The tree after writing `v` at `p` inside `n`. An empty path writes
/// nothing. On the final segment a mapping gains or replaces the key and
/// a sequence's element is replaced; on the way down a missing key is
/// created after the next segment's kind, and an index segment must
/// already be in bounds.
pub open spec fn spec_set(n: NodeV, p: Seq<ItemKeyV>, v: NodeV) -> Result<NodeV, SetErrV>
    decreases p.len(),
{
    if p.len() == 0 {
        Ok(n)
    } else {
        match p[0] {
            ItemKeyV::Key(k) => {
                if !(n is Hash) {
                    Err(SetErrV::WrongType { at: 0 })
                } else {
                    let es = n->Hash_0;
                    if p.len() == 1 {
                        Ok(NodeV::Hash(hash_insert(es, k, v)))
                    } else {
                        let child = match hash_lookup(es, k) {
                            Some(c) => c,
                            None => if p[1] is Key {
                                NodeV::Hash(Seq::empty())
                            } else {
                                NodeV::Arr(Seq::empty())
                            },
                        };
                        match spec_set(child, p.drop_first(), v) {
                            Ok(c2) => Ok(NodeV::Hash(hash_insert(es, k, c2))),
                            Err(e) => Err(set_err_shift(e)),
                        }
                    }
                }
            },
            ItemKeyV::Index(i) => {
                if !(n is Arr) {
                    Err(SetErrV::WrongType { at: 0 })
                } else {
                    let elems = n->Arr_0;
                    if !(0 <= i < elems.len()) {
                        Err(SetErrV::BadIndex { at: 0, index: i })
                    } else if p.len() == 1 {
                        Ok(NodeV::Arr(elems.update(i, v)))
                    } else {
                        match spec_set(elems[i], p.drop_first(), v) {
                            Ok(c2) => Ok(NodeV::Arr(elems.update(i, c2))),
                            Err(e) => Err(set_err_shift(e)),
                        }
                    }
                }
            },
        }
    }
}

/// Reading and writing values inside a tree by path.
pub trait KeyPathFuncs: View<V = NodeV> + Sized {
    /// Writes `value` at `path`, creating missing intermediate mappings
    /// and sequences as described by [`spec_set`]; a failed write reports
    /// the offending prefix and leaves the tree as it was.
    fn set_at_path(&mut self, path: &KeyPath, value: Self) -> (r: Result<(), DiffError>)
        ensures
            (match r {
                Ok(()) => spec_set(old(self)@, path@, value@) == Ok::<NodeV, SetErrV>(
                    final(self)@,
                ),
                Err(e) => {
                    &&& spec_set(old(self)@, path@, value@) is Err
                    &&& final(self)@ == old(self)@
                    &&& e@ == set_err_view(spec_set(old(self)@, path@, value@)->Err_0, path@)
                },
            }),
    ;

    /// Resolves `path` to the value it addresses; a failed read reports
    /// the prefix walked, the failing segment included.
    fn get_at_path<'a>(&'a self, path: &KeyPath) -> (r: Result<&'a Self, DiffError>)
        ensures
            (match r {
                Ok(v) => spec_get(self@, path@) == Ok::<NodeV, int>(v@),
                Err(e) => {
                    &&& spec_get(self@, path@) is Err
                    &&& e@ == ErrorV::KeyNotFound(
                        spec_serialize(path@.take(spec_get(self@, path@)->Err_0)),
                    )
                },
            }),
    ;
}

impl KeyPathFuncs for Node {
    fn set_at_path(&mut self, path: &KeyPath, value: Node) -> (r: Result<(), DiffError>) {
        let mut owned = Node::Null;
        core::mem::swap(self, &mut owned);
        proof {
            assert(path@.skip(0) =~= path@);
        }
        let (done, err) = set_rec(owned, path, 0, value);
        let mut done_m = done;
        core::mem::swap(self, &mut done_m);
        match err {
            None => Ok(()),
            Some(e) => Err(e),
        }
    }

    fn get_at_path<'a>(&'a self, path: &KeyPath) -> (r: Result<&'a Node, DiffError>) {
        let mut cur: &Node = self;
        let mut i: usize = 0;
        let n = path.0.len();
        proof {
            assert(path@.skip(0) =~= path@);
        }
        while i < n
            invariant
                i <= n,
                n == path@.len(),
                path@ == crate::keypath::items_view(path.0@),
                spec_get(cur@, path@.skip(i as int)) is Ok ==> spec_get(self@, path@) == spec_get(
                    cur@,
                    path@.skip(i as int),
                ),
                spec_get(cur@, path@.skip(i as int)) is Err ==> spec_get(self@, path@) is Err
                    && spec_get(self@, path@)->Err_0 == i + spec_get(
                    cur@,
                    path@.skip(i as int),
                )->Err_0,
            decreases n - i,
        {
            let ghost rest = path@.skip(i as int);
            proof {
                assert(rest[0] == path@[i as int]);
                assert(rest.drop_first() =~= path@.skip(i as int + 1));
            }
            match &path.0[i] {
                ItemKey::Key(k) => {
                    match cur {
                        Node::Hash(es) => {
                            match hash_find(es, k) {
                                Some(idx) => {
                                    proof {
                                        lemma_first_key_lookup(es@, idx as int, k@);
                                        lemma_view_entries_index(es@, idx as int);
                                    }
                                    cur = &es[idx].value;
                                },
                                None => {
                                    proof {
                                        lemma_no_key_lookup(es@, k@);
                                        assert(spec_get(cur@, rest) == Err::<NodeV, int>(1));
                                    }
                                    return Err(
                                        DiffError::KeyNotFound(path.prefix_text(i + 1)),
                                    );
                                },
                            }
                        },
                        _ => {
                            proof {
                                assert(spec_get(cur@, rest) == Err::<NodeV, int>(1));
                            }
                            return Err(DiffError::KeyNotFound(path.prefix_text(i + 1)));
                        },
                    }
                },
                ItemKey::Index(ii) => {
                    match cur {
                        Node::Array(elems) => {
                            if *ii < elems.len() {
                                proof {
                                    lemma_view_nodes_index(elems@, *ii as int);
                                }
                                cur = &elems[*ii];
                            } else {
                                proof {
                                    lemma_view_nodes_len(elems@);
                                    assert(spec_get(cur@, rest) == Err::<NodeV, int>(1));
                                }
                                return Err(DiffError::KeyNotFound(path.prefix_text(i + 1)));
                            }
                        },
                        _ => {
                            proof {
                                assert(spec_get(cur@, rest) == Err::<NodeV, int>(1));
                            }
                            return Err(DiffError::KeyNotFound(path.prefix_text(i + 1)));
                        },
                    }
                },
            }
            i = i + 1;
        }
        proof {
            assert(path@.skip(n as int) =~= Seq::<ItemKeyV>::empty());
            assert(spec_get(cur@, path@.skip(n as int)) == Ok::<NodeV, int>(cur@));
        }
        Ok(cur)
    }
}

/// The write's recursion: consumes the tree and hands back either the
/// rewritten tree or the original together with the error.
fn set_rec(node: Node, path: &KeyPath, i: usize, value: Node) -> (r: (Node, Option<DiffError>))
    requires
        i <= path@.len(),
    ensures
        (match r.1 {
            None => spec_set(node@, path@.skip(i as int), value@) == Ok::<NodeV, SetErrV>(r.0@),
            Some(e) => {
                &&& spec_set(node@, path@.skip(i as int), value@) is Err
                &&& r.0@ == node@
                &&& ({
                    let err = spec_set(node@, path@.skip(i as int), value@)->Err_0;
                    e@ == (match err {
                        SetErrV::WrongType { at } => ErrorV::WrongType(
                            spec_serialize(path@.take(i + at)),
                        ),
                        SetErrV::BadIndex { at, index } => ErrorV::InvalidArrayIndex(
                            index,
                            spec_serialize(path@.take(i + at)),
                        ),
                    })
                })
            },
        }),
    decreases path@.len() - i,
{
    let ghost rest = path@.skip(i as int);
    if i == path.0.len() {
        proof {
            assert(rest.len() == 0);
        }
        return (node, None);
    }
    proof {
        assert(rest[0] == path@[i as int]);
        assert(rest.drop_first() =~= path@.skip(i as int + 1));
    }
    let last = i + 1 == path.0.len();
    proof {
        if last {
            assert(rest.len() == 1);
        }
    }
    match &path.0[i] {
        ItemKey::Key(k) => {
            match node {
                Node::Hash(mut es) => {
                    let ghost es0 = es@;
                    if last {
                        match hash_find(&es, k) {
                            Some(idx) => {
                                let old_e = es.remove(idx);
                                let new_e = MapEntry { key: k.clone(), value };
                                let ghost new_ev = new_e;
                                es.insert(idx, new_e);
                                proof {
                                    lemma_view_entries_remove(es0, idx as int);
                                    lemma_view_entries_insert(
                                        es0.remove(idx as int),
                                        idx as int,
                                        new_ev,
                                    );
                                    lemma_view_entries_len(es0);
                                    lemma_view_entries_index(es0, idx as int);
                                    assert forall|j: int| 0 <= j < idx as int implies (
                                    #[trigger] crate::node::view_entries(es0)[j]).0 != k@ by {
                                        lemma_view_entries_index(es0, j);
                                    }
                                    lemma_hash_insert_found(
                                        crate::node::view_entries(es0),
                                        idx as int,
                                        k@,
                                        value@,
                                    );
                                    assert(crate::node::view_entries(es@)
                                        =~= crate::node::view_entries(es0).update(
                                        idx as int,
                                        (k@, value@),
                                    ));
                                }
                                (Node::Hash(es), None)
                            },
                            None => {
                                let new_e = MapEntry { key: k.clone(), value };
                                let ghost new_ev = new_e;
                                es.push(new_e);
                                proof {
                                    lemma_view_entries_push(es0, new_ev);
                                    lemma_view_entries_len(es0);
                                    assert forall|j: int|
                                        0 <= j < crate::node::view_entries(es0).len() implies (
                                    #[trigger] crate::node::view_entries(es0)[j]).0 != k@ by {
                                        lemma_view_entries_index(es0, j);
                                    }
                                    lemma_hash_insert_absent(
                                        crate::node::view_entries(es0),
                                        k@,
                                        value@,
                                    );
                                }
                                (Node::Hash(es), None)
                            },
                        }
                    } else {
                        match hash_find(&es, k) {
                            Some(idx) => {
                                let old_e = es.remove(idx);
                                let ghost child0 = old_e.value@;
                                proof {
                                    lemma_first_key_lookup(es0, idx as int, k@);
                                }
                                let (child2, err) = set_rec(old_e.value, path, i + 1, value);
                                let keep = old_e.key;
                                let new_e = MapEntry { key: keep, value: child2 };
                                let ghost new_ev = new_e;
                                es.insert(idx, new_e);
                                proof {
                                    lemma_view_entries_remove(es0, idx as int);
                                    lemma_view_entries_insert(
                                        es0.remove(idx as int),
                                        idx as int,
                                        new_ev,
                                    );
                                    lemma_view_entries_len(es0);
                                    lemma_view_entries_index(es0, idx as int);
                                }
                                match err {
                                    None => {
                                        proof {
                                            assert forall|j: int| 0 <= j < idx as int implies (
                                            #[trigger] crate::node::view_entries(es0)[j]).0
                                                != k@ by {
                                                lemma_view_entries_index(es0, j);
                                            }
                                            lemma_hash_insert_found(
                                                crate::node::view_entries(es0),
                                                idx as int,
                                                k@,
                                                child2@,
                                            );
                                            assert(crate::node::view_entries(es@)
                                                =~= crate::node::view_entries(es0).update(
                                                idx as int,
                                                (k@, child2@),
                                            ));
                                        }
                                        (Node::Hash(es), None)
                                    },
                                    Some(e) => {
                                        proof {
                                            assert(child2@ == child0);
                                            assert(crate::node::view_entries(es@)
                                                =~= crate::node::view_entries(es0));
                                        }
                                        (Node::Hash(es), Some(e))
                                    },
                                }
                            },
                            None => {
                                proof {
                                    lemma_no_key_lookup(es0, k@);
                                }
                                let next_is_key = match &path.0[i + 1] {
                                    ItemKey::Key(_) => true,
                                    ItemKey::Index(_) => false,
                                };
                                let fresh = if next_is_key {
                                    Node::Hash(Vec::new())
                                } else {
                                    Node::Array(Vec::new())
                                };
                                proof {
                                    if next_is_key {
                                        assert(fresh@ == NodeV::Hash(
                                            crate::node::view_entries(Seq::<MapEntry>::empty()),
                                        ));
                                        assert(crate::node::view_entries(Seq::<MapEntry>::empty())
                                            =~= Seq::<(Seq<char>, NodeV)>::empty());
                                    } else {
                                        assert(fresh@ == NodeV::Arr(
                                            crate::node::view_nodes(Seq::<Node>::empty()),
                                        ));
                                        assert(crate::node::view_nodes(Seq::<Node>::empty())
                                            =~= Seq::<NodeV>::empty());
                                    }
                                    assert(rest[1] == path@[i + 1]);
                                }
                                let (child2, err) = set_rec(fresh, path, i + 1, value);
                                match err {
                                    None => {
                                        let new_e = MapEntry { key: k.clone(), value: child2 };
                                        let ghost new_ev = new_e;
                                        es.push(new_e);
                                        proof {
                                            lemma_view_entries_push(es0, new_ev);
                                            lemma_view_entries_len(es0);
                                            assert forall|j: int|
                                                0 <= j < crate::node::view_entries(
                                                    es0,
                                                ).len() implies (#[trigger] crate::node::view_entries(
                                                es0,
                                            )[j]).0 != k@ by {
                                                lemma_view_entries_index(es0, j);
                                            }
                                            lemma_hash_insert_absent(
                                                crate::node::view_entries(es0),
                                                k@,
                                                child2@,
                                            );
                                        }
                                        (Node::Hash(es), None)
                                    },
                                    Some(e) => (Node::Hash(es), Some(e)),
                                }
                            },
                        }
                    }
                },
                other => {
                    proof {
                        assert(!(other@ is Hash));
                        assert(path@.take(i as int) =~= path@.take(i + 0));
                    }
                    let e = DiffError::WrongType(path.prefix_text(i));
                    (other, Some(e))
                },
            }
        },
        ItemKey::Index(ii) => {
            match node {
                Node::Array(mut elems) => {
                    let ghost elems0 = elems@;
                    proof {
                        lemma_view_nodes_len(elems0);
                    }
                    if *ii >= elems.len() {
                        proof {
                            assert(path@.take(i as int) =~= path@.take(i + 0));
                        }
                        let e = DiffError::InvalidArrayIndex(*ii, path.prefix_text(i));
                        (Node::Array(elems), Some(e))
                    } else if last {
                        let idx = *ii;
                        let _old = elems.remove(idx);
                        elems.insert(idx, value);
                        proof {
                            lemma_view_nodes_remove(elems0, idx as int);
                            lemma_view_nodes_insert(elems0.remove(idx as int), idx as int, value);
                            assert(crate::node::view_nodes(elems@) =~= crate::node::view_nodes(
                                elems0,
                            ).update(idx as int, value@));
                        }
                        (Node::Array(elems), None)
                    } else {
                        let idx = *ii;
                        let child = elems.remove(idx);
                        let ghost child0 = child@;
                        proof {
                            lemma_view_nodes_index(elems0, idx as int);
                        }
                        let (child2, err) = set_rec(child, path, i + 1, value);
                        elems.insert(idx, child2);
                        proof {
                            lemma_view_nodes_remove(elems0, idx as int);
                            lemma_view_nodes_insert(elems0.remove(idx as int), idx as int, child2);
                        }
                        match err {
                            None => {
                                proof {
                                    assert(crate::node::view_nodes(elems@)
                                        =~= crate::node::view_nodes(elems0).update(
                                        idx as int,
                                        child2@,
                                    ));
                                }
                                (Node::Array(elems), None)
                            },
                            Some(e) => {
                                proof {
                                    assert(child2@ == child0);
                                    assert(crate::node::view_nodes(elems@)
                                        =~= crate::node::view_nodes(elems0));
                                }
                                (Node::Array(elems), Some(e))
                            },
                        }
                    }
                },
                other => {
                    proof {
                        assert(!(other@ is Arr));
                        assert(path@.take(i as int) =~= path@.take(i + 0));
                    }
                    let e = DiffError::WrongType(path.prefix_text(i));
                    (other, Some(e))
                },
            }
        },
    }
}

} // verus!
