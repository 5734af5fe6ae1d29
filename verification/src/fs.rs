//! An in-memory picture of the filesystem paths the store acts on: each
//! path carries either a file's bytes or a directory's flattened tree.

use vstd::prelude::*;

verus! {

use crate::codec::{TreeFile, tree_view, records_wf};
use crate::text::{bytes_eq, lex_le, clone_of};

/// What one path holds.
pub enum FsNode {
    File(Vec<u8>),
    Tree(Vec<TreeFile>),
}

/// The view of a node: a directory flag, the file bytes, and the tree
/// records (each unused part empty).
pub open spec fn node_view(n: &FsNode) -> (bool, Seq<u8>, Seq<(Seq<u8>, Seq<u8>)>) {
    match n {
        FsNode::File(d) => (false, d@, Seq::<(Seq<u8>, Seq<u8>)>::empty()),
        FsNode::Tree(t) => (true, Seq::<u8>::empty(), tree_view(t@)),
    }
}

/// One path and its node.
pub struct FsEntry {
    pub path: Vec<u8>,
    pub node: FsNode,
}

/// The paths known to exist, in no particular order; an absent path is a
/// missing one.
pub struct Fs {
    pub entries: Vec<FsEntry>,
}

/// The views of an entry list.
pub open spec fn fs_view(es: Seq<FsEntry>) -> Seq<
    (Seq<u8>, (bool, Seq<u8>, Seq<(Seq<u8>, Seq<u8>)>)),
> {
    Seq::new(es.len(), |i: int| (es[i].path@, node_view(&es[i].node)))
}

/// The first index carrying `path`, or a negative value.
pub open spec fn fs_find(
    ev: Seq<(Seq<u8>, (bool, Seq<u8>, Seq<(Seq<u8>, Seq<u8>)>))>,
    path: Seq<u8>,
) -> int
    decreases ev.len(),
{
    if ev.len() == 0 {
        -1
    } else if ev.first().0 == path {
        0
    } else {
        let r = fs_find(ev.drop_first(), path);
        if r < 0 {
            -1
        } else {
            r + 1
        }
    }
}

/// What a path holds, if it exists.
pub open spec fn fs_lookup(
    ev: Seq<(Seq<u8>, (bool, Seq<u8>, Seq<(Seq<u8>, Seq<u8>)>))>,
    path: Seq<u8>,
) -> Option<(bool, Seq<u8>, Seq<(Seq<u8>, Seq<u8>)>)> {
    let i = fs_find(ev, path);
    if i >= 0 {
        Some(ev[i].1)
    } else {
        None
    }
}

/// The entry list after `path` is bound to `n`.
pub open spec fn spec_fs_set(
    ev: Seq<(Seq<u8>, (bool, Seq<u8>, Seq<(Seq<u8>, Seq<u8>)>))>,
    path: Seq<u8>,
    n: (bool, Seq<u8>, Seq<(Seq<u8>, Seq<u8>)>),
) -> Seq<(Seq<u8>, (bool, Seq<u8>, Seq<(Seq<u8>, Seq<u8>)>))> {
    let i = fs_find(ev, path);
    if i >= 0 {
        ev.update(i, (path, n))
    } else {
        ev.push((path, n))
    }
}

/// The entry list after `path` is removed.
pub open spec fn spec_fs_remove(
    ev: Seq<(Seq<u8>, (bool, Seq<u8>, Seq<(Seq<u8>, Seq<u8>)>))>,
    path: Seq<u8>,
) -> Seq<(Seq<u8>, (bool, Seq<u8>, Seq<(Seq<u8>, Seq<u8>)>))> {
    let i = fs_find(ev, path);
    if i >= 0 {
        ev.remove(i)
    } else {
        ev
    }
}

/// The found index really carries the path, and nothing before it does.
pub proof fn lemma_fs_find_ok(
    ev: Seq<(Seq<u8>, (bool, Seq<u8>, Seq<(Seq<u8>, Seq<u8>)>))>,
    path: Seq<u8>,
)
    ensures
        fs_find(ev, path) >= 0 ==> fs_find(ev, path) < ev.len() && ev[fs_find(ev, path)].0 == path,
        fs_find(ev, path) >= 0 ==> forall|j: int|
            0 <= j < fs_find(ev, path) ==> (#[trigger] ev[j]).0 != path,
        fs_find(ev, path) < 0 ==> forall|j: int| 0 <= j < ev.len() ==> (#[trigger] ev[j]).0 != path,
    decreases ev.len(),
{
    if ev.len() > 0 && ev.first().0 != path {
        lemma_fs_find_ok(ev.drop_first(), path);
        assert(forall|j: int| 1 <= j < ev.len() ==> (#[trigger] ev[j]) == ev.drop_first()[j - 1]);
    }
}

/// No path occurs twice.
pub open spec fn fs_unique(ev: Seq<(Seq<u8>, (bool, Seq<u8>, Seq<(Seq<u8>, Seq<u8>)>))>) -> bool {
    forall|i: int, j: int| 0 <= i < j < ev.len() ==> (#[trigger] ev[i]).0 != (#[trigger] ev[j]).0
}

/// A position that carries the path with a clean prefix is the found one.
pub proof fn lemma_fs_find_char(
    ev: Seq<(Seq<u8>, (bool, Seq<u8>, Seq<(Seq<u8>, Seq<u8>)>))>,
    q: Seq<u8>,
    i: int,
)
    requires
        0 <= i < ev.len(),
        ev[i].0 == q,
        forall|j: int| 0 <= j < i ==> (#[trigger] ev[j]).0 != q,
    ensures
        fs_find(ev, q) == i,
    decreases ev.len(),
{
    if i > 0 {
        assert(ev.first().0 != q);
        assert(ev.drop_first()[i - 1] == ev[i]);
        assert(forall|j: int| 0 <= j < i - 1 ==> (#[trigger] ev.drop_first()[j]).0 != q);
        lemma_fs_find_char(ev.drop_first(), q, i - 1);
    }
}

/// A list with no occurrence of the path finds nothing.
pub proof fn lemma_fs_find_none(
    ev: Seq<(Seq<u8>, (bool, Seq<u8>, Seq<(Seq<u8>, Seq<u8>)>))>,
    q: Seq<u8>,
)
    requires
        forall|j: int| 0 <= j < ev.len() ==> (#[trigger] ev[j]).0 != q,
    ensures
        fs_find(ev, q) < 0,
    decreases ev.len(),
{
    if ev.len() > 0 {
        assert(forall|j: int| 0 <= j < ev.drop_first().len() ==> (#[trigger] ev.drop_first()[j]).0
            != q);
        lemma_fs_find_none(ev.drop_first(), q);
    }
}

/// Looking up another path sees through a set or a remove, and neither
/// introduces a duplicate path.
pub proof fn lemma_fs_frame(
    ev: Seq<(Seq<u8>, (bool, Seq<u8>, Seq<(Seq<u8>, Seq<u8>)>))>,
    path: Seq<u8>,
    n: (bool, Seq<u8>, Seq<(Seq<u8>, Seq<u8>)>),
    q: Seq<u8>,
)
    requires
        fs_unique(ev),
    ensures
        fs_lookup(spec_fs_set(ev, path, n), q) == if q == path {
            Some(n)
        } else {
            fs_lookup(ev, q)
        },
        fs_lookup(spec_fs_remove(ev, path), q) == if q == path {
            None::<(bool, Seq<u8>, Seq<(Seq<u8>, Seq<u8>)>)>
        } else {
            fs_lookup(ev, q)
        },
        fs_unique(spec_fs_set(ev, path, n)),
        fs_unique(spec_fs_remove(ev, path)),
{
    lemma_fs_find_ok(ev, path);
    lemma_fs_find_ok(ev, q);
    let i = fs_find(ev, path);
    let k = fs_find(ev, q);
    if i >= 0 {
        let ev2 = ev.update(i, (path, n));
        let ev3 = ev.remove(i);
        // the set result
        if q == path {
            lemma_fs_find_char(ev2, q, i);
        } else {
            if k >= 0 {
                assert(k != i);
                assert(ev2[k] == ev[k]);
                assert(forall|j: int| 0 <= j < k ==> (#[trigger] ev2[j]).0 != q);
                lemma_fs_find_char(ev2, q, k);
            } else {
                assert(forall|j: int| 0 <= j < ev2.len() ==> (#[trigger] ev2[j]).0 != q);
                lemma_fs_find_none(ev2, q);
            }
        }
        assert(fs_unique(ev2)) by {
            assert forall|a: int, b: int| 0 <= a < b < ev2.len() implies (#[trigger] ev2[a]).0
                != (#[trigger] ev2[b]).0 by {
                assert(ev2[a].0 == if a == i {
                    path
                } else {
                    ev[a].0
                });
                assert(ev2[b].0 == if b == i {
                    path
                } else {
                    ev[b].0
                });
            }
        }
        // the remove result
        if q == path {
            assert forall|j: int| 0 <= j < ev3.len() implies (#[trigger] ev3[j]).0 != q by {
                if j < i {
                    assert(ev3[j] == ev[j]);
                } else {
                    assert(ev3[j] == ev[j + 1]);
                }
            }
            lemma_fs_find_none(ev3, q);
        } else {
            if k >= 0 {
                assert(k != i);
                let k2 = if k < i {
                    k
                } else {
                    k - 1
                };
                assert(ev3[k2] == ev[k]) by {
                    if k < i {
                        assert(ev3[k2] == ev[k2]);
                    } else {
                        assert(ev3[k2] == ev[k2 + 1]);
                    }
                }
                assert forall|j: int| 0 <= j < k2 implies (#[trigger] ev3[j]).0 != q by {
                    if j < i {
                        assert(ev3[j] == ev[j]);
                    } else {
                        assert(ev3[j] == ev[j + 1]);
                    }
                }
                lemma_fs_find_char(ev3, q, k2);
            } else {
                assert forall|j: int| 0 <= j < ev3.len() implies (#[trigger] ev3[j]).0 != q by {
                    if j < i {
                        assert(ev3[j] == ev[j]);
                    } else {
                        assert(ev3[j] == ev[j + 1]);
                    }
                }
                lemma_fs_find_none(ev3, q);
            }
        }
        assert(fs_unique(ev3)) by {
            assert forall|a: int, b: int| 0 <= a < b < ev3.len() implies (#[trigger] ev3[a]).0
                != (#[trigger] ev3[b]).0 by {
                let a0 = if a < i {
                    a
                } else {
                    a + 1
                };
                let b0 = if b < i {
                    b
                } else {
                    b + 1
                };
                assert(ev3[a].0 == ev[a0].0);
                assert(ev3[b].0 == ev[b0].0);
            }
        }
    } else {
        let ev2 = ev.push((path, n));
        // the set result
        if q == path {
            assert(ev2[ev.len() as int].0 == q);
            assert(forall|j: int| 0 <= j < ev.len() ==> (#[trigger] ev2[j]).0 != q);
            lemma_fs_find_char(ev2, q, ev.len() as int);
        } else {
            if k >= 0 {
                assert(ev2[k] == ev[k]);
                assert(forall|j: int| 0 <= j < k ==> (#[trigger] ev2[j]).0 != q);
                lemma_fs_find_char(ev2, q, k);
            } else {
                assert(forall|j: int| 0 <= j < ev2.len() ==> (#[trigger] ev2[j]).0 != q);
                lemma_fs_find_none(ev2, q);
            }
        }
        assert(fs_unique(ev2)) by {
            assert forall|a: int, b: int| 0 <= a < b < ev2.len() implies (#[trigger] ev2[a]).0
                != (#[trigger] ev2[b]).0 by {
                if b < ev.len() {
                    assert(ev2[a].0 == ev[a].0 && ev2[b].0 == ev[b].0);
                } else {
                    assert(ev2[a].0 == ev[a].0 && ev2[b].0 == path);
                }
            }
        }
        // a remove of an absent path changes nothing
        assert(spec_fs_remove(ev, path) == ev);
    }
}

/// A directory's records fit the wire format and are ordered by relative
/// path, so capture encodes every tree deterministically.
pub open spec fn tree_wf(rs: Seq<(Seq<u8>, Seq<u8>)>) -> bool {
    &&& records_wf(rs)
    &&& forall|a: int, b: int| 0 <= a < b < rs.len() ==> lex_le((#[trigger] rs[a]).0, (#[trigger] rs[b]).0)
}

/// Every tree in the picture is well formed.
pub open spec fn fs_wf(ev: Seq<(Seq<u8>, (bool, Seq<u8>, Seq<(Seq<u8>, Seq<u8>)>))>) -> bool {
    forall|i: int| 0 <= i < ev.len() ==> ((#[trigger] ev[i]).1.0 ==> tree_wf(ev[i].1.2))
}

/// Binding a well-formed node, or removing one, keeps the picture well
/// formed.
pub proof fn lemma_fs_wf_step(
    ev: Seq<(Seq<u8>, (bool, Seq<u8>, Seq<(Seq<u8>, Seq<u8>)>))>,
    path: Seq<u8>,
    n: (bool, Seq<u8>, Seq<(Seq<u8>, Seq<u8>)>),
)
    requires
        fs_wf(ev),
        n.0 ==> tree_wf(n.2),
    ensures
        fs_wf(spec_fs_set(ev, path, n)),
        fs_wf(spec_fs_remove(ev, path)),
{
    let i = fs_find(ev, path);
    lemma_fs_find_ok(ev, path);
    if i >= 0 {
        let ev2 = ev.update(i, (path, n));
        assert forall|a: int| 0 <= a < ev2.len() implies ((#[trigger] ev2[a]).1.0 ==> tree_wf(
            ev2[a].1.2,
        )) by {
            if a != i {
                assert(ev2[a] == ev[a]);
            }
        }
        let ev3 = ev.remove(i);
        assert forall|a: int| 0 <= a < ev3.len() implies ((#[trigger] ev3[a]).1.0 ==> tree_wf(
            ev3[a].1.2,
        )) by {
            if a < i {
                assert(ev3[a] == ev[a]);
            } else {
                assert(ev3[a] == ev[a + 1]);
            }
        }
    } else {
        let ev2 = ev.push((path, n));
        assert forall|a: int| 0 <= a < ev2.len() implies ((#[trigger] ev2[a]).1.0 ==> tree_wf(
            ev2[a].1.2,
        )) by {
            if a < ev.len() {
                assert(ev2[a] == ev[a]);
            }
        }
    }
}

impl Fs {
    /// An empty picture: every path missing.
    pub fn new() -> (r: Fs)
        ensures
            r.entries@.len() == 0,
            fs_wf(fs_view(r.entries@)),
            fs_unique(fs_view(r.entries@)),
    {
        let r = Fs { entries: Vec::new() };
        proof {
            assert(fs_view(r.entries@) =~= Seq::<
                (Seq<u8>, (bool, Seq<u8>, Seq<(Seq<u8>, Seq<u8>)>)),
            >::empty());
        }
        r
    }

    /// Find a path's position.
    fn find(&self, path: &[u8]) -> (r: Option<usize>)
        ensures
            match r {
                Some(i) => 0 <= i < self.entries@.len() && fs_find(fs_view(self.entries@), path@)
                    == i,
                None => fs_find(fs_view(self.entries@), path@) < 0,
            },
    {
        let ghost ev = fs_view(self.entries@);
        let mut i: usize = 0;
        proof {
            lemma_fs_find_skip_zero(ev, path@);
        }
        while i < self.entries.len()
            invariant
                i <= self.entries@.len(),
                ev == fs_view(self.entries@),
                fs_find(ev, path@) == spec_find_from(ev, path@, i as int),
                forall|j: int| 0 <= j < i ==> (#[trigger] ev[j]).0 != path@,
            decreases self.entries@.len() - i,
        {
            proof {
                assert(ev.skip(i as int).first() == ev[i as int]);
                assert(ev.skip(i as int).drop_first() =~= ev.skip(i + 1));
            }
            if bytes_eq(self.entries[i].path.as_slice(), path) {
                return Some(i);
            }
            i = i + 1;
        }
        None
    }

    /// What a path holds.
    pub fn get(&self, path: &[u8]) -> (r: Option<&FsNode>)
        ensures
            match r {
                Some(n) => fs_lookup(fs_view(self.entries@), path@) == Some(node_view(n)),
                None => fs_lookup(fs_view(self.entries@), path@) is None,
            },
    {
        match self.find(path) {
            Some(i) => {
                proof {
                    assert(fs_view(self.entries@)[i as int].1 == node_view(&self.entries@[i as int].node));
                }
                Some(&self.entries[i].node)
            },
            None => None,
        }
    }

    /// Bind a path to a node.
    pub fn set(&mut self, path: Vec<u8>, node: FsNode)
        ensures
            fs_view(final(self).entries@) == spec_fs_set(
                fs_view(old(self).entries@),
                path@,
                node_view(&node),
            ),
    {
        let ghost ev = fs_view(self.entries@);
        let ghost nv = node_view(&node);
        let ghost p = path@;
        match self.find(path.as_slice()) {
            Some(i) => {
                self.entries.remove(i);
                self.entries.insert(i, FsEntry { path, node });
                proof {
                    assert(fs_view(self.entries@) =~= ev.update(i as int, (p, nv)));
                }
            },
            None => {
                self.entries.push(FsEntry { path, node });
                proof {
                    assert(fs_view(self.entries@) =~= ev.push((p, nv)));
                }
            },
        }
    }

    /// Forget a path, leaving it missing.
    pub fn remove(&mut self, path: &[u8])
        ensures
            fs_view(final(self).entries@) == spec_fs_remove(fs_view(old(self).entries@), path@),
    {
        let ghost ev = fs_view(self.entries@);
        match self.find(path) {
            Some(i) => {
                self.entries.remove(i);
                proof {
                    assert(fs_view(self.entries@) =~= ev.remove(i as int));
                }
            },
            None => {},
        }
    }
}

/// The search result from position `i` on, in the numbering of the whole
/// list.
pub open spec fn spec_find_from(
    ev: Seq<(Seq<u8>, (bool, Seq<u8>, Seq<(Seq<u8>, Seq<u8>)>))>,
    path: Seq<u8>,
    i: int,
) -> int {
    if fs_find(ev.skip(i), path) < 0 {
        -1
    } else {
        i + fs_find(ev.skip(i), path)
    }
}

proof fn lemma_fs_find_skip_zero(
    ev: Seq<(Seq<u8>, (bool, Seq<u8>, Seq<(Seq<u8>, Seq<u8>)>))>,
    path: Seq<u8>,
)
    ensures
        fs_find(ev, path) == spec_find_from(ev, path, 0),
{
    assert(ev.skip(0) =~= ev);
}

/// Copy a tree-file list.
pub fn clone_tree(files: &Vec<TreeFile>) -> (r: Vec<TreeFile>)
    ensures
        tree_view(r@) == tree_view(files@),
        r@.len() == files@.len(),
        forall|i: int|
            0 <= i < r@.len() ==> (#[trigger] r@[i]).rel@ == files@[i].rel@ && r@[i].data@
                == files@[i].data@,
{
    let mut out: Vec<TreeFile> = Vec::new();
    let mut i: usize = 0;
    while i < files.len()
        invariant
            i <= files@.len(),
            out@.len() == i,
            forall|j: int|
                0 <= j < i ==> (#[trigger] out@[j]).rel@ == files@[j].rel@ && out@[j].data@
                    == files@[j].data@,
        decreases files@.len() - i,
    {
        out.push(
            TreeFile { rel: clone_of(&files[i].rel), data: clone_of(&files[i].data) },
        );
        i = i + 1;
    }
    proof {
        assert(tree_view(out@) =~= tree_view(files@));
    }
    out
}

} // verus!
