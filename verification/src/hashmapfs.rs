use vstd::prelude::*;

use std::sync::Arc;

verus! {

use vstd::rwlock::RwLock;
use vstd::rwlock::RwLockPredicate;
use crate::afs::FNode;
use crate::afs::FSError;
use crate::afs::FSHandle;
use crate::afs::FTree;
use crate::afs::FTreeView;
use crate::afs::lemma_traverse_append;
use crate::afs::lemma_traverse_wf;
use crate::afs::tree_view;
use crate::utils::canon;
use crate::utils::cannonicalise;

/// The invariant every session maintains on the shared tree: whoever
/// releases the store's lock must leave a well-formed tree behind.
pub struct TreeWf;

impl RwLockPredicate<FTree> for TreeWf {
    open spec fn inv(self, v: FTree) -> bool {
        v@.wf()
    }
}

/// Relies on `Arc::clone`: another handle to the same allocation, equal to
/// the one cloned.
#[verifier::external_body]
fn arc_clone(a: &Arc<RwLock<FTree, TreeWf>>) -> (r: Arc<RwLock<FTree, TreeWf>>)
    ensures
        r == *a,
{
    Arc::clone(a)
}

/// The lock-guarded tree that every session of one store shares.
pub struct SharedTree {
    inner: Arc<RwLock<FTree, TreeWf>>,
}

impl Clone for SharedTree {
    fn clone(&self) -> (r: SharedTree)
        ensures
            r == *self,
    {
        SharedTree { inner: arc_clone(&self.inner) }
    }
}

impl SharedTree {
    /// A consistent copy of the whole live tree, for snapshotting.
    pub fn read_copy(&self) -> (r: FTree)
        ensures
            r@.wf(),
    {
        let read = self.inner.acquire_read();
        let root = read.borrow();
        let copy = root.clone();
        proof {
            assert(tree_view(*root).wf());
        }
        read.release_read();
        copy
    }
}

/// Wrap a tree into the shared, lock-guarded state that all sessions of one
/// store hold on to.
pub fn new_shared_tree(t: FTree) -> (r: SharedTree)
    requires
        t@.wf(),
{
    SharedTree { inner: Arc::new(RwLock::new(t, Ghost(TreeWf))) }
}

/// A session bound to a shared in-memory tree: the lock-guarded tree plus
/// this session's own head path.
pub struct InMemoryFSHandle {
    pub inner: SharedTree,
    current_head: Vec<String>,
}

impl From<SharedTree> for InMemoryFSHandle {
    /// A fresh session on an existing store, positioned at the root.
    fn from(value: SharedTree) -> (r: InMemoryFSHandle) {
        InMemoryFSHandle::from_shared(value)
    }
}

impl vstd::std_specs::convert::FromSpecImpl<SharedTree> for InMemoryFSHandle {
    open spec fn obeys_from_spec() -> bool {
        false
    }

    open spec fn from_spec(t: SharedTree) -> InMemoryFSHandle {
        arbitrary()
    }
}

impl InMemoryFSHandle {
    /// A fresh session on an existing store, positioned at the root.
    pub fn from_shared(inner: SharedTree) -> (r: InMemoryFSHandle)
        ensures
            r.head_view() == Seq::<Seq<char>>::empty(),
    {
        let h = InMemoryFSHandle { inner, current_head: Vec::new() };
        proof {
            assert(h.current_head.deep_view() =~= Seq::<Seq<char>>::empty());
        }
        h
    }

    /// A copy of this session's head path.
    pub fn head(&self) -> (r: Vec<String>)
        ensures
            r.deep_view() == self.head_view(),
    {
        let mut r: Vec<String> = Vec::new();
        let mut i: usize = 0;
        while i < self.current_head.len()
            invariant
                i <= self.current_head@.len(),
                r@.len() == i,
                forall|k: int| 0 <= k < i ==> (#[trigger] r@[k])@ == self.current_head@[k]@,
            decreases self.current_head@.len() - i,
        {
            r.push(self.current_head[i].clone());
            i += 1;
        }
        proof {
            assert(r.deep_view() =~= self.current_head.deep_view());
        }
        r
    }
}

impl FSHandle for InMemoryFSHandle {
    closed spec fn head_view(&self) -> Seq<Seq<char>> {
        self.current_head.deep_view()
    }

    fn get(&self) -> (r: Result<FNode, FSError>) {
        let read = self.inner.inner.acquire_read();
        let root = read.borrow();
        let hd = self.current_head.as_slice();
        proof {
            assert(hd.deep_view() =~= self.current_head.deep_view());
        }
        let r = match root.traverse_to_path(hd) {
            Some(sub) => Ok(sub.inner.clone()),
            None => Err(FSError::PathNotFound),
        };
        proof {
            assert(tree_view(*root).wf());
        }
        read.release_read();
        r
    }

    fn list_children(&self) -> (r: Result<Vec<FNode>, FSError>) {
        let read = self.inner.inner.acquire_read();
        let root = read.borrow();
        let hd = self.current_head.as_slice();
        proof {
            assert(hd.deep_view() =~= self.current_head.deep_view());
        }
        let r = match root.traverse_to_path(hd) {
            Some(sub) => {
                let mut out: Vec<FNode> = Vec::new();
                let mut i: usize = 0;
                while i < sub.children.len()
                    invariant
                        i <= sub.children@.len(),
                        out@.len() == i,
                        forall|k: int|
                            0 <= k < i ==> (#[trigger] out@[k])@ == tree_view(
                                sub.children@[k],
                            ).node,
                    decreases sub.children@.len() - i,
                {
                    proof {
                        assert(tree_view(*sub).children[i as int] == tree_view(
                            sub.children@[i as int],
                        ));
                    }
                    out.push(sub.children[i].inner.clone());
                    i += 1;
                }
                proof {
                    assert(out.deep_view() =~= tree_view(*sub).children.map_values(
                        |c: FTreeView| c.node,
                    ));
                }
                Ok(out)
            },
            None => Err(FSError::PathNotFound),
        };
        proof {
            assert(tree_view(*root).wf());
        }
        read.release_read();
        r
    }

    fn tree(&self) -> (r: Result<FTree, FSError>) {
        let read = self.inner.inner.acquire_read();
        let root = read.borrow();
        let hd = self.current_head.as_slice();
        proof {
            assert(hd.deep_view() =~= self.current_head.deep_view());
        }
        let r = match root.traverse_to_path(hd) {
            Some(sub) => {
                proof {
                    assert(tree_view(*root).wf());
                    lemma_traverse_wf(tree_view(*root), self.head_view());
                }
                Ok(sub.clone())
            },
            None => Err(FSError::PathNotFound),
        };
        proof {
            assert(tree_view(*root).wf());
        }
        read.release_read();
        r
    }

    fn change_head(&mut self, path: &[String]) -> (r: Result<(), FSError>) {
        let mut cn = cannonicalise(path);
        let ghost cnv = canon(path.deep_view());
        let read = self.inner.inner.acquire_read();
        let root = read.borrow();
        let ghost tv = tree_view(*root);
        let hd = self.current_head.as_slice();
        proof {
            assert(hd.deep_view() =~= self.current_head.deep_view());
            assert(tv.wf());
        }
        let mut found = false;
        match root.traverse_to_path(hd) {
            None => {},
            Some(cur) => {
                let cs = cn.as_slice();
                proof {
                    assert(cs.deep_view() =~= cn.deep_view());
                    lemma_traverse_append(tv, self.head_view(), cnv);
                }
                match cur.traverse_to_path(cs) {
                    None => {},
                    Some(_) => {
                        found = true;
                    },
                }
            },
        }
        read.release_read();
        if found {
            self.current_head.append(&mut cn);
            proof {
                assert(self.current_head.deep_view() =~= old(self).head_view() + cnv);
            }
            Ok(())
        } else {
            Err(FSError::PathNotFound)
        }
    }

    fn create_entry(&mut self, entry: FNode) -> (r: Result<FTree, FSError>) {
        let (mut tree, wh) = self.inner.inner.acquire_write();
        let hd = self.current_head.as_slice();
        proof {
            assert(hd.deep_view() =~= self.current_head.deep_view());
            assert(tree_view(tree).wf());
        }
        let r = tree.create_at(hd, entry);
        wh.release_write(tree);
        r
    }

    fn delete_entry(&mut self) -> (r: Result<FTree, FSError>) {
        let (mut tree, wh) = self.inner.inner.acquire_write();
        let ghost t0 = tree_view(tree);
        let hd = self.current_head.as_slice();
        proof {
            assert(hd.deep_view() =~= self.current_head.deep_view());
            assert(t0.wf());
        }
        let r = tree.delete_at(hd);
        proof {
            if r is Ok {
                lemma_traverse_wf(t0, self.head_view());
            }
        }
        wh.release_write(tree);
        r
    }
}

} // verus!
