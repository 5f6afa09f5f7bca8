use vstd::prelude::*;

verus! {

/// What an entry is: a folder, or a file holding the reference under which
/// its content is stored externally.
#[derive(Debug)]
pub enum FType {
    File(String),
    Folder,
}

/// A named entry together with its kind.
#[derive(Debug)]
pub struct FNode {
    pub name: String,
    pub f_type: FType,
}

/// A node of the virtual file tree: an entry plus its ordered children.
#[derive(Debug)]
pub struct FTree {
    pub inner: FNode,
    pub children: Vec<FTree>,
}

/// How an operation on the store fails: the path did not resolve, a logical
/// precondition was violated, or the caller is not allowed to mutate.
#[derive(Debug)]
pub enum FSError {
    PathNotFound,
    OperationFailed(String),
    Forbidden,
}

impl Clone for FSError {
    fn clone(&self) -> (r: FSError)
        ensures
            r == *self || (r matches FSError::OperationFailed(m) && *self
                matches FSError::OperationFailed(n) && m@ == n@),
    {
        match self {
            FSError::PathNotFound => FSError::PathNotFound,
            FSError::OperationFailed(m) => FSError::OperationFailed(m.clone()),
            FSError::Forbidden => FSError::Forbidden,
        }
    }
}

impl FSError {
    /// The reading a client is shown for this failure.
    pub open spec fn message_view(self) -> Seq<char> {
        match self {
            FSError::PathNotFound => "Path Not Found"@,
            FSError::OperationFailed(m) => "Operation Failed: "@ + m@,
            FSError::Forbidden => "Forbidden"@,
        }
    }

    /// Render the failure as the line a client of the store is shown.
    pub fn message(&self) -> (r: String)
        ensures
            r@ == self.message_view(),
    {
        match self {
            FSError::PathNotFound => String::from_str("Path Not Found"),
            FSError::OperationFailed(m) => String::from_str("Operation Failed: ").concat(
                m.as_str(),
            ),
            FSError::Forbidden => String::from_str("Forbidden"),
        }
    }
}

/// A session over a shared tree store.  Each operation re-resolves the
/// session's head against the live tree, so the contracts speak of some
/// well-formed tree observed while the operation held the store's lock.
pub trait FSHandle: Sized {
    /// The session's head: the path all operations resolve against.
    spec fn head_view(&self) -> Seq<Seq<char>>;

    /// A copy of the entry the head reaches.
    fn get(&self) -> (r: Result<FNode, FSError>)
        ensures
            match r {
                Ok(n) => exists|t: FTreeView|
                    #[trigger] t.wf() && (t.traverse(self.head_view()) matches Some(s) && s.node
                        == n@),
                Err(e) => e is PathNotFound && exists|t: FTreeView|
                    #[trigger] t.wf() && t.traverse(self.head_view()) is None,
            },
    ;

    /// Copies of the entries of the head's immediate children, in order;
    /// empty for a file as well as for an empty folder.
    fn list_children(&self) -> (r: Result<Vec<FNode>, FSError>)
        ensures
            match r {
                Ok(v) => exists|t: FTreeView|
                    #[trigger] t.wf() && (t.traverse(self.head_view()) matches Some(s)
                        && v.deep_view() == s.children.map_values(|c: FTreeView| c.node)),
                Err(e) => e is PathNotFound && exists|t: FTreeView|
                    #[trigger] t.wf() && t.traverse(self.head_view()) is None,
            },
    ;

    /// A deep copy of the subtree the head reaches.
    fn tree(&self) -> (r: Result<FTree, FSError>)
        ensures
            match r {
                Ok(sub) => sub@.wf() && exists|t: FTreeView|
                    #[trigger] t.wf() && t.traverse(self.head_view()) == Some(sub@),
                Err(e) => e is PathNotFound && exists|t: FTreeView|
                    #[trigger] t.wf() && t.traverse(self.head_view()) is None,
            },
    ;

    /// Canonicalize `path` and append it to the head, after checking on one
    /// observed tree that the current head still resolves and that the
    /// extended head resolves too.  On failure the head stays as it was.
    fn change_head(&mut self, path: &[String]) -> (r: Result<(), FSError>)
        ensures
            match r {
                Ok(u) => {
                    &&& final(self).head_view() == old(self).head_view() + crate::utils::canon(
                        path.deep_view(),
                    )
                    &&& exists|t: FTreeView|
                        #[trigger] t.wf() && t.traverse(old(self).head_view()) is Some
                            && t.traverse(
                            old(self).head_view() + crate::utils::canon(path.deep_view()),
                        ) is Some
                },
                Err(e) => {
                    &&& e is PathNotFound
                    &&& final(self).head_view() == old(self).head_view()
                    &&& exists|t: FTreeView|
                        #[trigger] t.wf() && (t.traverse(old(self).head_view()) is None
                            || t.traverse(
                            old(self).head_view() + crate::utils::canon(path.deep_view()),
                        ) is None)
                },
            },
    ;

    /// Append a new leaf holding `entry` under the head of one observed
    /// tree; the observed tree with the leaf appended is what the store
    /// holds when the write lock is released.
    fn create_entry(&mut self, entry: FNode) -> (r: Result<FTree, FSError>)
        ensures
            final(self).head_view() == old(self).head_view(),
            match r {
                Ok(sub) => sub@ == leaf_view(entry@) && exists|t: FTreeView|
                    #[trigger] t.wf() && t.can_create(old(self).head_view(), entry@),
                Err(e) => match e {
                    FSError::PathNotFound => exists|t: FTreeView|
                        #[trigger] t.wf() && !(t.traverse(old(self).head_view()) matches Some(d)
                            && d.node.f_type is Folder),
                    FSError::OperationFailed(m) => m@ == "Entry with name already exists"@
                        && exists|t: FTreeView|
                        #[trigger] t.wf() && (t.traverse(old(self).head_view()) matches Some(d)
                            && d.node.f_type is Folder && find_idx(d.children, entry@.name) >= 0),
                    FSError::Forbidden => false,
                },
            },
    ;

    /// Remove the entry the head reaches from its parent on one observed
    /// tree and hand the removed subtree back for external cleanup.
    fn delete_entry(&mut self) -> (r: Result<FTree, FSError>)
        ensures
            final(self).head_view() == old(self).head_view(),
            match r {
                Ok(removed) => removed@.wf() && exists|t: FTreeView|
                    #[trigger] t.wf() && t.can_delete(old(self).head_view()) && t.traverse(
                        old(self).head_view(),
                    ) == Some(removed@),
                Err(e) => match e {
                    FSError::PathNotFound => old(self).head_view().len() > 0 && exists|
                        t: FTreeView,
                    |
                        #[trigger] t.wf() && t.traverse(old(self).head_view()) is None,
                    FSError::OperationFailed(m) => old(self).head_view().len() == 0 && m@
                        == "Cannot delete root folder"@,
                    FSError::Forbidden => false,
                },
            },
    ;
}

/// Mathematical model of `FType`.
pub enum FTypeView {
    File(Seq<char>),
    Folder,
}

/// Mathematical model of `FNode`.
pub struct FNodeView {
    pub name: Seq<char>,
    pub f_type: FTypeView,
}

/// Mathematical model of `FTree`.
#[verifier::ext_equal]
pub struct FTreeView {
    pub node: FNodeView,
    pub children: Seq<FTreeView>,
}

impl View for FType {
    type V = FTypeView;

    open spec fn view(&self) -> FTypeView {
        match self {
            FType::File(r) => FTypeView::File(r@),
            FType::Folder => FTypeView::Folder,
        }
    }
}

impl View for FNode {
    type V = FNodeView;

    open spec fn view(&self) -> FNodeView {
        FNodeView { name: self.name@, f_type: self.f_type@ }
    }
}

impl DeepView for FNode {
    type V = FNodeView;

    open spec fn deep_view(&self) -> FNodeView {
        self.view()
    }
}

/// The model of a sequence of sibling subtrees.
pub open spec fn forest_view(cs: Seq<FTree>) -> Seq<FTreeView>
    decreases cs,
{
    Seq::new(
        cs.len(),
        |i: int|
            if 0 <= i < cs.len() {
                tree_view(cs[i])
            } else {
                arbitrary()
            },
    )
}

/// The model of a subtree: its entry's model together with its children's.
pub open spec fn tree_view(t: FTree) -> FTreeView
    decreases t,
{
    FTreeView { node: t.inner@, children: forest_view(t.children@) }
}

impl View for FTree {
    type V = FTreeView;

    open spec fn view(&self) -> FTreeView {
        tree_view(*self)
    }
}

impl DeepView for FTree {
    type V = FTreeView;

    open spec fn deep_view(&self) -> FTreeView {
        tree_view(*self)
    }
}

/// A subtree holding one entry and no children, as `create_entry` makes it.
pub open spec fn leaf_view(n: FNodeView) -> FTreeView {
    FTreeView { node: n, children: Seq::empty() }
}

/// Position of the first subtree in `cs` whose entry is named `name`,
/// or -1 if there is none.
pub open spec fn find_idx(cs: Seq<FTreeView>, name: Seq<char>) -> int
    decreases cs.len(),
{
    if cs.len() == 0 {
        -1
    } else if cs[0].node.name == name {
        0
    } else {
        let r = find_idx(cs.drop_first(), name);
        if r < 0 {
            -1
        } else {
            r + 1
        }
    }
}

/// `find_idx` yields -1 exactly when no subtree matches; otherwise it yields
/// the first matching position.
pub proof fn lemma_find_idx(cs: Seq<FTreeView>, name: Seq<char>)
    ensures
        ({
            let r = find_idx(cs, name);
            if r < 0 {
                forall|j: int| 0 <= j < cs.len() ==> (#[trigger] cs[j].node.name) != name
            } else {
                &&& 0 <= r < cs.len()
                &&& cs[r].node.name == name
                &&& forall|j: int| 0 <= j < r ==> (#[trigger] cs[j].node.name) != name
            }
        }),
    decreases cs.len(),
{
    if cs.len() > 0 && cs[0].node.name != name {
        lemma_find_idx(cs.drop_first(), name);
        assert forall|j: int| 1 <= j < cs.len() implies cs.drop_first()[j - 1] == cs[j] by {}
    }
}

impl FTreeView {
    /// Well-formedness: names are unique among siblings, files have no
    /// children, and every subtree is again well-formed.
    pub open spec fn wf(self) -> bool
        decreases self,
    {
        &&& (forall|i: int, j: int|
            0 <= i < j < self.children.len() ==> (#[trigger] self.children[i].node.name) != (
            #[trigger] self.children[j].node.name))
        &&& (self.node.f_type is File ==> self.children.len() == 0)
        &&& (forall|i: int|
            0 <= i < self.children.len() ==> (#[trigger] self.children[i]).wf())
    }

    /// Walk `path` one segment at a time, descending at each step into the
    /// unique child named like the segment.  Yields `None` at the first
    /// segment with no matching child, or when a node that the walk must
    /// descend through is not a folder.
    pub open spec fn traverse(self, path: Seq<Seq<char>>) -> Option<FTreeView>
        decreases path.len(),
    {
        if path.len() == 0 {
            Some(self)
        } else if !(self.node.f_type is Folder) {
            None
        } else {
            let i = find_idx(self.children, path[0]);
            if i < 0 {
                None
            } else {
                self.children[i].traverse(path.drop_first())
            }
        }
    }

    /// The tree with the subtree that `path` reaches replaced by `sub`;
    /// unchanged when `path` does not resolve.
    pub open spec fn replace_at(self, path: Seq<Seq<char>>, sub: FTreeView) -> FTreeView
        decreases path.len(),
    {
        if path.len() == 0 {
            sub
        } else if !(self.node.f_type is Folder) {
            self
        } else {
            let i = find_idx(self.children, path[0]);
            if i < 0 {
                self
            } else {
                FTreeView {
                    node: self.node,
                    children: self.children.update(
                        i,
                        self.children[i].replace_at(path.drop_first(), sub),
                    ),
                }
            }
        }
    }
}

impl FTreeView {
    /// A folder may take `n` as a new child: the head resolves to a folder
    /// none of whose children carries the name of `n`.
    pub open spec fn can_create(self, head: Seq<Seq<char>>, n: FNodeView) -> bool {
        match self.traverse(head) {
            Some(d) => d.node.f_type is Folder && find_idx(d.children, n.name) < 0,
            None => false,
        }
    }

    /// The tree after a new leaf holding `n` is appended to the folder that
    /// `head` reaches; unchanged when `head` does not resolve.
    pub open spec fn insert_at(self, head: Seq<Seq<char>>, n: FNodeView) -> FTreeView {
        match self.traverse(head) {
            Some(d) => self.replace_at(
                head,
                FTreeView { node: d.node, children: d.children.push(leaf_view(n)) },
            ),
            None => self,
        }
    }

    /// An entry may be deleted: the head names it, and it is not the root.
    pub open spec fn can_delete(self, head: Seq<Seq<char>>) -> bool {
        head.len() > 0 && self.traverse(head) is Some
    }

    /// The tree after the entry that `head` reaches is removed from its
    /// parent; unchanged when `head` does not resolve or is empty.
    pub open spec fn remove_at(self, head: Seq<Seq<char>>) -> FTreeView {
        if head.len() == 0 {
            self
        } else {
            let parent = head.drop_last();
            match self.traverse(parent) {
                Some(p) => {
                    let i = find_idx(p.children, head.last());
                    if p.node.f_type is Folder && 0 <= i {
                        self.replace_at(
                            parent,
                            FTreeView { node: p.node, children: p.children.remove(i) },
                        )
                    } else {
                        self
                    }
                },
                None => self,
            }
        }
    }
}

/// All entries of a forest, depth first.
pub open spec fn flat_forest(cs: Seq<FTreeView>) -> Seq<FNodeView>
    decreases cs,
{
    if cs.len() == 0 {
        Seq::empty()
    } else {
        cs[0].flat_nodes() + flat_forest(cs.drop_first())
    }
}

/// All content references of a forest, depth first.
pub open spec fn forest_file_refs(cs: Seq<FTreeView>) -> Seq<Seq<char>>
    decreases cs,
{
    if cs.len() == 0 {
        Seq::empty()
    } else {
        cs[0].file_refs() + forest_file_refs(cs.drop_first())
    }
}

impl FTreeView {
    /// Every entry in the subtree: the root's own entry first, then the
    /// children's, depth first.
    pub open spec fn flat_nodes(self) -> Seq<FNodeView>
        decreases self,
    {
        seq![self.node] + flat_forest(self.children)
    }

    /// The content references of every file in the subtree, in the order of
    /// [`Self::flat_nodes`].
    pub open spec fn file_refs(self) -> Seq<Seq<char>>
        decreases self,
    {
        (match self.node.f_type {
            FTypeView::File(r) => seq![r],
            FTypeView::Folder => Seq::empty(),
        }) + forest_file_refs(self.children)
    }
}

/// Flattening distributes over concatenation of forests.
pub proof fn lemma_flat_forest_concat(a: Seq<FTreeView>, b: Seq<FTreeView>)
    ensures
        flat_forest(a + b) == flat_forest(a) + flat_forest(b),
    decreases a.len(),
{
    if a.len() == 0 {
        assert(a + b =~= b);
        assert(flat_forest(a) + flat_forest(b) =~= flat_forest(b));
    } else {
        assert((a + b)[0] == a[0]);
        assert((a + b).drop_first() =~= a.drop_first() + b);
        lemma_flat_forest_concat(a.drop_first(), b);
        assert(a[0].flat_nodes() + (flat_forest(a.drop_first()) + flat_forest(b)) =~= (
        a[0].flat_nodes() + flat_forest(a.drop_first())) + flat_forest(b));
    }
}

/// Collecting references distributes over concatenation of forests.
pub proof fn lemma_forest_refs_concat(a: Seq<FTreeView>, b: Seq<FTreeView>)
    ensures
        forest_file_refs(a + b) == forest_file_refs(a) + forest_file_refs(b),
    decreases a.len(),
{
    if a.len() == 0 {
        assert(a + b =~= b);
        assert(forest_file_refs(a) + forest_file_refs(b) =~= forest_file_refs(b));
    } else {
        assert((a + b)[0] == a[0]);
        assert((a + b).drop_first() =~= a.drop_first() + b);
        lemma_forest_refs_concat(a.drop_first(), b);
        assert(a[0].file_refs() + (forest_file_refs(a.drop_first()) + forest_file_refs(b)) =~= (
        a[0].file_refs() + forest_file_refs(a.drop_first())) + forest_file_refs(b));
    }
}

/// Resolving a concatenated path walks the first part, then the second.
pub proof fn lemma_traverse_append(t: FTreeView, p: Seq<Seq<char>>, q: Seq<Seq<char>>)
    ensures
        t.traverse(p + q) == match t.traverse(p) {
            Some(s) => s.traverse(q),
            None => None,
        },
    decreases p.len(),
{
    if p.len() == 0 {
        assert(p + q =~= q);
    } else {
        assert((p + q)[0] == p[0]);
        if t.node.f_type is Folder {
            let i = find_idx(t.children, p[0]);
            if 0 <= i {
                assert((p + q).drop_first() =~= p.drop_first() + q);
                lemma_traverse_append(t.children[i], p.drop_first(), q);
            }
        }
    }
}

/// Every subtree that a path reaches inside a well-formed tree is itself
/// well-formed.
pub proof fn lemma_traverse_wf(t: FTreeView, p: Seq<Seq<char>>)
    requires
        t.wf(),
        t.traverse(p) is Some,
    ensures
        t.traverse(p)->0.wf(),
    decreases p.len(),
{
    if p.len() > 0 {
        let i = find_idx(t.children, p[0]);
        lemma_find_idx(t.children, p[0]);
        lemma_traverse_wf(t.children[i], p.drop_first());
    }
}

/// Putting back the very subtree that a path reaches leaves the tree as it
/// was.
pub proof fn lemma_replace_id(t: FTreeView, p: Seq<Seq<char>>)
    requires
        t.traverse(p) is Some,
    ensures
        t.replace_at(p, t.traverse(p)->0) == t,
    decreases p.len(),
{
    if p.len() > 0 {
        let i = find_idx(t.children, p[0]);
        lemma_find_idx(t.children, p[0]);
        lemma_replace_id(t.children[i], p.drop_first());
        assert(t.children.update(i, t.children[i]) =~= t.children);
    }
}

/// `find_idx` looks only at the names: forests with equally named roots
/// agree on it.
pub proof fn lemma_find_idx_names(cs: Seq<FTreeView>, ds: Seq<FTreeView>, name: Seq<char>)
    requires
        cs.len() == ds.len(),
        forall|k: int| 0 <= k < cs.len() ==> (#[trigger] cs[k].node.name) == ds[k].node.name,
    ensures
        find_idx(cs, name) == find_idx(ds, name),
    decreases cs.len(),
{
    if cs.len() > 0 {
        lemma_find_idx_names(cs.drop_first(), ds.drop_first(), name);
    }
}

/// After a replacement the path resolves to the replacement, and paths into
/// it continue below it.
pub proof fn lemma_replace_traverse(t: FTreeView, p: Seq<Seq<char>>, x: FTreeView)
    requires
        t.traverse(p) is Some,
        p.len() > 0 ==> x.node.name == t.traverse(p)->0.node.name,
    ensures
        t.replace_at(p, x).traverse(p) == Some(x),
    decreases p.len(),
{
    if p.len() > 0 {
        let i = find_idx(t.children, p[0]);
        lemma_find_idx(t.children, p[0]);
        let r = t.replace_at(p, x);
        let cs2 = t.children.update(i, t.children[i].replace_at(p.drop_first(), x));
        assert forall|k: int| 0 <= k < cs2.len() implies (#[trigger] cs2[k].node.name)
            == t.children[k].node.name by {
            if k == i && p.len() > 1 {
                lemma_replace_keeps_name(t.children[i], p.drop_first(), x);
            }
        }
        lemma_find_idx_names(cs2, t.children, p[0]);
        lemma_replace_traverse(t.children[i], p.drop_first(), x);
    }
}

/// A replacement somewhere strictly below a node keeps the node's own
/// name.
pub proof fn lemma_replace_keeps_name(t: FTreeView, p: Seq<Seq<char>>, x: FTreeView)
    requires
        p.len() > 0,
        t.traverse(p) is Some,
    ensures
        t.replace_at(p, x).node == t.node,
{
    lemma_find_idx(t.children, p[0]);
}

/// A replacement by a well-formed, equally named subtree keeps the whole
/// tree well-formed.
pub proof fn lemma_replace_preserves_wf(t: FTreeView, p: Seq<Seq<char>>, x: FTreeView)
    requires
        t.wf(),
        t.traverse(p) is Some,
        x.wf(),
        x.node.name == t.traverse(p)->0.node.name,
    ensures
        t.replace_at(p, x).wf(),
    decreases p.len(),
{
    if p.len() > 0 {
        let i = find_idx(t.children, p[0]);
        lemma_find_idx(t.children, p[0]);
        lemma_replace_preserves_wf(t.children[i], p.drop_first(), x);
        let c2 = t.children[i].replace_at(p.drop_first(), x);
        if p.len() == 1 {
            assert(c2 == x);
            assert(c2.node.name == t.children[i].node.name);
        } else {
            lemma_replace_keeps_name(t.children[i], p.drop_first(), x);
        }
        let r = t.replace_at(p, x);
        assert forall|k: int| 0 <= k < r.children.len() implies (#[trigger] r.children[k]).wf() by {
            if k != i {
                assert(r.children[k] == t.children[k]);
            }
        }
    }
}

/// Appending a subtree and then taking the model is the same as pushing the
/// model of the subtree onto the model of the forest.
pub proof fn lemma_forest_view_push(cs: Seq<FTree>, x: FTree)
    ensures
        forest_view(cs.push(x)) == forest_view(cs).push(tree_view(x)),
{
    assert(forest_view(cs.push(x)) =~= forest_view(cs).push(tree_view(x)));
}

/// Removing a subtree and then taking the model is the same as removing its
/// model from the model of the forest.
pub proof fn lemma_forest_view_remove(cs: Seq<FTree>, j: int)
    requires
        0 <= j < cs.len(),
    ensures
        forest_view(cs.remove(j)) == forest_view(cs).remove(j),
{
    assert(forest_view(cs.remove(j)) =~= forest_view(cs).remove(j));
}

/// Replacing one subtree and then taking the model is the same as updating
/// the model of the forest at that position.
pub proof fn lemma_forest_view_update(cs: Seq<FTree>, j: int, x: FTree)
    requires
        0 <= j < cs.len(),
    ensures
        forest_view(cs.update(j, x)) == forest_view(cs).update(j, tree_view(x)),
{
    assert(forest_view(cs.update(j, x)) =~= forest_view(cs).update(j, tree_view(x)));
}

impl Clone for FType {
    fn clone(&self) -> (r: FType)
        ensures
            r@ == self@,
    {
        match self {
            FType::File(s) => FType::File(s.clone()),
            FType::Folder => FType::Folder,
        }
    }
}

impl Clone for FNode {
    fn clone(&self) -> (r: FNode)
        ensures
            r@ == self@,
    {
        FNode { name: self.name.clone(), f_type: self.f_type.clone() }
    }
}

/// A deep copy of a subtree, equal to the original in the model.
fn clone_tree(t: &FTree) -> (r: FTree)
    ensures
        r@ == t@,
    decreases *t,
{
    let mut kids: Vec<FTree> = Vec::new();
    let mut i: usize = 0;
    while i < t.children.len()
        invariant
            i <= t.children@.len(),
            kids@.len() == i,
            forall|m: int| 0 <= m < i ==> tree_view(#[trigger] kids@[m]) == tree_view(t.children@[m]),
        decreases t.children@.len() - i,
    {
        let c = clone_tree(&t.children[i]);
        kids.push(c);
        i += 1;
    }
    let r = FTree { inner: t.inner.clone(), children: kids };
    proof {
        assert(r@.children =~= t@.children);
    }
    r
}

impl Clone for FTree {
    fn clone(&self) -> (r: FTree)
        ensures
            r@ == self@,
    {
        clone_tree(self)
    }
}

impl Default for FTree {
    fn default() -> (t: FTree)
        ensures
            t@.node.name == "root"@,
            t@.node.f_type is Folder,
            t@.children.len() == 0,
    {
        FTree::new()
    }
}

/// Decide structural equality of two subtrees: same names, same kinds and
/// content references, same children in the same order.
pub fn tree_eq(a: &FTree, b: &FTree) -> (r: bool)
    ensures
        r == (a@ == b@),
    decreases *a,
{
    if !(a.inner.name == b.inner.name) {
        return false;
    }
    match (&a.inner.f_type, &b.inner.f_type) {
        (FType::Folder, FType::Folder) => {},
        (FType::File(x), FType::File(y)) => {
            if !(*x == *y) {
                return false;
            }
        },
        _ => {
            return false;
        },
    }
    proof {
        assert(tree_view(*a).node == tree_view(*b).node);
    }
    let n = a.children.len();
    if n != b.children.len() {
        proof {
            assert(a@.children.len() == n && b@.children.len() == b.children@.len());
        }
        return false;
    }
    let mut i: usize = 0;
    while i < n
        invariant
            i <= n,
            n == a.children@.len() && n == b.children@.len(),
            tree_view(*a).node == tree_view(*b).node,
            forall|k: int|
                0 <= k < i ==> (#[trigger] tree_view(*a).children[k]) == tree_view(*b).children[k],
        decreases n - i,
    {
        proof {
            assert(tree_view(*a).children[i as int] == tree_view(a.children@[i as int]));
            assert(tree_view(*b).children[i as int] == tree_view(b.children@[i as int]));
        }
        if !tree_eq(&a.children[i], &b.children[i]) {
            return false;
        }
        i += 1;
    }
    proof {
        assert(a@.children =~= b@.children);
        assert(a@ =~= b@);
    }
    true
}

/// Position of the first child in `children` named `name`, if any.
fn find_child_idx(children: &Vec<FTree>, name: &String) -> (r: Option<usize>)
    ensures
        ({
            let i = find_idx(forest_view(children@), name@);
            match r {
                Some(j) => i == j && j < children@.len(),
                None => i < 0,
            }
        }),
{
    let mut j: usize = 0;
    while j < children.len()
        invariant
            j <= children@.len(),
            forall|m: int|
                0 <= m < j ==> (#[trigger] forest_view(children@)[m]).node.name != name@,
        decreases children@.len() - j,
    {
        if children[j].inner.name == *name {
            proof {
                lemma_find_idx(forest_view(children@), name@);
                assert(forest_view(children@)[j as int] == tree_view(children@[j as int]));
                assert(forest_view(children@)[j as int].node.name == name@);
            }
            return Some(j);
        }
        proof {
            assert(forest_view(children@)[j as int] == tree_view(children@[j as int]));
        }
        j += 1;
    }
    proof {
        lemma_find_idx(forest_view(children@), name@);
    }
    None
}

impl FTree {
    /// The synthetic folder at which every store is rooted.
    pub fn new() -> (t: FTree)
        ensures
            t@.node.name == "root"@,
            t@.node.f_type is Folder,
            t@.children.len() == 0,
    {
        FTree {
            inner: FNode { name: String::from_str("root"), f_type: FType::Folder },
            children: Vec::new(),
        }
    }

    /// Resolve `path` against this subtree, returning the node it reaches.
    pub fn traverse_to_path<'a>(&'a self, path: &[String]) -> (r: Option<&'a FTree>)
        ensures
            match r {
                Some(sub) => self@.traverse(path.deep_view()) == Some(sub@),
                None => self@.traverse(path.deep_view()) is None,
            },
    {
        let ghost whole = self@.traverse(path.deep_view());
        proof {
            assert(path.deep_view().skip(0) =~= path.deep_view());
        }
        let mut cur: &FTree = self;
        let mut k: usize = 0;
        while k < path.len()
            invariant
                k <= path@.len(),
                whole == tree_view(*self).traverse(path.deep_view()),
                cur@.traverse(path.deep_view().skip(k as int)) == whole,
            decreases path@.len() - k,
        {
            let ghost rest = path.deep_view().skip(k as int);
            proof {
                assert(rest[0] == path.deep_view()[k as int]);
            }
            match &cur.inner.f_type {
                FType::File(_) => {
                    return None;
                },
                FType::Folder => {},
            }
            match find_child_idx(&cur.children, &path[k]) {
                None => {
                    return None;
                },
                Some(j) => {
                    proof {
                        assert(cur@.children[j as int] == tree_view(cur.children@[j as int]));
                        assert(rest.drop_first() =~= path.deep_view().skip(k as int + 1));
                    }
                    cur = &cur.children[j];
                },
            }
            k += 1;
        }
        proof {
            assert(path.deep_view().skip(k as int) =~= Seq::<Seq<char>>::empty());
        }
        Some(cur)
    }

    /// Resolve `path` against this subtree, returning the node it reaches
    /// for mutation.  The whole tree afterwards is the old tree with that
    /// node replaced by whatever the caller leaves behind.
    pub fn traverse_to_path_mut<'a>(&'a mut self, path: &[String]) -> (r: Option<&'a mut FTree>)
        ensures
            match r {
                Some(sub) => {
                    &&& old(self)@.traverse(path.deep_view()) == Some((*sub)@)
                    &&& final(self)@ == old(self)@.replace_at(path.deep_view(), final(sub)@)
                },
                None => {
                    &&& old(self)@.traverse(path.deep_view()) is None
                    &&& final(self)@ == old(self)@
                },
            },
    {
        let n = path.len();
        proof {
            assert(path.deep_view().subrange(0, n as int) =~= path.deep_view());
        }
        traverse_mut_from(self, path, 0, n)
    }
}

impl FTree {
    /// Collect a copy of every entry in this subtree, the subtree's own
    /// entry first, then the children's, depth first.
    pub fn flatten(&self) -> (r: Vec<FNode>)
        ensures
            r.deep_view() == self@.flat_nodes(),
        decreases *self,
    {
        let mut out: Vec<FNode> = Vec::new();
        out.push(self.inner.clone());
        let mut i: usize = 0;
        while i < self.children.len()
            invariant
                i <= self.children@.len(),
                out.deep_view() == seq![tree_view(*self).node] + flat_forest(
                    tree_view(*self).children.take(i as int),
                ),
            decreases self.children@.len() - i,
        {
            let ghost cs = tree_view(*self).children;
            let mut sub = self.children[i].flatten();
            proof {
                assert(tree_view(*self).children[i as int] == tree_view(
                    self.children@[i as int],
                ));
                assert(cs.take(i as int + 1) =~= cs.take(i as int) + seq![cs[i as int]]);
                lemma_flat_forest_concat(cs.take(i as int), seq![cs[i as int]]);
                assert(seq![cs[i as int]].drop_first() =~= Seq::<FTreeView>::empty());
                assert(flat_forest(Seq::<FTreeView>::empty()) =~= Seq::<FNodeView>::empty());
                assert(flat_forest(seq![cs[i as int]]) =~= cs[i as int].flat_nodes());
            }
            let ghost out0 = out.deep_view();
            let ghost subv = sub.deep_view();
            out.append(&mut sub);
            proof {
                assert(out.deep_view() =~= out0 + subv);
                assert(out.deep_view() =~= seq![tree_view(*self).node] + flat_forest(
                    cs.take(i as int + 1),
                ));
            }
            i += 1;
        }
        proof {
            assert(out.deep_view() =~= seq![tree_view(*self).node] + flat_forest(
                tree_view(*self).children.take(tree_view(*self).children.len() as int),
            ));
            assert(tree_view(*self).children.take(tree_view(*self).children.len() as int)
                =~= tree_view(*self).children);
        }
        out
    }

    /// Collect the content reference of every file in this subtree, so that
    /// externally stored content can be released after a deletion.
    pub fn file_refs(&self) -> (r: Vec<String>)
        ensures
            r.deep_view() == self@.file_refs(),
        decreases *self,
    {
        let mut out: Vec<String> = Vec::new();
        match &self.inner.f_type {
            FType::File(x) => {
                out.push(x.clone());
            },
            FType::Folder => {},
        }
        let mut i: usize = 0;
        while i < self.children.len()
            invariant
                i <= self.children@.len(),
                out.deep_view() == (match tree_view(*self).node.f_type {
                    FTypeView::File(x) => seq![x],
                    FTypeView::Folder => Seq::<Seq<char>>::empty(),
                }) + forest_file_refs(tree_view(*self).children.take(i as int)),
            decreases self.children@.len() - i,
        {
            let ghost cs = tree_view(*self).children;
            let mut sub = self.children[i].file_refs();
            proof {
                assert(tree_view(*self).children[i as int] == tree_view(
                    self.children@[i as int],
                ));
                assert(cs.take(i as int + 1) =~= cs.take(i as int) + seq![cs[i as int]]);
                lemma_forest_refs_concat(cs.take(i as int), seq![cs[i as int]]);
                assert(seq![cs[i as int]].drop_first() =~= Seq::<FTreeView>::empty());
                assert(forest_file_refs(Seq::<FTreeView>::empty()) =~= Seq::<Seq<char>>::empty());
                assert(forest_file_refs(seq![cs[i as int]]) =~= cs[i as int].file_refs());
            }
            let ghost out0 = out.deep_view();
            let ghost subv = sub.deep_view();
            out.append(&mut sub);
            proof {
                assert(out.deep_view() =~= out0 + subv);
            }
            i += 1;
        }
        proof {
            assert(tree_view(*self).children.take(tree_view(*self).children.len() as int)
                =~= tree_view(*self).children);
        }
        out
    }

    /// Decide whether this subtree is well-formed: sibling names unique,
    /// files childless, every subtree well-formed in turn.
    pub fn well_formed(&self) -> (b: bool)
        ensures
            b == self@.wf(),
        decreases *self,
    {
        let n = self.children.len();
        match &self.inner.f_type {
            FType::File(_) => {
                if n > 0 {
                    return false;
                }
            },
            FType::Folder => {},
        }
        let mut i: usize = 0;
        while i < n
            invariant
                i <= n,
                n == self.children@.len(),
                forall|a: int, b: int|
                    0 <= a < b < n && a < i ==> (#[trigger] tree_view(*self).children[a].node.name)
                        != (#[trigger] tree_view(*self).children[b].node.name),
                forall|k: int|
                    0 <= k < i ==> (#[trigger] tree_view(*self).children[k]).wf(),
            decreases n - i,
        {
            let mut j: usize = i + 1;
            while j < n
                invariant
                    i < j <= n,
                    n == self.children@.len(),
                    forall|b: int|
                        i < b < j ==> (#[trigger] tree_view(*self).children[b].node.name)
                            != tree_view(*self).children[i as int].node.name,
                decreases n - j,
            {
                proof {
                    assert(tree_view(*self).children[i as int] == tree_view(
                        self.children@[i as int],
                    ));
                    assert(tree_view(*self).children[j as int] == tree_view(
                        self.children@[j as int],
                    ));
                }
                if self.children[i].inner.name == self.children[j].inner.name {
                    proof {
                        assert(tree_view(*self).children[i as int].node.name == tree_view(
                            *self,
                        ).children[j as int].node.name);
                    }
                    return false;
                }
                j += 1;
            }
            proof {
                assert(tree_view(*self).children[i as int] == tree_view(
                    self.children@[i as int],
                ));
            }
            if !self.children[i].well_formed() {
                return false;
            }
            i += 1;
        }
        true
    }

    /// Append a new leaf holding `entry` to the folder that `head` reaches.
    /// Fails with `PathNotFound` when the head does not resolve to a folder,
    /// and with `OperationFailed` when the folder already has a child of
    /// that name; a failed call leaves the tree unchanged.
    pub fn create_at(&mut self, head: &[String], entry: FNode) -> (r: Result<FTree, FSError>)
        ensures
            ({
                let hv = head.deep_view();
                match r {
                    Ok(sub) => {
                        &&& old(self)@.can_create(hv, entry@)
                        &&& sub@ == leaf_view(entry@)
                        &&& final(self)@ == old(self)@.insert_at(hv, entry@)
                        &&& old(self)@.wf() ==> final(self)@.wf()
                    },
                    Err(e) => {
                        &&& final(self)@ == old(self)@
                        &&& match e {
                            FSError::PathNotFound => !(old(self)@.traverse(hv) matches Some(d)
                                && d.node.f_type is Folder),
                            FSError::OperationFailed(m) => {
                                &&& old(self)@.traverse(hv) matches Some(d) && d.node.f_type
                                    is Folder && find_idx(d.children, entry@.name) >= 0
                                &&& m@ == "Entry with name already exists"@
                            },
                            FSError::Forbidden => false,
                        }
                    },
                }
            }),
    {
        let ghost hv = head.deep_view();
        let ghost t0 = *self;
        match self.traverse_to_path_mut(head) {
            None => Err(FSError::PathNotFound),
            Some(sub) => {
                let ghost d0 = (*sub)@;
                let is_folder = match &sub.inner.f_type {
                    FType::File(_) => false,
                    FType::Folder => true,
                };
                if !is_folder {
                    proof {
                        lemma_replace_id(t0@, hv);
                    }
                    return Err(FSError::PathNotFound);
                }
                match find_child_idx(&sub.children, &entry.name) {
                    Some(_) => {
                        proof {
                            lemma_replace_id(t0@, hv);
                        }
                        Err(
                            FSError::OperationFailed(
                                String::from_str("Entry with name already exists"),
                            ),
                        )
                    },
                    None => {
                        let child = FTree { inner: entry, children: Vec::new() };
                        let copy = child.clone();
                        let ghost kids0 = sub.children@;
                        sub.children.push(child);
                        proof {
                            assert(forest_view(Seq::<FTree>::empty()) =~= Seq::<
                                FTreeView,
                            >::empty());
                            lemma_forest_view_push(kids0, child);
                            let x = FTreeView {
                                node: d0.node,
                                children: d0.children.push(leaf_view(entry@)),
                            };
                            assert(tree_view(*sub) == x);
                            if t0@.wf() {
                                lemma_traverse_wf(t0@, hv);
                                lemma_find_idx(d0.children, entry@.name);
                                assert forall|i: int|
                                    0 <= i < x.children.len() implies (
                                #[trigger] x.children[i]).wf() by {
                                    if i < d0.children.len() {
                                        assert(x.children[i] == d0.children[i]);
                                    }
                                }
                                assert(x.wf());
                                lemma_replace_preserves_wf(t0@, hv, x);
                            }
                        }
                        Ok(copy)
                    },
                }
            },
        }
    }

    /// Remove the entry that `head` reaches from its parent and hand the
    /// removed subtree back, so that external content held under it can be
    /// released.  Fails with `PathNotFound` when the head does not resolve
    /// and with `OperationFailed` when it names the root; a failed call
    /// leaves the tree unchanged.
    pub fn delete_at(&mut self, head: &[String]) -> (r: Result<FTree, FSError>)
        ensures
            ({
                let hv = head.deep_view();
                match r {
                    Ok(removed) => {
                        &&& old(self)@.can_delete(hv)
                        &&& old(self)@.traverse(hv) == Some(removed@)
                        &&& final(self)@ == old(self)@.remove_at(hv)
                        &&& old(self)@.wf() ==> final(self)@.wf()
                    },
                    Err(e) => {
                        &&& final(self)@ == old(self)@
                        &&& match e {
                            FSError::PathNotFound => hv.len() > 0 && old(self)@.traverse(hv)
                                is None,
                            FSError::OperationFailed(m) => hv.len() == 0 && m@
                                == "Cannot delete root folder"@,
                            FSError::Forbidden => false,
                        }
                    },
                }
            }),
    {
        let ghost hv = head.deep_view();
        let ghost t0 = *self;
        if head.len() == 0 {
            return Err(FSError::OperationFailed(String::from_str("Cannot delete root folder")));
        }
        let last = head.len() - 1;
        let ghost parent = hv.drop_last();
        let ghost lastseg = seq![hv.last()];
        proof {
            assert(parent =~= hv.subrange(0, last as int));
            assert(parent + lastseg =~= hv);
            lemma_traverse_append(t0@, parent, lastseg);
        }
        match traverse_mut_from(self, head, 0, last) {
            None => Err(FSError::PathNotFound),
            Some(par) => {
                let ghost p0 = (*par)@;
                let is_folder = match &par.inner.f_type {
                    FType::File(_) => false,
                    FType::Folder => true,
                };
                if !is_folder {
                    proof {
                        lemma_replace_id(t0@, parent);
                    }
                    return Err(FSError::PathNotFound);
                }
                match find_child_idx(&par.children, &head[last]) {
                    None => {
                        proof {
                            lemma_replace_id(t0@, parent);
                            assert(lastseg[0] == hv.last());
                        }
                        Err(FSError::PathNotFound)
                    },
                    Some(j) => {
                        let ghost kids0 = par.children@;
                        let removed = par.children.remove(j);
                        proof {
                            assert(lastseg[0] == hv.last());
                            assert(hv.last() == head@[last as int]@);
                            assert(lastseg.drop_first() =~= Seq::<Seq<char>>::empty());
                            assert(p0.children == forest_view(kids0));
                            assert(removed@ == p0.children[j as int]);
                            assert(p0.children[j as int].traverse(lastseg.drop_first()) == Some(
                                p0.children[j as int],
                            ));
                            assert(p0.traverse(lastseg) == Some(p0.children[j as int]));
                            lemma_forest_view_remove(kids0, j as int);
                            let x = FTreeView {
                                node: p0.node,
                                children: p0.children.remove(j as int),
                            };
                            assert(tree_view(*par) == x);
                            if t0@.wf() {
                                lemma_traverse_wf(t0@, parent);
                                assert forall|a: int, b: int|
                                    0 <= a < b < x.children.len() implies (
                                #[trigger] x.children[a].node.name) != (
                                #[trigger] x.children[b].node.name) by {
                                    let a0 = if a < j { a } else { a + 1 };
                                    let b0 = if b < j { b } else { b + 1 };
                                    assert(x.children[a] == p0.children[a0]);
                                    assert(x.children[b] == p0.children[b0]);
                                }
                                assert forall|i: int|
                                    0 <= i < x.children.len() implies (
                                #[trigger] x.children[i]).wf() by {
                                    let i0 = if i < j { i } else { i + 1 };
                                    assert(x.children[i] == p0.children[i0]);
                                }
                                assert(x.wf());
                                lemma_replace_preserves_wf(t0@, parent, x);
                            }
                        }
                        Ok(removed)
                    },
                }
            },
        }
    }
}

/// Recursive worker for [`FTree::traverse_to_path_mut`]: resolves the
/// segments of `path` from position `k` up to (not including) `end`.
fn traverse_mut_from<'a>(t: &'a mut FTree, path: &[String], k: usize, end: usize) -> (r: Option<
    &'a mut FTree,
>)
    requires
        k <= end <= path@.len(),
    ensures
        match r {
            Some(sub) => {
                &&& old(t)@.traverse(path.deep_view().subrange(k as int, end as int)) == Some(
                    (*sub)@,
                )
                &&& final(t)@ == old(t)@.replace_at(
                    path.deep_view().subrange(k as int, end as int),
                    final(sub)@,
                )
            },
            None => {
                &&& old(t)@.traverse(path.deep_view().subrange(k as int, end as int)) is None
                &&& final(t)@ == old(t)@
            },
        },
    decreases end - k,
{
    let ghost rest = path.deep_view().subrange(k as int, end as int);
    if k == end {
        proof {
            assert(rest =~= Seq::<Seq<char>>::empty());
        }
        return Some(t);
    }
    proof {
        assert(rest[0] == path.deep_view()[k as int]);
    }
    match &t.inner.f_type {
        FType::File(_) => {
            return None;
        },
        FType::Folder => {},
    }
    match find_child_idx(&t.children, &path[k]) {
        None => None,
        Some(j) => {
            proof {
                assert(tree_view(*t).children[j as int] == tree_view(t.children@[j as int]));
                assert(rest.drop_first() =~= path.deep_view().subrange(k as int + 1, end as int));
            }
            let ghost t0 = *t;
            let child: &'a mut FTree = &mut t.children[j];
            proof {
                assert forall|x: FTree|
                    forest_view(t0.children@.update(j as int, x)) == forest_view(
                        t0.children@,
                    ).update(j as int, tree_view(x)) by {
                    lemma_forest_view_update(t0.children@, j as int, x);
                }
                assert(forest_view(t0.children@).update(
                    j as int,
                    forest_view(t0.children@)[j as int],
                ) =~= forest_view(t0.children@));
            }
            traverse_mut_from(child, path, k + 1, end)
        },
    }
}

} // verus!
