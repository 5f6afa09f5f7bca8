use vstd::prelude::*;

verus! {

use vstd::multiset::Multiset;
use vstd::seq_lib::lemma_multiset_commutative;

broadcast use vstd::multiset::group_multiset_axioms;
use crate::afs::FNodeView;
use crate::afs::FTreeView;
use crate::afs::find_idx;
use crate::afs::forest_file_refs;
use crate::afs::leaf_view;
use crate::afs::lemma_find_idx;
use crate::afs::lemma_replace_traverse;
use crate::afs::lemma_traverse_append;

/// The folder that a non-empty resolving path ends in: its parent resolves
/// to a folder among whose children the path's last segment names the
/// resolved subtree.
pub proof fn lemma_traverse_last(t: FTreeView, head: Seq<Seq<char>>)
    requires
        head.len() > 0,
        t.traverse(head) is Some,
    ensures
        ({
            let parent = head.drop_last();
            &&& t.traverse(parent) matches Some(p)
            &&& t.traverse(parent)->0.node.f_type is Folder
            &&& find_idx(t.traverse(parent)->0.children, head.last()) >= 0
            &&& t.traverse(parent)->0.children[find_idx(
                t.traverse(parent)->0.children,
                head.last(),
            )] == t.traverse(head)->0
        }),
{
    let parent = head.drop_last();
    let lastseg = seq![head.last()];
    assert(parent + lastseg =~= head);
    lemma_traverse_append(t, parent, lastseg);
    let p = t.traverse(parent)->0;
    assert(lastseg.drop_first() =~= Seq::<Seq<char>>::empty());
    let i = find_idx(p.children, lastseg[0]);
    assert(p.children[i].traverse(lastseg.drop_first()) == Some(p.children[i]));
}

/// Navigation: a freshly created entry is found again under the head it was
/// created under, extended by its name.
pub proof fn lemma_created_entry_resolves(t: FTreeView, head: Seq<Seq<char>>, n: FNodeView)
    requires
        t.can_create(head, n),
    ensures
        t.insert_at(head, n).traverse(head.push(n.name)) == Some(leaf_view(n)),
{
    let d = t.traverse(head)->0;
    let x = FTreeView { node: d.node, children: d.children.push(leaf_view(n)) };
    lemma_replace_traverse(t, head, x);
    let t2 = t.insert_at(head, n);
    assert(t2.traverse(head) == Some(x));
    let lastseg = seq![n.name];
    assert(head + lastseg =~= head.push(n.name));
    lemma_traverse_append(t2, head, lastseg);
    lemma_find_idx(x.children, n.name);
    lemma_find_idx(d.children, n.name);
    let i = find_idx(x.children, n.name);
    assert(x.children[d.children.len() as int].node.name == n.name);
    if i < 0 {
        assert(false);
    }
    assert forall|k: int| 0 <= k < d.children.len() implies (#[trigger] x.children[k]).node.name
        != n.name by {
        assert(x.children[k] == d.children[k]);
    }
    assert(i == d.children.len());
    assert(lastseg.drop_first() =~= Seq::<Seq<char>>::empty());
    assert(x.children[i].traverse(lastseg.drop_first()) == Some(leaf_view(n)));
}

/// Uniqueness: once an entry of some name stands under a head, a second
/// creation under that head with the same name cannot succeed — the head
/// still resolves to a folder, so the rejection is the duplicate-name
/// failure, not a missing path.
pub proof fn lemma_duplicate_create_rejected(
    t: FTreeView,
    head: Seq<Seq<char>>,
    n1: FNodeView,
    n2: FNodeView,
)
    requires
        t.can_create(head, n1),
        n2.name == n1.name,
    ensures
        !t.insert_at(head, n1).can_create(head, n2),
        t.insert_at(head, n1).traverse(head) matches Some(d) && d.node.f_type is Folder
            && find_idx(d.children, n2.name) >= 0,
{
    let d = t.traverse(head)->0;
    let x = FTreeView { node: d.node, children: d.children.push(leaf_view(n1)) };
    lemma_replace_traverse(t, head, x);
    assert(t.insert_at(head, n1).traverse(head) == Some(x));
    lemma_find_idx(x.children, n2.name);
    assert(x.children[d.children.len() as int].node.name == n2.name);
    if find_idx(x.children, n2.name) < 0 {
        assert(false);
    }
}

/// Whether a whole sequence of creations under one head goes through, each
/// on the tree the previous one left behind.
pub open spec fn all_creates_succeed(
    t: FTreeView,
    head: Seq<Seq<char>>,
    ns: Seq<FNodeView>,
) -> bool
    decreases ns.len(),
{
    if ns.len() == 0 {
        true
    } else {
        t.can_create(head, ns[0]) && all_creates_succeed(
            t.insert_at(head, ns[0]),
            head,
            ns.drop_first(),
        )
    }
}

/// The tree after a sequence of creations under one head.
pub open spec fn insert_all(t: FTreeView, head: Seq<Seq<char>>, ns: Seq<FNodeView>) -> FTreeView
    decreases ns.len(),
{
    if ns.len() == 0 {
        t
    } else {
        insert_all(t.insert_at(head, ns[0]), head, ns.drop_first())
    }
}

/// Concurrency, serialized by the store's writer lock: creations under one
/// head with pairwise distinct fresh names all succeed, in whatever order
/// the lock admits them, and the folder ends up with one child more per
/// creation.
pub proof fn lemma_distinct_creates_all_succeed(
    t: FTreeView,
    head: Seq<Seq<char>>,
    ns: Seq<FNodeView>,
)
    requires
        t.traverse(head) matches Some(d) && d.node.f_type is Folder,
        forall|a: int, b: int|
            0 <= a < b < ns.len() ==> (#[trigger] ns[a].name) != (#[trigger] ns[b].name),
        forall|a: int|
            0 <= a < ns.len() ==> find_idx(t.traverse(head)->0.children, (#[trigger] ns[a]).name)
                < 0,
    ensures
        all_creates_succeed(t, head, ns),
        insert_all(t, head, ns).traverse(head) matches Some(d2) && d2.children.len() == t.traverse(
            head,
        )->0.children.len() + ns.len(),
    decreases ns.len(),
{
    let d = t.traverse(head)->0;
    if ns.len() == 0 {
    } else {
        let n0 = ns[0];
        lemma_find_idx(d.children, n0.name);
        assert(t.can_create(head, n0));
        let x = FTreeView { node: d.node, children: d.children.push(leaf_view(n0)) };
        lemma_replace_traverse(t, head, x);
        let t2 = t.insert_at(head, n0);
        assert(t2.traverse(head) == Some(x));
        assert forall|a: int|
            0 <= a < ns.drop_first().len() implies find_idx(
            t2.traverse(head)->0.children,
            (#[trigger] ns.drop_first()[a]).name,
        ) < 0 by {
            let name = ns.drop_first()[a].name;
            assert(ns.drop_first()[a] == ns[a + 1]);
            lemma_find_idx(x.children, name);
            lemma_find_idx(d.children, name);
            let i = find_idx(x.children, name);
            if i >= 0 {
                if i == d.children.len() {
                    assert(x.children[i].node.name == n0.name);
                } else {
                    assert(x.children[i] == d.children[i]);
                }
                assert(false);
            }
        }
        lemma_distinct_creates_all_succeed(t2, head, ns.drop_first());
    }
}

/// Count of a value in the multiset of a sequence is additive over
/// concatenation; adding the same multiset to two sides keeps equality
/// invertible.
proof fn lemma_multiset_cancel<A>(a: Multiset<A>, b: Multiset<A>, c: Multiset<A>)
    requires
        a.add(c) == b.add(c),
    ensures
        a == b,
{
    assert forall|e: A| a.count(e) == b.count(e) by {
        assert(a.add(c).count(e) == a.count(e) + c.count(e));
        assert(b.add(c).count(e) == b.count(e) + c.count(e));
    }
    assert(a =~= b);
}

/// Updating one root of a forest exchanges exactly that root's references.
proof fn lemma_forest_refs_update(cs: Seq<FTreeView>, i: int, y: FTreeView)
    requires
        0 <= i < cs.len(),
    ensures
        forest_file_refs(cs.update(i, y)).to_multiset().add(cs[i].file_refs().to_multiset())
            == forest_file_refs(cs).to_multiset().add(y.file_refs().to_multiset()),
    decreases cs.len(),
{
    let cs2 = cs.update(i, y);
    if i == 0 {
        assert(cs2[0] == y);
        assert(cs2.drop_first() =~= cs.drop_first());
        lemma_multiset_commutative(y.file_refs(), forest_file_refs(cs.drop_first()));
        lemma_multiset_commutative(cs[0].file_refs(), forest_file_refs(cs.drop_first()));
        assert(forest_file_refs(cs2).to_multiset().add(cs[0].file_refs().to_multiset()) =~=
        forest_file_refs(cs).to_multiset().add(y.file_refs().to_multiset()));
    } else {
        assert(cs2[0] == cs[0]);
        assert(cs2.drop_first() =~= cs.drop_first().update(i - 1, y));
        assert(cs.drop_first()[i - 1] == cs[i]);
        lemma_forest_refs_update(cs.drop_first(), i - 1, y);
        lemma_multiset_commutative(cs[0].file_refs(), forest_file_refs(cs2.drop_first()));
        lemma_multiset_commutative(cs[0].file_refs(), forest_file_refs(cs.drop_first()));
        assert forall|e: Seq<char>|
            forest_file_refs(cs2).to_multiset().add(cs[i].file_refs().to_multiset()).count(e)
                == forest_file_refs(cs).to_multiset().add(y.file_refs().to_multiset()).count(
                e,
            ) by {
            let ihl = forest_file_refs(cs2.drop_first()).to_multiset().add(
                cs[i].file_refs().to_multiset(),
            );
            let ihr = forest_file_refs(cs.drop_first()).to_multiset().add(
                y.file_refs().to_multiset(),
            );
            assert(ihl.count(e) == ihr.count(e));
        }
        assert(forest_file_refs(cs2).to_multiset().add(cs[i].file_refs().to_multiset()) =~=
        forest_file_refs(cs).to_multiset().add(y.file_refs().to_multiset()));
    }
}

/// Removing one root of a forest removes exactly that root's references.
proof fn lemma_forest_refs_remove(cs: Seq<FTreeView>, i: int)
    requires
        0 <= i < cs.len(),
    ensures
        forest_file_refs(cs.remove(i)).to_multiset().add(cs[i].file_refs().to_multiset())
            == forest_file_refs(cs).to_multiset(),
    decreases cs.len(),
{
    if i == 0 {
        assert(cs.remove(0) =~= cs.drop_first());
        lemma_multiset_commutative(cs[0].file_refs(), forest_file_refs(cs.drop_first()));
        assert(forest_file_refs(cs.remove(0)).to_multiset().add(cs[0].file_refs().to_multiset())
            =~= forest_file_refs(cs).to_multiset());
    } else {
        assert(cs.remove(i)[0] == cs[0]);
        assert(cs.remove(i).drop_first() =~= cs.drop_first().remove(i - 1));
        lemma_forest_refs_remove(cs.drop_first(), i - 1);
        lemma_multiset_commutative(cs[0].file_refs(), forest_file_refs(cs.remove(i).drop_first()));
        lemma_multiset_commutative(cs[0].file_refs(), forest_file_refs(cs.drop_first()));
        assert(forest_file_refs(cs.remove(i)).to_multiset().add(cs[i].file_refs().to_multiset())
            =~= forest_file_refs(cs).to_multiset());
    }
}

/// A replacement exchanges exactly the references of the subtree replaced
/// for those of the replacement.
proof fn lemma_replace_refs(t: FTreeView, p: Seq<Seq<char>>, x: FTreeView)
    requires
        t.traverse(p) is Some,
    ensures
        t.replace_at(p, x).file_refs().to_multiset().add(t.traverse(p)->0.file_refs().to_multiset())
            == t.file_refs().to_multiset().add(x.file_refs().to_multiset()),
    decreases p.len(),
{
    if p.len() == 0 {
        assert(x.file_refs().to_multiset().add(t.file_refs().to_multiset()) =~= t.file_refs(
        ).to_multiset().add(x.file_refs().to_multiset()));
    } else {
        let i = find_idx(t.children, p[0]);
        lemma_find_idx(t.children, p[0]);
        let c = t.children[i];
        let c2 = c.replace_at(p.drop_first(), x);
        lemma_replace_refs(c, p.drop_first(), x);
        lemma_forest_refs_update(t.children, i, c2);
        let own = (match t.node.f_type {
            crate::afs::FTypeView::File(r) => seq![r],
            crate::afs::FTypeView::Folder => Seq::<Seq<char>>::empty(),
        });
        let t2 = t.replace_at(p, x);
        lemma_multiset_commutative(own, forest_file_refs(t.children));
        lemma_multiset_commutative(own, forest_file_refs(t.children.update(i, c2)));
        let sub = t.traverse(p)->0;
        assert(sub == c.traverse(p.drop_first())->0);
        // Both sides counted element for element: own + updated forest + sub
        // against own + old forest + x, with the child's exchange inside.
        assert forall|e: Seq<char>|
            t2.file_refs().to_multiset().add(sub.file_refs().to_multiset()).count(e)
                == t.file_refs().to_multiset().add(x.file_refs().to_multiset()).count(e) by {
            let upd = forest_file_refs(t.children.update(i, c2)).to_multiset().add(
                c.file_refs().to_multiset(),
            );
            let base = forest_file_refs(t.children).to_multiset().add(
                c2.file_refs().to_multiset(),
            );
            assert(upd.count(e) == base.count(e));
            let ihl = c2.file_refs().to_multiset().add(sub.file_refs().to_multiset());
            let ihr = c.file_refs().to_multiset().add(x.file_refs().to_multiset());
            assert(ihl.count(e) == ihr.count(e));
        }
        assert(t2.file_refs().to_multiset().add(sub.file_refs().to_multiset()) =~= t.file_refs(
        ).to_multiset().add(x.file_refs().to_multiset()));
    }
}

/// Delete completeness: removing an entry hands back exactly the content
/// references that stood under it — over the whole store, nothing is lost
/// and nothing is invented.
pub proof fn lemma_delete_loses_no_file(t: FTreeView, head: Seq<Seq<char>>)
    requires
        t.can_delete(head),
    ensures
        t.file_refs().to_multiset() == t.remove_at(head).file_refs().to_multiset().add(
            t.traverse(head)->0.file_refs().to_multiset(),
        ),
{
    let parent = head.drop_last();
    lemma_traverse_last(t, head);
    let p = t.traverse(parent)->0;
    let i = find_idx(p.children, head.last());
    lemma_find_idx(p.children, head.last());
    let c = p.children[i];
    let x = FTreeView { node: p.node, children: p.children.remove(i) };
    lemma_replace_refs(t, parent, x);
    lemma_forest_refs_remove(p.children, i);
    let own = (match p.node.f_type {
        crate::afs::FTypeView::File(r) => seq![r],
        crate::afs::FTypeView::Folder => Seq::<Seq<char>>::empty(),
    });
    lemma_multiset_commutative(own, forest_file_refs(p.children));
    lemma_multiset_commutative(own, forest_file_refs(p.children.remove(i)));
    assert(x.file_refs().to_multiset().add(c.file_refs().to_multiset()) =~= p.file_refs(
    ).to_multiset());
    let t2 = t.remove_at(head);
    assert(t2 == t.replace_at(parent, x));
    assert(t2.file_refs().to_multiset().add(p.file_refs().to_multiset()) == t.file_refs(
    ).to_multiset().add(x.file_refs().to_multiset()));
    assert forall|e: Seq<char>|
        t2.file_refs().to_multiset().add(c.file_refs().to_multiset()).add(
            x.file_refs().to_multiset(),
        ).count(e) == t.file_refs().to_multiset().add(x.file_refs().to_multiset()).count(e) by {
        let lhs = t2.file_refs().to_multiset().add(p.file_refs().to_multiset());
        let rhs = t.file_refs().to_multiset().add(x.file_refs().to_multiset());
        assert(lhs.count(e) == rhs.count(e));
        let pm = x.file_refs().to_multiset().add(c.file_refs().to_multiset());
        assert(pm.count(e) == p.file_refs().to_multiset().count(e));
    }
    assert(t2.file_refs().to_multiset().add(c.file_refs().to_multiset()).add(
        x.file_refs().to_multiset(),
    ) =~= t.file_refs().to_multiset().add(x.file_refs().to_multiset()));
    lemma_multiset_cancel(
        t2.file_refs().to_multiset().add(c.file_refs().to_multiset()),
        t.file_refs().to_multiset(),
        x.file_refs().to_multiset(),
    );
}

} // verus!
