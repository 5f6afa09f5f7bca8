use vstd::prelude::*;

verus! {

use crate::afs::FTree;
use crate::afs::FTreeView;
use crate::afs::FType;
use crate::afs::FTypeView;
use crate::afs::tree_view;

/// The metadata shown for an entry in a flattened projection.
pub struct FMeta {
    pub name: String,
}

impl View for FMeta {
    type V = Seq<char>;

    open spec fn view(&self) -> Seq<char> {
        self.name@
    }
}

impl Clone for FMeta {
    fn clone(&self) -> (r: FMeta)
        ensures
            r@ == self@,
    {
        FMeta { name: self.name.clone() }
    }
}

impl Default for FMeta {
    fn default() -> (r: FMeta)
        ensures
            r@ == Seq::<char>::empty(),
    {
        FMeta { name: String::new() }
    }
}

/// The kind of an entry as a projection presents it, without the content
/// reference.
#[derive(Clone, Copy, PartialEq, Eq, Structural)]
pub enum FItemType {
    Folder,
    File,
}

impl Default for FItemType {
    fn default() -> (r: FItemType)
        ensures
            r == FItemType::Folder,
    {
        FItemType::Folder
    }
}

impl FItemType {
    /// Whether this kind is the folder kind.
    pub fn is_folder(&self) -> (b: bool)
        ensures
            b == (*self == FItemType::Folder),
    {
        matches!(self, FItemType::Folder)
    }

    /// Whether this kind is the file kind.
    pub fn is_file(&self) -> (b: bool)
        ensures
            b == (*self == FItemType::File),
    {
        matches!(self, FItemType::File)
    }
}

/// The kind an entry of the given type is presented as.
pub open spec fn item_kind(t: FTypeView) -> FItemType {
    match t {
        FTypeView::File(r) => FItemType::File,
        FTypeView::Folder => FItemType::Folder,
    }
}

impl From<FType> for FItemType {
    fn from(value: FType) -> (r: FItemType) {
        match value {
            FType::Folder => FItemType::Folder,
            FType::File(_) => FItemType::File,
        }
    }
}

impl vstd::std_specs::convert::FromSpecImpl<FType> for FItemType {
    open spec fn obeys_from_spec() -> bool {
        true
    }

    open spec fn from_spec(t: FType) -> FItemType {
        item_kind(t@)
    }
}

/// One line of a flattened listing: an entry's name and kind.
pub struct OwnedFlatFItem {
    pub name: String,
    pub entry_type: FItemType,
}

/// Mathematical model of `OwnedFlatFItem`.
pub struct OwnedFlatFItemView {
    pub name: Seq<char>,
    pub entry_type: FItemType,
}

impl View for OwnedFlatFItem {
    type V = OwnedFlatFItemView;

    open spec fn view(&self) -> OwnedFlatFItemView {
        OwnedFlatFItemView { name: self.name@, entry_type: self.entry_type }
    }
}

impl DeepView for OwnedFlatFItem {
    type V = OwnedFlatFItemView;

    open spec fn deep_view(&self) -> OwnedFlatFItemView {
        self.view()
    }
}

/// The line a subtree is flattened to.
pub open spec fn flat_item_view(t: FTreeView) -> OwnedFlatFItemView {
    OwnedFlatFItemView { name: t.node.name, entry_type: item_kind(t.node.f_type) }
}

impl From<FTree> for OwnedFlatFItem {
    fn from(value: FTree) -> (r: OwnedFlatFItem) {
        OwnedFlatFItem {
            name: value.inner.name,
            entry_type: FItemType::from(value.inner.f_type),
        }
    }
}

impl vstd::std_specs::convert::FromSpecImpl<FTree> for OwnedFlatFItem {
    open spec fn obeys_from_spec() -> bool {
        true
    }

    open spec fn from_spec(t: FTree) -> OwnedFlatFItem {
        OwnedFlatFItem { name: t.inner.name, entry_type: item_kind(t.inner.f_type@) }
    }
}

/// A folder read, flattened for presentation: the entry itself plus one
/// line for each immediate child.
pub struct OwnedFlatFTree {
    pub meta: FMeta,
    pub sub_entries: Vec<OwnedFlatFItem>,
    pub entry_type: FItemType,
}

/// Mathematical model of `OwnedFlatFTree`.
pub struct OwnedFlatFTreeView {
    pub meta: Seq<char>,
    pub sub_entries: Seq<OwnedFlatFItemView>,
    pub entry_type: FItemType,
}

impl View for OwnedFlatFTree {
    type V = OwnedFlatFTreeView;

    open spec fn view(&self) -> OwnedFlatFTreeView {
        OwnedFlatFTreeView {
            meta: self.meta@,
            sub_entries: self.sub_entries.deep_view(),
            entry_type: self.entry_type,
        }
    }
}

/// The flattened projection of a subtree: its own name and kind, and the
/// name and kind of each immediate child.
pub open spec fn flat_tree_view(t: FTreeView) -> OwnedFlatFTreeView {
    OwnedFlatFTreeView {
        meta: t.node.name,
        sub_entries: t.children.map_values(|c: FTreeView| flat_item_view(c)),
        entry_type: item_kind(t.node.f_type),
    }
}

impl OwnedFlatFTree {
    /// Flatten a subtree for presentation.
    pub fn of_tree(value: FTree) -> (r: OwnedFlatFTree)
        ensures
            r@ == flat_tree_view(tree_view(value)),
    {
        let FTree { inner, children } = value;
        let entry_type = FItemType::from(inner.f_type);
        let mut sub_entries: Vec<OwnedFlatFItem> = Vec::new();
        let mut i: usize = 0;
        while i < children.len()
            invariant
                i <= children@.len(),
                sub_entries@.len() == i,
                forall|k: int|
                    0 <= k < i ==> (#[trigger] sub_entries@[k])@ == flat_item_view(
                        tree_view(children@[k]),
                    ),
            decreases children@.len() - i,
        {
            let c = children[i].clone();
            sub_entries.push(OwnedFlatFItem::from(c));
            i += 1;
        }
        let r = OwnedFlatFTree { meta: FMeta { name: inner.name }, sub_entries, entry_type };
        proof {
            assert(r@.sub_entries =~= flat_tree_view(tree_view(value)).sub_entries);
        }
        r
    }
}

impl From<FTree> for OwnedFlatFTree {
    fn from(value: FTree) -> (r: OwnedFlatFTree) {
        OwnedFlatFTree::of_tree(value)
    }
}

impl vstd::std_specs::convert::FromSpecImpl<FTree> for OwnedFlatFTree {
    open spec fn obeys_from_spec() -> bool {
        false
    }

    open spec fn from_spec(t: FTree) -> OwnedFlatFTree {
        arbitrary()
    }
}

} // verus!
