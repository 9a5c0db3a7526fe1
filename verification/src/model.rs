//! The queryable index of one loaded model: which identifiers name elements,
//! which name views, and under which folder chain each one sits.

use vstd::prelude::*;

use crate::tree::NodeView;
use crate::tree::XmlNode;
use crate::tree::ends_with;
use crate::tree::lemma_nodes_view_index;
use crate::tree::lemma_nodes_view_len;
use crate::tree::nodes_view;
use crate::tree::str_ends_with;
use crate::tree::str_eq;

verus! {

/// One folder level of a node's folder chain.
pub struct FolderInfo {
    pub id: String,
    pub name: String,
}

/// The mathematical image of a [`FolderInfo`].
pub ghost struct FolderView {
    pub id: Seq<char>,
    pub name: Seq<char>,
}

impl View for FolderInfo {
    type V = FolderView;

    open spec fn view(&self) -> FolderView {
        FolderView { id: self.id@, name: self.name@ }
    }
}

/// The image of a sequence of folder levels.
pub open spec fn folders_view(s: Seq<FolderInfo>) -> Seq<FolderView> {
    s.map_values(|f: FolderInfo| f@)
}

impl FolderInfo {
    /// The folder's label; folders are addressed by label, not identifier.
    pub fn borrow(&self) -> (r: &str)
        ensures
            r@ == self.name@,
    {
        self.name.as_str()
    }

    /// A copy of this folder level.
    pub fn duplicate(&self) -> (r: FolderInfo)
        ensures
            r@ == self@,
    {
        FolderInfo { id: self.id.clone(), name: self.name.clone() }
    }
}

/// A copy of a folder chain.
pub fn copy_folders(v: &Vec<FolderInfo>) -> (r: Vec<FolderInfo>)
    ensures
        folders_view(r@) == folders_view(v@),
        r@.len() == v@.len(),
{
    let mut out: Vec<FolderInfo> = Vec::new();
    let mut i: usize = 0;
    while i < v.len()
        invariant
            i <= v.len(),
            out@.len() == i as int,
            forall|j: int| 0 <= j < i as int ==> (#[trigger] out@[j])@ == v@[j]@,
        decreases v.len() - i,
    {
        let f = v[i].duplicate();
        out.push(f);
        i = i + 1;
    }
    proof {
        assert(folders_view(out@) =~= folders_view(v@));
    }
    out
}

/// Everything the index records about one element or view: its identifier,
/// its display name, a snapshot of its subtree used as the clone template,
/// and the folder chain it sits under.
pub struct ElementInfo {
    pub id: String,
    pub name: String,
    pub snapshot: XmlNode,
    pub folder_path: Vec<FolderInfo>,
}

/// The mathematical image of an [`ElementInfo`].
pub ghost struct EntryView {
    pub id: Seq<char>,
    pub name: Seq<char>,
    pub snapshot: NodeView,
    pub path: Seq<FolderView>,
}

impl View for ElementInfo {
    type V = EntryView;

    open spec fn view(&self) -> EntryView {
        EntryView {
            id: self.id@,
            name: self.name@,
            snapshot: self.snapshot.deep(),
            path: folders_view(self.folder_path@),
        }
    }
}

impl ElementInfo {
    /// A copy of this record.
    pub fn duplicate(&self) -> (r: ElementInfo)
        ensures
            r@ == self@,
    {
        ElementInfo {
            id: self.id.clone(),
            name: self.name.clone(),
            snapshot: self.snapshot.deep_copy(),
            folder_path: copy_folders(&self.folder_path),
        }
    }
}

/// What the diff engine reports about a view that exists only in the source:
/// its identifier, its display name, and its folder chain.
pub struct MissingElementInfo {
    pub id: String,
    pub name: String,
    pub folder_path: Vec<FolderInfo>,
}

/// The mathematical image of a [`MissingElementInfo`].
pub ghost struct MissingView {
    pub id: Seq<char>,
    pub name: Seq<char>,
    pub path: Seq<FolderView>,
}

impl View for MissingElementInfo {
    type V = MissingView;

    open spec fn view(&self) -> MissingView {
        MissingView { id: self.id@, name: self.name@, path: folders_view(self.folder_path@) }
    }
}

/// The position of the first entry carrying `id`, if any.
pub open spec fn find_entry(s: Seq<EntryView>, id: Seq<char>) -> Option<int>
    decreases s.len(),
{
    if s.len() == 0 {
        None
    } else if s[0].id == id {
        Some(0)
    } else {
        match find_entry(s.drop_first(), id) {
            None => None,
            Some(j) => Some(j + 1),
        }
    }
}

/// The first entry carrying `id`, if any.
pub open spec fn lookup(s: Seq<EntryView>, id: Seq<char>) -> Option<EntryView> {
    match find_entry(s, id) {
        None => None,
        Some(i) => Some(s[i]),
    }
}

/// A sequence of entries after storing `e` under its identifier: an entry
/// already carrying the identifier is replaced, otherwise `e` is appended.
pub open spec fn put_entry(s: Seq<EntryView>, e: EntryView) -> Seq<EntryView> {
    match find_entry(s, e.id) {
        Some(i) => s.update(i, e),
        None => s.push(e),
    }
}

/// What a `find_entry` answer means position by position.
pub proof fn lemma_find_entry_props(s: Seq<EntryView>, id: Seq<char>)
    ensures
        match find_entry(s, id) {
            Some(i) => 0 <= i < s.len() && s[i].id == id && (forall|j: int|
                0 <= j < i ==> s[j].id != id),
            None => forall|j: int| 0 <= j < s.len() ==> s[j].id != id,
        },
    decreases s.len(),
{
    if s.len() > 0 && s[0].id != id {
        lemma_find_entry_props(s.drop_first(), id);
        assert forall|j: int| 1 <= j < s.len() implies s[j].id == s.drop_first()[j - 1].id by {}
    }
}

/// A scan that stopped at the first match found what `find_entry` names.
pub proof fn lemma_find_entry_at(s: Seq<EntryView>, id: Seq<char>, i: int)
    requires
        0 <= i < s.len(),
        s[i].id == id,
        forall|j: int| 0 <= j < i ==> s[j].id != id,
    ensures
        find_entry(s, id) == Some(i),
    decreases s.len(),
{
    if i > 0 {
        lemma_find_entry_at(s.drop_first(), id, i - 1);
    }
}

/// A scan that matched nowhere means `find_entry` answers `None`.
pub proof fn lemma_find_entry_absent(s: Seq<EntryView>, id: Seq<char>)
    requires
        forall|j: int| 0 <= j < s.len() ==> s[j].id != id,
    ensures
        find_entry(s, id) is None,
    decreases s.len(),
{
    if s.len() > 0 {
        lemma_find_entry_absent(s.drop_first(), id);
    }
}

/// No two entries carry the same identifier.
pub open spec fn unique_ids(s: Seq<EntryView>) -> bool {
    forall|i: int, j: int| 0 <= i < j < s.len() ==> s[i].id != s[j].id
}

/// Every entry records a folder chain of at least one level.
pub open spec fn paths_nonempty(s: Seq<EntryView>) -> bool {
    forall|i: int| 0 <= i < s.len() ==> (#[trigger] s[i]).path.len() > 0
}

/// Storing an entry keeps identifiers unique, and keeps folder chains
/// non-empty when the stored entry's chain is.
pub proof fn lemma_put_entry_wf(s: Seq<EntryView>, e: EntryView)
    requires
        unique_ids(s),
    ensures
        unique_ids(put_entry(s, e)),
        paths_nonempty(s) && e.path.len() > 0 ==> paths_nonempty(put_entry(s, e)),
{
    lemma_find_entry_props(s, e.id);
    match find_entry(s, e.id) {
        Some(i) => {
            let s2 = s.update(i, e);
            assert forall|x: int, y: int| 0 <= x < y < s2.len() implies s2[x].id != s2[y].id by {
                assert(s[x].id != s[y].id);
            }
        },
        None => {
            let s2 = s.push(e);
            assert forall|x: int, y: int| 0 <= x < y < s2.len() implies s2[x].id != s2[y].id by {
                if y < s.len() {
                    assert(s[x].id != s[y].id);
                } else {
                    assert(s2[y] == e);
                    assert(s[x].id != e.id);
                }
            }
        },
    }
}

/// The image of a sequence of records.
pub open spec fn entries_view(s: Seq<ElementInfo>) -> Seq<EntryView> {
    s.map_values(|e: ElementInfo| e@)
}

/// A mapping from identifiers to indexed records, with a deterministic
/// order: the order in which the records were first stored.
pub struct IndexMap {
    pub entries: Vec<ElementInfo>,
}

impl View for IndexMap {
    type V = Seq<EntryView>;

    open spec fn view(&self) -> Seq<EntryView> {
        entries_view(self.entries@)
    }
}

impl IndexMap {
    /// An empty index.
    pub fn new() -> (r: IndexMap)
        ensures
            r@ =~= Seq::<EntryView>::empty(),
    {
        IndexMap { entries: Vec::new() }
    }

    /// How many identifiers are indexed.
    pub fn len(&self) -> (r: usize)
        ensures
            r == self@.len(),
    {
        self.entries.len()
    }

    /// Whether an entry carries `id`.
    pub fn contains_id(&self, id: &str) -> (r: bool)
        ensures
            r == (find_entry(self@, id@) is Some),
    {
        let mut i: usize = 0;
        while i < self.entries.len()
            invariant
                i <= self.entries.len(),
                forall|j: int| 0 <= j < i as int ==> self@[j].id != id@,
            decreases self.entries.len() - i,
        {
            if str_eq(self.entries[i].id.as_str(), id) {
                proof {
                    lemma_find_entry_at(self@, id@, i as int);
                }
                return true;
            }
            i = i + 1;
        }
        proof {
            lemma_find_entry_absent(self@, id@);
        }
        false
    }

    /// The record stored under `id`, if any.
    pub fn get(&self, id: &str) -> (r: Option<&ElementInfo>)
        ensures
            match r {
                Some(e) => lookup(self@, id@) == Some(e@),
                None => lookup(self@, id@) is None,
            },
    {
        let mut i: usize = 0;
        while i < self.entries.len()
            invariant
                i <= self.entries.len(),
                forall|j: int| 0 <= j < i as int ==> self@[j].id != id@,
            decreases self.entries.len() - i,
        {
            if str_eq(self.entries[i].id.as_str(), id) {
                proof {
                    lemma_find_entry_at(self@, id@, i as int);
                }
                return Some(&self.entries[i]);
            }
            i = i + 1;
        }
        proof {
            lemma_find_entry_absent(self@, id@);
        }
        None
    }

    /// Store `e` under its identifier, replacing an entry that already
    /// carries it.
    pub fn insert(&mut self, e: ElementInfo)
        ensures
            final(self)@ == put_entry(old(self)@, e@),
    {
        let ghost before = self@;
        let mut i: usize = 0;
        while i < self.entries.len()
            invariant
                i <= self.entries.len(),
                self@ == before,
                before == old(self)@,
                forall|j: int| 0 <= j < i as int ==> self@[j].id != e@.id,
            decreases self.entries.len() - i,
        {
            if str_eq(self.entries[i].id.as_str(), e.id.as_str()) {
                proof {
                    lemma_find_entry_at(before, e@.id, i as int);
                }
                self.entries.set(i, e);
                proof {
                    assert(self@ =~= before.update(i as int, e@));
                }
                return ;
            }
            i = i + 1;
        }
        proof {
            lemma_find_entry_absent(before, e@.id);
        }
        self.entries.push(e);
        proof {
            assert(self@ =~= before.push(e@));
        }
    }
}

/// What can go wrong while a model is loaded.
#[derive(Debug, PartialEq, Eq, Structural)]
pub enum ModelError {
    /// The document's container structure is not what a model looks like.
    MalformedDocument,
    /// A folder lacks a `name` or `id` attribute, or a typed node lacks an
    /// `id` attribute.
    MissingAttribute,
}

/// Whether a node is a folder: an element named `folder`.
pub open spec fn is_folder_node(c: NodeView) -> bool {
    c.is_element() && c.name() == "folder"@
}

/// Whether a node is a typed node: an element named `element` carrying the
/// type-discriminator attribute `xsi:type`.
pub open spec fn is_typed_node(c: NodeView) -> bool {
    c.is_element() && c.name() == "element"@ && c.attr("xsi:type"@) is Some
}

/// Whether a typed node is a diagram: its discriminator ends in the
/// diagram-model marker.
pub open spec fn is_view_node(c: NodeView) -> bool {
    is_typed_node(c) && ends_with(c.attr("xsi:type"@).unwrap(), "ArchimateDiagramModel"@)
}

/// An attribute value, or the empty string where the attribute is absent.
pub open spec fn opt_or_empty(o: Option<Seq<char>>) -> Seq<char> {
    match o {
        Some(v) => v,
        None => Seq::empty(),
    }
}

/// The index record of a typed node found under the folder chain `p`.
pub open spec fn entry_of(c: NodeView, p: Seq<FolderView>) -> EntryView {
    EntryView {
        id: opt_or_empty(c.attr("id"@)),
        name: opt_or_empty(c.attr("name"@)),
        snapshot: c,
        path: p,
    }
}

/// The folder-chain level that a folder node contributes.
pub open spec fn folder_level_of(c: NodeView) -> FolderView {
    FolderView { id: opt_or_empty(c.attr("id"@)), name: opt_or_empty(c.attr("name"@)) }
}

/// Whether a node is named as a typed node is, whatever attributes it has.
pub open spec fn named_element_node(c: NodeView) -> bool {
    c.is_element() && c.name() == "element"@
}

/// Whether one node inside a folder has every attribute the indexer reads:
/// folders need `name` and `id`, typed nodes need `id`.
pub open spec fn child_ok(c: NodeView) -> bool
    decreases c,
{
    if named_element_node(c) {
        c.attr("xsi:type"@) is Some ==> c.attr("id"@) is Some
    } else if is_folder_node(c) {
        c.attr("name"@) is Some && c.attr("id"@) is Some && children_ok(c.children())
    } else {
        true
    }
}

/// Whether every node of a folder's contents has the attributes the indexer
/// reads.
pub open spec fn children_ok(cs: Seq<NodeView>) -> bool
    decreases cs,
{
    cs.len() == 0 || (child_ok(cs[0]) && children_ok(cs.drop_first()))
}

/// Whether a top-level child has the attributes the indexer reads; only
/// folders are looked at there.
pub open spec fn top_child_ok(c: NodeView) -> bool {
    !is_folder_node(c) || (c.attr("name"@) is Some && c.attr("id"@) is Some && children_ok(
        c.children(),
    ))
}

/// Whether every top-level child has the attributes the indexer reads.
pub open spec fn top_ok(cs: Seq<NodeView>) -> bool
    decreases cs,
{
    cs.len() == 0 || (top_child_ok(cs[0]) && top_ok(cs.drop_first()))
}

/// Whether the whole document has the attributes the indexer reads.
pub open spec fn doc_ok(root: NodeView) -> bool {
    top_ok(root.children())
}

/// The two buckets an index is made of.
pub ghost struct Buckets {
    pub elements: Seq<EntryView>,
    pub views: Seq<EntryView>,
}

/// The buckets after indexing one node found under the folder chain `p`:
/// a typed node is stored as a view or an element by its discriminator, a
/// folder is walked recursively, anything else is ignored.
pub open spec fn extract_child(c: NodeView, p: Seq<FolderView>, acc: Buckets) -> Buckets
    decreases c,
{
    if named_element_node(c) {
        if c.attr("xsi:type"@) is Some {
            if is_view_node(c) {
                Buckets { elements: acc.elements, views: put_entry(acc.views, entry_of(c, p)) }
            } else {
                Buckets { elements: put_entry(acc.elements, entry_of(c, p)), views: acc.views }
            }
        } else {
            acc
        }
    } else if is_folder_node(c) {
        extract_children(c.children(), p.push(folder_level_of(c)), acc)
    } else {
        acc
    }
}

/// The buckets after indexing a folder's contents in order.
pub open spec fn extract_children(cs: Seq<NodeView>, p: Seq<FolderView>, acc: Buckets) -> Buckets
    decreases cs,
{
    if cs.len() == 0 {
        acc
    } else {
        extract_children(cs.drop_first(), p, extract_child(cs[0], p, acc))
    }
}

/// The buckets after indexing the document's top-level children: only
/// folders are walked, each opening a chain of one level.
pub open spec fn extract_top(cs: Seq<NodeView>, acc: Buckets) -> Buckets
    decreases cs,
{
    if cs.len() == 0 {
        acc
    } else {
        extract_top(
            cs.drop_first(),
            if is_folder_node(cs[0]) {
                extract_children(cs[0].children(), seq![folder_level_of(cs[0])], acc)
            } else {
                acc
            },
        )
    }
}

/// The index of a whole document.
pub open spec fn extract_model(root: NodeView) -> Buckets {
    extract_top(root.children(), Buckets { elements: Seq::empty(), views: Seq::empty() })
}

/// Whether both buckets keep identifiers unique and folder chains non-empty.
pub open spec fn buckets_wf(b: Buckets) -> bool {
    unique_ids(b.elements) && unique_ids(b.views) && paths_nonempty(b.elements) && paths_nonempty(
        b.views,
    )
}

/// Indexing one node keeps the buckets well-formed.
pub proof fn lemma_extract_child_wf(c: NodeView, p: Seq<FolderView>, acc: Buckets)
    requires
        buckets_wf(acc),
        p.len() > 0,
    ensures
        buckets_wf(extract_child(c, p, acc)),
    decreases c,
{
    if named_element_node(c) {
        if c.attr("xsi:type"@) is Some {
            if is_view_node(c) {
                lemma_put_entry_wf(acc.views, entry_of(c, p));
            } else {
                lemma_put_entry_wf(acc.elements, entry_of(c, p));
            }
        }
    } else if is_folder_node(c) {
        lemma_extract_children_wf(c.children(), p.push(folder_level_of(c)), acc);
    }
}

/// Indexing a folder's contents keeps the buckets well-formed.
pub proof fn lemma_extract_children_wf(cs: Seq<NodeView>, p: Seq<FolderView>, acc: Buckets)
    requires
        buckets_wf(acc),
        p.len() > 0,
    ensures
        buckets_wf(extract_children(cs, p, acc)),
    decreases cs,
{
    if cs.len() > 0 {
        lemma_extract_child_wf(cs[0], p, acc);
        lemma_extract_children_wf(cs.drop_first(), p, extract_child(cs[0], p, acc));
    }
}

/// Indexing the top level keeps the buckets well-formed.
pub proof fn lemma_extract_top_wf(cs: Seq<NodeView>, acc: Buckets)
    requires
        buckets_wf(acc),
    ensures
        buckets_wf(extract_top(cs, acc)),
    decreases cs,
{
    if cs.len() > 0 {
        let acc1 = if is_folder_node(cs[0]) {
            extract_children(cs[0].children(), seq![folder_level_of(cs[0])], acc)
        } else {
            acc
        };
        if is_folder_node(cs[0]) {
            lemma_extract_children_wf(cs[0].children(), seq![folder_level_of(cs[0])], acc);
        }
        lemma_extract_top_wf(cs.drop_first(), acc1);
    }
}

/// One loaded model: its document tree and the index built over it.
pub struct ArchiModel {
    pub tree: XmlNode,
    pub element_map: IndexMap,
    pub view_map: IndexMap,
}

/// The mathematical image of an [`ArchiModel`].
pub ghost struct ModelView {
    pub tree: NodeView,
    pub elements: Seq<EntryView>,
    pub views: Seq<EntryView>,
}

impl View for ArchiModel {
    type V = ModelView;

    open spec fn view(&self) -> ModelView {
        ModelView { tree: self.tree.deep(), elements: self.element_map@, views: self.view_map@ }
    }
}

/// Both index buckets of a model image keep identifiers unique and folder
/// chains non-empty.
pub open spec fn mv_wf(m: ModelView) -> bool {
    buckets_wf(Buckets { elements: m.elements, views: m.views })
}

impl ArchiModel {
    /// Both index buckets keep identifiers unique and folder chains
    /// non-empty.
    pub open spec fn wf(&self) -> bool {
        mv_wf(self@)
    }
}

/// Walk one folder's contents, storing every typed node found along the
/// accumulated folder chain `current_path`, and descending into nested
/// folders.  Fails exactly when a folder lacks `name` or `id`, or a typed
/// node lacks `id`.
fn traverse_children(
    children: &Vec<XmlNode>,
    current_path: &Vec<FolderInfo>,
    elements: &mut IndexMap,
    views: &mut IndexMap,
) -> (r: Result<(), ModelError>)
    ensures
        match r {
            Ok(_) => children_ok(nodes_view(children@)) && (Buckets {
                elements: final(elements)@,
                views: final(views)@,
            }) == extract_children(
                nodes_view(children@),
                folders_view(current_path@),
                (Buckets { elements: old(elements)@, views: old(views)@ }),
            ),
            Err(_) => !children_ok(nodes_view(children@)),
        },
    decreases *children,
{
    let ghost cs = nodes_view(children@);
    let ghost p = folders_view(current_path@);
    let ghost m0 = (Buckets { elements: elements@, views: views@ });
    proof {
        broadcast use lemma_nodes_view_index, lemma_nodes_view_len;

        assert(cs.skip(0) =~= cs);
    }
    let mut i: usize = 0;
    while i < children.len()
        invariant
            i <= children.len(),
            cs == nodes_view(children@),
            p == folders_view(current_path@),
            cs.len() == children@.len(),
            extract_children(cs, p, m0) == extract_children(
                cs.skip(i as int),
                p,
                (Buckets { elements: elements@, views: views@ }),
            ),
            children_ok(cs) == children_ok(cs.skip(i as int)),
        decreases children.len() - i,
    {
        let ghost suffix = cs.skip(i as int);
        let ghost cur = (Buckets { elements: elements@, views: views@ });
        proof {
            broadcast use lemma_nodes_view_index, lemma_nodes_view_len;

            assert(suffix[0] == cs[i as int]);
            assert(suffix.drop_first() =~= cs.skip(i + 1));
        }
        let child = &children[i];
        let named_element = child.name_is("element");
        let named_folder = child.name_is("folder");
        proof {
            assert(child.deep() == cs[i as int]);
        }
        if named_element {
            if let Some(t) = child.get_attr("xsi:type") {
                proof {
                    assert(named_element_node(cs[i as int]));
                    assert(is_typed_node(cs[i as int]));
                }
                let id = match child.get_attr("id") {
                    Some(v) => v,
                    None => {
                        proof {
                            assert(!child_ok(cs[i as int]));
                        }
                        return Err(ModelError::MissingAttribute);
                    },
                };
                let name = match child.get_attr("name") {
                    Some(v) => v,
                    None => String::new(),
                };
                let snapshot = child.deep_copy();
                let folder_path = copy_folders(current_path);
                let info = ElementInfo { id, name, snapshot, folder_path };
                proof {
                    assert(info@ == entry_of(cs[i as int], p));
                }
                if str_ends_with(t.as_str(), "ArchimateDiagramModel") {
                    proof {
                        assert(is_view_node(cs[i as int]));
                    }
                    views.insert(info);
                } else {
                    proof {
                        assert(!is_view_node(cs[i as int]));
                    }
                    elements.insert(info);
                }
                proof {
                    assert((Buckets { elements: elements@, views: views@ }) == extract_child(
                        cs[i as int],
                        p,
                        cur,
                    ));
                }
            } else {
                proof {
                    assert(named_element_node(cs[i as int]));
                    assert(cs[i as int].attr("xsi:type"@) is None);
                }
            }
        } else if named_folder {
            proof {
                assert(!named_element_node(cs[i as int]));
                assert(is_folder_node(cs[i as int]));
            }
            let name = match child.get_attr("name") {
                Some(v) => v,
                None => {
                    proof {
                        assert(!child_ok(cs[i as int]));
                    }
                    return Err(ModelError::MissingAttribute);
                },
            };
            let id = match child.get_attr("id") {
                Some(v) => v,
                None => {
                    proof {
                        assert(!child_ok(cs[i as int]));
                    }
                    return Err(ModelError::MissingAttribute);
                },
            };
            let mut new_path = copy_folders(current_path);
            new_path.push(FolderInfo { id, name });
            proof {
                assert(folders_view(new_path@) =~= p.push(folder_level_of(cs[i as int])));
            }
            match child {
                XmlNode::Element { children: sub, .. } => {
                    proof {
                        assert(cs[i as int].children() == nodes_view(sub@));
                    }
                    match traverse_children(sub, &new_path, elements, views) {
                        Ok(_) => {
                            proof {
                                assert((Buckets {
                                    elements: elements@,
                                    views: views@,
                                }) == extract_child(cs[i as int], p, cur));
                                assert(child_ok(cs[i as int]));
                            }
                        },
                        Err(e) => {
                            proof {
                                assert(!child_ok(cs[i as int]));
                            }
                            return Err(e);
                        },
                    }
                },
                _ => {
                    proof {
                        assert(false);
                    }
                    return Err(ModelError::MalformedDocument);
                },
            }
        } else {
            proof {
                assert(!named_element_node(cs[i as int]));
                assert(!is_folder_node(cs[i as int]));
            }
        }
        proof {
            assert((Buckets { elements: elements@, views: views@ }) == extract_child(
                suffix[0],
                p,
                cur,
            ));
            assert(extract_children(suffix, p, cur) == extract_children(
                suffix.drop_first(),
                p,
                extract_child(suffix[0], p, cur),
            ));
            assert(child_ok(suffix[0]));
            assert(children_ok(suffix) == children_ok(suffix.drop_first()));
        }
        i = i + 1;
    }
    proof {
        assert(cs.skip(cs.len() as int) =~= Seq::<NodeView>::empty());
    }
    Ok(())
}

/// Build the index of a parsed document: walk the folder tree once, record
/// every typed node's identifier, display name, subtree snapshot and folder
/// chain, and sort it into the element or view bucket by its discriminator.
/// Fails exactly when a folder lacks `name` or `id`, or a typed node lacks
/// `id`.
pub fn load_model(root: XmlNode) -> (r: Result<ArchiModel, ModelError>)
    ensures
        match r {
            Ok(m) => doc_ok(root.deep()) && m@.tree == root.deep() && m@.elements == extract_model(
                root.deep(),
            ).elements && m@.views == extract_model(root.deep()).views && m.wf(),
            Err(_) => !doc_ok(root.deep()),
        },
{
    let mut elements = IndexMap::new();
    let mut views = IndexMap::new();
    let ghost m0 = (Buckets { elements: elements@, views: views@ });
    match &root {
        XmlNode::Element { children, .. } => {
            let ghost cs = nodes_view(children@);
            proof {
                broadcast use lemma_nodes_view_index, lemma_nodes_view_len;

                assert(root.deep().children() == cs);
                assert(cs.skip(0) =~= cs);
            }
            let mut i: usize = 0;
            while i < children.len()
                invariant
                    i <= children.len(),
                    cs == nodes_view(children@),
                    cs == root.deep().children(),
                    cs.len() == children@.len(),
                    m0.elements.len() == 0 && m0.views.len() == 0,
                    extract_top(cs, m0) == extract_top(
                        cs.skip(i as int),
                        (Buckets { elements: elements@, views: views@ }),
                    ),
                    top_ok(cs) == top_ok(cs.skip(i as int)),
                decreases children.len() - i,
            {
                let ghost suffix = cs.skip(i as int);
                let ghost cur = (Buckets { elements: elements@, views: views@ });
                proof {
                    broadcast use lemma_nodes_view_index, lemma_nodes_view_len;

                    assert(suffix[0] == cs[i as int]);
                    assert(suffix.drop_first() =~= cs.skip(i + 1));
                }
                let child = &children[i];
                proof {
                    assert(child.deep() == cs[i as int]);
                }
                let named_folder = child.name_is("folder");
                if named_folder {
                    let name = match child.get_attr("name") {
                        Some(v) => v,
                        None => {
                            proof {
                                assert(!top_child_ok(cs[i as int]));
                            }
                            return Err(ModelError::MissingAttribute);
                        },
                    };
                    let id = match child.get_attr("id") {
                        Some(v) => v,
                        None => {
                            proof {
                                assert(!top_child_ok(cs[i as int]));
                            }
                            return Err(ModelError::MissingAttribute);
                        },
                    };
                    let mut new_path: Vec<FolderInfo> = Vec::new();
                    new_path.push(FolderInfo { id, name });
                    proof {
                        assert(folders_view(new_path@) =~= seq![
                            folder_level_of(cs[i as int]),
                        ]);
                    }
                    match child {
                        XmlNode::Element { children: sub, .. } => {
                            proof {
                                assert(cs[i as int].children() == nodes_view(sub@));
                            }
                            match traverse_children(sub, &new_path, &mut elements, &mut views) {
                                Ok(_) => {
                                    proof {
                                        assert(top_child_ok(cs[i as int]));
                                    }
                                },
                                Err(e) => {
                                    proof {
                                        assert(!top_child_ok(cs[i as int]));
                                    }
                                    return Err(e);
                                },
                            }
                        },
                        _ => {
                            proof {
                                assert(false);
                            }
                            return Err(ModelError::MalformedDocument);
                        },
                    }
                } else {
                    proof {
                        assert(!is_folder_node(cs[i as int]));
                    }
                }
                proof {
                    let step = if is_folder_node(suffix[0]) {
                        extract_children(suffix[0].children(), seq![folder_level_of(suffix[0])], cur)
                    } else {
                        cur
                    };
                    assert((Buckets { elements: elements@, views: views@ }) == step);
                    assert(extract_top(suffix, cur) == extract_top(suffix.drop_first(), step));
                    assert(top_child_ok(suffix[0]));
                    assert(top_ok(suffix) == top_ok(suffix.drop_first()));
                }
                i = i + 1;
            }
            proof {
                assert(cs.skip(cs.len() as int) =~= Seq::<NodeView>::empty());
            }
        },
        _ => {
            proof {
                assert(root.deep().children().len() == 0);
            }
        },
    }
    proof {
        lemma_extract_top_wf(
            root.deep().children(),
            (Buckets { elements: Seq::empty(), views: Seq::empty() }),
        );
    }
    Ok(ArchiModel { tree: root, element_map: elements, view_map: views })
}

/// What the diff engine reports for one source view.
pub open spec fn missing_of(e: EntryView) -> MissingView {
    MissingView { id: e.id, name: e.name, path: e.path }
}

/// The views present in `s` but absent from `t`, in `s`'s own order.
pub open spec fn missing_spec(s: Seq<EntryView>, t: Seq<EntryView>) -> Seq<MissingView>
    decreases s,
{
    if s.len() == 0 {
        Seq::empty()
    } else {
        let rest = missing_spec(s.drop_first(), t);
        if find_entry(t, s[0].id) is None {
            seq![missing_of(s[0])] + rest
        } else {
            rest
        }
    }
}

/// The image of a sequence of diff reports.
pub open spec fn missings_view(s: Seq<MissingElementInfo>) -> Seq<MissingView> {
    s.map_values(|m: MissingElementInfo| m@)
}

/// The views of the source that the target lacks, in the source index's
/// own (deterministic) order, each with its name and folder chain.
pub fn find_missing_views(source: &ArchiModel, target: &ArchiModel) -> (r: Vec<
    MissingElementInfo,
>)
    ensures
        missings_view(r@) == missing_spec(source@.views, target@.views),
{
    let ghost sv = source@.views;
    let ghost tv = target@.views;
    let mut out: Vec<MissingElementInfo> = Vec::new();
    proof {
        assert(sv.skip(0) =~= sv);
        assert(missings_view(out@) + missing_spec(sv, tv) =~= missing_spec(sv, tv));
    }
    let mut i: usize = 0;
    while i < source.view_map.entries.len()
        invariant
            i <= source.view_map.entries.len(),
            sv == source@.views,
            tv == target@.views,
            sv.len() == source.view_map.entries@.len(),
            missing_spec(sv, tv) == missings_view(out@) + missing_spec(sv.skip(i as int), tv),
        decreases source.view_map.entries.len() - i,
    {
        let ghost suffix = sv.skip(i as int);
        proof {
            assert(suffix[0] == sv[i as int]);
            assert(suffix.drop_first() =~= sv.skip(i + 1));
        }
        let entry = &source.view_map.entries[i];
        proof {
            assert(entry@ == sv[i as int]);
        }
        if !target.view_map.contains_id(entry.id.as_str()) {
            let m = MissingElementInfo {
                id: entry.id.clone(),
                name: entry.name.clone(),
                folder_path: copy_folders(&entry.folder_path),
            };
            let ghost out_before = out@;
            out.push(m);
            proof {
                assert(m@ == missing_of(sv[i as int]));
                assert(missings_view(out@) =~= missings_view(out_before).push(m@));
                assert(missings_view(out_before).push(m@) + missing_spec(sv.skip(i + 1), tv)
                    =~= missings_view(out_before) + (seq![missing_of(sv[i as int])]
                    + missing_spec(sv.skip(i + 1), tv)));
            }
        }
        i = i + 1;
    }
    proof {
        assert(sv.skip(sv.len() as int) =~= Seq::<EntryView>::empty());
        assert(missings_view(out@) + Seq::<MissingView>::empty() =~= missings_view(out@));
    }
    out
}

/// The separator between folder labels in a displayed chain.
pub open spec fn chain_separator() -> Seq<char> {
    " > "@
}

/// The folder labels of a chain joined by the separator.
pub open spec fn joined_names(s: Seq<FolderView>) -> Seq<char>
    decreases s,
{
    if s.len() == 0 {
        Seq::empty()
    } else if s.len() == 1 {
        s[0].name
    } else {
        s[0].name + chain_separator() + joined_names(s.drop_first())
    }
}

/// Extending a joined chain by one label appends one separator and that
/// label.
proof fn lemma_joined_step(s: Seq<FolderView>, i: int)
    requires
        1 <= i < s.len(),
    ensures
        joined_names(s.take(i + 1)) == joined_names(s.take(i)) + chain_separator() + s[i].name,
    decreases i,
{
    let u = s.take(i + 1);
    let v = s.take(i);
    if i == 1 {
        assert(u.drop_first() =~= seq![s[1]]);
        assert(joined_names(u.drop_first()) == s[1].name);
        assert(v =~= seq![s[0]]);
        assert(joined_names(u) =~= joined_names(v) + chain_separator() + s[i].name);
    } else {
        let d = s.drop_first();
        assert(u.drop_first() =~= d.take(i));
        assert(v.drop_first() =~= d.take(i - 1));
        lemma_joined_step(d, i - 1);
        assert(d[i - 1] == s[i]);
        assert(d.take(i - 1 + 1) == d.take(i));
        assert(joined_names(u) == s[0].name + chain_separator() + joined_names(d.take(i)));
        assert(joined_names(d.take(i)) == joined_names(d.take(i - 1)) + chain_separator()
            + s[i].name);
        assert(joined_names(v) == s[0].name + chain_separator() + joined_names(d.take(i - 1)));
        assert(joined_names(u) =~= joined_names(v) + chain_separator() + s[i].name);
    }
}

/// The folder labels of a chain joined by ` > `, the form the diff is
/// displayed in.
pub fn joined_path(path: &Vec<FolderInfo>) -> (r: String)
    ensures
        r@ == joined_names(folders_view(path@)),
{
    let ghost fs = folders_view(path@);
    let mut out = String::new();
    let mut i: usize = 0;
    while i < path.len()
        invariant
            i <= path@.len(),
            fs == folders_view(path@),
            fs.len() == path@.len(),
            out@ == joined_names(fs.take(i as int)),
        decreases path@.len() - i,
    {
        if i > 0 {
            out.append(" > ");
            proof {
                reveal_strlit(" > ");
            }
        }
        out.append(path[i].name.as_str());
        proof {
            if i == 0 {
                assert(fs.take(1) =~= seq![fs[0]]);
                assert(joined_names(fs.take(1)) == fs[0].name);
                assert(joined_names(fs.take(0int)) =~= Seq::<char>::empty());
                assert(out@ =~= joined_names(fs.take(1)));
            } else {
                lemma_joined_step(fs, i as int);
                assert(fs[i as int].name == path@[i as int].name@);
                assert(out@ =~= joined_names(fs.take(i as int)) + chain_separator() + fs[
                    i as int
                ].name);
            }
        }
        i = i + 1;
    }
    proof {
        assert(fs.take(fs.len() as int) =~= fs);
    }
    out
}

/// Whether some diff report carries `id`.
pub open spec fn missing_has_id(ms: Seq<MissingView>, id: Seq<char>) -> bool {
    exists|k: int| 0 <= k < ms.len() && ms[k].id == id
}

/// Diff correctness: the diff holds exactly the identifiers present in the
/// source bucket and absent from the target bucket, and — when the source
/// bucket keeps identifiers unique — holds each at most once.
pub proof fn lemma_missing_exact(s: Seq<EntryView>, t: Seq<EntryView>, id: Seq<char>)
    ensures
        missing_has_id(missing_spec(s, t), id) <==> (find_entry(s, id) is Some && find_entry(
            t,
            id,
        ) is None),
    decreases s,
{
    if s.len() > 0 {
        lemma_missing_exact(s.drop_first(), t, id);
        let rest = missing_spec(s.drop_first(), t);
        let ms = missing_spec(s, t);
        if find_entry(t, s[0].id) is None {
            assert(ms == seq![missing_of(s[0])] + rest);
            assert forall|k: int| 0 <= k < rest.len() implies ms[k + 1] == rest[k] by {}
            if missing_has_id(ms, id) {
                let k = choose|k: int| 0 <= k < ms.len() && ms[k].id == id;
                if k > 0 {
                    assert(rest[k - 1].id == id);
                    assert(missing_has_id(rest, id));
                } else {
                    assert(s[0].id == id);
                }
            }
            if missing_has_id(rest, id) {
                let k = choose|k: int| 0 <= k < rest.len() && rest[k].id == id;
                assert(ms[k + 1].id == id);
                assert(missing_has_id(ms, id));
            }
            if s[0].id == id {
                assert(ms[0].id == id);
                assert(missing_has_id(ms, id));
            }
        } else {
            assert(ms == rest);
            if id == s[0].id {
                lemma_find_entry_props(t, id);
            }
        }
    }
}

/// The diff is a function of the two view buckets alone, so repeated calls
/// on unchanged inputs give the identical report, in the identical order.
pub proof fn lemma_missing_stable(
    s1: Seq<EntryView>,
    t1: Seq<EntryView>,
    s2: Seq<EntryView>,
    t2: Seq<EntryView>,
)
    requires
        s1 == s2,
        t1 == t2,
    ensures
        missing_spec(s1, t1) == missing_spec(s2, t2),
{
}

/// Diff reports repeat no identifier when the source bucket keeps
/// identifiers unique.
pub proof fn lemma_missing_unique(s: Seq<EntryView>, t: Seq<EntryView>)
    requires
        unique_ids(s),
    ensures
        forall|i: int, j: int|
            0 <= i < j < missing_spec(s, t).len() ==> missing_spec(s, t)[i].id != missing_spec(
                s,
                t,
            )[j].id,
    decreases s,
{
    let ms = missing_spec(s, t);
    if s.len() > 0 {
        assert forall|x: int, y: int|
            0 <= x < y < s.drop_first().len() implies s.drop_first()[x].id
            != s.drop_first()[y].id by {
            assert(s[x + 1].id != s[y + 1].id);
        }
        lemma_missing_unique(s.drop_first(), t);
        let rest = missing_spec(s.drop_first(), t);
        if find_entry(t, s[0].id) is None {
            assert forall|k: int| 0 <= k < rest.len() implies ms[k + 1] == rest[k] by {}
            assert forall|j: int| 1 <= j < ms.len() implies ms[0].id != (#[trigger] ms[j]).id by {
                lemma_missing_in_source(s.drop_first(), t, j - 1);
                let w = choose|w: int|
                    0 <= w < s.drop_first().len() && s.drop_first()[w].id == rest[j - 1].id;
                assert(s[w + 1].id == rest[j - 1].id);
                assert(s[0].id != s[w + 1].id);
            }
        }
    }
}

/// Every diff report's identifier names some entry of the source bucket.
pub proof fn lemma_missing_in_source(s: Seq<EntryView>, t: Seq<EntryView>, k: int)
    requires
        0 <= k < missing_spec(s, t).len(),
    ensures
        exists|w: int|
            0 <= w < s.len() && s[w].id == missing_spec(s, t)[k].id,
    decreases s,
{
    let ms = missing_spec(s, t);
    if s.len() > 0 {
        let rest = missing_spec(s.drop_first(), t);
        if find_entry(t, s[0].id) is None {
            if k == 0 {
                assert(s[0].id == ms[0].id);
            } else {
                lemma_missing_in_source(s.drop_first(), t, k - 1);
                let w = choose|w: int|
                    0 <= w < s.drop_first().len() && s.drop_first()[w].id == rest[k - 1].id;
                assert(s[w + 1].id == ms[k].id);
            }
        } else {
            lemma_missing_in_source(s.drop_first(), t, k);
            let w = choose|w: int|
                0 <= w < s.drop_first().len() && s.drop_first()[w].id == rest[k].id;
            assert(s[w + 1].id == ms[k].id);
        }
    }
}

} // verus!
