//! The folder path resolver: find, or create, the chain of named folders a
//! node belongs under, and the fallback category folder used when a node has
//! no recorded chain.

use vstd::prelude::*;

use crate::model::ArchiModel;
use crate::model::FolderInfo;
use crate::model::FolderView;
use crate::model::folders_view;
use crate::model::is_folder_node;
use crate::model::opt_or_empty;
use crate::tree::Attr;
use crate::tree::AttrView;
use crate::tree::NodeView;
use crate::tree::append_at_spec;
use crate::tree::node_at_spec;
use crate::tree::XmlNode;
use crate::tree::attrs_view;
use crate::tree::lemma_nodes_view_index;
use crate::tree::lemma_nodes_view_len;
use crate::tree::nodes_view;
use crate::tree::path_view;
use crate::tree::str_eq;
use crate::tree::valid_path;
use crate::tree::with_children;

verus! {

/// Whether a child is the folder a chain level named `name` descends into:
/// folders are addressed by their `name` attribute.
pub open spec fn chain_match(c: NodeView, name: Seq<char>) -> bool {
    is_folder_node(c) && c.attr("name"@) == Some(name)
}

/// The first child a chain level named `name` descends into, if any.
pub open spec fn find_chain_idx(cs: Seq<NodeView>, name: Seq<char>) -> Option<int>
    decreases cs,
{
    if cs.len() == 0 {
        None
    } else if chain_match(cs[0], name) {
        Some(0)
    } else {
        match find_chain_idx(cs.drop_first(), name) {
            None => None,
            Some(j) => Some(j + 1),
        }
    }
}

/// What a `find_chain_idx` answer means position by position.
pub proof fn lemma_find_chain_props(cs: Seq<NodeView>, name: Seq<char>)
    ensures
        match find_chain_idx(cs, name) {
            Some(i) => 0 <= i < cs.len() && chain_match(cs[i], name) && (forall|j: int|
                0 <= j < i ==> !chain_match(cs[j], name)),
            None => forall|j: int| 0 <= j < cs.len() ==> !chain_match(cs[j], name),
        },
    decreases cs,
{
    if cs.len() > 0 && !chain_match(cs[0], name) {
        lemma_find_chain_props(cs.drop_first(), name);
        assert forall|j: int| 1 <= j < cs.len() implies cs[j] == cs.drop_first()[j - 1] by {}
    }
}

/// A scan that stopped at the first match found what `find_chain_idx` names.
pub proof fn lemma_find_chain_at(cs: Seq<NodeView>, name: Seq<char>, i: int)
    requires
        0 <= i < cs.len(),
        chain_match(cs[i], name),
        forall|j: int| 0 <= j < i ==> !chain_match(cs[j], name),
    ensures
        find_chain_idx(cs, name) == Some(i),
    decreases cs,
{
    if i > 0 {
        lemma_find_chain_at(cs.drop_first(), name, i - 1);
    }
}

/// A scan that matched nowhere means `find_chain_idx` answers `None`.
pub proof fn lemma_find_chain_absent(cs: Seq<NodeView>, name: Seq<char>)
    requires
        forall|j: int| 0 <= j < cs.len() ==> !chain_match(cs[j], name),
    ensures
        find_chain_idx(cs, name) is None,
    decreases cs,
{
    if cs.len() > 0 {
        lemma_find_chain_absent(cs.drop_first(), name);
    }
}

/// The folder node created for a chain level that does not exist yet.  It
/// reuses the source's folder identifier verbatim, keeping cross-model
/// folder correlation possible.
pub open spec fn new_folder_node(seg: FolderView) -> NodeView {
    NodeView::Element {
        name: "folder"@,
        attrs: seq![
            AttrView { key: "name"@, value: seg.name },
            AttrView { key: "id"@, value: seg.id },
        ],
        children: Seq::empty(),
    }
}

/// The tree after finding or creating the whole folder chain `segs`, paired
/// with the child-index path that leads to the chain's last folder.
pub open spec fn fc_spec(nv: NodeView, segs: Seq<FolderView>) -> (NodeView, Seq<int>)
    decreases segs.len(),
{
    if segs.len() == 0 {
        (nv, Seq::empty())
    } else {
        match find_chain_idx(nv.children(), segs[0].name) {
            Some(i) => {
                let r = fc_spec(nv.children()[i], segs.drop_first());
                (with_children(nv, nv.children().update(i, r.0)), seq![i] + r.1)
            },
            None => {
                let r = fc_spec(new_folder_node(segs[0]), segs.drop_first());
                (
                    with_children(nv, nv.children().push(r.0)),
                    seq![nv.children().len() as int] + r.1,
                )
            },
        }
    }
}

/// Resolving a chain never changes a node's kind, name or attributes, only
/// its children.
pub proof fn lemma_fc_header(nv: NodeView, segs: Seq<FolderView>)
    ensures
        fc_spec(nv, segs).0.is_element() == nv.is_element(),
        nv.is_element() ==> fc_spec(nv, segs).0.name() == nv.name(),
        fc_spec(nv, segs).0.attrs() == nv.attrs(),
{
}

/// The names of the nodes along a child-index path, one per step.
pub open spec fn names_along(nv: NodeView, path: Seq<int>) -> Seq<Seq<char>>
    recommends
        valid_path(nv, path),
    decreases path.len(),
{
    if path.len() == 0 {
        Seq::empty()
    } else {
        let c = nv.children()[path[0]];
        seq![opt_or_empty(c.attr("name"@))] + names_along(c, path.drop_first())
    }
}

/// The names of a chain's levels.
pub open spec fn seg_names(segs: Seq<FolderView>) -> Seq<Seq<char>> {
    segs.map_values(|f: FolderView| f.name)
}

/// Resolving a chain yields a path that is valid in the resolved tree and
/// whose folder names are exactly the chain's names.
pub proof fn lemma_fc_valid(nv: NodeView, segs: Seq<FolderView>)
    requires
        nv.is_element(),
    ensures
        valid_path(fc_spec(nv, segs).0, fc_spec(nv, segs).1),
        names_along(fc_spec(nv, segs).0, fc_spec(nv, segs).1) == seg_names(segs),
    decreases segs.len(),
{
    let r = fc_spec(nv, segs);
    if segs.len() == 0 {
        assert(names_along(r.0, r.1) =~= seg_names(segs));
    } else {
        lemma_find_chain_props(nv.children(), segs[0].name);
        match find_chain_idx(nv.children(), segs[0].name) {
            Some(i) => {
                let sub = fc_spec(nv.children()[i], segs.drop_first());
                lemma_fc_valid(nv.children()[i], segs.drop_first());
                lemma_fc_header(nv.children()[i], segs.drop_first());
                assert(r.0.children() == nv.children().update(i, sub.0));
                assert(r.1 == seq![i] + sub.1);
                assert(r.1[0] == i);
                assert(r.1.drop_first() =~= sub.1);
                assert(r.0.children()[i] == sub.0);
                assert(sub.0.attr("name"@) == nv.children()[i].attr("name"@));
                assert(opt_or_empty(sub.0.attr("name"@)) == segs[0].name);
                assert(names_along(r.0, r.1) =~= seg_names(segs)) by {
                    assert(names_along(r.0, r.1) == seq![opt_or_empty(sub.0.attr("name"@))]
                        + names_along(sub.0, sub.1));
                    assert(names_along(sub.0, sub.1) == seg_names(segs.drop_first()));
                    assert(seg_names(segs.drop_first()) =~= seg_names(segs).drop_first());
                    assert(seg_names(segs)[0] == segs[0].name);
                }
            },
            None => {
                let nf = new_folder_node(segs[0]);
                let sub = fc_spec(nf, segs.drop_first());
                lemma_fc_valid(nf, segs.drop_first());
                lemma_fc_header(nf, segs.drop_first());
                assert(r.0.children() == nv.children().push(sub.0));
                let n: int = nv.children().len() as int;
                assert(r.1 == seq![n] + sub.1);
                assert(r.1[0] == n);
                assert(r.1.drop_first() =~= sub.1);
                assert(r.0.children()[n] == sub.0);
                assert(sub.0.attrs() == nf.attrs());
                assert(nf.attr("name"@) == Some(segs[0].name));
                assert(opt_or_empty(sub.0.attr("name"@)) == segs[0].name);
                assert(names_along(r.0, r.1) =~= seg_names(segs)) by {
                    assert(names_along(r.0, r.1) == seq![opt_or_empty(sub.0.attr("name"@))]
                        + names_along(sub.0, sub.1));
                    assert(names_along(sub.0, sub.1) == seg_names(segs.drop_first()));
                    assert(seg_names(segs.drop_first()) =~= seg_names(segs).drop_first());
                    assert(seg_names(segs)[0] == segs[0].name);
                }
            },
        }
    }
}

/// Whether every step of a path descends into a folder node.
pub open spec fn chain_path(nv: NodeView, p: Seq<int>) -> bool
    decreases p.len(),
{
    p.len() == 0 || (0 <= p[0] < nv.children().len() && is_folder_node(nv.children()[p[0]])
        && chain_path(nv.children()[p[0]], p.drop_first()))
}

/// A resolved chain descends through folders only.
pub proof fn lemma_fc_chain_path(nv: NodeView, segs: Seq<FolderView>)
    requires
        nv.is_element(),
    ensures
        chain_path(fc_spec(nv, segs).0, fc_spec(nv, segs).1),
    decreases segs.len(),
{
    let r = fc_spec(nv, segs);
    if segs.len() > 0 {
        lemma_find_chain_props(nv.children(), segs[0].name);
        match find_chain_idx(nv.children(), segs[0].name) {
            Some(i) => {
                let sub = fc_spec(nv.children()[i], segs.drop_first());
                lemma_fc_chain_path(nv.children()[i], segs.drop_first());
                lemma_fc_header(nv.children()[i], segs.drop_first());
                assert(r.0.children()[i] == sub.0);
                assert(is_folder_node(sub.0));
                assert(r.1[0] == i);
                assert(r.1.drop_first() =~= sub.1);
            },
            None => {
                let nf = new_folder_node(segs[0]);
                let sub = fc_spec(nf, segs.drop_first());
                lemma_fc_chain_path(nf, segs.drop_first());
                lemma_fc_header(nf, segs.drop_first());
                let n: int = nv.children().len() as int;
                assert(r.0.children()[n] == sub.0);
                assert(is_folder_node(sub.0));
                assert(r.1[0] == n);
                assert(r.1.drop_first() =~= sub.1);
            },
        }
    }
}

/// Appending under a path never changes a node's kind, name or attributes,
/// only children.
pub proof fn lemma_append_header(nv: NodeView, p: Seq<int>, c: NodeView)
    ensures
        append_at_spec(nv, p, c).is_element() == nv.is_element(),
        nv.is_element() ==> append_at_spec(nv, p, c).name() == nv.name(),
        append_at_spec(nv, p, c).attrs() == nv.attrs(),
{
}

/// A non-empty folder path leads to a folder; an empty one stays at an
/// element root.
pub proof fn lemma_chain_path_target(nv: NodeView, p: Seq<int>)
    requires
        chain_path(nv, p),
        p.len() == 0 ==> nv.is_element(),
    ensures
        node_at_spec(nv, p).is_element(),
    decreases p.len(),
{
    if p.len() > 0 {
        lemma_chain_path_target(nv.children()[p[0]], p.drop_first());
    }
}

/// Appending under a path leaves the path valid and its names unchanged,
/// and adds the appended node as the path target's last child.
pub proof fn lemma_append_at_path(nv: NodeView, p: Seq<int>, c: NodeView)
    requires
        valid_path(nv, p),
        node_at_spec(nv, p).is_element(),
    ensures
        valid_path(append_at_spec(nv, p, c), p),
        names_along(append_at_spec(nv, p, c), p) == names_along(nv, p),
        node_at_spec(append_at_spec(nv, p, c), p).children() == node_at_spec(
            nv,
            p,
        ).children().push(c),
    decreases p.len(),
{
    let r = append_at_spec(nv, p, c);
    if p.len() == 0 {
        assert(names_along(r, p) =~= names_along(nv, p));
    } else {
        let a = p[0];
        let child = nv.children()[a];
        let child2 = append_at_spec(child, p.drop_first(), c);
        lemma_append_at_path(child, p.drop_first(), c);
        lemma_append_header(child, p.drop_first(), c);
        assert(r.children() == nv.children().update(a, child2));
        assert(r.children()[a] == child2);
        assert(names_along(r, p) == seq![opt_or_empty(child2.attr("name"@))] + names_along(
            child2,
            p.drop_first(),
        ));
        assert(child2.attr("name"@) == child.attr("name"@));
        assert(names_along(r, p) =~= names_along(nv, p));
    }
}

/// Resolving a chain moves no element sitting in a folder: a valid path,
/// the names along it, and any non-folder child of the node it leads to
/// stay exactly as they were.
pub proof fn lemma_fc_keeps_spot(
    nv: NodeView,
    segs: Seq<FolderView>,
    q: Seq<int>,
    snap: NodeView,
)
    requires
        valid_path(nv, q),
        node_at_spec(nv, q).children().contains(snap),
        !is_folder_node(snap),
    ensures
        valid_path(fc_spec(nv, segs).0, q),
        names_along(fc_spec(nv, segs).0, q) == names_along(nv, q),
        node_at_spec(fc_spec(nv, segs).0, q).children().contains(snap),
    decreases q.len(),
{
    let r = fc_spec(nv, segs);
    if segs.len() == 0 {
    } else {
        lemma_find_chain_props(nv.children(), segs[0].name);
        match find_chain_idx(nv.children(), segs[0].name) {
            Some(i) => {
                let sub = fc_spec(nv.children()[i], segs.drop_first());
                lemma_fc_header(nv.children()[i], segs.drop_first());
                assert(r.0.children() == nv.children().update(i, sub.0));
                if q.len() == 0 {
                    let m = choose|m: int|
                        0 <= m < nv.children().len() && nv.children()[m] == snap;
                    assert(m != i) by {
                        assert(chain_match(nv.children()[i], segs[0].name));
                    }
                    assert(r.0.children()[m] == snap);
                    assert(r.0.children().contains(snap));
                    assert(names_along(r.0, q) =~= names_along(nv, q));
                } else {
                    let j = q[0];
                    if j == i {
                        lemma_fc_keeps_spot(nv.children()[i], segs.drop_first(), q.drop_first(), snap);
                        assert(r.0.children()[j] == sub.0);
                        assert(names_along(r.0, q) == seq![opt_or_empty(sub.0.attr("name"@))]
                            + names_along(sub.0, q.drop_first()));
                        assert(sub.0.attr("name"@) == nv.children()[i].attr("name"@));
                        assert(names_along(r.0, q) =~= names_along(nv, q));
                    } else {
                        assert(r.0.children()[j] == nv.children()[j]);
                        assert(names_along(r.0, q) =~= names_along(nv, q));
                    }
                }
            },
            None => {
                if nv.is_element() {
                    let nf = new_folder_node(segs[0]);
                    let sub = fc_spec(nf, segs.drop_first());
                    assert(r.0.children() == nv.children().push(sub.0));
                    if q.len() == 0 {
                        let m = choose|m: int|
                            0 <= m < nv.children().len() && nv.children()[m] == snap;
                        assert(r.0.children()[m] == snap);
                        assert(r.0.children().contains(snap));
                        assert(names_along(r.0, q) =~= names_along(nv, q));
                    } else {
                        let j = q[0];
                        assert(r.0.children()[j] == nv.children()[j]);
                        assert(names_along(r.0, q) =~= names_along(nv, q));
                    }
                } else {
                    assert(r.0 == nv);
                }
            },
        }
    }
}

/// Appending a node under a folder chain moves no element sitting in any
/// folder: a valid path, the names along it, and any non-folder child of
/// the node it leads to stay present.
pub proof fn lemma_append_keeps_spot(
    nv: NodeView,
    p: Seq<int>,
    c: NodeView,
    q: Seq<int>,
    snap: NodeView,
)
    requires
        chain_path(nv, p),
        valid_path(nv, q),
        node_at_spec(nv, q).children().contains(snap),
        !is_folder_node(snap),
    ensures
        valid_path(append_at_spec(nv, p, c), q),
        names_along(append_at_spec(nv, p, c), q) == names_along(nv, q),
        node_at_spec(append_at_spec(nv, p, c), q).children().contains(snap),
    decreases q.len(),
{
    let r = append_at_spec(nv, p, c);
    if p.len() == 0 {
        assert(r.children() == nv.children().push(c));
        if q.len() == 0 {
            let m = choose|m: int| 0 <= m < nv.children().len() && nv.children()[m] == snap;
            assert(r.children()[m] == snap);
            assert(r.children().contains(snap));
            assert(names_along(r, q) =~= names_along(nv, q));
        } else {
            let j = q[0];
            assert(r.children()[j] == nv.children()[j]);
            assert(names_along(r, q) =~= names_along(nv, q));
        }
    } else {
        let a = p[0];
        let child = nv.children()[a];
        let child2 = append_at_spec(child, p.drop_first(), c);
        lemma_append_header(child, p.drop_first(), c);
        assert(r.children() == nv.children().update(a, child2));
        if q.len() == 0 {
            let m = choose|m: int| 0 <= m < nv.children().len() && nv.children()[m] == snap;
            assert(m != a) by {
                assert(is_folder_node(nv.children()[a]));
            }
            assert(r.children()[m] == snap);
            assert(r.children().contains(snap));
            assert(names_along(r, q) =~= names_along(nv, q));
        } else {
            let j = q[0];
            if j == a {
                lemma_append_keeps_spot(child, p.drop_first(), c, q.drop_first(), snap);
                assert(r.children()[j] == child2);
                assert(names_along(r, q) == seq![opt_or_empty(child2.attr("name"@))]
                    + names_along(child2, q.drop_first()));
                assert(child2.attr("name"@) == child.attr("name"@));
                assert(names_along(r, q) =~= names_along(nv, q));
            } else {
                assert(r.children()[j] == nv.children()[j]);
                assert(names_along(r, q) =~= names_along(nv, q));
            }
        }
    }
}

/// Idempotent folder resolution: resolving the same chain against the tree
/// that a first resolution produced changes nothing and answers the same
/// path, so no duplicate sibling folders are ever created.
pub proof fn lemma_fc_idempotent(nv: NodeView, segs: Seq<FolderView>)
    ensures
        fc_spec(fc_spec(nv, segs).0, segs) == fc_spec(nv, segs),
    decreases segs.len(),
{
    if segs.len() > 0 {
        let name = segs[0].name;
        let rest = segs.drop_first();
        lemma_find_chain_props(nv.children(), name);
        match find_chain_idx(nv.children(), name) {
            Some(i) => {
                let sub = fc_spec(nv.children()[i], rest);
                let t1 = fc_spec(nv, segs).0;
                lemma_fc_idempotent(nv.children()[i], rest);
                lemma_fc_header(nv.children()[i], rest);
                assert(chain_match(sub.0, name));
                assert(t1.children() == nv.children().update(i, sub.0));
                assert forall|j: int| 0 <= j < i implies !chain_match(t1.children()[j], name) by {
                    assert(t1.children()[j] == nv.children()[j]);
                }
                lemma_find_chain_at(t1.children(), name, i);
                let sub2 = fc_spec(t1.children()[i], rest);
                assert(t1.children()[i] == sub.0);
                assert(sub2 == sub);
                assert(t1.children().update(i, sub.0) =~= t1.children());
                assert(nv.is_element());
                assert(with_children(t1, t1.children()) == t1);
                assert(fc_spec(t1, segs) == fc_spec(nv, segs));
            },
            None => {
                if nv.is_element() {
                    let nf = new_folder_node(segs[0]);
                    let sub = fc_spec(nf, rest);
                    let t1 = fc_spec(nv, segs).0;
                    let n: int = nv.children().len() as int;
                    lemma_fc_idempotent(nf, rest);
                    lemma_fc_header(nf, rest);
                    assert(nf.attr("name"@) == Some(name));
                    assert(sub.0.attr("name"@) == Some(name));
                    assert(chain_match(sub.0, name));
                    assert(t1.children() == nv.children().push(sub.0));
                    assert forall|j: int| 0 <= j < n implies !chain_match(
                        t1.children()[j],
                        name,
                    ) by {
                        assert(t1.children()[j] == nv.children()[j]);
                    }
                    lemma_find_chain_at(t1.children(), name, n);
                    let sub2 = fc_spec(t1.children()[n], rest);
                    assert(t1.children()[n] == sub.0);
                    assert(sub2 == sub);
                    assert(t1.children().update(n, sub.0) =~= t1.children());
                    assert(with_children(t1, t1.children()) == t1);
                    assert(fc_spec(t1, segs).1 =~= fc_spec(nv, segs).1);
                    assert(fc_spec(t1, segs) == fc_spec(nv, segs));
                } else {
                    assert(fc_spec(nv, segs).0 == nv);
                }
            },
        }
    }
}

/// Whether a child is the category folder for `ftype`: a folder whose
/// `type` attribute equals the category tag.
pub open spec fn category_match(c: NodeView, ftype: Seq<char>) -> bool {
    is_folder_node(c) && c.attr("type"@) == Some(ftype)
}

/// The first category folder for `ftype`, if any.
pub open spec fn find_category_idx(cs: Seq<NodeView>, ftype: Seq<char>) -> Option<int>
    decreases cs,
{
    if cs.len() == 0 {
        None
    } else if category_match(cs[0], ftype) {
        Some(0)
    } else {
        match find_category_idx(cs.drop_first(), ftype) {
            None => None,
            Some(j) => Some(j + 1),
        }
    }
}

/// A scan that stopped at the first match found what `find_category_idx`
/// names.
pub proof fn lemma_find_category_at(cs: Seq<NodeView>, ftype: Seq<char>, i: int)
    requires
        0 <= i < cs.len(),
        category_match(cs[i], ftype),
        forall|j: int| 0 <= j < i ==> !category_match(cs[j], ftype),
    ensures
        find_category_idx(cs, ftype) == Some(i),
    decreases cs,
{
    if i > 0 {
        lemma_find_category_at(cs.drop_first(), ftype, i - 1);
    }
}

/// A scan that matched nowhere means `find_category_idx` answers `None`.
pub proof fn lemma_find_category_absent(cs: Seq<NodeView>, ftype: Seq<char>)
    requires
        forall|j: int| 0 <= j < cs.len() ==> !category_match(cs[j], ftype),
    ensures
        find_category_idx(cs, ftype) is None,
    decreases cs,
{
    if cs.len() > 0 {
        lemma_find_category_absent(cs.drop_first(), ftype);
    }
}

/// The human-readable label of a category folder, from the fixed
/// category-to-label table.
pub open spec fn category_label(ftype: Seq<char>) -> Seq<char> {
    if ftype == "business"@ {
        "Business"@
    } else if ftype == "application"@ {
        "Application"@
    } else if ftype == "technology"@ {
        "Technology & Physical"@
    } else if ftype == "strategy"@ {
        "Strategy"@
    } else if ftype == "motivation"@ {
        "Motivation"@
    } else if ftype == "implementation_migration"@ {
        "Implementation & Migration"@
    } else if ftype == "relations"@ {
        "Relations"@
    } else if ftype == "diagrams"@ {
        "Views"@
    } else {
        "Other"@
    }
}

/// The human-readable label of a category folder.
pub fn category_label_text(folder_type: &str) -> (r: String)
    ensures
        r@ == category_label(folder_type@),
{
    if str_eq(folder_type, "business") {
        "Business".to_owned()
    } else if str_eq(folder_type, "application") {
        "Application".to_owned()
    } else if str_eq(folder_type, "technology") {
        "Technology & Physical".to_owned()
    } else if str_eq(folder_type, "strategy") {
        "Strategy".to_owned()
    } else if str_eq(folder_type, "motivation") {
        "Motivation".to_owned()
    } else if str_eq(folder_type, "implementation_migration") {
        "Implementation & Migration".to_owned()
    } else if str_eq(folder_type, "relations") {
        "Relations".to_owned()
    } else if str_eq(folder_type, "diagrams") {
        "Views".to_owned()
    } else {
        "Other".to_owned()
    }
}

/// The category folder created when none carries the tag yet: it gets the
/// tag, a freshly generated identifier, and the tag's label as its name.
pub open spec fn new_category_node(ftype: Seq<char>, fresh_id: Seq<char>) -> NodeView {
    NodeView::Element {
        name: "folder"@,
        attrs: seq![
            AttrView { key: "type"@, value: ftype },
            AttrView { key: "id"@, value: fresh_id },
            AttrView { key: "name"@, value: category_label(ftype) },
        ],
        children: Seq::empty(),
    }
}

/// The tree after finding or creating the category folder for `ftype`,
/// paired with the top-level child index of that folder.
pub open spec fn cat_spec(nv: NodeView, ftype: Seq<char>, fresh_id: Seq<char>) -> (NodeView, int) {
    match find_category_idx(nv.children(), ftype) {
        Some(i) => (nv, i),
        None => (
            with_children(nv, nv.children().push(new_category_node(ftype, fresh_id))),
            nv.children().len() as int,
        ),
    }
}

/// Relies on `uuid::Uuid::new_v4` and its `Display` form: a freshly drawn
/// random version-4 UUID, rendered hyphenated as 36 characters.  Nothing
/// further can be promised of a random value.
#[verifier::external_body]
fn fresh_uuid_string() -> (r: String)
    ensures
        r@.len() == 36,
{
    uuid::Uuid::new_v4().to_string()
}

/// Find the first child folder whose `name` attribute is `name`, as
/// `find_chain_idx` names it.
fn find_chain_child(children: &Vec<XmlNode>, name: &str) -> (r: Option<usize>)
    ensures
        match r {
            Some(i) => i < children@.len() && find_chain_idx(nodes_view(children@), name@)
                == Some(i as int),
            None => find_chain_idx(nodes_view(children@), name@) is None,
        },
{
    let ghost cs = nodes_view(children@);
    proof {
        broadcast use lemma_nodes_view_index, lemma_nodes_view_len;

    }
    let mut i: usize = 0;
    while i < children.len()
        invariant
            i <= children.len(),
            cs == nodes_view(children@),
            cs.len() == children@.len(),
            forall|j: int| 0 <= j < i as int ==> !chain_match(cs[j], name@),
        decreases children.len() - i,
    {
        let child = &children[i];
        proof {
            broadcast use lemma_nodes_view_index, lemma_nodes_view_len;

            assert(child.deep() == cs[i as int]);
        }
        if child.name_is("folder") {
            if let Some(v) = child.get_attr("name") {
                if str_eq(v.as_str(), name) {
                    proof {
                        assert(chain_match(cs[i as int], name@));
                        lemma_find_chain_at(cs, name@, i as int);
                    }
                    return Some(i);
                }
            }
        }
        proof {
            assert(!chain_match(cs[i as int], name@));
        }
        i = i + 1;
    }
    proof {
        lemma_find_chain_absent(cs, name@);
    }
    None
}

/// Find or create the folder chain `segs`, from level `k` on, inside the
/// tree `node`; the tree comes back with the chain present, together with
/// the child-index path to the chain's last folder.
fn fc_exec(node: XmlNode, segs: &Vec<FolderInfo>, k: usize) -> (r: (XmlNode, Vec<usize>))
    requires
        k <= segs@.len(),
    ensures
        r.0.deep() == fc_spec(node.deep(), folders_view(segs@).skip(k as int)).0,
        path_view(r.1@) == fc_spec(node.deep(), folders_view(segs@).skip(k as int)).1,
    decreases segs@.len() - k,
{
    let ghost fs = folders_view(segs@).skip(k as int);
    if k == segs.len() {
        proof {
            assert(fs.len() == 0);
        }
        let path: Vec<usize> = Vec::new();
        proof {
            assert(path_view(path@) =~= Seq::<int>::empty());
        }
        (node, path)
    } else {
        proof {
            assert(fs[0] == segs@[k as int]@);
            assert(fs.drop_first() =~= folders_view(segs@).skip(k + 1));
        }
        match node {
            XmlNode::Element { name, attrs, mut children } => {
                proof {
                    broadcast use lemma_nodes_view_index, lemma_nodes_view_len;

                }
                let found = find_chain_child(&children, segs[k].name.as_str());
                match found {
                    Some(i) => {
                        let ghost before = children@;
                        let sub = children.remove(i);
                        let (sub2, rest_path) = fc_exec(sub, segs, k + 1);
                        children.insert(i, sub2);
                        proof {
                            broadcast use lemma_nodes_view_index, lemma_nodes_view_len;

                            assert(children@ =~= before.update(
                                i as int,
                                children@[i as int],
                            ));
                            assert(nodes_view(children@) =~= nodes_view(before).update(
                                i as int,
                                children@[i as int].deep(),
                            ));
                        }
                        let mut path: Vec<usize> = Vec::new();
                        path.push(i);
                        let mut tail = rest_path;
                        path.append(&mut tail);
                        let out = XmlNode::Element { name, attrs, children };
                        proof {
                            assert(path_view(path@) =~= seq![i as int] + path_view(
                                rest_path@,
                            ));
                            assert(out.deep() == fc_spec(node.deep(), fs).0);
                            assert(path_view(path@) == fc_spec(node.deep(), fs).1);
                        }
                        (out, path)
                    },
                    None => {
                        let seg_name = segs[k].name.clone();
                        let seg_id = segs[k].id.clone();
                        let mut new_attrs: Vec<Attr> = Vec::new();
                        new_attrs.push(Attr { key: "name".to_owned(), value: seg_name });
                        new_attrs.push(Attr { key: "id".to_owned(), value: seg_id });
                        let nf = XmlNode::Element {
                            name: "folder".to_owned(),
                            attrs: new_attrs,
                            children: Vec::new(),
                        };
                        proof {
                            assert(nf.deep().attrs() =~= new_folder_node(fs[0]).attrs());
                            assert(nf.deep().children() =~= Seq::<NodeView>::empty());
                            assert(nf.deep() == new_folder_node(fs[0]));
                        }
                        let idx = children.len();
                        let (sub2, rest_path) = fc_exec(nf, segs, k + 1);
                        let ghost before = children@;
                        children.push(sub2);
                        proof {
                            broadcast use lemma_nodes_view_index, lemma_nodes_view_len;

                            assert(nodes_view(children@) =~= nodes_view(before).push(
                                children@[idx as int].deep(),
                            ));
                        }
                        let mut path: Vec<usize> = Vec::new();
                        path.push(idx);
                        let mut tail = rest_path;
                        path.append(&mut tail);
                        let out = XmlNode::Element { name, attrs, children };
                        proof {
                            assert(path_view(path@) =~= seq![idx as int] + path_view(
                                rest_path@,
                            ));
                            assert(out.deep() == fc_spec(node.deep(), fs).0);
                            assert(path_view(path@) == fc_spec(node.deep(), fs).1);
                        }
                        (out, path)
                    },
                }
            },
            other => {
                let ghost onv = other.deep();
                proof {
                    assert(onv.children().len() == 0);
                    lemma_find_chain_absent(onv.children(), fs[0].name);
                }
                let seg_name = segs[k].name.clone();
                let seg_id = segs[k].id.clone();
                let mut new_attrs: Vec<Attr> = Vec::new();
                new_attrs.push(Attr { key: "name".to_owned(), value: seg_name });
                new_attrs.push(Attr { key: "id".to_owned(), value: seg_id });
                let nf = XmlNode::Element {
                    name: "folder".to_owned(),
                    attrs: new_attrs,
                    children: Vec::new(),
                };
                proof {
                    assert(nf.deep().attrs() =~= new_folder_node(fs[0]).attrs());
                    assert(nf.deep().children() =~= Seq::<NodeView>::empty());
                    assert(nf.deep() == new_folder_node(fs[0]));
                }
                let (_sub2, rest_path) = fc_exec(nf, segs, k + 1);
                let mut path: Vec<usize> = Vec::new();
                path.push(0);
                let mut tail = rest_path;
                path.append(&mut tail);
                proof {
                    assert(path_view(path@) =~= seq![0int] + path_view(rest_path@));
                    assert(fc_spec(onv, fs).0 == onv);
                }
                (other, path)
            },
        }
    }
}

/// Find the first top-level category folder for `ftype`, as
/// `find_category_idx` names it.
fn find_category_child(children: &Vec<XmlNode>, ftype: &str) -> (r: Option<usize>)
    ensures
        match r {
            Some(i) => i < children@.len() && find_category_idx(nodes_view(children@), ftype@)
                == Some(i as int),
            None => find_category_idx(nodes_view(children@), ftype@) is None,
        },
{
    let ghost cs = nodes_view(children@);
    proof {
        broadcast use lemma_nodes_view_index, lemma_nodes_view_len;

    }
    let mut i: usize = 0;
    while i < children.len()
        invariant
            i <= children.len(),
            cs == nodes_view(children@),
            cs.len() == children@.len(),
            forall|j: int| 0 <= j < i as int ==> !category_match(cs[j], ftype@),
        decreases children.len() - i,
    {
        let child = &children[i];
        proof {
            broadcast use lemma_nodes_view_index, lemma_nodes_view_len;

            assert(child.deep() == cs[i as int]);
        }
        if child.name_is("folder") {
            if let Some(v) = child.get_attr("type") {
                if str_eq(v.as_str(), ftype) {
                    proof {
                        assert(category_match(cs[i as int], ftype@));
                        lemma_find_category_at(cs, ftype@, i as int);
                    }
                    return Some(i);
                }
            }
        }
        proof {
            assert(!category_match(cs[i as int], ftype@));
        }
        i = i + 1;
    }
    proof {
        lemma_find_category_absent(cs, ftype@);
    }
    None
}

/// Look up, or create, the top-level category folder whose `type` attribute
/// is `folder_type`: the fallback used when a node has no recorded folder
/// chain.  A created folder gets a freshly generated identifier and the
/// category's label as its name.  The answer is the folder's top-level
/// child index.
pub fn find_or_create_folder(model: &mut ArchiModel, folder_type: &str) -> (r: usize)
    ensures
        final(model)@.elements == old(model)@.elements,
        final(model)@.views == old(model)@.views,
        exists|u: Seq<char>|
            final(model)@.tree == #[trigger] cat_spec(old(model)@.tree, folder_type@, u).0 && r
                as int == cat_spec(old(model)@.tree, folder_type@, u).1,
{
    let ghost t0 = model@.tree;
    let found = match &model.tree {
        XmlNode::Element { children, .. } => find_category_child(children, folder_type),
        _ => {
            proof {
                assert(t0.children().len() == 0);
                lemma_find_category_absent(t0.children(), folder_type@);
            }
            None
        },
    };
    match found {
        Some(i) => {
            proof {
                let u = Seq::<char>::empty();
                assert(cat_spec(t0, folder_type@, u).0 == t0);
                assert(cat_spec(t0, folder_type@, u).1 == i as int);
            }
            i
        },
        None => {
            let idx = match &model.tree {
                XmlNode::Element { children, .. } => {
                    proof {
                        broadcast use lemma_nodes_view_len;

                        assert(t0.children() == nodes_view(children@));
                    }
                    children.len()
                },
                _ => {
                    proof {
                        assert(t0.children().len() == 0);
                    }
                    0
                },
            };
            proof {
                assert(idx as int == t0.children().len());
            }
            let fresh = fresh_uuid_string();
            let prefix: String = "id-".to_owned();
            let fid = prefix.concat(fresh.as_str());
            let ghost u = fid@;
            let mut new_attrs: Vec<Attr> = Vec::new();
            new_attrs.push(Attr { key: "type".to_owned(), value: folder_type.to_owned() });
            new_attrs.push(Attr { key: "id".to_owned(), value: fid });
            new_attrs.push(
                Attr { key: "name".to_owned(), value: category_label_text(folder_type) },
            );
            let nf = XmlNode::Element {
                name: "folder".to_owned(),
                attrs: new_attrs,
                children: Vec::new(),
            };
            proof {
                assert(nf.deep().attrs() =~= new_category_node(folder_type@, u).attrs());
                assert(nf.deep().children() =~= Seq::<NodeView>::empty());
                assert(nf.deep() == new_category_node(folder_type@, u));
            }
            let mut t = XmlNode::Text { content: String::new() };
            core::mem::swap(&mut t, &mut model.tree);
            let empty_path: Vec<usize> = Vec::new();
            proof {
                assert(path_view(empty_path@) =~= Seq::<int>::empty());
            }
            let t2 = t.append_at(&empty_path, 0, nf);
            model.tree = t2;
            proof {
                assert(final(model)@.tree == cat_spec(t0, folder_type@, u).0);
                assert(idx as int == cat_spec(t0, folder_type@, u).1);
            }
            idx
        },
    }
}

/// Find or create, inside the target tree, the chain of folders whose
/// names are `folder_path`'s, creating each missing level with the source's
/// folder identifier; an empty chain falls back to the `diagrams` category
/// folder.  The answer is the child-index path to the resolved folder, the
/// same path whenever the same chain is resolved against the same tree.
pub fn recursive_find_or_create_folder_path(
    model: &mut ArchiModel,
    folder_path: &Vec<FolderInfo>,
) -> (r: Vec<usize>)
    ensures
        final(model)@.elements == old(model)@.elements,
        final(model)@.views == old(model)@.views,
        folder_path@.len() > 0 ==> final(model)@.tree == fc_spec(
            old(model)@.tree,
            folders_view(folder_path@),
        ).0 && path_view(r@) == fc_spec(old(model)@.tree, folders_view(folder_path@)).1,
        folder_path@.len() == 0 ==> (exists|u: Seq<char>|
            final(model)@.tree == #[trigger] cat_spec(old(model)@.tree, "diagrams"@, u).0
                && path_view(r@) == seq![cat_spec(old(model)@.tree, "diagrams"@, u).1]),
{
    if folder_path.len() == 0 {
        let i = find_or_create_folder(model, "diagrams");
        let mut path: Vec<usize> = Vec::new();
        path.push(i);
        proof {
            assert(path_view(path@) =~= seq![i as int]);
        }
        path
    } else {
        let mut t = XmlNode::Text { content: String::new() };
        core::mem::swap(&mut t, &mut model.tree);
        proof {
            assert(folders_view(folder_path@).skip(0) =~= folders_view(folder_path@));
        }
        let (t2, path) = fc_exec(t, folder_path, 0);
        model.tree = t2;
        path
    }
}

} // verus!
