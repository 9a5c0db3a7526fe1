//! The merge engine: given a view chosen from the diff, discover every
//! element and relationship the view references, copy the ones the target
//! lacks into the target tree under their source folder chains, then copy
//! the view itself, keeping the target's index in step with its tree.

use vstd::prelude::*;

use crate::folders::fc_spec;
use crate::folders::recursive_find_or_create_folder_path;
use crate::model::ArchiModel;
use crate::model::EntryView;
use crate::model::IndexMap;
use crate::model::MissingElementInfo;
use crate::model::ModelView;
use crate::model::find_entry;
use crate::model::folders_view;
use crate::model::lemma_find_entry_absent;
use crate::model::lemma_find_entry_at;
use crate::model::lemma_find_entry_props;
use crate::model::lemma_put_entry_wf;
use crate::model::lookup;
use crate::model::mv_wf;
use crate::model::put_entry;
use crate::folders::lemma_append_at_path;
use crate::folders::lemma_append_header;
use crate::folders::lemma_append_keeps_spot;
use crate::folders::lemma_chain_path_target;
use crate::folders::lemma_fc_chain_path;
use crate::folders::lemma_fc_header;
use crate::folders::lemma_fc_keeps_spot;
use crate::folders::lemma_fc_valid;
use crate::folders::names_along;
use crate::folders::seg_names;
use crate::model::is_folder_node;
use crate::tree::node_at_spec;
use crate::tree::valid_path;
use crate::tree::NodeView;
use crate::tree::XmlNode;
use crate::tree::append_at_spec;
use crate::tree::lemma_nodes_view_index;
use crate::tree::lemma_nodes_view_len;
use crate::tree::nodes_view;
use crate::tree::path_view;
use crate::tree::str_eq;

verus! {

/// What can go wrong during a merge.
#[derive(Debug, PartialEq, Eq, Structural)]
pub enum MergeError {
    /// The requested view identifier is not in the source index; merge
    /// identifiers must come from the diff.
    UnknownViewId,
}

/// The image of a list of identifier strings.
pub open spec fn strings_view(s: Seq<String>) -> Seq<Seq<char>> {
    s.map_values(|x: String| x@)
}

/// A collected reference list after noting one attribute value: an absent
/// attribute adds nothing, a value already collected is not repeated.
pub open spec fn add_ref(acc: Seq<Seq<char>>, o: Option<Seq<char>>) -> Seq<Seq<char>> {
    match o {
        None => acc,
        Some(v) => if acc.contains(v) {
            acc
        } else {
            acc.push(v)
        },
    }
}

/// The element and relationship identifier lists collected from a view's
/// subtree.
pub ghost struct RefSets {
    pub elements: Seq<Seq<char>>,
    pub relations: Seq<Seq<char>>,
}

/// The reference lists after visiting one node and everything below it:
/// the node's `archimateElement` and `archimateRelationship` attributes are
/// noted, then its children are visited in order.
pub open spec fn refs_node(nv: NodeView, acc: RefSets) -> RefSets
    decreases nv,
{
    let noted = RefSets {
        elements: add_ref(acc.elements, nv.attr("archimateElement"@)),
        relations: add_ref(acc.relations, nv.attr("archimateRelationship"@)),
    };
    match nv {
        NodeView::Element { children, .. } => refs_children(children, noted),
        _ => noted,
    }
}

/// The reference lists after visiting a run of sibling nodes in order.
pub open spec fn refs_children(cs: Seq<NodeView>, acc: RefSets) -> RefSets
    decreases cs,
{
    if cs.len() == 0 {
        acc
    } else {
        refs_children(cs.drop_first(), refs_node(cs[0], acc))
    }
}

/// Everything a view's subtree references.
pub open spec fn view_refs(nv: NodeView) -> RefSets {
    refs_node(nv, RefSets { elements: Seq::empty(), relations: Seq::empty() })
}

/// Note one attribute value in a collected list, skipping absent values
/// and values already collected.
fn note_ref(list: &mut Vec<String>, found: Option<String>)
    ensures
        strings_view(final(list)@) == add_ref(
            strings_view(old(list)@),
            match found {
                Some(v) => Some(v@),
                None => None,
            },
        ),
{
    let ghost before = strings_view(list@);
    match found {
        None => {},
        Some(v) => {
            let mut i: usize = 0;
            let mut present = false;
            while i < list.len() && !present
                invariant
                    i <= list.len(),
                    strings_view(list@) == before,
                    before == strings_view(old(list)@),
                    !present ==> forall|j: int| 0 <= j < i as int ==> before[j] != v@,
                    present ==> before.contains(v@),
                decreases (list.len() - i) + (if present {
                    0int
                } else {
                    1int
                }),
            {
                if str_eq(list[i].as_str(), v.as_str()) {
                    proof {
                        assert(before[i as int] == v@);
                    }
                    present = true;
                } else {
                    i = i + 1;
                }
            }
            if !present {
                proof {
                    assert(!before.contains(v@));
                }
                let ghost b2 = list@;
                list.push(v);
                proof {
                    assert(strings_view(list@) =~= strings_view(b2).push(v@));
                }
            }
        },
    }
}

/// Collect, from `children` on down, every referenced element and
/// relationship identifier into the two lists, first occurrence first,
/// without repetition.
fn refs_over_children(
    children: &Vec<XmlNode>,
    elements: &mut Vec<String>,
    relations: &mut Vec<String>,
)
    ensures
        (RefSets {
            elements: strings_view(final(elements)@),
            relations: strings_view(final(relations)@),
        }) == refs_children(
            nodes_view(children@),
            (RefSets {
                elements: strings_view(old(elements)@),
                relations: strings_view(old(relations)@),
            }),
        ),
    decreases *children,
{
    let ghost cs = nodes_view(children@);
    let ghost m0 = (RefSets {
        elements: strings_view(elements@),
        relations: strings_view(relations@),
    });
    proof {
        broadcast use lemma_nodes_view_index, lemma_nodes_view_len;

        assert(cs.skip(0) =~= cs);
    }
    let mut i: usize = 0;
    while i < children.len()
        invariant
            i <= children.len(),
            cs == nodes_view(children@),
            cs.len() == children@.len(),
            refs_children(cs, m0) == refs_children(
                cs.skip(i as int),
                (RefSets {
                    elements: strings_view(elements@),
                    relations: strings_view(relations@),
                }),
            ),
        decreases children.len() - i,
    {
        let ghost suffix = cs.skip(i as int);
        let ghost cur = (RefSets {
            elements: strings_view(elements@),
            relations: strings_view(relations@),
        });
        proof {
            broadcast use lemma_nodes_view_index, lemma_nodes_view_len;

            assert(suffix[0] == cs[i as int]);
            assert(suffix.drop_first() =~= cs.skip(i + 1));
        }
        let child = &children[i];
        proof {
            assert(child.deep() == cs[i as int]);
        }
        let elem_ref = child.get_attr("archimateElement");
        note_ref(elements, elem_ref);
        let rel_ref = child.get_attr("archimateRelationship");
        note_ref(relations, rel_ref);
        let ghost noted = (RefSets {
            elements: strings_view(elements@),
            relations: strings_view(relations@),
        });
        proof {
            assert(noted.elements == add_ref(cur.elements, cs[i as int].attr(
                "archimateElement"@,
            )));
            assert(noted.relations == add_ref(cur.relations, cs[i as int].attr(
                "archimateRelationship"@,
            )));
        }
        match child {
            XmlNode::Element { children: sub, .. } => {
                proof {
                    assert(cs[i as int].children() == nodes_view(sub@));
                }
                refs_over_children(sub, elements, relations);
            },
            _ => {
                proof {
                    assert(cs[i as int].children().len() == 0);
                }
            },
        }
        proof {
            assert((RefSets {
                elements: strings_view(elements@),
                relations: strings_view(relations@),
            }) == refs_node(cs[i as int], cur));
            assert(refs_children(suffix, cur) == refs_children(
                suffix.drop_first(),
                refs_node(suffix[0], cur),
            ));
        }
        i = i + 1;
    }
    proof {
        assert(cs.skip(cs.len() as int) =~= Seq::<NodeView>::empty());
    }
}

/// Collect the element and relationship identifiers a view's subtree
/// references: every node's `archimateElement` and
/// `archimateRelationship` attributes, in first-found order, without
/// repetition.
pub fn extract_references(
    node: &XmlNode,
    elements: &mut Vec<String>,
    relations: &mut Vec<String>,
)
    ensures
        (RefSets {
            elements: strings_view(final(elements)@),
            relations: strings_view(final(relations)@),
        }) == refs_node(
            node.deep(),
            (RefSets {
                elements: strings_view(old(elements)@),
                relations: strings_view(old(relations)@),
            }),
        ),
{
    let ghost cur = (RefSets {
        elements: strings_view(elements@),
        relations: strings_view(relations@),
    });
    let elem_ref = node.get_attr("archimateElement");
    note_ref(elements, elem_ref);
    let rel_ref = node.get_attr("archimateRelationship");
    note_ref(relations, rel_ref);
    match node {
        XmlNode::Element { children: sub, .. } => {
            proof {
                assert(node.deep().children() == nodes_view(sub@));
            }
            refs_over_children(sub, elements, relations);
        },
        _ => {
            proof {
                assert(node.deep().children().len() == 0);
            }
        },
    }
}

/// The identifiers of `ids` that are absent from the entries `t`, in
/// order, one for each occurrence in `ids`.
pub open spec fn filter_missing(ids: Seq<Seq<char>>, t: Seq<EntryView>) -> Seq<Seq<char>>
    decreases ids,
{
    if ids.len() == 0 {
        Seq::empty()
    } else {
        (if find_entry(t, ids[0]) is None {
            seq![ids[0]]
        } else {
            Seq::<Seq<char>>::empty()
        }) + filter_missing(ids.drop_first(), t)
    }
}

/// Keep the identifiers that `map` does not hold yet.
fn keep_missing(ids: &Vec<String>, map: &IndexMap) -> (r: Vec<String>)
    ensures
        strings_view(r@) == filter_missing(strings_view(ids@), map@),
{
    let ghost all = strings_view(ids@);
    let mut out: Vec<String> = Vec::new();
    proof {
        assert(all.skip(0) =~= all);
        assert(strings_view(out@) + filter_missing(all, map@) =~= filter_missing(all, map@));
    }
    let mut i: usize = 0;
    while i < ids.len()
        invariant
            i <= ids.len(),
            all == strings_view(ids@),
            all.len() == ids@.len(),
            filter_missing(all, map@) == strings_view(out@) + filter_missing(
                all.skip(i as int),
                map@,
            ),
        decreases ids.len() - i,
    {
        let ghost suffix = all.skip(i as int);
        proof {
            assert(suffix[0] == all[i as int]);
            assert(suffix.drop_first() =~= all.skip(i + 1));
        }
        if !map.contains_id(ids[i].as_str()) {
            let ghost before = out@;
            out.push(ids[i].clone());
            proof {
                assert(strings_view(out@) =~= strings_view(before).push(all[i as int]));
                assert(strings_view(before).push(all[i as int]) + filter_missing(
                    all.skip(i + 1),
                    map@,
                ) =~= strings_view(before) + (seq![all[i as int]] + filter_missing(
                    all.skip(i + 1),
                    map@,
                )));
            }
        }
        i = i + 1;
    }
    proof {
        assert(all.skip(all.len() as int) =~= Seq::<Seq<char>>::empty());
        assert(strings_view(out@) + Seq::<Seq<char>>::empty() =~= strings_view(out@));
    }
    out
}

/// The target after one element or relationship is copied in: absent from
/// the source index, nothing changes; otherwise the source folder chain is
/// found or created in the target tree, the entry's snapshot is appended as
/// the chain folder's last child, and the entry is stored in the target's
/// element bucket at once.
pub open spec fn insert_one_spec(src_elems: Seq<EntryView>, t: ModelView, id: Seq<char>)
    -> ModelView {
    match find_entry(src_elems, id) {
        None => t,
        Some(i) => {
            let e = src_elems[i];
            let fc = fc_spec(t.tree, e.path);
            ModelView {
                tree: append_at_spec(fc.0, fc.1, e.snapshot),
                elements: put_entry(t.elements, e),
                views: t.views,
            }
        },
    }
}

/// The target after a run of identifiers is copied in, first to last.
pub open spec fn insert_ids_spec(src_elems: Seq<EntryView>, t: ModelView, ids: Seq<Seq<char>>)
    -> ModelView
    decreases ids,
{
    if ids.len() == 0 {
        t
    } else {
        insert_ids_spec(src_elems, insert_one_spec(src_elems, t, ids[0]), ids.drop_first())
    }
}

/// The target after the chosen view itself is copied in: its folder chain
/// is found or created, its snapshot appended there, and the entry stored
/// in the target's view bucket.
pub open spec fn insert_view_spec(src_views: Seq<EntryView>, t: ModelView, vid: Seq<char>)
    -> ModelView {
    match find_entry(src_views, vid) {
        None => t,
        Some(i) => {
            let e = src_views[i];
            let fc = fc_spec(t.tree, e.path);
            ModelView {
                tree: append_at_spec(fc.0, fc.1, e.snapshot),
                elements: t.elements,
                views: put_entry(t.views, e),
            }
        },
    }
}

/// The element identifiers a merge of `vid` copies: referenced by the
/// view, absent from the target's element bucket before the merge.
pub open spec fn new_elem_ids(s: ModelView, t: ModelView, vid: Seq<char>) -> Seq<Seq<char>> {
    match find_entry(s.views, vid) {
        None => Seq::empty(),
        Some(i) => filter_missing(view_refs(s.views[i].snapshot).elements, t.elements),
    }
}

/// The relationship identifiers a merge of `vid` copies.
pub open spec fn new_rel_ids(s: ModelView, t: ModelView, vid: Seq<char>) -> Seq<Seq<char>> {
    match find_entry(s.views, vid) {
        None => Seq::empty(),
        Some(i) => filter_missing(view_refs(s.views[i].snapshot).relations, t.elements),
    }
}

/// The whole merge of one view: the new elements are copied in, then the
/// new relationships, then the view itself.
pub open spec fn merge_spec(s: ModelView, t: ModelView, vid: Seq<char>) -> ModelView {
    match find_entry(s.views, vid) {
        None => t,
        Some(_) => insert_view_spec(
            s.views,
            insert_ids_spec(
                s.elements,
                insert_ids_spec(s.elements, t, new_elem_ids(s, t, vid)),
                new_rel_ids(s, t, vid),
            ),
            vid,
        ),
    }
}

/// Storing an entry under a fresh identifier moves no other entry: any
/// identifier but the stored one is found where it was, unchanged.
pub proof fn lemma_put_entry_other(es: Seq<EntryView>, e: EntryView, id: Seq<char>)
    requires
        e.id != id,
    ensures
        find_entry(put_entry(es, e), id) == find_entry(es, id),
        find_entry(es, id) matches Some(k) ==> put_entry(es, e)[k] == es[k],
{
    lemma_find_entry_props(es, id);
    lemma_find_entry_props(es, e.id);
    let pe = put_entry(es, e);
    match find_entry(es, e.id) {
        Some(i) => {
            match find_entry(es, id) {
                Some(k) => {
                    assert(pe[k] == es[k]);
                    assert forall|j: int| 0 <= j < k implies pe[j].id != id by {
                        if j != i {
                            assert(pe[j] == es[j]);
                        }
                    }
                    lemma_find_entry_at(pe, id, k);
                },
                None => {
                    assert forall|j: int| 0 <= j < pe.len() implies pe[j].id != id by {
                        if j != i {
                            assert(pe[j] == es[j]);
                        }
                    }
                    lemma_find_entry_absent(pe, id);
                },
            }
        },
        None => {
            match find_entry(es, id) {
                Some(k) => {
                    assert(pe[k] == es[k]);
                    assert forall|j: int| 0 <= j < k implies pe[j].id != id by {
                        assert(pe[j] == es[j]);
                    }
                    lemma_find_entry_at(pe, id, k);
                },
                None => {
                    assert forall|j: int| 0 <= j < pe.len() implies pe[j].id != id by {
                        if j < es.len() {
                            assert(pe[j] == es[j]);
                        } else {
                            assert(pe[j] == e);
                        }
                    }
                    lemma_find_entry_absent(pe, id);
                },
            }
        },
    }
}

/// After an entry is stored, its identifier is found.
pub proof fn lemma_put_entry_self(es: Seq<EntryView>, e: EntryView)
    ensures
        find_entry(put_entry(es, e), e.id) is Some,
        lookup(put_entry(es, e), e.id) == Some(e),
{
    lemma_find_entry_props(es, e.id);
    let pe = put_entry(es, e);
    match find_entry(es, e.id) {
        Some(i) => {
            assert(pe[i] == e);
            assert forall|j: int| 0 <= j < i implies pe[j].id != e.id by {
                assert(pe[j] == es[j]);
            }
            lemma_find_entry_at(pe, e.id, i);
        },
        None => {
            assert(pe[es.len() as int] == e);
            assert forall|j: int| 0 <= j < es.len() implies pe[j].id != e.id by {
                assert(pe[j] == es[j]);
            }
            lemma_find_entry_at(pe, e.id, es.len() as int);
        },
    }
}

/// Copying one identifier in preserves the presence of every identifier
/// already indexed, and an identifier other than the copied one keeps its
/// position and record.
pub proof fn lemma_insert_one_keeps(
    se: Seq<EntryView>,
    t: ModelView,
    cid: Seq<char>,
    id: Seq<char>,
)
    ensures
        find_entry(t.elements, id) is Some ==> find_entry(
            insert_one_spec(se, t, cid).elements,
            id,
        ) is Some,
        cid != id ==> match find_entry(t.elements, id) {
            Some(k) => find_entry(insert_one_spec(se, t, cid).elements, id) == Some(k)
                && insert_one_spec(se, t, cid).elements[k] == t.elements[k],
            None => true,
        },
{
    match find_entry(se, cid) {
        None => {},
        Some(i) => {
            lemma_find_entry_props(se, cid);
            let e = se[i];
            if e.id == id {
                lemma_put_entry_self(t.elements, e);
            } else {
                lemma_put_entry_other(t.elements, e, id);
            }
        },
    }
}

/// Copying a run of identifiers in preserves presence, and identifiers
/// outside the run keep their position and record.
pub proof fn lemma_insert_ids_keeps(
    se: Seq<EntryView>,
    t: ModelView,
    ids: Seq<Seq<char>>,
    id: Seq<char>,
)
    ensures
        find_entry(t.elements, id) is Some ==> find_entry(
            insert_ids_spec(se, t, ids).elements,
            id,
        ) is Some,
        (forall|j: int| 0 <= j < ids.len() ==> ids[j] != id) ==> match find_entry(
            t.elements,
            id,
        ) {
            Some(k) => find_entry(insert_ids_spec(se, t, ids).elements, id) == Some(k)
                && insert_ids_spec(se, t, ids).elements[k] == t.elements[k],
            None => true,
        },
    decreases ids,
{
    if ids.len() > 0 {
        lemma_insert_one_keeps(se, t, ids[0], id);
        lemma_insert_ids_keeps(se, insert_one_spec(se, t, ids[0]), ids.drop_first(), id);
        assert forall|j: int| 1 <= j < ids.len() implies ids[j] == ids.drop_first()[j - 1] by {}
    }
}

/// Every identifier the filter keeps is absent from the entries filtered
/// against, and every absent identifier of the list is kept.
pub proof fn lemma_filter_missing_exact(ids: Seq<Seq<char>>, tel: Seq<EntryView>, x: Seq<char>)
    ensures
        filter_missing(ids, tel).contains(x) <==> (ids.contains(x) && find_entry(tel, x) is None),
    decreases ids,
{
    let fm = filter_missing(ids, tel);
    if ids.len() > 0 {
        lemma_filter_missing_exact(ids.drop_first(), tel, x);
        let rest = filter_missing(ids.drop_first(), tel);
        if find_entry(tel, ids[0]) is None {
            assert(fm == seq![ids[0]] + rest);
            assert forall|j: int| 0 <= j < rest.len() implies fm[j + 1] == rest[j] by {}
            if fm.contains(x) {
                let j = choose|j: int| 0 <= j < fm.len() && fm[j] == x;
                if j == 0 {
                    assert(ids[0] == x);
                    assert(ids.contains(x));
                } else {
                    assert(rest[j - 1] == x);
                    assert(rest.contains(x));
                    let w = choose|w: int|
                        0 <= w < ids.drop_first().len() && ids.drop_first()[w] == x;
                    assert(ids[w + 1] == x);
                    assert(ids.contains(x));
                }
            }
            if ids.contains(x) && find_entry(tel, x) is None {
                let w = choose|w: int| 0 <= w < ids.len() && ids[w] == x;
                if w == 0 {
                    assert(fm[0] == x);
                } else {
                    assert(ids.drop_first()[w - 1] == x);
                    assert(ids.drop_first().contains(x));
                    assert(rest.contains(x));
                    let j = choose|j: int| 0 <= j < rest.len() && rest[j] == x;
                    assert(fm[j + 1] == x);
                }
            }
        } else {
            assert(fm == rest);
            if fm.contains(x) {
                let j = choose|j: int| 0 <= j < rest.len() && rest[j] == x;
                let w = choose|w: int| 0 <= w < ids.drop_first().len() && ids.drop_first()[w] == x;
                assert(ids[w + 1] == x);
                assert(ids.contains(x));
            }
            if ids.contains(x) && find_entry(tel, x) is None {
                let w = choose|w: int| 0 <= w < ids.len() && ids[w] == x;
                assert(w != 0);
                assert(ids.drop_first()[w - 1] == x);
                assert(ids.drop_first().contains(x));
            }
        }
    }
}

/// Copying a run of identifiers in indexes every identifier of the run
/// that the source holds.
pub proof fn lemma_insert_ids_adds(
    se: Seq<EntryView>,
    t: ModelView,
    ids: Seq<Seq<char>>,
    x: Seq<char>,
)
    requires
        ids.contains(x),
        find_entry(se, x) is Some,
    ensures
        find_entry(insert_ids_spec(se, t, ids).elements, x) is Some,
    decreases ids,
{
    let w = choose|w: int| 0 <= w < ids.len() && ids[w] == x;
    if w == 0 {
        lemma_find_entry_props(se, x);
        let i = find_entry(se, x).unwrap();
        lemma_put_entry_self(t.elements, se[i]);
        lemma_insert_ids_keeps(se, insert_one_spec(se, t, x), ids.drop_first(), x);
    } else {
        assert(ids.drop_first()[w - 1] == x);
        assert(ids.drop_first().contains(x));
        lemma_insert_ids_adds(se, insert_one_spec(se, t, ids[0]), ids.drop_first(), x);
    }
}

/// No duplication: whatever was indexed in the target before a merge is
/// never re-inserted by it — its entry keeps its position and its record,
/// however many views reference it.
pub proof fn lemma_merge_no_duplication(s: ModelView, t: ModelView, vid: Seq<char>, id: Seq<char>)
    requires
        find_entry(t.elements, id) is Some,
    ensures
        find_entry(merge_spec(s, t, vid).elements, id) == find_entry(t.elements, id),
        merge_spec(s, t, vid).elements[find_entry(t.elements, id).unwrap()] == t.elements[
            find_entry(t.elements, id).unwrap()
        ],
{
    lemma_find_entry_props(t.elements, id);
    let k = find_entry(t.elements, id).unwrap();
    match find_entry(s.views, vid) {
        None => {},
        Some(_) => {
            let ne = new_elem_ids(s, t, vid);
            let nr = new_rel_ids(s, t, vid);
            let t1 = insert_ids_spec(s.elements, t, ne);
            let t2 = insert_ids_spec(s.elements, t1, nr);
            assert forall|j: int| 0 <= j < ne.len() implies ne[j] != id by {
                assert(ne.contains(ne[j]));
                lemma_filter_missing_exact(view_refs(s.views[
                    find_entry(s.views, vid).unwrap()
                ].snapshot).elements, t.elements, ne[j]);
            }
            assert forall|j: int| 0 <= j < nr.len() implies nr[j] != id by {
                assert(nr.contains(nr[j]));
                lemma_filter_missing_exact(view_refs(s.views[
                    find_entry(s.views, vid).unwrap()
                ].snapshot).relations, t.elements, nr[j]);
            }
            lemma_insert_ids_keeps(s.elements, t, ne, id);
            lemma_insert_ids_keeps(s.elements, t1, nr, id);
            assert(merge_spec(s, t, vid).elements == t2.elements);
        },
    }
}

/// Transitive completeness: after a merge, every element or relationship
/// identifier the merged view references is indexed in the target,
/// provided the identifier was known at all — already indexed in the
/// target, or indexed in the source it is copied from.
pub proof fn lemma_merge_transitive_completeness(
    s: ModelView,
    t: ModelView,
    vid: Seq<char>,
    id: Seq<char>,
)
    requires
        find_entry(s.views, vid) is Some,
        view_refs(s.views[find_entry(s.views, vid).unwrap()].snapshot).elements.contains(id)
            || view_refs(s.views[find_entry(s.views, vid).unwrap()].snapshot).relations.contains(
            id,
        ),
        find_entry(s.elements, id) is Some || find_entry(t.elements, id) is Some,
    ensures
        find_entry(merge_spec(s, t, vid).elements, id) is Some,
{
    let snap = s.views[find_entry(s.views, vid).unwrap()].snapshot;
    let ne = new_elem_ids(s, t, vid);
    let nr = new_rel_ids(s, t, vid);
    let t1 = insert_ids_spec(s.elements, t, ne);
    let t2 = insert_ids_spec(s.elements, t1, nr);
    if find_entry(t.elements, id) is Some {
        lemma_insert_ids_keeps(s.elements, t, ne, id);
        lemma_insert_ids_keeps(s.elements, t1, nr, id);
    } else {
        if view_refs(snap).elements.contains(id) {
            lemma_filter_missing_exact(view_refs(snap).elements, t.elements, id);
            lemma_insert_ids_adds(s.elements, t, ne, id);
            lemma_insert_ids_keeps(s.elements, t1, nr, id);
        } else {
            lemma_filter_missing_exact(view_refs(snap).relations, t.elements, id);
            lemma_insert_ids_keeps(s.elements, t, ne, id);
            lemma_insert_ids_adds(s.elements, t1, nr, id);
        }
    }
    assert(merge_spec(s, t, vid).elements == t2.elements);
}

/// Whether a node sits, as a child, under a chain of folders carrying
/// exactly the given names.
pub open spec fn placed(tree: NodeView, names: Seq<Seq<char>>, snap: NodeView) -> bool {
    exists|q: Seq<int>|
        #![trigger valid_path(tree, q)]
        valid_path(tree, q) && names_along(tree, q) == names && node_at_spec(
            tree,
            q,
        ).children().contains(snap)
}

/// Copying one identifier in disturbs no element already sitting under a
/// folder chain, and keeps the tree rooted in an element.
pub proof fn lemma_insert_one_keeps_spot(
    se: Seq<EntryView>,
    t: ModelView,
    cid: Seq<char>,
    q: Seq<int>,
    snap: NodeView,
)
    requires
        t.tree.is_element(),
        valid_path(t.tree, q),
        node_at_spec(t.tree, q).children().contains(snap),
        !is_folder_node(snap),
    ensures
        insert_one_spec(se, t, cid).tree.is_element(),
        valid_path(insert_one_spec(se, t, cid).tree, q),
        names_along(insert_one_spec(se, t, cid).tree, q) == names_along(t.tree, q),
        node_at_spec(insert_one_spec(se, t, cid).tree, q).children().contains(snap),
{
    match find_entry(se, cid) {
        None => {},
        Some(i) => {
            let e = se[i];
            let fc = fc_spec(t.tree, e.path);
            lemma_fc_header(t.tree, e.path);
            lemma_fc_chain_path(t.tree, e.path);
            lemma_fc_keeps_spot(t.tree, e.path, q, snap);
            lemma_append_header(fc.0, fc.1, e.snapshot);
            lemma_append_keeps_spot(fc.0, fc.1, e.snapshot, q, snap);
        },
    }
}

/// Copying the view itself in disturbs no element already sitting under a
/// folder chain, and keeps the tree rooted in an element.
pub proof fn lemma_insert_view_keeps_spot(
    sv: Seq<EntryView>,
    t: ModelView,
    vid: Seq<char>,
    q: Seq<int>,
    snap: NodeView,
)
    requires
        t.tree.is_element(),
        valid_path(t.tree, q),
        node_at_spec(t.tree, q).children().contains(snap),
        !is_folder_node(snap),
    ensures
        insert_view_spec(sv, t, vid).tree.is_element(),
        valid_path(insert_view_spec(sv, t, vid).tree, q),
        names_along(insert_view_spec(sv, t, vid).tree, q) == names_along(t.tree, q),
        node_at_spec(insert_view_spec(sv, t, vid).tree, q).children().contains(snap),
{
    match find_entry(sv, vid) {
        None => {},
        Some(i) => {
            let e = sv[i];
            let fc = fc_spec(t.tree, e.path);
            lemma_fc_header(t.tree, e.path);
            lemma_fc_chain_path(t.tree, e.path);
            lemma_fc_keeps_spot(t.tree, e.path, q, snap);
            lemma_append_header(fc.0, fc.1, e.snapshot);
            lemma_append_keeps_spot(fc.0, fc.1, e.snapshot, q, snap);
        },
    }
}

/// Copying a run of identifiers in disturbs no element already sitting
/// under a folder chain.
pub proof fn lemma_insert_ids_keeps_spot(
    se: Seq<EntryView>,
    t: ModelView,
    ids: Seq<Seq<char>>,
    q: Seq<int>,
    snap: NodeView,
)
    requires
        t.tree.is_element(),
        valid_path(t.tree, q),
        node_at_spec(t.tree, q).children().contains(snap),
        !is_folder_node(snap),
    ensures
        insert_ids_spec(se, t, ids).tree.is_element(),
        valid_path(insert_ids_spec(se, t, ids).tree, q),
        names_along(insert_ids_spec(se, t, ids).tree, q) == names_along(t.tree, q),
        node_at_spec(insert_ids_spec(se, t, ids).tree, q).children().contains(snap),
    decreases ids,
{
    if ids.len() > 0 {
        lemma_insert_one_keeps_spot(se, t, ids[0], q, snap);
        lemma_insert_ids_keeps_spot(se, insert_one_spec(se, t, ids[0]), ids.drop_first(), q, snap);
    }
}

/// Copying one identifier the source holds puts its snapshot as a child
/// of the chain folder its recorded names lead to.
pub proof fn lemma_insert_one_places(se: Seq<EntryView>, t: ModelView, x: Seq<char>)
    requires
        t.tree.is_element(),
        find_entry(se, x) is Some,
    ensures
        insert_one_spec(se, t, x).tree.is_element(),
        placed(
            insert_one_spec(se, t, x).tree,
            seg_names(se[find_entry(se, x).unwrap()].path),
            se[find_entry(se, x).unwrap()].snapshot,
        ),
{
    let e = se[find_entry(se, x).unwrap()];
    let fc = fc_spec(t.tree, e.path);
    lemma_fc_header(t.tree, e.path);
    lemma_fc_valid(t.tree, e.path);
    lemma_fc_chain_path(t.tree, e.path);
    lemma_chain_path_target(fc.0, fc.1);
    lemma_append_at_path(fc.0, fc.1, e.snapshot);
    lemma_append_header(fc.0, fc.1, e.snapshot);
    let out = insert_one_spec(se, t, x).tree;
    assert(valid_path(out, fc.1));
    assert(names_along(out, fc.1) == seg_names(e.path));
    assert(node_at_spec(out, fc.1).children().contains(e.snapshot)) by {
        let cs = node_at_spec(fc.0, fc.1).children();
        assert(node_at_spec(out, fc.1).children() == cs.push(e.snapshot));
        assert(cs.push(e.snapshot)[cs.len() as int] == e.snapshot);
    }
}

/// Copying a run of identifiers places every identifier of the run that
/// the source holds under its recorded folder names.
pub proof fn lemma_insert_ids_places(
    se: Seq<EntryView>,
    t: ModelView,
    ids: Seq<Seq<char>>,
    x: Seq<char>,
)
    requires
        t.tree.is_element(),
        ids.contains(x),
        find_entry(se, x) is Some,
        !is_folder_node(se[find_entry(se, x).unwrap()].snapshot),
    ensures
        insert_ids_spec(se, t, ids).tree.is_element(),
        placed(
            insert_ids_spec(se, t, ids).tree,
            seg_names(se[find_entry(se, x).unwrap()].path),
            se[find_entry(se, x).unwrap()].snapshot,
        ),
    decreases ids,
{
    let e = se[find_entry(se, x).unwrap()];
    let w = choose|w: int| 0 <= w < ids.len() && ids[w] == x;
    if w == 0 {
        lemma_insert_one_places(se, t, x);
        let t1 = insert_one_spec(se, t, x);
        let q = choose|q: Seq<int>|
            valid_path(t1.tree, q) && names_along(t1.tree, q) == seg_names(e.path)
                && node_at_spec(t1.tree, q).children().contains(e.snapshot);
        lemma_insert_ids_keeps_spot(se, t1, ids.drop_first(), q, e.snapshot);
    } else {
        assert(ids.drop_first()[w - 1] == x);
        assert(ids.drop_first().contains(x));
        lemma_insert_one_shape_only(se, t, ids[0]);
        lemma_insert_ids_places(se, insert_one_spec(se, t, ids[0]), ids.drop_first(), x);
    }
}

/// Folder path preservation: after a merge, every element or relationship
/// it copied sits, as a child, under a chain of folders in the target tree
/// whose name chain equals the folder path recorded for it in the source
/// index.
pub proof fn lemma_merge_folder_paths(s: ModelView, t: ModelView, vid: Seq<char>, id: Seq<char>)
    requires
        t.tree.is_element(),
        find_entry(s.views, vid) is Some,
        find_entry(s.elements, id) is Some,
        new_elem_ids(s, t, vid).contains(id) || new_rel_ids(s, t, vid).contains(id),
        !is_folder_node(s.elements[find_entry(s.elements, id).unwrap()].snapshot),
    ensures
        placed(
            merge_spec(s, t, vid).tree,
            seg_names(s.elements[find_entry(s.elements, id).unwrap()].path),
            s.elements[find_entry(s.elements, id).unwrap()].snapshot,
        ),
{
    let e = s.elements[find_entry(s.elements, id).unwrap()];
    let ne = new_elem_ids(s, t, vid);
    let nr = new_rel_ids(s, t, vid);
    let t1 = insert_ids_spec(s.elements, t, ne);
    let t2 = insert_ids_spec(s.elements, t1, nr);
    if ne.contains(id) {
        lemma_insert_ids_places(s.elements, t, ne, id);
        let q1 = choose|q: Seq<int>|
            valid_path(t1.tree, q) && names_along(t1.tree, q) == seg_names(e.path)
                && node_at_spec(t1.tree, q).children().contains(e.snapshot);
        lemma_insert_ids_keeps_spot(s.elements, t1, nr, q1, e.snapshot);
        let q2 = q1;
        lemma_insert_view_keeps_spot(s.views, t2, vid, q2, e.snapshot);
    } else {
        lemma_insert_ids_shape_only(s.elements, t, ne);
        lemma_insert_ids_places(s.elements, t1, nr, id);
        let q1 = choose|q: Seq<int>|
            valid_path(t2.tree, q) && names_along(t2.tree, q) == seg_names(e.path)
                && node_at_spec(t2.tree, q).children().contains(e.snapshot);
        lemma_insert_view_keeps_spot(s.views, t2, vid, q1, e.snapshot);
    }
}

/// Copying one identifier in keeps the tree rooted in an element.
pub proof fn lemma_insert_one_shape_only(se: Seq<EntryView>, t: ModelView, cid: Seq<char>)
    ensures
        insert_one_spec(se, t, cid).tree.is_element() == t.tree.is_element(),
{
    match find_entry(se, cid) {
        None => {},
        Some(i) => {
            let e = se[i];
            lemma_fc_header(t.tree, e.path);
            lemma_append_header(
                fc_spec(t.tree, e.path).0,
                fc_spec(t.tree, e.path).1,
                e.snapshot,
            );
        },
    }
}

/// Copying a run of identifiers in keeps the tree rooted in an element.
pub proof fn lemma_insert_ids_shape_only(se: Seq<EntryView>, t: ModelView, ids: Seq<Seq<char>>)
    ensures
        insert_ids_spec(se, t, ids).tree.is_element() == t.tree.is_element(),
    decreases ids,
{
    if ids.len() > 0 {
        match find_entry(se, ids[0]) {
            None => {},
            Some(i) => {
                let e = se[i];
                lemma_fc_header(t.tree, e.path);
                lemma_append_header(
                    fc_spec(t.tree, e.path).0,
                    fc_spec(t.tree, e.path).1,
                    e.snapshot,
                );
            },
        }
        lemma_insert_ids_shape_only(se, insert_one_spec(se, t, ids[0]), ids.drop_first());
    }
}

/// Copying one identifier in never changes the target tree's kind, and
/// keeps a well-formed index well-formed.
pub proof fn lemma_insert_one_shape(src_elems: Seq<EntryView>, t: ModelView, id: Seq<char>)
    requires
        unique_ids_of(src_elems),
        paths_ok(src_elems),
    ensures
        insert_one_spec(src_elems, t, id).tree.is_element() == t.tree.is_element(),
        mv_wf(t) ==> mv_wf(insert_one_spec(src_elems, t, id)),
        insert_one_spec(src_elems, t, id).views == t.views,
{
    match find_entry(src_elems, id) {
        None => {},
        Some(i) => {
            lemma_find_entry_props(src_elems, id);
            let e = src_elems[i];
            let fc = fc_spec(t.tree, e.path);
            lemma_fc_header(t.tree, e.path);
            if mv_wf(t) {
                lemma_put_entry_wf(t.elements, e);
            }
        },
    }
}

/// A shorter name for unique identifiers among entries.
pub open spec fn unique_ids_of(s: Seq<EntryView>) -> bool {
    crate::model::unique_ids(s)
}

/// A shorter name for non-empty folder chains among entries.
pub open spec fn paths_ok(s: Seq<EntryView>) -> bool {
    crate::model::paths_nonempty(s)
}

/// Copy one element or relationship of the source into the target: find or
/// create its folder chain, append a copy of its snapshot there, and store
/// its record in the target's element bucket at once, so later lookups of
/// the same run see it.  An identifier the source does not hold changes
/// nothing.
pub fn insert_new_element(source: &ArchiModel, target: &mut ArchiModel, element_id: &String)
    requires
        source.wf(),
        old(target)@.tree.is_element(),
    ensures
        final(target)@ == insert_one_spec(source@.elements, old(target)@, element_id@),
        final(target)@.tree.is_element(),
        old(target).wf() ==> final(target).wf(),
{
    let ghost t0 = target@;
    let found = source.element_map.get(element_id.as_str());
    match found {
        None => {
            proof {
                assert(insert_one_spec(source@.elements, t0, element_id@) == t0);
            }
        },
        Some(info) => {
            proof {
                lemma_find_entry_props(source@.elements, element_id@);
                let i = find_entry(source@.elements, element_id@).unwrap();
                assert(source@.elements[i] == info@);
                assert(info@.path.len() > 0);
            }
            let info2 = info.duplicate();
            proof {
                assert(folders_view(info2.folder_path@) == info@.path);
            }
            let idxp = recursive_find_or_create_folder_path(target, &info2.folder_path);
            let snap = info2.snapshot.deep_copy();
            proof {
                lemma_fc_valid(t0.tree, info@.path);
                assert(path_view(idxp@.skip(0)) =~= path_view(idxp@));
            }
            let mut t = XmlNode::Text { content: String::new() };
            core::mem::swap(&mut t, &mut target.tree);
            let t2 = t.append_at(&idxp, 0, snap);
            target.tree = t2;
            target.element_map.insert(info2);
            proof {
                let e = lookup(source@.elements, element_id@).unwrap();
                let fc = fc_spec(t0.tree, e.path);
                assert(target@.tree == append_at_spec(fc.0, fc.1, e.snapshot));
                assert(target@.elements == put_entry(t0.elements, e));
                assert(target@.views == t0.views);
                assert(target@ == insert_one_spec(source@.elements, t0, element_id@));
                lemma_insert_one_shape(source@.elements, t0, element_id@);
            }
        },
    }
}

/// Copy the chosen view itself into the target: find or create its folder
/// chain, append a copy of its snapshot there, and store its record in the
/// target's view bucket.  An identifier the source's view bucket does not
/// hold changes nothing.
pub fn insert_new_view(source: &ArchiModel, target: &mut ArchiModel, element_id: &String)
    requires
        source.wf(),
        old(target)@.tree.is_element(),
    ensures
        final(target)@ == insert_view_spec(source@.views, old(target)@, element_id@),
        final(target)@.tree.is_element(),
        old(target).wf() ==> final(target).wf(),
{
    let ghost t0 = target@;
    let found = source.view_map.get(element_id.as_str());
    match found {
        None => {
            proof {
                assert(insert_view_spec(source@.views, t0, element_id@) == t0);
            }
        },
        Some(info) => {
            proof {
                lemma_find_entry_props(source@.views, element_id@);
                let i = find_entry(source@.views, element_id@).unwrap();
                assert(source@.views[i] == info@);
                assert(info@.path.len() > 0);
            }
            let info2 = info.duplicate();
            proof {
                assert(folders_view(info2.folder_path@) == info@.path);
            }
            let idxp = recursive_find_or_create_folder_path(target, &info2.folder_path);
            let snap = info2.snapshot.deep_copy();
            proof {
                lemma_fc_valid(t0.tree, info@.path);
                assert(path_view(idxp@.skip(0)) =~= path_view(idxp@));
            }
            let mut t = XmlNode::Text { content: String::new() };
            core::mem::swap(&mut t, &mut target.tree);
            let t2 = t.append_at(&idxp, 0, snap);
            target.tree = t2;
            target.view_map.insert(info2);
            proof {
                let e = lookup(source@.views, element_id@).unwrap();
                let fc = fc_spec(t0.tree, e.path);
                assert(target@.tree == append_at_spec(fc.0, fc.1, e.snapshot));
                assert(target@.views == put_entry(t0.views, e));
                assert(target@.elements == t0.elements);
                assert(target@ == insert_view_spec(source@.views, t0, element_id@));
                lemma_fc_header(t0.tree, e.path);
                if old(target).wf() {
                    lemma_put_entry_wf(t0.views, e);
                }
            }
        },
    }
}

/// Merge one view chosen from the diff into the target: parse nothing and
/// lose nothing — every element and relationship the view references and
/// the target lacks is copied under its source folder chain, then the view
/// itself is copied, and the counts of copied views, elements and
/// relationships are returned.  Fails, changing nothing, exactly when the
/// identifier is not a view of the source.
pub fn copy_view(source: &ArchiModel, target: &mut ArchiModel, view: &MissingElementInfo) -> (r:
    Result<(usize, usize, usize), MergeError>)
    requires
        source.wf(),
        old(target)@.tree.is_element(),
    ensures
        match r {
            Ok(c) => {
                &&& find_entry(source@.views, view@.id) is Some
                &&& final(target)@ == merge_spec(source@, old(target)@, view@.id)
                &&& c.0 == 1usize
                &&& c.1 as int == new_elem_ids(source@, old(target)@, view@.id).len()
                &&& c.2 as int == new_rel_ids(source@, old(target)@, view@.id).len()
                &&& final(target)@.tree.is_element()
                &&& old(target).wf() ==> final(target).wf()
            },
            Err(_) => {
                &&& find_entry(source@.views, view@.id) is None
                &&& final(target)@ == old(target)@
            },
        },
{
    let ghost s = source@;
    let ghost t0 = target@;
    let ghost vid = view@.id;
    let found = source.view_map.get(view.id.as_str());
    let info = match found {
        None => {
            return Err(MergeError::UnknownViewId);
        },
        Some(info) => info,
    };
    proof {
        lemma_find_entry_props(s.views, vid);
        let i = find_entry(s.views, vid).unwrap();
        assert(s.views[i] == info@);
    }
    let fragment = info.snapshot.deep_copy();
    let mut referenced_elements: Vec<String> = Vec::new();
    let mut referenced_relations: Vec<String> = Vec::new();
    extract_references(&fragment, &mut referenced_elements, &mut referenced_relations);
    proof {
        assert(strings_view(Seq::<String>::empty()) =~= Seq::<Seq<char>>::empty());
        assert(strings_view(referenced_elements@) == view_refs(info@.snapshot).elements);
        assert(strings_view(referenced_relations@) == view_refs(info@.snapshot).relations);
    }
    let new_elements = keep_missing(&referenced_elements, &target.element_map);
    let new_relations = keep_missing(&referenced_relations, &target.element_map);
    let ghost ne = new_elem_ids(s, t0, vid);
    let ghost nr = new_rel_ids(s, t0, vid);
    proof {
        assert(strings_view(new_elements@) == ne);
        assert(strings_view(new_relations@) == nr);
        assert(ne.skip(0) =~= ne);
        assert(nr.skip(0) =~= nr);
    }
    let ghost se = s.elements;
    let mut j: usize = 0;
    while j < new_elements.len()
        invariant
            j <= new_elements.len(),
            source.wf(),
            se == source@.elements,
            ne == strings_view(new_elements@),
            ne.len() == new_elements@.len(),
            insert_ids_spec(se, t0, ne) == insert_ids_spec(se, target@, ne.skip(j as int)),
            target@.tree.is_element(),
            mv_wf(t0) ==> mv_wf(target@),
        decreases new_elements.len() - j,
    {
        let ghost suffix = ne.skip(j as int);
        let ghost cur = target@;
        proof {
            assert(suffix[0] == ne[j as int]);
            assert(suffix.drop_first() =~= ne.skip(j + 1));
        }
        insert_new_element(source, target, &new_elements[j]);
        proof {
            assert(target@ == insert_one_spec(se, cur, suffix[0]));
            assert(insert_ids_spec(se, cur, suffix) == insert_ids_spec(
                se,
                insert_one_spec(se, cur, suffix[0]),
                suffix.drop_first(),
            ));
        }
        j = j + 1;
    }
    let ghost t1 = insert_ids_spec(se, t0, ne);
    proof {
        assert(ne.skip(ne.len() as int) =~= Seq::<Seq<char>>::empty());
        assert(target@ == t1);
    }
    let mut k: usize = 0;
    while k < new_relations.len()
        invariant
            k <= new_relations.len(),
            source.wf(),
            se == source@.elements,
            nr == strings_view(new_relations@),
            nr.len() == new_relations@.len(),
            insert_ids_spec(se, t1, nr) == insert_ids_spec(se, target@, nr.skip(k as int)),
            target@.tree.is_element(),
            mv_wf(t1) ==> mv_wf(target@),
        decreases new_relations.len() - k,
    {
        let ghost suffix = nr.skip(k as int);
        let ghost cur = target@;
        proof {
            assert(suffix[0] == nr[k as int]);
            assert(suffix.drop_first() =~= nr.skip(k + 1));
        }
        insert_new_element(source, target, &new_relations[k]);
        proof {
            assert(target@ == insert_one_spec(se, cur, suffix[0]));
            assert(insert_ids_spec(se, cur, suffix) == insert_ids_spec(
                se,
                insert_one_spec(se, cur, suffix[0]),
                suffix.drop_first(),
            ));
        }
        k = k + 1;
    }
    let ghost t2 = insert_ids_spec(se, t1, nr);
    proof {
        assert(nr.skip(nr.len() as int) =~= Seq::<Seq<char>>::empty());
        assert(target@ == t2);
    }
    insert_new_view(source, target, &view.id);
    proof {
        assert(target@ == insert_view_spec(s.views, t2, vid));
        assert(target@ == merge_spec(s, t0, vid));
    }
    Ok((1, new_elements.len(), new_relations.len()))
}

} // verus!
