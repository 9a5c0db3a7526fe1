//! A plain-value model of a parsed XML document.
//!
//! Every node of a document is an [`XmlNode`]: an element with a name,
//! attributes and child nodes, a run of character data, or a comment.  The
//! tree is ordinary owned data, so all logic that walks or rewrites it can be
//! specified and verified directly.  Specifications speak of the mathematical
//! image of a node, [`NodeView`], reached through [`XmlNode::deep`].

use vstd::prelude::*;

verus! {

/// One attribute of an element: a key and a value.
pub struct Attr {
    pub key: String,
    pub value: String,
}

/// One node of a parsed document.
pub enum XmlNode {
    /// An element: `<name key="value" ...>children</name>`.
    Element { name: String, attrs: Vec<Attr>, children: Vec<XmlNode> },
    /// Character data between elements.
    Text { content: String },
    /// A comment; kept so a document round-trips through the tree.
    Comment { content: String },
}

/// The mathematical image of an [`Attr`].
pub ghost struct AttrView {
    pub key: Seq<char>,
    pub value: Seq<char>,
}

/// The mathematical image of an [`XmlNode`].
pub ghost enum NodeView {
    Element { name: Seq<char>, attrs: Seq<AttrView>, children: Seq<NodeView> },
    Text { content: Seq<char> },
    Comment { content: Seq<char> },
}

/// The image of a sequence of attributes.
pub open spec fn attrs_view(s: Seq<Attr>) -> Seq<AttrView> {
    s.map_values(|a: Attr| AttrView { key: a.key@, value: a.value@ })
}

/// The image of one node.
pub open spec fn node_view(n: XmlNode) -> NodeView
    decreases n,
{
    match n {
        XmlNode::Element { name, attrs, children } => (NodeView::Element {
            name: name@,
            attrs: attrs_view(attrs@),
            children: nodes_view(children@),
        }),
        XmlNode::Text { content } => (NodeView::Text { content: content@ }),
        XmlNode::Comment { content } => (NodeView::Comment { content: content@ }),
    }
}

/// The image of a sequence of nodes.
pub open spec fn nodes_view(s: Seq<XmlNode>) -> Seq<NodeView>
    decreases s,
{
    if s.len() == 0 {
        Seq::empty()
    } else {
        seq![node_view(s[0])] + nodes_view(s.drop_first())
    }
}

/// The image of a node sequence has the same length, and images sit at the
/// same positions.
pub broadcast proof fn lemma_nodes_view_index(s: Seq<XmlNode>, i: int)
    ensures
        #![trigger nodes_view(s)[i]]
        nodes_view(s).len() == s.len(),
        0 <= i < s.len() ==> nodes_view(s)[i] == node_view(s[i]),
    decreases s,
{
    if s.len() > 0 {
        lemma_nodes_view_index(s.drop_first(), i - 1);
    }
}

/// The image of a node sequence has the same length.
pub broadcast proof fn lemma_nodes_view_len(s: Seq<XmlNode>)
    ensures
        #[trigger] nodes_view(s).len() == s.len(),
    decreases s,
{
    if s.len() > 0 {
        lemma_nodes_view_len(s.drop_first());
    }
}

impl NodeView {
    /// Whether this node is an element.
    pub open spec fn is_element(self) -> bool {
        self matches NodeView::Element { .. }
    }

    /// The name of an element node.
    pub open spec fn name(self) -> Seq<char>
        recommends
            self.is_element(),
    {
        match self {
            NodeView::Element { name, .. } => name,
            NodeView::Text { content } => content,
            NodeView::Comment { content } => content,
        }
    }

    /// The attributes of an element node; other nodes have none.
    pub open spec fn attrs(self) -> Seq<AttrView> {
        match self {
            NodeView::Element { attrs, .. } => attrs,
            _ => Seq::empty(),
        }
    }

    /// The children of an element node; other nodes have none.
    pub open spec fn children(self) -> Seq<NodeView> {
        match self {
            NodeView::Element { children, .. } => children,
            _ => Seq::empty(),
        }
    }

    /// The value of the first attribute named `key`, if any.
    pub open spec fn attr(self, key: Seq<char>) -> Option<Seq<char>> {
        attr_lookup(self.attrs(), key)
    }
}

/// First match of `key` in an attribute list.
pub open spec fn attr_lookup(attrs: Seq<AttrView>, key: Seq<char>) -> Option<Seq<char>>
    decreases attrs,
{
    if attrs.len() == 0 {
        None
    } else if attrs[0].key == key {
        Some(attrs[0].value)
    } else {
        attr_lookup(attrs.drop_first(), key)
    }
}

impl XmlNode {
    /// The mathematical image of this node.
    pub open spec fn deep(&self) -> NodeView {
        node_view(*self)
    }

    /// Structural copy of a node.
    pub fn deep_copy(&self) -> (r: XmlNode)
        ensures
            r.deep() == self.deep(),
        decreases *self,
    {
        match self {
            XmlNode::Element { name, attrs, children } => {
                let mut new_attrs: Vec<Attr> = Vec::new();
                let mut i: usize = 0;
                while i < attrs.len()
                    invariant
                        i <= attrs.len(),
                        new_attrs@.len() == i as int,
                        forall|j: int|
                            0 <= j < i as int ==> (#[trigger] new_attrs@[j]).key@ == attrs@[j].key@
                                && new_attrs@[j].value@ == attrs@[j].value@,
                    decreases attrs.len() - i,
                {
                    let a = Attr { key: attrs[i].key.clone(), value: attrs[i].value.clone() };
                    new_attrs.push(a);
                    i = i + 1;
                }
                let new_children = copy_nodes(children);
                proof {
                    assert(attrs_view(new_attrs@) =~= attrs_view(attrs@));
                }
                XmlNode::Element { name: name.clone(), attrs: new_attrs, children: new_children }
            },
            XmlNode::Text { content } => XmlNode::Text { content: content.clone() },
            XmlNode::Comment { content } => XmlNode::Comment { content: content.clone() },
        }
    }
}

/// Structural copy of a sequence of nodes.
pub fn copy_nodes(v: &Vec<XmlNode>) -> (r: Vec<XmlNode>)
    ensures
        nodes_view(r@) == nodes_view(v@),
    decreases *v,
{
    let mut out: Vec<XmlNode> = Vec::new();
    let mut k: usize = 0;
    while k < v.len()
        invariant
            k <= v.len(),
            out@.len() == k as int,
            forall|j: int|
                0 <= j < k as int ==> node_view(#[trigger] out@[j]) == node_view(v@[j]),
        decreases v.len() - k,
    {
        proof {
            broadcast use vstd::std_specs::vec::group_vec_axioms;

        }
        let c = v[k].deep_copy();
        out.push(c);
        k = k + 1;
    }
    proof {
        broadcast use lemma_nodes_view_index, lemma_nodes_view_len;

        assert(nodes_view(out@) =~= nodes_view(v@));
    }
    out
}

/// Whether two string slices hold the same characters.
pub fn str_eq(a: &str, b: &str) -> (r: bool)
    ensures
        r == (a@ == b@),
{
    let owned_a: String = a.to_owned();
    let owned_b: String = b.to_owned();
    owned_a == owned_b
}

/// Whether `suffix` is a suffix of `s`.
pub open spec fn ends_with(s: Seq<char>, suffix: Seq<char>) -> bool {
    suffix.len() <= s.len() && s.subrange(s.len() - suffix.len(), s.len() as int) == suffix
}

/// Whether one string slice ends with another.
pub fn str_ends_with(s: &str, suffix: &str) -> (r: bool)
    ensures
        r == ends_with(s@, suffix@),
{
    let n = s.unicode_len();
    let m = suffix.unicode_len();
    if m > n {
        return false;
    }
    let ghost tail = s@.subrange(n - m, n as int);
    let mut j: usize = 0;
    while j < m
        invariant
            j <= m,
            m <= n,
            n == s@.len(),
            m == suffix@.len(),
            tail == s@.subrange(n - m, n as int),
            forall|k: int| 0 <= k < j as int ==> tail[k] == suffix@[k],
        decreases m - j,
    {
        let a = s.get_char(n - m + j);
        let b = suffix.get_char(j);
        if a != b {
            proof {
                assert(tail[j as int] != suffix@[j as int]);
            }
            return false;
        }
        j = j + 1;
    }
    proof {
        assert(tail =~= suffix@);
    }
    true
}

/// Whether a path of child indices leads to a node.
pub open spec fn valid_path(nv: NodeView, path: Seq<int>) -> bool
    decreases path.len(),
{
    path.len() == 0 || (0 <= path[0] < nv.children().len() && valid_path(
        nv.children()[path[0]],
        path.drop_first(),
    ))
}

/// The node a path of child indices leads to.
pub open spec fn node_at_spec(nv: NodeView, path: Seq<int>) -> NodeView
    recommends
        valid_path(nv, path),
    decreases path.len(),
{
    if path.len() == 0 {
        nv
    } else {
        node_at_spec(nv.children()[path[0]], path.drop_first())
    }
}

/// A node with its children replaced; nodes without children are unchanged.
pub open spec fn with_children(nv: NodeView, c: Seq<NodeView>) -> NodeView {
    match nv {
        NodeView::Element { name, attrs, .. } => (NodeView::Element { name, attrs, children: c }),
        _ => nv,
    }
}

/// The tree after appending `child` as the last child of the node that
/// `path` leads to.
pub open spec fn append_at_spec(nv: NodeView, path: Seq<int>, child: NodeView) -> NodeView
    recommends
        valid_path(nv, path),
    decreases path.len(),
{
    if path.len() == 0 {
        with_children(nv, nv.children().push(child))
    } else {
        with_children(
            nv,
            nv.children().update(
                path[0],
                append_at_spec(nv.children()[path[0]], path.drop_first(), child),
            ),
        )
    }
}

/// The image of a path of machine-sized indices.
pub open spec fn path_view(p: Seq<usize>) -> Seq<int> {
    p.map_values(|i: usize| i as int)
}

impl XmlNode {
    /// Whether this node is an element named `expected`.
    pub fn name_is(&self, expected: &str) -> (r: bool)
        ensures
            r == (self.deep().is_element() && self.deep().name() == expected@),
    {
        match self {
            XmlNode::Element { name, .. } => str_eq(name.as_str(), expected),
            _ => false,
        }
    }

    /// The value of the first attribute named `key`, if any.
    pub fn get_attr(&self, key: &str) -> (r: Option<String>)
        ensures
            match r {
                Some(v) => self.deep().attr(key@) == Some(v@),
                None => self.deep().attr(key@) is None,
            },
    {
        match self {
            XmlNode::Element { attrs, .. } => {
                let ghost all = attrs_view(attrs@);
                proof {
                    assert(all.subrange(0, all.len() as int) =~= all);
                }
                let mut i: usize = 0;
                while i < attrs.len()
                    invariant
                        i <= attrs.len(),
                        all == attrs_view(attrs@),
                        self.deep() is Element,
                        self.deep().attrs() == all,
                        attr_lookup(all, key@) == attr_lookup(
                            all.subrange(i as int, all.len() as int),
                            key@,
                        ),
                    decreases attrs.len() - i,
                {
                    let ghost rest = all.subrange(i as int, all.len() as int);
                    proof {
                        assert(rest[0] == all[i as int]);
                        assert(all[i as int] == (AttrView {
                            key: attrs@[i as int].key@,
                            value: attrs@[i as int].value@,
                        }));
                    }
                    if str_eq(attrs[i].key.as_str(), key) {
                        proof {
                            assert(attr_lookup(rest, key@) == Some(rest[0].value));
                            assert(self.deep() is Element);
                            assert(self.deep().attrs() == all);
                        }
                        return Some(attrs[i].value.clone());
                    }
                    proof {
                        assert(rest.drop_first() =~= all.subrange(i + 1, all.len() as int));
                    }
                    i = i + 1;
                }
                proof {
                    assert(all.subrange(i as int, all.len() as int).len() == 0);
                    assert(self.deep() is Element);
                    assert(self.deep().attrs() == all);
                }
                None
            },
            _ => {
                proof {
                    assert(self.deep().attrs().len() == 0);
                }
                None
            },
        }
    }

    /// The node that `path`, taken from position `from` on, leads to.
    pub fn node_at<'a>(&'a self, path: &Vec<usize>, from: usize) -> (r: Option<&'a XmlNode>)
        requires
            from <= path@.len(),
        ensures
            match r {
                Some(n) => valid_path(self.deep(), path_view(path@.skip(from as int)))
                    && n.deep() == node_at_spec(self.deep(), path_view(path@.skip(from as int))),
                None => !valid_path(self.deep(), path_view(path@.skip(from as int))),
            },
        decreases path@.len() - from,
    {
        let ghost p = path_view(path@.skip(from as int));
        if from == path.len() {
            proof {
                assert(p.len() == 0);
            }
            Some(self)
        } else {
            let idx = path[from];
            match self {
                XmlNode::Element { children, .. } => {
                    if idx < children.len() {
                        proof {
                            broadcast use lemma_nodes_view_index, lemma_nodes_view_len;

                            assert(p[0] == idx as int);
                            assert(p.drop_first() =~= path_view(path@.skip(from + 1)));
                            assert(self.deep() is Element);
                            assert(self.deep().children() == nodes_view(children@));
                            assert(self.deep().children()[p[0]] == children@[idx as int].deep());
                        }
                        let r = children[idx].node_at(path, from + 1);
                        proof {
                            if r is Some {
                                assert(valid_path(self.deep(), p));
                                assert(node_at_spec(self.deep(), p) == node_at_spec(
                                    self.deep().children()[p[0]],
                                    p.drop_first(),
                                ));
                            } else {
                                assert(!valid_path(self.deep(), p));
                            }
                        }
                        r
                    } else {
                        proof {
                            broadcast use lemma_nodes_view_len;

                            assert(p[0] == idx as int);
                            assert((*self) matches XmlNode::Element { .. });
                            assert(self.deep() is Element);
                            assert(nodes_view(children@).len() == children@.len());
                            assert(self.deep().children() == nodes_view(children@));
                            assert(!valid_path(self.deep(), p));
                        }
                        None
                    }
                },
                _ => {
                    proof {
                        assert(p.len() > 0);
                        assert(self.deep().children().len() == 0);
                        assert(!valid_path(self.deep(), p));
                    }
                    None
                },
            }
        }
    }

    /// The tree after appending `child` as the last child of the node that
    /// `path`, from position `from` on, leads to.  The tree is taken and
    /// given back by value.
    pub fn append_at(self, path: &Vec<usize>, from: usize, child: XmlNode) -> (r: XmlNode)
        requires
            from <= path@.len(),
            valid_path(self.deep(), path_view(path@.skip(from as int))),
        ensures
            r.deep() == append_at_spec(
                self.deep(),
                path_view(path@.skip(from as int)),
                child.deep(),
            ),
        decreases path@.len() - from,
    {
        let ghost p = path_view(path@.skip(from as int));
        if from == path.len() {
            proof {
                assert(p.len() == 0);
            }
            match self {
                XmlNode::Element { name, attrs, mut children } => {
                    let ghost before = children@;
                    children.push(child);
                    proof {
                        broadcast use lemma_nodes_view_index, lemma_nodes_view_len;

                        assert(nodes_view(children@) =~= nodes_view(before).push(child.deep()));
                    }
                    XmlNode::Element { name, attrs, children }
                },
                n => n,
            }
        } else {
            let idx = path[from];
            proof {
                assert(p[0] == idx as int);
                assert(p.drop_first() =~= path_view(path@.skip(from + 1)));
            }
            match self {
                XmlNode::Element { name, attrs, mut children } => {
                    proof {
                        broadcast use lemma_nodes_view_index, lemma_nodes_view_len;

                        assert(self.deep() is Element);
                        assert(self.deep().children() == nodes_view(children@));
                        assert(valid_path(self.deep(), p));
                        assert(0 <= p[0] < self.deep().children().len());
                        assert(idx < children@.len());
                    }
                    let ghost before = children@;
                    let sub = children.remove(idx);
                    let new_sub = sub.append_at(path, from + 1, child);
                    children.insert(idx, new_sub);
                    proof {
                        broadcast use lemma_nodes_view_index, lemma_nodes_view_len;

                        assert(children@ =~= before.update(idx as int, new_sub));
                        assert(nodes_view(children@) =~= nodes_view(before).update(
                            idx as int,
                            new_sub.deep(),
                        ));
                    }
                    XmlNode::Element { name, attrs, children }
                },
                n => n,
            }
        }
    }
}

} // verus!
