//! The document model: a parsed HTML tree held as plain nodes, and the walks
//! over it that a fingerprint reads.
use crate::attributes::{
    entry_views, lemma_lookup_sorted_insert, lookup, sorted_insert,
    AttributeMap,
};
use crate::fingerprint::{
    all_full, law_self_similarity, opt_view, parent_attrs_view, parent_checks, sibling_checks, similarity_checks_spec,
    text_checks, within_limits, ElementFingerprint,
};
use crate::text::{chars_of, string_from_chars, trim, trim_chars, string_views};
use scraper::Node;
use vstd::prelude::*;

verus! {

/// `scraper::Html`, a parsed document, held opaque.
#[verifier::external_type_specification]
#[verifier::external_body]
pub struct ExHtml(scraper::Html);

/// `scraper::ElementRef`, an element of a parsed document, held opaque.
#[verifier::external_type_specification]
#[verifier::external_body]
pub struct ExElementRef<'a>(scraper::ElementRef<'a>);

/// What a node of the tree is.
#[derive(Debug)]
pub enum NodeKind {
    /// An element with its tag name and attributes (name, value), in the
    /// order the parser keeps them; `plain` says of each attribute whether it
    /// has neither a prefix nor a namespace.
    Element { name: String, attrs: Vec<(String, String)>, plain: Vec<bool> },
    /// A text node.
    Text(String),
    /// The document root, a doctype, a comment or a processing instruction.
    Other,
}

/// A node of the tree: what it is, and its links by position in the tree's
/// node list.
#[derive(Debug)]
pub struct DomNode {
    pub kind: NodeKind,
    pub parent: Option<usize>,
    pub children: Vec<usize>,
}

/// The nodes of a parsed document, in the order its tree stores them.
pub uninterp spec fn html_nodes(h: scraper::Html) -> Seq<DomNode>;

/// The nodes of the document that an HTML source parses to.
pub uninterp spec fn parsed_document(source: Seq<char>) -> Seq<DomNode>;

/// The message of the error that parsing a CSS selector gives, `None` when
/// the selector parses.
pub uninterp spec fn selector_error(selector: Seq<char>) -> Option<Seq<char>>;

/// Every link of every node points into the node list.
pub open spec fn links_in_range(nodes: Seq<DomNode>) -> bool {
    forall|i: int|
        0 <= i < nodes.len() ==> {
            &&& (#[trigger] nodes[i]).parent matches Some(p) ==> p < nodes.len()
            &&& forall|k: int| 0 <= k < nodes[i].children.len() ==> #[trigger] nodes[i].children@[k] < nodes.len()
        }
}

/// Node `i` is an element.
pub open spec fn is_element(nodes: Seq<DomNode>, i: int) -> bool {
    0 <= i < nodes.len() && nodes[i].kind is Element
}

/// The tag name of element `i`.
pub open spec fn name_of(nodes: Seq<DomNode>, i: int) -> Seq<char> {
    nodes[i].kind->name@
}

/// The attributes of element `i`.
pub open spec fn attrs_of(nodes: Seq<DomNode>, i: int) -> Seq<(Seq<char>, Seq<char>)> {
    entry_views(nodes[i].kind->attrs@)
}

/// Attribute `k` of element `i` has neither a prefix nor a namespace.
pub open spec fn attr_is_plain(nodes: Seq<DomNode>, i: int, k: int) -> bool {
    0 <= k < nodes[i].kind->plain@.len() && nodes[i].kind->plain@[k]
}

/// Element `i` has the attribute `(name, v)` without prefix or namespace.
pub open spec fn has_plain_attr(nodes: Seq<DomNode>, i: int, name: Seq<char>, v: Seq<char>) -> bool {
    exists|k: int|
        0 <= k < attrs_of(nodes, i).len() && attr_is_plain(nodes, i, k) && #[trigger] attrs_of(nodes, i)[k] == (
            name,
            v,
        )
}

/// Element `i` has an attribute named `name` without prefix or namespace.
pub open spec fn has_plain_name(nodes: Seq<DomNode>, i: int, name: Seq<char>) -> bool {
    exists|k: int| 0 <= k < attrs_of(nodes, i).len() && attr_is_plain(nodes, i, k) && #[trigger] attrs_of(nodes, i)[k].0 == name
}

/// `scraper::Html::parse_document`: the tree of an HTML source.
#[verifier::external_body]
pub(crate) fn parse_html(source: &str) -> (h: scraper::Html)
    ensures
        html_nodes(h) == parsed_document(source@),
{
    scraper::Html::parse_document(source)
}

/// The links of node `i` of a node list: its parent and its children.
pub open spec fn links_at(nodes: Seq<DomNode>, i: int) -> (Option<usize>, Vec<usize>) {
    (nodes[i].parent, nodes[i].children)
}

/// Every parent and every child in a list of links is a position in the list.
pub open spec fn links_point_inside(links: Seq<(Option<usize>, Vec<usize>)>) -> bool {
    forall|i: int|
        0 <= i < links.len() ==> {
            &&& (#[trigger] links[i]).0 matches Some(p) ==> p < links.len()
            &&& forall|k: int| 0 <= k < links[i].1.len() ==> #[trigger] links[i].1@[k] < links.len()
        }
}

/// `ego_tree::Tree::nodes` on the tree of `h`: what each node is, in the order
/// the tree stores its nodes.
#[verifier::external_body]
fn tree_kinds(h: &scraper::Html) -> (kinds: Vec<NodeKind>)
    ensures
        kinds@.len() == html_nodes(*h).len(),
        forall|i: int| 0 <= i < kinds@.len() ==> kinds@[i] == #[trigger] html_nodes(*h)[i].kind,
{
    h.tree.nodes().map(|n| match n.value() {
        Node::Element(e) => NodeKind::Element {
            name: e.name().into(),
            attrs: e.attrs().map(|(k, v)| (k.into(), v.into())).collect(),
            plain: e.attrs.iter().map(|(q, _)| q.prefix.is_none() && q.ns.is_empty()).collect(),
        },
        Node::Text(t) => NodeKind::Text(t.to_string()),
        _ => NodeKind::Other,
    }).collect()
}

/// `ego_tree::Tree::nodes` on the tree of `h`: the parent and the children of
/// each node, each given by its position in that order. Every link names a
/// node of the same tree.
#[verifier::external_body]
fn tree_links(h: &scraper::Html) -> (links: Vec<(Option<usize>, Vec<usize>)>)
    ensures
        links@.len() == html_nodes(*h).len(),
        forall|i: int| 0 <= i < links@.len() ==> links@[i] == #[trigger] links_at(html_nodes(*h), i),
        links_point_inside(links@),
{
    // The tree keeps its nodes in one vector, in the order of their ids.
    let ids: Vec<_> = h.tree.nodes().map(|n| n.id()).collect();
    let at = |id| ids.binary_search(&id).unwrap();
    h.tree.nodes().map(|n| (n.parent().map(|p| at(p.id())), n.children().map(|c| at(c.id())).collect())).collect()
}

/// The nodes of a tree, each with its links given as positions.
pub fn tree_nodes(h: &scraper::Html) -> (nodes: Vec<DomNode>)
    ensures
        nodes@ == html_nodes(*h),
        links_in_range(nodes@),
{
    let ghost all = html_nodes(*h);
    let mut kinds = tree_kinds(h);
    let mut links = tree_links(h);
    let n = kinds.len();
    assert(links_in_range(all)) by {
        assert forall|i: int| 0 <= i < all.len() implies {
            &&& (#[trigger] all[i]).parent matches Some(p) ==> p < all.len()
            &&& forall|k: int| 0 <= k < all[i].children.len() ==> #[trigger] all[i].children@[k] < all.len()
        } by {
            assert(links@[i] == links_at(all, i));
            assert forall|k: int| 0 <= k < all[i].children.len() implies #[trigger] all[i].children@[k] < all.len() by {
                assert(links@[i].1@[k] < links@.len());
            }
        }
    }
    // Taken from the back, the nodes come out last first.
    let mut reversed: Vec<DomNode> = Vec::new();
    while kinds.len() > 0
        invariant
            all.len() == n,
            kinds@.len() == links@.len(),
            kinds@.len() + reversed@.len() == n,
            forall|i: int| 0 <= i < kinds@.len() ==> kinds@[i] == #[trigger] all[i].kind,
            forall|i: int| 0 <= i < links@.len() ==> links@[i] == #[trigger] links_at(all, i),
            forall|t: int| 0 <= t < reversed@.len() ==> #[trigger] reversed@[t] == all[n - 1 - t],
        decreases kinds@.len(),
    {
        let ghost i = kinds@.len() - 1;
        assert(kinds@[i] == all[i].kind);
        assert(links@[i] == links_at(all, i));
        let kind = kinds.pop().unwrap();
        let (parent, children) = links.pop().unwrap();
        let node = DomNode { kind, parent, children };
        assert(node == all[i]);
        reversed.push(node);
    }
    let mut nodes: Vec<DomNode> = Vec::new();
    while reversed.len() > 0
        invariant
            all.len() == n,
            reversed@.len() + nodes@.len() == n,
            forall|t: int| 0 <= t < reversed@.len() ==> #[trigger] reversed@[t] == all[n - 1 - t],
            forall|t: int| 0 <= t < nodes@.len() ==> #[trigger] nodes@[t] == all[t],
        decreases reversed@.len(),
    {
        let node = reversed.pop().unwrap();
        nodes.push(node);
    }
    assert(nodes@ =~= all);
    nodes
}


/// The text of an optional string as an optional character sequence.
pub open spec fn opt_seq(o: Option<String>) -> Option<Seq<char>> {
    match o {
        Some(s) => Some(s@),
        None => None,
    }
}

/// The raw text of node `i` when it is a text node.
pub open spec fn raw_text(nodes: Seq<DomNode>, i: int) -> Seq<char> {
    match nodes[i].kind {
        NodeKind::Text(t) => t@,
        _ => Seq::empty(),
    }
}

/// The text of the text nodes among `cs` that come before the first child
/// that is not text, joined: lxml's `element.text` for children `cs`.
pub open spec fn leading_text(nodes: Seq<DomNode>, cs: Seq<usize>) -> Seq<char>
    decreases cs.len(),
{
    if cs.len() > 0 && 0 <= cs[0] < nodes.len() && nodes[cs[0] as int].kind is Text {
        raw_text(nodes, cs[0] as int) + leading_text(nodes, cs.drop_first())
    } else {
        Seq::empty()
    }
}

/// The element's own leading text (the text before its first child that is
/// not text), stripped; `None` when nothing is left.
pub open spec fn own_text(nodes: Seq<DomNode>, i: int) -> Option<Seq<char>> {
    let t = trim(leading_text(nodes, nodes[i].children@));
    if t.len() > 0 {
        Some(t)
    } else {
        None
    }
}

/// All text in the subtree of node `i`, in document order.
pub open spec fn all_text_from(nodes: Seq<DomNode>, i: int, fuel: nat) -> Seq<char>
    decreases fuel, 0nat,
{
    if fuel == 0 || !(0 <= i < nodes.len()) {
        Seq::empty()
    } else {
        raw_text(nodes, i) + all_text_among(nodes, nodes[i].children@, (fuel - 1) as nat)
    }
}

/// All text in the subtrees of `cs`, in order.
pub open spec fn all_text_among(nodes: Seq<DomNode>, cs: Seq<usize>, fuel: nat) -> Seq<char>
    decreases fuel, cs.len(),
{
    if cs.len() == 0 {
        Seq::empty()
    } else {
        all_text_from(nodes, cs[0] as int, fuel) + all_text_among(nodes, cs.drop_first(), fuel)
    }
}

/// The tag names of the element ancestors of node `i`, nearest first.
pub open spec fn ancestor_names(nodes: Seq<DomNode>, i: int, fuel: nat) -> Seq<Seq<char>>
    decreases fuel,
{
    if fuel == 0 || !(0 <= i < nodes.len()) {
        Seq::empty()
    } else {
        match nodes[i].parent {
            None => Seq::empty(),
            Some(p) => (if is_element(nodes, p as int) {
                seq![name_of(nodes, p as int)]
            } else {
                Seq::empty()
            }) + ancestor_names(nodes, p as int, (fuel - 1) as nat),
        }
    }
}

/// The tag names of the elements among `cs` other than `skip`, in order.
pub open spec fn element_names(nodes: Seq<DomNode>, cs: Seq<usize>, skip: int) -> Seq<Seq<char>>
    decreases cs.len(),
{
    if cs.len() == 0 {
        Seq::empty()
    } else {
        (if is_element(nodes, cs[0] as int) && cs[0] != skip {
            seq![name_of(nodes, cs[0] as int)]
        } else {
            Seq::empty()
        }) + element_names(nodes, cs.drop_first(), skip)
    }
}

/// An attribute map filled in order from `attrs`, with stripped values,
/// dropping those that strip to nothing.
pub open spec fn cleaned_attrs(attrs: Seq<(Seq<char>, Seq<char>)>) -> Seq<(Seq<char>, Seq<char>)>
    decreases attrs.len(),
{
    if attrs.len() == 0 {
        Seq::empty()
    } else {
        let m = cleaned_attrs(attrs.drop_last());
        if trim(attrs.last().1).len() > 0 {
            sorted_insert(m, attrs.last().0, trim(attrs.last().1))
        } else {
            m
        }
    }
}

/// An attribute map filled in order from `attrs`, values as they are.
pub open spec fn attr_map(attrs: Seq<(Seq<char>, Seq<char>)>) -> Seq<(Seq<char>, Seq<char>)>
    decreases attrs.len(),
{
    if attrs.len() == 0 {
        Seq::empty()
    } else {
        sorted_insert(attr_map(attrs.drop_last()), attrs.last().0, attrs.last().1)
    }
}

/// The element's own leading text, stripped, if any is left.
pub fn own_text_exec(nodes: &Vec<DomNode>, i: usize) -> (r: Option<String>)
    requires
        i < nodes.len(),
    ensures
        opt_seq(r) == own_text(nodes@, i as int),
{
    let children = &nodes[i].children;
    let ghost cs = children@;
    let mut lead: Vec<char> = Vec::new();
    let mut k: usize = 0;
    proof {
        assert(cs.skip(0) == cs);
        assert(lead@ + leading_text(nodes@, cs.skip(0)) == leading_text(nodes@, cs));
    }
    loop
        invariant_except_break
            i < nodes.len(),
            cs == children@,
            cs == nodes@[i as int].children@,
            k <= cs.len(),
            lead@ + leading_text(nodes@, cs.skip(k as int)) == leading_text(nodes@, cs),
        ensures
            lead@ == leading_text(nodes@, cs),
        decreases cs.len() - k,
    {
        if k >= children.len() {
            proof {
                assert(cs.skip(k as int).len() == 0);
                assert(lead@ + Seq::<char>::empty() == lead@);
            }
            break;
        }
        let c = children[k];
        proof {
            assert(cs.skip(k as int)[0] == cs[k as int]);
            assert(cs.skip(k as int).drop_first() == cs.skip(k + 1));
        }
        if c >= nodes.len() {
            proof {
                assert(lead@ + Seq::<char>::empty() == lead@);
            }
            break;
        }
        match &nodes[c].kind {
            NodeKind::Text(t) => {
                let piece = chars_of(t.as_str());
                let ghost before = lead@;
                let mut q: usize = 0;
                while q < piece.len()
                    invariant
                        q <= piece.len(),
                        lead@ == before + piece@.take(q as int),
                    decreases piece.len() - q,
                {
                    lead.push(piece[q]);
                    proof {
                        assert(piece@.take(q + 1) == piece@.take(q as int).push(piece@[q as int]));
                    }
                    q += 1;
                }
                proof {
                    assert(piece@.take(piece.len() as int) == piece@);
                    assert(before + piece@ + leading_text(nodes@, cs.skip(k + 1)) == before + (piece@
                        + leading_text(nodes@, cs.skip(k + 1))));
                }
                k += 1;
            },
            _ => {
                proof {
                    assert(lead@ + Seq::<char>::empty() == lead@);
                }
                break;
            },
        }
    }
    let tr = trim_chars(lead.as_slice());
    if tr.len() > 0 {
        Some(string_from_chars(tr.as_slice()))
    } else {
        None
    }
}

/// Append all text in the subtree of node `i` to `out`.
pub fn collect_text(nodes: &Vec<DomNode>, i: usize, fuel: usize, out: &mut Vec<char>)
    requires
        links_in_range(nodes@),
        i < nodes.len(),
    ensures
        final(out)@ == old(out)@ + all_text_from(nodes@, i as int, fuel as nat),
    decreases fuel,
{
    if fuel == 0 {
        proof {
            assert(old(out)@ + Seq::<char>::empty() == old(out)@);
        }
        return;
    }
    let ghost start = out@;
    match &nodes[i].kind {
        NodeKind::Text(t) => {
            let cs = chars_of(t.as_str());
            let mut k: usize = 0;
            while k < cs.len()
                invariant
                    k <= cs.len(),
                    out@ == start + cs@.take(k as int),
                decreases cs.len() - k,
            {
                out.push(cs[k]);
                proof {
                    assert(cs@.take(k + 1) == cs@.take(k as int).push(cs@[k as int]));
                }
                k += 1;
            }
            proof {
                assert(cs@.take(cs.len() as int) == cs@);
            }
        },
        _ => {
            proof {
                assert(start + Seq::<char>::empty() == start);
            }
        },
    }
    let ghost after_own = out@;
    proof {
        assert(after_own == start + raw_text(nodes@, i as int));
    }
    let children = &nodes[i].children;
    let ghost cs = children@;
    proof {
        assert(cs.skip(0) == cs);
    }
    let mut k: usize = 0;
    while k < children.len()
        invariant
            links_in_range(nodes@),
            i < nodes.len(),
            fuel > 0,
            cs == children@,
            cs == nodes@[i as int].children@,
            k <= cs.len(),
            all_text_among(nodes@, cs, (fuel - 1) as nat) == all_text_among(nodes@, cs.take(k as int), (fuel - 1) as nat) + all_text_among(
                nodes@,
                cs.skip(k as int),
                (fuel - 1) as nat,
            ),
            out@ == after_own + all_text_among(nodes@, cs.take(k as int), (fuel - 1) as nat),
        decreases cs.len() - k,
    {
        assert(nodes@[i as int].children@[k as int] < nodes.len());
        collect_text(nodes, children[k], fuel - 1, out);
        proof {
            lemma_all_text_among_split(nodes@, cs.take(k + 1), (fuel - 1) as nat);
            assert(cs.take(k + 1).drop_last() == cs.take(k as int));
            assert(cs.skip(k as int)[0] == cs[k as int]);
            assert(cs.skip(k as int).drop_first() == cs.skip(k + 1));
        }
        k += 1;
    }
    proof {
        assert(cs.take(cs.len() as int) == cs);
    }
}

/// Splitting off the last subtree of a list.
proof fn lemma_all_text_among_split(nodes: Seq<DomNode>, cs: Seq<usize>, fuel: nat)
    requires
        cs.len() > 0,
    ensures
        all_text_among(nodes, cs, fuel) == all_text_among(nodes, cs.drop_last(), fuel) + all_text_from(
            nodes,
            cs.last() as int,
            fuel,
        ),
    decreases cs.len(),
{
    if cs.len() == 1 {
        assert(cs.drop_last() == Seq::<usize>::empty());
        assert(all_text_among(nodes, cs.drop_first(), fuel) == Seq::<char>::empty());
    } else {
        lemma_all_text_among_split(nodes, cs.drop_first(), fuel);
        assert(cs.drop_first().drop_last() == cs.drop_last().drop_first());
        assert(cs.drop_last()[0] == cs[0]);
    }
}


/// The tag names of the element ancestors of node `i`, from the root down.
pub fn ancestor_path(nodes: &Vec<DomNode>, i: usize) -> (path: Vec<String>)
    requires
        links_in_range(nodes@),
        i < nodes.len(),
    ensures
        string_views(path@) == ancestor_names(nodes@, i as int, nodes.len() as nat).reverse(),
{
    let mut nearest_first: Vec<String> = Vec::new();
    let mut cur = i;
    let mut fuel = nodes.len();
    let ghost whole = ancestor_names(nodes@, i as int, nodes.len() as nat);
    loop
        invariant_except_break
            links_in_range(nodes@),
            cur < nodes.len(),
            whole == ancestor_names(nodes@, i as int, nodes.len() as nat),
            whole == string_views(nearest_first@) + ancestor_names(nodes@, cur as int, fuel as nat),
        ensures
            whole == string_views(nearest_first@),
        decreases fuel,
    {
        if fuel == 0 {
            proof {
                assert(string_views(nearest_first@) + Seq::<Seq<char>>::empty() == string_views(nearest_first@));
            }
            break;
        }
        match nodes[cur].parent {
            None => {
                proof {
                    assert(string_views(nearest_first@) + Seq::<Seq<char>>::empty() == string_views(nearest_first@));
                }
                break;
            },
            Some(p) => {
                let ghost before = nearest_first@;
                match &nodes[p].kind {
                    NodeKind::Element { name, .. } => {
                        nearest_first.push(name.clone());
                        proof {
                            assert(string_views(nearest_first@) == string_views(before) + seq![name_of(nodes@, p as int)]);
                        }
                    },
                    _ => {
                        proof {
                            assert(string_views(before) + Seq::<Seq<char>>::empty() == string_views(before));
                        }
                    },
                }
                proof {
                    assert(ancestor_names(nodes@, cur as int, fuel as nat) == (if is_element(nodes@, p as int) {
                        seq![name_of(nodes@, p as int)]
                    } else {
                        Seq::<Seq<char>>::empty()
                    }) + ancestor_names(nodes@, p as int, (fuel - 1) as nat));
                }
                cur = p;
                fuel = fuel - 1;
            },
        }
    }
    let mut path: Vec<String> = Vec::new();
    let mut k = nearest_first.len();
    while k > 0
        invariant
            k <= nearest_first.len(),
            whole == string_views(nearest_first@),
            string_views(path@) == whole.reverse().take(whole.len() - k),
        decreases k,
    {
        k -= 1;
        let ghost before = path@;
        path.push(nearest_first[k].clone());
        proof {
            assert(string_views(path@) == string_views(before).push(whole[k as int]));
            assert(whole.reverse().take(whole.len() - k) == whole.reverse().take(whole.len() - k - 1).push(whole[k as int]));
        }
    }
    proof {
        assert(whole.reverse().take(whole.len() as int) == whole.reverse());
    }
    path
}

/// The tag names of the elements among node `owner`'s children other than
/// `skip`, in order.
pub fn child_element_names(nodes: &Vec<DomNode>, owner: usize, skip: usize) -> (names: Vec<String>)
    requires
        links_in_range(nodes@),
        owner < nodes.len(),
    ensures
        string_views(names@) == element_names(nodes@, nodes@[owner as int].children@, skip as int),
{
    let children = &nodes[owner].children;
    let ghost cs = children@;
    let mut names: Vec<String> = Vec::new();
    let mut k: usize = 0;
    proof {
        assert(cs.skip(0) == cs);
        assert(string_views(names@) == Seq::<Seq<char>>::empty());
    }
    while k < children.len()
        invariant
            links_in_range(nodes@),
            owner < nodes.len(),
            cs == children@,
            cs == nodes@[owner as int].children@,
            k <= cs.len(),
            element_names(nodes@, cs, skip as int) == string_views(names@) + element_names(nodes@, cs.skip(k as int), skip as int),
        decreases cs.len() - k,
    {
        let c = children[k];
        assert(nodes@[owner as int].children@[k as int] < nodes.len());
        let ghost before = names@;
        proof {
            assert(cs.skip(k as int)[0] == c);
            assert(cs.skip(k as int).drop_first() == cs.skip(k + 1));
        }
        if c != skip {
            match &nodes[c].kind {
                NodeKind::Element { name, .. } => {
                    names.push(name.clone());
                    proof {
                        assert(string_views(names@) == string_views(before) + seq![name_of(nodes@, c as int)]);
                    }
                },
                _ => {
                    proof {
                        assert(string_views(before) + Seq::<Seq<char>>::empty() == string_views(before));
                    }
                },
            }
        } else {
            proof {
                assert(string_views(before) + Seq::<Seq<char>>::empty() == string_views(before));
            }
        }
        k += 1;
    }
    proof {
        assert(cs.skip(cs.len() as int) == Seq::<usize>::empty());
        assert(string_views(names@) + Seq::<Seq<char>>::empty() == string_views(names@));
    }
    names
}

/// The attribute map of `attrs`: stripped values, empty ones dropped when
/// `clean` holds; values as they are otherwise.
pub fn attribute_map(attrs: &Vec<(String, String)>, clean: bool) -> (m: AttributeMap)
    ensures
        clean ==> m@ == cleaned_attrs(entry_views(attrs@)),
        !clean ==> m@ == attr_map(entry_views(attrs@)),
{
    let mut m = AttributeMap::new();
    let mut k: usize = 0;
    while k < attrs.len()
        invariant
            k <= attrs.len(),
            clean ==> m@ == cleaned_attrs(entry_views(attrs@).take(k as int)),
            !clean ==> m@ == attr_map(entry_views(attrs@).take(k as int)),
        decreases attrs.len() - k,
    {
        let (name, value) = &attrs[k];
        proof {
            let t = entry_views(attrs@).take(k + 1);
            assert(t.drop_last() == entry_views(attrs@).take(k as int));
            assert(t.last() == (name@, value@));
        }
        if clean {
            let stripped = trim_chars(chars_of(value.as_str()).as_slice());
            if stripped.len() > 0 {
                m.insert(name.clone(), string_from_chars(stripped.as_slice()));
            }
        } else {
            m.insert(name.clone(), value.clone());
        }
        k += 1;
    }
    proof {
        assert(entry_views(attrs@).take(attrs.len() as int) == entry_views(attrs@));
    }
    m
}


/// The parent of node `i` when that parent is an element.
pub open spec fn parent_element(nodes: Seq<DomNode>, i: int) -> Option<int> {
    match nodes[i].parent {
        Some(p) => if is_element(nodes, p as int) {
            Some(p as int)
        } else {
            None
        },
        None => None,
    }
}

/// Optional names as optional sequences of character sequences.
pub open spec fn opt_names(o: Option<Vec<String>>) -> Option<Seq<Seq<char>>> {
    match o {
        Some(v) => Some(string_views(v@)),
        None => None,
    }
}

/// `None` for no names at all.
pub open spec fn nonempty(s: Seq<Seq<char>>) -> Option<Seq<Seq<char>>> {
    if s.len() == 0 {
        None
    } else {
        Some(s)
    }
}

/// The tag names of the element children of node `i` (no child sits at
/// position `nodes.len()`, so none is skipped).
pub open spec fn child_names(nodes: Seq<DomNode>, i: int) -> Seq<Seq<char>> {
    element_names(nodes, nodes[i].children@, nodes.len() as int)
}

/// `f` is the fingerprint of element `i`: its tag, its attributes stripped
/// with empty values dropped, its own leading text, the tags from the root
/// down to the element itself, its parent's tag, attributes and own leading
/// text, the tags of its sibling elements and of its child elements.
pub open spec fn is_fingerprint_of(f: ElementFingerprint, nodes: Seq<DomNode>, i: int) -> bool {
    &&& f.tag@ == name_of(nodes, i)
    &&& f.attributes@ == cleaned_attrs(attrs_of(nodes, i))
    &&& opt_seq(f.text) == own_text(nodes, i)
    &&& string_views(f.path@) == ancestor_names(nodes, i, nodes.len() as nat).reverse().push(name_of(nodes, i))
    &&& match parent_element(nodes, i) {
        Some(p) => {
            &&& opt_seq(f.parent_name) == Some(name_of(nodes, p))
            &&& f.parent_attribs matches Some(m) && m@ == attr_map(attrs_of(nodes, p))
            &&& opt_seq(f.parent_text) == own_text(nodes, p)
            &&& opt_names(f.siblings) == nonempty(element_names(nodes, nodes[p].children@, i))
        },
        None => f.parent_name is None && f.parent_attribs is None && f.parent_text is None
            && f.siblings is None,
    }
    &&& opt_names(f.children) == nonempty(child_names(nodes, i))
}

/// Build the fingerprint of element `i`.
pub fn candidate_fingerprint(nodes: &Vec<DomNode>, i: usize) -> (f: ElementFingerprint)
    requires
        links_in_range(nodes@),
        is_element(nodes@, i as int),
    ensures
        is_fingerprint_of(f, nodes@, i as int),
{
    let n = nodes.len();
    let (tag, attributes) = match &nodes[i].kind {
        NodeKind::Element { name, attrs, .. } => (name.clone(), attribute_map(attrs, true)),
        _ => {
            proof {
                assert(false);
            }
            (String::new(), AttributeMap::new())
        },
    };
    let text = own_text_exec(nodes, i);
    let mut path = ancestor_path(nodes, i);
    let ghost above = path@;
    path.push(tag.clone());
    proof {
        assert(string_views(path@) == string_views(above).push(tag@));
    }
    let (parent_name, parent_attribs, parent_text, siblings) = match nodes[i].parent {
        Some(p) => match &nodes[p].kind {
            NodeKind::Element { name, attrs, .. } => {
                let pa = attribute_map(attrs, false);
                let pt = own_text_exec(nodes, p);
                let sibs = child_element_names(nodes, p, i);
                let sibs = if sibs.len() == 0 {
                    None
                } else {
                    Some(sibs)
                };
                (Some(name.clone()), Some(pa), pt, sibs)
            },
            _ => (None, None, None, None),
        },
        None => (None, None, None, None),
    };
    let children = child_element_names(nodes, i, n);
    let children = if children.len() == 0 {
        None
    } else {
        Some(children)
    };
    ElementFingerprint {
        tag,
        attributes,
        text,
        path,
        parent_name,
        parent_attribs,
        parent_text,
        siblings,
        children,
    }
}

/// Law: an element that has not changed scores full marks against its own
/// saved fingerprint: relocating it in the same page finds it with a score
/// of 100.
pub proof fn law_unchanged_element_scores_full(saved: ElementFingerprint, now: ElementFingerprint, nodes: Seq<DomNode>, i: int)
    requires
        is_fingerprint_of(saved, nodes, i),
        is_fingerprint_of(now, nodes, i),
        within_limits(saved),
    ensures
        all_full(similarity_checks_spec(saved, now)),
{
    law_self_similarity(saved);
    assert(opt_view(saved.text) == opt_view(now.text));
    assert(opt_view(saved.parent_name) == opt_view(now.parent_name));
    assert(opt_view(saved.parent_text) == opt_view(now.parent_text));
    assert(parent_attrs_view(saved) == parent_attrs_view(now));
    assert(text_checks(saved, now) == text_checks(saved, saved));
    assert(parent_checks(saved, now) == parent_checks(saved, saved));
    assert(sibling_checks(saved, now) == sibling_checks(saved, saved));
    assert(similarity_checks_spec(saved, now) == similarity_checks_spec(saved, saved));
}

/// A value as a fingerprint keeps it: stripped, and dropped when nothing is
/// left.
pub open spec fn stripped_value(o: Option<Seq<char>>) -> Option<Seq<char>> {
    match o {
        Some(v) => if trim(v).len() > 0 {
            Some(trim(v))
        } else {
            None
        },
        None => None,
    }
}

/// The value that filling a map in order keeps under `n`: the last value
/// under `n` that does not strip to nothing, stripped.
pub open spec fn last_kept(attrs: Seq<(Seq<char>, Seq<char>)>, n: Seq<char>) -> Option<Seq<char>>
    decreases attrs.len(),
{
    if attrs.len() == 0 {
        None
    } else if attrs.last().0 == n && trim(attrs.last().1).len() > 0 {
        Some(trim(attrs.last().1))
    } else {
        last_kept(attrs.drop_last(), n)
    }
}

proof fn lemma_cleaned_last_kept(attrs: Seq<(Seq<char>, Seq<char>)>, n: Seq<char>)
    ensures
        lookup(cleaned_attrs(attrs), n) == last_kept(attrs, n),
    decreases attrs.len(),
{
    if attrs.len() > 0 {
        let e = attrs.last();
        lemma_cleaned_last_kept(attrs.drop_last(), n);
        if trim(e.1).len() > 0 {
            lemma_lookup_sorted_insert(cleaned_attrs(attrs.drop_last()), e.0, trim(e.1), n);
        }
    }
}

proof fn lemma_last_kept_single(attrs: Seq<(Seq<char>, Seq<char>)>, n: Seq<char>, p: int)
    requires
        0 <= p < attrs.len(),
        attrs[p].0 == n,
        forall|k: int| 0 <= k < attrs.len() && k != p && #[trigger] attrs[k].0 == n ==> trim(attrs[k].1).len() == 0,
    ensures
        last_kept(attrs, n) == stripped_value(Some(attrs[p].1)),
    decreases attrs.len(),
{
    let d = attrs.drop_last();
    if p < attrs.len() - 1 {
        assert(attrs.last() == attrs[attrs.len() - 1]);
        assert forall|k: int| 0 <= k < d.len() && k != p && #[trigger] d[k].0 == n implies trim(d[k].1).len() == 0 by {
            assert(d[k] == attrs[k]);
        }
        assert(d[p] == attrs[p]);
        lemma_last_kept_single(d, n, p);
    } else {
        assert(attrs.last() == attrs[p]);
        if trim(attrs[p].1).len() == 0 {
            assert forall|k: int| 0 <= k < d.len() && #[trigger] d[k].0 == n implies trim(d[k].1).len() == 0 by {
                assert(d[k] == attrs[k]);
            }
            lemma_last_kept_none(d, n);
        }
    }
}

proof fn lemma_last_kept_none(attrs: Seq<(Seq<char>, Seq<char>)>, n: Seq<char>)
    requires
        forall|k: int| 0 <= k < attrs.len() && #[trigger] attrs[k].0 == n ==> trim(attrs[k].1).len() == 0,
    ensures
        last_kept(attrs, n) is None,
    decreases attrs.len(),
{
    if attrs.len() > 0 {
        let d = attrs.drop_last();
        assert(attrs.last() == attrs[attrs.len() - 1]);
        assert forall|k: int| 0 <= k < d.len() && #[trigger] d[k].0 == n implies trim(d[k].1).len() == 0 by {
            assert(d[k] == attrs[k]);
        }
        lemma_last_kept_none(d, n);
    }
}

/// The value of the first attribute of element `i` from position `k` on
/// that is named `n` and has neither prefix nor namespace.
pub open spec fn plain_value_from(nodes: Seq<DomNode>, i: int, n: Seq<char>, k: int) -> Option<Seq<char>>
    decreases attrs_of(nodes, i).len() - k,
{
    if k < 0 || k >= attrs_of(nodes, i).len() {
        None
    } else if attr_is_plain(nodes, i, k) && attrs_of(nodes, i)[k].0 == n {
        Some(attrs_of(nodes, i)[k].1)
    } else {
        plain_value_from(nodes, i, n, k + 1)
    }
}

/// The value of the attribute of element `i` named `n` that has neither
/// prefix nor namespace: the one `attribute()` looks up.
pub open spec fn plain_value(nodes: Seq<DomNode>, i: int, n: Seq<char>) -> Option<Seq<char>> {
    plain_value_from(nodes, i, n, 0)
}

/// Element `i` has at most one attribute named `n` without prefix or
/// namespace.
pub open spec fn one_plain_named(nodes: Seq<DomNode>, i: int, n: Seq<char>) -> bool {
    forall|k1: int, k2: int|
        0 <= k1 < attrs_of(nodes, i).len() && 0 <= k2 < attrs_of(nodes, i).len() && attr_is_plain(nodes, i, k1)
            && attr_is_plain(nodes, i, k2) && #[trigger] attrs_of(nodes, i)[k1].0 == n && #[trigger] attrs_of(
            nodes,
            i,
        )[k2].0 == n ==> k1 == k2
}

/// Every attribute of element `i` named `n` that has a prefix or a
/// namespace strips to nothing.
pub open spec fn prefixed_named_empty(nodes: Seq<DomNode>, i: int, n: Seq<char>) -> bool {
    forall|k: int|
        0 <= k < attrs_of(nodes, i).len() && #[trigger] attrs_of(nodes, i)[k].0 == n && !attr_is_plain(nodes, i, k)
            ==> trim(attrs_of(nodes, i)[k].1).len() == 0
}

/// The plain attribute at `k0` is the one `plain_value` names.
pub proof fn lemma_plain_value(nodes: Seq<DomNode>, i: int, n: Seq<char>, k0: int, k: int)
    requires
        one_plain_named(nodes, i, n),
        0 <= k <= k0 < attrs_of(nodes, i).len(),
        attr_is_plain(nodes, i, k0),
        attrs_of(nodes, i)[k0].0 == n,
    ensures
        plain_value_from(nodes, i, n, k) == Some(attrs_of(nodes, i)[k0].1),
    decreases k0 - k,
{
    if k < k0 {
        if attr_is_plain(nodes, i, k) && attrs_of(nodes, i)[k].0 == n {
            assert(k == k0);
        }
        lemma_plain_value(nodes, i, n, k0, k + 1);
    }
}

/// With no attribute named `n` without prefix or namespace, `plain_value`
/// names nothing.
pub proof fn lemma_plain_value_none(nodes: Seq<DomNode>, i: int, n: Seq<char>, k: int)
    requires
        0 <= k,
        !has_plain_name(nodes, i, n),
    ensures
        plain_value_from(nodes, i, n, k) is None,
    decreases attrs_of(nodes, i).len() - k,
{
    if k < attrs_of(nodes, i).len() {
        if attr_is_plain(nodes, i, k) && attrs_of(nodes, i)[k].0 == n {
            assert(has_plain_name(nodes, i, n));
        }
        lemma_plain_value_none(nodes, i, n, k + 1);
    }
}

/// Law: for every name `n` of which the element has at most one attribute
/// without prefix or namespace, and whose attributes with a prefix or a
/// namespace strip to nothing, the fingerprint holds under `n` the value of
/// that attribute (the one `attribute()` looks up), stripped; nothing where
/// that value strips to nothing or there is no such attribute.
pub proof fn law_fingerprint_attributes(f: ElementFingerprint, nodes: Seq<DomNode>, i: int, n: Seq<char>)
    requires
        is_fingerprint_of(f, nodes, i),
        one_plain_named(nodes, i, n),
        prefixed_named_empty(nodes, i, n),
    ensures
        lookup(f.attributes@, n) == stripped_value(plain_value(nodes, i, n)),
{
    let a = attrs_of(nodes, i);
    lemma_cleaned_last_kept(a, n);
    if has_plain_name(nodes, i, n) {
        let p = choose|k: int| 0 <= k < a.len() && attr_is_plain(nodes, i, k) && #[trigger] a[k].0 == n;
        lemma_plain_value(nodes, i, n, p, 0);
        assert forall|k: int| 0 <= k < a.len() && k != p && #[trigger] a[k].0 == n implies trim(a[k].1).len() == 0 by {
            if attr_is_plain(nodes, i, k) {
                assert(k == p);
            }
        }
        lemma_last_kept_single(a, n, p);
    } else {
        lemma_plain_value_none(nodes, i, n, 0);
        assert forall|k: int| 0 <= k < a.len() && #[trigger] a[k].0 == n implies trim(a[k].1).len() == 0 by {
            if attr_is_plain(nodes, i, k) {
                assert(has_plain_name(nodes, i, n));
            }
        }
        lemma_last_kept_none(a, n);
    }
}

/// Law: the element names of a list of children are those of its parts, in
/// order: no child, before or after the skipped one, is passed over.
pub proof fn law_element_names_concat(nodes: Seq<DomNode>, x: Seq<usize>, y: Seq<usize>, skip: int)
    ensures
        element_names(nodes, x + y, skip) == element_names(nodes, x, skip) + element_names(nodes, y, skip),
    decreases x.len(),
{
    if x.len() == 0 {
        assert(x + y == y);
    } else {
        assert((x + y)[0] == x[0]);
        assert((x + y).drop_first() == x.drop_first() + y);
        law_element_names_concat(nodes, x.drop_first(), y, skip);
    }
}

/// Law: a single child gives its tag name when it is an element other than
/// the skipped one, and nothing otherwise.
pub proof fn law_element_names_one(nodes: Seq<DomNode>, c: usize, skip: int)
    ensures
        element_names(nodes, seq![c], skip) == if c < nodes.len() && nodes[c as int].kind is Element && c != skip {
            seq![nodes[c as int].kind->name@]
        } else {
            Seq::<Seq<char>>::empty()
        },
{
    assert(seq![c][0] == c);
    assert(seq![c].drop_first() == Seq::<usize>::empty());
    assert(element_names(nodes, Seq::<usize>::empty(), skip) == Seq::<Seq<char>>::empty());
    let head = if is_element(nodes, c as int) && c != skip {
        seq![name_of(nodes, c as int)]
    } else {
        Seq::<Seq<char>>::empty()
    };
    assert(head + Seq::<Seq<char>>::empty() == head);
}

} // verus!
