//! Parsed documents, their elements, CSS selection, and the choice of the
//! best-scoring candidates when an element is relocated.
use crate::dom::{
    attr_is_plain, has_plain_attr, has_plain_name, lemma_plain_value, lemma_plain_value_none, one_plain_named, plain_value,
    attrs_of, candidate_fingerprint, collect_text, is_element, is_fingerprint_of, links_in_range,
    name_of, parse_html, parsed_document, selector_error, tree_nodes, all_text_from, html_nodes,
    DomNode, NodeKind,
};
use crate::fingerprint::{similarity_checks, similarity_checks_spec, Check, ElementFingerprint};
use crate::text::{collapse_chars, collapse_white_space, is_white_space, law_collapse_ends, string_from_chars};
use vstd::prelude::*;

verus! {

/// Errors returned by selector parsing.
#[derive(Debug)]
pub enum Error {
    /// The CSS selector does not parse; the message says why.
    InvalidSelector(String),
}

/// The positions of the elements of `h` that the CSS selector `selector`
/// matches, in the order of the tree's node list.
pub uninterp spec fn selected(h: scraper::Html, selector: Seq<char>) -> Seq<usize>;

/// The inner HTML of the element at position `i` of `h`.
pub uninterp spec fn inner_html_of(h: scraper::Html, i: usize) -> Seq<char>;

/// The value of the attribute `name` of the element at position `i` of `h`.
pub uninterp spec fn attribute_of(h: scraper::Html, i: usize, name: Seq<char>) -> Option<Seq<char>>;

/// `scraper::Selector::parse`, then `scraper::Html::select` with the parsed
/// selector: the positions of the matching elements, or the parse error's
/// message. Besides their name, the positions are known to be elements with
/// a parent, each listed once, in increasing order.
#[verifier::external_body]
fn select_matching(h: &scraper::Html, selector: &str) -> (r: Result<Vec<usize>, String>)
    ensures
        match r {
            Ok(v) => {
                &&& selector_error(selector@) is None
                &&& v@ == selected(*h, selector@)
                &&& forall|k: int| 0 <= k < v.len() ==> is_element(html_nodes(*h), #[trigger] v@[k] as int)
                    && html_nodes(*h)[v@[k] as int].parent is Some
                &&& forall|k1: int, k2: int| 0 <= k1 < k2 < v.len() ==> v@[k1] < v@[k2]
            },
            Err(m) => selector_error(selector@) == Some(m@),
        },
{
    let sel = scraper::Selector::parse(selector).map_err(|e| e.to_string())?;
    // The tree keeps its nodes in one vector, in the order of their ids.
    let ids: Vec<_> = h.tree.nodes().map(|n| n.id()).collect();
    Ok(h.select(&sel).map(|e| ids.binary_search(&e.id()).unwrap()).collect())
}

/// The nodes of the tree that an element belongs to (`ElementRef::tree`).
pub uninterp spec fn ref_nodes(e: scraper::ElementRef) -> Seq<DomNode>;

/// The position of an element's node in its tree's node list
/// (`ElementRef::id`, which indexes that list).
pub uninterp spec fn ref_position(e: scraper::ElementRef) -> usize;

/// `scraper::ElementRef::wrap` on the node at position `i`: the element of
/// the tree of `h` at that position.
#[verifier::external_body]
fn element_ref_at<'b>(h: &'b scraper::Html, i: usize) -> (e: scraper::ElementRef<'b>)
    requires
        is_element(html_nodes(*h), i as int),
    ensures
        ref_nodes(e) == html_nodes(*h),
        ref_position(e) == i,
{
    scraper::ElementRef::wrap(h.tree.nodes().nth(i).unwrap()).unwrap()
}

/// `scraper::ElementRef::inner_html` of the element at position `i`: the
/// serialization of its children.
#[verifier::external_body]
fn inner_html_at(h: &scraper::Html, i: usize) -> (s: String)
    requires
        is_element(html_nodes(*h), i as int),
    ensures
        s@ == inner_html_of(*h, i),
{
    scraper::ElementRef::wrap(h.tree.nodes().nth(i).unwrap()).unwrap().inner_html()
}

/// `scraper::node::Element::attr` of the element at position `i`: the value
/// of the attribute of that name that has neither a prefix nor a namespace,
/// if the element has one.
#[verifier::external_body]
fn attr_at<'b>(h: &'b scraper::Html, i: usize, name: &str) -> (r: Option<&'b str>)
    requires
        is_element(html_nodes(*h), i as int),
    ensures
        match r {
            Some(v) => attribute_of(*h, i, name@) == Some(v@),
            None => attribute_of(*h, i, name@) is None,
        },
        r matches Some(v) ==> has_plain_attr(html_nodes(*h), i as int, name@, v@),
        has_plain_name(html_nodes(*h), i as int, name@) ==> r is Some,
{
    scraper::ElementRef::wrap(h.tree.nodes().nth(i).unwrap()).unwrap().value().attr(name)
}

/// A parsed HTML document.
pub struct AdaptiveDocument {
    html: scraper::Html,
    nodes: Vec<DomNode>,
}

impl View for AdaptiveDocument {
    type V = Seq<DomNode>;

    closed spec fn view(&self) -> Seq<DomNode> {
        self.nodes@
    }
}

/// A located element of a document.
pub struct AdaptiveElement<'a> {
    doc: &'a AdaptiveDocument,
    node: usize,
}

/// Ascending positions below `n` of the element nodes.
pub open spec fn element_positions(nodes: Seq<DomNode>, n: int) -> Seq<usize>
    decreases n,
{
    if n <= 0 {
        Seq::empty()
    } else if is_element(nodes, n - 1) {
        element_positions(nodes, n - 1).push((n - 1) as usize)
    } else {
        element_positions(nodes, n - 1)
    }
}

/// Law: the element positions are exactly the positions of the element
/// nodes, whatever their children, in increasing order.
pub proof fn law_element_positions(nodes: Seq<DomNode>, n: int)
    requires
        0 <= n <= nodes.len(),
        nodes.len() <= usize::MAX,
    ensures
        forall|i: int|
            0 <= i < n ==> (element_positions(nodes, n).contains(i as usize) <==> nodes[i].kind is Element),
        forall|k: int| 0 <= k < element_positions(nodes, n).len() ==> #[trigger] element_positions(nodes, n)[k] < n,
        forall|k1: int, k2: int|
            0 <= k1 < k2 < element_positions(nodes, n).len() ==> #[trigger] element_positions(nodes, n)[k1]
                < #[trigger] element_positions(nodes, n)[k2],
    decreases n,
{
    if n > 0 {
        law_element_positions(nodes, n - 1);
        let prev = element_positions(nodes, n - 1);
        let cur = element_positions(nodes, n);
        if nodes[n - 1].kind is Element {
            assert(cur == prev.push((n - 1) as usize));
            assert forall|i: int| 0 <= i < n implies (cur.contains(i as usize) <==> nodes[i].kind is Element) by {
                if i < n - 1 {
                    if cur.contains(i as usize) {
                        let k = choose|k: int| 0 <= k < cur.len() && cur[k] == i as usize;
                        if k < prev.len() {
                            assert(prev[k] == cur[k]);
                        }
                    }
                    if prev.contains(i as usize) {
                        let k = choose|k: int| 0 <= k < prev.len() && prev[k] == i as usize;
                        assert(cur[k] == prev[k]);
                    }
                } else {
                    assert(cur[prev.len() as int] == (n - 1) as usize);
                }
            }
        } else {
            assert(cur == prev);
            assert forall|i: int| 0 <= i < n implies (cur.contains(i as usize) <==> nodes[i].kind is Element) by {
                if i == n - 1 && cur.contains(i as usize) {
                    let k = choose|k: int| 0 <= k < cur.len() && cur[k] == i as usize;
                    assert(prev[k] < n - 1);
                }
            }
        }
    }
}

impl AdaptiveDocument {
    #[verifier::type_invariant]
    closed spec fn inv(&self) -> bool {
        &&& self.nodes@ == html_nodes(self.html)
        &&& links_in_range(self.nodes@)
    }

    /// Parse an HTML document.
    pub fn parse(html: &str) -> (d: Self)
        ensures
            d@ == parsed_document(html@),
    {
        let tree = parse_html(html);
        let nodes = tree_nodes(&tree);
        AdaptiveDocument { html: tree, nodes }
    }

    /// The parsed tree that the document holds.
    pub closed spec fn tree(&self) -> scraper::Html {
        self.html
    }

    /// All elements matching a CSS selector, in tree order.
    pub fn css(&self, selector: &str) -> (r: Result<Vec<AdaptiveElement<'_>>, Error>)
        ensures
            r is Err <==> selector_error(selector@) is Some,
            r matches Err(Error::InvalidSelector(m)) ==> selector_error(selector@) == Some(m@),
            r matches Ok(v) ==> {
                &&& v.len() == selected(self.tree(), selector@).len()
                &&& forall|k: int|
                    0 <= k < v.len() ==> (#[trigger] v@[k]).doc_view() == self@
                        && v@[k].node_index() == selected(self.tree(), selector@)[k]
                        && is_element(self@, v@[k].node_index() as int)
                        && self@[v@[k].node_index() as int].parent is Some
                &&& forall|k1: int, k2: int|
                    0 <= k1 < k2 < v.len() ==> v@[k1].node_index() < v@[k2].node_index()
            },
    {
        proof {
            use_type_invariant(self);
        }
        match select_matching(&self.html, selector) {
            Err(m) => Err(Error::InvalidSelector(m)),
            Ok(positions) => {
                match self.elements_at(positions.as_slice()) {
                    Some(v) => Ok(v),
                    None => {
                        proof {
                            assert(false);
                        }
                        Ok(Vec::new())
                    },
                }
            },
        }
    }

    /// The elements at the given positions of the node list, in the given
    /// order; `None` when a position does not hold an element.
    pub fn elements_at(&self, positions: &[usize]) -> (r: Option<Vec<AdaptiveElement<'_>>>)
        ensures
            r is Some <==> forall|k: int| 0 <= k < positions.len() ==> is_element(self@, #[trigger] positions@[k] as int),
            r matches Some(v) ==> v.len() == positions.len() && forall|k: int|
                0 <= k < v.len() ==> (#[trigger] v@[k]).doc_view() == self@ && v@[k].node_index() == positions@[k],
    {
        let mut out: Vec<AdaptiveElement<'_>> = Vec::new();
        let mut k: usize = 0;
        while k < positions.len()
            invariant
                k <= positions.len(),
                out.len() == k,
                forall|t: int| 0 <= t < k ==> is_element(self@, #[trigger] positions@[t] as int),
                forall|t: int| 0 <= t < k ==> (#[trigger] out@[t]).doc_view() == self@ && out@[t].node_index() == positions@[t],
            decreases positions.len() - k,
        {
            match self.element(positions[k]) {
                Some(e) => out.push(e),
                None => return None,
            }
            k += 1;
        }
        Some(out)
    }

    /// The first element matching a CSS selector.
    pub fn css_first(&self, selector: &str) -> (r: Result<Option<AdaptiveElement<'_>>, Error>)
        ensures
            r is Err <==> selector_error(selector@) is Some,
            r matches Err(Error::InvalidSelector(m)) ==> selector_error(selector@) == Some(m@),
            r matches Ok(None) ==> selected(self.tree(), selector@).len() == 0,
            r matches Ok(Some(e)) ==> {
                &&& selected(self.tree(), selector@).len() > 0
                &&& e.node_index() == selected(self.tree(), selector@)[0]
                &&& e.doc_view() == self@
                &&& is_element(self@, e.node_index() as int)
                &&& self@[e.node_index() as int].parent is Some
            },
    {
        match self.css(selector) {
            Err(e) => Err(e),
            Ok(v) => {
                if v.len() == 0 {
                    Ok(None)
                } else {
                    let mut v = v;
                    Ok(Some(v.swap_remove(0)))
                }
            },
        }
    }

    /// The positions of all element nodes, in tree order.
    pub fn element_nodes(&self) -> (r: Vec<usize>)
        ensures
            r@ == element_positions(self@, self@.len() as int),
            forall|i: int| 0 <= i < self@.len() ==> (r@.contains(i as usize) <==> self@[i].kind is Element),
    {
        proof {
            assert(self@.len() == self.nodes.len());
            law_element_positions(self@, self@.len() as int);
        }
        let mut r: Vec<usize> = Vec::new();
        let mut k: usize = 0;
        while k < self.nodes.len()
            invariant
                k <= self.nodes.len(),
                r@ == element_positions(self.nodes@, k as int),
            decreases self.nodes.len() - k,
        {
            match &self.nodes[k].kind {
                NodeKind::Element { .. } => {
                    r.push(k);
                },
                _ => {},
            }
            k += 1;
        }
        r
    }

    /// The element at position `i` of the tree's node list, if that node is
    /// an element.
    pub fn element(&self, i: usize) -> (r: Option<AdaptiveElement<'_>>)
        ensures
            r is Some <==> is_element(self@, i as int),
            r matches Some(e) ==> e.doc_view() == self@ && e.node_index() == i,
    {
        if i < self.nodes.len() {
            match &self.nodes[i].kind {
                NodeKind::Element { .. } => Some(AdaptiveElement { doc: self, node: i }),
                _ => None,
            }
        } else {
            None
        }
    }

    /// Every element of the document, in tree order, with the comparisons
    /// that score it against the saved `fingerprint`: the candidates of a
    /// relocation.
    pub fn candidate_checks(&self, fingerprint: &ElementFingerprint) -> (r: Vec<(usize, Vec<Check>)>)
        ensures
            r.len() == element_positions(self@, self@.len() as int).len(),
            forall|k: int|
                0 <= k < r.len() ==> {
                    &&& (#[trigger] r@[k]).0 == element_positions(self@, self@.len() as int)[k]
                    &&& exists|f: ElementFingerprint|
                        is_fingerprint_of(f, self@, r@[k].0 as int) && r@[k].1@ == similarity_checks_spec(
                            *fingerprint,
                            f,
                        )
                },
            forall|i: int|
                0 <= i < self@.len() && self@[i].kind is Element ==> exists|k: int|
                    0 <= k < r.len() && (#[trigger] r@[k]).0 == i,
    {
        proof {
            use_type_invariant(self);
            assert(self@.len() == self.nodes.len());
            law_element_positions(self@, self@.len() as int);
        }
        let mut out: Vec<(usize, Vec<Check>)> = Vec::new();
        let mut k: usize = 0;
        while k < self.nodes.len()
            invariant
                k <= self.nodes.len(),
                links_in_range(self.nodes@),
                out.len() == element_positions(self.nodes@, k as int).len(),
                forall|t: int|
                    0 <= t < out.len() ==> {
                        &&& (#[trigger] out@[t]).0 == element_positions(self.nodes@, k as int)[t]
                        &&& exists|f: ElementFingerprint|
                            is_fingerprint_of(f, self.nodes@, out@[t].0 as int) && out@[t].1@
                                == similarity_checks_spec(*fingerprint, f)
                    },
            decreases self.nodes.len() - k,
        {
            let ghost before = out@;
            match &self.nodes[k].kind {
                NodeKind::Element { .. } => {
                    let f = candidate_fingerprint(&self.nodes, k);
                    let checks = similarity_checks(fingerprint, &f);
                    out.push((k, checks));
                    proof {
                        assert(element_positions(self.nodes@, k + 1) == element_positions(self.nodes@, k as int).push(k));
                        assert forall|t: int| 0 <= t < out.len() implies {
                            &&& (#[trigger] out@[t]).0 == element_positions(self.nodes@, k + 1)[t]
                            &&& exists|g: ElementFingerprint|
                                is_fingerprint_of(g, self.nodes@, out@[t].0 as int) && out@[t].1@
                                    == similarity_checks_spec(*fingerprint, g)
                        } by {
                            if t < before.len() {
                                assert(out@[t] == before[t]);
                            } else {
                                assert(is_fingerprint_of(f, self.nodes@, out@[t].0 as int));
                            }
                        }
                    }
                },
                _ => {},
            }
            k += 1;
        }
        proof {
            let ep = element_positions(self@, self@.len() as int);
            assert forall|i: int| 0 <= i < self@.len() && self@[i].kind is Element implies exists|k: int|
                0 <= k < out.len() && (#[trigger] out@[k]).0 == i by {
                assert(ep.contains(i as usize));
                let k = choose|k: int| 0 <= k < ep.len() && ep[k] == i as usize;
                assert(out@[k].0 == ep[k]);
            }
        }
        out
    }
}

impl<'a> AdaptiveElement<'a> {
    #[verifier::type_invariant]
    closed spec fn inv(&self) -> bool {
        is_element(self.doc@, self.node as int)
    }

    /// The nodes of the element's document.
    pub closed spec fn doc_view(&self) -> Seq<DomNode> {
        self.doc@
    }

    /// The parsed tree of the element's document.
    pub closed spec fn doc_tree(&self) -> scraper::Html {
        self.doc.tree()
    }

    /// The element's position in the document's node list.
    pub closed spec fn node_index(&self) -> usize {
        self.node
    }

    /// The element's position in the document's node list.
    pub fn node(&self) -> (i: usize)
        ensures
            i == self.node_index(),
            is_element(self.doc_view(), i as int),
    {
        proof {
            use_type_invariant(self);
        }
        self.node
    }

    /// The element's tag name.
    pub fn tag(&self) -> (s: String)
        ensures
            s@ == name_of(self.doc_view(), self.node_index() as int),
    {
        proof {
            use_type_invariant(self);
        }
        match &self.doc.nodes[self.node].kind {
            NodeKind::Element { name, .. } => name.clone(),
            _ => {
                proof {
                    assert(false);
                }
                String::new()
            },
        }
    }

    /// All descendant text, concatenated and stripped.
    pub fn text(&self) -> (s: String)
        ensures
            s@ == collapse_white_space(
                all_text_from(self.doc_view(), self.node_index() as int, self.doc_view().len() as nat),
            ),
            s@.len() > 0 ==> !is_white_space(s@[0]) && !is_white_space(s@.last()),
    {
        proof {
            use_type_invariant(self);
            use_type_invariant(self.doc);
        }
        let mut all: Vec<char> = Vec::new();
        collect_text(&self.doc.nodes, self.node, self.doc.nodes.len(), &mut all);
        proof {
            assert(Seq::<char>::empty() + all_text_from(self.doc@, self.node as int, self.doc@.len() as nat)
                == all_text_from(self.doc@, self.node as int, self.doc@.len() as nat));
        }
        let collapsed = collapse_chars(all.as_slice());
        proof {
            law_collapse_ends(all@);
        }
        string_from_chars(collapsed.as_slice())
    }

    /// The value of an attribute, if present: that of the attribute of that
    /// name without prefix or namespace.
    pub fn attribute(&self, name: &str) -> (r: Option<&'a str>)
        ensures
            match r {
                Some(v) => attribute_of(self.doc_tree(), self.node_index(), name@) == Some(v@),
                None => attribute_of(self.doc_tree(), self.node_index(), name@) is None,
            },
            r matches Some(v) ==> has_plain_attr(self.doc_view(), self.node_index() as int, name@, v@),
            has_plain_name(self.doc_view(), self.node_index() as int, name@) ==> r is Some,
            one_plain_named(self.doc_view(), self.node_index() as int, name@) ==> match r {
                Some(v) => plain_value(self.doc_view(), self.node_index() as int, name@) == Some(v@),
                None => plain_value(self.doc_view(), self.node_index() as int, name@) is None,
            },
    {
        proof {
            use_type_invariant(self);
            use_type_invariant(self.doc);
        }
        let r = attr_at(&self.doc.html, self.node, name);
        proof {
            let a = attrs_of(self.doc@, self.node as int);
            let i = self.node as int;
            if one_plain_named(self.doc@, i, name@) {
                match r {
                    Some(v) => {
                        let k = choose|k: int| 0 <= k < a.len() && attr_is_plain(self.doc@, i, k) && #[trigger] a[k] == (name@, v@);
                        lemma_plain_value(self.doc@, i, name@, k, 0);
                    },
                    None => {
                        lemma_plain_value_none(self.doc@, i, name@, 0);
                    },
                }
            }
        }
        r
    }

    /// The inner HTML of the element.
    pub fn html(&self) -> (s: String)
        ensures
            s@ == inner_html_of(self.doc_tree(), self.node_index()),
    {
        proof {
            use_type_invariant(self);
            use_type_invariant(self.doc);
        }
        inner_html_at(&self.doc.html, self.node)
    }

    /// Capture the fingerprint for later relocation.
    pub fn fingerprint(&self) -> (f: ElementFingerprint)
        ensures
            is_fingerprint_of(f, self.doc_view(), self.node_index() as int),
    {
        proof {
            use_type_invariant(self);
            use_type_invariant(self.doc);
        }
        candidate_fingerprint(&self.doc.nodes, self.node)
    }

    /// The wrapped `scraper` element, for what this API does not cover.
    pub fn as_element_ref(&self) -> (e: scraper::ElementRef<'a>)
        ensures
            ref_nodes(e) == self.doc_view(),
            ref_position(e) == self.node_index(),
    {
        proof {
            use_type_invariant(self);
            use_type_invariant(self.doc);
        }
        element_ref_at(&self.doc.html, self.node)
    }
}


/// The highest of the scores, `None` when there are none.
pub open spec fn max_score(scores: Seq<u64>) -> Option<u64>
    decreases scores.len(),
{
    if scores.len() == 0 {
        None
    } else {
        match max_score(scores.drop_last()) {
            None => Some(scores.last()),
            Some(m) => Some(if scores.last() > m { scores.last() } else { m }),
        }
    }
}

/// Ascending positions below `n` at which `scores` holds `v`.
pub open spec fn positions_with(scores: Seq<u64>, v: u64, n: int) -> Seq<usize>
    decreases n,
{
    if n <= 0 {
        Seq::empty()
    } else if scores[n - 1] == v {
        positions_with(scores, v, n - 1).push((n - 1) as usize)
    } else {
        positions_with(scores, v, n - 1)
    }
}

proof fn lemma_max_score(scores: Seq<u64>)
    ensures
        max_score(scores) is None <==> scores.len() == 0,
        max_score(scores) matches Some(m) ==> (forall|t: int| 0 <= t < scores.len() ==> scores[t] <= m)
            && exists|t: int| 0 <= t < scores.len() && scores[t] == m,
    decreases scores.len(),
{
    if scores.len() > 0 {
        lemma_max_score(scores.drop_last());
        let m = max_score(scores);
        assert forall|t: int| 0 <= t < scores.len() implies scores[t] <= m->0 by {
            if t < scores.len() - 1 {
                assert(scores[t] == scores.drop_last()[t]);
            }
        }
        if max_score(scores.drop_last()) is Some {
            let p = max_score(scores.drop_last())->0;
            if scores.last() <= p {
                let t = choose|t: int| 0 <= t < scores.drop_last().len() && scores.drop_last()[t] == p;
                assert(scores[t] == p);
            }
        }
        assert(scores[scores.len() - 1] == scores.last());
    }
}

proof fn lemma_positions_none(scores: Seq<u64>, v: u64, n: int)
    requires
        n <= scores.len(),
        forall|t: int| 0 <= t < n ==> scores[t] != v,
    ensures
        positions_with(scores, v, n) == Seq::<usize>::empty(),
    decreases n,
{
    if n > 0 {
        lemma_positions_none(scores, v, n - 1);
    }
}

/// The highest score and every position that holds it, in order: the group
/// that relocation returns. `None` and no positions when there are no scores.
pub fn best_group(scores: &[u64]) -> (r: (Option<u64>, Vec<usize>))
    ensures
        r.0 == max_score(scores@),
        r.1@ == match r.0 {
            Some(b) => positions_with(scores@, b, scores@.len() as int),
            None => Seq::empty(),
        },
        r.0 is None <==> scores@.len() == 0,
        r.0 matches Some(b) ==> forall|t: int| 0 <= t < scores@.len() ==> scores@[t] <= b,
{
    let mut best: Option<u64> = None;
    let mut group: Vec<usize> = Vec::new();
    let mut k: usize = 0;
    while k < scores.len()
        invariant
            k <= scores.len(),
            best == max_score(scores@.take(k as int)),
            group@ == match best {
                Some(b) => positions_with(scores@, b, k as int),
                None => Seq::empty(),
            },
        decreases scores.len() - k,
    {
        let score = scores[k];
        proof {
            assert(scores@.take(k + 1).drop_last() == scores@.take(k as int));
            assert(scores@.take(k + 1).last() == score);
            lemma_max_score(scores@.take(k as int));
        }
        match best {
            None => {
                best = Some(score);
                group = Vec::new();
                group.push(k);
                proof {
                    assert(k == 0);
                    assert(positions_with(scores@, score, 0) == Seq::<usize>::empty());
                    assert(positions_with(scores@, score, 1) == seq![0usize]);
                }
            },
            Some(b) => {
                if score > b {
                    best = Some(score);
                    group = Vec::new();
                    group.push(k);
                    proof {
                        assert forall|t: int| 0 <= t < k implies scores@[t] != score by {
                            assert(scores@.take(k as int)[t] == scores@[t]);
                        }
                        lemma_positions_none(scores@, score, k as int);
                        assert(positions_with(scores@, score, k + 1) == positions_with(scores@, score, k as int).push(k));
                    }
                } else if score == b {
                    group.push(k);
                    proof {
                        assert(positions_with(scores@, b, k + 1) == positions_with(scores@, b, k as int).push(k));
                    }
                } else {
                    proof {
                        assert(positions_with(scores@, b, k + 1) == positions_with(scores@, b, k as int));
                    }
                }
            },
        }
        k += 1;
    }
    proof {
        assert(scores@.take(scores@.len() as int) == scores@);
        lemma_max_score(scores@);
    }
    (best, group)
}

} // verus!
