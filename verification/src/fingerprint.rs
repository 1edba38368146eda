//! Element fingerprints and the comparisons that score a candidate element
//! against a saved one.
use crate::attributes::{AttributeMap, key_views, lookup, value_views};
use crate::difflib::{codes, law_ratio_relabel, one_to_one_on, law_identical_ratio_is_one, law_ratio_at_most_one, ratio_codes, ratio_of, str_ratio, symbols_ratio, Ratio};
use crate::text::string_views;
use vstd::prelude::*;

verus! {

/// A saved element: everything the similarity score reads.
#[derive(Debug, Clone, PartialEq)]
pub struct ElementFingerprint {
    pub tag: String,
    /// Attribute name to value, whitespace-stripped, empty values dropped.
    pub attributes: AttributeMap,
    /// The element's own leading text (the text before its first child that
    /// is not text), stripped; `None` when nothing is left.
    pub text: Option<String>,
    /// The tags from the root down to the element itself.
    pub path: Vec<String>,
    pub parent_name: Option<String>,
    pub parent_attribs: Option<AttributeMap>,
    pub parent_text: Option<String>,
    pub siblings: Option<Vec<String>>,
    pub children: Option<Vec<String>>,
}

/// One comparison of the similarity score; each is worth between 0 and 1.
#[derive(Debug, Clone, Copy, PartialEq, Eq, Structural)]
pub enum Check {
    /// Worth 1 when the compared values are equal, 0 otherwise.
    Equal(bool),
    /// Worth the ratio.
    Similarity(Ratio),
    /// Worth half the ratio of the attribute names plus half the ratio of
    /// their values.
    Attributes(Ratio, Ratio),
}

/// The text of an optional string, empty when absent.
pub open spec fn opt_view(o: Option<String>) -> Seq<char> {
    match o {
        Some(s) => s@,
        None => Seq::empty(),
    }
}

/// Where `x` first occurs in `all` (`all.len()` when it does not).
pub open spec fn first_index(all: Seq<Seq<char>>, x: Seq<char>) -> int
    decreases all.len(),
{
    if all.len() == 0 {
        0
    } else if all[0] == x {
        0
    } else {
        1 + first_index(all.drop_first(), x)
    }
}

/// Each name as a symbol: the place where it first occurs in `all`.
pub open spec fn name_ids(names: Seq<Seq<char>>, all: Seq<Seq<char>>) -> Seq<usize> {
    names.map_values(|x: Seq<char>| first_index(all, x) as usize)
}

/// difflib's ratio of two sequences of names, compared element by element:
/// two elements match when the names are equal. Each name stands as the
/// place where it first occurs in the two sequences together, so equal
/// names, and only they, become equal symbols.
pub open spec fn seq_ratio_spec(a: Seq<Seq<char>>, b: Seq<Seq<char>>) -> Ratio {
    ratio_codes(name_ids(a, a + b), name_ids(b, a + b))
}

/// The comparison of two attribute maps.
pub open spec fn dict_diff_spec(a: Seq<(Seq<char>, Seq<char>)>, b: Seq<(Seq<char>, Seq<char>)>) -> Check {
    Check::Attributes(
        seq_ratio_spec(key_views(a), key_views(b)),
        seq_ratio_spec(value_views(a), value_views(b)),
    )
}

/// The comparison of one named attribute, made when the saved element has it.
pub open spec fn named_attribute_check(
    a: Seq<(Seq<char>, Seq<char>)>,
    b: Seq<(Seq<char>, Seq<char>)>,
    name: Seq<char>,
) -> Seq<Check> {
    match lookup(a, name) {
        Some(v) => seq![
            Check::Similarity(
                ratio_of(
                    v,
                    match lookup(b, name) {
                        Some(w) => w,
                        None => Seq::empty(),
                    },
                ),
            ),
        ],
        None => Seq::empty(),
    }
}

/// The parent's attributes, empty when there is no parent.
pub open spec fn parent_attrs_view(f: ElementFingerprint) -> Seq<(Seq<char>, Seq<char>)> {
    match f.parent_attribs {
        Some(m) => m@,
        None => Seq::empty(),
    }
}

/// The comparisons of the parents, made when both elements have one.
pub open spec fn parent_checks(o: ElementFingerprint, c: ElementFingerprint) -> Seq<Check> {
    if o.parent_name is Some && c.parent_name is Some {
        seq![
            Check::Similarity(ratio_of(o.parent_name->0@, c.parent_name->0@)),
            dict_diff_spec(parent_attrs_view(o), parent_attrs_view(c)),
        ] + match o.parent_text {
            Some(t) => seq![Check::Similarity(ratio_of(t@, opt_view(c.parent_text)))],
            None => Seq::empty(),
        }
    } else {
        Seq::empty()
    }
}

/// The comparison of the siblings, made when the saved element has some.
pub open spec fn sibling_checks(o: ElementFingerprint, c: ElementFingerprint) -> Seq<Check> {
    match o.siblings {
        Some(s) => seq![
            Check::Similarity(
                seq_ratio_spec(
                    string_views(s@),
                    match c.siblings {
                        Some(t) => string_views(t@),
                        None => Seq::empty(),
                    },
                ),
            ),
        ],
        None => Seq::empty(),
    }
}

/// The comparisons that score `c` against the saved `o`, in order: tag,
/// text, attributes, the `class`, `id`, `href` and `src` attributes, path,
/// parent and siblings.
pub open spec fn similarity_checks_spec(o: ElementFingerprint, c: ElementFingerprint) -> Seq<Check> {
    seq![Check::Equal(o.tag@ == c.tag@)] + text_checks(o, c) + seq![dict_diff_spec(o.attributes@, c.attributes@)] + named_attribute_check(
        o.attributes@,
        c.attributes@,
        "class"@,
    ) + named_attribute_check(o.attributes@, c.attributes@, "id"@) + named_attribute_check(
        o.attributes@,
        c.attributes@,
        "href"@,
    ) + named_attribute_check(o.attributes@, c.attributes@, "src"@) + seq![
        Check::Similarity(seq_ratio_spec(string_views(o.path@), string_views(c.path@))),
    ] + parent_checks(o, c) + sibling_checks(o, c)
}

/// The text of an optional string, `""` when absent.
fn opt_str(o: &Option<String>) -> (s: &str)
    ensures
        s@ == opt_view(*o),
{
    match o {
        Some(s) => s.as_str(),
        None => {
            proof {
                reveal_strlit("");
            }
            ""
        },
    }
}

proof fn lemma_first_index(all: Seq<Seq<char>>, x: Seq<char>, k: int)
    requires
        0 <= k < all.len(),
        all[k] == x,
        forall|t: int| 0 <= t < k ==> all[t] != x,
    ensures
        first_index(all, x) == k,
    decreases k,
{
    if k > 0 {
        assert forall|t: int| 0 <= t < k - 1 implies all.drop_first()[t] != x by {
            assert(all.drop_first()[t] == all[t + 1]);
        }
        lemma_first_index(all.drop_first(), x, k - 1);
    }
}

proof fn lemma_first_index_found(all: Seq<Seq<char>>, x: Seq<char>)
    requires
        all.contains(x),
    ensures
        0 <= first_index(all, x) < all.len(),
        all[first_index(all, x)] == x,
    decreases all.len(),
{
    if all[0] != x {
        let t = choose|t: int| 0 <= t < all.len() && all[t] == x;
        assert(all.drop_first()[t - 1] == x);
        lemma_first_index_found(all.drop_first(), x);
    }
}

/// Law: a name's symbol identifies it: two names that occur among `all`
/// get the same symbol exactly when they are equal, so the ratio of two
/// name sequences counts equal names as matching elements.
pub proof fn law_names_as_symbols(all: Seq<Seq<char>>, x: Seq<char>, y: Seq<char>)
    requires
        all.len() <= usize::MAX,
        all.contains(x),
        all.contains(y),
    ensures
        (first_index(all, x) as usize == first_index(all, y) as usize) <==> x == y,
{
    lemma_first_index_found(all, x);
    lemma_first_index_found(all, y);
}

/// `g` gives different numbers to different names among `a` and `b`.
pub open spec fn numbers_names(g: spec_fn(Seq<char>) -> usize, a: Seq<Seq<char>>, b: Seq<Seq<char>>) -> bool {
    forall|x: Seq<char>, y: Seq<char>|
        #![trigger (a + b).contains(x), (a + b).contains(y), g(x), g(y)]
        (a + b).contains(x) && (a + b).contains(y) && g(x) == g(y) ==> x == y
}

/// The symbol at position `p` of `a + b` is that of the name there.
proof fn lemma_symbol_at(a: Seq<Seq<char>>, b: Seq<Seq<char>>, p: int)
    requires
        (a + b).len() <= usize::MAX,
        0 <= p < (a + b).len(),
    ensures
        (name_ids(a, a + b) + name_ids(b, a + b))[p] == first_index(a + b, (a + b)[p]) as usize,
        0 <= first_index(a + b, (a + b)[p]) < (a + b).len(),
        (a + b)[first_index(a + b, (a + b)[p])] == (a + b)[p],
{
    let all = a + b;
    assert(all.contains(all[p]));
    lemma_first_index_found(all, all[p]);
    if p < a.len() {
        assert(all[p] == a[p]);
        assert((name_ids(a, all) + name_ids(b, all))[p] == name_ids(a, all)[p]);
    } else {
        assert(all[p] == b[p - a.len()]);
        assert((name_ids(a, all) + name_ids(b, all))[p] == name_ids(b, all)[p - a.len()]);
    }
}

/// Law: the ratio of two name sequences is difflib's ratio over the names
/// themselves, element by element: numbering the names in any one-to-one
/// way gives the same ratio.
pub proof fn law_seq_ratio_element_wise(a: Seq<Seq<char>>, b: Seq<Seq<char>>, g: spec_fn(Seq<char>) -> usize)
    requires
        (a + b).len() <= usize::MAX,
        numbers_names(g, a, b),
    ensures
        seq_ratio_spec(a, b) == ratio_codes(a.map_values(g), b.map_values(g)),
{
    let all = a + b;
    let ia = name_ids(a, all);
    let ib = name_ids(b, all);
    let h = |s: usize| g(all[s as int]);
    assert(ia.map_values(h) =~= a.map_values(g)) by {
        assert forall|p: int| 0 <= p < a.len() implies ia.map_values(h)[p] == a.map_values(g)[p] by {
            lemma_symbol_at(a, b, p);
            assert(all[p] == a[p]);
            assert((ia + ib)[p] == ia[p]);
        }
    }
    assert(ib.map_values(h) =~= b.map_values(g)) by {
        assert forall|p: int| 0 <= p < b.len() implies ib.map_values(h)[p] == b.map_values(g)[p] by {
            lemma_symbol_at(a, b, a.len() + p);
            assert(all[a.len() + p] == b[p]);
            assert((ia + ib)[a.len() + p] == ib[p]);
        }
    }
    assert(one_to_one_on(h, ia, ib)) by {
        assert forall|x: usize, y: usize|
            #![trigger (ia + ib).contains(x), (ia + ib).contains(y), h(x), h(y)]
            (ia + ib).contains(x) && (ia + ib).contains(y) && h(x) == h(y) implies x == y by {
            let p = choose|p: int| 0 <= p < (ia + ib).len() && (ia + ib)[p] == x;
            let q = choose|q: int| 0 <= q < (ia + ib).len() && (ia + ib)[q] == y;
            lemma_symbol_at(a, b, p);
            lemma_symbol_at(a, b, q);
            let np = all[p];
            let nq = all[q];
            assert(h(x) == g(np));
            assert(h(y) == g(nq));
            assert(all.contains(np));
            assert(all.contains(nq));
        }
    }
    law_ratio_relabel(ia, ib, h);
}

/// Where the name `x`, which occurs in `all`, first occurs there.
fn first_index_of(all: &Vec<String>, x: &String) -> (k: usize)
    requires
        string_views(all@).contains(x@),
    ensures
        k == first_index(string_views(all@), x@),
{
    let mut k: usize = 0;
    while k < all.len()
        invariant
            k <= all.len(),
            forall|t: int| 0 <= t < k ==> all@[t]@ != x@,
            exists|t: int| k <= t < all.len() && string_views(all@)[t] == x@,
        decreases all.len() - k,
    {
        proof {
            if k == 0 {
                let t = choose|t: int| 0 <= t < string_views(all@).len() && string_views(all@)[t] == x@;
                assert(string_views(all@)[t] == x@);
            }
        }
        if all[k] == *x {
            proof {
                let v = string_views(all@);
                assert forall|t: int| 0 <= t < k implies v[t] != x@ by {
                    assert(v[t] == all@[t]@);
                }
                lemma_first_index(v, x@, k as int);
            }
            return k;
        }
        k += 1;
    }
    proof {
        assert(false);
    }
    0
}

/// The symbols of `names`: each is the place where that name first occurs in
/// `all`, where every name of `names` occurs.
fn names_to_ids(names: &[String], all: &Vec<String>) -> (ids: Vec<usize>)
    requires
        forall|p: int| 0 <= p < names.len() ==> string_views(all@).contains(#[trigger] names@[p]@),
    ensures
        ids@ == name_ids(string_views(names@), string_views(all@)),
{
    let mut ids: Vec<usize> = Vec::new();
    let mut p: usize = 0;
    while p < names.len()
        invariant
            p <= names.len(),
            forall|q: int| 0 <= q < names.len() ==> string_views(all@).contains(#[trigger] names@[q]@),
            ids@ == name_ids(string_views(names@.take(p as int)), string_views(all@)),
        decreases names.len() - p,
    {
        let id = first_index_of(all, &names[p]);
        ids.push(id);
        proof {
            assert(string_views(names@.take(p + 1)) == string_views(names@.take(p as int)).push(names@[p as int]@));
            assert(ids@ =~= name_ids(string_views(names@.take(p + 1)), string_views(all@)));
        }
        p += 1;
    }
    proof {
        assert(names@.take(names.len() as int) == names@);
    }
    ids
}

/// difflib's ratio of two sequences of names, element by element.
pub fn seq_ratio(a: &[String], b: &[String]) -> (r: Ratio)
    ensures
        r == seq_ratio_spec(string_views(a@), string_views(b@)),
{
    let mut all: Vec<String> = Vec::new();
    let mut k: usize = 0;
    while k < a.len()
        invariant
            k <= a.len(),
            all@.len() == k,
            forall|t: int| 0 <= t < k ==> all@[t]@ == a@[t]@,
        decreases a.len() - k,
    {
        all.push(a[k].clone());
        k += 1;
    }
    let mut k: usize = 0;
    while k < b.len()
        invariant
            k <= b.len(),
            all@.len() == a.len() + k,
            forall|t: int| 0 <= t < a.len() ==> all@[t]@ == a@[t]@,
            forall|t: int| 0 <= t < k ==> all@[a.len() + t]@ == b@[t]@,
        decreases b.len() - k,
    {
        all.push(b[k].clone());
        k += 1;
    }
    let ghost va = string_views(a@);
    let ghost vb = string_views(b@);
    proof {
        assert(string_views(all@) =~= va + vb) by {
            assert forall|t: int| 0 <= t < all@.len() implies string_views(all@)[t] == (va + vb)[t] by {
                if t < a.len() {
                } else {
                    assert(all@[t]@ == b@[t - a.len()]@);
                }
            }
        }
        assert forall|p: int| 0 <= p < a.len() implies string_views(all@).contains(#[trigger] a@[p]@) by {
            assert(string_views(all@)[p] == a@[p]@);
        }
        assert forall|p: int| 0 <= p < b.len() implies string_views(all@).contains(#[trigger] b@[p]@) by {
            assert(string_views(all@)[a.len() + p] == b@[p]@);
        }
    }
    let ia = names_to_ids(a, &all);
    let ib = names_to_ids(b, &all);
    symbols_ratio(ia.as_slice(), ib.as_slice())
}

/// Compare two attribute maps: their names, and their values in name order.
pub fn dict_diff(a: &AttributeMap, b: &AttributeMap) -> (c: Check)
    ensures
        c == dict_diff_spec(a@, b@),
{
    let keys = seq_ratio(a.keys().as_slice(), b.keys().as_slice());
    let values = seq_ratio(a.values().as_slice(), b.values().as_slice());
    Check::Attributes(keys, values)
}

/// Add the comparison of the attribute `name` when the saved element has it.
fn push_named_attribute(checks: &mut Vec<Check>, a: &AttributeMap, b: &AttributeMap, name: &str)
    ensures
        final(checks)@ == old(checks)@ + named_attribute_check(a@, b@, name@),
{
    match a.get(name) {
        Some(v) => {
            let w = match b.get(name) {
                Some(w) => w.as_str(),
                None => {
                    proof {
                        reveal_strlit("");
                    }
                    ""
                },
            };
            checks.push(Check::Similarity(str_ratio(v.as_str(), w)));
        },
        None => {
            proof {
                assert(old(checks)@ + Seq::<Check>::empty() == old(checks)@);
            }
        },
    }
}

/// The comparison of the texts, made when the saved element has text.
pub open spec fn text_checks(o: ElementFingerprint, c: ElementFingerprint) -> Seq<Check> {
    match o.text {
        Some(t) => seq![Check::Similarity(ratio_of(t@, opt_view(c.text)))],
        None => Seq::empty(),
    }
}

fn push_text_check(checks: &mut Vec<Check>, original: &ElementFingerprint, candidate: &ElementFingerprint)
    ensures
        final(checks)@ == old(checks)@ + text_checks(*original, *candidate),
{
    match &original.text {
        Some(t) => {
            checks.push(Check::Similarity(str_ratio(t.as_str(), opt_str(&candidate.text))));
        },
        None => {
            proof {
                assert(old(checks)@ + Seq::<Check>::empty() == old(checks)@);
            }
        },
    }
}

fn push_parent_checks(checks: &mut Vec<Check>, original: &ElementFingerprint, candidate: &ElementFingerprint)
    ensures
        final(checks)@ == old(checks)@ + parent_checks(*original, *candidate),
{
    let ghost start = checks@;
    match &original.parent_name {
        Some(parent_name) => {
            match &candidate.parent_name {
                Some(candidate_parent) => {
                    checks.push(Check::Similarity(str_ratio(parent_name.as_str(), candidate_parent.as_str())));
                    let empty = AttributeMap::new();
                    let pa = match &original.parent_attribs {
                        Some(m) => m,
                        None => &empty,
                    };
                    let pb = match &candidate.parent_attribs {
                        Some(m) => m,
                        None => &empty,
                    };
                    checks.push(dict_diff(pa, pb));
                    let ghost mid = checks@;
                    match &original.parent_text {
                        Some(t) => {
                            checks.push(Check::Similarity(str_ratio(t.as_str(), opt_str(&candidate.parent_text))));
                        },
                        None => {},
                    }
                    proof {
                        let both = seq![
                            Check::Similarity(ratio_of(parent_name@, candidate_parent@)),
                            dict_diff_spec(parent_attrs_view(*original), parent_attrs_view(*candidate)),
                        ];
                        assert(mid == start + both);
                        assert(checks@ == start + parent_checks(*original, *candidate));
                    }
                },
                None => {
                    proof {
                        assert(start + Seq::<Check>::empty() == start);
                    }
                },
            }
        },
        None => {
            proof {
                assert(start + Seq::<Check>::empty() == start);
            }
        },
    }
}

fn push_sibling_checks(checks: &mut Vec<Check>, original: &ElementFingerprint, candidate: &ElementFingerprint)
    ensures
        final(checks)@ == old(checks)@ + sibling_checks(*original, *candidate),
{
    match &original.siblings {
        Some(siblings) => {
            let empty: Vec<String> = Vec::new();
            let cs = match &candidate.siblings {
                Some(s) => s,
                None => &empty,
            };
            proof {
                assert(string_views(empty@) =~= Seq::<Seq<char>>::empty());
            }
            checks.push(Check::Similarity(seq_ratio(siblings.as_slice(), cs.as_slice())));
        },
        None => {
            proof {
                assert(old(checks)@ + Seq::<Check>::empty() == old(checks)@);
            }
        },
    }
}

/// The comparisons that score `candidate` against the saved `original`,
/// in the order in which the score adds them up.
pub fn similarity_checks(original: &ElementFingerprint, candidate: &ElementFingerprint) -> (r: Vec<Check>)
    ensures
        r@ == similarity_checks_spec(*original, *candidate),
{
    let ghost o = *original;
    let ghost c = *candidate;
    let mut checks: Vec<Check> = Vec::new();
    checks.push(Check::Equal(original.tag == candidate.tag));
    let ghost p1 = checks@;
    push_text_check(&mut checks, original, candidate);
    checks.push(dict_diff(&original.attributes, &candidate.attributes));
    let ghost p3 = checks@;
    push_named_attribute(&mut checks, &original.attributes, &candidate.attributes, "class");
    push_named_attribute(&mut checks, &original.attributes, &candidate.attributes, "id");
    push_named_attribute(&mut checks, &original.attributes, &candidate.attributes, "href");
    push_named_attribute(&mut checks, &original.attributes, &candidate.attributes, "src");
    checks.push(Check::Similarity(seq_ratio(original.path.as_slice(), candidate.path.as_slice())));
    let ghost p5 = checks@;
    push_parent_checks(&mut checks, original, candidate);
    push_sibling_checks(&mut checks, original, candidate);
    proof {
        assert(p1 == seq![Check::Equal(o.tag@ == c.tag@)]);
        assert(checks@ == similarity_checks_spec(o, c));
    }
    checks
}


/// The ratio is exactly 1.
pub open spec fn ratio_is_one(r: Ratio) -> bool {
    r.numerator() == r.denominator()
}

/// The comparison is worth its full 1.
pub open spec fn check_is_full(c: Check) -> bool {
    match c {
        Check::Equal(b) => b,
        Check::Similarity(r) => ratio_is_one(r),
        Check::Attributes(k, v) => ratio_is_one(k) && ratio_is_one(v),
    }
}

/// Every text that the score compares fits in memory.
pub open spec fn within_limits(f: ElementFingerprint) -> bool {
    &&& f.tag@.len() <= usize::MAX
    &&& opt_view(f.text).len() <= usize::MAX
    &&& opt_view(f.parent_name).len() <= usize::MAX
    &&& opt_view(f.parent_text).len() <= usize::MAX
    &&& key_views(f.attributes@).len() <= usize::MAX
    &&& value_views(f.attributes@).len() <= usize::MAX
    &&& key_views(parent_attrs_view(f)).len() <= usize::MAX
    &&& value_views(parent_attrs_view(f)).len() <= usize::MAX
    &&& forall|k: Seq<char>| #[trigger]
        lookup(f.attributes@, k) is Some ==> lookup(f.attributes@, k)->0.len() <= usize::MAX
    &&& string_views(f.path@).len() <= usize::MAX
    &&& match f.siblings {
        Some(s) => string_views(s@).len() <= usize::MAX,
        None => true,
    }
}

proof fn lemma_ratio_self(a: Seq<char>)
    requires
        a.len() <= usize::MAX,
    ensures
        ratio_is_one(ratio_of(a, a)),
{
    law_identical_ratio_is_one(codes(a));
}

proof fn lemma_names_self(a: Seq<Seq<char>>)
    requires
        a.len() <= usize::MAX,
    ensures
        ratio_is_one(seq_ratio_spec(a, a)),
{
    law_identical_ratio_is_one(name_ids(a, a + a));
}

/// Every comparison in `s` is worth its full 1.
pub open spec fn all_full(s: Seq<Check>) -> bool {
    forall|i: int| 0 <= i < s.len() ==> check_is_full(#[trigger] s[i])
}

proof fn lemma_all_full_concat(x: Seq<Check>, y: Seq<Check>)
    requires
        all_full(x),
        all_full(y),
    ensures
        all_full(x + y),
{
    assert forall|i: int| 0 <= i < (x + y).len() implies check_is_full(#[trigger] (x + y)[i]) by {
        if i < x.len() {
            assert((x + y)[i] == x[i]);
        } else {
            assert((x + y)[i] == y[i - x.len()]);
        }
    }
}

proof fn lemma_named_full(f: ElementFingerprint, n: Seq<char>)
    requires
        within_limits(f),
    ensures
        all_full(named_attribute_check(f.attributes@, f.attributes@, n)),
{
    if lookup(f.attributes@, n) is Some {
        lemma_ratio_self(lookup(f.attributes@, n)->0);
    }
}

proof fn lemma_parent_full(f: ElementFingerprint)
    requires
        within_limits(f),
    ensures
        all_full(parent_checks(f, f)),
{
    lemma_ratio_self(opt_view(f.parent_name));
    lemma_ratio_self(opt_view(f.parent_text));
    lemma_names_self(key_views(parent_attrs_view(f)));
    lemma_names_self(value_views(parent_attrs_view(f)));
    if f.parent_name is Some {
        let two = seq![
            Check::Similarity(ratio_of(f.parent_name->0@, f.parent_name->0@)),
            dict_diff_spec(parent_attrs_view(f), parent_attrs_view(f)),
        ];
        let third = match f.parent_text {
            Some(t) => seq![Check::Similarity(ratio_of(t@, opt_view(f.parent_text)))],
            None => Seq::<Check>::empty(),
        };
        assert(all_full(two));
        assert(all_full(third));
        lemma_all_full_concat(two, third);
    }
}

/// Law: an element compared with its own fingerprint scores full marks on
/// every comparison, so its similarity score is 100.
pub proof fn law_self_similarity(f: ElementFingerprint)
    requires
        within_limits(f),
    ensures
        all_full(similarity_checks_spec(f, f)),
{
    lemma_ratio_self(f.tag@);
    lemma_ratio_self(opt_view(f.text));
    lemma_names_self(key_views(f.attributes@));
    lemma_names_self(value_views(f.attributes@));
    lemma_names_self(string_views(f.path@));
    match f.siblings {
        Some(s) => lemma_names_self(string_views(s@)),
        None => {},
    }
    let p0 = seq![Check::Equal(f.tag@ == f.tag@)];
    let p1 = text_checks(f, f);
    let p2 = seq![dict_diff_spec(f.attributes@, f.attributes@)];
    let p3 = named_attribute_check(f.attributes@, f.attributes@, "class"@);
    let p4 = named_attribute_check(f.attributes@, f.attributes@, "id"@);
    let p5 = named_attribute_check(f.attributes@, f.attributes@, "href"@);
    let p6 = named_attribute_check(f.attributes@, f.attributes@, "src"@);
    let p7 = seq![Check::Similarity(seq_ratio_spec(string_views(f.path@), string_views(f.path@)))];
    let p8 = parent_checks(f, f);
    let p9 = sibling_checks(f, f);
    assert(all_full(p0));
    assert(all_full(p1));
    assert(all_full(p2));
    lemma_named_full(f, "class"@);
    lemma_named_full(f, "id"@);
    lemma_named_full(f, "href"@);
    lemma_named_full(f, "src"@);
    assert(all_full(p7));
    lemma_parent_full(f);
    assert(all_full(p9));
    lemma_all_full_concat(p0, p1);
    lemma_all_full_concat(p0 + p1, p2);
    lemma_all_full_concat(p0 + p1 + p2, p3);
    lemma_all_full_concat(p0 + p1 + p2 + p3, p4);
    lemma_all_full_concat(p0 + p1 + p2 + p3 + p4, p5);
    lemma_all_full_concat(p0 + p1 + p2 + p3 + p4 + p5, p6);
    lemma_all_full_concat(p0 + p1 + p2 + p3 + p4 + p5 + p6, p7);
    lemma_all_full_concat(p0 + p1 + p2 + p3 + p4 + p5 + p6 + p7, p8);
    lemma_all_full_concat(p0 + p1 + p2 + p3 + p4 + p5 + p6 + p7 + p8, p9);
}

/// The comparison is worth at most 1.
pub open spec fn check_at_most_full(c: Check) -> bool {
    match c {
        Check::Equal(_) => true,
        Check::Similarity(r) => r.numerator() <= r.denominator(),
        Check::Attributes(k, v) => k.numerator() <= k.denominator() && v.numerator() <= v.denominator(),
    }
}

/// Every comparison in `s` is worth at most 1.
pub open spec fn all_at_most_full(s: Seq<Check>) -> bool {
    forall|i: int| 0 <= i < s.len() ==> check_at_most_full(#[trigger] s[i])
}

proof fn lemma_all_at_most_full_concat(x: Seq<Check>, y: Seq<Check>)
    requires
        all_at_most_full(x),
        all_at_most_full(y),
    ensures
        all_at_most_full(x + y),
{
    assert forall|i: int| 0 <= i < (x + y).len() implies check_at_most_full(#[trigger] (x + y)[i]) by {
        if i < x.len() {
            assert((x + y)[i] == x[i]);
        } else {
            assert((x + y)[i] == y[i - x.len()]);
        }
    }
}

proof fn lemma_ratio_bounded(a: Seq<char>, b: Seq<char>)
    requires
        a.len() <= usize::MAX,
        b.len() <= usize::MAX,
    ensures
        ratio_of(a, b).numerator() <= ratio_of(a, b).denominator(),
{
    law_ratio_at_most_one(codes(a), codes(b));
}

proof fn lemma_names_bounded(a: Seq<Seq<char>>, b: Seq<Seq<char>>)
    requires
        a.len() <= usize::MAX,
        b.len() <= usize::MAX,
    ensures
        seq_ratio_spec(a, b).numerator() <= seq_ratio_spec(a, b).denominator(),
{
    law_ratio_at_most_one(name_ids(a, a + b), name_ids(b, a + b));
}

proof fn lemma_named_bounded(o: ElementFingerprint, c: ElementFingerprint, n: Seq<char>)
    requires
        within_limits(o),
        within_limits(c),
    ensures
        all_at_most_full(named_attribute_check(o.attributes@, c.attributes@, n)),
{
    if lookup(o.attributes@, n) is Some {
        let w = match lookup(c.attributes@, n) {
            Some(w) => w,
            None => Seq::<char>::empty(),
        };
        lemma_ratio_bounded(lookup(o.attributes@, n)->0, w);
    }
}

proof fn lemma_parent_bounded(o: ElementFingerprint, c: ElementFingerprint)
    requires
        within_limits(o),
        within_limits(c),
    ensures
        all_at_most_full(parent_checks(o, c)),
{
    lemma_ratio_bounded(opt_view(o.parent_name), opt_view(c.parent_name));
    lemma_ratio_bounded(opt_view(o.parent_text), opt_view(c.parent_text));
    lemma_names_bounded(key_views(parent_attrs_view(o)), key_views(parent_attrs_view(c)));
    lemma_names_bounded(value_views(parent_attrs_view(o)), value_views(parent_attrs_view(c)));
    if o.parent_name is Some && c.parent_name is Some {
        let two = seq![
            Check::Similarity(ratio_of(o.parent_name->0@, c.parent_name->0@)),
            dict_diff_spec(parent_attrs_view(o), parent_attrs_view(c)),
        ];
        let third = match o.parent_text {
            Some(t) => seq![Check::Similarity(ratio_of(t@, opt_view(c.parent_text)))],
            None => Seq::<Check>::empty(),
        };
        assert(all_at_most_full(two));
        assert(all_at_most_full(third));
        lemma_all_at_most_full_concat(two, third);
    }
}

/// Law: every comparison of the score is worth between 0 and 1, so the
/// similarity score lies between 0 and 100.
pub proof fn law_checks_at_most_full(o: ElementFingerprint, c: ElementFingerprint)
    requires
        within_limits(o),
        within_limits(c),
    ensures
        all_at_most_full(similarity_checks_spec(o, c)),
{
    lemma_ratio_bounded(opt_view(o.text), opt_view(c.text));
    lemma_names_bounded(key_views(o.attributes@), key_views(c.attributes@));
    lemma_names_bounded(value_views(o.attributes@), value_views(c.attributes@));
    lemma_names_bounded(string_views(o.path@), string_views(c.path@));
    let cs = match c.siblings {
        Some(t) => string_views(t@),
        None => Seq::empty(),
    };
    match o.siblings {
        Some(s) => lemma_names_bounded(string_views(s@), cs),
        None => {},
    }
    let p0 = seq![Check::Equal(o.tag@ == c.tag@)];
    let p1 = text_checks(o, c);
    let p2 = seq![dict_diff_spec(o.attributes@, c.attributes@)];
    let p3 = named_attribute_check(o.attributes@, c.attributes@, "class"@);
    let p4 = named_attribute_check(o.attributes@, c.attributes@, "id"@);
    let p5 = named_attribute_check(o.attributes@, c.attributes@, "href"@);
    let p6 = named_attribute_check(o.attributes@, c.attributes@, "src"@);
    let p7 = seq![Check::Similarity(seq_ratio_spec(string_views(o.path@), string_views(c.path@)))];
    let p8 = parent_checks(o, c);
    let p9 = sibling_checks(o, c);
    assert(all_at_most_full(p0));
    assert(all_at_most_full(p1));
    assert(all_at_most_full(p2));
    lemma_named_bounded(o, c, "class"@);
    lemma_named_bounded(o, c, "id"@);
    lemma_named_bounded(o, c, "href"@);
    lemma_named_bounded(o, c, "src"@);
    assert(all_at_most_full(p7));
    lemma_parent_bounded(o, c);
    assert(all_at_most_full(p9));
    lemma_all_at_most_full_concat(p0, p1);
    lemma_all_at_most_full_concat(p0 + p1, p2);
    lemma_all_at_most_full_concat(p0 + p1 + p2, p3);
    lemma_all_at_most_full_concat(p0 + p1 + p2 + p3, p4);
    lemma_all_at_most_full_concat(p0 + p1 + p2 + p3 + p4, p5);
    lemma_all_at_most_full_concat(p0 + p1 + p2 + p3 + p4 + p5, p6);
    lemma_all_at_most_full_concat(p0 + p1 + p2 + p3 + p4 + p5 + p6, p7);
    lemma_all_at_most_full_concat(p0 + p1 + p2 + p3 + p4 + p5 + p6 + p7, p8);
    lemma_all_at_most_full_concat(p0 + p1 + p2 + p3 + p4 + p5 + p6 + p7 + p8, p9);
}

/// Law: the number of comparisons is fixed by the saved fingerprint (and by
/// whether both elements have a parent): tag, attributes and path always;
/// text when the saved element has text; each of `class`, `id`, `href` and
/// `src` that the saved element has; the parent's tag and attributes, and
/// its text when the saved parent has some; siblings when the saved element
/// has some. When the saved element has text, the second comparison is that
/// text against the candidate's text, or against nothing when the candidate
/// has none.
pub proof fn law_check_count(o: ElementFingerprint, c: ElementFingerprint)
    ensures
        similarity_checks_spec(o, c).len() == 3 + (if o.text is Some { 1int } else { 0 }) + (if lookup(
            o.attributes@,
            "class"@,
        ) is Some { 1int } else { 0 }) + (if lookup(o.attributes@, "id"@) is Some { 1int } else { 0 }) + (
        if lookup(o.attributes@, "href"@) is Some { 1int } else { 0 }) + (if lookup(o.attributes@, "src"@) is Some {
            1int
        } else { 0 }) + (if o.parent_name is Some && c.parent_name is Some {
            2 + if o.parent_text is Some { 1int } else { 0 }
        } else { 0 }) + (if o.siblings is Some { 1int } else { 0 }),
        o.text matches Some(t) ==> similarity_checks_spec(o, c)[1] == Check::Similarity(
            ratio_of(
                t@,
                match c.text {
                    Some(u) => u@,
                    None => Seq::<char>::empty(),
                },
            ),
        ),
{
    let p0 = seq![Check::Equal(o.tag@ == c.tag@)];
    let p1 = text_checks(o, c);
    let p2 = seq![dict_diff_spec(o.attributes@, c.attributes@)];
    let p3 = named_attribute_check(o.attributes@, c.attributes@, "class"@);
    let p4 = named_attribute_check(o.attributes@, c.attributes@, "id"@);
    let p5 = named_attribute_check(o.attributes@, c.attributes@, "href"@);
    let p6 = named_attribute_check(o.attributes@, c.attributes@, "src"@);
    let p7 = seq![Check::Similarity(seq_ratio_spec(string_views(o.path@), string_views(c.path@)))];
    let p8 = parent_checks(o, c);
    let p9 = sibling_checks(o, c);
    let all = p0 + p1 + p2 + p3 + p4 + p5 + p6 + p7 + p8 + p9;
    assert(similarity_checks_spec(o, c) == all);
    assert(p1.len() == if o.text is Some { 1int } else { 0 });
    assert(p8.len() == if o.parent_name is Some && c.parent_name is Some {
        2 + if o.parent_text is Some { 1int } else { 0 }
    } else { 0 });
    if o.text is Some {
        let q = p0 + p1;
        assert(q[1] == p1[0]);
        assert(all[1] == q[1]);
    }
}

} // verus!
