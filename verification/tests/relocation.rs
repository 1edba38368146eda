use adaptive_selector::fingerprint::seq_ratio;
use adaptive_selector::{
    best_group, similarity_checks, AdaptiveDocument, AdaptiveElement, Check, ElementFingerprint,
    Error, Ratio,
};

const BEFORE: &str = r#"
    <html><body>
        <div class="product">
            <h2 class="title">Widget</h2>
            <span class="price">$9.99</span>
        </div>
    </body></html>
"#;
const REDESIGNED: &str = r#"
    <html><body>
        <section class="product-card">
            <h3 class="product-title">Widget</h3>
            <span class="product-price__current">$9.99</span>
        </section>
    </body></html>
"#;

fn ratio_value(r: Ratio) -> f64 {
    let total = r.len_a + r.len_b;
    if total == 0 {
        return 1.0;
    }
    (2.0 * r.matches as f64) / total as f64
}

fn check_value(c: &Check) -> f64 {
    match c {
        Check::Equal(b) => {
            if *b {
                1.0
            } else {
                0.0
            }
        }
        Check::Similarity(r) => ratio_value(*r),
        Check::Attributes(k, v) => ratio_value(*k) * 0.5 + ratio_value(*v) * 0.5,
    }
}

/// The score in hundredths of a percent point, rounded as the score is.
fn score_hundredths(checks: &[Check]) -> u64 {
    let mut score = 0.0f64;
    for c in checks {
        score += check_value(c);
    }
    ((score / checks.len() as f64) * 100.0 * 100.0).round() as u64
}

fn relocate<'a>(
    doc: &'a AdaptiveDocument,
    fingerprint: &ElementFingerprint,
    threshold: f64,
) -> Vec<AdaptiveElement<'a>> {
    let candidates = doc.candidate_checks(fingerprint);
    let scores: Vec<u64> = candidates
        .iter()
        .map(|(_, checks)| score_hundredths(checks))
        .collect();
    let (best, group) = best_group(&scores);
    match best {
        Some(b) if b as f64 / 100.0 >= threshold => {
            let positions: Vec<usize> = group.iter().map(|&k| candidates[k].0).collect();
            doc.elements_at(&positions).unwrap()
        }
        _ => Vec::new(),
    }
}

#[test]
fn relocates_after_redesign() {
    let doc = AdaptiveDocument::parse(BEFORE);
    let saved = doc
        .css_first("span.price")
        .unwrap()
        .expect("price exists before")
        .fingerprint();

    let doc2 = AdaptiveDocument::parse(REDESIGNED);
    let found = relocate(&doc2, &saved, 40.0);
    assert!(
        !found.is_empty(),
        "redesign should still relocate the price"
    );
    assert_eq!(found[0].text(), "$9.99");
    assert_eq!(found[0].attribute("class"), Some("product-price__current"));
}

#[test]
fn selector_that_still_matches_outperforms_relocation() {
    let doc = AdaptiveDocument::parse(BEFORE);
    assert_eq!(
        doc.css_first("span.price").unwrap().unwrap().text(),
        "$9.99"
    );
}

#[test]
fn threshold_rejects_weak_matches() {
    let doc = AdaptiveDocument::parse(BEFORE);
    let saved = doc.css_first("span.price").unwrap().unwrap().fingerprint();
    let unrelated =
        AdaptiveDocument::parse("<html><body><footer>legal text</footer></body></html>");
    assert!(relocate(&unrelated, &saved, 99.0).is_empty());
}

#[test]
fn fingerprint_records_the_element_and_its_surroundings() {
    let doc = AdaptiveDocument::parse(BEFORE);
    let price = doc.css_first("span.price").unwrap().unwrap();
    let fp = price.fingerprint();
    assert_eq!(fp.tag, "span");
    assert_eq!(fp.text.as_deref(), Some("$9.99"));
    assert_eq!(fp.path, vec!["html", "body", "div", "span"]);
    assert_eq!(fp.parent_name.as_deref(), Some("div"));
    assert_eq!(fp.siblings, Some(vec!["h2".to_string()]));
    assert_eq!(fp.children, None);
    assert_eq!(fp.attributes.get("class").map(|s| s.as_str()), Some("price"));
    // The div's own leading text is only whitespace.
    assert_eq!(fp.parent_text, None);
    let parent = fp.parent_attribs.as_ref().unwrap();
    assert_eq!(parent.get("class").map(|s| s.as_str()), Some("product"));
}

#[test]
fn fingerprint_strips_attributes_and_drops_empty_ones() {
    let doc = AdaptiveDocument::parse(
        r#"<div data-x="  padded  " empty="   " id="a"><p title=" t ">x</p></div>"#,
    );
    let div = doc.css_first("div").unwrap().unwrap().fingerprint();
    assert_eq!(div.attributes.keys(), vec!["data-x".to_string(), "id".to_string()]);
    assert_eq!(div.attributes.values(), vec!["padded".to_string(), "a".to_string()]);
    let p = doc.css_first("p").unwrap().unwrap().fingerprint();
    let parent = p.parent_attribs.unwrap();
    assert_eq!(
        parent.keys(),
        vec!["data-x".to_string(), "empty".to_string(), "id".to_string()]
    );
    assert_eq!(parent.get("empty").map(|s| s.as_str()), Some("   "));
}

#[test]
fn fingerprint_scores_full_against_itself() {
    let doc = AdaptiveDocument::parse(BEFORE);
    for i in doc.element_nodes() {
        let fp = doc.element(i).unwrap().fingerprint();
        let checks = similarity_checks(&fp, &fp);
        assert_eq!(score_hundredths(&checks), 10000);
    }
}

#[test]
fn similarity_checks_come_in_score_order() {
    let doc = AdaptiveDocument::parse(BEFORE);
    let saved = doc.css_first("span.price").unwrap().unwrap().fingerprint();
    let title = doc.css_first("h2").unwrap().unwrap().fingerprint();
    let checks = similarity_checks(&saved, &title);
    // tag, text, attributes, class, path, parent name, parent attributes,
    // siblings (the parent has no leading text of its own)
    assert_eq!(checks.len(), 8);
    assert_eq!(checks[0], Check::Equal(false));
    assert!(matches!(checks[2], Check::Attributes(_, _)));
    // "price" against "title": the longest block is "i", then "e" after it.
    assert_eq!(
        checks[3],
        Check::Similarity(Ratio { matches: 2, len_a: 5, len_b: 5 })
    );
    // The paths differ in their last element only.
    assert_eq!(
        checks[4],
        Check::Similarity(Ratio { matches: 3, len_a: 4, len_b: 4 })
    );
}

#[test]
fn css_reports_invalid_selectors() {
    let doc = AdaptiveDocument::parse(BEFORE);
    match doc.css("span[") {
        Err(Error::InvalidSelector(message)) => assert!(!message.is_empty()),
        Ok(_) => panic!("an unterminated attribute selector must not parse"),
    }
    assert!(doc.css_first("!!").is_err());
}

#[test]
fn css_returns_matches_in_document_order() {
    let doc = AdaptiveDocument::parse("<ul><li>a</li><li>b</li><li>c</li></ul>");
    let items: Vec<String> = doc.css("li").unwrap().iter().map(|e| e.text()).collect();
    assert_eq!(items, vec!["a", "b", "c"]);
    assert!(doc.css("table").unwrap().is_empty());
    assert!(doc.css_first("table").unwrap().is_none());
}

#[test]
fn element_accessors() {
    let doc = AdaptiveDocument::parse(r#"<p id="x">Hello <b>big</b> world</p>"#);
    let p = doc.css_first("p").unwrap().unwrap();
    assert_eq!(p.tag(), "p");
    assert_eq!(p.text(), "Hello big world");
    assert_eq!(p.attribute("id"), Some("x"));
    assert_eq!(p.attribute("missing"), None);
    assert_eq!(p.html(), "Hello <b>big</b> world");
    assert_eq!(p.as_element_ref().value().name(), "p");
    assert!(doc.element(0).is_none());
}

#[test]
fn best_group_keeps_every_tie_in_order() {
    assert_eq!(best_group(&[]), (None, vec![]));
    assert_eq!(best_group(&[5, 9, 3, 9]), (Some(9), vec![1, 3]));
    assert_eq!(best_group(&[7]), (Some(7), vec![0]));
    assert_eq!(best_group(&[2, 2, 2]), (Some(2), vec![0, 1, 2]));
}

#[test]
fn elements_at_takes_only_element_positions() {
    let doc = AdaptiveDocument::parse("<ul><li>a</li><li>b</li></ul>");
    let items = doc.element_nodes();
    let picked = doc.elements_at(&[items[items.len() - 1], items[items.len() - 2]]).unwrap();
    let texts: Vec<String> = picked.iter().map(|e| e.text()).collect();
    assert_eq!(texts, vec!["b", "a"]);
    assert!(doc.elements_at(&[0]).is_none());
    assert!(doc.elements_at(&[usize::MAX]).is_none());
    assert_eq!(doc.elements_at(&[]).map(|v| v.len()), Some(0));
}

#[test]
fn every_check_is_worth_at_most_one() {
    let doc = AdaptiveDocument::parse(BEFORE);
    let saved = doc.css_first("span.price").unwrap().unwrap().fingerprint();
    let doc2 = AdaptiveDocument::parse(REDESIGNED);
    for i in doc2.element_nodes() {
        let candidate = doc2.element(i).unwrap().fingerprint();
        for check in similarity_checks(&saved, &candidate) {
            let value = check_value(&check);
            assert!((0.0..=1.0).contains(&value), "{check:?}");
        }
    }
}

#[test]
fn candidate_checks_cover_every_element_in_order() {
    let doc = AdaptiveDocument::parse(BEFORE);
    let saved = doc.css_first("span.price").unwrap().unwrap().fingerprint();
    let candidates = doc.candidate_checks(&saved);
    let positions: Vec<usize> = candidates.iter().map(|(i, _)| *i).collect();
    assert_eq!(positions, doc.element_nodes());
    for (i, checks) in &candidates {
        let own = doc.element(*i).unwrap().fingerprint();
        assert_eq!(checks, &similarity_checks(&saved, &own));
    }
    let price = doc.css_first("span.price").unwrap().unwrap().node();
    let (_, checks) = candidates.iter().find(|(i, _)| *i == price).unwrap();
    assert_eq!(score_hundredths(checks), 10000);
}

#[test]
fn path_runs_from_the_root_to_the_element_itself() {
    let doc = AdaptiveDocument::parse("<div><p>t</p></div>");
    let fp = doc.css_first("p").unwrap().unwrap().fingerprint();
    assert_eq!(fp.path, vec!["html", "body", "div", "p"]);
}

#[test]
fn text_is_the_own_leading_text() {
    let doc = AdaptiveDocument::parse("<div><b>x</b></div>");
    let fp = doc.css_first("div").unwrap().unwrap().fingerprint();
    assert_eq!(fp.text, None);
    let doc = AdaptiveDocument::parse("<div> lead <b>x</b> tail</div>");
    let fp = doc.css_first("div").unwrap().unwrap().fingerprint();
    assert_eq!(fp.text.as_deref(), Some("lead"));
    let b = doc.css_first("b").unwrap().unwrap().fingerprint();
    assert_eq!(b.parent_text.as_deref(), Some("lead"));
}

#[test]
fn element_text_is_whitespace_collapsed() {
    let doc = AdaptiveDocument::parse("<p> a \n\t  b <i> c </i></p>");
    assert_eq!(doc.css_first("p").unwrap().unwrap().text(), "a b c");
}

#[test]
fn name_sequences_are_compared_element_by_element() {
    let s = |v: &[&str]| v.iter().map(|x| x.to_string()).collect::<Vec<String>>();
    assert_eq!(
        seq_ratio(&s(&["a", "b"]), &s(&["a", "c"])),
        Ratio { matches: 1, len_a: 2, len_b: 2 }
    );
    assert_eq!(
        seq_ratio(&s(&["html", "body", "div"]), &s(&["html", "body", "section"])),
        Ratio { matches: 2, len_a: 3, len_b: 3 }
    );
    assert_eq!(seq_ratio(&s(&[]), &s(&[])), Ratio { matches: 0, len_a: 0, len_b: 0 });
    assert_eq!(
        seq_ratio(&s(&["ab", "c"]), &s(&["a", "bc"])),
        Ratio { matches: 0, len_a: 2, len_b: 2 }
    );
}

#[test]
fn fingerprint_attributes_agree_with_attribute_lookup() {
    let doc = AdaptiveDocument::parse(
        r#"<div id=" a " class="" title="t"><span data-k="v">x</span></div>"#,
    );
    for i in doc.element_nodes() {
        let e = doc.element(i).unwrap();
        let fp = e.fingerprint();
        for name in ["id", "class", "title", "data-k", "missing"] {
            let expected = e
                .attribute(name)
                .map(str::trim)
                .filter(|v| !v.is_empty())
                .map(str::to_string);
            assert_eq!(fp.attributes.get(name).cloned(), expected, "{name}");
        }
    }
}

#[test]
fn prefixed_attributes_are_not_looked_up() {
    let doc = AdaptiveDocument::parse(
        r#"<svg><a title="x" xlink:title=""></a><use xlink:href="{h}"></use></svg>"#,
    );
    let a = doc.css_first("a").unwrap().unwrap();
    assert_eq!(a.attribute("title"), Some("x"));
    assert_eq!(a.fingerprint().attributes.get("title").map(|s| s.as_str()), Some("x"));
    // A prefixed attribute alone: the fingerprint keeps it, the lookup does not.
    let u = doc.css_first("use").unwrap().unwrap();
    assert_eq!(u.attribute("href"), None);
    assert_eq!(u.fingerprint().attributes.get("href").map(|s| s.as_str()), Some("{h}"));
}
