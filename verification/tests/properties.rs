//! End-to-end scenarios: the shape of the merged tree, the fixed
//! annotation colors, the normalizer's unit boundaries, the convergence
//! loop's pass budget, and diagnostic deduplication.

use std::cmp::Ordering;

use typst_diff::content::ContentNode;
use typst_diff::content::DecorationKind;
use typst_diff::converge::deduplicate;
use typst_diff::converge::Diagnostic;
use typst_diff::converge::LayoutAction;
use typst_diff::converge::Layouter;
use typst_diff::converge::Severity;
use typst_diff::diff::DiffRun;
use typst_diff::diff_content;
use typst_diff::diff_runs;
use typst_diff::norm::normalize;
use typst_diff::unit::cmp_chars;
use typst_diff::unit::DiffableContent;

/// Builds a document tree from markup-like text: words become text
/// nodes, whitespace between words becomes a space, and a blank line
/// becomes a line break.
fn doc(src: &str) -> ContentNode {
    let mut children: Vec<ContentNode> = Vec::new();
    let mut word = String::new();
    let mut ws = String::new();
    for c in src.chars() {
        if c.is_whitespace() {
            if !word.is_empty() {
                children.push(ContentNode::Text(word.clone()));
                word.clear();
            }
            ws.push(c);
        } else {
            if !ws.is_empty() {
                if !children.is_empty() {
                    if ws.matches('\n').count() >= 2 {
                        children.push(ContentNode::Linebreak);
                    } else {
                        children.push(ContentNode::Space);
                    }
                }
                ws.clear();
            }
            word.push(c);
        }
    }
    if !word.is_empty() {
        children.push(ContentNode::Text(word));
    }
    ContentNode::Sequence(children)
}

fn unit_text(u: &DiffableContent) -> String {
    u.text().iter().collect()
}

fn diag(location: u64, message: &str) -> Diagnostic {
    Diagnostic { location, severity: Severity::Error, message: message.to_string() }
}

#[test]
fn unit_boundaries() {
    // Spaces glue the words of a paragraph into one unit; a paragraph
    // break separates units.
    let units = normalize(&doc("Hello World! I am here."));
    assert_eq!(units.len(), 1);
    assert_eq!(unit_text(&units[0]), "Hello World! I am here.");

    let units = normalize(&doc("Hello World!\n\nI am here."));
    assert_eq!(units.len(), 3);
    assert_eq!(unit_text(&units[0]), "Hello World!");
    assert_eq!(unit_text(&units[1]), "\n");
    assert_eq!(unit_text(&units[2]), "I am here.");

    // A single tree that is not a sequence is one unit by itself.
    let units = normalize(&ContentNode::Text("lone".to_string()));
    assert_eq!(units.len(), 1);
    assert_eq!(unit_text(&units[0]), "lone");
}

#[test]
fn replaced_paragraph_scenario() {
    // A changed final paragraph: the shared part stays unmarked, the old
    // paragraph is delete-marked and the new one insert-marked, the
    // deletion coming first.
    let a = doc("Shared intro.\n\nI am here.");
    let b = doc("Shared intro.\n\nI am there.");
    let runs = diff_runs(&a, &b);
    assert_eq!(runs.len(), 3);
    match &runs[0] {
        DiffRun::Equal(ua, ub) => {
            assert_eq!(ua.len(), 2);
            assert_eq!(ub.len(), 2);
            assert_eq!(unit_text(&ua[0]), "Shared intro.");
        },
        _ => panic!("expected an equal run first"),
    }
    match &runs[1] {
        DiffRun::Delete(units) => {
            assert_eq!(units.len(), 1);
            assert_eq!(unit_text(&units[0]), "I am here.");
        },
        _ => panic!("expected the deletion before the insertion"),
    }
    match &runs[2] {
        DiffRun::Insert(units) => {
            assert_eq!(units.len(), 1);
            assert_eq!(unit_text(&units[0]), "I am there.");
        },
        _ => panic!("expected an insert run last"),
    }
}

#[test]
fn merged_tree_annotations() {
    let a = doc("I am here.");
    let b = doc("I am there.");
    let merged = diff_content(&a, &b);
    let children = match merged {
        ContentNode::Sequence(children) => children,
        _ => panic!("the merged document is a sequence"),
    };
    // One delete-marked subtree, then one insert-marked subtree.
    assert_eq!(children.len(), 2);
    match &children[0] {
        ContentNode::Decorated(DecorationKind::Highlight(color), inner) => {
            assert_eq!(*color, 0xFF0000);
            match inner.as_ref() {
                ContentNode::Decorated(DecorationKind::Strikethrough(stroke), body) => {
                    assert_eq!(*stroke, 1500);
                    assert!(matches!(body.as_ref(), ContentNode::Sequence(_)));
                },
                _ => panic!("a deletion is struck through"),
            }
        },
        _ => panic!("a deletion is highlighted"),
    }
    match &children[1] {
        ContentNode::Decorated(DecorationKind::Highlight(color), inner) => {
            assert_eq!(*color, 0x00FF00);
            assert!(matches!(inner.as_ref(), ContentNode::Sequence(_)));
        },
        _ => panic!("an insertion is highlighted"),
    }
}

#[test]
fn equal_run_preserves_nodes() {
    // The equal part of the merged tree carries the original nodes
    // unchanged, not their plain text.
    let a = doc("Same text here.");
    let b = doc("Same text here.");
    let merged = diff_content(&a, &b);
    let children = match merged {
        ContentNode::Sequence(children) => children,
        _ => panic!("the merged document is a sequence"),
    };
    assert_eq!(children.len(), 1);
    match &children[0] {
        ContentNode::Sequence(nodes) => {
            // Words and spaces of the one unit, in original order.
            assert_eq!(nodes.len(), 5);
            assert!(matches!(&nodes[0], ContentNode::Text(t) if t == "Same"));
            assert!(matches!(&nodes[1], ContentNode::Space));
            assert!(matches!(&nodes[4], ContentNode::Text(t) if t == "here."));
        },
        _ => panic!("an equal run passes through unwrapped"),
    }
}

#[test]
fn decoration_insensitive_diff() {
    // The same word, once bare and once wrapped in nested decorations,
    // compares as equal through the whole pipeline.
    let a = ContentNode::Text("aaa".to_string());
    let b = ContentNode::Decorated(
        DecorationKind::Overline,
        Box::new(ContentNode::Decorated(
            DecorationKind::Superscript,
            Box::new(ContentNode::Decorated(
                DecorationKind::Highlight(7),
                Box::new(ContentNode::Decorated(
                    DecorationKind::Underline,
                    Box::new(ContentNode::Text("aaa".to_string())),
                )),
            )),
        )),
    );
    let runs = diff_runs(&a, &b);
    assert_eq!(runs.len(), 1);
    assert!(matches!(&runs[0], DiffRun::Equal(_, _)));
}

#[test]
fn convergence_on_first_pass() {
    let mut l = Layouter::new();
    let act = l.on_pass(true, Vec::new());
    assert!(matches!(act, LayoutAction::Accept));
    assert_eq!(l.attempts, 1);
    assert_eq!(l.warnings.len(), 0);
    assert_eq!(l.errors.len(), 0);
}

#[test]
fn convergence_budget_is_five_passes() {
    let mut l = Layouter::new();
    for _ in 0..4 {
        let act = l.on_pass(false, Vec::new());
        assert!(matches!(act, LayoutAction::Relayout));
        assert_eq!(l.warnings.len(), 0);
    }
    // The fifth pass still does not converge: the document is accepted
    // anyway, with a warning, and no further pass is asked for.
    let act = l.on_pass(false, Vec::new());
    assert!(matches!(act, LayoutAction::Accept));
    assert_eq!(l.attempts, 5);
    assert_eq!(l.warnings.len(), 1);
    let w: String = l.warnings[0].message.clone();
    assert_eq!(w, "layout did not converge within 5 attempts");
    assert!(matches!(l.warnings[0].severity, Severity::Warning));
}

#[test]
fn delayed_diagnostics_promote_to_fatal() {
    let mut l = Layouter::new();
    let delayed = vec![diag(4, "unresolved reference"), diag(4, "unresolved reference")];
    let act = l.on_pass(true, delayed);
    assert!(matches!(act, LayoutAction::Reject));
    assert_eq!(l.errors.len(), 1);
    assert_eq!(l.errors[0].message, "unresolved reference");
    assert_eq!(l.errors[0].location, 4);
}

#[test]
fn delayed_diagnostics_of_stale_pass_are_dropped() {
    let mut l = Layouter::new();
    let act = l.on_pass(false, vec![diag(9, "not yet resolvable")]);
    assert!(matches!(act, LayoutAction::Relayout));
    assert_eq!(l.errors.len(), 0);
    let act = l.on_pass(true, Vec::new());
    assert!(matches!(act, LayoutAction::Accept));
    assert_eq!(l.errors.len(), 0);
}

#[test]
fn deduplicate_keeps_first_occurrences() {
    let diags = vec![
        diag(1, "one"),
        diag(2, "two"),
        diag(1, "one"),
        diag(1, "other message"),
        diag(3, "one"),
        diag(2, "two"),
    ];
    let out = deduplicate(&diags);
    assert_eq!(out.len(), 4);
    assert_eq!((out[0].location, out[0].message.as_str()), (1, "one"));
    assert_eq!((out[1].location, out[1].message.as_str()), (2, "two"));
    assert_eq!((out[2].location, out[2].message.as_str()), (1, "other message"));
    assert_eq!((out[3].location, out[3].message.as_str()), (3, "one"));
}

#[test]
fn cmp_chars_orders_lexicographically() {
    let v = |xs: &[&str]| -> Vec<String> { xs.iter().map(|x| x.to_string()).collect() };
    assert_eq!(cmp_chars(&v(&["a"]), &v(&["b"])), Ordering::Less);
    assert_eq!(cmp_chars(&v(&["b"]), &v(&["a"])), Ordering::Greater);
    assert_eq!(cmp_chars(&v(&["ab"]), &v(&["a"])), Ordering::Greater);
    assert_eq!(cmp_chars(&v(&["a"]), &v(&["ab"])), Ordering::Less);
    assert_eq!(cmp_chars(&v(&[]), &v(&[""])), Ordering::Equal);
    assert_eq!(cmp_chars(&v(&["a", "b"]), &v(&["ab", ""])), Ordering::Equal);
}

#[test]
fn units_keep_their_nodes() {
    let units = normalize(&doc("one two"));
    assert_eq!(units.len(), 1);
    let nodes = units[0].as_slice();
    assert_eq!(nodes.len(), 3);
    assert!(matches!(&nodes[0], ContentNode::Text(t) if t == "one"));
    assert!(matches!(&nodes[1], ContentNode::Space));
    assert!(matches!(&nodes[2], ContentNode::Text(t) if t == "two"));
}

#[test]
fn deduplicate_empty_and_unique() {
    let out = deduplicate(&Vec::new());
    assert_eq!(out.len(), 0);
    let diags = vec![diag(1, "a"), diag(2, "b")];
    let out = deduplicate(&diags);
    assert_eq!(out.len(), 2);
}
