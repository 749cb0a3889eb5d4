//! Diffing small documents: empty against empty, empty against text, and
//! one-line documents that differ in a word.

use typst_diff::content::ContentNode;
use typst_diff::diff::DiffRun;
use typst_diff::diff_content;
use typst_diff::diff_runs;

/// Builds a document tree from markup-like text: words become text
/// nodes, whitespace between words becomes a space, and a blank line
/// becomes a line break.
fn doc(src: &str) -> ContentNode {
    let mut children: Vec<ContentNode> = Vec::new();
    let mut word = String::new();
    let mut ws = String::new();
    for c in src.chars() {
        if c.is_whitespace() {
            if !word.is_empty() {
                children.push(ContentNode::Text(word.clone()));
                word.clear();
            }
            ws.push(c);
        } else {
            if !ws.is_empty() {
                if !children.is_empty() {
                    if ws.matches('\n').count() >= 2 {
                        children.push(ContentNode::Linebreak);
                    } else {
                        children.push(ContentNode::Space);
                    }
                }
                ws.clear();
            }
            word.push(c);
        }
    }
    if !word.is_empty() {
        children.push(ContentNode::Text(word));
    }
    ContentNode::Sequence(children)
}

#[test]
fn empty_doc() {
    let a = doc("");
    let b = doc("");
    let runs = diff_runs(&a, &b);
    assert_eq!(runs.len(), 0);
    let merged = diff_content(&a, &b);
    assert!(matches!(merged, ContentNode::Sequence(children) if children.is_empty()));
}

#[test]
fn empty_vs_one_line() {
    let a = doc("");
    let b = doc("HeLLo World!");
    let runs = diff_runs(&a, &b);
    assert_eq!(runs.len(), 1);
    match &runs[0] {
        DiffRun::Insert(units) => {
            assert_eq!(units.len(), 1);
            let text: String = units.iter().flat_map(|u| u.text().iter()).collect();
            assert_eq!(text, "HeLLo World!");
        },
        _ => panic!("expected a single insert run"),
    }
    diff_content(&a, &b);
}

#[test]
fn one_line_vs_empty() {
    let a = doc("Hello World!");
    let b = doc("");
    let runs = diff_runs(&a, &b);
    assert_eq!(runs.len(), 1);
    match &runs[0] {
        DiffRun::Delete(units) => {
            assert_eq!(units.len(), 1);
            let text: String = units.iter().flat_map(|u| u.text().iter()).collect();
            assert_eq!(text, "Hello World!");
        },
        _ => panic!("expected a single delete run"),
    }
    diff_content(&a, &b);
}

#[test]
fn one_line() {
    let a = doc("Hello World!");
    let b = doc("HeLLo World!");
    let runs = diff_runs(&a, &b);
    // A space glues the words around it into one unit, so each document
    // is a single unit here and the whole line is replaced.
    assert_eq!(runs.len(), 2);
    assert!(matches!(&runs[0], DiffRun::Delete(_)));
    assert!(matches!(&runs[1], DiffRun::Insert(_)));
    diff_content(&a, &b);
}

#[test]
fn simple_doc_one_vs_two_lines() {
    let a = doc("Hello World! I am here.");
    let b = doc("Hello World!\nI am there.");
    let runs = diff_runs(&a, &b);
    // The paragraph is one unit and its text differs in the last word.
    assert_eq!(runs.len(), 2);
    assert!(matches!(&runs[0], DiffRun::Delete(_)));
    assert!(matches!(&runs[1], DiffRun::Insert(_)));
    diff_content(&a, &b);
}

#[test]
fn two_lines() {
    let a = doc("Hello World!\nI am here.");
    let b = doc("Hello World!\nI am there.");
    let runs = diff_runs(&a, &b);
    assert_eq!(runs.len(), 2);
    assert!(matches!(&runs[0], DiffRun::Delete(_)));
    assert!(matches!(&runs[1], DiffRun::Insert(_)));
    diff_content(&a, &b);
}
