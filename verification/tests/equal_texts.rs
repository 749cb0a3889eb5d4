//! Documents with the same words flowed into different numbers of lines:
//! re-flowing alone must never produce a difference.

use typst_diff::content::ContentNode;
use typst_diff::diff::DiffRun;
use typst_diff::diff_content;
use typst_diff::diff_runs;

/// Builds a document tree from markup-like text: words become text
/// nodes, whitespace between words becomes a space, and a blank line
/// becomes a line break.
fn doc(src: &str) -> ContentNode {
    let mut children: Vec<ContentNode> = Vec::new();
    let mut word = String::new();
    let mut ws = String::new();
    for c in src.chars() {
        if c.is_whitespace() {
            if !word.is_empty() {
                children.push(ContentNode::Text(word.clone()));
                word.clear();
            }
            ws.push(c);
        } else {
            if !ws.is_empty() {
                if !children.is_empty() {
                    if ws.matches('\n').count() >= 2 {
                        children.push(ContentNode::Linebreak);
                    } else {
                        children.push(ContentNode::Space);
                    }
                }
                ws.clear();
            }
            word.push(c);
        }
    }
    if !word.is_empty() {
        children.push(ContentNode::Text(word));
    }
    ContentNode::Sequence(children)
}

fn assert_all_equal(a: &str, b: &str) {
    let ta = doc(a);
    let tb = doc(b);
    let runs = diff_runs(&ta, &tb);
    assert_eq!(runs.len(), 1);
    assert!(matches!(&runs[0], DiffRun::Equal(_, _)));
    diff_content(&ta, &tb);
}

#[test]
fn equal_texts_one_vs_two_lines() {
    assert_all_equal("Hello World! I am here.", "Hello World!\nI am here.");
}

#[test]
fn equal_texts_one_vs_three_lines() {
    assert_all_equal(
        "Hello World! I am here. How are you?",
        "Hello World!\nI am here.\nHow are you?",
    );
}

#[test]
fn equal_texts_two_vs_three_lines() {
    assert_all_equal(
        "Hello World!\nI am here. How are you?",
        "Hello World!\nI am here.\nHow are you?",
    );
}

#[test]
fn paragraph_one_vs_two_lines() {
    assert_all_equal(
        "Hello World! I am here.\n\nHow are you? I am fine.",
        "Hello World!\nI am here.\n\nHow are you?\nI am fine.",
    );
}

#[test]
fn paragraph_one_vs_three_lines() {
    assert_all_equal(
        "Hello World! I am here. Where are you?\n\nHow are you? I am fine. Good bye!",
        "Hello World!\nI am here.\nWhere are you?\n\nHow are you?\nI am fine.\nGood bye!",
    );
}

#[test]
fn paragraph_two_vs_three_lines() {
    assert_all_equal(
        "Hello World!\nI am here. Where are you?\n\nHow are you?\nI am fine. Good bye!",
        "Hello World!\nI am here.\nWhere are you?\n\nHow are you?\nI am fine.\nGood bye!",
    );
}
