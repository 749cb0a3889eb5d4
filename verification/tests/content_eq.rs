//! Equivalence of diff units and the character-wise comparison behind
//! it: decorations are invisible, unit boundaries are invisible, and
//! only the plain text decides.

use std::cmp::Ordering;

use typst_diff::content::clone_node;
use typst_diff::content::ContentNode;
use typst_diff::content::DecorationKind;
use typst_diff::unit::cmp_chars;
use typst_diff::unit::DiffableContent;

fn sv(xs: &[&str]) -> Vec<String> {
    xs.iter().map(|x| x.to_string()).collect()
}

fn text(s: &str) -> ContentNode {
    ContentNode::Text(s.to_string())
}

fn deco(k: DecorationKind, c: ContentNode) -> ContentNode {
    ContentNode::Decorated(k, Box::new(c))
}

fn empty() -> ContentNode {
    ContentNode::Sequence(Vec::new())
}

fn unit(n: ContentNode) -> DiffableContent {
    DiffableContent::new(n)
}

fn unit_of(ns: Vec<ContentNode>) -> DiffableContent {
    let mut it = ns.into_iter();
    let mut u = DiffableContent::new(it.next().expect("a unit is never empty"));
    for n in it {
        u = u.append(n);
    }
    u
}

fn assert_equiv(a: &DiffableContent, b: &DiffableContent) {
    assert!(a.equivalent(b));
    assert!(b.equivalent(a));
}

fn assert_not_equiv(a: &DiffableContent, b: &DiffableContent) {
    assert!(!a.equivalent(b));
    assert!(!b.equivalent(a));
}

#[test]
fn cmp_chars_eq() {
    assert_eq!(cmp_chars(&sv(&["a"]), &sv(&["a"])), Ordering::Equal);
    assert_eq!(cmp_chars(&sv(&["ab"]), &sv(&["ab"])), Ordering::Equal);
    assert_eq!(cmp_chars(&sv(&["abc"]), &sv(&["abc"])), Ordering::Equal);
    assert_eq!(cmp_chars(&sv(&["abcd"]), &sv(&["abcd"])), Ordering::Equal);
    assert_eq!(cmp_chars(&sv(&["abcde"]), &sv(&["abcde"])), Ordering::Equal);

    assert_eq!(cmp_chars(&sv(&["a", "b"]), &sv(&["ab"])), Ordering::Equal);
    assert_eq!(cmp_chars(&sv(&["a", "b", "c"]), &sv(&["abc"])), Ordering::Equal);
    assert_eq!(cmp_chars(&sv(&["a", "b", "c", "d"]), &sv(&["abcd"])), Ordering::Equal);
    assert_eq!(cmp_chars(&sv(&["a", "b", "c", "d", "e"]), &sv(&["abcde"])), Ordering::Equal);
}

#[test]
fn cmp_chars_ne_same_len() {
    assert_ne!(cmp_chars(&sv(&["a"]), &sv(&["b"])), Ordering::Equal);
    assert_ne!(cmp_chars(&sv(&["ab"]), &sv(&["ba"])), Ordering::Equal);
    assert_ne!(cmp_chars(&sv(&["abc"]), &sv(&["cba"])), Ordering::Equal);
    assert_ne!(cmp_chars(&sv(&["abcd"]), &sv(&["dcba"])), Ordering::Equal);
    assert_ne!(cmp_chars(&sv(&["abcde"]), &sv(&["edcba"])), Ordering::Equal);

    assert_ne!(cmp_chars(&sv(&["a", "b"]), &sv(&["ba"])), Ordering::Equal);
    assert_ne!(cmp_chars(&sv(&["a", "b", "c"]), &sv(&["cba"])), Ordering::Equal);
    assert_ne!(cmp_chars(&sv(&["a", "b", "c", "d"]), &sv(&["dcba"])), Ordering::Equal);
    assert_ne!(cmp_chars(&sv(&["a", "b", "c", "d", "e"]), &sv(&["edcba"])), Ordering::Equal);
}

#[test]
fn cmp_chars_ne_different_len() {
    assert_ne!(cmp_chars(&sv(&["a"]), &sv(&["cba"])), Ordering::Equal);
    assert_ne!(cmp_chars(&sv(&["ab"]), &sv(&["cb"])), Ordering::Equal);
    assert_ne!(cmp_chars(&sv(&["abc"]), &sv(&["c"])), Ordering::Equal);

    assert_ne!(cmp_chars(&sv(&["a"]), &sv(&["c", "b", "a"])), Ordering::Equal);
    assert_ne!(cmp_chars(&sv(&["a", "b"]), &sv(&["c", "b"])), Ordering::Equal);
    assert_ne!(cmp_chars(&sv(&["a", "b", "c"]), &sv(&["c"])), Ordering::Equal);
}

#[test]
fn cmp_chars_ne_similar() {
    assert_ne!(cmp_chars(&sv(&["a"]), &sv(&["abc"])), Ordering::Equal);
    assert_ne!(cmp_chars(&sv(&["ab"]), &sv(&["abcd"])), Ordering::Equal);
    assert_ne!(cmp_chars(&sv(&["abc"]), &sv(&["abcde"])), Ordering::Equal);

    assert_ne!(cmp_chars(&sv(&["abc"]), &sv(&["a"])), Ordering::Equal);
    assert_ne!(cmp_chars(&sv(&["abcd"]), &sv(&["ab"])), Ordering::Equal);
    assert_ne!(cmp_chars(&sv(&["abcde"]), &sv(&["abc"])), Ordering::Equal);

    assert_ne!(cmp_chars(&sv(&["a"]), &sv(&["a", "b", "c"])), Ordering::Equal);
    assert_ne!(cmp_chars(&sv(&["ab"]), &sv(&["ab", "cd"])), Ordering::Equal);
    assert_ne!(cmp_chars(&sv(&["abc"]), &sv(&["abc", "de"])), Ordering::Equal);

    assert_ne!(cmp_chars(&sv(&["ab", "c"]), &sv(&["a"])), Ordering::Equal);
    assert_ne!(cmp_chars(&sv(&["abc", "d"]), &sv(&["ab"])), Ordering::Equal);
    assert_ne!(cmp_chars(&sv(&["abcd", "e"]), &sv(&["abc"])), Ordering::Equal);
}

#[test]
fn two_empty_contents() {
    let e1 = unit(empty());
    let e2 = unit(empty());
    assert_equiv(&e1, &e2);
}

#[test]
fn one_empty_content() {
    let e = unit(empty());
    let a = unit(text("aaa"));
    let b = unit(text("bbb"));
    let c = unit(text("ccc"));
    assert_not_equiv(&e, &a);
    assert_not_equiv(&e, &b);
    assert_not_equiv(&e, &c);
}

#[test]
fn two_texts() {
    let a1 = unit(text("aaa"));
    let a2 = unit(text("aaa"));
    let a3 = unit(text("aaa"));
    let b1 = unit(text("bbb"));
    let b2 = unit(text("bbb"));
    let b3 = unit(text("bbb"));
    assert_equiv(&a1, &a2);
    assert_equiv(&a1, &a3);
    assert_equiv(&a2, &a3);
    assert_equiv(&b1, &b2);
    assert_equiv(&b1, &b3);
    assert_equiv(&b2, &b3);
    assert_not_equiv(&b1, &a1);
    assert_not_equiv(&b1, &a2);
    assert_not_equiv(&b1, &a3);
    assert_not_equiv(&a1, &b2);
    assert_not_equiv(&a1, &b3);
}

#[test]
fn one_text() {
    let t = unit(text("aaa"));
    let a = unit(deco(DecorationKind::Underline, text("aaa")));
    let b = unit(deco(DecorationKind::Highlight(0), text("aaa")));
    let c = unit(deco(DecorationKind::Superscript, text("aaa")));
    let d = unit(deco(DecorationKind::Subscript, text("aaa")));
    let e = unit(deco(DecorationKind::Overline, text("aaa")));
    let f = unit(deco(DecorationKind::Strikethrough(0), text("aaa")));
    assert_equiv(&t, &a);
    assert_equiv(&t, &b);
    assert_equiv(&t, &c);
    assert_equiv(&t, &d);
    assert_equiv(&t, &e);
    assert_equiv(&t, &f);
}

#[test]
fn cascading_texts() {
    let t = unit(text("aaa"));
    let a = deco(DecorationKind::Underline, text("aaa"));
    let b = deco(DecorationKind::Highlight(0), clone_node(&a));
    let c = deco(DecorationKind::Superscript, clone_node(&b));
    let d = deco(DecorationKind::Overline, clone_node(&c));
    let ua = unit(a);
    let ub = unit(b);
    let uc = unit(c);
    let ud = unit(d);
    assert_equiv(&t, &ua);
    assert_equiv(&t, &ub);
    assert_equiv(&t, &uc);
    assert_equiv(&t, &ud);
    assert_equiv(&ua, &ub);
    assert_equiv(&ua, &uc);
    assert_equiv(&ua, &ud);
    assert_equiv(&ub, &uc);
    assert_equiv(&ub, &ud);
    assert_equiv(&uc, &ud);
}

#[test]
fn compare_with_content_slices() {
    let a1 = unit(text("aaabbb"));
    let a2 = unit_of(vec![text("aaa"), text("bbb")]);
    let a3 = unit_of(vec![text("aa"), text("abbb")]);
    let a4 = unit_of(vec![text("aa"), text("ab"), text("bb")]);
    let a5 = unit_of(vec![text("aa"), deco(DecorationKind::Underline, text("ab")), text("bb")]);
    let a6 = unit(deco(DecorationKind::Underline, text("aaabbb")));
    let all = [&a1, &a2, &a3, &a4, &a5, &a6];
    for x in all.iter() {
        for y in all.iter() {
            assert_equiv(x, y);
        }
    }
}

#[test]
fn space_element() {
    let a1 = unit(text("aaa bbb"));
    let a2 = unit_of(vec![text("aaa"), ContentNode::Space, text("bbb")]);
    let a3 = unit_of(vec![text("aa"), text("a b"), text("bb")]);
    let a4 = unit_of(vec![text("aa"), deco(DecorationKind::Underline, text("a b")), text("bb")]);
    let a5 = unit_of(vec![
        text("aa"),
        deco(DecorationKind::Underline, text("a")),
        ContentNode::Space,
        deco(DecorationKind::Underline, text("b")),
        text("bb"),
    ]);
    let a6 = unit(deco(DecorationKind::Underline, text("aaa bbb")));
    let all = [&a1, &a2, &a3, &a4, &a5, &a6];
    for x in all.iter() {
        for y in all.iter() {
            assert_equiv(x, y);
        }
    }
}
