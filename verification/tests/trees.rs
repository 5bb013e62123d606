use std::rc::Rc;
use std::sync::Arc;

use nix_reduce::green::{GreenNode, GreenNodeData};
use nix_reduce::kinds;
use nix_reduce::red::RedNodeData;

fn leaf(kind: u16, text: &str) -> GreenNode {
    Arc::new(GreenNodeData::new_leaf(kind, text.to_string()))
}

/// "1 + 2"
fn sum() -> GreenNode {
    let space = leaf(kinds::WHITESPACE, " ");
    Arc::new(GreenNodeData::new_node(
        kinds::BIN_EXPR,
        vec![leaf(kinds::INT, "1"), space.clone(), leaf(kinds::PLUS, "+"), space, leaf(kinds::INT, "2")],
    ))
}

#[test]
fn leaf_has_text_and_length_in_bytes() {
    let l = GreenNodeData::new_leaf(kinds::IDENT, "héllo".to_string());
    assert_eq!(l.kind(), kinds::IDENT);
    assert_eq!(l.text(), Some("héllo"));
    assert_eq!(l.text_len(), 6);
    assert!(l.children().is_empty());
    // a token on its own prints nothing
    assert_eq!(l.to_string(), "");
}

#[test]
fn node_length_is_sum_of_children() {
    let n = sum();
    assert_eq!(n.kind(), kinds::BIN_EXPR);
    assert_eq!(n.text(), None);
    assert_eq!(n.text_len(), 5);
    assert_eq!(n.children().len(), 5);
    assert_eq!(n.children()[2].text(), Some("+"));
}

#[test]
fn empty_node_has_length_zero() {
    let n = GreenNodeData::new_node(kinds::FN, vec![]);
    assert_eq!(n.text_len(), 0);
    assert_eq!(n.to_string(), "");
}

#[test]
fn printed_text_is_as_long_as_text_len() {
    let n = Arc::new(GreenNodeData::new_node(
        kinds::BIN_EXPR,
        vec![sum(), leaf(kinds::WHITESPACE, " "), leaf(kinds::IDENT, "ünï")],
    ));
    let printed = n.to_string();
    assert_eq!(printed, "1 + 2 ünï");
    assert_eq!(printed.len(), n.text_len());
}

#[test]
fn green_replace_child() {
    let n = sum();
    let m = n.replace_child(4, leaf(kinds::INT, "42"));
    assert_eq!(m.to_string(), "1 + 42");
    assert_eq!(m.text_len(), 6);
    assert_eq!(m.kind(), kinds::BIN_EXPR);
    // the original is unchanged
    assert_eq!(n.to_string(), "1 + 2");
    assert_eq!(n.text_len(), 5);
}

#[test]
fn red_root_and_children_offsets() {
    let root = RedNodeData::new_root(sum());
    assert!(root.parent().is_none());
    assert_eq!(root.text_offset(), 0);
    assert_eq!(root.text_len(), 5);
    assert_eq!(root.kind(), kinds::BIN_EXPR);
    let kids = root.children();
    assert_eq!(kids.len(), 5);
    let offsets: Vec<usize> = kids.iter().map(|k| k.text_offset()).collect();
    assert_eq!(offsets, vec![0, 1, 2, 3, 4]);
    // children tile the parent's text
    for i in 0..4 {
        assert_eq!(kids[i].text_offset() + kids[i].text_len(), kids[i + 1].text_offset());
    }
    assert_eq!(kids[4].text_offset() + kids[4].text_len(), root.text_offset() + root.text_len());
    assert!(Rc::ptr_eq(kids[3].parent().unwrap(), &root));
    assert_eq!(kids[2].kind(), kinds::PLUS);
}

#[test]
fn red_nested_offsets() {
    let outer = Arc::new(GreenNodeData::new_node(
        kinds::BIN_EXPR,
        vec![leaf(kinds::IDENT, "xy"), leaf(kinds::WHITESPACE, " "), sum()],
    ));
    let root = RedNodeData::new_root(outer);
    let inner = root.children()[2].clone();
    assert_eq!(inner.text_offset(), 3);
    let two = inner.children()[4].clone();
    assert_eq!(two.text_offset(), 7);
    assert_eq!(two.text_offset() + two.text_len(), root.text_len());
    assert_eq!(two.green().text(), Some("2"));
}

#[test]
fn red_replace_child_returns_new_root() {
    let outer = Arc::new(GreenNodeData::new_node(
        kinds::BIN_EXPR,
        vec![leaf(kinds::IDENT, "xy"), leaf(kinds::WHITESPACE, " "), sum()],
    ));
    let root = RedNodeData::new_root(outer);
    let inner = root.children()[2].clone();
    let new_root = inner.replace_child(0, leaf(kinds::INT, "100"));
    assert!(new_root.parent().is_none());
    assert_eq!(new_root.text_offset(), 0);
    assert_eq!(new_root.to_string(), "xy 100 + 2");
    assert_eq!(new_root.text_len(), root.text_len() - 1 + 3);
    // the new leaf sits where the old child was
    let replaced = new_root.children()[2].children()[0].clone();
    assert_eq!(replaced.green().text(), Some("100"));
    assert_eq!(replaced.text_offset(), 3);
    // the old tree is unchanged
    assert_eq!(root.to_string(), "xy 1 + 2");
}

#[test]
fn red_replace_child_at_root() {
    let root = RedNodeData::new_root(sum());
    let new_root = root.replace_child(1, leaf(kinds::WHITESPACE, "   "));
    assert_eq!(new_root.to_string(), "1   + 2");
    assert_eq!(new_root.text_len(), 7);
}

#[test]
fn green_clone_is_equal_text() {
    let n = sum();
    let c = (*n).clone();
    assert_eq!(c.to_string(), n.to_string());
    assert_eq!(c.text_len(), n.text_len());
}

#[test]
fn leaf_offsets_locate_their_text() {
    let outer = Arc::new(GreenNodeData::new_node(
        kinds::BIN_EXPR,
        vec![leaf(kinds::IDENT, "ä"), leaf(kinds::WHITESPACE, " "), sum()],
    ));
    let root = RedNodeData::new_root(outer);
    let printed = root.green().to_string();
    assert_eq!(printed.len(), root.text_len());
    let mut leaves = Vec::new();
    for c in root.children() {
        if c.green().text().is_some() {
            leaves.push(c);
        } else {
            for g in c.children() {
                leaves.push(g);
            }
        }
    }
    assert_eq!(leaves.len(), 7);
    for l in &leaves {
        let t = l.green().text().unwrap();
        let o = l.text_offset();
        assert_eq!(&printed[o..o + l.text_len()], t);
    }
    // an internal node's offset locates what it prints
    let inner = root.children()[2].clone();
    let o = inner.text_offset();
    assert_eq!(&printed[o..o + inner.text_len()], inner.green().to_string());
}

#[test]
fn replace_child_keeps_the_rest_of_the_tree() {
    let outer = Arc::new(GreenNodeData::new_node(
        kinds::BIN_EXPR,
        vec![leaf(kinds::IDENT, "xy"), leaf(kinds::WHITESPACE, " "), sum()],
    ));
    let root = RedNodeData::new_root(outer);
    let inner = root.children()[2].clone();
    let new_root = inner.replace_child(4, leaf(kinds::INT, "7"));
    assert_eq!(new_root.kind(), root.kind());
    assert_eq!(new_root.children().len(), root.children().len());
    let new_inner = new_root.children()[2].clone();
    assert_eq!(new_inner.kind(), inner.kind());
    assert_eq!(new_inner.children().len(), inner.children().len());
    for i in 0..2 {
        assert!(Arc::ptr_eq(new_root.children()[i].green(), root.children()[i].green()));
    }
    for i in 0..4 {
        assert!(Arc::ptr_eq(new_inner.children()[i].green(), inner.children()[i].green()));
    }
    assert_eq!(new_inner.children()[4].green().text(), Some("7"));
}
