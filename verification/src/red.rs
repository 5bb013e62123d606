use std::rc::Rc;
use std::sync::Arc;
use vstd::prelude::*;

use vstd::utf8::encode_utf8;

use crate::green::{
    children_len, lemma_children_len_prefix, lemma_one_step, lemma_path_offset_push,
    lemma_subtree_len_le, lemma_subtree_text, lemma_subtree_update, lemma_update_concat,
    lemma_update_len, models, path_offset, text_of, GreenNode, GreenTree,
};
use crate::kinds::SyntaxKind;

verus! {

/// A shared reference to a red node.
pub type RedNode = Rc<RedNodeData>;

/// A position in a green tree: the green node, where it sits in its
/// parent, and where its text starts in the text of the whole tree.
#[derive(Debug)]
pub struct RedNodeData {
    parent: Option<RedNode>,
    index_in_parent: usize,
    green: GreenNode,
    text_offset: usize,
}

impl RedNodeData {
    pub closed spec fn spec_parent(&self) -> Option<RedNode> {
        self.parent
    }

    pub closed spec fn spec_index_in_parent(&self) -> usize {
        self.index_in_parent
    }

    pub closed spec fn spec_green(&self) -> GreenNode {
        self.green
    }

    pub closed spec fn spec_text_offset(&self) -> usize {
        self.text_offset
    }

    /// A root sits at offset zero; any other node is the child of its parent
    /// at its index, and starts where the text of its earlier siblings ends.
    /// Its text ends within the range of `usize`. The same holds of every
    /// ancestor.
    #[verifier::type_invariant]
    pub closed spec fn wf(&self) -> bool
        decreases self,
    {
        &&& self.text_offset + self.green@.text_len() <= usize::MAX
        &&& match self.parent {
            None => self.text_offset == 0 && self.index_in_parent == 0,
            Some(p) => {
                &&& p.wf()
                &&& self.index_in_parent < p.green@.child_trees().len()
                &&& self.green@ == p.green@.child_trees()[self.index_in_parent as int]
                &&& self.text_offset == p.text_offset + children_len(
                    p.green@.child_trees().take(self.index_in_parent as int),
                )
            },
        }
    }

    /// The indices that lead from the root down to this node.
    pub closed spec fn path(&self) -> Seq<usize>
        decreases self,
    {
        match self.parent {
            None => Seq::empty(),
            Some(p) => p.path().push(self.index_in_parent),
        }
    }

    /// The model of the green node at the root of this node's tree.
    pub closed spec fn root_tree(&self) -> GreenTree
        decreases self,
    {
        match self.parent {
            None => self.green@,
            Some(p) => p.root_tree(),
        }
    }

    /// Following this node's path from the root leads to this node's green
    /// node.
    pub proof fn lemma_path(&self)
        requires
            self.wf(),
        ensures
            self.root_tree().valid_path(self.path()),
            self.root_tree().subtree(self.path()) == self.spec_green()@,
        decreases self,
    {
        if let Some(p) = self.parent {
            p.lemma_path();
            let q = seq![self.index_in_parent];
            lemma_one_step(p.green@, self.index_in_parent, self.green@);
            lemma_update_concat(p.root_tree(), p.path(), q, self.green@);
            assert(self.path() =~= p.path() + q);
        } else {
            assert(self.path() =~= Seq::<usize>::empty());
        }
    }

    /// A node that is not a root is its parent's child at its index, and its
    /// text starts where the text of its earlier siblings ends.
    pub proof fn lemma_parent(&self)
        requires
            self.wf(),
        ensures
            match self.spec_parent() {
                None => self.spec_text_offset() == 0 && self.path() == Seq::<usize>::empty(),
                Some(p) => {
                    &&& p.wf()
                    &&& self.spec_index_in_parent() < p.spec_green()@.child_trees().len()
                    &&& self.spec_green()@ == p.spec_green()@.child_trees()[self.spec_index_in_parent() as int]
                    &&& self.spec_text_offset() == p.spec_text_offset() + children_len(
                        p.spec_green()@.child_trees().take(self.spec_index_in_parent() as int),
                    )
                    &&& self.path() == p.path().push(self.spec_index_in_parent())
                    &&& self.root_tree() == p.root_tree()
                },
            },
    {
    }

    /// The text of every node lies within the text of the whole tree.
    pub proof fn lemma_within_root(&self)
        requires
            self.wf(),
        ensures
            self.spec_text_offset() + self.spec_green()@.text_len() <= self.root_tree().text_len(),
        decreases self,
    {
        match self.parent {
            None => {},
            Some(p) => {
                p.lemma_within_root();
                let kids = p.green@.child_trees();
                let i = self.index_in_parent as int;
                assert(kids.take(i + 1).drop_last() =~= kids.take(i));
                lemma_children_len_prefix(kids, i + 1);
                assert(kids.take(kids.len() as int) =~= kids);
            },
        }
    }

    /// A node's text offset is the sum, along its path from the root, of
    /// the lengths of the earlier siblings at each step.
    pub proof fn lemma_offset_is_path_offset(&self)
        requires
            self.wf(),
        ensures
            self.spec_text_offset() == path_offset(self.root_tree(), self.path()),
        decreases self,
    {
        match self.parent {
            None => {
                assert(self.path() =~= Seq::<usize>::empty());
            },
            Some(p) => {
                p.lemma_offset_is_path_offset();
                p.lemma_path();
                lemma_path_offset_push(p.root_tree(), p.path(), self.index_in_parent);
            },
        }
    }

    /// The offset of a node locates its text in what the root prints: in the
    /// UTF-8 bytes of the root's printed text, the bytes from the offset on,
    /// as many as the node's text length, are the bytes of the node's own
    /// text (a leaf's text, or what an internal node prints).
    pub proof fn lemma_offset_locates_text(&self)
        requires
            self.wf(),
            self.root_tree() is Node,
        ensures
            self.spec_text_offset() + self.spec_green()@.text_len() <= self.root_tree().text_len(),
            encode_utf8(self.root_tree().display()).subrange(
                self.spec_text_offset() as int,
                self.spec_text_offset() + self.spec_green()@.text_len(),
            ) == encode_utf8(text_of(self.spec_green()@)),
    {
        self.lemma_offset_is_path_offset();
        self.lemma_path();
        lemma_subtree_text(self.root_tree(), self.path());
    }

    /// After `replace_child(idx, c)` on this node, the new tree holds `c`
    /// where this node's child `idx` was, and its text grew by the length
    /// of `c` less that of the child it replaced.
    pub proof fn lemma_replace_child_result(&self, idx: usize, c: GreenTree)
        requires
            self.wf(),
            idx < self.spec_green()@.child_trees().len(),
        ensures
            ({
                let p = self.path().push(idx);
                let new_root = self.root_tree().update(p, c);
                &&& new_root.valid_path(p)
                &&& new_root.subtree(p) == c
                &&& new_root.text_len() == self.root_tree().text_len()
                    - self.spec_green()@.child_trees()[idx as int].text_len() + c.text_len()
            }),
    {
        self.lemma_path();
        let q = seq![idx];
        let root = self.root_tree();
        lemma_one_step(self.green@, idx, c);
        lemma_update_concat(root, self.path(), q, c);
        assert(self.path().push(idx) =~= self.path() + q);
        lemma_subtree_update(root, self.path().push(idx), c);
        lemma_update_len(root, self.path().push(idx), c);
    }

    /// Makes the root of a red tree over `root`.
    pub fn new_root(root: GreenNode) -> (r: RedNode)
        ensures
            r.spec_parent() is None,
            r.spec_index_in_parent() == 0,
            r.spec_green() == root,
            r.spec_text_offset() == 0,
            r.path() == Seq::<usize>::empty(),
            r.root_tree() == root@,
    {
        // The length fits in a `usize`, as the root's own length shows.
        let _root_len = root.text_len();
        Rc::new(RedNodeData { parent: None, index_in_parent: 0, green: root, text_offset: 0 })
    }

    /// The parent of this node; a root has none.
    pub fn parent(&self) -> (r: Option<&RedNode>)
        ensures
            match self.spec_parent() {
                None => r is None,
                Some(p) => r is Some && *r.unwrap() == p,
            },
    {
        match &self.parent {
            Some(p) => Some(p),
            None => None,
        }
    }

    pub fn green(&self) -> (r: &GreenNode)
        ensures
            *r == self.spec_green(),
    {
        &self.green
    }

    /// Length in bytes of the text this node covers.
    pub fn text_len(&self) -> (r: usize)
        ensures
            r as nat == self.spec_green()@.text_len(),
    {
        self.green.text_len()
    }

    pub fn kind(&self) -> (r: SyntaxKind)
        ensures
            r == self.spec_green()@.kind(),
    {
        self.green.kind()
    }

    /// Where this node's text starts in the text of the whole tree.
    pub fn text_offset(&self) -> (r: usize)
        ensures
            r == self.spec_text_offset(),
    {
        self.text_offset
    }

    /// The red nodes of this node's children, in order, each pointing back
    /// to this node and starting where its earlier siblings end.
    pub fn children(self: &RedNode) -> (r: Vec<RedNode>)
        ensures
            r@.len() == self.spec_green()@.child_trees().len(),
            forall|i: int|
                0 <= i < r@.len() ==> {
                    &&& (#[trigger] r@[i]).spec_parent() == Some(*self)
                    &&& r@[i].spec_index_in_parent() == i
                    &&& r@[i].spec_green()@ == self.spec_green()@.child_trees()[i]
                    &&& r@[i].spec_text_offset() == self.spec_text_offset() + children_len(
                        self.spec_green()@.child_trees().take(i),
                    )
                    &&& r@[i].path() == self.path().push(i as usize)
                    &&& r@[i].root_tree() == self.root_tree()
                },
    {
        proof {
            use_type_invariant(&**self);
        }
        let kids = self.green.children();
        let ghost trees = self.green@.child_trees();
        let n = kids.len();
        let mut r: Vec<RedNode> = Vec::new();
        let mut offset_in_parent: usize = 0;
        let mut i: usize = 0;
        while i < n
            invariant
                n == kids@.len(),
                trees == self.green@.child_trees(),
                models(kids@) == trees,
                i <= n,
                self.wf(),
                offset_in_parent as nat == children_len(trees.take(i as int)),
                r@.len() == i,
                forall|j: int|
                    0 <= j < i ==> {
                        &&& (#[trigger] r@[j]).spec_parent() == Some(*self)
                        &&& r@[j].spec_index_in_parent() == j
                        &&& r@[j].spec_green()@ == trees[j]
                        &&& r@[j].spec_text_offset() == self.spec_text_offset() + children_len(
                            trees.take(j),
                        )
                        &&& r@[j].path() == self.path().push(j as usize)
                        &&& r@[j].root_tree() == self.root_tree()
                    },
            decreases n - i,
        {
            let child = Arc::clone(&kids[i]);
            proof {
                assert(child@ == trees[i as int]);
                assert(trees.take(i + 1).drop_last() =~= trees.take(i as int));
                lemma_children_len_prefix(trees, i + 1);
            }
            let child_len = child.text_len();
            let text_offset = self.text_offset + offset_in_parent;
            r.push(
                Rc::new(
                    RedNodeData {
                        parent: Some(Rc::clone(self)),
                        index_in_parent: i,
                        green: child,
                        text_offset,
                    },
                ),
            );
            offset_in_parent = offset_in_parent + child_len;
            i = i + 1;
        }
        r
    }

    /// Replaces the child at `idx` of this node with `new_child`, rebuilds
    /// every green node on the way up, and returns the root of the new tree.
    pub fn replace_child(self: &RedNode, idx: usize, new_child: GreenNode) -> (r: RedNode)
        requires
            idx < self.spec_green()@.child_trees().len(),
            self.root_tree().text_len() - self.spec_green()@.child_trees()[idx as int].text_len()
                + new_child@.text_len() <= usize::MAX,
        ensures
            r.spec_parent() is None,
            r.spec_index_in_parent() == 0,
            r.spec_text_offset() == 0,
            r.path() == Seq::<usize>::empty(),
            r.root_tree() == r.spec_green()@,
            r.spec_green()@ == self.root_tree().update(self.path().push(idx), new_child@),
        decreases self.path().len(),
    {
        proof {
            use_type_invariant(&**self);
            self.lemma_path();
            let q = seq![idx];
            lemma_one_step(self.green@, idx, new_child@);
            lemma_update_concat(self.root_tree(), self.path(), q, new_child@);
            assert(self.path().push(idx) =~= self.path() + q);
            lemma_subtree_len_le(self.root_tree(), self.path());
        }
        let new_green = Arc::new(self.green.replace_child(idx, new_child));
        match &self.parent {
            Some(parent) => {
                proof {
                    use_type_invariant(&**parent);
                    parent.lemma_path();
                    let q = seq![self.index_in_parent];
                    lemma_update_concat(parent.root_tree(), parent.path(), q, new_green@);
                    assert(self.path() =~= parent.path() + q);
                    lemma_update_len(self.green@, seq![idx], new_child@);
                }
                parent.replace_child(self.index_in_parent, new_green)
            },
            None => Self::new_root(new_green),
        }
    }

    /// The text this node prints: the texts of its tokens, in order.
    pub fn to_string(&self) -> (r: String)
        requires
            self.spec_green()@.displayable(),
        ensures
            r@ == self.spec_green()@.display(),
    {
        self.green.to_string()
    }
}

impl Clone for RedNodeData {
    /// A copy of this node that shares its parent and its green node.
    fn clone(&self) -> (r: Self)
        ensures
            r == *self,
    {
        proof {
            use_type_invariant(self);
        }
        let parent = match &self.parent {
            Some(p) => Some(Rc::clone(p)),
            None => None,
        };
        RedNodeData {
            parent,
            index_in_parent: self.index_in_parent,
            green: Arc::clone(&self.green),
            text_offset: self.text_offset,
        }
    }
}

} // verus!
