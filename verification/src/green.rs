use std::sync::Arc;
use vstd::prelude::*;
use vstd::utf8::encode_utf8;

use crate::kinds::SyntaxKind;

verus! {

/// A shared reference to a green node.
pub type GreenNode = Arc<GreenNodeData>;

/// The mathematical model of a green tree: a token holds text, an
/// internal node holds its children in order.
pub enum GreenTree {
    Token { kind: SyntaxKind, text: Seq<char> },
    Node { kind: SyntaxKind, children: Seq<GreenTree> },
}

/// Number of bytes in the UTF-8 encoding of `s`.
pub open spec fn utf8_len(s: Seq<char>) -> nat {
    encode_utf8(s).len()
}

impl GreenTree {
    pub open spec fn kind(self) -> SyntaxKind {
        match self {
            GreenTree::Token { kind, .. } => kind,
            GreenTree::Node { kind, .. } => kind,
        }
    }

    /// The children of a node; a token has none.
    pub open spec fn child_trees(self) -> Seq<GreenTree> {
        match self {
            GreenTree::Token { .. } => Seq::empty(),
            GreenTree::Node { children, .. } => children,
        }
    }

    /// Length in bytes of the text the tree covers: the text of a token,
    /// or the summed lengths of a node's children.
    pub open spec fn text_len(self) -> nat
        decreases self,
    {
        match self {
            GreenTree::Token { text, .. } => utf8_len(text),
            GreenTree::Node { children, .. } => children_len(children),
        }
    }
}

impl GreenTree {
    /// The text a node prints: its children's texts in order, where a token
    /// child prints its text and a node child prints its own children.
    /// A token on its own prints nothing.
    pub open spec fn display(self) -> Seq<char>
        decreases self,
    {
        match self {
            GreenTree::Token { .. } => Seq::empty(),
            GreenTree::Node { children, .. } => display_all(children),
        }
    }

    /// Printing never reaches a node without children below the top.
    pub open spec fn displayable(self) -> bool
        decreases self,
    {
        match self {
            GreenTree::Token { .. } => true,
            GreenTree::Node { children, .. } => all_displayable(children),
        }
    }
}

/// The printed texts of a sequence of children, concatenated.
pub open spec fn display_all(s: Seq<GreenTree>) -> Seq<char>
    decreases s,
{
    if s.len() == 0 {
        Seq::empty()
    } else {
        display_all(s.drop_last()) + match s.last() {
            GreenTree::Token { text, .. } => text,
            GreenTree::Node { .. } => s.last().display(),
        }
    }
}

/// Every child is a token, or a node with children that is itself printable.
pub open spec fn all_displayable(s: Seq<GreenTree>) -> bool
    decreases s,
{
    if s.len() == 0 {
        true
    } else {
        &&& all_displayable(s.drop_last())
        &&& match s.last() {
            GreenTree::Token { .. } => true,
            GreenTree::Node { children, .. } => children.len() > 0 && s.last().displayable(),
        }
    }
}

impl GreenTree {
    /// Whether every index of `path` picks an existing child, step by step.
    pub open spec fn valid_path(self, path: Seq<usize>) -> bool
        decreases path.len(),
    {
        path.len() == 0 || (path[0] < self.child_trees().len()
            && self.child_trees()[path[0] as int].valid_path(path.drop_first()))
    }

    /// The subtree reached by following `path` from this tree.
    pub open spec fn subtree(self, path: Seq<usize>) -> GreenTree
        decreases path.len(),
    {
        if path.len() == 0 {
            self
        } else {
            self.child_trees()[path[0] as int].subtree(path.drop_first())
        }
    }

    /// This tree with the subtree at `path` replaced by `new`; every node
    /// on the way keeps its kind and becomes an internal node.
    pub open spec fn update(self, path: Seq<usize>, new: GreenTree) -> GreenTree
        decreases path.len(),
    {
        if path.len() == 0 {
            new
        } else {
            GreenTree::Node {
                kind: self.kind(),
                children: self.child_trees().update(
                    path[0] as int,
                    self.child_trees()[path[0] as int].update(path.drop_first(), new),
                ),
            }
        }
    }
}

/// Summed text lengths of a sequence of trees.
pub open spec fn children_len(s: Seq<GreenTree>) -> nat
    decreases s,
{
    if s.len() == 0 {
        0
    } else {
        children_len(s.drop_last()) + s.last().text_len()
    }
}

/// The models of a sequence of green nodes.
pub open spec fn models(s: Seq<GreenNode>) -> Seq<GreenTree> {
    s.map_values(|n: GreenNode| n@)
}

/// An immutable syntax tree node: either an internal node with children,
/// or a leaf token with text.
#[derive(Debug)]
pub struct GreenNodeData {
    kind: SyntaxKind,
    text_len: usize,
    children: Vec<GreenNode>,
    text: Option<String>,
}

spec fn tree_of(n: GreenNodeData) -> GreenTree
    decreases n,
{
    match n.text {
        Some(t) => GreenTree::Token { kind: n.kind, text: t@ },
        None => GreenTree::Node { kind: n.kind, children: trees_of(n.children@) },
    }
}

spec fn trees_of(s: Seq<GreenNode>) -> Seq<GreenTree>
    decreases s,
{
    if s.len() == 0 {
        Seq::empty()
    } else {
        trees_of(s.drop_last()).push(tree_of(*s.last()))
    }
}

impl View for GreenNodeData {
    type V = GreenTree;

    closed spec fn view(&self) -> GreenTree {
        tree_of(*self)
    }
}

proof fn lemma_trees_of(s: Seq<GreenNode>)
    ensures
        trees_of(s) == models(s),
    decreases s.len(),
{
    if s.len() > 0 {
        lemma_trees_of(s.drop_last());
        assert(trees_of(s) =~= models(s));
    } else {
        assert(trees_of(s) =~= models(s));
    }
}

proof fn lemma_children_len_push(s: Seq<GreenTree>, t: GreenTree)
    ensures
        children_len(s.push(t)) == children_len(s) + t.text_len(),
{
    assert(s.push(t).drop_last() =~= s);
}

/// Replacing one tree in a sequence changes the summed length by the
/// difference of the two lengths.
pub proof fn lemma_children_len_update(s: Seq<GreenTree>, i: int, t: GreenTree)
    requires
        0 <= i < s.len(),
    ensures
        children_len(s.update(i, t)) == children_len(s) - s[i].text_len() + t.text_len(),
    decreases s.len(),
{
    if i == s.len() - 1 {
        assert(s.update(i, t).drop_last() =~= s.drop_last());
    } else {
        lemma_children_len_update(s.drop_last(), i, t);
        assert(s.update(i, t).drop_last() =~= s.drop_last().update(i, t));
    }
}

/// The UTF-8 encoding of a concatenation is the concatenation of the encodings.
pub proof fn lemma_encode_utf8_concat(a: Seq<char>, b: Seq<char>)
    ensures
        encode_utf8(a + b) == encode_utf8(a) + encode_utf8(b),
    decreases a.len(),
{
    if a.len() == 0 {
        assert(a + b =~= b);
        assert(encode_utf8(a) =~= Seq::<u8>::empty());
        assert(encode_utf8(a) + encode_utf8(b) =~= encode_utf8(b));
    } else {
        lemma_encode_utf8_concat(a.drop_first(), b);
        assert((a + b).drop_first() =~= a.drop_first() + b);
        assert((a + b)[0] == a[0]);
        assert(encode_utf8(a + b) =~= encode_utf8(a) + encode_utf8(b));
    }
}

/// What a node prints is exactly as long, in UTF-8 bytes, as the text
/// length it records.
pub proof fn lemma_display_len(t: GreenTree)
    requires
        t is Node,
    ensures
        utf8_len(t.display()) == t.text_len(),
    decreases t,
{
    if let GreenTree::Node { children, .. } = t {
        lemma_display_all_len(children);
    }
}

/// The concatenated printed texts of children are as long as their summed
/// lengths.
pub proof fn lemma_display_all_len(s: Seq<GreenTree>)
    ensures
        utf8_len(display_all(s)) == children_len(s),
    decreases s,
{
    if s.len() > 0 {
        lemma_display_all_len(s.drop_last());
        let last = s.last();
        let piece = match last {
            GreenTree::Token { text, .. } => text,
            GreenTree::Node { .. } => last.display(),
        };
        lemma_encode_utf8_concat(display_all(s.drop_last()), piece);
        if let GreenTree::Node { .. } = last {
            lemma_display_len(last);
        }
        assert(display_all(s) == display_all(s.drop_last()) + piece);
        assert(utf8_len(piece) == last.text_len());
    } else {
        assert(encode_utf8(Seq::<char>::empty()) =~= Seq::<u8>::empty());
    }
}

proof fn lemma_all_displayable_at(s: Seq<GreenTree>, i: int)
    requires
        all_displayable(s),
        0 <= i < s.len(),
    ensures
        match s[i] {
            GreenTree::Token { .. } => true,
            GreenTree::Node { children, .. } => children.len() > 0 && s[i].displayable(),
        },
    decreases s.len(),
{
    if i < s.len() - 1 {
        lemma_all_displayable_at(s.drop_last(), i);
    }
}

/// One child never covers more text than its parent.
pub proof fn lemma_child_len_le(t: GreenTree, i: int)
    requires
        0 <= i < t.child_trees().len(),
    ensures
        t.child_trees()[i].text_len() <= t.text_len(),
{
    let s = t.child_trees();
    lemma_children_len_update(s, i, GreenTree::Node { kind: t.kind(), children: Seq::empty() });
}

/// A subtree never covers more text than the tree it lies in.
pub proof fn lemma_subtree_len_le(t: GreenTree, path: Seq<usize>)
    requires
        t.valid_path(path),
    ensures
        t.subtree(path).text_len() <= t.text_len(),
    decreases path.len(),
{
    if path.len() > 0 {
        let c = t.child_trees()[path[0] as int];
        lemma_subtree_len_le(c, path.drop_first());
        lemma_child_len_le(t, path[0] as int);
    }
}

/// Reading back the subtree at `path` after an update gives what was put there.
pub proof fn lemma_subtree_update(t: GreenTree, path: Seq<usize>, new: GreenTree)
    requires
        t.valid_path(path),
    ensures
        t.update(path, new).valid_path(path),
        t.update(path, new).subtree(path) == new,
    decreases path.len(),
{
    if path.len() > 0 {
        let c = t.child_trees()[path[0] as int];
        lemma_subtree_update(c, path.drop_first(), new);
    }
}

/// An update changes the covered length by the difference between the old
/// subtree and its replacement.
pub proof fn lemma_update_len(t: GreenTree, path: Seq<usize>, new: GreenTree)
    requires
        t.valid_path(path),
    ensures
        t.update(path, new).text_len() == t.text_len() - t.subtree(path).text_len()
            + new.text_len(),
    decreases path.len(),
{
    if path.len() > 0 {
        let i = path[0] as int;
        let c = t.child_trees()[i];
        lemma_update_len(c, path.drop_first(), new);
        lemma_children_len_update(t.child_trees(), i, c.update(path.drop_first(), new));
    }
}

/// A path of one step leads to a child.
pub proof fn lemma_one_step(t: GreenTree, i: usize, new: GreenTree)
    requires
        i < t.child_trees().len(),
    ensures
        t.valid_path(seq![i]),
        t.subtree(seq![i]) == t.child_trees()[i as int],
        t.update(seq![i], new) == (GreenTree::Node {
            kind: t.kind(),
            children: t.child_trees().update(i as int, new),
        }),
{
    let e = Seq::<usize>::empty();
    assert(seq![i].drop_first() =~= e);
    assert(t.child_trees()[i as int].valid_path(e));
    assert(t.child_trees()[i as int].subtree(e) == t.child_trees()[i as int]);
    assert(t.child_trees()[i as int].update(e, new) == new);
}

/// Updating at `p + q` is updating at `p` with the subtree there updated at `q`.
pub proof fn lemma_update_concat(t: GreenTree, p: Seq<usize>, q: Seq<usize>, new: GreenTree)
    requires
        t.valid_path(p),
    ensures
        t.update(p + q, new) == t.update(p, t.subtree(p).update(q, new)),
        t.valid_path(p + q) == t.subtree(p).valid_path(q),
        t.subtree(p + q) == t.subtree(p).subtree(q),
    decreases p.len(),
{
    if p.len() == 0 {
        assert(p + q =~= q);
    } else {
        let c = t.child_trees()[p[0] as int];
        lemma_update_concat(c, p.drop_first(), q, new);
        assert((p + q).drop_first() =~= p.drop_first() + q);
        assert((p + q)[0] == p[0]);
    }
}

impl Clone for GreenNodeData {
    /// A copy of this node that shares its children.
    fn clone(&self) -> (r: Self)
        ensures
            r@ == self@,
    {
        proof {
            use_type_invariant(self);
        }
        let text = match &self.text {
            Some(t) => Some(t.clone()),
            None => None,
        };
        let children = self.share_children();
        proof {
            let ghost g = GreenNodeData { kind: self.kind, children, text, text_len: self.text_len };
            assert(g@ == self@);
        }
        GreenNodeData { kind: self.kind, children, text, text_len: self.text_len }
    }
}

/// The children of a node tile its text: each child starts where the one
/// before it ends, and the last one ends where the node ends.
pub proof fn lemma_children_tile(t: GreenTree, i: int)
    requires
        t is Node,
        0 <= i < t.child_trees().len(),
    ensures
        children_len(t.child_trees().take(i + 1)) == children_len(t.child_trees().take(i))
            + t.child_trees()[i].text_len(),
        children_len(t.child_trees().take(t.child_trees().len() as int)) == t.text_len(),
{
    let s = t.child_trees();
    assert(s.take(i + 1).drop_last() =~= s.take(i));
    assert(s.take(s.len() as int) =~= s);
}

/// The summed length of a prefix never exceeds that of the whole.
pub proof fn lemma_children_len_prefix(s: Seq<GreenTree>, i: int)
    requires
        0 <= i <= s.len(),
    ensures
        children_len(s.take(i)) <= children_len(s),
    decreases s.len() - i,
{
    if i < s.len() {
        lemma_children_len_prefix(s, i + 1);
        assert(s.take(i + 1).drop_last() =~= s.take(i));
    } else {
        assert(s.take(i) =~= s);
    }
}

/// A prefix of a valid path is valid.
pub proof fn lemma_valid_prefix(t: GreenTree, path: Seq<usize>, k: int)
    requires
        t.valid_path(path),
        0 <= k <= path.len(),
    ensures
        t.valid_path(path.take(k)),
    decreases path.len(),
{
    if k > 0 {
        let c = t.child_trees()[path[0] as int];
        lemma_valid_prefix(c, path.drop_first(), k - 1);
        assert(path.take(k).drop_first() =~= path.drop_first().take(k - 1));
    }
}

/// An update changes nothing but the path it follows: each node on the way
/// keeps its kind and its number of children, and every child off the path
/// stays as it was.
pub proof fn lemma_update_shape(t: GreenTree, path: Seq<usize>, new: GreenTree, k: int)
    requires
        t.valid_path(path),
        0 <= k < path.len(),
    ensures
        t.update(path, new).valid_path(path.take(k)),
        ({
            let before = t.subtree(path.take(k));
            let after = t.update(path, new).subtree(path.take(k));
            &&& after is Node
            &&& after.kind() == before.kind()
            &&& after.child_trees().len() == before.child_trees().len()
            &&& forall|j: int|
                0 <= j < before.child_trees().len() && j != path[k] ==> #[trigger] after.child_trees()[j]
                    == before.child_trees()[j]
        }),
{
    let p = path.take(k);
    let q = path.skip(k);
    assert(path =~= p + q);
    lemma_valid_prefix(t, path, k);
    lemma_update_concat(t, p, q, new);
    let a = t.subtree(p);
    lemma_subtree_update(t, p, a.update(q, new));
    assert(q[0] == path[k]);
}

/// The text a tree stands for where its parent prints it: a token's own
/// text, or what a node prints.
pub open spec fn text_of(t: GreenTree) -> Seq<char> {
    match t {
        GreenTree::Token { text, .. } => text,
        GreenTree::Node { .. } => t.display(),
    }
}

/// The text a tree stands for is as long, in UTF-8 bytes, as the text
/// length it records.
pub proof fn lemma_text_of_len(t: GreenTree)
    ensures
        utf8_len(text_of(t)) == t.text_len(),
{
    if t is Node {
        lemma_display_len(t);
    }
}

/// Printing two runs of children one after the other prints the first run
/// and then the second.
pub proof fn lemma_display_all_concat(a: Seq<GreenTree>, b: Seq<GreenTree>)
    ensures
        display_all(a + b) == display_all(a) + display_all(b),
    decreases b.len(),
{
    if b.len() == 0 {
        assert(a + b =~= a);
        assert(display_all(a) + display_all(b) =~= display_all(a));
    } else {
        lemma_display_all_concat(a, b.drop_last());
        assert((a + b).drop_last() =~= a + b.drop_last());
        assert((a + b).last() == b.last());
        assert(display_all(a + b) =~= display_all(a) + display_all(b));
    }
}

/// In the bytes a run of children prints, child `i` takes the bytes from
/// where the children before it end, as many as its text length, and they
/// are the bytes of the text it stands for.
pub proof fn lemma_child_text(s: Seq<GreenTree>, i: int)
    requires
        0 <= i < s.len(),
    ensures
        children_len(s.take(i)) + s[i].text_len() <= children_len(s),
        encode_utf8(display_all(s)).subrange(
            children_len(s.take(i)) as int,
            (children_len(s.take(i)) + s[i].text_len()) as int,
        ) == encode_utf8(text_of(s[i])),
{
    let front = s.take(i);
    let one = seq![s[i]];
    let back = s.skip(i + 1);
    assert(s =~= front + one + back);
    lemma_display_all_concat(front + one, back);
    lemma_display_all_concat(front, one);
    let none = Seq::<GreenTree>::empty();
    assert(one.drop_last() =~= none);
    assert(display_all(none) == Seq::<char>::empty());
    assert(one.last() == s[i]);
    assert(display_all(one) =~= text_of(s[i]));
    let a = display_all(front);
    let b = text_of(s[i]);
    let c = display_all(back);
    assert(display_all(s) == a + b + c);
    lemma_encode_utf8_concat(a + b, c);
    lemma_encode_utf8_concat(a, b);
    lemma_display_all_len(front);
    lemma_display_all_len(s);
    lemma_text_of_len(s[i]);
    let ea = encode_utf8(a);
    let eb = encode_utf8(b);
    let ec = encode_utf8(c);
    assert(encode_utf8(display_all(s)) == ea + eb + ec);
    assert((ea + eb + ec).subrange(ea.len() as int, (ea.len() + eb.len()) as int) =~= eb);
}

/// Where, in bytes of the text `t` stands for, the subtree at `path`
/// starts: the lengths of the children before each step, summed.
pub open spec fn path_offset(t: GreenTree, path: Seq<usize>) -> nat
    decreases path.len(),
{
    if path.len() == 0 {
        0
    } else {
        children_len(t.child_trees().take(path[0] as int)) + path_offset(
            t.child_trees()[path[0] as int],
            path.drop_first(),
        )
    }
}

/// One step further down a path adds the lengths of the earlier siblings.
pub proof fn lemma_path_offset_push(t: GreenTree, path: Seq<usize>, i: usize)
    requires
        t.valid_path(path),
        i < t.subtree(path).child_trees().len(),
    ensures
        path_offset(t, path.push(i)) == path_offset(t, path) + children_len(
            t.subtree(path).child_trees().take(i as int),
        ),
    decreases path.len(),
{
    if path.len() == 0 {
        let e = Seq::<usize>::empty();
        assert(path.push(i).drop_first() =~= e);
        assert(path.push(i)[0] == i);
        assert(path_offset(t.child_trees()[i as int], e) == 0);
    } else {
        let c = t.child_trees()[path[0] as int];
        lemma_path_offset_push(c, path.drop_first(), i);
        assert(path.push(i).drop_first() =~= path.drop_first().push(i));
        assert(path.push(i)[0] == path[0]);
    }
}

/// The subtree at `path` takes, in the bytes of the text `t` stands for,
/// the bytes from `path_offset(t, path)` on, as many as its text length,
/// and they are the bytes of the text the subtree stands for.
pub proof fn lemma_subtree_text(t: GreenTree, path: Seq<usize>)
    requires
        t.valid_path(path),
    ensures
        path_offset(t, path) + t.subtree(path).text_len() <= t.text_len(),
        encode_utf8(text_of(t)).subrange(
            path_offset(t, path) as int,
            (path_offset(t, path) + t.subtree(path).text_len()) as int,
        ) == encode_utf8(text_of(t.subtree(path))),
    decreases path.len(),
{
    lemma_text_of_len(t);
    if path.len() == 0 {
        assert(encode_utf8(text_of(t)).subrange(0, t.text_len() as int) =~= encode_utf8(text_of(t)));
    } else {
        let i = path[0] as int;
        let kids = t.child_trees();
        let c = kids[i];
        let rest = path.drop_first();
        lemma_subtree_text(c, rest);
        lemma_child_text(kids, i);
        let ci = children_len(kids.take(i));
        let o = path_offset(c, rest);
        let u = t.subtree(path);
        assert(u == c.subtree(rest));
        let whole = encode_utf8(text_of(t));
        assert(text_of(t) == display_all(kids));
        assert(whole.subrange(ci as int, (ci + c.text_len()) as int) == encode_utf8(text_of(c)));
        assert(whole.subrange((ci + o) as int, (ci + o + u.text_len()) as int) =~= encode_utf8(
            text_of(c),
        ).subrange(o as int, (o + u.text_len()) as int));
    }
}

impl GreenNodeData {
    /// Every node is well formed: a token has no children, and the cached
    /// length is the length of the text the node covers.
    #[verifier::type_invariant]
    pub closed spec fn wf(&self) -> bool {
        &&& self.text is Some ==> self.children@.len() == 0
        &&& self.text_len as nat == self@.text_len()
    }

    /// Makes a new internal node.
    pub fn new_node(kind: SyntaxKind, children: Vec<GreenNode>) -> (r: Self)
        requires
            children_len(models(children@)) <= usize::MAX,
        ensures
            r@ == (GreenTree::Node { kind, children: models(children@) }),
    {
        let n = children.len();
        let mut text_len: usize = 0;
        let mut i: usize = 0;
        while i < n
            invariant
                n == children@.len(),
                i <= n,
                children_len(models(children@)) <= usize::MAX,
                text_len as nat == children_len(models(children@).take(i as int)),
            decreases n - i,
        {
            let child: &GreenNodeData = &children[i];
            proof {
                use_type_invariant(child);
                assert(models(children@).take(i + 1) =~= models(children@).take(i as int).push(
                    child@,
                ));
                lemma_children_len_push(models(children@).take(i as int), child@);
                lemma_children_len_prefix(models(children@), i + 1);
            }
            text_len = text_len + child.text_len;
            i = i + 1;
        }
        proof {
            assert(models(children@).take(n as int) =~= models(children@));
            lemma_trees_of(children@);
            let ghost g = GreenNodeData { kind, children, text: None, text_len };
            assert(g@ == (GreenTree::Node { kind, children: models(children@) }));
            assert(g.wf());
        }
        GreenNodeData { kind, children, text: None, text_len }
    }

    /// Makes a new leaf token.
    pub fn new_leaf(kind: SyntaxKind, text: String) -> (r: Self)
        requires
            utf8_len(text@) <= usize::MAX,
        ensures
            r@ == (GreenTree::Token { kind, text: text@ }),
    {
        let text_len = text.as_str().len();
        let children: Vec<GreenNode> = Vec::new();
        GreenNodeData { kind, children, text: Some(text), text_len }
    }

    pub fn kind(&self) -> (r: SyntaxKind)
        ensures
            r == self@.kind(),
    {
        self.kind
    }

    /// The children of this node, in order; a token has none.
    pub fn children(&self) -> (r: Vec<GreenNode>)
        ensures
            models(r@) == self@.child_trees(),
    {
        proof {
            use_type_invariant(self);
            lemma_trees_of(self.children@);
        }
        let r = self.share_children();
        proof {
            assert(models(r@) =~= models(self.children@));
        }
        r
    }

    /// New references to this node's children.
    fn share_children(&self) -> (r: Vec<GreenNode>)
        ensures
            r@ == self.children@,
    {
        let n = self.children.len();
        let mut r: Vec<GreenNode> = Vec::new();
        let mut i: usize = 0;
        while i < n
            invariant
                n == self.children@.len(),
                i <= n,
                r@ =~= self.children@.take(i as int),
            decreases n - i,
        {
            r.push(Arc::clone(&self.children[i]));
            i = i + 1;
        }
        proof {
            assert(r@ =~= self.children@);
        }
        r
    }

    /// The text of a token; an internal node has none.
    pub fn text(&self) -> (r: Option<&str>)
        ensures
            match self@ {
                GreenTree::Token { text, .. } => r is Some && r.unwrap()@ == text,
                GreenTree::Node { .. } => r is None,
            },
    {
        if let Some(a) = &self.text {
            return Some(a.as_str());
        }
        None
    }

    /// A node like this one, with the child at `idx` replaced by `new_child`.
    pub fn replace_child(&self, idx: usize, new_child: GreenNode) -> (r: Self)
        requires
            idx < self@.child_trees().len(),
            self@.text_len() - self@.child_trees()[idx as int].text_len() + new_child@.text_len()
                <= usize::MAX,
        ensures
            r@ == (GreenTree::Node {
                kind: self@.kind(),
                children: self@.child_trees().update(idx as int, new_child@),
            }),
    {
        proof {
            use_type_invariant(self);
            lemma_trees_of(self.children@);
        }
        let n = self.children.len();
        let mut children: Vec<GreenNode> = Vec::new();
        let mut i: usize = 0;
        while i < n
            invariant
                n == self.children@.len(),
                idx < n,
                i <= n,
                children@ =~= self.children@.update(idx as int, new_child).take(i as int),
            decreases n - i,
        {
            if i == idx {
                children.push(Arc::clone(&new_child));
            } else {
                children.push(Arc::clone(&self.children[i]));
            }
            i = i + 1;
        }
        proof {
            assert(children@ =~= self.children@.update(idx as int, new_child));
            assert(models(children@) =~= models(self.children@).update(idx as int, new_child@));
            lemma_children_len_update(models(self.children@), idx as int, new_child@);
        }
        Self::new_node(self.kind, children)
    }

    /// Appends what this node prints to `out`.
    fn write_text(&self, out: &mut String)
        requires
            self@.displayable(),
        ensures
            final(out)@ == old(out)@ + self@.display(),
        decreases self@,
    {
        proof {
            use_type_invariant(self);
            lemma_trees_of(self.children@);
        }
        let ghost start = out@;
        let ghost kids = models(self.children@);
        let n = self.children.len();
        let mut i: usize = 0;
        while i < n
            invariant
                n == self.children@.len(),
                i <= n,
                kids == models(self.children@),
                self@.displayable(),
                self@ is Node ==> kids == self@.child_trees(),
                self@ is Token ==> n == 0,
                out@ == start + display_all(kids.take(i as int)),
            decreases n - i,
        {
            let child: &GreenNodeData = &self.children[i];
            proof {
                use_type_invariant(child);
                lemma_trees_of(child.children@);
                assert(kids.take(i + 1).drop_last() =~= kids.take(i as int));
                assert(kids[i as int] == child@);
                lemma_all_displayable_at(kids, i as int);
            }
            if child.children.len() == 0 {
                match &child.text {
                    Some(t) => {
                        out.append(t.as_str());
                    },
                    None => {
                        proof {
                            assert(false);
                        }
                    },
                }
            } else {
                proof {
                    assert(decreases_to!(self@ => child@));
                }
                child.write_text(out);
            }
            proof {
                assert(out@ =~= start + display_all(kids.take(i + 1)));
            }
            i = i + 1;
        }
        proof {
            assert(kids.take(n as int) =~= kids);
        }
    }

    /// The text this node prints: the texts of its tokens, in order.
    pub fn to_string(&self) -> (r: String)
        requires
            self@.displayable(),
        ensures
            r@ == self@.display(),
    {
        let mut out = String::new();
        self.write_text(&mut out);
        proof {
            assert(out@ =~= self@.display());
        }
        out
    }

    /// Length in bytes of the text this node covers.
    pub fn text_len(&self) -> (r: usize)
        ensures
            r as nat == self@.text_len(),
    {
        proof {
            use_type_invariant(self);
        }
        self.text_len
    }
}

} // verus!
