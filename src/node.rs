//! The four node shapes and the key-to-value mapping a tree of them denotes.
use vstd::prelude::*;
use crate::nibble::{is_complete, is_path, Nibble, LEAF_FLAG};

verus! {

/// A node of the tree; each node owns its children.
#[derive(Debug, Default)]
pub enum Node {
    #[default]
    Empty,
    Leaf(Box<LeafNode>),
    Branch(Box<BranchNode>),
    Extension(Box<ExtensionNode>),
}

/// The rest of one key from this point on, terminator included, and its value.
#[derive(Debug, Default)]
pub struct LeafNode {
    pub nibble: Nibble,
    pub value: Vec<u8>,
}

/// A fan-out point: `child[d]` holds what lies past digit `d`, and `value`
/// the value of a key that ends here.
#[derive(Debug)]
pub struct BranchNode {
    pub child: Vec<Node>,
    pub value: Option<Vec<u8>>,
}

/// A run of digits shared by every key below, followed by one child.
#[derive(Debug, Default)]
pub struct ExtensionNode {
    pub nibble: Nibble,
    pub next: Node,
}

/// The contents of an optional byte vector.
pub open spec fn opt_view(o: Option<Vec<u8>>) -> Option<Seq<u8>> {
    match o {
        Some(v) => Some(v@),
        None => None,
    }
}

/// `p` is a leading run of `k`.
pub open spec fn starts_with(k: Seq<u8>, p: Seq<u8>) -> bool {
    p.len() <= k.len() && k.take(p.len() as int) == p
}

/// The value that the tree under `n` holds for the digit sequence `k`: the
/// digits met on the way down from `n`, concatenated, must spell `k` exactly,
/// and a key ends at a branch by its terminator.
pub open spec fn lookup(n: Node, k: Seq<u8>) -> Option<Seq<u8>>
    decreases n,
{
    match n {
        Node::Empty => None,
        Node::Leaf(l) => if k == l.nibble@ {
            Some(l.value@)
        } else {
            None
        },
        Node::Branch(b) => if k == seq![LEAF_FLAG as u8] {
            opt_view(b.value)
        } else if 0 < k.len() && k[0] < b.child@.len() && k[0] < 16 {
            lookup(b.child@[k[0] as int], k.skip(1))
        } else {
            None
        },
        Node::Extension(e) => if starts_with(k, e.nibble@) {
            lookup(e.next, k.skip(e.nibble@.len() as int))
        } else {
            None
        },
    }
}

/// The shape rules every reachable node keeps: a leaf holds a complete key
/// suffix; a branch has sixteen slots and holds a value or a non-empty
/// child; an extension's run is a non-empty path without terminator, and
/// what follows it is a branch.
pub open spec fn wf(n: Node) -> bool
    decreases n,
{
    match n {
        Node::Empty => true,
        Node::Leaf(l) => is_complete(l.nibble@),
        Node::Branch(b) => {
            &&& b.child@.len() == 16
            &&& forall|i: int| 0 <= i < 16 ==> wf(#[trigger] b.child@[i])
            &&& (b.value is Some || exists|i: int| 0 <= i < 16 && !(#[trigger] b.child@[i] is Empty))
        },
        Node::Extension(e) => e.nibble@.len() > 0 && is_path(e.nibble@) && e.next is Branch && wf(
            e.next,
        ),
    }
}

/// A well-formed node that is not empty holds some key.
pub proof fn lemma_holds_a_key(n: Node) -> (k: Seq<u8>)
    requires
        wf(n),
        !(n is Empty),
    ensures
        lookup(n, k) is Some,
    decreases n,
{
    match n {
        Node::Leaf(l) => l.nibble@,
        Node::Branch(b) => {
            if b.value is Some {
                seq![LEAF_FLAG as u8]
            } else {
                let i = choose|i: int| 0 <= i < 16 && !(#[trigger] b.child@[i] is Empty);
                let rest = lemma_holds_a_key(b.child@[i]);
                let k = seq![i as u8] + rest;
                assert(k.skip(1) =~= rest);
                lemma_lookup_step(n, k);
                k
            }
        },
        Node::Extension(e) => {
            let rest = lemma_holds_a_key(e.next);
            let k = e.nibble@ + rest;
            lemma_split_at(k, e.nibble@, rest);
            lemma_lookup_step(n, k);
            k
        },
        Node::Empty => Seq::empty(),
    }
}

/// A well-formed node that holds no key is the empty node.
pub proof fn lemma_vacant_is_empty(n: Node)
    requires
        wf(n),
    ensures
        (forall|k: Seq<u8>| #[trigger] lookup(n, k) is None) ==> n is Empty,
{
    if !(n is Empty) {
        let k = lemma_holds_a_key(n);
    }
}

/// `a` and `b` are built of the same nodes with the same digit runs, and
/// differ at most in the values they hold.
pub open spec fn same_shape(a: Node, b: Node) -> bool
    decreases a,
{
    match a {
        Node::Empty => b is Empty,
        Node::Leaf(la) => b matches Node::Leaf(lb) && la.nibble@ == lb.nibble@,
        Node::Branch(ba) => b matches Node::Branch(bb) && ba.child@.len() == bb.child@.len() && (
        ba.value is Some) == (bb.value is Some) && forall|i: int|
            0 <= i < ba.child@.len() ==> same_shape(#[trigger] ba.child@[i], bb.child@[i]),
        Node::Extension(ea) => b matches Node::Extension(eb) && ea.nibble@ == eb.nibble@
            && same_shape(ea.next, eb.next),
    }
}

/// Every tree has its own shape.
pub proof fn lemma_same_shape_refl(n: Node)
    ensures
        same_shape(n, n),
    decreases n,
{
    match n {
        Node::Branch(b) => {
            assert forall|i: int| 0 <= i < b.child@.len() implies same_shape(
                #[trigger] b.child@[i],
                b.child@[i],
            ) by {
                lemma_same_shape_refl(b.child@[i]);
            }
        },
        Node::Extension(e) => {
            lemma_same_shape_refl(e.next);
        },
        _ => {},
    }
}

impl Node {
    pub fn leaf(nibble: Nibble, value: Vec<u8>) -> (r: Self)
        ensures
            r matches Node::Leaf(l) && l.nibble@ == nibble@ && l.value@ == value@,
    {
        Node::Leaf(Box::new(LeafNode { nibble, value }))
    }

    /// A branch with sixteen empty slots and no value.
    pub fn branch() -> (r: Self)
        ensures
            r matches Node::Branch(b) && b.child@.len() == 16 && b.value is None && forall|i: int|
                0 <= i < 16 ==> #[trigger] b.child@[i] is Empty,
    {
        Node::Branch(Box::new(BranchNode { child: empty_children(), value: None }))
    }

    pub fn branch_with_param(node: BranchNode) -> (r: Self)
        ensures
            r == Node::Branch(Box::new(node)),
    {
        Node::Branch(Box::new(node))
    }

    pub fn extension(nibble: Nibble, next: Node) -> (r: Self)
        ensures
            r matches Node::Extension(e) && e.nibble@ == nibble@ && e.next == next,
    {
        Node::Extension(Box::new(ExtensionNode { nibble, next }))
    }
}

impl Default for BranchNode {
    fn default() -> (r: Self)
        ensures
            r.child@.len() == 16,
            r.value is None,
            forall|i: int| 0 <= i < 16 ==> #[trigger] r.child@[i] is Empty,
    {
        BranchNode::new()
    }
}

impl BranchNode {
    /// A branch with sixteen empty slots and no value.
    pub fn new() -> (r: Self)
        ensures
            r.child@.len() == 16,
            r.value is None,
            forall|i: int| 0 <= i < 16 ==> #[trigger] r.child@[i] is Empty,
    {
        BranchNode { child: empty_children(), value: None }
    }

    /// Puts `node` in slot `index`; at the terminator slot only a leaf fits,
    /// and its value becomes the branch's own.
    pub fn insert_at(&mut self, index: usize, node: Node)
        requires
            old(self).child@.len() == 16,
            index <= LEAF_FLAG,
            index == LEAF_FLAG ==> node is Leaf,
        ensures
            index < LEAF_FLAG ==> final(self).child@ == old(self).child@.update(index as int, node),
            index < LEAF_FLAG ==> final(self).value == old(self).value,
            index == LEAF_FLAG ==> final(self).child@ == old(self).child@,
            index == LEAF_FLAG ==> (node matches Node::Leaf(l) && final(self).value matches Some(v)
                && v@ == l.value@),
    {
        if index == LEAF_FLAG {
            match node {
                Node::Leaf(leaf) => {
                    self.value = Some(leaf.value);
                },
                _ => {},
            }
        } else {
            self.child.set(index, node);
        }
    }
}

/// Sixteen empty slots.
pub fn empty_children() -> (r: Vec<Node>)
    ensures
        r@.len() == 16,
        forall|i: int| 0 <= i < 16 ==> #[trigger] r@[i] is Empty,
{
    let mut r: Vec<Node> = Vec::new();
    let mut i: usize = 0;
    while i < 16
        invariant
            i <= 16,
            r@.len() == i,
            forall|j: int| 0 <= j < i ==> #[trigger] r@[j] is Empty,
        decreases 16 - i,
    {
        r.push(Node::Empty);
        i += 1;
    }
    r
}


/// One step of `lookup`, stated so that the lookups below `n` appear as terms.
pub proof fn lemma_lookup_step(n: Node, k: Seq<u8>)
    ensures
        n is Empty ==> lookup(n, k) is None,
        n matches Node::Leaf(l) ==> lookup(n, k) == if k == l.nibble@ {
            Some(l.value@)
        } else {
            None
        },
        n matches Node::Branch(b) ==> lookup(n, k) == if k == seq![LEAF_FLAG as u8] {
            opt_view(b.value)
        } else if 0 < k.len() && k[0] < b.child@.len() && k[0] < 16 {
            lookup(b.child@[k[0] as int], k.skip(1))
        } else {
            None
        },
        n matches Node::Extension(e) ==> lookup(n, k) == if starts_with(k, e.nibble@) {
            lookup(e.next, k.skip(e.nibble@.len() as int))
        } else {
            None
        },
{
}

/// `k` starts with `p` and goes on with `t` exactly when it is `p + t`.
pub proof fn lemma_split_at(k: Seq<u8>, p: Seq<u8>, t: Seq<u8>)
    ensures
        (starts_with(k, p) && k.skip(p.len() as int) == t) == (k == p + t),
{
    if k == p + t {
        assert(k.take(p.len() as int) =~= p);
        assert(k.skip(p.len() as int) =~= t);
    }
    if starts_with(k, p) && k.skip(p.len() as int) == t {
        assert(k =~= p + t);
    }
}

/// Starting with `p` is starting with its first `m` digits and then with the rest.
pub proof fn lemma_starts_with_parts(k: Seq<u8>, p: Seq<u8>, m: int)
    requires
        0 <= m <= p.len(),
    ensures
        starts_with(k, p) == (starts_with(k, p.take(m)) && starts_with(k.skip(m), p.skip(m))),
        starts_with(k, p) ==> k.skip(m).skip(p.len() - m) == k.skip(p.len() as int),
{
    if starts_with(k, p) {
        assert(k.take(m) =~= p.take(m));
        assert(k.skip(m).take(p.len() - m) =~= p.skip(m));
        assert(k.skip(m).skip(p.len() - m) =~= k.skip(p.len() as int));
    }
    if starts_with(k, p.take(m)) && starts_with(k.skip(m), p.skip(m)) {
        assert(k.take(p.len() as int) =~= p) by {
            assert forall|i: int| 0 <= i < p.len() implies k[i] == p[i] by {
                if i < m {
                    assert(k.take(m)[i] == p.take(m)[i]);
                } else {
                    assert(k.skip(m).take(p.len() - m)[i - m] == p.skip(m)[i - m]);
                }
            }
        }
    }
}

/// A branch whose only filled slot is the first digit of an extension's run
/// holds what that extension holds.
pub proof fn lemma_ext_as_branch(ext: Node, br: Node)
    requires
        ext matches Node::Extension(e) && e.nibble@.len() > 0 && is_path(e.nibble@),
        br matches Node::Branch(b) && b.child@.len() == 16 && b.value is None,
        forall|i: int|
            0 <= i < 16 && i != ext->Extension_0.nibble@[0] ==> #[trigger] br->Branch_0.child@[i] is Empty,
        ({
            let e = ext->Extension_0;
            let c = br->Branch_0.child@[e.nibble@[0] as int];
            &&& e.nibble@.len() == 1 ==> c == e.next
            &&& e.nibble@.len() > 1 ==> (c matches Node::Extension(f) && f.nibble@ == e.nibble@.skip(1)
                && f.next == e.next)
        }),
    ensures
        forall|k: Seq<u8>| #[trigger] lookup(br, k) == lookup(ext, k),
{
    let e = ext->Extension_0;
    let b = br->Branch_0;
    let p = e.nibble@;
    assert forall|k: Seq<u8>| #[trigger] lookup(br, k) == lookup(ext, k) by {
        lemma_starts_with_parts(k, p, 1);
        if starts_with(k, p) {
            assert(k[0] == k.take(p.len() as int)[0]);
        }
        if k == seq![LEAF_FLAG as u8] {
            assert(p[0] < 16);
            assert(!starts_with(k, p));
        } else if 0 < k.len() && k[0] < 16 {
            if k[0] == p[0] {
                assert(k.take(1) =~= p.take(1));
                assert(starts_with(k, p.take(1)));
                if p.len() == 1 {
                    assert(p.take(1) =~= p);
                    assert(k.skip(1) == k.skip(p.len() as int));
                    assert(lookup(br, k) == lookup(e.next, k.skip(1)));
                } else {
                    let c = b.child@[p[0] as int];
                    assert(lookup(br, k) == lookup(c, k.skip(1)));
                    assert(lookup(c, k.skip(1)) == if starts_with(k.skip(1), p.skip(1)) {
                        lookup(e.next, k.skip(1).skip(p.len() - 1))
                    } else {
                        None
                    });
                }
            } else {
                assert(b.child@[k[0] as int] is Empty);
                assert(!starts_with(k, p));
            }
        } else {
            assert(!starts_with(k, p));
        }
    }
}

} // verus!
