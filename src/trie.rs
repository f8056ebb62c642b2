//! The trie: lookup, insertion and deletion over the node shapes, proved
//! against the map from keys to values that the tree holds.
use vstd::prelude::*;
use crate::nibble::{
    encode, is_complete, is_match_len, is_path, lemma_match_len_unique, lemma_complete_digits, lemma_encode_injective,
    lemma_encode_shape, Nibble, LEAF_FLAG,
};
use crate::node::{
    lemma_ext_as_branch, lemma_lookup_step, lemma_vacant_is_empty, lemma_same_shape_refl, lemma_split_at,
    lemma_starts_with_parts, lookup, opt_view, same_shape, starts_with, wf, BranchNode,
    ExtensionNode, LeafNode, Node,
};

verus! {

/// Copies a byte vector.
fn clone_bytes(v: &Vec<u8>) -> (r: Vec<u8>)
    ensures
        r@ == v@,
{
    let r = v.clone();
    assert(r@ =~= v@);
    r
}

/// Clones an optional byte vector.
fn clone_value(v: &Option<Vec<u8>>) -> (r: Option<Vec<u8>>)
    ensures
        opt_view(r) == opt_view(*v),
{
    match v {
        Some(x) => Some(clone_bytes(x)),
        None => None,
    }
}

/// `new` holds what `old` holds, but for `key`, which it maps to `value`.
pub open spec fn inserted(old: Node, new: Node, key: Seq<u8>, value: Seq<u8>) -> bool {
    forall|k: Seq<u8>|
        #[trigger] lookup(new, k) == if k == key {
            Some(value)
        } else {
            lookup(old, k)
        }
}

/// The branch holds the rest `s` of a key with value `v`: a rest of just the
/// terminator as its own value, any other as a leaf of what follows the
/// first digit, in the slot of that digit.
pub open spec fn holds_rest(b: BranchNode, s: Seq<u8>, v: Seq<u8>) -> bool {
    if s[0] == LEAF_FLAG as u8 {
        opt_view(b.value) == Some(v)
    } else {
        b.child@[s[0] as int] matches Node::Leaf(l) && l.nibble@ == s.skip(1) && l.value@ == v
    }
}

/// `n` is a branch that holds exactly two key rests, `s` and `q`, which
/// differ in their first digit; every other slot is empty.
pub open spec fn two_key_branch(n: Node, s: Seq<u8>, sv: Seq<u8>, q: Seq<u8>, qv: Seq<u8>) -> bool {
    &&& n matches Node::Branch(b)
    &&& b.child@.len() == 16
    &&& forall|i: int| 0 <= i < 16 && i != s[0] && i != q[0] ==> #[trigger] b.child@[i] is Empty
    &&& holds_rest(*b, s, sv)
    &&& holds_rest(*b, q, qv)
    &&& s[0] < 16 && q[0] < 16 ==> b.value is None
}

/// What inserting `q` into a leaf holding another key `s` builds: where the
/// two first differ, at digit `m`, a branch holding both rests; over it, when
/// `m > 0`, an extension of the `m` shared digits.
pub open spec fn leaf_split(s: Seq<u8>, sv: Seq<u8>, q: Seq<u8>, qv: Seq<u8>, r: Node) -> bool {
    forall|m: int|
        #[trigger] is_match_len(q, s, m) ==> if m == 0 {
            two_key_branch(r, s, sv, q, qv)
        } else {
            r matches Node::Extension(e) && e.nibble@ == q.take(m) && two_key_branch(
                e.next,
                s.skip(m),
                sv,
                q.skip(m),
                qv,
            )
        }
}

/// What inserting `q` into a branch `b` builds: the same branch, with the
/// value set when `q` is the terminator alone, or else with `q`'s rest put
/// into the slot of its first digit (as a leaf where that slot was empty).
pub open spec fn branch_put(b: BranchNode, q: Seq<u8>, v: Seq<u8>, r: Node) -> bool {
    &&& r matches Node::Branch(b2)
    &&& b2.child@.len() == b.child@.len()
    &&& q[0] == LEAF_FLAG as u8 ==> b2.child@ == b.child@ && opt_view(b2.value) == Some(v)
    &&& q[0] < LEAF_FLAG ==> {
        &&& b2.value == b.value
        &&& forall|i: int|
            0 <= i < b.child@.len() && i != q[0] ==> #[trigger] b2.child@[i] == b.child@[i]
        &&& inserted(b.child@[q[0] as int], b2.child@[q[0] as int], q.skip(1), v)
        &&& b.child@[q[0] as int] is Empty ==> (b2.child@[q[0] as int] matches Node::Leaf(l)
            && l.nibble@ == q.skip(1) && l.value@ == v)
    }
}

/// What inserting `q` into an extension of run `p` over `next` builds when
/// their first digits differ: a branch holding `next` (under the rest of the
/// run, when there is one) in the slot of `p`'s first digit, and `q`'s rest.
pub open spec fn ext_demoted(p: Seq<u8>, next: Node, q: Seq<u8>, v: Seq<u8>, r: Node) -> bool {
    &&& r matches Node::Branch(b)
    &&& b.child@.len() == 16
    &&& forall|i: int| 0 <= i < 16 && i != p[0] && i != q[0] ==> #[trigger] b.child@[i] is Empty
    &&& p.len() == 1 ==> b.child@[p[0] as int] == next
    &&& p.len() > 1 ==> (b.child@[p[0] as int] matches Node::Extension(f) && f.nibble@ == p.skip(1)
        && f.next == next)
    &&& holds_rest(*b, q, v)
    &&& q[0] < 16 ==> b.value is None
}

/// `new` holds what `old` holds, but nothing for `key`.
pub open spec fn removed(old: Node, new: Node, key: Seq<u8>) -> bool {
    forall|k: Seq<u8>|
        #[trigger] lookup(new, k) == if k == key {
            None
        } else {
            lookup(old, k)
        }
}

/// Joins an extension's run with the node below it where that node is a
/// leaf or another extension, and drops an extension over nothing. The
/// result holds what the extension held.
fn compact_extension(prefix: Nibble, next: Node) -> (r: Node)
    requires
        prefix@.len() > 0,
        is_path(prefix@),
        wf(next),
    ensures
        wf(r),
        forall|k: Seq<u8>|
            #[trigger] lookup(r, k) == if starts_with(k, prefix@) {
                lookup(next, k.skip(prefix@.len() as int))
            } else {
                None
            },
{
    let ghost p = prefix@;
    let ghost old_next = next;
    match next {
        Node::Empty => {
            proof {
                assert forall|k: Seq<u8>| #[trigger] lookup(Node::Empty, k) == if starts_with(k, p) {
                    lookup(old_next, k.skip(p.len() as int))
                } else {
                    None
                } by {
                    lemma_lookup_step(old_next, k.skip(p.len() as int));
                }
            }
            Node::Empty
        },
        Node::Leaf(leaf) => {
            let LeafNode { nibble, value } = *leaf;
            let joined = prefix.concat(&nibble);
            let r = Node::leaf(joined, value);
            proof {
                assert((p + nibble@).drop_last() =~= p + nibble@.drop_last());
                assert forall|k: Seq<u8>| #[trigger] lookup(r, k) == if starts_with(k, p) {
                    lookup(old_next, k.skip(p.len() as int))
                } else {
                    None
                } by {
                    lemma_lookup_step(old_next, k.skip(p.len() as int));
                    lemma_split_at(k, p, nibble@);
                }
            }
            r
        },
        Node::Extension(ext) => {
            let ExtensionNode { nibble, next: below } = *ext;
            let joined = prefix.concat(&nibble);
            let r = Node::extension(joined, below);
            proof {
                let pq = p + nibble@;
                assert(pq.take(p.len() as int) =~= p);
                assert(pq.skip(p.len() as int) =~= nibble@);
                assert forall|k: Seq<u8>| #[trigger] lookup(r, k) == if starts_with(k, p) {
                    lookup(old_next, k.skip(p.len() as int))
                } else {
                    None
                } by {
                    lemma_lookup_step(r, k);
                    lemma_lookup_step(old_next, k.skip(p.len() as int));
                    lemma_starts_with_parts(k, pq, p.len() as int);
                }
            }
            r
        },
        other => {
            let r = Node::extension(prefix, other);
            proof {
                assert forall|k: Seq<u8>| #[trigger] lookup(r, k) == if starts_with(k, p) {
                    lookup(old_next, k.skip(p.len() as int))
                } else {
                    None
                } by {
                    lemma_lookup_step(r, k);
                }
            }
            r
        },
    }
}

/// The node is empty.
fn is_empty_node(n: &Node) -> (r: bool)
    ensures
        r == n is Empty,
{
    match n {
        Node::Empty => true,
        _ => false,
    }
}

/// Replaces a branch that holds no value and one child by an extension of
/// that child's digit (joined with the child where it can be), and one that
/// holds nothing by an empty node. The result holds what the branch held.
fn compact_branch(branch: BranchNode) -> (r: Node)
    requires
        branch.child@.len() == 16,
        forall|i: int| 0 <= i < 16 ==> wf(#[trigger] branch.child@[i]),
    ensures
        wf(r),
        forall|k: Seq<u8>| #[trigger] lookup(r, k) == lookup((Node::Branch(Box::new(branch))), k),
{
    let ghost bn = Node::Branch(Box::new(branch));
    if branch.value.is_some() {
        return Node::branch_with_param(branch);
    }
    let mut first: usize = 0;
    while first < 16 && is_empty_node(&branch.child[first])
        invariant
            first <= 16,
            branch.child@.len() == 16,
            forall|j: int| 0 <= j < first ==> #[trigger] branch.child@[j] is Empty,
        decreases 16 - first,
    {
        first += 1;
    }
    if first == 16 {
        proof {
            assert forall|k: Seq<u8>| #[trigger] lookup(Node::Empty, k) == lookup(bn, k) by {
                lemma_lookup_step(bn, k);
                if 0 < k.len() && k[0] < 16 {
                    lemma_lookup_step(branch.child@[k[0] as int], k.skip(1));
                }
            }
        }
        return Node::Empty;
    }
    let mut second: usize = first + 1;
    while second < 16 && is_empty_node(&branch.child[second])
        invariant
            first < second <= 16,
            branch.child@.len() == 16,
            forall|j: int| first < j < second ==> #[trigger] branch.child@[j] is Empty,
        decreases 16 - second,
    {
        second += 1;
    }
    if second < 16 {
        return Node::branch_with_param(branch);
    }
    let ghost children = branch.child@;
    let mut branch = branch;
    let child = branch.child.remove(first);
    let digit = Nibble::from_digit(first as u8);
    assert(child == children[first as int]);
    let r = compact_extension(digit, child);
    proof {
        assert forall|k: Seq<u8>| #[trigger] lookup(r, k) == lookup(bn, k) by {
            lemma_lookup_step(bn, k);
            if 0 < k.len() {
                assert(k.take(1) =~= seq![k[0]]);
                assert(k[0] != first ==> k.take(1)[0] != digit@[0]);
                if k[0] < 16 && k[0] != first {
                    lemma_lookup_step(children[k[0] as int], k.skip(1));
                }
            }
        }
    }
    r
}

/// What a map holds for `k`, if anything.
pub open spec fn map_get(m: Map<Seq<u8>, Seq<u8>>, k: Seq<u8>) -> Option<Seq<u8>> {
    if m.contains_key(k) {
        Some(m[k])
    } else {
        None
    }
}

/// The operations of a map from byte strings to byte strings.
pub trait Trie {
    /// The keys held, each with its value.
    spec fn contents(&self) -> Map<Seq<u8>, Seq<u8>>;

    /// The internal shape rules hold.
    spec fn well_formed(&self) -> bool;

    /// `self` keeps its keys in the same arrangement of nodes as `other`;
    /// only the values may differ.
    spec fn same_layout(&self, other: &Self) -> bool;

    /// Returns the value for key stored in the trie.
    fn get(&self, key: &[u8]) -> (r: Option<Vec<u8>>)
        requires
            self.well_formed(),
        ensures
            opt_view(r) == map_get(self.contents(), key@),
    ;

    /// Checks that the key is present in the trie.
    fn contains(&self, key: &[u8]) -> (r: bool)
        requires
            self.well_formed(),
        ensures
            r == self.contents().contains_key(key@),
    ;

    /// Inserts value into trie and modifies it if it exists.
    fn insert(&mut self, key: Vec<u8>, value: Vec<u8>)
        requires
            old(self).well_formed(),
        ensures
            final(self).well_formed(),
            final(self).contents() == old(self).contents().insert(key@, value@),
            old(self).contents().contains_key(key@) ==> final(self).same_layout(old(self)),
    ;

    /// Removes any existing value for key from the trie; says whether there was one.
    fn remove(&mut self, key: &[u8]) -> (r: bool)
        requires
            old(self).well_formed(),
        ensures
            final(self).well_formed(),
            r == old(self).contents().contains_key(key@),
            final(self).contents() == old(self).contents().remove(key@),
    ;
}

/// A trie of byte-string keys and values.
pub struct PatriciaTrie {
    root: Node,
}

/// The map that the tree under `root` holds: a key is present when its
/// complete encoding leads to a value.
pub open spec fn node_contents(root: Node) -> Map<Seq<u8>, Seq<u8>> {
    Map::new(
        |k: Seq<u8>| lookup(root, encode(k, true)) is Some,
        |k: Seq<u8>| lookup(root, encode(k, true))->Some_0,
    )
}

impl View for PatriciaTrie {
    type V = Map<Seq<u8>, Seq<u8>>;

    closed spec fn view(&self) -> Map<Seq<u8>, Seq<u8>> {
        node_contents(self.root)
    }
}

impl Trie for PatriciaTrie {
    open spec fn contents(&self) -> Map<Seq<u8>, Seq<u8>> {
        self@
    }

    closed spec fn well_formed(&self) -> bool {
        wf(self.root)
    }

    closed spec fn same_layout(&self, other: &Self) -> bool {
        same_shape(other.root, self.root)
    }

    fn get(&self, key: &[u8]) -> (r: Option<Vec<u8>>) {
        let raw = vstd::slice::slice_to_vec(key);
        let k = Nibble::from_raw(raw, false);
        proof {
            lemma_encode_shape(key@);
        }
        Self::get_at(&self.root, &k)
    }

    fn contains(&self, key: &[u8]) -> (r: bool) {
        let raw = vstd::slice::slice_to_vec(key);
        let k = Nibble::from_raw(raw, false);
        proof {
            lemma_encode_shape(key@);
        }
        Self::get_at(&self.root, &k).is_some()
    }

    fn insert(&mut self, key: Vec<u8>, value: Vec<u8>) {
        let ghost old_map = self@;
        let ghost kv = key@;
        let ghost vv = value@;
        let mut root = Node::Empty;
        std::mem::swap(&mut root, &mut self.root);
        let ghost old_root = root;
        let k = Nibble::from_raw(key, true);
        proof {
            lemma_encode_shape(kv);
        }
        self.root = Self::insert_at(root, k, value);
        proof {
            assert forall|x: Seq<u8>| #[trigger] lookup(self.root, encode(x, true)) == if x == kv {
                Some(vv)
            } else {
                lookup(old_root, encode(x, true))
            } by {
                lemma_encode_injective(x, kv, true);
            }
            assert(self@ =~= old_map.insert(kv, vv));
        }
    }

    fn remove(&mut self, key: &[u8]) -> (r: bool) {
        let ghost old_map = self@;
        let ghost kv = key@;
        let mut root = Node::Empty;
        std::mem::swap(&mut root, &mut self.root);
        let ghost old_root = root;
        let raw = vstd::slice::slice_to_vec(key);
        let k = Nibble::from_raw(raw, true);
        proof {
            lemma_encode_shape(kv);
        }
        let (new_root, deleted) = Self::delete_at(root, &k);
        self.root = new_root;
        proof {
            assert forall|x: Seq<u8>| #[trigger] lookup(self.root, encode(x, true)) == if x == kv {
                None
            } else {
                lookup(old_root, encode(x, true))
            } by {
                lemma_encode_injective(x, kv, true);
            }
            assert(self@ =~= old_map.remove(kv));
        }
        deleted
    }
}

impl Default for PatriciaTrie {
    fn default() -> (r: Self)
        ensures
            r.well_formed(),
            r@ == Map::<Seq<u8>, Seq<u8>>::empty(),
    {
        Self::new()
    }
}

impl PatriciaTrie {
    /// The root is the empty node.
    pub closed spec fn root_is_empty(&self) -> bool {
        self.root is Empty
    }

    /// An empty trie.
    pub fn new() -> (r: Self)
        ensures
            r.well_formed(),
            r@ == Map::<Seq<u8>, Seq<u8>>::empty(),
            r.root_is_empty(),
    {
        let r = PatriciaTrie { root: Node::Empty };
        assert(r@ =~= Map::<Seq<u8>, Seq<u8>>::empty());
        r
    }

    /// Puts `key`, a complete key, with `value` into the tree under `node`,
    /// and returns the new tree.
    #[verifier::spinoff_prover]
    #[verifier::rlimit(60)]
    fn insert_at(node: Node, key: Nibble, value: Vec<u8>) -> (r: Node)
        requires
            wf(node),
            is_complete(key@),
        ensures
            wf(r),
            inserted(node, r, key@, value@),
            lookup(node, key@) is Some ==> same_shape(node, r),
            !(r is Empty),
            node is Branch ==> r is Branch,
            node matches Node::Extension(e) && key@[0] != e.nibble@[0] ==> r is Branch,
            node is Empty ==> (r matches Node::Leaf(l) && l.nibble@ == key@ && l.value@ == value@),
            node matches Node::Leaf(l) && l.nibble@ == key@ ==> (r matches Node::Leaf(l2)
                && l2.nibble@ == key@ && l2.value@ == value@),
            node is Leaf && node->Leaf_0.nibble@ != key@ ==> leaf_split(
                node->Leaf_0.nibble@,
                node->Leaf_0.value@,
                key@,
                value@,
                r,
            ),
            node matches Node::Branch(b) ==> branch_put(*b, key@, value@, r),
            node is Extension && key@[0] != node->Extension_0.nibble@[0] ==> ext_demoted(
                node->Extension_0.nibble@,
                node->Extension_0.next,
                key@,
                value@,
                r,
            ),
            node is Extension && starts_with(key@, node->Extension_0.nibble@) ==> (r matches Node::Extension(e2)
                && e2.nibble@ == node->Extension_0.nibble@ && inserted(
                node->Extension_0.next,
                e2.next,
                key@.skip(node->Extension_0.nibble@.len() as int),
                value@,
            )),
            forall|m: int|
                node is Extension && #[trigger] is_match_len(key@, node->Extension_0.nibble@, m) && 0 < m
                    < node->Extension_0.nibble@.len() ==> (r matches Node::Extension(e2)
                    && e2.nibble@ == node->Extension_0.nibble@.take(m) && ext_demoted(
                    node->Extension_0.nibble@.skip(m),
                    node->Extension_0.next,
                    key@.skip(m),
                    value@,
                    e2.next,
                )),
        decreases key@.len(), if node is Extension {
            1int
        } else {
            0int
        },
    {
        let ghost old_node = node;
        let ghost q = key@;
        let ghost v = value@;
        proof {
            lemma_complete_digits(q);
        }
        match node {
            Node::Empty => {
                let r = Node::leaf(key, value);
                assert(r->Leaf_0.nibble@ == q);
                assert(is_complete(q));
                assert(wf(r));
                assert(inserted(old_node, r, q, v));
                r
            },
            Node::Leaf(old_leaf) => {
                let LeafNode { nibble: old_key, value: old_value } = *old_leaf;
                let ghost s = old_key@;
                let ghost ov = old_value@;
                let m = key.match_len(&old_key);
                proof {
                    lemma_complete_digits(s);
                }
                if m == old_key.len() {
                    proof {
                        if m < q.len() {
                            assert(s[m - 1] == s.take(m as int)[m - 1]);
                            assert(q[m - 1] == q.take(m as int)[m - 1]);
                        }
                        assert(s =~= s.take(m as int));
                        assert(q =~= q.take(m as int));
                        assert(s =~= q);
                    }
                    let r = Node::leaf(old_key, value);
                    assert(inserted(old_node, r, q, v));
                    assert(same_shape(old_node, r));
                    return r;
                }
                proof {
                    if m == q.len() {
                        assert(q[m - 1] == q.take(m as int)[m - 1]);
                        assert(s[m - 1] == s.take(m as int)[m - 1]);
                    }
                }
                let leaf_index = m + 1;
                let mut branch = BranchNode::new();
                let old_digit = old_key.value_at(m);
                let new_digit = key.value_at(m);
                let old_rest = old_key.slice_from(leaf_index);
                let new_rest = key.slice_from(leaf_index);
                proof {
                    if old_digit != LEAF_FLAG {
                        assert(old_rest@.drop_last() =~= s.drop_last().skip(m + 1));
                        assert(is_complete(old_rest@));
                    }
                    if new_digit != LEAF_FLAG {
                        assert(new_rest@.drop_last() =~= q.drop_last().skip(m + 1));
                        assert(is_complete(new_rest@));
                    }
                }
                let old_leaf_node = Node::leaf(old_rest, old_value);
                let new_leaf_node = Node::leaf(new_rest, value);
                branch.insert_at(old_digit, old_leaf_node);
                branch.insert_at(new_digit, new_leaf_node);
                let ghost bc = branch.child@;
                let ghost bv = branch.value;
                let bn = Node::branch_with_param(branch);
                proof {
                    assert forall|i: int| 0 <= i < 16 implies wf(#[trigger] bc[i]) by {
                        if i == old_digit {
                            assert(bc[i] == old_leaf_node);
                        } else if i == new_digit {
                            assert(bc[i] == new_leaf_node);
                        } else {
                            assert(bc[i] is Empty);
                        }
                    }
                    if old_digit < 16 {
                        assert(!(bc[old_digit as int] is Empty));
                    } else {
                        assert(!(bc[new_digit as int] is Empty));
                    }
                    assert(wf(bn));
                    let (sm, qm) = (s.skip(m as int), q.skip(m as int));
                    assert(sm.skip(1) =~= s.skip(m + 1));
                    assert(qm.skip(1) =~= q.skip(m + 1));
                    if old_digit < 16 {
                        assert(bc[old_digit as int] == old_leaf_node);
                    }
                    if new_digit < 16 {
                        assert(bc[new_digit as int] == new_leaf_node);
                    }
                    assert(two_key_branch(bn, sm, ov, qm, v));
                    assert forall|m2: int| #[trigger] is_match_len(q, s, m2) implies m2 == m by {
                        lemma_match_len_unique(q, s, m as int, m2);
                    }
                    assert forall|j: Seq<u8>| #[trigger]
                        lookup(bn, j) == if j == q.skip(m as int) {
                            Some(v)
                        } else if j == s.skip(m as int) {
                            Some(ov)
                        } else {
                            None
                        } by {
                        lemma_lookup_step(bn, j);
                        if j.len() > 0 {
                            lemma_lookup_step(bc[j[0] as int], j.skip(1));
                            if j[0] == s[m as int] {
                                lemma_split_at(j, seq![j[0]], s.skip(m + 1));
                                assert(s.skip(m as int) =~= seq![j[0]] + s.skip(m + 1));
                                assert(j.take(1) =~= seq![j[0]]);
                            }
                            if j[0] == q[m as int] {
                                lemma_split_at(j, seq![j[0]], q.skip(m + 1));
                                assert(q.skip(m as int) =~= seq![j[0]] + q.skip(m + 1));
                                assert(j.take(1) =~= seq![j[0]]);
                            }
                            if j[0] != s[m as int] {
                                assert(j[0] == j[0]);
                                assert(j != s.skip(m as int));
                            }
                            if j[0] != q[m as int] {
                                assert(j != q.skip(m as int));
                            }
                        }
                    }
                }
                if m == 0 {
                    assert(q.skip(0) == q);
                    assert(s.skip(0) == s);
                    assert(leaf_split(s, ov, q, v, bn));
                    assert(inserted(old_node, bn, q, v));
                    return bn;
                }
                let shared = key.sub_slice(0, m);
                let r = Node::extension(shared, bn);
                proof {
                    assert(shared@ =~= s.take(m as int));
                    assert(shared@ =~= q.take(m as int));
                    assert(leaf_split(s, ov, q, v, r));
                    assert forall|k: Seq<u8>| #[trigger]
                        lookup(r, k) == if k == q {
                            Some(v)
                        } else {
                            lookup(old_node, k)
                        } by {
                        lemma_lookup_step(r, k);
                        lemma_lookup_step(old_node, k);
                        lemma_split_at(k, shared@, q.skip(m as int));
                        lemma_split_at(k, shared@, s.skip(m as int));
                        assert(q =~= shared@ + q.skip(m as int));
                        assert(s =~= shared@ + s.skip(m as int));
                    }
                    assert(is_path(shared@)) by {
                        assert forall|i: int| 0 <= i < shared@.len() implies #[trigger] shared@[i] < 16 by {
                            assert(shared@[i] == q.drop_last()[i]);
                        }
                    }
                }
                r
            },
            Node::Branch(old_branch) => {
                let mut branch = *old_branch;
                assert(branch.child@.len() == 16);
                let d = key.value_at(0);
                let ghost old_children = branch.child@;
                if d == LEAF_FLAG {
                    branch.value = Some(value);
                    let r = Node::branch_with_param(branch);
                    proof {
                        assert(q =~= seq![LEAF_FLAG as u8]);
                        assert(inserted(old_node, r, q, v));
                        lemma_lookup_step(old_node, q);
                        assert forall|i: int| 0 <= i < old_children.len() implies same_shape(
                            #[trigger] old_children[i],
                            old_children[i],
                        ) by {
                            lemma_same_shape_refl(old_children[i]);
                        }
                    }
                    return r;
                }
                let old_child = branch.child.remove(d);
                let rest = key.slice_from(1);
                proof {
                    assert(old_child == old_children[d as int]);
                    assert(rest@.drop_last() =~= q.drop_last().skip(1));
                }
                let new_child = Self::insert_at(old_child, rest, value);
                branch.child.insert(d, new_child);
                let r = Node::branch_with_param(branch);
                proof {
                    assert(branch.child@ =~= old_children.update(d as int, new_child));
                    assert forall|i: int| 0 <= i < 16 implies wf(#[trigger] branch.child@[i]) by {
                        if i != d {
                            assert(branch.child@[i] == old_children[i]);
                        }
                    }
                    lemma_lookup_step(old_node, q);
                    assert(q.skip(1) =~= rest@);
                    if lookup(old_node, q) is Some {
                        assert forall|i: int| 0 <= i < 16 implies same_shape(
                            #[trigger] old_children[i],
                            branch.child@[i],
                        ) by {
                            if i != d {
                                lemma_same_shape_refl(old_children[i]);
                            }
                        }
                    }
                    assert forall|k: Seq<u8>| #[trigger]
                        lookup(r, k) == if k == q {
                            Some(v)
                        } else {
                            lookup(old_node, k)
                        } by {
                        lemma_lookup_step(r, k);
                        lemma_lookup_step(old_node, k);
                        lemma_split_at(k, seq![d as u8], rest@);
                        assert(q =~= seq![d as u8] + rest@);
                        if k.len() > 0 {
                            assert(k.take(1) =~= seq![k[0]]);
                        }
                    }
                }
                r
            },
            Node::Extension(old_ext) => {
                let ExtensionNode { nibble: prefix, next } = *old_ext;
                let ghost p = prefix@;
                let m = key.match_len(&prefix);
                proof {
                    if m == q.len() {
                        assert(q[m - 1] == q.take(m as int)[m - 1]);
                        assert(p[m - 1] == p.take(m as int)[m - 1]);
                    }
                    lemma_lookup_step(old_node, q);
                    if starts_with(q, p) && m < p.len() {
                        assert(q[m as int] == q.take(p.len() as int)[m as int]);
                    }
                    assert forall|m2: int| #[trigger] is_match_len(q, p, m2) implies m2 == m by {
                        lemma_match_len_unique(q, p, m as int, m2);
                    }
                }
                if m == 0 {
                    let old_next = if prefix.len() == 1 {
                        next
                    } else {
                        let tail = prefix.slice_from(1);
                        proof {
                            assert forall|i: int| 0 <= i < tail@.len() implies #[trigger] tail@[i] < 16 by {
                                assert(tail@[i] == p[i + 1]);
                            }
                        }
                        Node::extension(tail, next)
                    };
                    let ghost old_next_ghost = old_next;
                    let mut branch = BranchNode::new();
                    let first = prefix.value_at(0);
                    branch.insert_at(first, old_next);
                    let ghost bc = branch.child@;
                    let bn = Node::branch_with_param(branch);
                    proof {
                        assert(wf(old_next_ghost));
                        assert forall|i: int| 0 <= i < 16 implies wf(#[trigger] bc[i]) by {
                            if i == first {
                                assert(bc[i] == old_next_ghost);
                            } else {
                                assert(bc[i] is Empty);
                            }
                        }
                        assert(!(bc[first as int] is Empty));
                        assert(wf(bn));
                        lemma_ext_as_branch(old_node, bn);
                    }
                    let r = Self::insert_at(bn, key, value);
                    return r;
                }
                let rest = key.slice_from(m);
                proof {
                    assert(rest@.drop_last() =~= q.drop_last().skip(m as int));
                    assert(q =~= p.take(m as int) + rest@);
                }
                if m == prefix.len() {
                    let new_next = Self::insert_at(next, rest, value);
                    let r = Node::extension(prefix, new_next);
                    proof {
                        assert(p.take(m as int) =~= p);
                        assert forall|k: Seq<u8>| #[trigger]
                            lookup(r, k) == if k == q {
                                Some(v)
                            } else {
                                lookup(old_node, k)
                            } by {
                            lemma_lookup_step(r, k);
                            lemma_lookup_step(old_node, k);
                            lemma_split_at(k, p, rest@);
                        }
                        assert(q.skip(m as int) =~= rest@);
                    }
                    return r;
                }
                let tail = prefix.slice_from(m);
                let head = prefix.sub_slice(0, m);
                proof {
                    assert forall|i: int| 0 <= i < tail@.len() implies #[trigger] tail@[i] < 16 by {
                        assert(tail@[i] == p[i + m]);
                    }
                    assert forall|i: int| 0 <= i < head@.len() implies #[trigger] head@[i] < 16 by {
                        assert(head@[i] == p[i]);
                    }
                }
                let lower = Node::extension(tail, next);
                assert(rest@[0] == q[m as int] && tail@[0] == p[m as int]);
                let new_next = Self::insert_at(lower, rest, value);
                let r = Node::extension(head, new_next);
                proof {
                    assert forall|k: Seq<u8>| #[trigger]
                        lookup(r, k) == if k == q {
                            Some(v)
                        } else {
                            lookup(old_node, k)
                        } by {
                        lemma_lookup_step(r, k);
                        lemma_lookup_step(old_node, k);
                        lemma_lookup_step(lower, k.skip(m as int));
                        lemma_split_at(k, head@, rest@);
                        lemma_starts_with_parts(k, p, m as int);
                        assert(lookup(lower, k.skip(m as int)) == if starts_with(k.skip(m as int), tail@) {
                            lookup(next, k.skip(m as int).skip(tail@.len() as int))
                        } else {
                            None
                        });
                    }
                }
                r
            },
        }
    }

    /// Takes `key`, a complete key, out of the tree under `node`; returns the
    /// new tree and whether the key was there. A tree without the key comes
    /// back as it was. Below the removed key, a branch left with one child
    /// and no value is folded into the node above or below it, and one left
    /// with nothing goes, so that what holds no key is the empty node.
    fn delete_at(node: Node, key: &Nibble) -> (r: (Node, bool))
        requires
            wf(node),
            is_complete(key@),
        ensures
            wf(r.0),
            r.1 == lookup(node, key@) is Some,
            removed(node, r.0, key@),
            !r.1 ==> r.0 == node,
            (forall|k: Seq<u8>| #[trigger] lookup(r.0, k) is None) ==> r.0 is Empty,
        decreases node,
    {
        let ghost old_node = node;
        let ghost q = key@;
        proof {
            lemma_complete_digits(q);
            lemma_vacant_is_empty(node);
        }
        let path = key.sub_slice(0, key.len() - 1);
        proof {
            assert(path@ =~= q.drop_last());
            assert(path@.push(LEAF_FLAG as u8) =~= q);
        }
        if Self::get_at(&node, &path).is_none() {
            return (node, false);
        }
        match node {
            Node::Empty => (Node::Empty, false),
            Node::Leaf(leaf) => {
                let m = key.match_len(&leaf.nibble);
                let ghost s = leaf.nibble@;
                if m == key.len() && m == leaf.nibble.len() {
                    proof {
                        assert(s =~= s.take(m as int));
                        assert(q =~= q.take(m as int));
                        assert(removed(old_node, Node::Empty, q));
                    }
                    (Node::Empty, true)
                } else {
                    proof {
                        if s == q {
                            assert(s.take(m as int) =~= s.take(m as int));
                            if m < q.len() {
                                assert(s[m as int] == q[m as int]);
                            }
                        }
                        assert(removed(old_node, old_node, q));
                    }
                    (Node::Leaf(leaf), false)
                }
            },
            Node::Branch(old_branch) => {
                let mut branch = *old_branch;
                assert(branch.child@.len() == 16);
                let d = key.value_at(0);
                let ghost old_children = branch.child@;
                let ghost old_value = branch.value;
                let deleted;
                if d == LEAF_FLAG {
                    assert(q =~= seq![LEAF_FLAG as u8]);
                    deleted = branch.value.is_some();
                    branch.value = None;
                } else {
                    let old_child = branch.child.remove(d);
                    let rest = key.slice_from(1);
                    proof {
                        assert(old_child == old_children[d as int]);
                        assert(rest@.drop_last() =~= q.drop_last().skip(1));
                        assert(q.skip(1) == rest@);
                    }
                    let (new_child, child_deleted) = Self::delete_at(old_child, &rest);
                    branch.child.insert(d, new_child);
                    deleted = child_deleted;
                    proof {
                        assert(branch.child@ =~= old_children.update(d as int, new_child));
                    }
                }
                let ghost nb = branch;
                proof {
                    assert forall|i: int| 0 <= i < 16 implies wf(#[trigger] nb.child@[i]) by {
                        if i != d {
                            assert(nb.child@[i] == old_children[i]);
                        }
                    }
                }
                let r = compact_branch(branch);
                proof {
                    let bn = Node::Branch(Box::new(nb));
                    assert forall|k: Seq<u8>| #[trigger]
                        lookup(bn, k) == if k == q {
                            None
                        } else {
                            lookup(old_node, k)
                        } by {
                        lemma_lookup_step(bn, k);
                        lemma_lookup_step(old_node, k);
                        if d != LEAF_FLAG {
                            lemma_split_at(k, seq![d as u8], q.skip(1));
                            assert(q =~= seq![d as u8] + q.skip(1));
                            if k.len() > 0 {
                                assert(k.take(1) =~= seq![k[0]]);
                            }
                        }
                    }
                    lemma_lookup_step(old_node, q);
                    assert forall|k: Seq<u8>| #[trigger]
                        lookup(r, k) == if k == q {
                            None
                        } else {
                            lookup(old_node, k)
                        } by {
                        assert(lookup(bn, k) == if k == q {
                            None
                        } else {
                            lookup(old_node, k)
                        });
                    }
                }
                assert(removed(old_node, r, q));
                proof {
                    lemma_vacant_is_empty(r);
                }
                (r, deleted)
            },
            Node::Extension(old_ext) => {
                let ExtensionNode { nibble: prefix, next } = *old_ext;
                let ghost p = prefix@;
                let m = key.match_len(&prefix);
                proof {
                    lemma_lookup_step(old_node, q);
                    if m == q.len() {
                        assert(q[m - 1] == q.take(m as int)[m - 1]);
                        assert(p[m - 1] == p.take(m as int)[m - 1]);
                    }
                    if starts_with(q, p) && m < p.len() {
                        assert(q[m as int] == q.take(p.len() as int)[m as int]);
                    }
                }
                if m == 0 || m != prefix.len() {
                    let r = Node::extension(prefix, next);
                    proof {
                        assert forall|k: Seq<u8>| #[trigger]
                            lookup(r, k) == if k == q {
                                None
                            } else {
                                lookup(old_node, k)
                            } by {
                            lemma_lookup_step(r, k);
                            lemma_lookup_step(old_node, k);
                        }
                    }
                    proof {
                        lemma_vacant_is_empty(r);
                    }
                    return (r, false);
                }
                let rest = key.slice_from(m);
                proof {
                    assert(rest@.drop_last() =~= q.drop_last().skip(m as int));
                    assert(p.take(m as int) =~= p);
                    assert(q =~= p + rest@);
                    assert(starts_with(q, p));
                }
                let (new_next, deleted) = Self::delete_at(next, &rest);
                let ghost nn = new_next;
                let r = compact_extension(prefix, new_next);
                proof {
                    assert forall|k: Seq<u8>| #[trigger]
                        lookup(r, k) == if k == q {
                            None
                        } else {
                            lookup(old_node, k)
                        } by {
                        lemma_lookup_step(r, k);
                        lemma_lookup_step(old_node, k);
                        lemma_split_at(k, p, rest@);
                    }
                }
                proof {
                    lemma_vacant_is_empty(r);
                }
                (r, deleted)
            },
        }
    }

    /// Looks up `key`, a key without terminator, in the tree under `node`.
    /// At a leaf the rest of the query must be the leaf's suffix less its
    /// terminator, no more and no less: a query that stops inside a stored
    /// key finds nothing, and an exhausted query finds a leaf that holds only
    /// the terminator.
    fn get_at(node: &Node, key: &Nibble) -> (r: Option<Vec<u8>>)
        requires
            wf(*node),
            is_path(key@),
        ensures
            opt_view(r) == lookup(*node, key@.push(LEAF_FLAG as u8)),
        decreases node,
    {
        let ghost k = key@.push(LEAF_FLAG as u8);
        match node {
            Node::Empty => {
                assert(lookup(*node, k) is None);
                None
            },
            Node::Leaf(leaf) => {
                let key_end = &leaf.nibble;
                let m = key.match_len(key_end);
                proof {
                    if k == key_end@ {
                        assert(key_end@[m as int] == k[m as int]);
                    }
                }
                if m != key.len() || key_end.is_empty() || key_end.len() - 1 != m {
                    return None;
                }
                if key_end.value_at(m) != LEAF_FLAG {
                    return None;
                }
                assert(key_end@ =~= key_end@.take(m as int).push(LEAF_FLAG as u8));
                assert(key@ =~= key@.take(m as int));
                assert(k =~= key_end@);
                Some(clone_bytes(&leaf.value))
            },
            Node::Branch(branch) => {
                if key.is_empty() || key.value_at(0) == LEAF_FLAG {
                    assert(k =~= seq![LEAF_FLAG as u8]);
                    let r = clone_value(&branch.value);
                    assert(opt_view(r) == lookup(*node, k));
                    r
                } else {
                    let d = key.value_at(0);
                    let rest = key.slice_from(1);
                    assert(k.skip(1) =~= rest@.push(LEAF_FLAG as u8));
                    let r = Self::get_at(&branch.child[d], &rest);
                    assert(opt_view(r) == lookup(*node, k));
                    r
                }
            },
            Node::Extension(ext) => {
                let prefix = &ext.nibble;
                let m = key.match_len(prefix);
                proof {
                    if starts_with(k, prefix@) {
                        if prefix@.len() == k.len() {
                            assert(prefix@[prefix@.len() - 1] == k[prefix@.len() - 1]);
                        }
                        if m < prefix@.len() {
                            assert(prefix@[m as int] == k[m as int]);
                        }
                    }
                }
                if m == 0 {
                    return None;
                }
                if m != prefix.len() {
                    return None;
                }
                let rest = key.slice_from(m);
                assert(k.take(m as int) =~= key@.take(m as int));
                assert(prefix@.take(m as int) =~= prefix@);
                assert(starts_with(k, prefix@));
                assert(k.skip(m as int) =~= rest@.push(LEAF_FLAG as u8));
                let r = Self::get_at(&ext.next, &rest);
                assert(opt_view(r) == lookup(*node, k));
                r
            },
        }
    }
}


/// Inserting `key` with `value` and then looking `key` up gives `value`.
pub proof fn lemma_round_trip(t: PatriciaTrie, key: Seq<u8>, value: Seq<u8>)
    ensures
        map_get(t@.insert(key, value), key) == Some(value),
{
}

/// Inserting one key twice leaves the same keys as inserting it once, and a
/// lookup then sees only the later value.
pub proof fn lemma_update_twice(t: PatriciaTrie, key: Seq<u8>, first: Seq<u8>, second: Seq<u8>)
    ensures
        t@.insert(key, first).insert(key, second) == t@.insert(key, second),
        t@.insert(key, first).insert(key, second).dom() == t@.insert(key, first).dom(),
        map_get(t@.insert(key, first).insert(key, second), key) == Some(second),
{
    assert(t@.insert(key, first).insert(key, second) =~= t@.insert(key, second));
    assert(t@.insert(key, first).insert(key, second).dom() =~= t@.insert(key, first).dom());
}

/// Inserting `key2` leaves the lookup of every other key as it was.
pub proof fn lemma_key_independence(
    t: PatriciaTrie,
    key1: Seq<u8>,
    key2: Seq<u8>,
    value: Seq<u8>,
)
    requires
        key1 != key2,
    ensures
        map_get(t@.insert(key2, value), key1) == map_get(t@, key1),
{
}

/// After `key` is removed a lookup of it finds nothing, and every other key
/// keeps its value.
pub proof fn lemma_remove_correct(t: PatriciaTrie, key: Seq<u8>, other: Seq<u8>)
    requires
        other != key,
    ensures
        map_get(t@.remove(key), key) is None,
        map_get(t@.remove(key), other) == map_get(t@, other),
{
}

/// A new trie holds no key: lookups find nothing and removals remove nothing.
pub proof fn lemma_empty_baseline(key: Seq<u8>)
    ensures
        map_get(Map::<Seq<u8>, Seq<u8>>::empty(), key) is None,
        !Map::<Seq<u8>, Seq<u8>>::empty().contains_key(key),
        Map::<Seq<u8>, Seq<u8>>::empty().remove(key) == Map::<Seq<u8>, Seq<u8>>::empty(),
{
    assert(Map::<Seq<u8>, Seq<u8>>::empty().remove(key) =~= Map::<Seq<u8>, Seq<u8>>::empty());
}

/// A trie whose root is the empty node is well formed and holds no key.
pub proof fn lemma_empty_root_holds_nothing(t: PatriciaTrie)
    requires
        t.root_is_empty(),
    ensures
        t@ == Map::<Seq<u8>, Seq<u8>>::empty(),
        t.well_formed(),
{
    assert(t@ =~= Map::<Seq<u8>, Seq<u8>>::empty());
}

/// The map after inserting each of `keys` in order, each with itself as value.
pub open spec fn insert_each(m: Map<Seq<u8>, Seq<u8>>, keys: Seq<Seq<u8>>) -> Map<Seq<u8>, Seq<u8>>
    decreases keys.len(),
{
    if keys.len() == 0 {
        m
    } else {
        insert_each(m, keys.drop_last()).insert(keys.last(), keys.last())
    }
}

/// After inserting any number of keys, each with itself as value, every one
/// of them is found with its value.
pub proof fn lemma_all_retrievable(t: PatriciaTrie, keys: Seq<Seq<u8>>)
    ensures
        forall|i: int|
            0 <= i < keys.len() ==> map_get(insert_each(t@, keys), #[trigger] keys[i]) == Some(
                keys[i],
            ),
    decreases keys.len(),
{
    if keys.len() > 0 {
        lemma_all_retrievable(t, keys.drop_last());
        assert forall|i: int| 0 <= i < keys.len() implies map_get(
            insert_each(t@, keys),
            #[trigger] keys[i],
        ) == Some(keys[i]) by {
            if i < keys.len() - 1 {
                assert(keys.drop_last()[i] == keys[i]);
            }
        }
    }
}

} // verus!
