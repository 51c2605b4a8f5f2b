//! The trie itself: nodes keyed by a single character, each optionally
//! carrying a value, with uniquely labelled child edges.

use vstd::prelude::*;

verus! {

broadcast use {
    vstd::seq::axiom_seq_index_decreases,
    vstd::std_specs::vec::axiom_vec_decreases_to_view,
};

/// One position in the trie: an optional payload (present iff some key
/// terminates exactly here) and the labelled child edges.
#[derive(Debug)]
pub struct TrieNode {
    pub value: Option<String>,
    pub children: Vec<(char, TrieNode)>,
}

impl TrieNode {
    /// True iff no two child edges carry the same label.
    pub open spec fn labels_unique(self) -> bool {
        forall|i: int, j: int|
            0 <= i < j < self.children@.len() ==> self.children@[i].0 != self.children@[j].0
    }

    /// True iff some key terminates in this subtree.
    pub open spec fn has_word(self) -> bool
        decreases self,
    {
        self.value is Some || exists|i: int|
            0 <= i < self.children@.len() && (#[trigger] self.children@[i].1).has_word()
    }

    /// Well-formedness: labels are unique at every node, and every child
    /// subtree contains at least one key (dead branches are pruned away).
    pub open spec fn wf(self) -> bool
        decreases self,
    {
        &&& self.labels_unique()
        &&& forall|i: int|
            0 <= i < self.children@.len() ==> (#[trigger] self.children@[i].1).wf()
                && self.children@[i].1.has_word()
    }

    /// The child reached along label `c`, if any.
    pub open spec fn spec_child(self, c: char) -> Option<TrieNode> {
        seq_child(self.children@, c)
    }

    /// The node reached by consuming the characters of `p` in order, if the
    /// whole path exists.
    pub open spec fn node_at(self, p: Seq<char>) -> Option<TrieNode>
        decreases p.len(),
    {
        if p.len() == 0 {
            Some(self)
        } else {
            match self.spec_child(p[0]) {
                Some(child) => child.node_at(p.drop_first()),
                None => None,
            }
        }
    }

    /// The value stored for key `k` in this subtree, if any.
    pub open spec fn spec_get(self, k: Seq<char>) -> Option<Seq<char>> {
        match self.node_at(k) {
            Some(node) => match node.value {
                Some(v) => Some(v@),
                None => None,
            },
            None => None,
        }
    }

    /// A fresh node: value-less and childless.
    pub fn new() -> (node: TrieNode)
        ensures
            node.value is None,
            node.children@.len() == 0,
            node.wf(),
            !node.has_word(),
    {
        TrieNode { value: None, children: Vec::new() }
    }
}

/// Finds the position of the child edge labelled `c`, if one exists.
fn find_child_index(children: &Vec<(char, TrieNode)>, c: char) -> (r: Option<usize>)
    ensures
        match r {
            Some(j) => j < children@.len() && children@[j as int].0 == c,
            None => forall|i: int| 0 <= i < children@.len() ==> children@[i].0 != c,
        },
{
    let mut j: usize = 0;
    while j < children.len()
        invariant
            j <= children@.len(),
            forall|i: int| 0 <= i < j ==> children@[i].0 != c,
        decreases children@.len() - j,
    {
        if children[j].0 == c {
            return Some(j);
        }
        j = j + 1;
    }
    None
}

/// The first child edge labelled `c` in the sequence, if any.
pub open spec fn seq_child(cs: Seq<(char, TrieNode)>, c: char) -> Option<TrieNode>
    decreases cs.len(),
{
    if cs.len() == 0 {
        None
    } else if cs[0].0 == c {
        Some(cs[0].1)
    } else {
        seq_child(cs.drop_first(), c)
    }
}

/// With unique labels, the edge at index `j` is the one that `seq_child`
/// denotes for its label.
pub(crate) proof fn lemma_seq_child_at(cs: Seq<(char, TrieNode)>, j: int)
    requires
        0 <= j < cs.len(),
        forall|i1: int, i2: int| 0 <= i1 < i2 < cs.len() ==> cs[i1].0 != cs[i2].0,
    ensures
        seq_child(cs, cs[j].0) == Some(cs[j].1),
    decreases cs.len(),
{
    if j > 0 {
        let tail = cs.drop_first();
        assert(cs[0].0 != cs[j].0);
        assert forall|i1: int, i2: int| 0 <= i1 < i2 < tail.len() implies tail[i1].0
            != tail[i2].0 by {
            assert(tail[i1] == cs[i1 + 1]);
            assert(tail[i2] == cs[i2 + 1]);
        }
        assert(tail[j - 1] == cs[j]);
        lemma_seq_child_at(tail, j - 1);
    }
}

/// With no edge labelled `c`, `seq_child` denotes nothing.
proof fn lemma_seq_child_none(cs: Seq<(char, TrieNode)>, c: char)
    requires
        forall|i: int| 0 <= i < cs.len() ==> cs[i].0 != c,
    ensures
        seq_child(cs, c) is None,
    decreases cs.len(),
{
    if cs.len() > 0 {
        let tail = cs.drop_first();
        assert forall|i: int| 0 <= i < tail.len() implies tail[i].0 != c by {
            assert(tail[i] == cs[i + 1]);
        }
        lemma_seq_child_none(tail, c);
    }
}

/// With unique labels, the child found at index `j` is the one that
/// `spec_child` denotes.
pub(crate) proof fn lemma_spec_child_at(n: TrieNode, j: int)
    requires
        n.labels_unique(),
        0 <= j < n.children@.len(),
    ensures
        n.spec_child(n.children@[j].0) == Some(n.children@[j].1),
{
    lemma_seq_child_at(n.children@, j);
}

/// With no edge labelled `c`, `spec_child` denotes nothing.
pub(crate) proof fn lemma_spec_child_none(n: TrieNode, c: char)
    requires
        forall|i: int| 0 <= i < n.children@.len() ==> n.children@[i].0 != c,
    ensures
        n.spec_child(c) is None,
{
    lemma_seq_child_none(n.children@, c);
}

/// Unfolds one step of `spec_get` along the first character of the key.
pub(crate) proof fn lemma_get_step(n: TrieNode, k: Seq<char>)
    requires
        k.len() > 0,
    ensures
        n.spec_get(k) == (match n.spec_child(k[0]) {
            Some(c) => c.spec_get(k.drop_first()),
            None => None::<Seq<char>>,
        }),
{
}

/// Two nodes with the same labels, and the same subtrees except at `j`,
/// denote the same children away from `j`'s label.
proof fn lemma_spec_child_update(n: TrieNode, r: TrieNode, j: int)
    requires
        n.labels_unique(),
        0 <= j < n.children@.len(),
        r.children@.len() == n.children@.len(),
        forall|i: int| 0 <= i < n.children@.len() ==> r.children@[i].0 == n.children@[i].0,
        forall|i: int|
            0 <= i < n.children@.len() && i != j ==> r.children@[i].1 == n.children@[i].1,
    ensures
        r.labels_unique(),
        r.spec_child(n.children@[j].0) == Some(r.children@[j].1),
        forall|c: char| c != n.children@[j].0 ==> r.spec_child(c) == n.spec_child(c),
{
    assert(r.labels_unique());
    lemma_spec_child_at(r, j);
    assert forall|c: char| c != n.children@[j].0 implies r.spec_child(c) == n.spec_child(c) by {
        if exists|i: int| 0 <= i < n.children@.len() && (#[trigger] n.children@[i].0) == c {
            let i0 = choose|i: int|
                0 <= i < n.children@.len() && (#[trigger] n.children@[i].0) == c;
            assert(i0 != j);
            lemma_spec_child_at(n, i0);
            lemma_spec_child_at(r, i0);
        } else {
            lemma_spec_child_none(n, c);
            lemma_spec_child_none(r, c);
        }
    }
}

/// Appending a child under a fresh label keeps the other children denoting
/// as before, and makes the new child reachable under its label.
proof fn lemma_spec_child_push(n: TrieNode, r: TrieNode, ch: char, node: TrieNode)
    requires
        n.labels_unique(),
        forall|i: int| 0 <= i < n.children@.len() ==> n.children@[i].0 != ch,
        r.children@ == n.children@.push((ch, node)),
    ensures
        r.labels_unique(),
        r.spec_child(ch) == Some(node),
        forall|c: char| c != ch ==> r.spec_child(c) == n.spec_child(c),
{
    assert(r.children@[n.children@.len() as int] == (ch, node));
    assert(r.labels_unique());
    lemma_spec_child_at(r, n.children@.len() as int);
    assert forall|c: char| c != ch implies r.spec_child(c) == n.spec_child(c) by {
        if exists|i: int| 0 <= i < n.children@.len() && (#[trigger] n.children@[i].0) == c {
            let i0 = choose|i: int|
                0 <= i < n.children@.len() && (#[trigger] n.children@[i].0) == c;
            lemma_spec_child_at(n, i0);
            lemma_spec_child_at(r, i0);
        } else {
            lemma_spec_child_none(n, c);
            lemma_spec_child_none(r, c);
        }
    }
}

/// Removing the child at `j` keeps the other children denoting as before,
/// and leaves nothing under the removed label.
proof fn lemma_spec_child_remove(n: TrieNode, r: TrieNode, j: int)
    requires
        n.labels_unique(),
        0 <= j < n.children@.len(),
        r.children@ == n.children@.remove(j),
    ensures
        r.labels_unique(),
        r.spec_child(n.children@[j].0) is None,
        forall|c: char| c != n.children@[j].0 ==> r.spec_child(c) == n.spec_child(c),
{
    let ch = n.children@[j].0;
    assert forall|i: int| 0 <= i < r.children@.len() implies r.children@[i] == (if i < j {
        n.children@[i]
    } else {
        n.children@[i + 1]
    }) by {}
    assert(r.labels_unique());
    assert forall|i: int| 0 <= i < r.children@.len() implies r.children@[i].0 != ch by {}
    lemma_spec_child_none(r, ch);
    assert forall|c: char| c != ch implies r.spec_child(c) == n.spec_child(c) by {
        if exists|i: int| 0 <= i < n.children@.len() && (#[trigger] n.children@[i].0) == c {
            let i0 = choose|i: int|
                0 <= i < n.children@.len() && (#[trigger] n.children@[i].0) == c;
            lemma_spec_child_at(n, i0);
            if i0 < j {
                lemma_spec_child_at(r, i0);
            } else {
                lemma_spec_child_at(r, i0 - 1);
            }
        } else {
            lemma_spec_child_none(n, c);
            lemma_spec_child_none(r, c);
        }
    }
}

/// A value-less, childless node holds no key at all.
proof fn lemma_empty_get(n: TrieNode)
    requires
        n.value is None,
        n.children@.len() == 0,
    ensures
        forall|k: Seq<char>| #[trigger] n.spec_get(k) is None,
        !n.has_word(),
{
    assert forall|k: Seq<char>| #[trigger] n.spec_get(k) is None by {
        if k.len() > 0 {
            lemma_get_step(n, k);
            lemma_spec_child_none(n, k[0]);
        }
    }
}

/// Inserts `value` under the suffix of `key` that starts at position `i`,
/// below `node`; returns the rebuilt node.
fn insert_at(node: TrieNode, key: &str, i: usize, value: &String) -> (r: TrieNode)
    requires
        i <= key@.len(),
        node.wf(),
    ensures
        r.wf(),
        r.has_word(),
        forall|k: Seq<char>|
            #![trigger r.spec_get(k)]
            r.spec_get(k) == (if k == key@.skip(i as int) {
                Some(value@)
            } else {
                node.spec_get(k)
            }),
    decreases key@.len() - i,
{
    let ghost orig = node;
    let ghost suffix = key@.skip(i as int);
    if i == key.unicode_len() {
        let mut cur = node;
        cur.value = Some(value.as_str().to_owned());
        proof {
            assert(suffix =~= Seq::<char>::empty());
            assert forall|k: Seq<char>|
                #![trigger cur.spec_get(k)]
                cur.spec_get(k) == (if k == suffix {
                    Some(value@)
                } else {
                    orig.spec_get(k)
                }) by {
                if k.len() == 0 {
                    assert(k =~= suffix);
                } else {
                    lemma_get_step(cur, k);
                    lemma_get_step(orig, k);
                    assert(cur.spec_child(k[0]) == orig.spec_child(k[0]));
                    assert(k != suffix);
                }
            }
        }
        cur
    } else {
        let ch = key.get_char(i);
        proof {
            assert(suffix.len() > 0 && suffix[0] == ch);
            assert(suffix.drop_first() =~= key@.skip(i as int + 1));
        }
        match find_child_index(&node.children, ch) {
            Some(j) => {
                let mut cur = node;
                let pair = cur.children.remove(j);
                let grown = insert_at(pair.1, key, i + 1, value);
                cur.children.insert(j, (pair.0, grown));
                proof {
                    assert(cur.children@ =~= orig.children@.update(j as int, (ch, grown)));
                    lemma_spec_child_update(orig, cur, j as int);
                    lemma_spec_child_at(orig, j as int);
                    assert(cur.children@[j as int].1.has_word());
                    assert(cur.wf());
                    assert forall|k: Seq<char>|
                        #![trigger cur.spec_get(k)]
                        cur.spec_get(k) == (if k == suffix {
                            Some(value@)
                        } else {
                            orig.spec_get(k)
                        }) by {
                        if k.len() == 0 {
                            assert(k != suffix);
                        } else {
                            lemma_get_step(cur, k);
                            lemma_get_step(orig, k);
                            if k[0] == ch {
                                lemma_cons_eq(k, suffix);
                            }
                        }
                    }
                }
                cur
            }
            None => {
                let fresh = TrieNode::new();
                let grown = insert_at(fresh, key, i + 1, value);
                let mut cur = node;
                cur.children.push((ch, grown));
                proof {
                    lemma_spec_child_push(orig, cur, ch, grown);
                    lemma_spec_child_none(orig, ch);
                    assert(cur.children@[orig.children@.len() as int].1.has_word());
                    assert(cur.wf());
                    assert forall|k: Seq<char>|
                        #![trigger cur.spec_get(k)]
                        cur.spec_get(k) == (if k == suffix {
                            Some(value@)
                        } else {
                            orig.spec_get(k)
                        }) by {
                        if k.len() == 0 {
                            assert(k != suffix);
                        } else {
                            lemma_get_step(cur, k);
                            lemma_get_step(orig, k);
                            if k[0] == ch {
                                lemma_cons_eq(k, suffix);
                            }
                        }
                    }
                }
                cur
            }
        }
    }
}

/// Removes the value stored under the suffix of `key` that starts at
/// position `i`, below `node`, pruning subtrees that no key runs through any
/// more. The flag asks the caller to unlink the rebuilt node in turn: it is
/// raised only when that node came out value-less and childless.
fn delete_recursive(node: TrieNode, key: &str, i: usize) -> (res: (TrieNode, bool))
    requires
        i <= key@.len(),
        node.wf(),
    ensures
        res.0.wf(),
        forall|k: Seq<char>|
            #![trigger res.0.spec_get(k)]
            res.0.spec_get(k) == (if k == key@.skip(i as int) {
                None::<Seq<char>>
            } else {
                node.spec_get(k)
            }),
        res.1 ==> res.0.value is None && res.0.children@.len() == 0,
        !res.1 && node.has_word() ==> res.0.has_word(),
    decreases key@.len() - i,
{
    let ghost orig = node;
    let ghost suffix = key@.skip(i as int);
    if i == key.unicode_len() {
        proof {
            assert(suffix =~= Seq::<char>::empty());
        }
        if node.value.is_some() {
            let mut cur = node;
            cur.value = None;
            let prune = cur.children.len() == 0;
            proof {
                assert forall|k: Seq<char>|
                    #![trigger cur.spec_get(k)]
                    cur.spec_get(k) == (if k == suffix {
                        None::<Seq<char>>
                    } else {
                        orig.spec_get(k)
                    }) by {
                    if k.len() == 0 {
                        assert(k =~= suffix);
                    } else {
                        lemma_get_step(cur, k);
                        lemma_get_step(orig, k);
                        assert(k != suffix);
                    }
                }
                if !prune {
                    assert(cur.children@[0].1.has_word());
                }
            }
            (cur, prune)
        } else {
            proof {
                assert forall|k: Seq<char>|
                    #![trigger node.spec_get(k)]
                    node.spec_get(k) == (if k == suffix {
                        None::<Seq<char>>
                    } else {
                        orig.spec_get(k)
                    }) by {
                    if k.len() == 0 {
                        assert(k =~= suffix);
                    }
                }
            }
            (node, false)
        }
    } else {
        let ch = key.get_char(i);
        proof {
            assert(suffix.len() > 0 && suffix[0] == ch);
            assert(suffix.drop_first() =~= key@.skip(i as int + 1));
        }
        match find_child_index(&node.children, ch) {
            Some(j) => {
                let mut cur = node;
                let pair = cur.children.remove(j);
                let (shrunk, prune_child) = delete_recursive(pair.1, key, i + 1);
                if prune_child {
                    proof {
                        lemma_spec_child_remove(orig, cur, j as int);
                        lemma_spec_child_at(orig, j as int);
                        lemma_empty_get(shrunk);
                        assert forall|i2: int| 0 <= i2 < cur.children@.len() implies (
                        #[trigger] cur.children@[i2].1).wf() && cur.children@[i2].1.has_word() by {
                            if i2 < j {
                                assert(cur.children@[i2] == orig.children@[i2]);
                            } else {
                                assert(cur.children@[i2] == orig.children@[i2 + 1]);
                            }
                        }
                        assert(cur.wf());
                        assert forall|k: Seq<char>|
                            #![trigger cur.spec_get(k)]
                            cur.spec_get(k) == (if k == suffix {
                                None::<Seq<char>>
                            } else {
                                orig.spec_get(k)
                            }) by {
                            if k.len() == 0 {
                                assert(k != suffix);
                            } else {
                                lemma_get_step(cur, k);
                                lemma_get_step(orig, k);
                                if k[0] == ch {
                                    lemma_cons_eq(k, suffix);
                                    assert(shrunk.spec_get(k.drop_first()) is None);
                                }
                            }
                        }
                    }
                    let prune = node_is_bare(&cur);
                    proof {
                        if cur.children@.len() > 0 {
                            assert(cur.children@[0].1.has_word());
                        }
                    }
                    (cur, prune)
                } else {
                    cur.children.insert(j, (pair.0, shrunk));
                    proof {
                        assert(cur.children@ =~= orig.children@.update(j as int, (ch, shrunk)));
                        lemma_spec_child_update(orig, cur, j as int);
                        lemma_spec_child_at(orig, j as int);
                        assert(pair.1.has_word());
                        assert(cur.children@[j as int].1.has_word());
                        assert(cur.wf());
                        assert forall|k: Seq<char>|
                            #![trigger cur.spec_get(k)]
                            cur.spec_get(k) == (if k == suffix {
                                None::<Seq<char>>
                            } else {
                                orig.spec_get(k)
                            }) by {
                            if k.len() == 0 {
                                assert(k != suffix);
                            } else {
                                lemma_get_step(cur, k);
                                lemma_get_step(orig, k);
                                if k[0] == ch {
                                    lemma_cons_eq(k, suffix);
                                }
                            }
                        }
                    }
                    let prune = node_is_bare(&cur);
                    proof {
                        if cur.children@.len() > 0 {
                            assert(cur.children@[0].1.has_word());
                        }
                    }
                    (cur, prune)
                }
            }
            None => {
                proof {
                    lemma_spec_child_none(orig, ch);
                    assert forall|k: Seq<char>|
                        #![trigger node.spec_get(k)]
                        node.spec_get(k) == (if k == suffix {
                            None::<Seq<char>>
                        } else {
                            orig.spec_get(k)
                        }) by {
                        if k == suffix {
                            lemma_get_step(orig, k);
                        }
                    }
                }
                let prune = node_is_bare(&node);
                (node, prune)
            }
        }
    }
}

/// True iff the node is value-less and childless, so that pruning may unlink
/// it.
fn node_is_bare(n: &TrieNode) -> (r: bool)
    ensures
        r == (n.value is None && n.children@.len() == 0),
{
    n.value.is_none() && n.children.len() == 0
}

/// Looks up the value stored under the suffix of `key` that starts at
/// position `i`, below `n`.
fn get_at<'a>(n: &'a TrieNode, key: &str, i: usize) -> (r: Option<&'a String>)
    requires
        i <= key@.len(),
        n.wf(),
    ensures
        match r {
            Some(v) => n.spec_get(key@.skip(i as int)) == Some(v@),
            None => n.spec_get(key@.skip(i as int)) is None,
        },
    decreases key@.len() - i,
{
    let ghost suffix = key@.skip(i as int);
    if i == key.unicode_len() {
        proof {
            assert(suffix =~= Seq::<char>::empty());
        }
        match &n.value {
            Some(v) => Some(v),
            None => None,
        }
    } else {
        let ch = key.get_char(i);
        proof {
            assert(suffix.len() > 0 && suffix[0] == ch);
            assert(suffix.drop_first() =~= key@.skip(i as int + 1));
            lemma_get_step(*n, suffix);
        }
        match find_child_index(&n.children, ch) {
            Some(j) => {
                proof {
                    lemma_spec_child_at(*n, j as int);
                }
                get_at(&n.children[j].1, key, i + 1)
            }
            None => {
                proof {
                    lemma_spec_child_none(*n, ch);
                }
                None
            }
        }
    }
}

/// Unfolds one step of `node_at` along the first character of the path.
pub(crate) proof fn lemma_node_at_step(n: TrieNode, p: Seq<char>)
    requires
        p.len() > 0,
    ensures
        n.node_at(p) == (match n.spec_child(p[0]) {
            Some(c) => c.node_at(p.drop_first()),
            None => None::<TrieNode>,
        }),
{
}

/// A child that `seq_child` denotes is one of the edges of the sequence.
pub(crate) proof fn lemma_seq_child_mem(cs: Seq<(char, TrieNode)>, c: char)
    requires
        seq_child(cs, c) is Some,
    ensures
        exists|i: int|
            0 <= i < cs.len() && #[trigger] cs[i] == (c, seq_child(cs, c)->Some_0),
    decreases cs.len(),
{
    if cs[0].0 == c {
        assert(cs[0] == (c, seq_child(cs, c)->Some_0));
    } else {
        let tail = cs.drop_first();
        lemma_seq_child_mem(tail, c);
        let i0 = choose|i: int| 0 <= i < tail.len() && #[trigger] tail[i] == (
        c,
        seq_child(tail, c)->Some_0,
        );
        assert(cs[i0 + 1] == tail[i0]);
    }
}

/// Along an existing path, every visited node of a well-formed tree is
/// well-formed, and each one below the start holds some key in its subtree.
pub(crate) proof fn lemma_node_at_wf(n: TrieNode, p: Seq<char>)
    requires
        n.wf(),
        n.node_at(p) is Some,
    ensures
        (n.node_at(p)->Some_0).wf(),
        p.len() > 0 ==> (n.node_at(p)->Some_0).has_word(),
    decreases p.len(),
{
    if p.len() > 0 {
        lemma_node_at_step(n, p);
        let child = n.spec_child(p[0])->Some_0;
        lemma_seq_child_mem(n.children@, p[0]);
        let i0 = choose|i: int| 0 <= i < n.children@.len() && #[trigger] n.children@[i] == (
        p[0],
        child,
        );
        assert(n.children@[i0].1 == child);
        assert(child.wf() && child.has_word());
        lemma_node_at_wf(child, p.drop_first());
        if p.drop_first().len() == 0 {
            assert(n.node_at(p)->Some_0 == child);
        }
    }
}

/// Paths compose: walking `p + s` is walking `p`, then `s` from where that
/// ended.
pub(crate) proof fn lemma_node_at_concat(n: TrieNode, p: Seq<char>, s: Seq<char>)
    requires
        n.node_at(p) is Some,
    ensures
        n.node_at(p + s) == (n.node_at(p)->Some_0).node_at(s),
    decreases p.len(),
{
    if p.len() == 0 {
        assert(p + s =~= s);
        assert(n.node_at(p)->Some_0 == n);
    } else {
        let q = p + s;
        assert(q.len() > 0 && q[0] == p[0]);
        lemma_node_at_step(n, p);
        lemma_node_at_step(n, q);
        let child = n.spec_child(p[0])->Some_0;
        assert(q.drop_first() =~= p.drop_first() + s);
        lemma_node_at_concat(child, p.drop_first(), s);
    }
}

/// A prefix of an existing path exists as well.
pub(crate) proof fn lemma_node_at_prefix(n: TrieNode, p: Seq<char>, k: Seq<char>)
    requires
        p.is_prefix_of(k),
        n.node_at(k) is Some,
    ensures
        n.node_at(p) is Some,
    decreases p.len(),
{
    if p.len() > 0 {
        assert(k.len() > 0 && k[0] == p[0]);
        lemma_node_at_step(n, p);
        lemma_node_at_step(n, k);
        let child = n.spec_child(k[0])->Some_0;
        assert(p.drop_first().is_prefix_of(k.drop_first()));
        lemma_node_at_prefix(child, p.drop_first(), k.drop_first());
    }
}

/// A well-formed subtree that holds a word somewhere holds some key.
pub proof fn lemma_has_word_get(n: TrieNode)
    requires
        n.wf(),
        n.has_word(),
    ensures
        exists|s: Seq<char>| #[trigger] n.spec_get(s) is Some,
    decreases n,
{
    if n.value is Some {
        assert(n.spec_get(Seq::<char>::empty()) is Some);
    } else {
        let i0 = choose|i: int|
            0 <= i < n.children@.len() && (#[trigger] n.children@[i].1).has_word();
        let child = n.children@[i0].1;
        lemma_has_word_get(child);
        let s0 = choose|s: Seq<char>| #[trigger] child.spec_get(s) is Some;
        let s = seq![n.children@[i0].0] + s0;
        lemma_spec_child_at(n, i0);
        lemma_get_step(n, s);
        assert(s.drop_first() =~= s0);
        assert(n.spec_get(s) is Some);
    }
}

/// In a well-formed tree, a non-empty character path exists exactly when
/// some stored key extends it.
proof fn lemma_path_iff_key(n: TrieNode, p: Seq<char>)
    requires
        n.wf(),
    ensures
        (n.node_at(p) is Some) <==> (p.len() == 0 || exists|k: Seq<char>|
            #[trigger] n.spec_get(k) is Some && p.is_prefix_of(k)),
{
    if n.node_at(p) is Some && p.len() > 0 {
        let m = n.node_at(p)->Some_0;
        lemma_node_at_wf(n, p);
        lemma_has_word_get(m);
        let s = choose|s: Seq<char>| #[trigger] m.spec_get(s) is Some;
        lemma_node_at_concat(n, p, s);
        assert(n.spec_get(p + s) is Some);
        assert(p.is_prefix_of(p + s)) by {
            assert((p + s).take(p.len() as int) =~= p);
        }
    }
    if p.len() > 0 && exists|k: Seq<char>| #[trigger] n.spec_get(k) is Some && p.is_prefix_of(k) {
        let k = choose|k: Seq<char>| #[trigger] n.spec_get(k) is Some && p.is_prefix_of(k);
        lemma_node_at_prefix(n, p, k);
    }
}

/// Walks the suffix of `p` that starts at position `i` below `n`, returning
/// the node it ends at, if the whole path exists.
fn node_at_exec<'a>(n: &'a TrieNode, p: &str, i: usize) -> (r: Option<&'a TrieNode>)
    requires
        i <= p@.len(),
        n.wf(),
    ensures
        match r {
            Some(m) => n.node_at(p@.skip(i as int)) == Some(*m),
            None => n.node_at(p@.skip(i as int)) is None,
        },
    decreases p@.len() - i,
{
    let ghost suffix = p@.skip(i as int);
    if i == p.unicode_len() {
        proof {
            assert(suffix =~= Seq::<char>::empty());
        }
        Some(n)
    } else {
        let ch = p.get_char(i);
        proof {
            assert(suffix.len() > 0 && suffix[0] == ch);
            assert(suffix.drop_first() =~= p@.skip(i as int + 1));
            lemma_node_at_step(*n, suffix);
        }
        match find_child_index(&n.children, ch) {
            Some(j) => {
                proof {
                    lemma_spec_child_at(*n, j as int);
                }
                node_at_exec(&n.children[j].1, p, i + 1)
            }
            None => {
                proof {
                    lemma_spec_child_none(*n, ch);
                }
                None
            }
        }
    }
}

/// Two non-empty sequences with equal heads and equal tails are equal, and
/// conversely.
pub(crate) proof fn lemma_cons_eq(a: Seq<char>, b: Seq<char>)
    requires
        a.len() > 0,
        b.len() > 0,
    ensures
        (a == b) <==> (a[0] == b[0] && a.drop_first() == b.drop_first()),
{
    if a[0] == b[0] && a.drop_first() == b.drop_first() {
        assert(a.len() == a.drop_first().len() + 1);
        assert(b.len() == b.drop_first().len() + 1);
        assert forall|i: int| 0 <= i < a.len() implies a[i] == b[i] by {
            if i > 0 {
                assert(a.drop_first()[i - 1] == a[i]);
                assert(b.drop_first()[i - 1] == b[i]);
            }
        }
        assert(a =~= b);
    }
    if a == b {
        assert(a.drop_first() =~= b.drop_first());
    }
}

/// The keys that terminate exactly at `n`, as full keys: `acc` is the path
/// already walked to reach `n`.
pub open spec fn words_head(n: TrieNode, acc: Seq<char>) -> Seq<Seq<char>> {
    if n.value is Some {
        seq![acc]
    } else {
        Seq::empty()
    }
}

/// All keys stored in the subtrees hanging off the edges `cs`, in edge order,
/// each subtree walked depth-first; `acc` is the path walked so far.
pub open spec fn words_from(cs: Seq<(char, TrieNode)>, acc: Seq<char>) -> Seq<Seq<char>>
    decreases cs,
{
    if cs.len() == 0 {
        Seq::empty()
    } else {
        words_below(cs[0].1, acc.push(cs[0].0)) + words_from(cs.drop_first(), acc)
    }
}

/// All keys stored in the subtree rooted at `n`, in depth-first order with
/// children visited in edge order; `acc` is the path walked to reach `n`.
pub open spec fn words_below(n: TrieNode, acc: Seq<char>) -> Seq<Seq<char>>
    decreases n,
{
    words_head(n, acc) + words_from(n.children@, acc)
}

/// The first `m` entries of `s`, or all of them when `s` is shorter, or none
/// when `m` is not positive.
pub open spec fn take_up_to(s: Seq<Seq<char>>, m: int) -> Seq<Seq<char>> {
    if m <= 0 {
        Seq::empty()
    } else if m >= s.len() {
        s
    } else {
        s.take(m)
    }
}

/// Truncation distributes over concatenation: what the budget leaves of
/// `a + b` is what it leaves of `a`, then of `b` under the rest.
proof fn lemma_take_up_to_concat(a: Seq<Seq<char>>, b: Seq<Seq<char>>, m: int)
    ensures
        take_up_to(a + b, m) == take_up_to(a, m) + take_up_to(b, m - a.len()),
{
    if m <= 0 {
        assert(take_up_to(a + b, m) =~= take_up_to(a, m) + take_up_to(b, m - a.len()));
    } else if m <= a.len() {
        assert(take_up_to(a + b, m) =~= take_up_to(a, m) + take_up_to(b, m - a.len()));
    } else {
        assert(take_up_to(a + b, m) =~= take_up_to(a, m) + take_up_to(b, m - a.len()));
    }
}

/// Walking one more edge extends the gathered keys by that subtree's keys.
proof fn lemma_words_from_snoc(cs: Seq<(char, TrieNode)>, p: (char, TrieNode), acc: Seq<char>)
    ensures
        words_from(cs.push(p), acc) == words_from(cs, acc) + words_below(p.1, acc.push(p.0)),
    decreases cs.len(),
{
    let ext = cs.push(p);
    if cs.len() == 0 {
        assert(ext[0] == p);
        assert(ext.drop_first() =~= Seq::<(char, TrieNode)>::empty());
        assert(words_from(ext, acc) == words_below(p.1, acc.push(p.0)) + words_from(
            ext.drop_first(),
            acc,
        ));
        assert(words_from(ext.drop_first(), acc) == Seq::<Seq<char>>::empty());
        assert(words_from(cs, acc) == Seq::<Seq<char>>::empty());
        assert(words_from(ext, acc) =~= words_from(cs, acc) + words_below(p.1, acc.push(p.0)));
    } else {
        assert(ext[0] == cs[0]);
        assert(ext.drop_first() =~= cs.drop_first().push(p));
        lemma_words_from_snoc(cs.drop_first(), p, acc);
        assert(words_from(ext, acc) == words_below(cs[0].1, acc.push(cs[0].0)) + words_from(
            ext.drop_first(),
            acc,
        ));
        assert(words_from(cs, acc) == words_below(cs[0].1, acc.push(cs[0].0)) + words_from(
            cs.drop_first(),
            acc,
        ));
        assert(words_from(ext.drop_first(), acc) == words_from(cs.drop_first(), acc)
            + words_below(p.1, acc.push(p.0)));
        assert(words_from(ext, acc) =~= words_from(cs, acc) + words_below(p.1, acc.push(p.0)));
    }
}

/// The gathered keys of edges laid end to end come out end to end.
proof fn lemma_words_from_concat(a: Seq<(char, TrieNode)>, b: Seq<(char, TrieNode)>, acc: Seq<char>)
    ensures
        words_from(a + b, acc) == words_from(a, acc) + words_from(b, acc),
    decreases a.len(),
{
    if a.len() == 0 {
        assert(a + b =~= b);
        assert(words_from(a, acc) + words_from(b, acc) =~= words_from(b, acc));
    } else {
        assert((a + b)[0] == a[0]);
        assert((a + b).len() > 0);
        assert((a + b).drop_first() =~= a.drop_first() + b);
        lemma_words_from_concat(a.drop_first(), b, acc);
        assert(words_from(a + b, acc) =~= words_from(a, acc) + words_from(b, acc));
    }
}

/// Relies on `String::push`: appends the given character to the end of the
/// string.
#[verifier::external_body]
fn push_char(s: &mut String, c: char)
    ensures
        final(s)@ == old(s)@.push(c),
{
    s.push(c);
}

/// Depth-first walk below `node`, appending to `results` every key of the
/// subtree (as `prefix` extended by the path walked), children in edge order,
/// until `results` holds `max_results` entries.
fn collect_words(node: &TrieNode, prefix: String, results: &mut Vec<String>, max_results: usize)
    ensures
        final(results).deep_view() == old(results).deep_view() + take_up_to(
            words_below(*node, prefix@),
            max_results - old(results)@.len(),
        ),
    decreases *node,
{
    let ghost entry = results.deep_view();
    let ghost budget: int = max_results as int - results@.len() as int;
    if results.len() >= max_results {
        proof {
            assert(results.deep_view() =~= entry + take_up_to(
                words_below(*node, prefix@),
                budget,
            ));
        }
        return ;
    }
    if node.value.is_some() {
        let copy = prefix.as_str().to_owned();
        results.push(copy);
        proof {
            assert(results.deep_view() =~= entry + take_up_to(
                words_head(*node, prefix@) + words_from(
                    node.children@.take(0),
                    prefix@,
                ),
                budget,
            ));
        }
    } else {
        proof {
            assert(results.deep_view() =~= entry + take_up_to(
                words_head(*node, prefix@) + words_from(
                    node.children@.take(0),
                    prefix@,
                ),
                budget,
            ));
        }
    }
    let mut idx: usize = 0;
    while idx < node.children.len() && results.len() < max_results
        invariant
            idx <= node.children@.len(),
            budget == max_results - entry.len(),
            budget > 0,
            entry.len() + budget == max_results,
            results.deep_view() == entry + take_up_to(
                words_head(*node, prefix@) + words_from(node.children@.take(idx as int), prefix@),
                budget,
            ),
            results@.len() <= max_results,
        decreases node.children@.len() - idx,
    {
        let ghost before = results.deep_view();
        let ghost gathered = words_head(*node, prefix@) + words_from(
            node.children@.take(idx as int),
            prefix@,
        );
        let edge_label = node.children[idx].0;
        let mut child_prefix = prefix.as_str().to_owned();
        push_char(&mut child_prefix, edge_label);
        collect_words(&node.children[idx].1, child_prefix, results, max_results);
        proof {
            let child_words = words_below(node.children@[idx as int].1, prefix@.push(edge_label));
            lemma_words_from_snoc(node.children@.take(idx as int), node.children@[idx as int], prefix@);
            assert(node.children@.take(idx as int + 1) =~= node.children@.take(idx as int).push(
                node.children@[idx as int],
            ));
            assert(before.len() == entry.len() + take_up_to(gathered, budget).len());
            assert(before.len() < max_results as int);
            assert(take_up_to(gathered, budget).len() < budget);
            assert(gathered.len() == take_up_to(gathered, budget).len());
            lemma_take_up_to_concat(gathered, child_words, budget);
            assert(take_up_to(gathered, budget).len() <= budget);
            assert(results.deep_view() =~= entry + take_up_to(gathered + child_words, budget));
            assert(gathered + child_words =~= words_head(*node, prefix@) + words_from(
                node.children@.take(idx as int + 1),
                prefix@,
            ));
        }
        idx = idx + 1;
    }
    proof {
        let full = words_below(*node, prefix@);
        let gathered = words_head(*node, prefix@) + words_from(
            node.children@.take(idx as int),
            prefix@,
        );
        if idx == node.children@.len() {
            assert(node.children@.take(idx as int) =~= node.children@);
            assert(gathered =~= full);
        } else {
            let rest = words_from(node.children@.skip(idx as int), prefix@);
            assert(node.children@ =~= node.children@.take(idx as int) + node.children@.skip(
                idx as int,
            ));
            lemma_words_from_concat(
                node.children@.take(idx as int),
                node.children@.skip(idx as int),
                prefix@,
            );
            assert(full =~= gathered + rest);
            assert(results@.len() == max_results);
            assert(take_up_to(gathered, budget).len() == budget);
            assert(budget <= gathered.len());
            lemma_take_up_to_concat(gathered, rest, budget);
            assert(take_up_to(full, budget) =~= take_up_to(gathered, budget));
        }
        assert(results.deep_view() =~= entry + take_up_to(full, budget));
    }
}

/// True iff `p` is empty or some key of `m` starts with `p`: what a prefix
/// query over the stored keys means on the abstract map.
pub open spec fn some_key_starts_with(m: Map<Seq<char>, Seq<char>>, p: Seq<char>) -> bool {
    p.len() == 0 || exists|k: Seq<char>| #[trigger] m.contains_key(k) && p.is_prefix_of(k)
}

/// The views of a sequence of strings.
pub open spec fn string_views(vs: Seq<String>) -> Seq<Seq<char>> {
    Seq::new(vs.len(), |i: int| vs[i]@)
}

/// The views of a sequence of borrowed strings.
pub open spec fn str_views(ws: Seq<&str>) -> Seq<Seq<char>> {
    Seq::new(ws.len(), |i: int| ws[i]@)
}

/// The map after storing each key of `ws` with the value of `vs` at the same
/// position, in order, so that a later duplicate key overwrites an earlier
/// one.
pub open spec fn insert_all(
    m: Map<Seq<char>, Seq<char>>,
    ws: Seq<Seq<char>>,
    vs: Seq<Seq<char>>,
) -> Map<Seq<char>, Seq<char>>
    decreases ws.len(),
{
    if ws.len() == 0 {
        m
    } else {
        insert_all(m.insert(ws[0], vs[0]), ws.drop_first(), vs.drop_first())
    }
}

/// Bulk insertion of one more pair is insertion after the bulk.
pub proof fn lemma_insert_all_snoc(
    m: Map<Seq<char>, Seq<char>>,
    ws: Seq<Seq<char>>,
    vs: Seq<Seq<char>>,
    w: Seq<char>,
    v: Seq<char>,
)
    requires
        vs.len() == ws.len(),
    ensures
        insert_all(m, ws.push(w), vs.push(v)) == insert_all(m, ws, vs).insert(w, v),
    decreases ws.len(),
{
    let we = ws.push(w);
    let ve = vs.push(v);
    if ws.len() == 0 {
        assert(we[0] == w && ve[0] == v);
        assert(we.drop_first() =~= Seq::<Seq<char>>::empty());
        assert(ve.drop_first() =~= Seq::<Seq<char>>::empty());
        assert(insert_all(m.insert(w, v), we.drop_first(), ve.drop_first()) == m.insert(w, v));
        assert(insert_all(m, we, ve) == m.insert(w, v));
    } else {
        assert(we[0] == ws[0] && ve[0] == vs[0]);
        assert(we.drop_first() =~= ws.drop_first().push(w));
        assert(ve.drop_first() =~= vs.drop_first().push(v));
        lemma_insert_all_snoc(m.insert(ws[0], vs[0]), ws.drop_first(), vs.drop_first(), w, v);
    }
}

/// The prefix tree: wraps a root node that always exists and stands for the
/// empty-key prefix.
#[derive(Debug)]
pub struct Trie {
    pub root: TrieNode,
}

impl Trie {
    /// Abstract model: the finite map from keys to values that the tree holds.
    pub open spec fn view(self) -> Map<Seq<char>, Seq<char>> {
        Map::new(
            |k: Seq<char>| self.root.spec_get(k) is Some,
            |k: Seq<char>| self.root.spec_get(k)->Some_0,
        )
    }

    /// Well-formedness of the whole tree.
    pub open spec fn wf(self) -> bool {
        self.root.wf()
    }

    /// A fresh, empty trie.
    pub fn new() -> (t: Trie)
        ensures
            t.wf(),
            t@ == Map::<Seq<char>, Seq<char>>::empty(),
    {
        let t = Trie { root: TrieNode::new() };
        proof {
            assert(t@ =~= Map::<Seq<char>, Seq<char>>::empty());
        }
        t
    }

    /// Stores a copy of `value` under `key`, overwriting any prior value at
    /// that exact key; the empty key is legal and addresses the root.
    pub fn insert(&mut self, key: &str, value: &String)
        requires
            old(self).wf(),
        ensures
            final(self).wf(),
            final(self)@ == old(self)@.insert(key@, value@),
    {
        let mut root = TrieNode::new();
        core::mem::swap(&mut root, &mut self.root);
        let grown = insert_at(root, key, 0, value);
        self.root = grown;
        proof {
            assert(key@.skip(0) =~= key@);
            assert(self@ =~= old(self)@.insert(key@, value@));
        }
    }

    /// Removes the value (if any) stored under `key`, then prunes: every node
    /// on the walked path that came out value-less and childless is unlinked
    /// from its parent, bottom-up, stopping at the first node that still
    /// carries a value or a child. A missing key is a silent no-op. The root
    /// is never unlinked.
    pub fn delete(&mut self, key: &str)
        requires
            old(self).wf(),
        ensures
            final(self).wf(),
            final(self)@ == old(self)@.remove(key@),
    {
        let mut root = TrieNode::new();
        core::mem::swap(&mut root, &mut self.root);
        let (shrunk, _) = delete_recursive(root, key, 0);
        self.root = shrunk;
        proof {
            assert(key@.skip(0) =~= key@);
            assert(self@ =~= old(self)@.remove(key@));
        }
    }

    /// True iff the character path of `prefix` exists in the tree, whether or
    /// not any value sits at or below its end; equivalently, iff `prefix` is
    /// empty or some stored key starts with it. Never mutates.
    pub fn prefix_search(&self, prefix: &str) -> (r: bool)
        requires
            self.wf(),
        ensures
            r == some_key_starts_with(self@, prefix@),
    {
        proof {
            assert(prefix@.skip(0) =~= prefix@);
            lemma_path_iff_key(self.root, prefix@);
            if exists|k: Seq<char>|
                #[trigger] self.root.spec_get(k) is Some && prefix@.is_prefix_of(k) {
                let k = choose|k: Seq<char>|
                    #[trigger] self.root.spec_get(k) is Some && prefix@.is_prefix_of(k);
                assert(self@.contains_key(k) && prefix@.is_prefix_of(k));
            }
            if exists|k: Seq<char>| #[trigger] self@.contains_key(k) && prefix@.is_prefix_of(k) {
                let k = choose|k: Seq<char>|
                    #[trigger] self@.contains_key(k) && prefix@.is_prefix_of(k);
                assert(self.root.spec_get(k) is Some && prefix@.is_prefix_of(k));
            }
        }
        node_at_exec(&self.root, prefix, 0).is_some()
    }

    /// Returns up to `max_results` complete keys that start with `prefix`,
    /// depth-first from the node `prefix` ends at, children in edge order,
    /// abandoning the walk as soon as the cap is reached. A missing prefix
    /// path, or a cap of zero, yields no results. Never mutates.
    pub fn auto_complete(&self, prefix: &str, max_results: usize) -> (results: Vec<String>)
        requires
            self.wf(),
        ensures
            results.deep_view() == (match self.root.node_at(prefix@) {
                Some(m) => take_up_to(words_below(m, prefix@), max_results as int),
                None => Seq::<Seq<char>>::empty(),
            }),
            results@.len() <= max_results,
            forall|i: int|
                0 <= i < results@.len() ==> prefix@.is_prefix_of(#[trigger] results@[i]@)
                    && self@.contains_key(results@[i]@),
    {
        proof {
            assert(prefix@.skip(0) =~= prefix@);
        }
        match node_at_exec(&self.root, prefix, 0) {
            Some(m) => {
                let mut results: Vec<String> = Vec::new();
                let start = prefix.to_owned();
                collect_words(m, start, &mut results, max_results);
                proof {
                    assert(results.deep_view() =~= take_up_to(
                        words_below(*m, prefix@),
                        max_results as int,
                    ));
                    crate::laws::lemma_auto_complete_sound(*self, prefix@);
                    assert forall|i: int|
                        0 <= i < results@.len() implies prefix@.is_prefix_of(
                        #[trigger] results@[i]@,
                    ) && self@.contains_key(results@[i]@) by {
                        assert(results@[i]@ == results.deep_view()[i]);
                        assert(results.deep_view()[i] == words_below(*m, prefix@)[i]);
                    }
                }
                results
            }
            None => {
                let results: Vec<String> = Vec::new();
                proof {
                    assert(results.deep_view() =~= Seq::<Seq<char>>::empty());
                }
                results
            }
        }
    }

    /// Stores every word of `words` in input order, each under the value that
    /// `value_mapper` computes for it, so that a later duplicate word
    /// overwrites an earlier one's value, exactly as repeated `insert` calls
    /// would.
    pub fn add_word_list<F: Fn(&str) -> String>(&mut self, words: &[&str], value_mapper: F) -> (
        vals: Ghost<Seq<String>>
    )
        requires
            old(self).wf(),
            forall|s: &str| #[trigger] call_requires(value_mapper, (s,)),
        ensures
            final(self).wf(),
            vals@.len() == words@.len(),
            forall|i: int|
                0 <= i < words@.len() ==> #[trigger] call_ensures(
                    value_mapper,
                    (words@[i],),
                    vals@[i],
                ),
            final(self)@ == insert_all(old(self)@, str_views(words@), string_views(vals@)),
    {
        let ghost mut wit: Seq<String> = Seq::empty();
        let mut i: usize = 0;
        while i < words.len()
            invariant
                i <= words@.len(),
                wit.len() == i,
                self.wf(),
                forall|s: &str| #[trigger] call_requires(value_mapper, (s,)),
                forall|j: int|
                    0 <= j < i ==> #[trigger] call_ensures(value_mapper, (words@[j],), wit[j]),
                self@ == insert_all(
                    old(self)@,
                    str_views(words@.take(i as int)),
                    string_views(wit),
                ),
            decreases words@.len() - i,
        {
            let word = words[i];
            let value = value_mapper(word);
            self.insert(word, &value);
            proof {
                lemma_insert_all_snoc(
                    old(self)@,
                    str_views(words@.take(i as int)),
                    string_views(wit),
                    word@,
                    value@,
                );
                assert(str_views(words@.take(i as int + 1)) =~= str_views(
                    words@.take(i as int),
                ).push(word@));
                assert(string_views(wit.push(value)) =~= string_views(wit).push(value@));
                wit = wit.push(value);
                assert(word == words@[i as int]);
            }
            i = i + 1;
        }
        proof {
            assert(words@.take(words@.len() as int) =~= words@);
            assert(str_views(words@.take(words@.len() as int)) =~= str_views(words@));
            assert(self@ == insert_all(old(self)@, str_views(words@), string_views(wit)));
        }
        Ghost(wit)
    }

    /// Looks up the value stored under `key`, without mutating the tree; the
    /// empty key addresses the root.
    pub fn get(&self, key: &str) -> (r: Option<&String>)
        requires
            self.wf(),
        ensures
            match r {
                Some(v) => self@.contains_key(key@) && self@[key@] == v@,
                None => !self@.contains_key(key@),
            },
    {
        proof {
            assert(key@.skip(0) =~= key@);
        }
        get_at(&self.root, key, 0)
    }
}

} // verus!


