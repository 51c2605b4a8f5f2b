//! The laws the trie obeys, stated over its abstract map model and the
//! depth-first key listing, and proved once and for all.

use vstd::prelude::*;

use crate::trie::insert_all;
use crate::trie::lemma_get_step;
use crate::trie::lemma_insert_all_snoc;
use crate::trie::lemma_node_at_concat;
use crate::trie::lemma_node_at_prefix;
use crate::trie::lemma_node_at_wf;
use crate::trie::lemma_seq_child_mem;
use crate::trie::lemma_spec_child_at;
use crate::trie::some_key_starts_with;
use crate::trie::words_below;
use crate::trie::words_from;
use crate::trie::words_head;
use crate::trie::Trie;
use crate::trie::TrieNode;

verus! {

broadcast use {
    vstd::seq::axiom_seq_index_decreases,
    vstd::std_specs::vec::axiom_vec_decreases_to_view,
};

/// Round-trip: storing `v` under `k` makes a lookup of `k` yield `v`.
pub proof fn lemma_round_trip(t: Trie, k: Seq<char>, v: Seq<char>)
    ensures
        t@.insert(k, v).contains_key(k),
        t@.insert(k, v)[k] == v,
{
}

/// Overwrite: storing twice under the same key keeps only the later value.
pub proof fn lemma_overwrite(t: Trie, k: Seq<char>, v1: Seq<char>, v2: Seq<char>)
    ensures
        t@.insert(k, v1).insert(k, v2).contains_key(k),
        t@.insert(k, v1).insert(k, v2)[k] == v2,
{
}

/// Deletion removes: after removing `k`, a lookup of `k` finds nothing,
/// whatever was stored before.
pub proof fn lemma_delete_removes(t: Trie, k: Seq<char>)
    ensures
        !t@.remove(k).contains_key(k),
{
}

/// Deletion of the only key prunes fully: a well-formed trie whose map is
/// empty is observationally a freshly built one — the root is value-less and
/// childless, with no residual nodes.
pub proof fn lemma_empty_map_bare_root(t: Trie)
    requires
        t.wf(),
        t@ == Map::<Seq<char>, Seq<char>>::empty(),
    ensures
        t.root.value is None,
        t.root.children@.len() == 0,
{
    if t.root.has_word() {
        crate::trie::lemma_has_word_get(t.root);
        let s = choose|s: Seq<char>| #[trigger] t.root.spec_get(s) is Some;
        assert(t@.contains_key(s));
        assert(false);
    }
    assert(t.root.value is None);
    if t.root.children@.len() > 0 {
        assert(t.root.children@[0].1.has_word());
        assert(false);
    }
}

/// Prefix monotonicity: if some stored key starts with `p`, then some stored
/// key starts with every prefix of `p`, the empty prefix included.
pub proof fn lemma_prefix_monotone(m: Map<Seq<char>, Seq<char>>, p: Seq<char>, q: Seq<char>)
    requires
        q.is_prefix_of(p),
        some_key_starts_with(m, p),
    ensures
        some_key_starts_with(m, q),
{
    if q.len() > 0 {
        let k = choose|k: Seq<char>| #[trigger] m.contains_key(k) && p.is_prefix_of(k);
        assert forall|i: int| 0 <= i < q.len() implies q[i] == k[i] by {
            assert(q[i] == p.subrange(0, q.len() as int)[i]);
            assert(p[i] == k.subrange(0, p.len() as int)[i]);
        }
        assert(q =~= k.subrange(0, q.len() as int));
        assert(m.contains_key(k) && q.is_prefix_of(k));
    }
}

/// Idempotent deletion: removing a key that is not stored leaves the map as
/// it was.
pub proof fn lemma_delete_missing_noop(t: Trie, k: Seq<char>)
    requires
        !t@.contains_key(k),
    ensures
        t@.remove(k) == t@,
{
    assert(t@.remove(k) =~= t@);
}

/// Bulk-load equivalence: loading two words with their mapped values ends in
/// the same map as two successive single insertions.
pub proof fn lemma_bulk_two(
    m: Map<Seq<char>, Seq<char>>,
    w1: Seq<char>,
    v1: Seq<char>,
    w2: Seq<char>,
    v2: Seq<char>,
)
    ensures
        insert_all(m, seq![w1, w2], seq![v1, v2]) == m.insert(w1, v1).insert(w2, v2),
{
    let ws1 = seq![w1];
    let vs1 = seq![v1];
    assert(ws1 =~= Seq::<Seq<char>>::empty().push(w1));
    assert(vs1 =~= Seq::<Seq<char>>::empty().push(v1));
    lemma_insert_all_snoc(m, Seq::empty(), Seq::empty(), w1, v1);
    assert(insert_all(m, ws1, vs1) == m.insert(w1, v1));
    assert(seq![w1, w2] =~= ws1.push(w2));
    assert(seq![v1, v2] =~= vs1.push(v2));
    lemma_insert_all_snoc(m, ws1, vs1, w2, v2);
}

/// Every key listed by the depth-first walk below a well-formed node starts
/// with the path walked to reach it, and is stored in that node's subtree.
proof fn lemma_words_below_keys(n: TrieNode, acc: Seq<char>)
    requires
        n.wf(),
    ensures
        forall|i: int|
            #![trigger words_below(n, acc)[i]]
            0 <= i < words_below(n, acc).len() ==> acc.is_prefix_of(words_below(n, acc)[i])
                && n.spec_get(words_below(n, acc)[i].skip(acc.len() as int)) is Some,
    decreases n, n.children@.len() + 1int,
{
    lemma_words_from_keys(n, 0, acc);
    assert(n.children@.skip(0) =~= n.children@);
    let head = words_head(n, acc);
    let tail = words_from(n.children@, acc);
    assert forall|i: int|
        0 <= i < words_below(n, acc).len() implies acc.is_prefix_of(words_below(n, acc)[i])
        && n.spec_get(words_below(n, acc)[i].skip(acc.len() as int)) is Some by {
        let w = words_below(n, acc)[i];
        if i < head.len() {
            assert(w == acc);
            assert(acc =~= w.subrange(0, acc.len() as int));
            assert(w.skip(acc.len() as int) =~= Seq::<char>::empty());
            assert(n.spec_get(Seq::<char>::empty()) is Some);
        } else {
            assert(w == tail[i - head.len()]);
        }
    }
}

/// The same, for the keys gathered from the edges at positions `d` and
/// beyond; each of those keys is strictly longer than the walked path.
proof fn lemma_words_from_keys(n: TrieNode, d: int, acc: Seq<char>)
    requires
        n.wf(),
        0 <= d <= n.children@.len(),
    ensures
        forall|i: int|
            #![trigger words_from(n.children@.skip(d), acc)[i]]
            0 <= i < words_from(n.children@.skip(d), acc).len() ==> acc.is_prefix_of(
                words_from(n.children@.skip(d), acc)[i],
            ) && words_from(n.children@.skip(d), acc)[i].len() > acc.len() && n.spec_get(
                words_from(n.children@.skip(d), acc)[i].skip(acc.len() as int),
            ) is Some,
    decreases n, n.children@.len() - d,
{
    let cs = n.children@.skip(d);
    if d < n.children@.len() {
        let label = n.children@[d].0;
        let child = n.children@[d].1;
        assert(cs[0] == n.children@[d]);
        assert(cs.drop_first() =~= n.children@.skip(d + 1));
        assert(child.wf());
        lemma_words_below_keys(child, acc.push(label));
        lemma_words_from_keys(n, d + 1, acc);
        lemma_spec_child_at(n, d);
        let cw = words_below(child, acc.push(label));
        let rest = words_from(n.children@.skip(d + 1), acc);
        assert(words_from(cs, acc) == cw + rest);
        assert forall|i: int|
            0 <= i < words_from(cs, acc).len() implies acc.is_prefix_of(words_from(cs, acc)[i])
            && words_from(cs, acc)[i].len() > acc.len() && n.spec_get(
            words_from(cs, acc)[i].skip(acc.len() as int),
        ) is Some by {
            let w = words_from(cs, acc)[i];
            if i < cw.len() {
                assert(w == cw[i]);
                assert(acc.push(label).is_prefix_of(w));
                assert forall|x: int| 0 <= x < acc.len() implies acc[x] == w[x] by {
                    assert(acc.push(label)[x] == w.subrange(0, acc.len() as int + 1)[x]);
                }
                assert(acc =~= w.subrange(0, acc.len() as int));
                let s = w.skip(acc.len() as int);
                assert(w[acc.len() as int] == w.subrange(0, acc.len() as int + 1)[acc.len() as int]);
                assert(s.len() > 0 && s[0] == label);
                lemma_get_step(n, s);
                assert(s.drop_first() =~= w.skip(acc.len() as int + 1));
                assert(w.skip(acc.push(label).len() as int) == w.skip(acc.len() as int + 1));
                assert(child.spec_get(w.skip(acc.len() as int + 1)) is Some);
                assert(n.spec_get(s) is Some);
            } else {
                assert(w == rest[i - cw.len()]);
            }
        }
    }
}

/// Every key stored in a well-formed subtree appears in the depth-first
/// listing below it, as the walked path extended by the key's suffix.
proof fn lemma_words_below_complete(n: TrieNode, acc: Seq<char>, s: Seq<char>)
    requires
        n.wf(),
        n.spec_get(s) is Some,
    ensures
        words_below(n, acc).contains(acc + s),
    decreases s.len(),
{
    if s.len() == 0 {
        assert(n.value is Some);
        assert(words_below(n, acc)[0] == acc);
        assert(acc + s =~= acc);
        assert(words_below(n, acc)[0] == acc + s);
    } else {
        lemma_get_step(n, s);
        let child = n.spec_child(s[0])->Some_0;
        lemma_seq_child_mem(n.children@, s[0]);
        let i0 = choose|i: int|
            0 <= i < n.children@.len() && #[trigger] n.children@[i] == (s[0], child);
        assert(n.children@[i0].1 == child);
        assert(n.children@[i0].1.wf());
        assert(child.wf());
        assert(s.drop_first() =~= s.skip(1));
        lemma_words_below_complete(child, acc.push(s[0]), s.drop_first());
        assert(acc.push(s[0]) + s.drop_first() =~= acc + s);
        lemma_words_from_contains(n.children@, i0, acc, acc + s);
        let gathered = words_from(n.children@, acc);
        let j = choose|j: int| 0 <= j < gathered.len() && gathered[j] == acc + s;
        assert(words_below(n, acc)[words_head(n, acc).len() + j] == acc + s);
    }
}

/// A key listed below the edge at `i0` is among the keys gathered from the
/// whole edge sequence.
proof fn lemma_words_from_contains(
    cs: Seq<(char, TrieNode)>,
    i0: int,
    acc: Seq<char>,
    x: Seq<char>,
)
    requires
        0 <= i0 < cs.len(),
        words_below(cs[i0].1, acc.push(cs[i0].0)).contains(x),
    ensures
        words_from(cs, acc).contains(x),
    decreases i0,
{
    let cw = words_below(cs[0].1, acc.push(cs[0].0));
    let rest = words_from(cs.drop_first(), acc);
    assert(words_from(cs, acc) == cw + rest);
    if i0 == 0 {
        let j = choose|j: int| 0 <= j < cw.len() && cw[j] == x;
        assert(words_from(cs, acc)[j] == x);
    } else {
        assert(cs.drop_first()[i0 - 1] == cs[i0]);
        lemma_words_from_contains(cs.drop_first(), i0 - 1, acc, x);
        let j = choose|j: int| 0 <= j < rest.len() && rest[j] == x;
        assert(words_from(cs, acc)[cw.len() + j] == x);
    }
}

/// Autocomplete containment: every key that the depth-first listing below
/// the node reached by `p` holds starts with `p` and is stored in the trie.
pub proof fn lemma_auto_complete_sound(t: Trie, p: Seq<char>)
    requires
        t.wf(),
        t.root.node_at(p) is Some,
    ensures
        forall|i: int|
            #![trigger words_below(t.root.node_at(p)->Some_0, p)[i]]
            0 <= i < words_below(t.root.node_at(p)->Some_0, p).len() ==> p.is_prefix_of(
                words_below(t.root.node_at(p)->Some_0, p)[i],
            ) && t@.contains_key(words_below(t.root.node_at(p)->Some_0, p)[i]),
{
    let m = t.root.node_at(p)->Some_0;
    lemma_node_at_wf(t.root, p);
    lemma_words_below_keys(m, p);
    assert forall|i: int|
        0 <= i < words_below(m, p).len() implies p.is_prefix_of(words_below(m, p)[i])
        && t@.contains_key(words_below(m, p)[i]) by {
        let w = words_below(m, p)[i];
        let s = w.skip(p.len() as int);
        lemma_node_at_concat(t.root, p, s);
        assert forall|x: int| 0 <= x < w.len() implies (p + s)[x] == w[x] by {
            if x < p.len() {
                assert(p[x] == w.subrange(0, p.len() as int)[x]);
            }
        }
        assert(p + s =~= w);
        assert(t.root.node_at(w) == m.node_at(s));
        assert(t.root.spec_get(w) is Some);
        assert(t@.contains_key(w));
    }
}

/// Autocomplete completeness: every stored key that starts with `p` appears
/// in the depth-first listing below the node reached by `p`.
pub proof fn lemma_auto_complete_complete(t: Trie, p: Seq<char>, k: Seq<char>)
    requires
        t.wf(),
        t@.contains_key(k),
        p.is_prefix_of(k),
    ensures
        t.root.node_at(p) is Some,
        words_below(t.root.node_at(p)->Some_0, p).contains(k),
{
    assert(t.root.spec_get(k) is Some);
    assert(t.root.node_at(k) is Some);
    lemma_node_at_prefix(t.root, p, k);
    let m = t.root.node_at(p)->Some_0;
    lemma_node_at_wf(t.root, p);
    let s = k.skip(p.len() as int);
    assert forall|x: int| 0 <= x < k.len() implies (p + s)[x] == k[x] by {
        if x < p.len() {
            assert(p[x] == k.subrange(0, p.len() as int)[x]);
        }
    }
    assert(p + s =~= k);
    lemma_node_at_concat(t.root, p, s);
    assert(t.root.node_at(k) == m.node_at(s));
    assert(m.spec_get(s) is Some);
    lemma_words_below_complete(m, p, s);
}

} // verus!
