//! An ordered, persistent prefix index: strings are inserted with a
//! monotonically increasing insertion index, and all stored strings sharing a
//! given prefix can be recalled in ascending insertion order.
//!
//! The tree lives in an arena of nodes addressed by stable integer indices;
//! each node holds its outgoing edges as character/child pairs, and a node
//! reached by the path of an inserted string holds that string together with
//! the insertion index it was last given.

use vstd::prelude::*;

use crate::text::{
    append_dec, enc_num, lemma_enc_num_unique, lemma_prefix_index, push_char, read_num,
    str_to_chars,
};

verus! {

/// One arena node: outgoing edges, and the stored string with its insertion
/// index when the node terminates an inserted string.
pub(crate) struct TrieNode {
    pub(crate) edges: Vec<(char, usize)>,
    pub(crate) word: Option<String>,
    pub(crate) index: Option<usize>,
}

/// The prefix index. `nodes[0]` is the root; `index` is the insertion counter
/// handed to the next insert.
pub struct Trie {
    pub(crate) nodes: Vec<TrieNode>,
    pub(crate) index: usize,
}

/// The child reached from a node by `c`: the target of the first edge
/// labelled `c`.
pub(crate) open spec fn edge_lookup(edges: Seq<(char, usize)>, c: char) -> Option<usize>
    decreases edges.len(),
{
    if edges.len() == 0 {
        None
    } else if edges[0].0 == c {
        Some(edges[0].1)
    } else {
        edge_lookup(edges.drop_first(), c)
    }
}

/// The node reached from node `i` by walking the characters of `s`, if the
/// whole path exists in the arena.
pub(crate) open spec fn desc(nodes: Seq<TrieNode>, i: int, s: Seq<char>) -> Option<int>
    decreases s.len(),
{
    if s.len() == 0 {
        Some(i)
    } else if 0 <= i < nodes.len() {
        match edge_lookup(nodes[i].edges@, s[0]) {
            Some(t) => desc(nodes, t as int, s.drop_first()),
            None => None,
        }
    } else {
        None
    }
}

/// The insertion index stored at a node, `0` when the node is not terminal.
pub(crate) open spec fn node_index(n: TrieNode) -> nat {
    match n.index {
        Some(v) => v as nat,
        None => 0,
    }
}

/// The characters of the string stored at a node, empty when the node is not
/// terminal.
pub(crate) open spec fn node_word(n: TrieNode) -> Seq<char> {
    match n.word {
        Some(w) => w@,
        None => Seq::<char>::empty(),
    }
}

/// Every edge points forward in the arena and stays inside it; the forward
/// direction rules out cycles.
pub(crate) open spec fn edges_in_range(nodes: Seq<TrieNode>) -> bool {
    forall|i: int, j: int|
        0 <= i < nodes.len() && 0 <= j < nodes[i].edges@.len() ==> i < (
        #[trigger] nodes[i].edges@[j]).1 < nodes.len()
}

/// No node carries two edges with the same character.
pub(crate) open spec fn edge_chars_distinct(nodes: Seq<TrieNode>) -> bool {
    forall|i: int, j1: int, j2: int|
        0 <= i < nodes.len() && 0 <= j1 < j2 < nodes[i].edges@.len() ==> (
        #[trigger] nodes[i].edges@[j1]).0 != (#[trigger] nodes[i].edges@[j2]).0
}

/// Every node but the root is the target of exactly one edge, and the root of
/// none: the arena is a tree.
pub(crate) open spec fn targets_unique(nodes: Seq<TrieNode>) -> bool {
    &&& forall|i: int, j: int|
        0 <= i < nodes.len() && 0 <= j < nodes[i].edges@.len() ==> (
        #[trigger] nodes[i].edges@[j]).1 != 0
    &&& forall|i1: int, j1: int, i2: int, j2: int|
        0 <= i1 < nodes.len() && 0 <= j1 < nodes[i1].edges@.len() && 0 <= i2 < nodes.len() && 0
            <= j2 < nodes[i2].edges@.len() && !(i1 == i2 && j1 == j2) ==> (
        #[trigger] nodes[i1].edges@[j1]).1 != (#[trigger] nodes[i2].edges@[j2]).1
}

/// The shape of the arena alone, independent of what is stored in the nodes.
pub(crate) open spec fn arena_wf(nodes: Seq<TrieNode>) -> bool {
    &&& nodes.len() >= 1
    &&& edges_in_range(nodes)
    &&& edge_chars_distinct(nodes)
    &&& targets_unique(nodes)
}

/// The bookkeeping of terminal nodes: a stored string and a stored index come
/// together, indices are below the counter and pairwise distinct, and each
/// stored string spells exactly the path from the root to its node.
pub(crate) open spec fn terminals_wf(nodes: Seq<TrieNode>, counter: nat) -> bool {
    &&& forall|i: int|
        0 <= i < nodes.len() ==> ((#[trigger] nodes[i]).word.is_some() <==> nodes[i].index.is_some())
    &&& forall|i: int|
        0 <= i < nodes.len() && (#[trigger] nodes[i]).index.is_some() ==> node_index(nodes[i])
            < counter
    &&& forall|i1: int, i2: int|
        0 <= i1 < nodes.len() && 0 <= i2 < nodes.len() && i1 != i2 && (
        #[trigger] nodes[i1]).index.is_some() && (#[trigger] nodes[i2]).index.is_some()
            ==> node_index(nodes[i1]) != node_index(nodes[i2])
    &&& forall|i: int|
        0 <= i < nodes.len() && (#[trigger] nodes[i]).word.is_some() ==> desc(
            nodes,
            0,
            node_word(nodes[i]),
        ) == Some(i)
}

/// Whether the arena `nodes` stores the string `w`.
pub(crate) open spec fn present_in(nodes: Seq<TrieNode>, w: Seq<char>) -> bool {
    match desc(nodes, 0, w) {
        Some(k) => 0 <= k < nodes.len() && nodes[k].index.is_some(),
        None => false,
    }
}

/// The insertion index the arena `nodes` stores for `w` (meaningful only when
/// `present_in(nodes, w)` holds).
pub(crate) open spec fn index_in(nodes: Seq<TrieNode>, w: Seq<char>) -> nat {
    match desc(nodes, 0, w) {
        Some(k) => node_index(nodes[k]),
        None => 0,
    }
}

impl Trie {
    /// The trie's invariant.
    pub closed spec fn wf(self) -> bool {
        &&& arena_wf(self.nodes@)
        &&& terminals_wf(self.nodes@, self.index as nat)
    }

    /// Whether the string `w` has been inserted (and is reachable).
    pub closed spec fn contains_word(self, w: Seq<char>) -> bool {
        present_in(self.nodes@, w)
    }

    /// The insertion index most recently assigned to the stored string `w`.
    pub closed spec fn index_of(self, w: Seq<char>) -> nat {
        index_in(self.nodes@, w)
    }

    /// The value of the insertion counter: the index the next insert assigns.
    pub closed spec fn next_index(self) -> nat {
        self.index as nat
    }

    /// An empty trie: a lone root, no stored strings, counter at zero.
    pub fn new() -> (t: Trie)
        ensures
            t.wf(),
            t.next_index() == 0,
            forall|v: Seq<char>| !t.contains_word(v),
    {
        let mut nodes: Vec<TrieNode> = Vec::new();
        nodes.push(TrieNode { edges: Vec::new(), word: None, index: None });
        let t = Trie { nodes, index: 0 };
        proof {
            assert forall|v: Seq<char>| !t.contains_word(v) by {
                if v.len() > 0 {
                    assert(edge_lookup(t.nodes@[0].edges@, v[0]) == None::<usize>);
                }
            }
        }
        t
    }

    /// The first edge labelled `c` out of node `at`, as `edge_lookup` names
    /// it.
    fn find_edge(&self, at: usize, c: char) -> (r: Option<usize>)
        requires
            at < self.nodes@.len(),
        ensures
            r == edge_lookup(self.nodes@[at as int].edges@, c),
    {
        find_edge_at(&self.nodes, at, c)
    }

    /// The insertion index stored for `word`, or `None` when `word` was never
    /// inserted.
    pub fn get_index(&self, word: &str) -> (r: Option<usize>)
        requires
            self.wf(),
        ensures
            match r {
                Some(v) => self.contains_word(word@) && v as nat == self.index_of(word@),
                None => !self.contains_word(word@),
            },
    {
        let w = str_to_chars(word);
        let mut cur: usize = 0;
        let mut k: usize = 0;
        while k < w.len()
            invariant
                self.wf(),
                w@ == word@,
                k <= w@.len(),
                cur < self.nodes@.len(),
                desc(self.nodes@, 0, w@.take(k as int)) == Some(cur as int),
            decreases w@.len() - k,
        {
            proof {
                lemma_desc_snoc(self.nodes@, 0, w@.take(k as int), w@[k as int]);
                assert(w@.take(k as int).push(w@[k as int]) =~= w@.take(k + 1 as int));
            }
            match self.find_edge(cur, w[k]) {
                Some(t) => {
                    proof {
                        lemma_edge_lookup_index(self.nodes@[cur as int].edges@, w@[k as int]);
                    }
                    cur = t;
                },
                None => {
                    proof {
                        lemma_desc_extend_none(self.nodes@, w@, k + 1 as int);
                    }
                    return None;
                },
            }
            k = k + 1;
        }
        proof {
            assert(w@.take(w@.len() as int) =~= w@);
        }
        self.nodes[cur].index
    }

    /// Inserts `word`, assigning it the current value of the insertion
    /// counter; re-inserting a stored string only moves it to the newest
    /// index. Every other stored string keeps its index.
    pub fn insert(&mut self, word: &str)
        requires
            old(self).wf(),
            old(self).next_index() < usize::MAX,
        ensures
            final(self).wf(),
            forall|v: Seq<char>|
                final(self).contains_word(v) <==> (old(self).contains_word(v) || v == word@),
            final(self).index_of(word@) == old(self).next_index(),
            forall|v: Seq<char>|
                old(self).contains_word(v) && v != word@ ==> final(self).index_of(v) == old(
                    self,
                ).index_of(v),
            final(self).next_index() == old(self).next_index() + 1,
    {
        let w = str_to_chars(word);
        let mut cur: usize = 0;
        let mut k: usize = 0;
        while k < w.len()
            invariant
                w@ == word@,
                k <= w@.len(),
                self.index == old(self).index,
                arena_wf(self.nodes@),
                terminals_wf(self.nodes@, self.index as nat),
                cur < self.nodes@.len(),
                desc(self.nodes@, 0, w@.take(k as int)) == Some(cur as int),
                forall|v: Seq<char>|
                    #[trigger] present_in(self.nodes@, v) == present_in(old(self).nodes@, v),
                forall|v: Seq<char>|
                    #[trigger] present_in(old(self).nodes@, v) ==> index_in(self.nodes@, v)
                        == index_in(old(self).nodes@, v),
            decreases w@.len() - k,
        {
            proof {
                lemma_desc_snoc(self.nodes@, 0, w@.take(k as int), w@[k as int]);
                assert(w@.take(k as int).push(w@[k as int]) =~= w@.take(k + 1 as int));
            }
            match self.find_edge(cur, w[k]) {
                Some(t) => {
                    proof {
                        lemma_edge_lookup_index(self.nodes@[cur as int].edges@, w@[k as int]);
                    }
                    cur = t;
                },
                None => {
                    let fresh = self.nodes.len();
                    let ghost pre = self.nodes@;
                    self.nodes.push(TrieNode { edges: Vec::new(), word: None, index: None });
                    let c = w[k];
                    self.nodes[cur].edges.push((c, fresh));
                    let post_len = self.nodes.len();
                    let ghost post = self.nodes@;
                    proof {
                        let cc = cur as int;
                        let fr = fresh as int;
                        assert(post.len() == pre.len() + 1 && pre.len() + 1 == post_len);
                        assert(post[fr].edges@.len() == 0 && post[fr].word.is_none()
                            && post[fr].index.is_none());
                        assert(post[cc].edges@ == pre[cc].edges@.push((c, fresh)));
                        assert(post[cc].word == pre[cc].word && post[cc].index == pre[cc].index);
                        assert(forall|x: int| 0 <= x < pre.len() && x != cc ==> post[x] == pre[x]);
                        lemma_edge_lookup_none(pre[cc].edges@, c);
                        // the grown arena is still well formed
                        assert(edges_in_range(post)) by {
                            assert forall|i: int, j: int|
                                0 <= i < post.len() && 0 <= j < post[i].edges@.len() implies i < (
                            #[trigger] post[i].edges@[j]).1 < post.len() by {
                                if i == cc {
                                    if j < pre[cc].edges@.len() {
                                        assert(post[cc].edges@[j] == pre[cc].edges@[j]);
                                    } else {
                                        assert(post[cc].edges@[j] == (c, fresh));
                                    }
                                } else if i < pre.len() {
                                    assert(post[i] == pre[i]);
                                }
                            }
                        }
                        assert(edge_chars_distinct(post)) by {
                            assert forall|i: int, j1: int, j2: int|
                                0 <= i < post.len() && 0 <= j1 < j2 < post[i].edges@.len() implies (
                            #[trigger] post[i].edges@[j1]).0 != (#[trigger] post[i].edges@[j2]).0 by {
                                if i == cc {
                                    assert(post[cc].edges@[j1] == pre[cc].edges@[j1]);
                                    if j2 < pre[cc].edges@.len() {
                                        assert(post[cc].edges@[j2] == pre[cc].edges@[j2]);
                                    } else {
                                        assert(post[cc].edges@[j2] == (c, fresh));
                                    }
                                } else if i < pre.len() {
                                    assert(post[i] == pre[i]);
                                }
                            }
                        }
                        assert(targets_unique(post)) by {
                            assert forall|i: int, j: int|
                                0 <= i < post.len() && 0 <= j < post[i].edges@.len() implies (
                            #[trigger] post[i].edges@[j]).1 != 0 by {
                                if i == cc && j == pre[cc].edges@.len() {
                                    assert(post[cc].edges@[j] == (c, fresh));
                                } else if i == cc {
                                    assert(post[cc].edges@[j] == pre[cc].edges@[j]);
                                } else if i < pre.len() {
                                    assert(post[i] == pre[i]);
                                }
                            }
                            assert forall|i1: int, j1: int, i2: int, j2: int|
                                0 <= i1 < post.len() && 0 <= j1 < post[i1].edges@.len() && 0 <= i2
                                    < post.len() && 0 <= j2 < post[i2].edges@.len() && !(i1 == i2
                                    && j1 == j2) implies (#[trigger] post[i1].edges@[j1]).1 != (
                            #[trigger] post[i2].edges@[j2]).1 by {
                                let new1 = i1 == cc && j1 == pre[cc].edges@.len();
                                let new2 = i2 == cc && j2 == pre[cc].edges@.len();
                                if new1 && !new2 {
                                    assert(post[i1].edges@[j1] == (c, fresh));
                                    if i2 == cc {
                                        assert(post[i2].edges@[j2] == pre[cc].edges@[j2]);
                                    } else {
                                        assert(post[i2] == pre[i2]);
                                    }
                                } else if !new1 && new2 {
                                    assert(post[i2].edges@[j2] == (c, fresh));
                                    if i1 == cc {
                                        assert(post[i1].edges@[j1] == pre[cc].edges@[j1]);
                                    } else {
                                        assert(post[i1] == pre[i1]);
                                    }
                                } else if !new1 && !new2 {
                                    if i1 == cc {
                                        assert(post[i1].edges@[j1] == pre[cc].edges@[j1]);
                                    } else {
                                        assert(post[i1] == pre[i1]);
                                    }
                                    if i2 == cc {
                                        assert(post[i2].edges@[j2] == pre[cc].edges@[j2]);
                                    } else {
                                        assert(post[i2] == pre[i2]);
                                    }
                                }
                            }
                        }
                        // stored strings and their indices are untouched
                        assert(terminals_wf(post, self.index as nat)) by {
                            assert forall|x: int|
                                0 <= x < post.len() && (#[trigger] post[x]).word.is_some() implies
                                desc(post, 0, node_word(post[x])) == Some(x) by {
                                assert(x < pre.len() && post[x].word == pre[x].word);
                                assert(node_word(post[x]) == node_word(pre[x]));
                                lemma_desc_add_edge(pre, post, cc, c, 0, node_word(pre[x]));
                            }
                        }
                        // no stored string appears or disappears
                        assert forall|v: Seq<char>|
                            #[trigger] present_in(post, v) == present_in(pre, v) by {
                            lemma_desc_add_edge(pre, post, cc, c, 0, v);
                            match desc(pre, 0, v) {
                                Some(kk) => {
                                    if kk != cc {
                                        assert(0 <= kk < pre.len() ==> post[kk] == pre[kk]);
                                    }
                                },
                                None => {
                                    assert(post[fr].index.is_none());
                                },
                            }
                        }
                        assert forall|v: Seq<char>| #[trigger] present_in(pre, v) implies index_in(
                            post,
                            v,
                        ) == index_in(pre, v) by {
                            lemma_desc_add_edge(pre, post, cc, c, 0, v);
                            let kk = desc(pre, 0, v)->0;
                            if kk != cc {
                                assert(post[kk] == pre[kk]);
                            }
                        }
                        // the new character now continues the walked path
                        lemma_desc_add_edge(pre, post, cc, c, 0, w@.take(k as int));
                        lemma_desc_snoc(post, 0, w@.take(k as int), c);
                        lemma_edge_lookup_push(pre[cc].edges@, c, fresh, c);
                        assert(desc(post, 0, w@.take(k + 1 as int)) == Some(fr));
                        assert forall|v: Seq<char>|
                            #[trigger] present_in(post, v) == present_in(old(self).nodes@, v) by {
                            assert(present_in(post, v) == present_in(pre, v));
                            assert(present_in(pre, v) == present_in(old(self).nodes@, v));
                        }
                        assert forall|v: Seq<char>|
                            #[trigger] present_in(old(self).nodes@, v) implies index_in(post, v)
                            == index_in(old(self).nodes@, v) by {
                            assert(present_in(pre, v));
                            assert(index_in(post, v) == index_in(pre, v));
                        }
                    }
                    cur = fresh;
                },
            }
            k = k + 1;
        }
        let ghost pre = self.nodes@;
        let stored = String::from_str(word);
        let counter = self.index;
        self.nodes[cur].word = Some(stored);
        self.nodes[cur].index = Some(counter);
        self.index = self.index + 1;
        proof {
            let post = self.nodes@;
            let cc = cur as int;
            let ctr = old(self).index as nat;
            assert(w@.take(w@.len() as int) =~= w@);
            assert(desc(pre, 0, word@) == Some(cc));
            assert(post.len() == pre.len());
            assert(forall|x: int| 0 <= x < pre.len() && x != cc ==> post[x] == pre[x]);
            assert(post[cc].edges@ == pre[cc].edges@);
            assert(node_word(post[cc]) == word@);
            assert(node_index(post[cc]) == ctr);
            assert forall|x: int, ss: Seq<char>| #[trigger] desc(post, x, ss) == desc(
                pre,
                x,
                ss,
            ) by {
                lemma_desc_same_edges(pre, post, x, ss);
            }
            assert(edges_in_range(post)) by {
                assert forall|i: int, j: int|
                    0 <= i < post.len() && 0 <= j < post[i].edges@.len() implies i < (
                #[trigger] post[i].edges@[j]).1 < post.len() by {
                    assert(post[i].edges@ == pre[i].edges@);
                }
            }
            assert(edge_chars_distinct(post)) by {
                assert forall|i: int, j1: int, j2: int|
                    0 <= i < post.len() && 0 <= j1 < j2 < post[i].edges@.len() implies (
                #[trigger] post[i].edges@[j1]).0 != (#[trigger] post[i].edges@[j2]).0 by {
                    assert(post[i].edges@ == pre[i].edges@);
                }
            }
            assert(targets_unique(post)) by {
                assert forall|i: int, j: int|
                    0 <= i < post.len() && 0 <= j < post[i].edges@.len() implies (
                #[trigger] post[i].edges@[j]).1 != 0 by {
                    assert(post[i].edges@ == pre[i].edges@);
                }
                assert forall|i1: int, j1: int, i2: int, j2: int|
                    0 <= i1 < post.len() && 0 <= j1 < post[i1].edges@.len() && 0 <= i2 < post.len()
                        && 0 <= j2 < post[i2].edges@.len() && !(i1 == i2 && j1 == j2) implies (
                #[trigger] post[i1].edges@[j1]).1 != (#[trigger] post[i2].edges@[j2]).1 by {
                    assert(post[i1].edges@ == pre[i1].edges@);
                    assert(post[i2].edges@ == pre[i2].edges@);
                }
            }
            assert(terminals_wf(post, (ctr + 1) as nat)) by {
                assert forall|x: int|
                    0 <= x < post.len() && (#[trigger] post[x]).word.is_some() implies desc(
                    post,
                    0,
                    node_word(post[x]),
                ) == Some(x) by {
                    if x != cc {
                        assert(post[x] == pre[x]);
                    }
                }
            }
            // what is stored afterwards: everything from before, plus `word`
            assert forall|v: Seq<char>|
                #[trigger] present_in(post, v) <==> (present_in(pre, v) || v == word@) by {
                match desc(pre, 0, v) {
                    Some(kk) => {
                        if kk == cc {
                            lemma_desc_injective(pre, v, word@);
                        } else {
                            assert(0 <= kk < pre.len() ==> post[kk] == pre[kk]);
                        }
                    },
                    None => {},
                }
            }
            assert forall|v: Seq<char>| present_in(pre, v) && v != word@ implies #[trigger] index_in(
                post,
                v,
            ) == index_in(pre, v) by {
                let kk = desc(pre, 0, v)->0;
                if kk == cc {
                    lemma_desc_injective(pre, v, word@);
                } else {
                    assert(post[kk] == pre[kk]);
                }
            }
            assert(present_in(post, word@) && index_in(post, word@) == ctr);
        }
    }

    /// All stored strings that start with `prefix`, in ascending order of
    /// their insertion indices: oldest match first, newest match last. An
    /// unknown prefix yields an empty sequence.
    pub fn search_all(&self, prefix: &str) -> (r: Vec<String>)
        requires
            self.wf(),
        ensures
            is_recall_list(*self, prefix@, r@),
    {
        let ghost nodes = self.nodes@;
        let p = str_to_chars(prefix);
        let mut cur: usize = 0;
        let mut k: usize = 0;
        while k < p.len()
            invariant
                self.wf(),
                nodes == self.nodes@,
                p@ == prefix@,
                k <= p@.len(),
                cur < nodes.len(),
                desc(nodes, 0, p@.take(k as int)) == Some(cur as int),
            decreases p@.len() - k,
        {
            proof {
                lemma_desc_snoc(nodes, 0, p@.take(k as int), p@[k as int]);
                assert(p@.take(k as int).push(p@[k as int]) =~= p@.take(k + 1 as int));
            }
            match self.find_edge(cur, p[k]) {
                Some(t) => {
                    proof {
                        lemma_edge_lookup_index(nodes[cur as int].edges@, p@[k as int]);
                    }
                    cur = t;
                },
                None => {
                    proof {
                        lemma_desc_extend_none(nodes, p@, k + 1 as int);
                        assert forall|v: Seq<char>|
                            !(#[trigger] self.contains_word(v) && prefix@.is_prefix_of(v)) by {
                            if prefix@.is_prefix_of(v) {
                                assert(v =~= prefix@ + v.skip(prefix@.len() as int));
                                lemma_desc_concat(nodes, 0, prefix@, v.skip(prefix@.len() as int));
                            }
                        }
                    }
                    return Vec::new();
                },
            }
            k = k + 1;
        }
        proof {
            assert(p@.take(p@.len() as int) =~= p@);
        }
        let pairs = self.traverse(cur, Ghost(p@));
        proof {
            assert forall|e1: int, e2: int| 0 <= e1 < e2 < pairs@.len() implies (
            #[trigger] pairs@[e1]).0 != (#[trigger] pairs@[e2]).0 by {
                lemma_index_of_injective(self, pairs@[e1].1@, pairs@[e2].1@);
            }
        }
        let sorted = sort_entries(pairs);
        let mut r: Vec<String> = Vec::new();
        let mut i: usize = 0;
        while i < sorted.len()
            invariant
                i <= sorted@.len(),
                r@.len() == i,
                forall|e: int| 0 <= e < i ==> (#[trigger] r@[e])@ == sorted@[e].1@,
            decreases sorted@.len() - i,
        {
            r.push(sorted[i].1.clone());
            i = i + 1;
        }
        proof {
            assert forall|e: int|
                0 <= e < r@.len() implies self.contains_word((#[trigger] r@[e])@)
                && prefix@.is_prefix_of(r@[e]@) by {
                assert(has_entry(pairs@, sorted@[e]));
                let x = choose|x: int|
                    0 <= x < pairs@.len() && same_entry(#[trigger] pairs@[x], sorted@[e]);
                assert(r@[e]@ == pairs@[x].1@);
            }
            assert forall|v: Seq<char>|
                #[trigger] self.contains_word(v) && prefix@.is_prefix_of(v) implies result_has(
                r@,
                v,
            ) by {
                assert(has_word(pairs@, v));
                let e = choose|e: int| 0 <= e < pairs@.len() && (#[trigger] pairs@[e]).1@ == v;
                assert(has_entry(sorted@, pairs@[e]));
                let x = choose|x: int|
                    0 <= x < sorted@.len() && same_entry(#[trigger] sorted@[x], pairs@[e]);
                assert(r@[x]@ == v);
            }
            assert forall|e1: int, e2: int| 0 <= e1 < e2 < r@.len() implies self.index_of((
            #[trigger] r@[e1])@) < self.index_of((#[trigger] r@[e2])@) by {
                let x1 = choose|x: int|
                    0 <= x < pairs@.len() && same_entry(#[trigger] pairs@[x], sorted@[e1]);
                let x2 = choose|x: int|
                    0 <= x < pairs@.len() && same_entry(#[trigger] pairs@[x], sorted@[e2]);
                assert(has_entry(pairs@, sorted@[e1]));
                assert(has_entry(pairs@, sorted@[e2]));
                assert(sorted@[e1].0 as nat == self.index_of(r@[e1]@));
                assert(sorted@[e2].0 as nat == self.index_of(r@[e2]@));
            }
        }
        r
    }

    /// Collects every stored string in the subtree under `at`, paired with
    /// its insertion index. `path` is the string spelling the way from the
    /// root to `at`.
    fn traverse(&self, at: usize, Ghost(path): Ghost<Seq<char>>) -> (out: Vec<(usize, String)>)
        requires
            self.wf(),
            at < self.nodes@.len(),
            desc(self.nodes@, 0, path) == Some(at as int),
        ensures
            forall|e: int|
                0 <= e < out@.len() ==> {
                    &&& path.is_prefix_of((#[trigger] out@[e]).1@)
                    &&& self.contains_word(out@[e].1@)
                    &&& out@[e].0 as nat == self.index_of(out@[e].1@)
                },
            forall|v: Seq<char>|
                #[trigger] present_in(self.nodes@, v) && path.is_prefix_of(v) ==> has_word(
                    out@,
                    v,
                ),
            forall|e1: int, e2: int|
                0 <= e1 < e2 < out@.len() ==> (#[trigger] out@[e1]).1@ != (#[trigger] out@[e2]).1@,
        decreases self.nodes@.len() - at,
    {
        let ghost nodes = self.nodes@;
        let mut out: Vec<(usize, String)> = Vec::new();
        match &self.nodes[at].word {
            Some(ws) => {
                proof {
                    assert(nodes[at as int].index.is_some());
                    lemma_desc_injective(nodes, ws@, path);
                }
                let ix = self.nodes[at].index.unwrap();
                out.push((ix, ws.clone()));
            },
            None => {},
        }
        let ghost own = out@;
        proof {
            assert(forall|e: int|
                0 <= e < own.len() ==> (#[trigger] own[e]).1@ == path && own[e].0 as nat
                    == node_index(nodes[at as int]));
            assert(path.is_prefix_of(path));
            if nodes[at as int].index.is_some() {
                assert(own[0].1@ == path);
            }
        }
        let mut j: usize = 0;
        let n = self.nodes[at].edges.len();
        while j < n
            invariant
                self.wf(),
                nodes == self.nodes@,
                at < nodes.len(),
                desc(nodes, 0, path) == Some(at as int),
                n == nodes[at as int].edges@.len(),
                j <= n,
                forall|e: int|
                    0 <= e < out@.len() ==> {
                        &&& path.is_prefix_of((#[trigger] out@[e]).1@)
                        &&& self.contains_word(out@[e].1@)
                        &&& out@[e].0 as nat == self.index_of(out@[e].1@)
                    },
                forall|e: int|
                    0 <= e < out@.len() ==> ((#[trigger] out@[e]).1@ == path || (out@[e].1@.len()
                        > path.len() && exists|j2: int|
                        0 <= j2 < j && out@[e].1@[path.len() as int] == (
                        #[trigger] nodes[at as int].edges@[j2]).0)),
                forall|v: Seq<char>|
                    #[trigger] present_in(nodes, v) && path.is_prefix_of(v) && (v == path || (v.len()
                        > path.len() && exists|j2: int|
                        0 <= j2 < j && v[path.len() as int] == (
                        #[trigger] nodes[at as int].edges@[j2]).0)) ==> has_word(out@, v),
                forall|e1: int, e2: int|
                    0 <= e1 < e2 < out@.len() ==> (#[trigger] out@[e1]).1@ != (
                    #[trigger] out@[e2]).1@,
            decreases n - j,
        {
            let (c, t) = self.nodes[at].edges[j];
            proof {
                lemma_edge_lookup_found(nodes[at as int].edges@, j as int);
                lemma_desc_snoc(nodes, 0, path, c);
                assert(at < t < nodes.len());
            }
            let mut sub = self.traverse(t, Ghost(path.push(c)));
            let ghost old_out = out@;
            let ghost subv = sub@;
            out.append(&mut sub);
            proof {
                let pl = path.len() as int;
                assert(out@ == old_out + subv);
                assert forall|e: int| 0 <= e < out@.len() implies {
                    &&& path.is_prefix_of((#[trigger] out@[e]).1@)
                    &&& self.contains_word(out@[e].1@)
                    &&& out@[e].0 as nat == self.index_of(out@[e].1@)
                } by {
                    if e < old_out.len() {
                        assert(out@[e] == old_out[e]);
                    } else {
                        assert(out@[e] == subv[e - old_out.len()]);
                        let w = subv[e - old_out.len()].1@;
                        assert(path.push(c).is_prefix_of(w));
                        assert(path.is_prefix_of(path.push(c)));
                        assert(w.subrange(0, pl) =~= w.subrange(0, pl + 1).subrange(0, pl));
                        assert(path.is_prefix_of(w));
                    }
                }
                assert forall|e: int| 0 <= e < out@.len() implies ((#[trigger] out@[e]).1@ == path
                    || (out@[e].1@.len() > path.len() && exists|j2: int|
                    0 <= j2 < j + 1 && out@[e].1@[pl] == (
                #[trigger] nodes[at as int].edges@[j2]).0)) by {
                    if e < old_out.len() {
                        assert(out@[e] == old_out[e]);
                    } else {
                        assert(out@[e] == subv[e - old_out.len()]);
                        let w = subv[e - old_out.len()].1@;
                        assert(path.push(c).is_prefix_of(w));
                        assert(w[pl] == path.push(c)[pl]);
                        assert(w[pl] == (nodes[at as int].edges@[j as int]).0);
                    }
                }
                assert forall|v: Seq<char>|
                    #[trigger] present_in(nodes, v) && path.is_prefix_of(v) && (v == path || (v.len()
                        > path.len() && exists|j2: int|
                        0 <= j2 < j + 1 && v[pl] == (
                    #[trigger] nodes[at as int].edges@[j2]).0)) implies has_word(out@, v) by {
                    if v == path || (v.len() > path.len() && exists|j2: int|
                        0 <= j2 < j && v[pl] == (#[trigger] nodes[at as int].edges@[j2]).0) {
                        assert(has_word(old_out, v));
                        let e = choose|e: int| 0 <= e < old_out.len() && (#[trigger] old_out[e]).1@
                            == v;
                        assert(out@[e] == old_out[e]);
                        assert(has_word(out@, v));
                    } else {
                        let j2 = choose|j2: int|
                            0 <= j2 < j + 1 && v[pl] == (#[trigger] nodes[at as int].edges@[j2]).0;
                        assert(nodes[at as int].edges@[j2].0 == c) by {
                            if j2 < j as int {
                                assert(!(v == path || (v.len() > path.len() && exists|j3: int|
                                    0 <= j3 < j && v[pl] == (
                                #[trigger] nodes[at as int].edges@[j3]).0)));
                                assert(false);
                            }
                        }
                        assert(v[pl] == c);
                        assert(path.push(c).is_prefix_of(v)) by {
                            assert(v.subrange(0, pl + 1) =~= path.push(c));
                        }
                        assert(has_word(subv, v));
                        let e = choose|e: int| 0 <= e < subv.len() && (#[trigger] subv[e]).1@ == v;
                        assert(out@[old_out.len() + e] == subv[e]);
                        assert(has_word(out@, v));
                    }
                }
                assert forall|e1: int, e2: int| 0 <= e1 < e2 < out@.len() implies (
                #[trigger] out@[e1]).1@ != (#[trigger] out@[e2]).1@ by {
                    if e1 < old_out.len() && e2 >= old_out.len() {
                        let w1 = old_out[e1].1@;
                        let w2 = subv[e2 - old_out.len()].1@;
                        assert(path.push(c).is_prefix_of(w2));
                        assert(w2[pl] == path.push(c)[pl]);
                        if w1 == path {
                            assert(w2.len() > w1.len());
                        } else {
                            let j2 = choose|j2: int|
                                0 <= j2 < j && w1[pl] == (#[trigger] nodes[at as int].edges@[j2]).0;
                            assert(nodes[at as int].edges@[j2].0 != c);
                        }
                    } else if e1 >= old_out.len() {
                        assert(out@[e1] == subv[e1 - old_out.len()]);
                        assert(out@[e2] == subv[e2 - old_out.len()]);
                    } else {
                        assert(out@[e1] == old_out[e1]);
                        assert(out@[e2] == old_out[e2]);
                    }
                }
            }
            j = j + 1;
        }
        proof {
            assert forall|v: Seq<char>|
                #[trigger] present_in(nodes, v) && path.is_prefix_of(v) implies has_word(
                out@,
                v,
            ) by {
                if v != path {
                    assert(v.len() > path.len()) by {
                        if v.len() == path.len() {
                            assert(v =~= v.subrange(0, path.len() as int));
                        }
                    }
                    let suffix = v.skip(path.len() as int);
                    assert(v =~= path + suffix);
                    lemma_desc_concat(nodes, 0, path, suffix);
                    assert(desc(nodes, at as int, suffix).is_some());
                    assert(suffix.len() > 0);
                    assert(edge_lookup(nodes[at as int].edges@, suffix[0]).is_some());
                    lemma_edge_lookup_index(nodes[at as int].edges@, suffix[0]);
                    assert(suffix[0] == v[path.len() as int]);
                }
            }
        }
        out
    }
}

/// Reads one node record beginning at `pos`: terminal flag, stored string and
/// index for a terminal, then the edges. On success the text consumed is
/// exactly the record of the returned node, and any coherent node whose
/// record starts at `pos` agrees with it; on failure no coherent node's
/// record starts there.
#[verifier::rlimit(100)]
fn read_node(s: &Vec<char>, pos: usize) -> (r: Option<(TrieNode, usize)>)
    requires
        pos <= s@.len(),
    ensures
        match r {
            Some(p) => {
                &&& pos < p.1 <= s@.len()
                &&& s@.subrange(pos as int, p.1 as int) == enc_node(p.0)
                &&& node_coherent(p.0)
                &&& forall|nd: TrieNode|
                    #[trigger] node_hyp(s@, pos as int, nd) ==> node_equiv(p.0, nd)
            },
            None => forall|nd: TrieNode| !(#[trigger] node_hyp(s@, pos as int, nd)),
        },
{
    let ghost sv = s@;
    let ghost p0 = pos as int;
    // the terminal flag
    let flag_tok = read_num(s, pos);
    if flag_tok.is_none() {
        proof {
            assert forall|nd: TrieNode| !(#[trigger] node_hyp(sv, p0, nd)) by {
                if node_hyp(sv, p0, nd) {
                    lemma_enc_node_shape(nd);
                    if nd.word.is_some() {
                        lemma_prefix_step(
                            enc_num(1),
                            enc_num(node_word(nd).len()) + (node_word(nd) + (enc_num(
                                node_index(nd),
                            ) + (enc_num(nd.edges@.len()) + enc_edges_from(nd.edges@, 0)))),
                            sv.skip(p0),
                        );
                        assert(enc_num(1).is_prefix_of(sv.skip(p0)));
                    } else {
                        lemma_prefix_step(
                            enc_num(0),
                            enc_num(nd.edges@.len()) + enc_edges_from(nd.edges@, 0),
                            sv.skip(p0),
                        );
                        assert(enc_num(0).is_prefix_of(sv.skip(p0)));
                    }
                    assert(false);
                }
            }
        }
        return None;
    }
    let (flagv, pos1) = flag_tok.unwrap();
    proof {
        lemma_subrange_prefix(sv, p0, pos1 as int);
    }
    if flagv >= 2 {
        proof {
            assert forall|nd: TrieNode| !(#[trigger] node_hyp(sv, p0, nd)) by {
                if node_hyp(sv, p0, nd) {
                    lemma_enc_node_shape(nd);
                    if nd.word.is_some() {
                        lemma_prefix_step(
                            enc_num(1),
                            enc_num(node_word(nd).len()) + (node_word(nd) + (enc_num(
                                node_index(nd),
                            ) + (enc_num(nd.edges@.len()) + enc_edges_from(nd.edges@, 0)))),
                            sv.skip(p0),
                        );
                        lemma_enc_num_unique(1, flagv as nat, sv.skip(p0));
                    } else {
                        lemma_prefix_step(
                            enc_num(0),
                            enc_num(nd.edges@.len()) + enc_edges_from(nd.edges@, 0),
                            sv.skip(p0),
                        );
                        lemma_enc_num_unique(0, flagv as nat, sv.skip(p0));
                    }
                    assert(false);
                }
            }
        }
        return None;
    }
    if flagv == 1 {
        // the stored string, length first, then its insertion index
        let wl_tok = read_num(s, pos1);
        proof {
            assert forall|nd: TrieNode| #[trigger] node_hyp(sv, p0, nd) implies nd.word.is_some()
                && (enc_num(node_word(nd).len()) + (node_word(nd) + (enc_num(node_index(nd))
                + (enc_num(nd.edges@.len()) + enc_edges_from(nd.edges@, 0))))).is_prefix_of(
                sv.skip(pos1 as int),
            ) by {
                lemma_enc_node_shape(nd);
                if nd.word.is_none() {
                    lemma_prefix_step(
                        enc_num(0),
                        enc_num(nd.edges@.len()) + enc_edges_from(nd.edges@, 0),
                        sv.skip(p0),
                    );
                    lemma_enc_num_unique(0, flagv as nat, sv.skip(p0));
                    assert(false);
                }
                lemma_prefix_step(
                    enc_num(1),
                    enc_num(node_word(nd).len()) + (node_word(nd) + (enc_num(node_index(nd))
                        + (enc_num(nd.edges@.len()) + enc_edges_from(nd.edges@, 0)))),
                    sv.skip(p0),
                );
                lemma_enc_num_unique(1, flagv as nat, sv.skip(p0));
                assert(enc_num(1) == enc_num(flagv as nat));
                assert(enc_num(flagv as nat).len() == pos1 - p0);
                lemma_skip_skip(sv, p0, pos1 - p0);
            }
        }
        if wl_tok.is_none() {
            proof {
                assert forall|nd: TrieNode| !(#[trigger] node_hyp(sv, p0, nd)) by {
                    if node_hyp(sv, p0, nd) {
                        lemma_prefix_step(
                            enc_num(node_word(nd).len()),
                            node_word(nd) + (enc_num(node_index(nd)) + (enc_num(nd.edges@.len())
                                + enc_edges_from(nd.edges@, 0))),
                            sv.skip(pos1 as int),
                        );
                        assert(node_word(nd).len() <= usize::MAX);
                        assert(false);
                    }
                }
            }
            return None;
        }
        let (wl64, pos2) = wl_tok.unwrap();
        proof {
            lemma_subrange_prefix(sv, pos1 as int, pos2 as int);
            assert forall|nd: TrieNode| #[trigger] node_hyp(sv, p0, nd) implies node_word(nd).len()
                == wl64 as nat && (node_word(nd) + (enc_num(node_index(nd)) + (enc_num(
                nd.edges@.len(),
            ) + enc_edges_from(nd.edges@, 0)))).is_prefix_of(sv.skip(pos2 as int)) by {
                lemma_prefix_step(
                    enc_num(node_word(nd).len()),
                    node_word(nd) + (enc_num(node_index(nd)) + (enc_num(nd.edges@.len())
                        + enc_edges_from(nd.edges@, 0))),
                    sv.skip(pos1 as int),
                );
                lemma_enc_num_unique(node_word(nd).len(), wl64 as nat, sv.skip(pos1 as int));
                assert(enc_num(node_word(nd).len()).len() == pos2 - pos1);
                lemma_skip_skip(sv, pos1 as int, pos2 - pos1);
            }
        }
        if wl64 > usize::MAX as u64 {
            proof {
                assert forall|nd: TrieNode| !(#[trigger] node_hyp(sv, p0, nd)) by {
                    if node_hyp(sv, p0, nd) {
                        assert(node_word(nd).len() <= usize::MAX);
                        assert(false);
                    }
                }
            }
            return None;
        }
        let wl = wl64 as usize;
        if wl > s.len() - pos2 {
            proof {
                assert forall|nd: TrieNode| !(#[trigger] node_hyp(sv, p0, nd)) by {
                    if node_hyp(sv, p0, nd) {
                        assert((node_word(nd) + (enc_num(node_index(nd)) + (enc_num(
                            nd.edges@.len(),
                        ) + enc_edges_from(nd.edges@, 0)))).len() <= sv.skip(pos2 as int).len());
                        assert(false);
                    }
                }
            }
            return None;
        }
        let pos3 = pos2 + wl;
        let mut ws = String::new();
        let mut x: usize = pos2;
        while x < pos3
            invariant
                pos2 <= x <= pos3 <= sv.len(),
                sv == s@,
                ws@ == sv.subrange(pos2 as int, x as int),
            decreases pos3 - x,
        {
            push_char(&mut ws, s[x]);
            proof {
                assert(sv.subrange(pos2 as int, x + 1 as int) =~= sv.subrange(
                    pos2 as int,
                    x as int,
                ).push(sv[x as int]));
            }
            x = x + 1;
        }
        let idx_tok = read_num(s, pos3);
        proof {
            assert forall|nd: TrieNode| #[trigger] node_hyp(sv, p0, nd) implies node_word(nd)
                == ws@ && (enc_num(node_index(nd)) + (enc_num(nd.edges@.len()) + enc_edges_from(
                nd.edges@,
                0,
            ))).is_prefix_of(sv.skip(pos3 as int)) by {
                lemma_prefix_step(
                    node_word(nd),
                    enc_num(node_index(nd)) + (enc_num(nd.edges@.len()) + enc_edges_from(
                        nd.edges@,
                        0,
                    )),
                    sv.skip(pos2 as int),
                );
                lemma_prefix_index(node_word(nd), sv.skip(pos2 as int));
                assert(node_word(nd) =~= sv.subrange(pos2 as int, pos3 as int)) by {
                    assert forall|i: int| 0 <= i < node_word(nd).len() implies node_word(nd)[i]
                        == sv.subrange(pos2 as int, pos3 as int)[i] by {
                        assert(node_word(nd)[i] == sv.skip(pos2 as int)[i]);
                    }
                }
                lemma_skip_skip(sv, pos2 as int, pos3 - pos2);
            }
        }
        if idx_tok.is_none() {
            proof {
                assert forall|nd: TrieNode| !(#[trigger] node_hyp(sv, p0, nd)) by {
                    if node_hyp(sv, p0, nd) {
                        lemma_prefix_step(
                            enc_num(node_index(nd)),
                            enc_num(nd.edges@.len()) + enc_edges_from(nd.edges@, 0),
                            sv.skip(pos3 as int),
                        );
                        assert(false);
                    }
                }
            }
            return None;
        }
        let (idx64, pos4a) = idx_tok.unwrap();
        proof {
            lemma_subrange_prefix(sv, pos3 as int, pos4a as int);
        }
        if idx64 > usize::MAX as u64 {
            proof {
                assert forall|nd: TrieNode| !(#[trigger] node_hyp(sv, p0, nd)) by {
                    if node_hyp(sv, p0, nd) {
                        lemma_prefix_step(
                            enc_num(node_index(nd)),
                            enc_num(nd.edges@.len()) + enc_edges_from(nd.edges@, 0),
                            sv.skip(pos3 as int),
                        );
                        lemma_enc_num_unique(node_index(nd), idx64 as nat, sv.skip(pos3 as int));
                        assert(false);
                    }
                }
            }
            return None;
        }
        let idx_us = idx64 as usize;
        proof {
            assert forall|nd: TrieNode| #[trigger] node_hyp(sv, p0, nd) implies nd.index == Some(
                idx_us,
            ) && (enc_num(nd.edges@.len()) + enc_edges_from(nd.edges@, 0)).is_prefix_of(
                sv.skip(pos4a as int),
            ) by {
                lemma_prefix_step(
                    enc_num(node_index(nd)),
                    enc_num(nd.edges@.len()) + enc_edges_from(nd.edges@, 0),
                    sv.skip(pos3 as int),
                );
                lemma_enc_num_unique(node_index(nd), idx64 as nat, sv.skip(pos3 as int));
                assert(nd.word.is_some() && nd.index.is_some());
                assert(enc_num(node_index(nd)).len() == pos4a - pos3);
                lemma_skip_skip(sv, pos3 as int, pos4a - pos3);
            }
            assert(sv.subrange(p0, pos4a as int) =~= enc_num(1) + enc_num(ws@.len()) + ws@
                + enc_num(idx_us as nat)) by {
                assert(sv.subrange(p0, pos1 as int) == enc_num(flagv as nat));
                assert(flagv as nat == 1);
                assert(ws@.len() == wl64 as nat);
                assert(sv.subrange(pos2 as int, pos3 as int) == ws@);
            }
        }
        read_node_rest(s, pos, pos4a, Some(ws), Some(idx_us))
    } else {
        proof {
            assert forall|nd: TrieNode| #[trigger] node_hyp(sv, p0, nd) implies ((nd.word.is_none())
                && nd.index.is_none() && (enc_num(nd.edges@.len()) + enc_edges_from(
                nd.edges@,
                0,
            )).is_prefix_of(sv.skip(pos1 as int))) by {
                lemma_enc_node_shape(nd);
                if nd.word.is_some() {
                    lemma_prefix_step(
                        enc_num(1),
                        enc_num(node_word(nd).len()) + (node_word(nd) + (enc_num(node_index(nd))
                            + (enc_num(nd.edges@.len()) + enc_edges_from(nd.edges@, 0)))),
                        sv.skip(p0),
                    );
                    lemma_enc_num_unique(1, flagv as nat, sv.skip(p0));
                    assert(false);
                }
                lemma_prefix_step(
                    enc_num(0),
                    enc_num(nd.edges@.len()) + enc_edges_from(nd.edges@, 0),
                    sv.skip(p0),
                );
                lemma_enc_num_unique(0, flagv as nat, sv.skip(p0));
                assert(enc_num(0).len() == pos1 - p0);
                lemma_skip_skip(sv, p0, pos1 - p0);
            }
            assert(sv.subrange(p0, pos1 as int) =~= enc_num(0));
        }
        read_node_rest(s, pos, pos1, None, None)
    }
}

/// The shared back half of a node record: the edge count and the edges. The
/// record's front (flag, stored string, index) has been read and pinned by
/// the caller.
#[verifier::rlimit(100)]
fn read_node_rest(
    s: &Vec<char>,
    pos: usize,
    pos4: usize,
    word: Option<String>,
    pidx: Option<usize>,
) -> (r: Option<(TrieNode, usize)>)
    requires
        pos <= pos4 <= s@.len(),
        word.is_some() <==> pidx.is_some(),
        s@.subrange(pos as int, pos4 as int) == (if word.is_some() {
            enc_num(1) + enc_num(word->0@.len()) + word->0@ + enc_num(pidx->0 as nat)
        } else {
            enc_num(0)
        }),
        forall|nd: TrieNode|
            #[trigger] node_hyp(s@, pos as int, nd) ==> ((nd.word.is_some() <==> word.is_some())
                && node_word(nd) == (if word.is_some() {
                word->0@
            } else {
                Seq::<char>::empty()
            }) && nd.index == pidx && (enc_num(nd.edges@.len()) + enc_edges_from(
                nd.edges@,
                0,
            )).is_prefix_of(s@.skip(pos4 as int))),
    ensures
        match r {
            Some(p) => {
                &&& pos < p.1 <= s@.len()
                &&& s@.subrange(pos as int, p.1 as int) == enc_node(p.0)
                &&& node_coherent(p.0)
                &&& forall|nd: TrieNode|
                    #[trigger] node_hyp(s@, pos as int, nd) ==> node_equiv(p.0, nd)
            },
            None => forall|nd: TrieNode| !(#[trigger] node_hyp(s@, pos as int, nd)),
        },
{
    let ghost sv = s@;
    let ghost p0 = pos as int;
    let ghost front = s@.subrange(pos as int, pos4 as int);
    let cnt_tok = read_num(s, pos4);
    if cnt_tok.is_none() {
        proof {
            assert forall|nd: TrieNode| !(#[trigger] node_hyp(sv, p0, nd)) by {
                if node_hyp(sv, p0, nd) {
                    lemma_prefix_step(
                        enc_num(nd.edges@.len()),
                        enc_edges_from(nd.edges@, 0),
                        sv.skip(pos4 as int),
                    );
                    assert(vstd::std_specs::vec::spec_vec_len(&nd.edges) == nd.edges@.len());
                    assert(false);
                }
            }
        }
        return None;
    }
    let (cnt64, pos5) = cnt_tok.unwrap();
    proof {
        lemma_subrange_prefix(sv, pos4 as int, pos5 as int);
        assert forall|nd: TrieNode| #[trigger] node_hyp(sv, p0, nd) implies nd.edges@.len()
            == cnt64 as nat && enc_edges_from(nd.edges@, 0).is_prefix_of(sv.skip(pos5 as int)) by {
            lemma_prefix_step(
                enc_num(nd.edges@.len()),
                enc_edges_from(nd.edges@, 0),
                sv.skip(pos4 as int),
            );
            lemma_enc_num_unique(nd.edges@.len(), cnt64 as nat, sv.skip(pos4 as int));
            assert(enc_num(nd.edges@.len()).len() == pos5 - pos4);
            lemma_skip_skip(sv, pos4 as int, pos5 - pos4);
        }
    }
    if cnt64 > usize::MAX as u64 {
        proof {
            assert forall|nd: TrieNode| !(#[trigger] node_hyp(sv, p0, nd)) by {
                if node_hyp(sv, p0, nd) {
                    assert(vstd::std_specs::vec::spec_vec_len(&nd.edges) == nd.edges@.len());
                    assert(false);
                }
            }
        }
        return None;
    }
    let cnt_us = cnt64 as usize;
    let mut pedges: Vec<(char, usize)> = Vec::new();
    let mut cur = pos5;
    let mut j: usize = 0;
    proof {
        assert(sv.subrange(p0, cur as int) =~= front + enc_num(cnt64 as nat));
        assert(enc_edges(pedges@, 0) =~= Seq::<char>::empty());
        assert(front + enc_num(cnt64 as nat) + enc_edges(pedges@, 0) =~= front + enc_num(
            cnt64 as nat,
        ));
    }
    proof {
        assert forall|nd: TrieNode| #[trigger] node_hyp(sv, p0, nd) implies ((nd.word.is_some()
            <==> word.is_some()) && node_word(nd) == (if word.is_some() {
            word->0@
        } else {
            Seq::<char>::empty()
        }) && nd.index == pidx && nd.edges@.len() == cnt64 as nat && (forall|x: int|
            0 <= x < j ==> nd.edges@[x] == pedges@[x]) && enc_edges_from(
            nd.edges@,
            j as int,
        ).is_prefix_of(sv.skip(cur as int))) by {
            assert(node_hyp(s@, pos as int, nd));
        }
    }
    while j < cnt_us
        invariant
            sv == s@,
            p0 == pos as int,
            0 <= p0 <= pos4 <= cur <= sv.len(),
            j <= cnt_us,
            cnt64 <= usize::MAX as u64,
            cnt_us == cnt64 as usize,
            cnt_us as nat == cnt64 as nat,
            pedges@.len() == j,
            word.is_some() <==> pidx.is_some(),
            sv.subrange(p0, cur as int) == front + enc_num(cnt64 as nat) + enc_edges(
                pedges@,
                j as int,
            ),
            front == (if word.is_some() {
                enc_num(1) + enc_num(word->0@.len()) + word->0@ + enc_num(pidx->0 as nat)
            } else {
                enc_num(0)
            }),
            forall|nd: TrieNode|
                #[trigger] node_hyp(sv, p0, nd) ==> ((nd.word.is_some() <==> word.is_some())
                    && node_word(nd) == (if word.is_some() {
                    word->0@
                } else {
                    Seq::<char>::empty()
                }) && nd.index == pidx && nd.edges@.len() == cnt64 as nat && (forall|x: int|
                    0 <= x < j ==> nd.edges@[x] == pedges@[x]) && enc_edges_from(
                    nd.edges@,
                    j as int,
                ).is_prefix_of(sv.skip(cur as int))),
        decreases cnt_us - j,
    {
        if cur >= s.len() {
            proof {
                assert forall|nd: TrieNode| !(#[trigger] node_hyp(sv, p0, nd)) by {
                    if node_hyp(sv, p0, nd) {
                        assert(0 <= j < nd.edges@.len());
                        assert(enc_edges_from(nd.edges@, j as int).len() >= 1);
                        assert(false);
                    }
                }
            }
            return None;
        }
        let c = s[cur];
        let cur1 = cur + 1;
        proof {
            assert forall|nd: TrieNode| #[trigger] node_hyp(sv, p0, nd) implies nd.edges@[j as int].0
                == c && (enc_num(nd.edges@[j as int].1 as nat) + enc_edges_from(
                nd.edges@,
                j + 1 as int,
            )).is_prefix_of(sv.skip(cur1 as int)) && enc_num(
                nd.edges@[j as int].1 as nat,
            ).is_prefix_of(sv.skip(cur1 as int)) by {
                assert(0 <= j < nd.edges@.len());
                assert(enc_edges_from(nd.edges@, j as int) =~= seq![nd.edges@[j as int].0]
                    + (enc_num(nd.edges@[j as int].1 as nat) + enc_edges_from(
                    nd.edges@,
                    j + 1 as int,
                ))) by {
                    assert(enc_edges_from(nd.edges@, j as int) == seq![nd.edges@[j as int].0]
                        + enc_num(nd.edges@[j as int].1 as nat) + enc_edges_from(
                        nd.edges@,
                        j + 1 as int,
                    ));
                }
                lemma_prefix_step(
                    seq![nd.edges@[j as int].0],
                    enc_num(nd.edges@[j as int].1 as nat) + enc_edges_from(nd.edges@, j + 1 as int),
                    sv.skip(cur as int),
                );
                lemma_prefix_index(seq![nd.edges@[j as int].0], sv.skip(cur as int));
                assert(sv.skip(cur as int)[0] == sv[cur as int]);
                lemma_prefix_step(
                    enc_num(nd.edges@[j as int].1 as nat),
                    enc_edges_from(nd.edges@, j + 1 as int),
                    sv.skip(cur as int).skip(1),
                );
                lemma_skip_skip(sv, cur as int, 1);
            }
        }
        let tgt_tok = read_num(s, cur1);
        if tgt_tok.is_none() {
            proof {
                assert forall|nd: TrieNode| !(#[trigger] node_hyp(sv, p0, nd)) by {
                    if node_hyp(sv, p0, nd) {
                        assert(false);
                    }
                }
            }
            return None;
        }
        let (t64, cur2) = tgt_tok.unwrap();
        proof {
            lemma_subrange_prefix(sv, cur1 as int, cur2 as int);
        }
        if t64 > usize::MAX as u64 {
            proof {
                assert forall|nd: TrieNode| !(#[trigger] node_hyp(sv, p0, nd)) by {
                    if node_hyp(sv, p0, nd) {
                        lemma_enc_num_unique(
                            nd.edges@[j as int].1 as nat,
                            t64 as nat,
                            sv.skip(cur1 as int),
                        );
                        assert(false);
                    }
                }
            }
            return None;
        }
        let t_us = t64 as usize;
        let ghost old_edges = pedges@;
        pedges.push((c, t_us));
        proof {
            assert forall|nd: TrieNode| #[trigger] node_hyp(sv, p0, nd) implies (forall|x: int|
                0 <= x < j + 1 ==> nd.edges@[x] == pedges@[x]) && enc_edges_from(
                nd.edges@,
                j + 1 as int,
            ).is_prefix_of(sv.skip(cur2 as int)) by {
                lemma_enc_num_unique(nd.edges@[j as int].1 as nat, t64 as nat, sv.skip(cur1 as int));
                assert(nd.edges@[j as int] == (c, t_us));
                assert(forall|x: int| 0 <= x < j ==> nd.edges@[x] == old_edges[x]);
                assert(forall|x: int| 0 <= x < j ==> pedges@[x] == old_edges[x]);
                lemma_prefix_step(
                    enc_num(nd.edges@[j as int].1 as nat),
                    enc_edges_from(nd.edges@, j + 1 as int),
                    sv.skip(cur1 as int),
                );
                assert(enc_num(nd.edges@[j as int].1 as nat).len() == cur2 - cur1);
                lemma_skip_skip(sv, cur1 as int, cur2 - cur1);
            }
            assert(sv.subrange(p0, cur2 as int) =~= front + enc_num(cnt64 as nat) + enc_edges(
                pedges@,
                j + 1 as int,
            )) by {
                assert(sv.subrange(p0, cur2 as int) =~= sv.subrange(p0, cur as int) + (seq![c]
                    + enc_num(t64 as nat)));
                assert(pedges@[j as int] == (c, t_us));
                assert(enc_edges(pedges@, j + 1 as int) == enc_edges(pedges@, j as int)
                    + seq![pedges@[j as int].0] + enc_num(pedges@[j as int].1 as nat));
                assert(enc_edges(pedges@, j as int) == enc_edges(old_edges, j as int)) by {
                    lemma_enc_edges_take(old_edges, pedges@, j as int);
                }
            }
        }
        cur = cur2;
        j = j + 1;
    }
    let node = TrieNode { edges: pedges, word, index: pidx };
    proof {
        lemma_enc_node_shape(node);
        lemma_enc_edges_split(node.edges@, 0);
        assert(enc_edges(node.edges@, 0) =~= Seq::<char>::empty());
        assert(sv.subrange(p0, cur as int) =~= enc_node(node)) by {
            assert(node_word(node) == (if node.word.is_some() {
                node.word->0@
            } else {
                Seq::<char>::empty()
            }));
            assert(node_index(node) == (match node.index {
                Some(v) => v as nat,
                None => 0,
            }));
            assert(enc_node(node) =~= (if node.word.is_some() {
                enc_num(1) + enc_num(node_word(node).len()) + node_word(node) + enc_num(
                    node_index(node),
                )
            } else {
                enc_num(0)
            }) + enc_num(node.edges@.len()) + enc_edges(node.edges@, node.edges@.len() as int));
        }
        assert forall|nd: TrieNode| #[trigger] node_hyp(sv, p0, nd) implies node_equiv(
            node,
            nd,
        ) by {
            assert(nd.edges@ =~= node.edges@);
        }
        assert(cur > p0) by {
            assert(enc_num(cnt64 as nat).len() >= 2);
            assert(sv.subrange(p0, cur as int).len() >= 2);
        }
    }
    Some((node, cur))
}

/// Whether some string of `words` has exactly the characters `v`.
pub open spec fn result_has(words: Seq<String>, v: Seq<char>) -> bool {
    exists|e: int| 0 <= e < words.len() && (#[trigger] words[e])@ == v
}

/// What `search_all` hands back for `prefix`: exactly the stored strings that
/// start with `prefix`, each once, in ascending order of insertion index.
pub open spec fn is_recall_list(t: Trie, prefix: Seq<char>, words: Seq<String>) -> bool {
    &&& forall|e: int|
        0 <= e < words.len() ==> t.contains_word((#[trigger] words[e])@) && prefix.is_prefix_of(
            words[e]@,
        )
    &&& forall|v: Seq<char>|
        #[trigger] t.contains_word(v) && prefix.is_prefix_of(v) ==> result_has(words, v)
    &&& forall|e1: int, e2: int|
        0 <= e1 < e2 < words.len() ==> t.index_of((#[trigger] words[e1])@) < t.index_of((
        #[trigger] words[e2])@)
}

/// Distinct stored strings always carry distinct insertion indices: the
/// recall order sorted by index is unambiguous.
pub proof fn lemma_index_of_injective(t: &Trie, v1: Seq<char>, v2: Seq<char>)
    requires
        t.wf(),
        t.contains_word(v1),
        t.contains_word(v2),
        v1 != v2,
    ensures
        t.index_of(v1) != t.index_of(v2),
{
    let k1 = desc(t.nodes@, 0, v1)->0;
    let k2 = desc(t.nodes@, 0, v2)->0;
    if k1 == k2 {
        lemma_desc_injective(t.nodes@, v1, v2);
    }
}

/// A node's stored string and stored index come together.
pub(crate) open spec fn node_coherent(n: TrieNode) -> bool {
    n.word.is_some() <==> n.index.is_some()
}

/// The snapshot text of the first `j` edges of a node: for each edge its
/// character followed by its target as a number token.
pub(crate) open spec fn enc_edges(es: Seq<(char, usize)>, j: int) -> Seq<char>
    decreases j,
{
    if j <= 0 {
        Seq::<char>::empty()
    } else {
        enc_edges(es, j - 1) + seq![es[j - 1].0] + enc_num(es[j - 1].1 as nat)
    }
}

/// The snapshot text of one node: a terminal flag, then (for a terminal) the
/// stored string length-prefixed and its insertion index, then the edge count
/// and the edges.
pub(crate) open spec fn enc_node(n: TrieNode) -> Seq<char> {
    (if n.word.is_some() {
        enc_num(1) + enc_num(node_word(n).len()) + node_word(n) + enc_num(node_index(n))
    } else {
        enc_num(0)
    }) + enc_num(n.edges@.len()) + enc_edges(n.edges@, n.edges@.len() as int)
}

/// The snapshot text of the first `i` nodes.
pub(crate) open spec fn enc_nodes(nodes: Seq<TrieNode>, i: int) -> Seq<char>
    decreases i,
{
    if i <= 0 {
        Seq::<char>::empty()
    } else {
        enc_nodes(nodes, i - 1) + enc_node(nodes[i - 1])
    }
}

impl Trie {
    /// The full snapshot text of a trie: its counter, its node count, and its
    /// nodes in arena order.
    pub closed spec fn spec_encode(self) -> Seq<char> {
        enc_num(self.index as nat) + enc_num(self.nodes@.len()) + enc_nodes(
            self.nodes@,
            self.nodes@.len() as int,
        )
    }

    /// Renders the trie as its snapshot document: a structural dump of the
    /// arena from which `decode` rebuilds an equivalent trie.
    #[verifier::rlimit(60)]
    pub fn encode(&self) -> (r: String)
        requires
            self.wf(),
        ensures
            r@ == self.spec_encode(),
    {
        let ghost nodes = self.nodes@;
        let mut r = String::new();
        append_dec(&mut r, self.index as u64);
        push_char(&mut r, ' ');
        append_dec(&mut r, self.nodes.len() as u64);
        push_char(&mut r, ' ');
        let ghost header = r@;
        proof {
            assert(header =~= enc_num(self.index as nat) + enc_num(nodes.len()));
            assert(header + enc_nodes(nodes, 0) =~= header);
        }
        let mut i: usize = 0;
        while i < self.nodes.len()
            invariant
                self.wf(),
                nodes == self.nodes@,
                i <= nodes.len(),
                header == enc_num(self.index as nat) + enc_num(nodes.len()),
                r@ == header + enc_nodes(nodes, i as int),
            decreases nodes.len() - i,
        {
            let ghost r0 = r@;
            let node = &self.nodes[i];
            match &node.word {
                Some(w) => {
                    proof {
                        assert(nodes[i as int].index.is_some());
                    }
                    append_dec(&mut r, 1);
                    push_char(&mut r, ' ');
                    append_dec(&mut r, w.as_str().unicode_len() as u64);
                    push_char(&mut r, ' ');
                    r.append(w.as_str());
                    append_dec(&mut r, node.index.unwrap() as u64);
                    push_char(&mut r, ' ');
                    proof {
                        assert(r@ =~= r0 + (enc_num(1) + enc_num(node_word(nodes[i as int]).len())
                            + node_word(nodes[i as int]) + enc_num(node_index(nodes[i as int]))));
                    }
                },
                None => {
                    append_dec(&mut r, 0);
                    push_char(&mut r, ' ');
                    proof {
                        assert(r@ =~= r0 + enc_num(0));
                    }
                },
            }
            let ghost r1 = r@;
            append_dec(&mut r, node.edges.len() as u64);
            push_char(&mut r, ' ');
            let ghost r2 = r@;
            proof {
                assert(r2 =~= r1 + enc_num(nodes[i as int].edges@.len()));
                assert(r2 + enc_edges(nodes[i as int].edges@, 0) =~= r2);
            }
            let mut j: usize = 0;
            while j < node.edges.len()
                invariant
                    node.edges@ == nodes[i as int].edges@,
                    0 <= i < nodes.len(),
                    j <= node.edges@.len(),
                    r@ == r2 + enc_edges(node.edges@, j as int),
                decreases node.edges@.len() - j,
            {
                let ghost r3 = r@;
                let (c, t) = node.edges[j];
                push_char(&mut r, c);
                append_dec(&mut r, t as u64);
                push_char(&mut r, ' ');
                proof {
                    assert(r@ =~= r3 + seq![c] + enc_num(t as nat));
                    assert(r@ =~= r2 + enc_edges(node.edges@, j + 1 as int));
                }
                j = j + 1;
            }
            proof {
                assert(r@ =~= r0 + enc_node(nodes[i as int]));
                assert(r@ =~= header + enc_nodes(nodes, i + 1 as int));
            }
            i = i + 1;
        }
        proof {
            assert(r@ =~= self.spec_encode());
        }
        r
    }

    /// Rebuilds a trie from a snapshot document. Returns `Some` exactly when
    /// the text is the snapshot of a well-formed trie — and then that trie;
    /// any other text yields `None`, and the caller falls back to an empty
    /// trie.
    #[verifier::rlimit(100)]
    pub fn decode(doc: &str) -> (r: Option<Trie>)
        ensures
            match r {
                Some(out) => out.wf() && out.spec_encode() == doc@,
                None => forall|t: Trie| t.wf() ==> #[trigger] t.spec_encode() != doc@,
            },
    {
        let s = str_to_chars(doc);
        let ghost sv = s@;
        proof {
            assert(sv.skip(0) =~= sv);
            assert forall|t: Trie| #[trigger] snap_hyp(sv, t) implies (enc_num(
                t.index as nat,
            ).is_prefix_of(sv.skip(0)) && (enc_num(t.nodes@.len()) + enc_nodes_from(
                t.nodes@,
                0,
            )).is_prefix_of(sv.skip(enc_num(t.index as nat).len() as int))) by {
                lemma_enc_nodes_split(t.nodes@, 0);
                assert(enc_nodes(t.nodes@, 0) =~= Seq::<char>::empty());
                assert(Seq::<char>::empty() + enc_nodes_from(t.nodes@, 0) =~= enc_nodes_from(
                    t.nodes@,
                    0,
                ));
                let rest = enc_num(t.nodes@.len()) + enc_nodes_from(t.nodes@, 0);
                assert(t.spec_encode() =~= enc_num(t.index as nat) + rest);
                assert((enc_num(t.index as nat) + rest).is_prefix_of(sv)) by {
                    assert(sv.subrange(0, sv.len() as int) =~= sv);
                }
                lemma_prefix_step(enc_num(t.index as nat), rest, sv);
            }
        }
        let ctr_tok = read_num(&s, 0);
        if ctr_tok.is_none() {
            proof {
                assert forall|t: Trie| t.wf() implies #[trigger] t.spec_encode() != doc@ by {
                    if t.spec_encode() == doc@ {
                        assert(snap_hyp(sv, t));
                        assert(false);
                    }
                }
            }
            return None;
        }
        let (ctr64, pos1) = ctr_tok.unwrap();
        proof {
            lemma_subrange_prefix(sv, 0, pos1 as int);
            assert forall|t: Trie| #[trigger] snap_hyp(sv, t) implies (t.index as nat
                == ctr64 as nat && enc_num(t.nodes@.len()).is_prefix_of(sv.skip(pos1 as int))
                && (enc_num(t.nodes@.len()) + enc_nodes_from(t.nodes@, 0)).is_prefix_of(
                sv.skip(pos1 as int),
            )) by {
                lemma_enc_num_unique(t.index as nat, ctr64 as nat, sv);
                assert(enc_num(t.index as nat).len() == pos1 - 0);
                lemma_prefix_step(
                    enc_num(t.nodes@.len()),
                    enc_nodes_from(t.nodes@, 0),
                    sv.skip(pos1 as int),
                );
            }
        }
        if ctr64 > usize::MAX as u64 {
            proof {
                assert forall|t: Trie| t.wf() implies #[trigger] t.spec_encode() != doc@ by {
                    if t.spec_encode() == doc@ {
                        assert(snap_hyp(sv, t));
                        assert(false);
                    }
                }
            }
            return None;
        }
        let ctr_us = ctr64 as usize;
        let n_tok = read_num(&s, pos1);
        if n_tok.is_none() {
            proof {
                assert forall|t: Trie| t.wf() implies #[trigger] t.spec_encode() != doc@ by {
                    if t.spec_encode() == doc@ {
                        assert(snap_hyp(sv, t));
                        assert(vstd::std_specs::vec::spec_vec_len(&t.nodes) == t.nodes@.len());
                        assert(false);
                    }
                }
            }
            return None;
        }
        let (n64, pos2) = n_tok.unwrap();
        proof {
            lemma_subrange_prefix(sv, pos1 as int, pos2 as int);
            assert forall|t: Trie| #[trigger] snap_hyp(sv, t) implies (t.nodes@.len()
                == n64 as nat && enc_nodes_from(t.nodes@, 0).is_prefix_of(sv.skip(pos2 as int))) by {
                lemma_enc_num_unique(t.nodes@.len(), n64 as nat, sv.skip(pos1 as int));
                lemma_prefix_step(
                    enc_num(t.nodes@.len()),
                    enc_nodes_from(t.nodes@, 0),
                    sv.skip(pos1 as int),
                );
                assert(enc_num(t.nodes@.len()).len() == pos2 - pos1);
                lemma_skip_skip(sv, pos1 as int, pos2 - pos1);
            }
        }
        if n64 > usize::MAX as u64 || n64 == 0 {
            proof {
                assert forall|t: Trie| t.wf() implies #[trigger] t.spec_encode() != doc@ by {
                    if t.spec_encode() == doc@ {
                        assert(snap_hyp(sv, t));
                        assert(vstd::std_specs::vec::spec_vec_len(&t.nodes) == t.nodes@.len());
                        assert(false);
                    }
                }
            }
            return None;
        }
        let n_us = n64 as usize;
        let mut parsed: Vec<TrieNode> = Vec::new();
        let mut pos = pos2;
        let mut i: usize = 0;
        proof {
            assert(sv.subrange(0, pos as int) =~= enc_num(ctr64 as nat) + enc_num(n64 as nat)
                + enc_nodes(parsed@, 0));
        }
        while i < n_us
            invariant
                sv == s@,
                sv == doc@,
                ctr64 <= usize::MAX as u64,
                ctr_us == ctr64 as usize,
                1 <= n64 <= usize::MAX as u64,
                n_us == n64 as usize,
                i <= n_us,
                parsed@.len() == i,
                pos <= sv.len(),
                sv.subrange(0, pos as int) == enc_num(ctr64 as nat) + enc_num(n64 as nat)
                    + enc_nodes(parsed@, i as int),
                forall|x: int| 0 <= x < i ==> node_coherent(#[trigger] parsed@[x]),
                forall|t: Trie|
                    #[trigger] snap_hyp(sv, t) ==> (t.index == ctr_us && t.nodes@.len()
                        == n64 as nat && (forall|x: int|
                        0 <= x < i ==> node_equiv(#[trigger] parsed@[x], t.nodes@[x]))
                        && enc_nodes_from(t.nodes@, i as int).is_prefix_of(sv.skip(pos as int))),
            decreases n_us - i,
        {
            proof {
                assert forall|t: Trie| #[trigger] snap_hyp(sv, t) implies (node_hyp(
                    sv,
                    pos as int,
                    t.nodes@[i as int],
                ) && (enc_node(t.nodes@[i as int]) + enc_nodes_from(t.nodes@, i + 1)).is_prefix_of(
                    sv.skip(pos as int),
                )) by {
                    assert(0 <= i < t.nodes@.len());
                    assert(enc_nodes_from(t.nodes@, i as int) == enc_node(t.nodes@[i as int])
                        + enc_nodes_from(t.nodes@, i + 1));
                    lemma_prefix_step(
                        enc_node(t.nodes@[i as int]),
                        enc_nodes_from(t.nodes@, i + 1),
                        sv.skip(pos as int),
                    );
                    assert(node_coherent(t.nodes@[i as int]));
                    if t.nodes@[i as int].word.is_some() {
                        lemma_desc_len_bound(t.nodes@, 0, node_word(t.nodes@[i as int]));
                        assert(vstd::std_specs::vec::spec_vec_len(&t.nodes) == t.nodes@.len());
                    }
                }
            }
            let nd_tok = read_node(&s, pos);
            if nd_tok.is_none() {
                proof {
                    assert forall|t: Trie| t.wf() implies #[trigger] t.spec_encode() != doc@ by {
                        if t.spec_encode() == doc@ {
                            assert(snap_hyp(sv, t));
                            assert(!node_hyp(s@, pos as int, t.nodes@[i as int]));
                            assert(false);
                        }
                    }
                }
                return None;
            }
            let (node, posn) = nd_tok.unwrap();
            let ghost oldparsed = parsed@;
            parsed.push(node);
            proof {
                assert(parsed@[i as int] == node);
                assert(sv.subrange(0, posn as int) =~= enc_num(ctr64 as nat) + enc_num(n64 as nat)
                    + enc_nodes(parsed@, i + 1 as int)) by {
                    assert(sv.subrange(0, posn as int) =~= sv.subrange(0, pos as int)
                        + sv.subrange(pos as int, posn as int));
                    lemma_enc_nodes_take(oldparsed, parsed@, i as int);
                    assert(enc_nodes(parsed@, i + 1 as int) == enc_nodes(parsed@, i as int)
                        + enc_node(node));
                }
                assert forall|t: Trie| #[trigger] snap_hyp(sv, t) implies ((forall|x: int|
                    0 <= x < i + 1 ==> node_equiv(#[trigger] parsed@[x], t.nodes@[x]))
                    && enc_nodes_from(t.nodes@, i + 1 as int).is_prefix_of(
                    sv.skip(posn as int),
                )) by {
                    assert(node_hyp(s@, pos as int, t.nodes@[i as int]));
                    assert(node_equiv(node, t.nodes@[i as int]));
                    lemma_enc_node_equiv(node, t.nodes@[i as int]);
                    assert(enc_node(t.nodes@[i as int]).len() == posn - pos);
                    lemma_prefix_step(
                        enc_node(t.nodes@[i as int]),
                        enc_nodes_from(t.nodes@, i + 1),
                        sv.skip(pos as int),
                    );
                    lemma_skip_skip(sv, pos as int, posn - pos);
                    assert(forall|x: int|
                        0 <= x < i ==> node_equiv(#[trigger] oldparsed[x], t.nodes@[x]));
                    assert(forall|x: int| 0 <= x < i ==> parsed@[x] == oldparsed[x]);
                }
            }
            pos = posn;
            i = i + 1;
        }
        proof {
            assert forall|t: Trie| #[trigger] snap_hyp(sv, t) implies sv.len() == pos as int by {
                assert(t.spec_encode() == enc_num(t.index as nat) + enc_num(t.nodes@.len())
                    + enc_nodes(t.nodes@, t.nodes@.len() as int));
                lemma_enc_nodes_equiv(parsed@, t.nodes@, n_us as int);
                assert(enc_num(t.index as nat) == enc_num(ctr64 as nat));
                assert(enc_num(t.nodes@.len()) == enc_num(n64 as nat));
                assert(enc_nodes(t.nodes@, t.nodes@.len() as int) == enc_nodes(
                    parsed@,
                    n_us as int,
                ));
                assert(sv == sv.subrange(0, pos as int));
            }
        }
        if pos != s.len() {
            proof {
                assert forall|t: Trie| t.wf() implies #[trigger] t.spec_encode() != doc@ by {
                    if t.spec_encode() == doc@ {
                        assert(snap_hyp(sv, t));
                        assert(false);
                    }
                }
            }
            return None;
        }
        let ghost equiv_ok = forall|t: Trie|
            #[trigger] snap_hyp(sv, t) ==> (arena_wf(parsed@) && terminals_wf(
                parsed@,
                ctr_us as nat,
            ));
        proof {
            assert(equiv_ok) by {
                assert forall|t: Trie| #[trigger] snap_hyp(sv, t) implies (arena_wf(parsed@)
                    && terminals_wf(parsed@, ctr_us as nat)) by {
                    assert forall|x: int|
                        0 <= x < t.nodes@.len() implies node_equiv(
                        #[trigger] t.nodes@[x],
                        parsed@[x],
                    ) by {
                        assert(node_equiv(parsed@[x], t.nodes@[x]));
                    }
                    lemma_wf_transfer(t.nodes@, parsed@, ctr_us as nat);
                }
            }
        }
        if !check_edges(&parsed) {
            proof {
                assert forall|t: Trie| t.wf() implies #[trigger] t.spec_encode() != doc@ by {
                    if t.spec_encode() == doc@ {
                        assert(snap_hyp(sv, t));
                        assert(false);
                    }
                }
            }
            return None;
        }
        if !check_targets(&parsed) {
            proof {
                assert forall|t: Trie| t.wf() implies #[trigger] t.spec_encode() != doc@ by {
                    if t.spec_encode() == doc@ {
                        assert(snap_hyp(sv, t));
                        assert(false);
                    }
                }
            }
            return None;
        }
        if !check_terminals(&parsed, ctr_us) {
            proof {
                assert forall|t: Trie| t.wf() implies #[trigger] t.spec_encode() != doc@ by {
                    if t.spec_encode() == doc@ {
                        assert(snap_hyp(sv, t));
                        assert(false);
                    }
                }
            }
            return None;
        }
        if !check_words(&parsed) {
            proof {
                assert forall|t: Trie| t.wf() implies #[trigger] t.spec_encode() != doc@ by {
                    if t.spec_encode() == doc@ {
                        assert(snap_hyp(sv, t));
                        assert(false);
                    }
                }
            }
            return None;
        }
        let out = Trie { nodes: parsed, index: ctr_us };
        proof {
            assert(out.wf());
            assert(out.spec_encode() =~= sv) by {
                assert(sv.subrange(0, pos as int) =~= sv);
                assert(out.nodes@.len() == n64 as nat);
                assert(out.index as nat == ctr64 as nat);
            }
        }
        Some(out)
    }
}

/// The snapshot text of the edges of a node from position `j` on.
pub(crate) open spec fn enc_edges_from(es: Seq<(char, usize)>, j: int) -> Seq<char>
    decreases es.len() - j,
{
    if 0 <= j < es.len() {
        seq![es[j].0] + enc_num(es[j].1 as nat) + enc_edges_from(es, j + 1)
    } else {
        Seq::<char>::empty()
    }
}

/// The snapshot text of the nodes from position `i` on.
pub(crate) open spec fn enc_nodes_from(nodes: Seq<TrieNode>, i: int) -> Seq<char>
    decreases nodes.len() - i,
{
    if 0 <= i < nodes.len() {
        enc_node(nodes[i]) + enc_nodes_from(nodes, i + 1)
    } else {
        Seq::<char>::empty()
    }
}

/// Two nodes that look alike to the model and to the snapshot: same edges,
/// same stored characters, same index.
pub(crate) open spec fn node_equiv(a: TrieNode, b: TrieNode) -> bool {
    &&& a.edges@ == b.edges@
    &&& a.index == b.index
    &&& (a.word.is_some() <==> b.word.is_some())
    &&& node_word(a) == node_word(b)
}

/// A coherent node whose snapshot text starts at `pos` in `s`.
pub(crate) open spec fn node_hyp(s: Seq<char>, pos: int, nd: TrieNode) -> bool {
    &&& node_coherent(nd)
    &&& node_word(nd).len() <= usize::MAX
    &&& enc_node(nd).is_prefix_of(s.skip(pos))
}

/// A well-formed trie whose full snapshot is exactly `d`.
pub(crate) open spec fn snap_hyp(d: Seq<char>, t: Trie) -> bool {
    t.wf() && t.spec_encode() == d
}

/// A subrange is a prefix of the suffix it starts in.
pub(crate) proof fn lemma_subrange_prefix(s: Seq<char>, p: int, q: int)
    requires
        0 <= p <= q <= s.len(),
    ensures
        s.subrange(p, q).is_prefix_of(s.skip(p)),
{
    assert(s.subrange(p, q) =~= s.skip(p).subrange(0, q - p));
}

/// Skipping in two steps is skipping once.
pub(crate) proof fn lemma_skip_skip(s: Seq<char>, p: int, q: int)
    requires
        0 <= p,
        0 <= q,
        p + q <= s.len(),
    ensures
        s.skip(p).skip(q) == s.skip(p + q),
{
    assert(s.skip(p).skip(q) =~= s.skip(p + q));
}

/// The snapshot of the first `i` nodes and of the rest together make the
/// whole snapshot.
pub(crate) proof fn lemma_enc_nodes_split(nodes: Seq<TrieNode>, i: int)
    requires
        0 <= i <= nodes.len(),
    ensures
        enc_nodes(nodes, nodes.len() as int) == enc_nodes(nodes, i) + enc_nodes_from(nodes, i),
    decreases nodes.len() - i,
{
    if i == nodes.len() {
        assert(enc_nodes_from(nodes, i) =~= Seq::<char>::empty());
        assert(enc_nodes(nodes, i) + Seq::<char>::empty() =~= enc_nodes(nodes, i));
    } else {
        lemma_enc_nodes_split(nodes, i + 1);
        assert(enc_nodes(nodes, i + 1) == enc_nodes(nodes, i) + enc_node(nodes[i]));
        assert(enc_nodes(nodes, i) + enc_node(nodes[i]) + enc_nodes_from(nodes, i + 1)
            =~= enc_nodes(nodes, i) + (enc_node(nodes[i]) + enc_nodes_from(nodes, i + 1)));
    }
}

/// Equivalent nodes have identical snapshot text.
pub(crate) proof fn lemma_enc_node_equiv(a: TrieNode, b: TrieNode)
    requires
        node_equiv(a, b),
    ensures
        enc_node(a) == enc_node(b),
{
    assert(enc_edges(a.edges@, a.edges@.len() as int) == enc_edges(b.edges@, b.edges@.len() as int));
}

/// Both halves of a concatenated prefix are pinned: the first half starts
/// where the whole does, the second starts right after it.
pub(crate) proof fn lemma_prefix_step(a: Seq<char>, b: Seq<char>, s: Seq<char>)
    requires
        (a + b).is_prefix_of(s),
    ensures
        a.is_prefix_of(s),
        b.is_prefix_of(s.skip(a.len() as int)),
{
    lemma_prefix_index(a + b, s);
    assert(a =~= s.subrange(0, a.len() as int)) by {
        assert forall|i: int| 0 <= i < a.len() implies a[i] == s[i] by {
            assert((a + b)[i] == a[i]);
        }
    }
    assert(b =~= s.skip(a.len() as int).subrange(0, b.len() as int)) by {
        assert forall|i: int| 0 <= i < b.len() implies b[i] == s.skip(a.len() as int)[i] by {
            assert((a + b)[a.len() + i] == b[i]);
        }
    }
}

/// The edge text of the first `j` edges and of the rest make the whole edge
/// text.
pub(crate) proof fn lemma_enc_edges_split(es: Seq<(char, usize)>, j: int)
    requires
        0 <= j <= es.len(),
    ensures
        enc_edges(es, es.len() as int) == enc_edges(es, j) + enc_edges_from(es, j),
    decreases es.len() - j,
{
    if j == es.len() {
        assert(enc_edges_from(es, j) =~= Seq::<char>::empty());
        assert(enc_edges(es, j) + Seq::<char>::empty() =~= enc_edges(es, j));
    } else {
        lemma_enc_edges_split(es, j + 1);
        assert(enc_edges(es, j + 1) == enc_edges(es, j) + seq![es[j].0] + enc_num(es[j].1 as nat));
        assert(enc_edges(es, j) + seq![es[j].0] + enc_num(es[j].1 as nat) + enc_edges_from(
            es,
            j + 1,
        ) =~= enc_edges(es, j) + (seq![es[j].0] + (enc_num(es[j].1 as nat) + enc_edges_from(
            es,
            j + 1,
        ))));
        assert(enc_edges_from(es, j) =~= seq![es[j].0] + (enc_num(es[j].1 as nat)
            + enc_edges_from(es, j + 1))) by {
            assert(enc_edges_from(es, j) == seq![es[j].0] + enc_num(es[j].1 as nat)
                + enc_edges_from(es, j + 1));
        }
    }
}

/// The node text of the first `i` nodes reads only those nodes.
pub(crate) proof fn lemma_enc_nodes_take(a: Seq<TrieNode>, b: Seq<TrieNode>, i: int)
    requires
        0 <= i <= a.len(),
        i <= b.len(),
        forall|x: int| 0 <= x < i ==> a[x] == b[x],
    ensures
        enc_nodes(a, i) == enc_nodes(b, i),
    decreases i,
{
    if i > 0 {
        lemma_enc_nodes_take(a, b, i - 1);
    }
}

/// Node-by-node equivalent arenas have the same snapshot text.
pub(crate) proof fn lemma_enc_nodes_equiv(a: Seq<TrieNode>, b: Seq<TrieNode>, i: int)
    requires
        0 <= i <= a.len(),
        i <= b.len(),
        forall|x: int| 0 <= x < i ==> node_equiv(#[trigger] a[x], b[x]),
    ensures
        enc_nodes(a, i) == enc_nodes(b, i),
    decreases i,
{
    if i > 0 {
        lemma_enc_nodes_equiv(a, b, i - 1);
        lemma_enc_node_equiv(a[i - 1], b[i - 1]);
    }
}

/// The edge text of the first `j` edges reads only those edges.
pub(crate) proof fn lemma_enc_edges_take(a: Seq<(char, usize)>, b: Seq<(char, usize)>, j: int)
    requires
        0 <= j <= a.len(),
        j <= b.len(),
        forall|x: int| 0 <= x < j ==> a[x] == b[x],
    ensures
        enc_edges(a, j) == enc_edges(b, j),
    decreases j,
{
    if j > 0 {
        lemma_enc_edges_take(a, b, j - 1);
    }
}

/// The snapshot text of a node, written with explicit grouping: one token
/// after another.
pub(crate) proof fn lemma_enc_node_shape(nd: TrieNode)
    ensures
        nd.word.is_some() ==> enc_node(nd) == enc_num(1) + (enc_num(node_word(nd).len())
            + (node_word(nd) + (enc_num(node_index(nd)) + (enc_num(nd.edges@.len())
            + enc_edges_from(nd.edges@, 0))))),
        nd.word.is_none() ==> enc_node(nd) == enc_num(0) + (enc_num(nd.edges@.len())
            + enc_edges_from(nd.edges@, 0)),
{
    lemma_enc_edges_split(nd.edges@, 0);
    assert(enc_edges(nd.edges@, 0) =~= Seq::<char>::empty());
    assert(Seq::<char>::empty() + enc_edges_from(nd.edges@, 0) =~= enc_edges_from(nd.edges@, 0));
    if nd.word.is_some() {
        assert(enc_node(nd) =~= enc_num(1) + (enc_num(node_word(nd).len()) + (node_word(nd)
            + (enc_num(node_index(nd)) + (enc_num(nd.edges@.len()) + enc_edges_from(
            nd.edges@,
            0,
        ))))));
    } else {
        assert(enc_node(nd) =~= enc_num(0) + (enc_num(nd.edges@.len()) + enc_edges_from(
            nd.edges@,
            0,
        )));
    }
}

/// Two edge lists whose records coincide from position `j` on, read against
/// the same text, are the same from `j` on.
pub(crate) proof fn lemma_edges_align(
    ea: Seq<(char, usize)>,
    eb: Seq<(char, usize)>,
    s: Seq<char>,
    j: int,
)
    requires
        0 <= j <= ea.len(),
        ea.len() == eb.len(),
        enc_edges_from(ea, j).is_prefix_of(s),
        enc_edges_from(eb, j).is_prefix_of(s),
    ensures
        forall|x: int| j <= x < ea.len() ==> ea[x] == eb[x],
    decreases ea.len() - j,
{
    if j < ea.len() {
        assert(enc_edges_from(ea, j) =~= seq![ea[j].0] + (enc_num(ea[j].1 as nat)
            + enc_edges_from(ea, j + 1))) by {
            assert(enc_edges_from(ea, j) == seq![ea[j].0] + enc_num(ea[j].1 as nat)
                + enc_edges_from(ea, j + 1));
        }
        assert(enc_edges_from(eb, j) =~= seq![eb[j].0] + (enc_num(eb[j].1 as nat)
            + enc_edges_from(eb, j + 1))) by {
            assert(enc_edges_from(eb, j) == seq![eb[j].0] + enc_num(eb[j].1 as nat)
                + enc_edges_from(eb, j + 1));
        }
        lemma_prefix_step(
            seq![ea[j].0],
            enc_num(ea[j].1 as nat) + enc_edges_from(ea, j + 1),
            s,
        );
        lemma_prefix_step(
            seq![eb[j].0],
            enc_num(eb[j].1 as nat) + enc_edges_from(eb, j + 1),
            s,
        );
        lemma_prefix_index(seq![ea[j].0], s);
        lemma_prefix_index(seq![eb[j].0], s);
        assert(ea[j].0 == s[0] && eb[j].0 == s[0]);
        let s1 = s.skip(1);
        lemma_prefix_step(enc_num(ea[j].1 as nat), enc_edges_from(ea, j + 1), s1);
        lemma_prefix_step(enc_num(eb[j].1 as nat), enc_edges_from(eb, j + 1), s1);
        lemma_enc_num_unique(ea[j].1 as nat, eb[j].1 as nat, s1);
        assert(ea[j] == eb[j]);
        let l = enc_num(ea[j].1 as nat).len() as int;
        lemma_skip_skip(s, 1, l);
        lemma_edges_align(ea, eb, s.skip(1 + l), j + 1);
    }
}

/// Two coherent node records read against the same text are records of
/// equivalent nodes: the snapshot text pins the node.
pub(crate) proof fn lemma_node_record_unique(a: TrieNode, b: TrieNode, s: Seq<char>)
    requires
        node_coherent(a),
        node_coherent(b),
        enc_node(a).is_prefix_of(s),
        enc_node(b).is_prefix_of(s),
    ensures
        node_equiv(a, b),
{
    lemma_enc_node_shape(a);
    lemma_enc_node_shape(b);
    let fa: nat = if a.word.is_some() {
        1
    } else {
        0
    };
    let fb: nat = if b.word.is_some() {
        1
    } else {
        0
    };
    let resta = if a.word.is_some() {
        enc_num(node_word(a).len()) + (node_word(a) + (enc_num(node_index(a)) + (enc_num(
            a.edges@.len(),
        ) + enc_edges_from(a.edges@, 0))))
    } else {
        enc_num(a.edges@.len()) + enc_edges_from(a.edges@, 0)
    };
    let restb = if b.word.is_some() {
        enc_num(node_word(b).len()) + (node_word(b) + (enc_num(node_index(b)) + (enc_num(
            b.edges@.len(),
        ) + enc_edges_from(b.edges@, 0))))
    } else {
        enc_num(b.edges@.len()) + enc_edges_from(b.edges@, 0)
    };
    lemma_prefix_step(enc_num(fa), resta, s);
    lemma_prefix_step(enc_num(fb), restb, s);
    lemma_enc_num_unique(fa, fb, s);
    assert(a.word.is_some() <==> b.word.is_some());
    let l0 = enc_num(fa).len() as int;
    let s1 = s.skip(l0);
    let ta: Seq<char>;
    if a.word.is_some() {
        lemma_prefix_step(
            enc_num(node_word(a).len()),
            node_word(a) + (enc_num(node_index(a)) + (enc_num(a.edges@.len()) + enc_edges_from(
                a.edges@,
                0,
            ))),
            s1,
        );
        lemma_prefix_step(
            enc_num(node_word(b).len()),
            node_word(b) + (enc_num(node_index(b)) + (enc_num(b.edges@.len()) + enc_edges_from(
                b.edges@,
                0,
            ))),
            s1,
        );
        lemma_enc_num_unique(node_word(a).len(), node_word(b).len(), s1);
        let l1 = enc_num(node_word(a).len()).len() as int;
        let s2 = s1.skip(l1);
        lemma_prefix_step(
            node_word(a),
            enc_num(node_index(a)) + (enc_num(a.edges@.len()) + enc_edges_from(a.edges@, 0)),
            s2,
        );
        lemma_prefix_step(
            node_word(b),
            enc_num(node_index(b)) + (enc_num(b.edges@.len()) + enc_edges_from(b.edges@, 0)),
            s2,
        );
        lemma_prefix_index(node_word(a), s2);
        lemma_prefix_index(node_word(b), s2);
        assert(node_word(a) =~= node_word(b));
        let l2 = node_word(a).len() as int;
        let s3 = s2.skip(l2);
        lemma_prefix_step(
            enc_num(node_index(a)),
            enc_num(a.edges@.len()) + enc_edges_from(a.edges@, 0),
            s3,
        );
        lemma_prefix_step(
            enc_num(node_index(b)),
            enc_num(b.edges@.len()) + enc_edges_from(b.edges@, 0),
            s3,
        );
        lemma_enc_num_unique(node_index(a), node_index(b), s3);
        assert(a.index == b.index) by {
            assert(a.index.is_some() && b.index.is_some());
            assert(node_index(a) == node_index(b));
        }
        let l3 = enc_num(node_index(a)).len() as int;
        ta = s3.skip(l3);
    } else {
        assert(a.index.is_none() && b.index.is_none());
        ta = s1;
    }
    assert((enc_num(a.edges@.len()) + enc_edges_from(a.edges@, 0)).is_prefix_of(ta));
    assert((enc_num(b.edges@.len()) + enc_edges_from(b.edges@, 0)).is_prefix_of(ta));
    lemma_prefix_step(enc_num(a.edges@.len()), enc_edges_from(a.edges@, 0), ta);
    lemma_prefix_step(enc_num(b.edges@.len()), enc_edges_from(b.edges@, 0), ta);
    lemma_enc_num_unique(a.edges@.len(), b.edges@.len(), ta);
    let l4 = enc_num(a.edges@.len()).len() as int;
    lemma_edges_align(a.edges@, b.edges@, ta.skip(l4), 0);
    assert(a.edges@ =~= b.edges@);
}

/// A successful walk visits strictly increasing arena positions, so a stored
/// string is shorter than the arena.
pub(crate) proof fn lemma_desc_len_bound(nodes: Seq<TrieNode>, i: int, s: Seq<char>)
    requires
        edges_in_range(nodes),
        0 <= i < nodes.len(),
        desc(nodes, i, s).is_some(),
    ensures
        i + s.len() <= desc(nodes, i, s)->0 < nodes.len(),
    decreases s.len(),
{
    if s.len() > 0 {
        match edge_lookup(nodes[i].edges@, s[0]) {
            Some(t) => {
                lemma_edge_lookup_index(nodes[i].edges@, s[0]);
                lemma_desc_len_bound(nodes, t as int, s.drop_first());
            },
            None => {},
        }
    }
}

/// Well-formedness carries across node-by-node equivalence: the snapshot
/// reader may rebuild the arena from equivalent parts.
pub(crate) proof fn lemma_wf_transfer(a: Seq<TrieNode>, b: Seq<TrieNode>, ctr: nat)
    requires
        a.len() == b.len(),
        forall|x: int| 0 <= x < a.len() ==> node_equiv(#[trigger] a[x], b[x]),
        arena_wf(a),
        terminals_wf(a, ctr),
    ensures
        arena_wf(b),
        terminals_wf(b, ctr),
{
    assert forall|x: int, ss: Seq<char>| #[trigger] desc(b, x, ss) == desc(a, x, ss) by {
        lemma_desc_same_edges(a, b, x, ss);
    }
    assert(edges_in_range(b)) by {
        assert forall|i: int, j: int|
            0 <= i < b.len() && 0 <= j < b[i].edges@.len() implies i < (
        #[trigger] b[i].edges@[j]).1 < b.len() by {
            assert(b[i].edges@ == a[i].edges@);
        }
    }
    assert(edge_chars_distinct(b)) by {
        assert forall|i: int, j1: int, j2: int|
            0 <= i < b.len() && 0 <= j1 < j2 < b[i].edges@.len() implies (
        #[trigger] b[i].edges@[j1]).0 != (#[trigger] b[i].edges@[j2]).0 by {
            assert(b[i].edges@ == a[i].edges@);
        }
    }
    assert(targets_unique(b)) by {
        assert forall|i: int, j: int|
            0 <= i < b.len() && 0 <= j < b[i].edges@.len() implies (#[trigger] b[i].edges@[j]).1
            != 0 by {
            assert(b[i].edges@ == a[i].edges@);
        }
        assert forall|i1: int, j1: int, i2: int, j2: int|
            0 <= i1 < b.len() && 0 <= j1 < b[i1].edges@.len() && 0 <= i2 < b.len() && 0 <= j2
                < b[i2].edges@.len() && !(i1 == i2 && j1 == j2) implies (
        #[trigger] b[i1].edges@[j1]).1 != (#[trigger] b[i2].edges@[j2]).1 by {
            assert(node_equiv(a[i1], b[i1]));
            assert(node_equiv(a[i2], b[i2]));
            assert(a[i1].edges@[j1] == b[i1].edges@[j1]);
            assert(a[i2].edges@[j2] == b[i2].edges@[j2]);
        }
    }
    assert(terminals_wf(b, ctr)) by {
        assert forall|i: int|
            0 <= i < b.len() implies ((#[trigger] b[i]).word.is_some() <==> b[i].index.is_some()) by {
            assert(node_equiv(a[i], b[i]));
        }
        assert forall|i: int| 0 <= i < b.len() && (#[trigger] b[i]).word.is_some() implies desc(
            b,
            0,
            node_word(b[i]),
        ) == Some(i) by {
            assert(node_equiv(a[i], b[i]));
            assert(node_word(b[i]) == node_word(a[i]));
        }
        assert forall|i: int|
            0 <= i < b.len() && (#[trigger] b[i]).index.is_some() implies node_index(b[i])
            < ctr by {
            assert(node_equiv(a[i], b[i]));
        }
        assert forall|i1: int, i2: int|
            0 <= i1 < b.len() && 0 <= i2 < b.len() && i1 != i2 && (#[trigger] b[i1]).index.is_some()
                && (#[trigger] b[i2]).index.is_some() implies node_index(b[i1]) != node_index(
            b[i2],
        ) by {
            assert(node_equiv(a[i1], b[i1]));
            assert(node_equiv(a[i2], b[i2]));
        }
    }
}

/// Arenas of equal length whose node records coincide from position `i` on,
/// read against the same text, hold equivalent nodes from `i` on.
pub(crate) proof fn lemma_nodes_align(a: Seq<TrieNode>, b: Seq<TrieNode>, s: Seq<char>, i: int)
    requires
        0 <= i <= a.len(),
        a.len() == b.len(),
        forall|x: int| 0 <= x < a.len() ==> node_coherent(#[trigger] a[x]),
        forall|x: int| 0 <= x < b.len() ==> node_coherent(#[trigger] b[x]),
        enc_nodes_from(a, i).is_prefix_of(s),
        enc_nodes_from(b, i).is_prefix_of(s),
    ensures
        forall|x: int| i <= x < a.len() ==> node_equiv(#[trigger] a[x], b[x]),
    decreases a.len() - i,
{
    if i < a.len() {
        assert(enc_nodes_from(a, i) == enc_node(a[i]) + enc_nodes_from(a, i + 1));
        assert(enc_nodes_from(b, i) == enc_node(b[i]) + enc_nodes_from(b, i + 1));
        lemma_prefix_step(enc_node(a[i]), enc_nodes_from(a, i + 1), s);
        lemma_prefix_step(enc_node(b[i]), enc_nodes_from(b, i + 1), s);
        lemma_node_record_unique(a[i], b[i], s);
        lemma_enc_node_equiv(a[i], b[i]);
        let l = enc_node(a[i]).len() as int;
        lemma_nodes_align(a, b, s.skip(l), i + 1);
    }
}

/// The snapshot pins the trie: two well-formed tries with the same snapshot
/// text store exactly the same strings, under the same insertion indices and
/// the same counter. Together with the contracts of `encode` and `decode`
/// this is the round trip: decoding a saved snapshot restores a trie whose
/// recall behaviour — `search_all` on any prefix, the empty one included —
/// is identical in content and order.
pub proof fn lemma_snapshot_determines_trie(t1: &Trie, t2: &Trie)
    requires
        t1.wf(),
        t2.wf(),
        t1.spec_encode() == t2.spec_encode(),
    ensures
        t1.next_index() == t2.next_index(),
        forall|v: Seq<char>| #[trigger] t1.contains_word(v) == t2.contains_word(v),
        forall|v: Seq<char>|
            #[trigger] t1.contains_word(v) ==> t1.index_of(v) == t2.index_of(v),
{
    let sv = t1.spec_encode();
    lemma_enc_nodes_split(t1.nodes@, 0);
    lemma_enc_nodes_split(t2.nodes@, 0);
    assert(enc_nodes(t1.nodes@, 0) =~= Seq::<char>::empty());
    assert(enc_nodes(t2.nodes@, 0) =~= Seq::<char>::empty());
    assert(Seq::<char>::empty() + enc_nodes_from(t1.nodes@, 0) =~= enc_nodes_from(t1.nodes@, 0));
    assert(Seq::<char>::empty() + enc_nodes_from(t2.nodes@, 0) =~= enc_nodes_from(t2.nodes@, 0));
    let rest1 = enc_num(t1.nodes@.len()) + enc_nodes_from(t1.nodes@, 0);
    let rest2 = enc_num(t2.nodes@.len()) + enc_nodes_from(t2.nodes@, 0);
    assert(sv =~= enc_num(t1.index as nat) + rest1);
    assert(sv =~= enc_num(t2.index as nat) + rest2);
    assert((enc_num(t1.index as nat) + rest1).is_prefix_of(sv) && (enc_num(t2.index as nat)
        + rest2).is_prefix_of(sv)) by {
        assert(sv.subrange(0, sv.len() as int) =~= sv);
    }
    lemma_prefix_step(enc_num(t1.index as nat), rest1, sv);
    lemma_prefix_step(enc_num(t2.index as nat), rest2, sv);
    lemma_enc_num_unique(t1.index as nat, t2.index as nat, sv);
    let l0 = enc_num(t1.index as nat).len() as int;
    let s1 = sv.skip(l0);
    lemma_prefix_step(enc_num(t1.nodes@.len()), enc_nodes_from(t1.nodes@, 0), s1);
    lemma_prefix_step(enc_num(t2.nodes@.len()), enc_nodes_from(t2.nodes@, 0), s1);
    lemma_enc_num_unique(t1.nodes@.len(), t2.nodes@.len(), s1);
    let l1 = enc_num(t1.nodes@.len()).len() as int;
    lemma_nodes_align(t1.nodes@, t2.nodes@, s1.skip(l1), 0);
    assert forall|x: int, ss: Seq<char>| #[trigger] desc(t2.nodes@, x, ss) == desc(
        t1.nodes@,
        x,
        ss,
    ) by {
        assert forall|x2: int|
            0 <= x2 < t1.nodes@.len() implies (#[trigger] t2.nodes@[x2]).edges@
            == t1.nodes@[x2].edges@ by {
            assert(node_equiv(t1.nodes@[x2], t2.nodes@[x2]));
        }
        lemma_desc_same_edges(t1.nodes@, t2.nodes@, x, ss);
    }
    assert forall|v: Seq<char>| #[trigger] t1.contains_word(v) == t2.contains_word(v) by {
        match desc(t1.nodes@, 0, v) {
            Some(k) => {
                if 0 <= k < t1.nodes@.len() {
                    assert(node_equiv(t1.nodes@[k], t2.nodes@[k]));
                }
            },
            None => {},
        }
    }
    assert forall|v: Seq<char>| #[trigger] t1.contains_word(v) implies t1.index_of(v)
        == t2.index_of(v) by {
        let k = desc(t1.nodes@, 0, v)->0;
        assert(node_equiv(t1.nodes@[k], t2.nodes@[k]));
    }
}

/// Every stored string has an insertion index below the counter: indices are
/// never reused.
pub proof fn lemma_index_below_counter(t: &Trie, v: Seq<char>)
    requires
        t.wf(),
        t.contains_word(v),
    ensures
        t.index_of(v) < t.next_index(),
{
}

/// The string inserted last — the one whose index is the newest — follows
/// every other stored string in recall order. Together with `insert`, this
/// says that re-inserting a stored string moves it to the end of the order
/// returned by `search_all`.
pub proof fn lemma_newest_insert_is_last(t: &Trie, w: Seq<char>)
    requires
        t.wf(),
        t.contains_word(w),
        t.index_of(w) + 1 == t.next_index(),
    ensures
        forall|v: Seq<char>|
            #[trigger] t.contains_word(v) && v != w ==> t.index_of(v) < t.index_of(w),
{
    assert forall|v: Seq<char>| #[trigger] t.contains_word(v) && v != w implies t.index_of(v)
        < t.index_of(w) by {
        lemma_index_below_counter(t, v);
        lemma_index_of_injective(t, v, w);
    }
}

/// The first edge labelled `c` out of node `at` of the arena.
fn find_edge_at(nodes: &Vec<TrieNode>, at: usize, c: char) -> (r: Option<usize>)
    requires
        at < nodes@.len(),
    ensures
        r == edge_lookup(nodes@[at as int].edges@, c),
{
    let edges = &nodes[at].edges;
    let ghost es = edges@;
    proof {
        assert(es.skip(0) =~= es);
    }
    let mut j: usize = 0;
    while j < edges.len()
        invariant
            es == edges@,
            edges@ == nodes@[at as int].edges@,
            j <= es.len(),
            edge_lookup(es, c) == edge_lookup(es.skip(j as int), c),
        decreases es.len() - j,
    {
        let (ec, et) = edges[j];
        if ec == c {
            proof {
                assert(es.skip(j as int)[0] == es[j as int]);
            }
            return Some(et);
        }
        proof {
            assert(es.skip(j as int).drop_first() =~= es.skip(j + 1 as int));
        }
        j = j + 1;
    }
    proof {
        assert(es.skip(es.len() as int).len() == 0);
    }
    None
}

/// The node an arbitrary arena's path for `w` arrives at, if any.
fn locate(nodes: &Vec<TrieNode>, w: &Vec<char>) -> (r: Option<usize>)
    requires
        edges_in_range(nodes@),
        nodes@.len() >= 1,
    ensures
        (r.is_some() <==> desc(nodes@, 0, w@).is_some()),
        r.is_some() ==> r->0 as int == desc(nodes@, 0, w@)->0,
{
    let mut cur: usize = 0;
    let mut k: usize = 0;
    while k < w.len()
        invariant
            edges_in_range(nodes@),
            nodes@.len() >= 1,
            k <= w@.len(),
            cur < nodes@.len(),
            desc(nodes@, 0, w@.take(k as int)) == Some(cur as int),
        decreases w@.len() - k,
    {
        proof {
            lemma_desc_snoc(nodes@, 0, w@.take(k as int), w@[k as int]);
            assert(w@.take(k as int).push(w@[k as int]) =~= w@.take(k + 1 as int));
        }
        match find_edge_at(nodes, cur, w[k]) {
            Some(t) => {
                proof {
                    lemma_edge_lookup_index(nodes@[cur as int].edges@, w@[k as int]);
                }
                cur = t;
            },
            None => {
                proof {
                    lemma_desc_extend_none(nodes@, w@, k + 1 as int);
                }
                return None;
            },
        }
        k = k + 1;
    }
    proof {
        assert(w@.take(w@.len() as int) =~= w@);
    }
    Some(cur)
}

/// Decides exactly whether an arena's edges stay in range, point forward, and
/// carry distinct characters per node.
fn check_edges(nodes: &Vec<TrieNode>) -> (b: bool)
    ensures
        b == (edges_in_range(nodes@) && edge_chars_distinct(nodes@)),
{
    let n = nodes.len();
    let mut i: usize = 0;
    while i < n
        invariant
            n == nodes@.len(),
            i <= n,
            forall|x: int, j: int|
                0 <= x < i && 0 <= j < nodes@[x].edges@.len() ==> x < (
                #[trigger] nodes@[x].edges@[j]).1 < nodes@.len(),
            forall|x: int, j1: int, j2: int|
                0 <= x < i && 0 <= j1 < j2 < nodes@[x].edges@.len() ==> (
                #[trigger] nodes@[x].edges@[j1]).0 != (#[trigger] nodes@[x].edges@[j2]).0,
        decreases n - i,
    {
        let m = nodes[i].edges.len();
        let mut j: usize = 0;
        while j < m
            invariant
                n == nodes@.len(),
                i < n,
                m == nodes@[i as int].edges@.len(),
                j <= m,
                forall|jj: int|
                    0 <= jj < j ==> i < (#[trigger] nodes@[i as int].edges@[jj]).1 < nodes@.len(),
            decreases m - j,
        {
            let (_, t) = nodes[i].edges[j];
            if t <= i || t >= n {
                proof {
                    let tv = (nodes@[i as int].edges@[j as int]).1 as int;
                    assert(!((i as int) < tv && tv < nodes@.len()));
                }
                return false;
            }
            j = j + 1;
        }
        let mut j1: usize = 0;
        while j1 < m
            invariant
                n == nodes@.len(),
                i < n,
                m == nodes@[i as int].edges@.len(),
                j1 <= m,
                forall|x1: int, x2: int|
                    0 <= x1 < j1 && x1 < x2 < m ==> (#[trigger] nodes@[i as int].edges@[x1]).0 != (
                    #[trigger] nodes@[i as int].edges@[x2]).0,
            decreases m - j1,
        {
            let mut j2: usize = j1 + 1;
            while j2 < m
                invariant
                    n == nodes@.len(),
                    i < n,
                    m == nodes@[i as int].edges@.len(),
                    j1 < j2 <= m || (j1 + 1 == j2 && j2 > m),
                    j1 < m,
                    forall|x2: int|
                        j1 < x2 < j2 ==> (#[trigger] nodes@[i as int].edges@[x2]).0 != nodes@[i as int].edges@[j1 as int].0,
                decreases m - j2,
            {
                let (c1, _) = nodes[i].edges[j1];
                let (c2, _) = nodes[i].edges[j2];
                if c1 == c2 {
                    return false;
                }
                j2 = j2 + 1;
            }
            j1 = j1 + 1;
        }
        i = i + 1;
    }
    true
}

/// Whether some edge strictly after position (`i0`, `j0`) — in node order,
/// then edge order — carries target `t`.
pub(crate) open spec fn target_reused_after(
    nodes: Seq<TrieNode>,
    i0: int,
    j0: int,
    t: usize,
) -> bool {
    exists|i2: int, j2: int|
        0 <= i2 < nodes.len() && 0 <= j2 < nodes[i2].edges@.len() && (i2 > i0 || (i2 == i0 && j2
            > j0)) && (#[trigger] nodes[i2].edges@[j2]).1 == t
}

/// Decides exactly whether any edge strictly after (`i0`, `j0`) carries
/// target `t`.
fn find_target_after(nodes: &Vec<TrieNode>, i0: usize, j0: usize, t: usize) -> (b: bool)
    requires
        i0 < nodes@.len(),
        j0 < usize::MAX,
    ensures
        b == target_reused_after(nodes@, i0 as int, j0 as int, t),
{
    let n = nodes.len();
    let mut i: usize = i0;
    let mut j: usize = j0 + 1;
    while i < n
        invariant
            n == nodes@.len(),
            i0 <= i <= n,
            i == i0 ==> j == j0 + 1,
            i > i0 ==> j == 0,
            forall|i2: int, j2: int|
                0 <= i2 < i && 0 <= j2 < nodes@[i2].edges@.len() && (i2 > i0 || (i2 == i0 && j2
                    > j0)) ==> (#[trigger] nodes@[i2].edges@[j2]).1 != t,
        decreases n - i,
    {
        let m = nodes[i].edges.len();
        let mut jj: usize = j;
        while jj < m
            invariant
                n == nodes@.len(),
                i < n,
                i0 < n,
                i >= i0,
                m == nodes@[i as int].edges@.len(),
                i as int > i0 || (i as int == i0 && jj > j0),
                forall|i2: int, j2: int|
                    0 <= i2 < i && 0 <= j2 < nodes@[i2].edges@.len() && (i2 > i0 || (i2 == i0 && j2
                        > j0)) ==> (#[trigger] nodes@[i2].edges@[j2]).1 != t,
                forall|j2: int|
                    0 <= j2 < jj && j2 < m && (i as int > i0 || (i as int == i0 && j2 > j0)) ==> (
                    #[trigger] nodes@[i as int].edges@[j2]).1 != t,
            decreases m - jj,
        {
            let (_, t2) = nodes[i].edges[jj];
            if t2 == t {
                proof {
                    assert((nodes@[i as int].edges@[jj as int]).1 == t);
                    assert(target_reused_after(nodes@, i0 as int, j0 as int, t));
                }
                return true;
            }
            jj = jj + 1;
        }
        i = i + 1;
        j = 0;
    }
    false
}

/// Decides exactly whether every node but the root has exactly one incoming
/// edge and the root has none.
fn check_targets(nodes: &Vec<TrieNode>) -> (b: bool)
    ensures
        b == targets_unique(nodes@),
{
    let n = nodes.len();
    let mut i: usize = 0;
    while i < n
        invariant
            n == nodes@.len(),
            i <= n,
            forall|i1: int, j1: int|
                0 <= i1 < i && 0 <= j1 < nodes@[i1].edges@.len() ==> (
                #[trigger] nodes@[i1].edges@[j1]).1 != 0 && !target_reused_after(
                    nodes@,
                    i1,
                    j1,
                    nodes@[i1].edges@[j1].1,
                ),
        decreases n - i,
    {
        let m = nodes[i].edges.len();
        let mut j: usize = 0;
        while j < m
            invariant
                n == nodes@.len(),
                i < n,
                m == nodes@[i as int].edges@.len(),
                j <= m,
                forall|i1: int, j1: int|
                    0 <= i1 < i && 0 <= j1 < nodes@[i1].edges@.len() ==> (
                    #[trigger] nodes@[i1].edges@[j1]).1 != 0 && !target_reused_after(
                        nodes@,
                        i1,
                        j1,
                        nodes@[i1].edges@[j1].1,
                    ),
                forall|j1: int|
                    0 <= j1 < j ==> (#[trigger] nodes@[i as int].edges@[j1]).1 != 0
                        && !target_reused_after(
                        nodes@,
                        i as int,
                        j1,
                        nodes@[i as int].edges@[j1].1,
                    ),
            decreases m - j,
        {
            let (_, t) = nodes[i].edges[j];
            if t == 0 {
                proof {
                    assert((nodes@[i as int].edges@[j as int]).1 == 0);
                }
                return false;
            }
            if find_target_after(nodes, i, j, t) {
                proof {
                    let (i2, j2) = choose|i2: int, j2: int|
                        0 <= i2 < nodes@.len() && 0 <= j2 < nodes@[i2].edges@.len() && (i2 > i as int
                            || (i2 == i as int && j2 > j as int)) && (
                        #[trigger] nodes@[i2].edges@[j2]).1 == t;
                    assert((nodes@[i as int].edges@[j as int]).1 == (nodes@[i2].edges@[j2]).1);
                    assert(!(i as int == i2 && j as int == j2));
                    assert(!targets_unique(nodes@));
                }
                return false;
            }
            j = j + 1;
        }
        i = i + 1;
    }
    proof {
        assert forall|i1: int, j1: int, i2: int, j2: int|
            0 <= i1 < nodes@.len() && 0 <= j1 < nodes@[i1].edges@.len() && 0 <= i2 < nodes@.len()
                && 0 <= j2 < nodes@[i2].edges@.len() && !(i1 == i2 && j1 == j2) implies (
        #[trigger] nodes@[i1].edges@[j1]).1 != (#[trigger] nodes@[i2].edges@[j2]).1 by {
            if i1 < i2 || (i1 == i2 && j1 < j2) {
                assert(!target_reused_after(nodes@, i1, j1, nodes@[i1].edges@[j1].1));
                if (nodes@[i1].edges@[j1]).1 == (nodes@[i2].edges@[j2]).1 {
                    assert(target_reused_after(nodes@, i1, j1, nodes@[i1].edges@[j1].1));
                }
            } else {
                assert(!target_reused_after(nodes@, i2, j2, nodes@[i2].edges@[j2].1));
                if (nodes@[i1].edges@[j1]).1 == (nodes@[i2].edges@[j2]).1 {
                    assert(target_reused_after(nodes@, i2, j2, nodes@[i2].edges@[j2].1));
                }
            }
        }
    }
    true
}

/// The bookkeeping of terminal nodes apart from their paths: a stored string
/// and a stored index come together, indices are below the counter and
/// pairwise distinct.
pub(crate) open spec fn terminal_records_ok(nodes: Seq<TrieNode>, counter: nat) -> bool {
    &&& forall|i: int|
        0 <= i < nodes.len() ==> ((#[trigger] nodes[i]).word.is_some() <==> nodes[i].index.is_some())
    &&& forall|i: int|
        0 <= i < nodes.len() && (#[trigger] nodes[i]).index.is_some() ==> node_index(nodes[i])
            < counter
    &&& forall|i1: int, i2: int|
        0 <= i1 < nodes.len() && 0 <= i2 < nodes.len() && i1 != i2 && (
        #[trigger] nodes[i1]).index.is_some() && (#[trigger] nodes[i2]).index.is_some()
            ==> node_index(nodes[i1]) != node_index(nodes[i2])
}

/// Decides exactly whether stored strings and indices are coherent, below the
/// counter, and pairwise distinct.
fn check_terminals(nodes: &Vec<TrieNode>, ctr: usize) -> (b: bool)
    ensures
        b == terminal_records_ok(nodes@, ctr as nat),
{
    let n = nodes.len();
    let mut i: usize = 0;
    while i < n
        invariant
            n == nodes@.len(),
            i <= n,
            forall|x: int|
                0 <= x < i ==> ((#[trigger] nodes@[x]).word.is_some() <==> nodes@[x].index.is_some()),
            forall|x: int|
                0 <= x < i && (#[trigger] nodes@[x]).index.is_some() ==> node_index(nodes@[x])
                    < ctr as nat,
            forall|x1: int, x2: int|
                0 <= x1 < x2 < i && (#[trigger] nodes@[x1]).index.is_some() && (
                #[trigger] nodes@[x2]).index.is_some() ==> node_index(nodes@[x1]) != node_index(
                    nodes@[x2],
                ),
        decreases n - i,
    {
        if nodes[i].word.is_some() != nodes[i].index.is_some() {
            return false;
        }
        match nodes[i].index {
            Some(v) => {
                if v >= ctr {
                    return false;
                }
                let mut x: usize = 0;
                while x < i
                    invariant
                        n == nodes@.len(),
                        i < n,
                        x <= i,
                        nodes@[i as int].index == Some(v),
                        forall|x1: int|
                            0 <= x1 < x && (#[trigger] nodes@[x1]).index.is_some() ==> node_index(
                                nodes@[x1],
                            ) != v as nat,
                    decreases i - x,
                {
                    match nodes[x].index {
                        Some(v2) => {
                            if v2 == v {
                                return false;
                            }
                        },
                        None => {},
                    }
                    x = x + 1;
                }
            },
            None => {},
        }
        i = i + 1;
    }
    true
}

/// Whether every stored string spells the path from the root to its node.
pub(crate) open spec fn words_paths_ok(nodes: Seq<TrieNode>) -> bool {
    forall|i: int|
        0 <= i < nodes.len() && (#[trigger] nodes[i]).word.is_some() ==> desc(
            nodes,
            0,
            node_word(nodes[i]),
        ) == Some(i)
}

/// Decides exactly whether every stored string spells the path to its node.
fn check_words(nodes: &Vec<TrieNode>) -> (b: bool)
    requires
        edges_in_range(nodes@),
        nodes@.len() >= 1,
    ensures
        b == words_paths_ok(nodes@),
{
    let n = nodes.len();
    let mut i: usize = 0;
    while i < n
        invariant
            n == nodes@.len(),
            nodes@.len() >= 1,
            edges_in_range(nodes@),
            i <= n,
            forall|x: int|
                0 <= x < i && (#[trigger] nodes@[x]).word.is_some() ==> desc(
                    nodes@,
                    0,
                    node_word(nodes@[x]),
                ) == Some(x),
        decreases n - i,
    {
        let found = match &nodes[i].word {
            Some(w) => {
                let chars = str_to_chars(w.as_str());
                match locate(nodes, &chars) {
                    Some(at) => at == i,
                    None => false,
                }
            },
            None => true,
        };
        if !found {
            return false;
        }
        i = i + 1;
    }
    true
}

/// Whether some entry of `entries` carries exactly the string `v`.
pub(crate) open spec fn has_word(entries: Seq<(usize, String)>, v: Seq<char>) -> bool {
    exists|e: int| 0 <= e < entries.len() && (#[trigger] entries[e]).1@ == v
}

/// Two entries agreeing on index and characters.
pub(crate) open spec fn same_entry(a: (usize, String), b: (usize, String)) -> bool {
    a.0 == b.0 && a.1@ == b.1@
}

/// Whether some entry of `entries` agrees with `b`.
pub(crate) open spec fn has_entry(entries: Seq<(usize, String)>, b: (usize, String)) -> bool {
    exists|e: int| 0 <= e < entries.len() && same_entry(#[trigger] entries[e], b)
}

/// Reorders index/string entries by ascending index. The entries must carry
/// pairwise distinct indices; none is added, dropped or changed.
fn sort_entries(entries: Vec<(usize, String)>) -> (out: Vec<(usize, String)>)
    requires
        forall|e1: int, e2: int|
            0 <= e1 < e2 < entries@.len() ==> (#[trigger] entries@[e1]).0 != (
            #[trigger] entries@[e2]).0,
    ensures
        out@.len() == entries@.len(),
        forall|e: int| 0 <= e < out@.len() ==> has_entry(entries@, #[trigger] out@[e]),
        forall|e: int| 0 <= e < entries@.len() ==> has_entry(out@, #[trigger] entries@[e]),
        forall|e1: int, e2: int|
            0 <= e1 < e2 < out@.len() ==> (#[trigger] out@[e1]).0 < (#[trigger] out@[e2]).0,
{
    let ghost orig = entries@;
    let mut rest = entries;
    let mut out: Vec<(usize, String)> = Vec::new();
    proof {
        assert forall|e: int| 0 <= e < orig.len() implies has_entry(rest@, #[trigger] orig[e]) by {
            assert(same_entry(rest@[e], orig[e]));
        }
        assert forall|e: int| 0 <= e < rest@.len() implies has_entry(orig, #[trigger] rest@[e]) by {
            assert(same_entry(orig[e], rest@[e]));
        }
    }
    while rest.len() > 0
        invariant
            out@.len() + rest@.len() == orig.len(),
            forall|e1: int, e2: int|
                0 <= e1 < e2 < rest@.len() ==> (#[trigger] rest@[e1]).0 != (
                #[trigger] rest@[e2]).0,
            forall|e1: int, e2: int|
                0 <= e1 < e2 < out@.len() ==> (#[trigger] out@[e1]).0 < (#[trigger] out@[e2]).0,
            forall|e1: int, e2: int|
                0 <= e1 < out@.len() && 0 <= e2 < rest@.len() ==> (#[trigger] out@[e1]).0 < (
                #[trigger] rest@[e2]).0,
            forall|e: int| 0 <= e < out@.len() ==> has_entry(orig, #[trigger] out@[e]),
            forall|e: int| 0 <= e < rest@.len() ==> has_entry(orig, #[trigger] rest@[e]),
            forall|e: int|
                0 <= e < orig.len() ==> has_entry(out@, #[trigger] orig[e]) || has_entry(
                    rest@,
                    orig[e],
                ),
        decreases rest@.len(),
    {
        let mut best: usize = 0;
        let mut i: usize = 1;
        while i < rest.len()
            invariant
                rest@.len() > 0,
                best < i <= rest@.len(),
                forall|x: int| 0 <= x < i ==> (#[trigger] rest@[x]).0 >= rest@[best as int].0,
            decreases rest@.len() - i,
        {
            if rest[i].0 < rest[best].0 {
                best = i;
            }
            i = i + 1;
        }
        let ghost old_rest = rest@;
        let ghost old_out = out@;
        let picked = rest.remove(best);
        out.push(picked);
        proof {
            let b = best as int;
            assert(picked == old_rest[b]);
            assert(rest@ == old_rest.remove(b));
            assert(out@ == old_out.push(picked));
            assert forall|e2: int| 0 <= e2 < rest@.len() implies picked.0 < (
            #[trigger] rest@[e2]).0 by {
                if e2 < b {
                    assert(rest@[e2] == old_rest[e2]);
                } else {
                    assert(rest@[e2] == old_rest[e2 + 1]);
                }
            }
            assert forall|e1: int, e2: int| 0 <= e1 < e2 < rest@.len() implies (
            #[trigger] rest@[e1]).0 != (#[trigger] rest@[e2]).0 by {
                let x1: int = if e1 < b {
                    e1
                } else {
                    e1 + 1
                };
                let x2: int = if e2 < b {
                    e2
                } else {
                    e2 + 1
                };
                assert(rest@[e1] == old_rest[x1] && rest@[e2] == old_rest[x2]);
            }
            assert forall|e: int| 0 <= e < rest@.len() implies has_entry(
                orig,
                #[trigger] rest@[e],
            ) by {
                if e < b {
                    assert(rest@[e] == old_rest[e]);
                } else {
                    assert(rest@[e] == old_rest[e + 1]);
                }
            }
            assert forall|e: int|
                0 <= e < orig.len() implies has_entry(out@, #[trigger] orig[e]) || has_entry(
                rest@,
                orig[e],
            ) by {
                if has_entry(old_out, orig[e]) {
                    let x = choose|x: int|
                        0 <= x < old_out.len() && same_entry(#[trigger] old_out[x], orig[e]);
                    assert(same_entry(out@[x], orig[e]));
                } else {
                    let x = choose|x: int|
                        0 <= x < old_rest.len() && same_entry(#[trigger] old_rest[x], orig[e]);
                    if x == b {
                        assert(same_entry(out@[out@.len() - 1], orig[e]));
                    } else if x < b {
                        assert(same_entry(rest@[x], orig[e]));
                    } else {
                        assert(same_entry(rest@[x - 1], orig[e]));
                    }
                }
            }
        }
    }
    out
}

/// A successful lookup names one of the node's edges.
pub(crate) proof fn lemma_edge_lookup_index(edges: Seq<(char, usize)>, c: char)
    requires
        edge_lookup(edges, c).is_some(),
    ensures
        exists|j: int|
            0 <= j < edges.len() && #[trigger] edges[j] == (c, edge_lookup(edges, c).unwrap()),
    decreases edges.len(),
{
    if edges.len() > 0 {
        if edges[0].0 == c {
            assert(edges[0] == (c, edge_lookup(edges, c).unwrap()));
        } else {
            lemma_edge_lookup_index(edges.drop_first(), c);
            let j = choose|j: int|
                0 <= j < edges.drop_first().len() && #[trigger] edges.drop_first()[j] == (
                c,
                edge_lookup(edges.drop_first(), c).unwrap(),
            );
            assert(edges[j + 1] == edges.drop_first()[j]);
        }
    }
}

/// Walking one more character from the end of a path takes one edge step from
/// the node the path reaches.
pub(crate) proof fn lemma_desc_snoc(nodes: Seq<TrieNode>, i: int, s: Seq<char>, c: char)
    ensures
        desc(nodes, i, s.push(c)) == (match desc(nodes, i, s) {
            Some(m) => {
                if 0 <= m < nodes.len() {
                    match edge_lookup(nodes[m].edges@, c) {
                        Some(t) => Some(t as int),
                        None => None::<int>,
                    }
                } else {
                    None::<int>
                }
            },
            None => None::<int>,
        }),
    decreases s.len(),
{
    if s.len() == 0 {
        assert(s.push(c)[0] == c);
        assert(s.push(c).drop_first() =~= Seq::<char>::empty());
        if 0 <= i < nodes.len() {
            match edge_lookup(nodes[i].edges@, c) {
                Some(t) => {
                    assert(desc(nodes, i, s.push(c)) == desc(
                        nodes,
                        t as int,
                        s.push(c).drop_first(),
                    ));
                    assert(desc(nodes, t as int, Seq::<char>::empty()) == Some(t as int));
                },
                None => {},
            }
        }
    } else {
        assert(s.push(c)[0] == s[0]);
        assert(s.push(c).drop_first() =~= s.drop_first().push(c));
        if 0 <= i < nodes.len() {
            match edge_lookup(nodes[i].edges@, s[0]) {
                Some(t) => {
                    lemma_desc_snoc(nodes, t as int, s.drop_first(), c);
                },
                None => {},
            }
        }
    }
}

/// Once a path has failed, every extension of it fails: if the first `k`
/// characters of `w` do not continue, `w` itself is unreachable.
pub(crate) proof fn lemma_desc_extend_none(nodes: Seq<TrieNode>, w: Seq<char>, k: int)
    requires
        0 <= k <= w.len(),
        desc(nodes, 0, w.take(k)) == None::<int>,
    ensures
        desc(nodes, 0, w) == None::<int>,
    decreases w.len() - k,
{
    if k < w.len() {
        lemma_desc_snoc(nodes, 0, w.take(k), w[k]);
        assert(w.take(k).push(w[k]) =~= w.take(k + 1));
        lemma_desc_extend_none(nodes, w, k + 1);
    } else {
        assert(w.take(k) =~= w);
    }
}

/// A failed lookup means no edge carries the character.
pub(crate) proof fn lemma_edge_lookup_none(edges: Seq<(char, usize)>, c: char)
    requires
        edge_lookup(edges, c).is_none(),
    ensures
        forall|j: int| 0 <= j < edges.len() ==> (#[trigger] edges[j]).0 != c,
    decreases edges.len(),
{
    if edges.len() > 0 {
        lemma_edge_lookup_none(edges.drop_first(), c);
        assert forall|j: int| 0 <= j < edges.len() implies (#[trigger] edges[j]).0 != c by {
            if j > 0 {
                assert(edges.drop_first()[j - 1] == edges[j]);
            }
        }
    }
}

/// Looking up after appending an edge: existing edges win, the new edge
/// serves exactly its own character.
pub(crate) proof fn lemma_edge_lookup_push(edges: Seq<(char, usize)>, c0: char, t0: usize, c: char)
    ensures
        edge_lookup(edges.push((c0, t0)), c) == (if edge_lookup(edges, c).is_some() {
            edge_lookup(edges, c)
        } else if c == c0 {
            Some(t0)
        } else {
            None::<usize>
        }),
    decreases edges.len(),
{
    if edges.len() == 0 {
        assert(edges.push((c0, t0))[0] == (c0, t0));
        assert(edges.push((c0, t0)).drop_first() =~= Seq::<(char, usize)>::empty());
    } else {
        assert(edges.push((c0, t0))[0] == edges[0]);
        assert(edges.push((c0, t0)).drop_first() =~= edges.drop_first().push((c0, t0)));
        lemma_edge_lookup_push(edges.drop_first(), c0, t0, c);
    }
}

/// Within a node whose edge characters are distinct, any edge labelled `c` is
/// what the lookup returns.
pub(crate) proof fn lemma_edge_lookup_found(edges: Seq<(char, usize)>, j: int)
    requires
        0 <= j < edges.len(),
        forall|j1: int, j2: int|
            0 <= j1 < j2 < edges.len() ==> (#[trigger] edges[j1]).0 != (#[trigger] edges[j2]).0,
    ensures
        edge_lookup(edges, edges[j].0) == Some(edges[j].1),
    decreases edges.len(),
{
    if j > 0 {
        assert(edges[0].0 != edges[j].0);
        assert forall|j1: int, j2: int|
            0 <= j1 < j2 < edges.drop_first().len() implies (#[trigger] edges.drop_first()[j1]).0
            != (#[trigger] edges.drop_first()[j2]).0 by {
            assert(edges.drop_first()[j1] == edges[j1 + 1]);
            assert(edges.drop_first()[j2] == edges[j2 + 1]);
        }
        assert(edges.drop_first()[j - 1] == edges[j]);
        lemma_edge_lookup_found(edges.drop_first(), j - 1);
    }
}

/// Appending a fresh leaf and hanging it by one new edge under node `m`
/// leaves every existing path where it was; a path that previously failed
/// now either still fails or ends at the fresh leaf.
pub(crate) proof fn lemma_desc_add_edge(
    pre: Seq<TrieNode>,
    post: Seq<TrieNode>,
    m: int,
    c: char,
    i: int,
    s: Seq<char>,
)
    requires
        pre.len() < usize::MAX,
        edges_in_range(pre),
        0 <= m < pre.len(),
        edge_lookup(pre[m].edges@, c).is_none(),
        post.len() == pre.len() + 1,
        post[pre.len() as int].edges@.len() == 0,
        post[m].edges@ == pre[m].edges@.push((c, pre.len() as usize)),
        forall|x: int| 0 <= x < pre.len() && x != m ==> post[x] == pre[x],
        0 <= i < pre.len(),
    ensures
        match desc(pre, i, s) {
            Some(k) => desc(post, i, s) == Some(k),
            None => desc(post, i, s) == None::<int> || desc(post, i, s) == Some(pre.len() as int),
        },
    decreases s.len(),
{
    if s.len() > 0 {
        let c0 = s[0];
        let fresh = pre.len() as int;
        if i == m {
            lemma_edge_lookup_push(pre[m].edges@, c, pre.len() as usize, c0);
        } else {
            assert(post[i] == pre[i]);
        }
        match edge_lookup(pre[i].edges@, c0) {
            Some(t) => {
                lemma_edge_lookup_index(pre[i].edges@, c0);
                assert(edge_lookup(post[i].edges@, c0) == Some(t));
                lemma_desc_add_edge(pre, post, m, c, t as int, s.drop_first());
            },
            None => {
                assert(desc(pre, i, s) == None::<int>);
                if i == m && c0 == c {
                    assert(edge_lookup(post[i].edges@, c0) == Some(pre.len() as usize));
                    if s.drop_first().len() == 0 {
                        assert(desc(post, fresh, s.drop_first()) == Some(fresh));
                    } else {
                        assert(edge_lookup(post[fresh].edges@, s.drop_first()[0]).is_none());
                        assert(desc(post, fresh, s.drop_first()) == None::<int>);
                    }
                } else {
                    if i == m {
                        assert(edge_lookup(post[i].edges@, c0).is_none());
                    }
                    assert(desc(post, i, s) == None::<int>);
                }
            },
        }
    }
}

/// Changing only what nodes store (never their edges) moves no path.
pub(crate) proof fn lemma_desc_same_edges(
    pre: Seq<TrieNode>,
    post: Seq<TrieNode>,
    i: int,
    s: Seq<char>,
)
    requires
        post.len() == pre.len(),
        forall|x: int| 0 <= x < pre.len() ==> (#[trigger] post[x]).edges@ == pre[x].edges@,
    ensures
        desc(post, i, s) == desc(pre, i, s),
    decreases s.len(),
{
    if s.len() > 0 && 0 <= i < pre.len() {
        match edge_lookup(pre[i].edges@, s[0]) {
            Some(t) => {
                lemma_desc_same_edges(pre, post, t as int, s.drop_first());
            },
            None => {},
        }
    }
}

/// The last step of a successful walk: the node before the end, and the edge
/// taken from it.
pub(crate) proof fn lemma_desc_last_step(nodes: Seq<TrieNode>, i: int, v: Seq<char>)
    requires
        v.len() > 0,
        desc(nodes, i, v).is_some(),
    ensures
        desc(nodes, i, v.drop_last()).is_some(),
        0 <= desc(nodes, i, v.drop_last())->0 < nodes.len(),
        edge_lookup(nodes[desc(nodes, i, v.drop_last())->0].edges@, v.last()).is_some(),
        edge_lookup(nodes[desc(nodes, i, v.drop_last())->0].edges@, v.last())->0 as int == desc(
            nodes,
            i,
            v,
        )->0,
    decreases v.len(),
{
    lemma_desc_snoc(nodes, i, v.drop_last(), v.last());
    assert(v.drop_last().push(v.last()) =~= v);
}

/// In a tree-shaped arena no non-empty path returns to the root.
pub(crate) proof fn lemma_desc_root_only_empty(nodes: Seq<TrieNode>, v: Seq<char>)
    requires
        arena_wf(nodes),
        desc(nodes, 0, v) == Some(0int),
    ensures
        v.len() == 0,
{
    if v.len() > 0 {
        lemma_desc_last_step(nodes, 0, v);
        let m = desc(nodes, 0, v.drop_last())->0;
        lemma_edge_lookup_index(nodes[m].edges@, v.last());
        assert(false);
    }
}

/// In a tree-shaped arena, distinct strings reach distinct nodes: the path to
/// a node is unique.
pub(crate) proof fn lemma_desc_injective(nodes: Seq<TrieNode>, v1: Seq<char>, v2: Seq<char>)
    requires
        arena_wf(nodes),
        desc(nodes, 0, v1).is_some(),
        desc(nodes, 0, v1) == desc(nodes, 0, v2),
    ensures
        v1 == v2,
    decreases v1.len(),
{
    let k = desc(nodes, 0, v1)->0;
    if k == 0 {
        lemma_desc_root_only_empty(nodes, v1);
        lemma_desc_root_only_empty(nodes, v2);
        assert(v1 =~= v2);
    } else {
        if v1.len() == 0 || v2.len() == 0 {
            assert(false);
        }
        lemma_desc_last_step(nodes, 0, v1);
        lemma_desc_last_step(nodes, 0, v2);
        let m1 = desc(nodes, 0, v1.drop_last())->0;
        let m2 = desc(nodes, 0, v2.drop_last())->0;
        lemma_edge_lookup_index(nodes[m1].edges@, v1.last());
        lemma_edge_lookup_index(nodes[m2].edges@, v2.last());
        let j1 = choose|j: int|
            0 <= j < nodes[m1].edges@.len() && #[trigger] nodes[m1].edges@[j] == (
            v1.last(),
            edge_lookup(nodes[m1].edges@, v1.last())->0,
        );
        let j2 = choose|j: int|
            0 <= j < nodes[m2].edges@.len() && #[trigger] nodes[m2].edges@[j] == (
            v2.last(),
            edge_lookup(nodes[m2].edges@, v2.last())->0,
        );
        assert(nodes[m1].edges@[j1].1 == nodes[m2].edges@[j2].1);
        assert(m1 == m2 && j1 == j2);
        lemma_desc_injective(nodes, v1.drop_last(), v2.drop_last());
        assert(v1 =~= v1.drop_last().push(v1.last()));
        assert(v2 =~= v2.drop_last().push(v2.last()));
    }
}

/// Splitting a path: walking `a + b` from `i` is walking `a`, then `b` from
/// where `a` arrived.
pub(crate) proof fn lemma_desc_concat(nodes: Seq<TrieNode>, i: int, a: Seq<char>, b: Seq<char>)
    ensures
        desc(nodes, i, a + b) == (match desc(nodes, i, a) {
            Some(m) => desc(nodes, m, b),
            None => None::<int>,
        }),
    decreases a.len(),
{
    if a.len() == 0 {
        assert(a + b =~= b);
    } else {
        assert((a + b)[0] == a[0]);
        assert((a + b).drop_first() =~= a.drop_first() + b);
        if 0 <= i < nodes.len() {
            match edge_lookup(nodes[i].edges@, a[0]) {
                Some(t) => {
                    lemma_desc_concat(nodes, t as int, a.drop_first(), b);
                },
                None => {},
            }
        }
    }
}

} // verus!
