use vstd::prelude::*;

use crate::text::{push_char, words_view};

verus! {

broadcast use vstd::std_specs::vec::group_vec_axioms;

/// One edge of the prefix tree: a character and the subtree it leads to.
pub struct TrieChild {
    pub ch: char,
    pub node: TrieNode,
}

/// A prefix tree over words, for completion.  A node's flag says whether
/// the path spelling it is a stored word; each distinct next character has
/// one child.
pub struct TrieNode {
    pub children: Vec<TrieChild>,
    pub is_end_of_word: bool,
}

/// Whether the subtree stores the word.
pub open spec fn trie_contains(n: TrieNode, w: Seq<char>) -> bool
    decreases w.len(),
{
    if w.len() == 0 {
        n.is_end_of_word
    } else {
        exists|i: int|
            0 <= i < n.children@.len() && (#[trigger] n.children@[i]).ch == w[0] && trie_contains(
                n.children@[i].node,
                w.skip(1),
            )
    }
}

/// Well-formedness of a subtree hanging below some edge: child characters
/// are distinct, a childless node marks a word (a path never dangles), and
/// the same holds below.
pub open spec fn trie_sub_wf(n: TrieNode) -> bool
    decreases n,
{
    &&& (n.children@.len() == 0 ==> n.is_end_of_word)
    &&& forall|i: int, j: int|
        0 <= i < j < n.children@.len() ==> (#[trigger] n.children@[i]).ch != (
        #[trigger] n.children@[j]).ch
    &&& forall|i: int| 0 <= i < n.children@.len() ==> trie_sub_wf((#[trigger] n.children@[i]).node)
}

/// Well-formedness of a whole trie: as below an edge, except that the root
/// itself may be empty and unmarked.
pub open spec fn trie_wf(n: TrieNode) -> bool {
    &&& forall|i: int, j: int|
        0 <= i < j < n.children@.len() ==> (#[trigger] n.children@[i]).ch != (
        #[trigger] n.children@[j]).ch
    &&& forall|i: int| 0 <= i < n.children@.len() ==> trie_sub_wf((#[trigger] n.children@[i]).node)
}

impl Default for TrieNode {
    /// An empty trie: no children, no stored words.
    fn default() -> (r: TrieNode)
        ensures
            trie_wf(r),
            r.children@.len() == 0,
            !r.is_end_of_word,
            forall|v: Seq<char>| !trie_contains(r, v),
    {
        let r = TrieNode { children: Vec::new(), is_end_of_word: false };
        proof {
            assert(forall|v: Seq<char>| !trie_contains(r, v)) by {
                assert forall|v: Seq<char>| !trie_contains(r, v) by {
                    if v.len() == 0 {
                    } else {
                    }
                }
            }
        }
        r
    }
}

/// The position of the first child carrying the character, if any.
fn find_child(n: &TrieNode, c: char) -> (r: Option<usize>)
    ensures
        match r {
            Option::Some(i) => i < n.children@.len() && n.children@[i as int].ch == c
                && forall|k: int| 0 <= k < i ==> (#[trigger] n.children@[k]).ch != c,
            Option::None => forall|k: int|
                0 <= k < n.children@.len() ==> (#[trigger] n.children@[k]).ch != c,
        },
{
    let mut i: usize = 0;
    while i < n.children.len()
        invariant
            i <= n.children@.len(),
            forall|k: int| 0 <= k < i ==> (#[trigger] n.children@[k]).ch != c,
        decreases n.children@.len() - i,
    {
        if n.children[i].ch == c {
            return Option::Some(i);
        }
        i += 1;
    }
    Option::None
}

/// The sequence is some stored word of the subtree, appended to the prefix.
pub open spec fn completion_from(s: Seq<char>, prefix: Seq<char>, n: TrieNode) -> bool {
    exists|w: Seq<char>| s == prefix + w && trie_contains(n, w)
}

/// The effect of replacing the one child that carries `c` (or adding it):
/// words starting with `c` now go through `newnode`, all others are
/// untouched.
proof fn lemma_children_update(
    pre: TrieNode,
    post: TrieNode,
    c: char,
    oldnode: TrieNode,
    newnode: TrieNode,
    rest: Seq<char>,
)
    requires
        post.is_end_of_word == pre.is_end_of_word,
        forall|k: int|
            0 <= k < pre.children@.len() && (#[trigger] pre.children@[k]).ch == c
                ==> pre.children@[k].node == oldnode,
        (exists|k: int| 0 <= k < pre.children@.len() && (#[trigger] pre.children@[k]).ch == c)
            || (forall|v: Seq<char>| !trie_contains(oldnode, v)),
        exists|m: int|
            0 <= m < post.children@.len() && (#[trigger] post.children@[m]).ch == c
                && post.children@[m].node == newnode,
        forall|k: int|
            0 <= k < post.children@.len() && (#[trigger] post.children@[k]).ch == c
                ==> post.children@[k].node == newnode,
        forall|k: int|
            0 <= k < post.children@.len() && (#[trigger] post.children@[k]).ch != c
                ==> exists|k2: int|
                0 <= k2 < pre.children@.len() && pre.children@[k2] == post.children@[k],
        forall|k2: int|
            0 <= k2 < pre.children@.len() && (#[trigger] pre.children@[k2]).ch != c
                ==> exists|k: int|
                0 <= k < post.children@.len() && post.children@[k] == pre.children@[k2],
        forall|v: Seq<char>|
            #[trigger] trie_contains(newnode, v) <==> trie_contains(oldnode, v) || v == rest,
    ensures
        forall|v: Seq<char>|
            #[trigger] trie_contains(post, v) <==> trie_contains(pre, v) || (v.len() > 0 && v[0]
                == c && v.skip(1) == rest),
{
    assert forall|v: Seq<char>|
        #[trigger] trie_contains(post, v) <==> trie_contains(pre, v) || (v.len() > 0 && v[0] == c
            && v.skip(1) == rest) by {
        if v.len() == 0 {
            assert(trie_contains(post, v) == post.is_end_of_word);
            assert(trie_contains(pre, v) == pre.is_end_of_word);
        } else if v[0] == c {
            let m = choose|m: int|
                0 <= m < post.children@.len() && (#[trigger] post.children@[m]).ch == c
                    && post.children@[m].node == newnode;
            if trie_contains(post, v) {
                let k = choose|k: int|
                    0 <= k < post.children@.len() && (#[trigger] post.children@[k]).ch == v[0]
                        && trie_contains(post.children@[k].node, v.skip(1));
                assert(post.children@[k].node == newnode);
            }
            if trie_contains(newnode, v.skip(1)) {
                assert(trie_contains(post.children@[m].node, v.skip(1)));
                assert(trie_contains(post, v));
            }
            assert(trie_contains(post, v) == trie_contains(newnode, v.skip(1)));
            if trie_contains(pre, v) {
                let k = choose|k: int|
                    0 <= k < pre.children@.len() && (#[trigger] pre.children@[k]).ch == v[0]
                        && trie_contains(pre.children@[k].node, v.skip(1));
                assert(pre.children@[k].node == oldnode);
                assert(trie_contains(oldnode, v.skip(1)));
            }
            if trie_contains(oldnode, v.skip(1)) {
                assert(exists|k: int|
                    0 <= k < pre.children@.len() && (#[trigger] pre.children@[k]).ch == c);
                let k = choose|k: int|
                    0 <= k < pre.children@.len() && (#[trigger] pre.children@[k]).ch == c;
                assert(pre.children@[k].node == oldnode);
                assert(trie_contains(pre, v));
            }
            assert(trie_contains(pre, v) == trie_contains(oldnode, v.skip(1)));
        } else {
            if trie_contains(post, v) {
                let k = choose|k: int|
                    0 <= k < post.children@.len() && (#[trigger] post.children@[k]).ch == v[0]
                        && trie_contains(post.children@[k].node, v.skip(1));
                let k2 = choose|k2: int|
                    0 <= k2 < pre.children@.len() && pre.children@[k2] == post.children@[k];
                assert(trie_contains(pre.children@[k2].node, v.skip(1)));
                assert(trie_contains(pre, v));
            }
            if trie_contains(pre, v) {
                let k2 = choose|k2: int|
                    0 <= k2 < pre.children@.len() && (#[trigger] pre.children@[k2]).ch == v[0]
                        && trie_contains(pre.children@[k2].node, v.skip(1));
                let k = choose|k: int|
                    0 <= k < post.children@.len() && post.children@[k] == pre.children@[k2];
                assert(trie_contains(post.children@[k].node, v.skip(1)));
                assert(trie_contains(post, v));
            }
        }
    }
}

impl TrieNode {
    /// Inserts the word's tail (from the given character position).
    fn insert_rec(&mut self, word: &str, from: usize)
        requires
            trie_wf(*old(self)),
            from <= word@.len(),
        ensures
            trie_wf(*final(self)),
            final(self).children@.len() == 0 ==> final(self).is_end_of_word,
            forall|v: Seq<char>|
                #[trigger] trie_contains(*final(self), v) <==> trie_contains(*old(self), v) || v
                    == word@.skip(from as int),
        decreases word@.len() - from,
    {
        let n = word.unicode_len();
        if from == n {
            self.is_end_of_word = true;
            proof {
                assert(word@.skip(from as int).len() == 0);
                assert forall|v: Seq<char>|
                    #[trigger] trie_contains(*self, v) <==> trie_contains(*old(self), v) || v
                        == word@.skip(from as int) by {
                    if v.len() == 0 {
                        assert(v =~= word@.skip(from as int));
                        assert(trie_contains(*self, v));
                    } else {
                        assert(v != word@.skip(from as int));
                        assert(trie_contains(*self, v) == trie_contains(*old(self), v));
                    }
                }
            }
        } else {
            let c = word.get_char(from);
            let ghost tail = word@.skip(from as int);
            let ghost rest = word@.skip(from as int + 1);
            proof {
                assert(tail.len() > 0);
                assert(tail[0] == c);
                assert(tail.skip(1) =~= rest);
            }
            match find_child(self, c) {
                Option::Some(i) => {
                    let ghost pre = *self;
                    let ghost olds = self.children@;
                    let ghost ll = olds.len();
                    let ghost oldnode = olds[i as int].node;
                    proof {
                        // only index i carries c
                        assert forall|k: int|
                            0 <= k < ll && (#[trigger] olds[k]).ch == c implies olds[k].node
                            == oldnode by {
                            if k < i {
                                assert(olds[k].ch != olds[i as int].ch);
                            } else if k > i {
                                assert(olds[i as int].ch != olds[k].ch);
                            }
                        }
                    }
                    let mut child = self.children.swap_remove(i);
                    proof {
                        assert(trie_sub_wf(child.node));
                        assert(trie_wf(child.node)) by {
                            assert(trie_sub_wf(child.node));
                        }
                    }
                    child.node.insert_rec(word, from + 1);
                    let ghost newnode = child.node;
                    let ghost mids = self.children@;
                    self.children.push(child);
                    let ghost posts = self.children@;
                    proof {
                        // each kept slot comes from one old slot other than i
                        assert forall|k: int| 0 <= k < ll - 1 implies mids[k] == olds[
                            (if k == i { ll - 1 } else { k })
                        ] && (if k == i {
                            ll - 1
                        } else {
                            k
                        }) != i by {
                            if k == i {
                                assert(i < ll - 1);
                            }
                        }
                        assert forall|k: int|
                            0 <= k < ll - 1 implies (#[trigger] mids[k]).ch != c by {
                            let k2 = if k == i { ll - 1 } else { k };
                            if k2 < i {
                                assert(olds[k2].ch != olds[i as int].ch);
                            } else if k2 > i {
                                assert(olds[i as int].ch != olds[k2].ch);
                            }
                        }
                        assert(posts.len() == ll);
                        assert(posts[ll - 1].ch == c && posts[ll - 1].node == newnode);
                        // well-formedness of the result
                        assert(trie_sub_wf(newnode)) by {
                            assert(trie_wf(newnode));
                            assert(newnode.children@.len() == 0 ==> newnode.is_end_of_word);
                        }
                        assert forall|a: int, b: int|
                            0 <= a < b < ll implies (#[trigger] posts[a]).ch != (
                        #[trigger] posts[b]).ch by {
                            if b < ll - 1 {
                                let a2 = if a == i { ll - 1 } else { a };
                                let b2 = if b == i { ll - 1 } else { b };
                                assert(posts[a] == olds[a2] && posts[b] == olds[b2]);
                                if a2 < b2 {
                                    assert(olds[a2].ch != olds[b2].ch);
                                } else {
                                    assert(olds[b2].ch != olds[a2].ch);
                                }
                            } else {
                                assert(posts[b].ch == c);
                                assert(posts[a] == mids[a]);
                            }
                        }
                        assert forall|k: int|
                            0 <= k < ll implies trie_sub_wf((#[trigger] posts[k]).node) by {
                            if k < ll - 1 {
                                let k2 = if k == i { ll - 1 } else { k };
                                assert(posts[k] == olds[k2]);
                                assert(trie_sub_wf(olds[k2].node));
                            } else {
                                assert(posts[k].node == newnode);
                            }
                        }
                        assert(trie_wf(*self));
                        // the shape lemma's correspondences
                        assert forall|k: int|
                            0 <= k < posts.len() && (#[trigger] posts[k]).ch == c implies posts[
                            k
                        ].node == newnode by {
                            if k < ll - 1 {
                                assert(mids[k].ch != c);
                            }
                        }
                        assert forall|k: int|
                            0 <= k < posts.len() && (#[trigger] posts[k]).ch != c
                            implies exists|k2: int|
                            0 <= k2 < pre.children@.len() && pre.children@[k2] == posts[k] by {
                            let k2 = if k == i { ll - 1 } else { k };
                            assert(pre.children@[k2] == posts[k]);
                        }
                        assert forall|k2: int|
                            0 <= k2 < pre.children@.len() && (#[trigger] pre.children@[k2]).ch
                                != c implies exists|k: int|
                            0 <= k < posts.len() && posts[k] == pre.children@[k2] by {
                            assert(k2 != i);
                            if k2 == ll - 1 {
                                assert(i < ll - 1);
                                assert(posts[i as int] == olds[ll - 1]);
                            } else {
                                assert(posts[k2] == olds[k2]);
                            }
                        }
                        lemma_children_update(pre, *self, c, oldnode, newnode, rest);
                        assert forall|v: Seq<char>|
                            #[trigger] trie_contains(*self, v) <==> trie_contains(pre, v) || v
                                == tail by {
                            if v.len() > 0 && v[0] == c {
                                if v.skip(1) == tail.skip(1) {
                                    assert forall|t: int| 0 <= t < v.len() implies v[t]
                                        == tail[t] by {
                                        if t > 0 {
                                            assert(v.skip(1)[t - 1] == v[t]);
                                            assert(tail.skip(1)[t - 1] == tail[t]);
                                        }
                                    }
                                    assert(v =~= tail);
                                }
                            } else {
                                assert(v != tail);
                            }
                        }
                    }
                },
                Option::None => {
                    let ghost pre = *self;
                    let ghost olds = self.children@;
                    let ghost ll = olds.len();
                    let mut node = TrieNode { children: Vec::new(), is_end_of_word: false };
                    let ghost fresh = node;
                    proof {
                        assert(trie_wf(fresh));
                        assert forall|v: Seq<char>| !trie_contains(fresh, v) by {
                            if v.len() == 0 {
                            }
                        }
                    }
                    node.insert_rec(word, from + 1);
                    let ghost newnode = node;
                    self.children.push(TrieChild { ch: c, node });
                    let ghost posts = self.children@;
                    proof {
                        assert(posts.len() == ll + 1);
                        assert(posts[ll as int].ch == c && posts[ll as int].node == newnode);
                        assert(trie_sub_wf(newnode)) by {
                            assert(trie_wf(newnode));
                            assert(newnode.children@.len() == 0 ==> newnode.is_end_of_word);
                        }
                        assert forall|a: int, b: int|
                            0 <= a < b < posts.len() implies (#[trigger] posts[a]).ch != (
                        #[trigger] posts[b]).ch by {
                            if b < ll {
                                assert(olds[a].ch != olds[b].ch);
                            } else {
                                assert(posts[b].ch == c);
                                assert(olds[a].ch != c);
                            }
                        }
                        assert forall|k: int|
                            0 <= k < posts.len() implies trie_sub_wf((#[trigger] posts[k]).node)
                            by {
                            if k < ll {
                                assert(posts[k] == olds[k]);
                                assert(trie_sub_wf(olds[k].node));
                            } else {
                                assert(posts[k].node == newnode);
                            }
                        }
                        assert(trie_wf(*self));
                        assert forall|k: int|
                            0 <= k < posts.len() && (#[trigger] posts[k]).ch == c implies posts[
                            k
                        ].node == newnode by {
                            if k < ll {
                                assert(olds[k].ch != c);
                            }
                        }
                        assert forall|k: int|
                            0 <= k < posts.len() && (#[trigger] posts[k]).ch != c
                            implies exists|k2: int|
                            0 <= k2 < pre.children@.len() && pre.children@[k2] == posts[k] by {
                            assert(k < ll);
                            assert(pre.children@[k] == posts[k]);
                        }
                        assert forall|k2: int|
                            0 <= k2 < pre.children@.len() && (#[trigger] pre.children@[k2]).ch
                                != c implies exists|k: int|
                            0 <= k < posts.len() && posts[k] == pre.children@[k2] by {
                            assert(posts[k2] == pre.children@[k2]);
                        }
                        lemma_children_update(pre, *self, c, fresh, newnode, rest);
                        assert forall|v: Seq<char>|
                            #[trigger] trie_contains(*self, v) <==> trie_contains(pre, v) || v
                                == tail by {
                            if v.len() > 0 && v[0] == c {
                                if v.skip(1) == tail.skip(1) {
                                    assert forall|t: int| 0 <= t < v.len() implies v[t]
                                        == tail[t] by {
                                        if t > 0 {
                                            assert(v.skip(1)[t - 1] == v[t]);
                                            assert(tail.skip(1)[t - 1] == tail[t]);
                                        }
                                    }
                                    assert(v =~= tail);
                                }
                            } else {
                                assert(v != tail);
                            }
                        }
                    }
                },
            }
        }
    }

    /// Collects, below `node`, the first stored word along each branch,
    /// appended to `prefix`.  A marked node ends its branch: longer words
    /// behind it are not listed.
    fn dfs(&self, prefix: String, node: &TrieNode, completions: &mut Vec<String>)
        requires
            trie_wf(*node),
        ensures
            old(completions)@.len() <= final(completions)@.len(),
            forall|k: int|
                0 <= k < old(completions)@.len() ==> words_view(final(completions)@)[k]
                    == words_view(old(completions)@)[k],
            forall|k: int|
                old(completions)@.len() <= k < final(completions)@.len() ==> completion_from(
                    #[trigger] words_view(final(completions)@)[k],
                    prefix@,
                    *node,
                ),
            (node.is_end_of_word || node.children@.len() > 0) ==> final(completions)@.len() > old(
                completions,
            )@.len(),
        decreases *node,
    {
        if node.is_end_of_word {
            let ghost pre = completions@;
            let ghost pv = prefix@;
            completions.push(prefix);
            proof {
                assert(words_view(completions@) =~= words_view(pre).push(pv));
                assert(trie_contains(*node, Seq::<char>::empty()));
                assert(pv + Seq::<char>::empty() =~= pv);
                assert(words_view(completions@)[pre.len() as int] == pv + Seq::<char>::empty());
                assert(completion_from(words_view(completions@)[pre.len() as int], pv, *node));
            }
            return ;
        }
        let ghost pre0 = completions@;
        let mut i: usize = 0;
        while i < node.children.len()
            invariant
                i <= node.children@.len(),
                trie_wf(*node),
                !node.is_end_of_word,
                pre0.len() <= completions@.len(),
                forall|k: int|
                    0 <= k < pre0.len() ==> words_view(completions@)[k] == words_view(pre0)[k],
                forall|k: int|
                    pre0.len() <= k < completions@.len() ==> completion_from(
                        #[trigger] words_view(completions@)[k],
                        prefix@,
                        *node,
                    ),
                i > 0 ==> completions@.len() > pre0.len(),
            decreases node.children@.len() - i,
        {
            let child = &node.children[i];
            proof {
                assert(trie_sub_wf(node.children@[i as int].node));
                assert(trie_wf(child.node));
            }
            let mut new_prefix = prefix.clone();
            push_char(&mut new_prefix, child.ch);
            let ghost np = new_prefix@;
            let ghost pre_i = completions@;
            child.node.dfs(new_prefix, &child.node, completions);
            proof {
                assert(np == prefix@.push(node.children@[i as int].ch));
                assert forall|k: int|
                    pre_i.len() <= k < completions@.len() implies completion_from(
                    #[trigger] words_view(completions@)[k],
                    prefix@,
                    *node,
                ) by {
                    assert(completion_from(
                        words_view(completions@)[k],
                        np,
                        node.children@[i as int].node,
                    ));
                    let w1 = choose|w1: Seq<char>|
                        words_view(completions@)[k] == np + w1 && trie_contains(
                            node.children@[i as int].node,
                            w1,
                        );
                    let w = seq![node.children@[i as int].ch] + w1;
                    assert(w[0] == node.children@[i as int].ch);
                    assert(w.skip(1) =~= w1);
                    assert(trie_contains(*node, w));
                    assert(prefix@ + w =~= np + w1);
                    assert(words_view(completions@)[k] == prefix@ + w);
                }
                assert(node.children@[i as int].node.is_end_of_word || node.children@[
                    i as int
                ].node.children@.len() > 0);
            }
            i += 1;
        }
    }

    /// Every completion of the prefix: the first stored word along each
    /// branch below it; empty when no stored word extends the prefix.
    fn autocomplete(&self, prefix: &str) -> (completions: Vec<String>)
        requires
            trie_wf(*self),
        ensures
            forall|k: int|
                0 <= k < completions@.len() ==> trie_contains(*self, #[trigger] completions@[k]@)
                    && prefix@.is_prefix_of(completions@[k]@),
            completions@.len() == 0 ==> !(exists|w: Seq<char>|
                trie_contains(*self, w) && prefix@.is_prefix_of(w)),
    {
        let n = prefix.unicode_len();
        let mut cur: &TrieNode = self;
        let mut j: usize = 0;
        proof {
            assert forall|w: Seq<char>|
                #[trigger] trie_contains(*self, prefix@.take(0) + w) == trie_contains(
                *self,
                w,
            ) by {
                assert(prefix@.take(0) + w =~= w);
            }
        }
        while j < n
            invariant
                j <= n,
                n == prefix@.len(),
                trie_wf(*cur),
                forall|w: Seq<char>|
                    #[trigger] trie_contains(*self, prefix@.take(j as int) + w) == trie_contains(
                        *cur,
                        w,
                    ),
            decreases n - j,
        {
            let c = prefix.get_char(j);
            match find_child(cur, c) {
                Option::Some(i) => {
                    proof {
                        let sub = cur.children@[i as int].node;
                        assert(trie_sub_wf(sub));
                        assert forall|w: Seq<char>|
                            #[trigger] trie_contains(*self, prefix@.take(j as int + 1) + w)
                                == trie_contains(sub, w) by {
                            let cw = seq![c] + w;
                            assert(cw[0] == c);
                            assert(cw.skip(1) =~= w);
                            if trie_contains(*cur, cw) {
                                let k = choose|k: int|
                                    0 <= k < cur.children@.len() && (#[trigger] cur.children@[
                                        k
                                    ]).ch == cw[0] && trie_contains(
                                        cur.children@[k].node,
                                        cw.skip(1),
                                    );
                                if k < i {
                                    assert(cur.children@[k].ch != cur.children@[i as int].ch);
                                } else if k > i {
                                    assert(cur.children@[i as int].ch != cur.children@[k].ch);
                                }
                                assert(k == i);
                                assert(trie_contains(sub, w));
                            }
                            if trie_contains(sub, w) {
                                assert(trie_contains(*cur, cw));
                            }
                            assert(prefix@.take(j as int + 1) + w =~= prefix@.take(j as int)
                                + cw);
                        }
                    }
                    cur = &cur.children[i].node;
                },
                Option::None => {
                    proof {
                        assert forall|w: Seq<char>|
                            !(trie_contains(*self, w) && prefix@.is_prefix_of(w)) by {
                            if trie_contains(*self, w) && prefix@.is_prefix_of(w) {
                                let tail = w.skip(j as int);
                                assert(prefix@.take(j as int) + tail =~= w) by {
                                    assert(w.take(n as int) == prefix@);
                                    assert forall|t: int|
                                        0 <= t < w.len() implies (prefix@.take(j as int) + tail)[
                                        t
                                    ] == w[t] by {
                                        if t < j {
                                            assert(w.take(n as int)[t] == w[t]);
                                        }
                                    }
                                }
                                assert(trie_contains(*cur, tail));
                                assert(tail.len() > 0);
                                assert(tail[0] == w[j as int]);
                                assert(w.take(n as int)[j as int] == w[j as int]);
                                assert(tail[0] == c);
                                let k = choose|k: int|
                                    0 <= k < cur.children@.len() && (#[trigger] cur.children@[
                                        k
                                    ]).ch == tail[0] && trie_contains(
                                        cur.children@[k].node,
                                        tail.skip(1),
                                    );
                                assert(false);
                            }
                        }
                    }
                    return Vec::new();
                },
            }
            j += 1;
        }
        let mut completions: Vec<String> = Vec::new();
        let ghost pre0 = completions@;
        proof {
            assert(prefix@.take(n as int) =~= prefix@);
            assert(pre0.len() == 0);
        }
        self.dfs(prefix.to_owned(), cur, &mut completions);
        proof {
            assert forall|k: int|
                0 <= k < completions@.len() implies trie_contains(
                *self,
                #[trigger] completions@[k]@,
            ) && prefix@.is_prefix_of(completions@[k]@) by {
                assert(completion_from(words_view(completions@)[k], prefix@, *cur));
                let w = choose|w: Seq<char>|
                    words_view(completions@)[k] == prefix@ + w && trie_contains(*cur, w);
                assert(trie_contains(*self, prefix@.take(n as int) + w) == trie_contains(
                    *cur,
                    w,
                ));
                assert(prefix@.take(n as int) + w == prefix@ + w);
                assert(completions@[k]@ == words_view(completions@)[k]);
                assert((prefix@ + w).take(prefix@.len() as int) =~= prefix@);
            }
            if completions@.len() == 0 {
                assert(!(cur.is_end_of_word || cur.children@.len() > 0));
                assert forall|w: Seq<char>|
                    !(trie_contains(*self, w) && prefix@.is_prefix_of(w)) by {
                    if trie_contains(*self, w) && prefix@.is_prefix_of(w) {
                        let tail = w.skip(n as int);
                        assert(prefix@.take(n as int) + tail =~= w) by {
                            assert(w.take(n as int) == prefix@);
                            assert forall|t: int|
                                0 <= t < w.len() implies (prefix@.take(n as int) + tail)[t] == w[
                                t
                            ] by {
                                if t < n {
                                    assert(w.take(n as int)[t] == w[t]);
                                }
                            }
                        }
                        assert(trie_contains(*cur, tail));
                        if tail.len() == 0 {
                            assert(cur.is_end_of_word);
                        }
                        assert(false);
                    }
                }
            }
        }
        completions
    }

    /// The completions of the word, or nothing when no stored word extends
    /// it.
    pub fn get_completed_word(&self, word: &str) -> (r: Option<Vec<String>>)
        requires
            trie_wf(*self),
        ensures
            match r {
                Option::Some(v) => v@.len() > 0 && forall|k: int|
                    0 <= k < v@.len() ==> trie_contains(*self, #[trigger] v@[k]@)
                        && word@.is_prefix_of(v@[k]@),
                Option::None => !(exists|w: Seq<char>|
                    trie_contains(*self, w) && word@.is_prefix_of(w)),
            },
    {
        let result = self.autocomplete(word);
        if result.len() > 0 {
            Option::Some(result)
        } else {
            Option::None
        }
    }

    /// Stores a word in the trie.
    pub fn insert(&mut self, word: &str)
        requires
            trie_wf(*old(self)),
        ensures
            trie_wf(*final(self)),
            forall|v: Seq<char>|
                #[trigger] trie_contains(*final(self), v) <==> trie_contains(*old(self), v) || v
                    == word@,
    {
        self.insert_rec(word, 0);
        proof {
            assert(word@.skip(0) =~= word@);
        }
    }
}

} // verus!
