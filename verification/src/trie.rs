//! A prefix tree over character strings.
//!
//! Each node holds one character of a word (the root holds none), a
//! mark for the words that end there, and its child nodes, keyed by
//! their character: among the children of any node each character
//! occurs at most once. A trie is specified through the set of words
//! it holds (`has_word`) and the character paths that exist in it
//! (`has_path`).

use vstd::prelude::*;

verus! {

/// One node of the trie: its character (`None` only at the root),
/// whether a word ends here, and the children in insertion order.
pub struct TrieNode {
    pub value: Option<char>,
    pub is_end_of_word: bool,
    pub children: Vec<TrieNode>,
}

/// Every child carries a character, no two children of one node
/// carry the same one, and the same holds below.
spec fn node_wf(n: TrieNode) -> bool
    decreases n,
{
    &&& kids_wf(n.children@)
    &&& forall|i: int| 0 <= i < n.children@.len() ==> node_wf(#[trigger] n.children@[i])
}

/// The child-level part of well-formedness.
spec fn kids_wf(s: Seq<TrieNode>) -> bool {
    &&& forall|i: int| 0 <= i < s.len() ==> (#[trigger] s[i]).value is Some
    &&& forall|i: int, j: int| 0 <= i < j < s.len() ==> s[i].value != s[j].value
}

/// Every child subtree serves some word: deletion prunes nodes that
/// no longer do, so paths lead only toward stored words.
spec fn node_pruned(n: TrieNode) -> bool
    decreases n,
{
    forall|i: int|
        0 <= i < n.children@.len() ==> node_pruned(#[trigger] n.children@[i]) && (exists|
            w: Seq<char>,
        | spec_search(#[trigger] n.children@[i], w))
}

/// Folding the pruned predicate from its child-level facts.
proof fn lemma_fold_pruned(n: TrieNode)
    requires
        forall|i: int|
            0 <= i < n.children@.len() ==> node_pruned(#[trigger] n.children@[i]) && (exists|
                w: Seq<char>,
            | spec_search(#[trigger] n.children@[i], w)),
    ensures
        node_pruned(n),
{
}

/// Unfolding the pruned predicate at one child.
proof fn lemma_unfold_pruned(n: TrieNode, i: int)
    requires
        node_pruned(n),
        0 <= i < n.children@.len(),
    ensures
        node_pruned(n.children@[i]),
        exists|w: Seq<char>| spec_search(n.children@[i], w),
{
}

/// Pruned-ness is preserved when the children are unchanged.
proof fn lemma_pruned_same_children(n0: TrieNode, n1: TrieNode)
    requires
        node_pruned(n0),
        n1.children@ == n0.children@,
    ensures
        node_pruned(n1),
{
    assert forall|j: int|
        0 <= j < n1.children@.len() implies node_pruned(#[trigger] n1.children@[j]) && (exists|
        w2: Seq<char>,
    | spec_search(#[trigger] n1.children@[j], w2)) by {
        assert(n1.children@[j] == n0.children@[j]);
        lemma_unfold_pruned(n0, j);
    }
    lemma_fold_pruned(n1);
}

/// Pruned-ness is preserved when one child is replaced by a pruned
/// child that serves a word.
proof fn lemma_pruned_update_child(n0: TrieNode, n1: TrieNode, ci: int, child1: TrieNode)
    requires
        node_pruned(n0),
        0 <= ci < n0.children@.len(),
        n1.children@ == n0.children@.update(ci, child1),
        node_pruned(child1),
        exists|w: Seq<char>| spec_search(child1, w),
    ensures
        node_pruned(n1),
{
    assert forall|j: int|
        0 <= j < n1.children@.len() implies node_pruned(#[trigger] n1.children@[j]) && (exists|
        w2: Seq<char>,
    | spec_search(#[trigger] n1.children@[j], w2)) by {
        if j != ci {
            assert(n1.children@[j] == n0.children@[j]);
            lemma_unfold_pruned(n0, j);
        } else {
            assert(n1.children@[j] == child1);
        }
    }
    lemma_fold_pruned(n1);
}

/// Pruned-ness is preserved when a pruned child that serves a word
/// is appended.
proof fn lemma_pruned_push_child(n0: TrieNode, n1: TrieNode, child1: TrieNode)
    requires
        node_pruned(n0),
        n1.children@ == n0.children@.push(child1),
        node_pruned(child1),
        exists|w: Seq<char>| spec_search(child1, w),
    ensures
        node_pruned(n1),
{
    assert forall|j: int|
        0 <= j < n1.children@.len() implies node_pruned(#[trigger] n1.children@[j]) && (exists|
        w2: Seq<char>,
    | spec_search(#[trigger] n1.children@[j], w2)) by {
        if j < n0.children@.len() {
            assert(n1.children@[j] == n0.children@[j]);
            lemma_unfold_pruned(n0, j);
        } else {
            assert(n1.children@[j] == child1);
        }
    }
    lemma_fold_pruned(n1);
}

/// Pruned-ness is preserved when a child is removed.
proof fn lemma_pruned_remove_child(n0: TrieNode, n1: TrieNode, ci: int)
    requires
        node_pruned(n0),
        0 <= ci < n0.children@.len(),
        n1.children@ == n0.children@.remove(ci),
    ensures
        node_pruned(n1),
{
    assert forall|j: int|
        0 <= j < n1.children@.len() implies node_pruned(#[trigger] n1.children@[j]) && (exists|
        w2: Seq<char>,
    | spec_search(#[trigger] n1.children@[j], w2)) by {
        let j0 = if j < ci {
            j
        } else {
            j + 1
        };
        assert(n1.children@[j] == n0.children@[j0]);
        lemma_unfold_pruned(n0, j0);
    }
    lemma_fold_pruned(n1);
}

/// The child of the sequence keyed by the character, if any.
spec fn spec_child_seq(s: Seq<TrieNode>, c: char) -> Option<TrieNode> {
    if exists|i: int| 0 <= i < s.len() && (#[trigger] s[i]).value == Some(c) {
        Some(s[choose|i: int| 0 <= i < s.len() && (#[trigger] s[i]).value == Some(c)])
    } else {
        None
    }
}

/// The child of the node keyed by the character, if any.
spec fn spec_child(n: TrieNode, c: char) -> Option<TrieNode> {
    spec_child_seq(n.children@, c)
}

/// Whether the word is held below this node: walk one child per
/// character and test the end mark.
spec fn spec_search(n: TrieNode, w: Seq<char>) -> bool
    decreases w.len(),
{
    if w.len() == 0 {
        n.is_end_of_word
    } else {
        match spec_child(n, w[0]) {
            Some(child) => spec_search(child, w.subrange(1, w.len() as int)),
            None => false,
        }
    }
}

/// Whether the character path exists below this node.
spec fn spec_has_path(n: TrieNode, p: Seq<char>) -> bool
    decreases p.len(),
{
    if p.len() == 0 {
        true
    } else {
        match spec_child(n, p[0]) {
            Some(child) => spec_has_path(child, p.subrange(1, p.len() as int)),
            None => false,
        }
    }
}

/// The number of word-end marks below this node, itself included.
spec fn spec_count(n: TrieNode) -> nat
    decreases n, n.children@.len() as int + 1,
{
    spec_count_kids(n, n.children@.len() as int) + (if n.is_end_of_word {
        1nat
    } else {
        0nat
    })
}

/// The number of word-end marks in the first `upto` children.
spec fn spec_count_kids(n: TrieNode, upto: int) -> nat
    decreases n, upto,
{
    if upto <= 0 || upto > n.children@.len() {
        0
    } else {
        spec_count_kids(n, upto - 1) + spec_count(n.children@[upto - 1])
    }
}

/// The words below this node, each prefixed by the path that led
/// here: the node's own word first, then each child's words in
/// child order.
spec fn spec_words(n: TrieNode, prefix: Seq<char>) -> Seq<Seq<char>>
    decreases n, n.children@.len() as int + 1,
{
    (if n.is_end_of_word {
        seq![prefix]
    } else {
        Seq::empty()
    }) + spec_words_kids(n, prefix, n.children@.len() as int)
}

/// The words below the first `upto` children.
spec fn spec_words_kids(n: TrieNode, prefix: Seq<char>, upto: int) -> Seq<Seq<char>>
    decreases n, upto,
{
    if upto <= 0 || upto > n.children@.len() {
        Seq::empty()
    } else {
        spec_words_kids(n, prefix, upto - 1) + spec_words(
            n.children@[upto - 1],
            prefix.push(n.children@[upto - 1].value.unwrap()),
        )
    }
}

/// A count clipped to what a machine word can hold.
pub open spec fn cap_usize(n: nat) -> nat {
    if n <= usize::MAX as nat {
        n
    } else {
        usize::MAX as nat
    }
}

/// Replacing the child at a position by one with the same character
/// changes exactly that character's lookup.
proof fn lemma_child_update(s: Seq<TrieNode>, x: TrieNode, ci: int, c: char)
    requires
        kids_wf(s),
        0 <= ci < s.len(),
        s[ci].value == Some(c),
        x.value == Some(c),
    ensures
        kids_wf(s.update(ci, x)),
        spec_child_seq(s.update(ci, x), c) == Some(x),
        forall|c2: char| c2 != c ==> spec_child_seq(s.update(ci, x), c2) == spec_child_seq(s, c2),
{
    let s2 = s.update(ci, x);
    assert forall|i: int, j: int| 0 <= i < j < s2.len() implies s2[i].value != s2[j].value by {
        assert(s[i].value != s[j].value);
    }
    assert(s2[ci].value == Some(c));
    let w = choose|i: int| 0 <= i < s2.len() && (#[trigger] s2[i]).value == Some(c);
    if w != ci {
        assert(s2[w].value != s2[ci].value);
    }
    assert forall|c2: char| c2 != c implies spec_child_seq(s2, c2) == spec_child_seq(s, c2) by {
        if exists|i: int| 0 <= i < s2.len() && (#[trigger] s2[i]).value == Some(c2) {
            let i = choose|i: int| 0 <= i < s2.len() && (#[trigger] s2[i]).value == Some(c2);
            assert(i != ci);
            assert(s[i].value == Some(c2));
            let i2 = choose|i2: int| 0 <= i2 < s.len() && (#[trigger] s[i2]).value == Some(c2);
            if i2 != i {
                assert(s[i2].value != s[i].value);
            }
            assert(s2[i] == s[i2]);
        } else {
            if exists|i: int| 0 <= i < s.len() && (#[trigger] s[i]).value == Some(c2) {
                let i = choose|i: int| 0 <= i < s.len() && (#[trigger] s[i]).value == Some(c2);
                assert(i != ci);
                assert(s2[i].value == Some(c2));
            }
        }
    }
}

/// Appending a child with a fresh character adds exactly that
/// character's lookup.
proof fn lemma_child_push(s: Seq<TrieNode>, x: TrieNode, c: char)
    requires
        kids_wf(s),
        spec_child_seq(s, c) is None,
        x.value == Some(c),
    ensures
        kids_wf(s.push(x)),
        spec_child_seq(s.push(x), c) == Some(x),
        forall|c2: char| c2 != c ==> spec_child_seq(s.push(x), c2) == spec_child_seq(s, c2),
{
    let s2 = s.push(x);
    assert forall|i: int, j: int| 0 <= i < j < s2.len() implies s2[i].value != s2[j].value by {
        if j < s.len() {
            assert(s[i].value != s[j].value);
        } else {
            assert(s2[j] == x);
            assert(s2[i] == s[i]);
            if s[i].value == Some(c) {
                assert(false);
            }
        }
    }
    assert forall|i: int| 0 <= i < s2.len() implies (#[trigger] s2[i]).value is Some by {
        if i < s.len() {
            assert(s[i].value is Some);
        }
    }
    assert(s2[s.len() as int].value == Some(c));
    let w = choose|i: int| 0 <= i < s2.len() && (#[trigger] s2[i]).value == Some(c);
    if w != s.len() {
        assert(s[w].value == Some(c));
    }
    assert forall|c2: char| c2 != c implies spec_child_seq(s2, c2) == spec_child_seq(s, c2) by {
        if exists|i: int| 0 <= i < s2.len() && (#[trigger] s2[i]).value == Some(c2) {
            let i = choose|i: int| 0 <= i < s2.len() && (#[trigger] s2[i]).value == Some(c2);
            assert(i != s.len());
            assert(s[i].value == Some(c2));
            let i2 = choose|i2: int| 0 <= i2 < s.len() && (#[trigger] s[i2]).value == Some(c2);
            if i2 != i {
                assert(s[i2].value != s[i].value);
            }
            assert(s2[i] == s[i2]);
        } else {
            if exists|i: int| 0 <= i < s.len() && (#[trigger] s[i]).value == Some(c2) {
                let i = choose|i: int| 0 <= i < s.len() && (#[trigger] s[i]).value == Some(c2);
                assert(s2[i].value == Some(c2));
            }
        }
    }
}

/// Removing the child at a position deletes exactly that
/// character's lookup.
proof fn lemma_child_remove(s: Seq<TrieNode>, ci: int, c: char)
    requires
        kids_wf(s),
        0 <= ci < s.len(),
        s[ci].value == Some(c),
    ensures
        kids_wf(s.remove(ci)),
        spec_child_seq(s.remove(ci), c) is None,
        forall|c2: char| c2 != c ==> spec_child_seq(s.remove(ci), c2) == spec_child_seq(s, c2),
{
    let s2 = s.remove(ci);
    assert forall|i: int, j: int| 0 <= i < j < s2.len() implies s2[i].value != s2[j].value by {
        let i0 = if i < ci {
            i
        } else {
            i + 1
        };
        let j0 = if j < ci {
            j
        } else {
            j + 1
        };
        assert(s2[i] == s[i0] && s2[j] == s[j0]);
        assert(s[i0].value != s[j0].value);
    }
    assert forall|i: int| 0 <= i < s2.len() implies (#[trigger] s2[i]).value is Some by {
        let i0 = if i < ci {
            i
        } else {
            i + 1
        };
        assert(s2[i] == s[i0]);
        assert(s[i0].value is Some);
    }
    if exists|i: int| 0 <= i < s2.len() && (#[trigger] s2[i]).value == Some(c) {
        let i = choose|i: int| 0 <= i < s2.len() && (#[trigger] s2[i]).value == Some(c);
        let i0 = if i < ci {
            i
        } else {
            i + 1
        };
        assert(s2[i] == s[i0]);
        assert(i0 != ci);
        assert(s[i0].value != s[ci].value);
        assert(false);
    }
    assert forall|c2: char| c2 != c implies spec_child_seq(s2, c2) == spec_child_seq(s, c2) by {
        if exists|i: int| 0 <= i < s2.len() && (#[trigger] s2[i]).value == Some(c2) {
            let i = choose|i: int| 0 <= i < s2.len() && (#[trigger] s2[i]).value == Some(c2);
            let i0 = if i < ci {
                i
            } else {
                i + 1
            };
            assert(s2[i] == s[i0]);
            let i2 = choose|i2: int| 0 <= i2 < s.len() && (#[trigger] s[i2]).value == Some(c2);
            if i2 != i0 {
                assert(s[i2].value != s[i0].value);
            }
        } else {
            if exists|i: int| 0 <= i < s.len() && (#[trigger] s[i]).value == Some(c2) {
                let i = choose|i: int| 0 <= i < s.len() && (#[trigger] s[i]).value == Some(c2);
                assert(i != ci);
                let i2 = if i < ci {
                    i
                } else {
                    i - 1
                };
                assert(s2[i2] == s[i]);
                assert(false);
            }
        }
    }
}

/// A word equals the suffix of another from position `i` exactly
/// when it starts with that position's character and continues with
/// the remaining suffix.
proof fn lemma_suffix_cons(word: Seq<char>, i: int, w: Seq<char>)
    requires
        0 <= i < word.len(),
    ensures
        (w.len() >= 1 && w[0] == word[i] && w.subrange(1, w.len() as int) == word.subrange(
            i + 1,
            word.len() as int,
        )) <==> w == word.subrange(i, word.len() as int),
{
    let suffix = word.subrange(i, word.len() as int);
    if w.len() >= 1 && w[0] == word[i] && w.subrange(1, w.len() as int) == word.subrange(
        i + 1,
        word.len() as int,
    ) {
        assert(w.subrange(1, w.len() as int).len() == word.subrange(i + 1, word.len() as int).len());
        assert(w.len() == word.len() - i);
        assert forall|j: int| 0 <= j < w.len() implies w[j] == suffix[j] by {
            if j >= 1 {
                assert(w.subrange(1, w.len() as int)[j - 1] == w[j]);
                assert(word.subrange(i + 1, word.len() as int)[j - 1] == word[i + j]);
                assert(suffix[j] == word[i + j]);
            }
        }
        assert(w.len() == suffix.len());
        assert(w =~= suffix);
    }
    if w == suffix {
        assert(suffix[0] == word[i]);
        assert(w.subrange(1, w.len() as int) =~= word.subrange(i + 1, word.len() as int));
    }
}

/// A node with no children and no end mark holds no word.
proof fn lemma_leaf_wordless(n: TrieNode, w: Seq<char>)
    requires
        n.children@.len() == 0,
        !n.is_end_of_word,
    ensures
        !spec_search(n, w),
{
    if w.len() > 0 {
        if exists|i: int| 0 <= i < n.children@.len() && (#[trigger] n.children@[i]).value == Some(
            w[0],
        ) {
            assert(false);
        }
    }
}

/// A word count equals the length of the word listing, whatever
/// prefix the listing is taken under.
proof fn lemma_count_is_len(n: TrieNode, prefix: Seq<char>)
    ensures
        spec_count(n) == spec_words(n, prefix).len(),
    decreases n, n.children@.len() as int + 1,
{
    lemma_count_kids_is_len(n, prefix, n.children@.len() as int);
}

/// The kid-level part of the count-versus-listing correspondence.
proof fn lemma_count_kids_is_len(n: TrieNode, prefix: Seq<char>, upto: int)
    ensures
        spec_count_kids(n, upto) == spec_words_kids(n, prefix, upto).len(),
    decreases n, upto,
{
    if 0 < upto <= n.children@.len() {
        lemma_count_kids_is_len(n, prefix, upto - 1);
        lemma_count_is_len(
            n.children@[upto - 1],
            prefix.push(n.children@[upto - 1].value.unwrap()),
        );
    }
}

/// A held word makes every one of its prefixes an existing path.
proof fn lemma_search_gives_path(n: TrieNode, w: Seq<char>, p: Seq<char>)
    requires
        spec_search(n, w),
        p.is_prefix_of(w),
    ensures
        spec_has_path(n, p),
    decreases p.len(),
{
    if p.len() > 0 {
        assert(w.len() >= p.len());
        assert(p[0] == w[0]) by {
            assert(p =~= w.subrange(0, p.len() as int));
        }
        let child = spec_child(n, w[0]).unwrap();
        let w2 = w.subrange(1, w.len() as int);
        let p2 = p.subrange(1, p.len() as int);
        assert(p2.is_prefix_of(w2)) by {
            assert(p =~= w.subrange(0, p.len() as int));
            assert(p2 =~= w2.subrange(0, p2.len() as int));
        }
        lemma_search_gives_path(child, w2, p2);
    }
}

/// Every held word appears in the listing, under the given prefix.
proof fn lemma_words_complete(n: TrieNode, prefix: Seq<char>, w: Seq<char>)
    requires
        node_wf(n),
        spec_search(n, w),
    ensures
        spec_words(n, prefix).contains(prefix + w),
    decreases w.len(),
{
    if w.len() == 0 {
        assert(n.is_end_of_word);
        assert(prefix + w =~= prefix);
        assert(spec_words(n, prefix)[0] == prefix);
        assert(spec_words(n, prefix).contains(prefix));
    } else {
        let c = w[0];
        let cw = choose|i: int|
            0 <= i < n.children@.len() && (#[trigger] n.children@[i]).value == Some(c);
        assert(spec_child(n, c) == Some(n.children@[cw]));
        let child = n.children@[cw];
        assert(node_wf(child));
        let w2 = w.subrange(1, w.len() as int);
        lemma_words_complete(child, prefix.push(c), w2);
        assert(prefix.push(c) + w2 =~= prefix + w);
        lemma_kid_words_in(n, prefix, cw, n.children@.len() as int, prefix + w);
        let kids = spec_words_kids(n, prefix, n.children@.len() as int);
        let idx = choose|idx: int| 0 <= idx < kids.len() && kids[idx] == prefix + w;
        let head = if n.is_end_of_word {
            seq![prefix]
        } else {
            Seq::<Seq<char>>::empty()
        };
        assert(spec_words(n, prefix)[head.len() + idx] == prefix + w);
        assert(spec_words(n, prefix).contains(prefix + w));
    }
}

/// A word listed under one child is listed among the first `upto`
/// children, for any cover of that child.
proof fn lemma_kid_words_in(n: TrieNode, prefix: Seq<char>, ci: int, upto: int, x: Seq<char>)
    requires
        0 <= ci < upto <= n.children@.len(),
        spec_words(
            n.children@[ci],
            prefix.push(n.children@[ci].value.unwrap()),
        ).contains(x),
    ensures
        spec_words_kids(n, prefix, upto).contains(x),
    decreases upto,
{
    let block = spec_words(n.children@[upto - 1], prefix.push(n.children@[upto - 1].value.unwrap()));
    let rest = spec_words_kids(n, prefix, upto - 1);
    if ci == upto - 1 {
        let idx = choose|idx: int| 0 <= idx < block.len() && block[idx] == x;
        assert(spec_words_kids(n, prefix, upto)[rest.len() + idx] == x);
    } else {
        lemma_kid_words_in(n, prefix, ci, upto - 1, x);
        let idx = choose|idx: int| 0 <= idx < rest.len() && rest[idx] == x;
        assert(spec_words_kids(n, prefix, upto)[idx] == x);
    }
}

/// Every listed word is the prefix followed by a held word.
proof fn lemma_words_sound(n: TrieNode, prefix: Seq<char>, x: Seq<char>)
    requires
        node_wf(n),
        spec_words(n, prefix).contains(x),
    ensures
        exists|w: Seq<char>| x == prefix + w && #[trigger] spec_search(n, w),
    decreases n, n.children@.len() as int + 1,
{
    let head = if n.is_end_of_word {
        seq![prefix]
    } else {
        Seq::<Seq<char>>::empty()
    };
    let kids = spec_words_kids(n, prefix, n.children@.len() as int);
    let idx = choose|idx: int|
        0 <= idx < spec_words(n, prefix).len() && spec_words(n, prefix)[idx] == x;
    if idx < head.len() {
        assert(x == prefix);
        let w = Seq::<char>::empty();
        assert(x == prefix + w) by {
            assert(prefix + w =~= prefix);
        }
        assert(spec_search(n, w));
    } else {
        assert(kids[idx - head.len()] == x);
        assert(kids.contains(x));
        lemma_words_kids_sound(n, prefix, n.children@.len() as int, x);
        let k = choose|k: int|
            0 <= k < n.children@.len() && spec_words(
                #[trigger] n.children@[k],
                prefix.push(n.children@[k].value.unwrap()),
            ).contains(x);
        let kid = n.children@[k];
        let key = kid.value.unwrap();
        assert(node_wf(kid));
        lemma_words_sound(kid, prefix.push(key), x);
        let w2 = choose|w2: Seq<char>|
            x == prefix.push(key) + w2 && #[trigger] spec_search(kid, w2);
        let w = seq![key] + w2;
        assert(x == prefix + w) by {
            assert(prefix.push(key) + w2 =~= prefix + (seq![key] + w2));
        }
        assert(spec_search(n, w)) by {
            assert(w[0] == key);
            let cw = choose|i: int|
                0 <= i < n.children@.len() && (#[trigger] n.children@[i]).value == Some(key);
            assert(n.children@[k].value == Some(key));
            if cw != k {
                assert(n.children@[cw].value != n.children@[k].value);
            }
            assert(spec_child(n, key) == Some(kid));
            assert(w.subrange(1, w.len() as int) =~= w2);
        }
    }
}

/// A word listed among the first `upto` children is listed under
/// one of them.
proof fn lemma_words_kids_sound(n: TrieNode, prefix: Seq<char>, upto: int, x: Seq<char>)
    requires
        0 <= upto <= n.children@.len(),
        spec_words_kids(n, prefix, upto).contains(x),
    ensures
        exists|k: int|
            0 <= k < upto && spec_words(
                #[trigger] n.children@[k],
                prefix.push(n.children@[k].value.unwrap()),
            ).contains(x),
    decreases upto,
{
    let block = spec_words(n.children@[upto - 1], prefix.push(n.children@[upto - 1].value.unwrap()));
    let rest = spec_words_kids(n, prefix, upto - 1);
    let idx = choose|idx: int|
        0 <= idx < spec_words_kids(n, prefix, upto).len() && spec_words_kids(n, prefix, upto)[idx]
            == x;
    if idx < rest.len() {
        assert(rest[idx] == x);
        assert(rest.contains(x));
        lemma_words_kids_sound(n, prefix, upto - 1, x);
    } else {
        assert(block[idx - rest.len()] == x);
        assert(block.contains(x));
    }
}

/// The listing under a prefix holds no word twice: the word ending
/// here differs from every longer word below, and words below
/// different children differ at the first position after the
/// prefix.
proof fn lemma_words_nodup(n: TrieNode, prefix: Seq<char>)
    requires
        node_wf(n),
    ensures
        spec_words(n, prefix).no_duplicates(),
        forall|x: Seq<char>|
            #[trigger] spec_words(n, prefix).contains(x) ==> x.len() >= prefix.len()
                && x.subrange(0, prefix.len() as int) == prefix,
    decreases n, n.children@.len() as int + 1,
{
    lemma_words_kids_nodup(n, prefix, n.children@.len() as int);
    let whole = spec_words(n, prefix);
    let head = if n.is_end_of_word {
        seq![prefix]
    } else {
        Seq::<Seq<char>>::empty()
    };
    let kids = spec_words_kids(n, prefix, n.children@.len() as int);
    assert forall|i: int, j: int|
        0 <= i < whole.len() && 0 <= j < whole.len() && i != j implies whole[i] != whole[j] by {
        if i >= head.len() && j >= head.len() {
            assert(kids[i - head.len()] == whole[i] && kids[j - head.len()] == whole[j]);
        } else {
            let a = if i < j {
                i
            } else {
                j
            };
            let b = if i < j {
                j
            } else {
                i
            };
            if a < head.len() && b >= head.len() {
                assert(whole[a] == prefix);
                assert(kids[b - head.len()] == whole[b]);
                assert(kids.contains(whole[b]));
                assert(whole[b].len() > prefix.len());
            }
        }
    }
    assert forall|x: Seq<char>|
        #[trigger] whole.contains(x) implies x.len() >= prefix.len() && x.subrange(
        0,
        prefix.len() as int,
    ) == prefix by {
        let idx = choose|idx: int| 0 <= idx < whole.len() && whole[idx] == x;
        if idx < head.len() {
            assert(x == prefix);
            assert(x.subrange(0, prefix.len() as int) =~= prefix);
        } else {
            assert(kids[idx - head.len()] == x);
            assert(kids.contains(x));
        }
    }
}

/// The kid-level part of the no-duplicates argument.
proof fn lemma_words_kids_nodup(n: TrieNode, prefix: Seq<char>, upto: int)
    requires
        node_wf(n),
        0 <= upto <= n.children@.len(),
    ensures
        spec_words_kids(n, prefix, upto).no_duplicates(),
        forall|x: Seq<char>|
            #[trigger] spec_words_kids(n, prefix, upto).contains(x) ==> x.len() > prefix.len()
                && x.subrange(0, prefix.len() as int) == prefix && (exists|k2: int|
                0 <= k2 < upto && x[prefix.len() as int] == (#[trigger] n.children@[k2]).value.unwrap()),
    decreases n, upto,
{
    if upto > 0 {
        lemma_words_kids_nodup(n, prefix, upto - 1);
        let kid = n.children@[upto - 1];
        let key = kid.value.unwrap();
        let prefix2 = prefix.push(key);
        assert(node_wf(kid));
        lemma_words_nodup(kid, prefix2);
        let block = spec_words(kid, prefix2);
        let rest = spec_words_kids(n, prefix, upto - 1);
        let whole = spec_words_kids(n, prefix, upto);
        assert forall|x: Seq<char>| #[trigger] block.contains(x) implies x.len() > prefix.len()
            && x.subrange(0, prefix.len() as int) == prefix && x[prefix.len() as int] == key by {
            assert(x.len() >= prefix2.len());
            assert(x.subrange(0, prefix2.len() as int) == prefix2);
            assert(x[prefix.len() as int] == prefix2[prefix.len() as int]);
            assert(x.subrange(0, prefix.len() as int) =~= prefix) by {
                assert forall|q: int| 0 <= q < prefix.len() implies x.subrange(
                    0,
                    prefix.len() as int,
                )[q] == prefix[q] by {
                    assert(x.subrange(0, prefix2.len() as int)[q] == prefix2[q]);
                }
            }
        }
        assert forall|i: int, j: int|
            0 <= i < whole.len() && 0 <= j < whole.len() && i != j implies whole[i] != whole[j] by {
            let a = if i < j {
                i
            } else {
                j
            };
            let b = if i < j {
                j
            } else {
                i
            };
            if b < rest.len() {
                assert(rest[a] == whole[a] && rest[b] == whole[b]);
            } else if a >= rest.len() {
                assert(block[a - rest.len()] == whole[a] && block[b - rest.len()] == whole[b]);
            } else {
                assert(rest[a] == whole[a]);
                assert(rest.contains(whole[a]));
                assert(block[b - rest.len()] == whole[b]);
                assert(block.contains(whole[b]));
                let k2 = choose|k2: int|
                    0 <= k2 < upto - 1 && whole[a][prefix.len() as int] == (
                    #[trigger] n.children@[k2]).value.unwrap();
                assert(n.children@[k2].value != n.children@[upto - 1].value);
                assert(n.children@[k2].value is Some && n.children@[upto - 1].value is Some);
                assert(whole[a][prefix.len() as int] != key);
                assert(whole[b][prefix.len() as int] == key);
            }
        }
        assert forall|x: Seq<char>|
            #[trigger] whole.contains(x) implies x.len() > prefix.len() && x.subrange(
            0,
            prefix.len() as int,
        ) == prefix && (exists|k2: int|
            0 <= k2 < upto && x[prefix.len() as int] == (
            #[trigger] n.children@[k2]).value.unwrap()) by {
            let idx = choose|idx: int| 0 <= idx < whole.len() && whole[idx] == x;
            if idx < rest.len() {
                assert(rest[idx] == x);
                assert(rest.contains(x));
                let k2 = choose|k2: int|
                    0 <= k2 < upto - 1 && x[prefix.len() as int] == (
                    #[trigger] n.children@[k2]).value.unwrap();
                assert(0 <= k2 < upto && x[prefix.len() as int] == n.children@[k2].value.unwrap());
            } else {
                assert(block[idx - rest.len()] == x);
                assert(block.contains(x));
                assert(x[prefix.len() as int] == n.children@[upto - 1].value.unwrap());
            }
        }
    }
}

/// A trie's word count is the cardinality of its word set, so two
/// valid tries' counts compare as their word sets do.
proof fn lemma_word_set_count(t0: Trie, t1: Trie)
    requires
        t0.wf(),
        t1.wf(),
    ensures
        t0.word_count() == t0.word_list().to_set().len(),
        t1.word_count() == t1.word_list().to_set().len(),
        t0.word_list().to_set().finite(),
        t1.word_list().to_set().finite(),
        forall|w: Seq<char>| t0.word_list().to_set().contains(w) <==> t0.has_word(w),
        forall|w: Seq<char>| t1.word_list().to_set().contains(w) <==> t1.has_word(w),
{
    broadcast use vstd::seq_lib::seq_to_set_is_finite;

    t0.lemma_count_is_list_len();
    t1.lemma_count_is_list_len();
    t0.lemma_word_list_no_duplicates();
    t1.lemma_word_list_no_duplicates();
    t0.word_list().unique_seq_to_set();
    t1.word_list().unique_seq_to_set();
    assert forall|w: Seq<char>| t0.word_list().to_set().contains(w) <==> t0.has_word(w) by {
        t0.lemma_word_list_members(w);
    }
    assert forall|w: Seq<char>| t1.word_list().to_set().contains(w) <==> t1.has_word(w) by {
        t1.lemma_word_list_members(w);
    }
}

/// A pruned, valid node that is nonempty or ends a word serves some
/// word.
proof fn lemma_pruned_nonempty_word(n: TrieNode)
    requires
        node_wf(n),
        node_pruned(n),
        n.children@.len() > 0 || n.is_end_of_word,
    ensures
        exists|w: Seq<char>| spec_search(n, w),
{
    if n.is_end_of_word {
        assert(spec_search(n, Seq::<char>::empty()));
    } else {
        let kid = n.children@[0];
        let key = kid.value.unwrap();
        assert(node_pruned(kid) && (exists|w2: Seq<char>| spec_search(kid, w2)));
        let w_c = choose|w2: Seq<char>| spec_search(kid, w2);
        let cw = choose|i: int|
            0 <= i < n.children@.len() && (#[trigger] n.children@[i]).value == Some(key);
        assert(n.children@[0].value == Some(key));
        if cw != 0 {
            assert(n.children@[cw].value != n.children@[0].value);
        }
        assert(spec_child(n, key) == Some(kid));
        let w = seq![key] + w_c;
        assert(w[0] == key);
        assert(w.subrange(1, w.len() as int) =~= w_c);
        assert(spec_search(n, w));
    }
}

/// In a pruned, valid node every nonempty path leads toward some
/// held word.
proof fn lemma_path_word(n: TrieNode, p: Seq<char>)
    requires
        node_wf(n),
        node_pruned(n),
        spec_has_path(n, p),
        p.len() >= 1,
    ensures
        exists|w: Seq<char>| spec_search(n, w) && p.is_prefix_of(w),
    decreases p.len(),
{
    let c = p[0];
    let cw = choose|i: int|
        0 <= i < n.children@.len() && (#[trigger] n.children@[i]).value == Some(c);
    assert(spec_child(n, c) == Some(n.children@[cw]));
    let child = n.children@[cw];
    assert(node_wf(child));
    assert(node_pruned(child) && (exists|w2: Seq<char>| spec_search(child, w2)));
    if p.len() == 1 {
        let w_c = choose|w2: Seq<char>| spec_search(child, w2);
        let w = seq![c] + w_c;
        assert(w[0] == c);
        assert(w.subrange(1, w.len() as int) =~= w_c);
        assert(spec_search(n, w));
        assert(p.is_prefix_of(w)) by {
            assert(p =~= w.subrange(0, 1));
        }
    } else {
        let p2 = p.subrange(1, p.len() as int);
        assert(spec_has_path(child, p2));
        lemma_path_word(child, p2);
        let w2 = choose|w2: Seq<char>| spec_search(child, w2) && #[trigger] p2.is_prefix_of(w2);
        let w = seq![c] + w2;
        assert(w[0] == c);
        assert(w.subrange(1, w.len() as int) =~= w2);
        assert(spec_search(n, w));
        assert(p.is_prefix_of(w)) by {
            assert(p2 =~= w2.subrange(0, p2.len() as int));
            assert forall|q: int|
                0 <= q < p.len() implies p[q] == w.subrange(0, p.len() as int)[q] by {
                if q > 0 {
                    assert(p[q] == p2[q - 1]);
                    assert(w2.subrange(0, p2.len() as int)[q - 1] == w2[q - 1]);
                    assert(w[q] == w2[q - 1]);
                }
            }
            assert(p =~= w.subrange(0, p.len() as int));
        }
    }
}

/// Relies on `str::chars` and `Iterator::collect`: the characters of
/// the string, in order.
#[verifier::external_body]
fn str_to_chars(s: &str) -> (r: Vec<char>)
    ensures
        r@ == s@,
{
    s.chars().collect()
}

/// Relies on `Iterator::collect` for `String`: a string holding
/// exactly the characters of the vector, in order.
#[verifier::external_body]
fn chars_to_string(v: &Vec<char>) -> (r: String)
    ensures
        r@ == v@,
{
    v.iter().collect()
}

/// The position of the child keyed by the character, if any.
fn find_child(n: &TrieNode, c: char) -> (r: Option<usize>)
    requires
        kids_wf(n.children@),
    ensures
        match r {
            Some(i) => i < n.children@.len() && n.children@[i as int].value == Some(c)
                && spec_child(*n, c) == Some(n.children@[i as int]),
            None => spec_child(*n, c) is None,
        },
{
    let mut i: usize = 0;
    while i < n.children.len()
        invariant
            kids_wf(n.children@),
            i <= n.children@.len(),
            forall|j: int| 0 <= j < i ==> (#[trigger] n.children@[j]).value != Some(c),
        decreases n.children@.len() - i,
    {
        if let Some(cv) = n.children[i].value {
            if cv == c {
                proof {
                    let w = choose|w: int|
                        0 <= w < n.children@.len() && (#[trigger] n.children@[w]).value == Some(c);
                    if w != i {
                        assert(n.children@[w].value != n.children@[i as int].value);
                    }
                }
                return Some(i);
            }
        }
        i = i + 1;
    }
    proof {
        if exists|j: int| 0 <= j < n.children@.len() && (#[trigger] n.children@[j]).value == Some(
            c,
        ) {
            let j = choose|j: int|
                0 <= j < n.children@.len() && (#[trigger] n.children@[j]).value == Some(c);
            assert(false);
        }
    }
    None
}

/// Record the word's suffix from the given position below this node.
fn insert_rec(node: &mut TrieNode, word: &Vec<char>, i: usize)
    requires
        node_wf(*old(node)),
        i <= word@.len(),
    ensures
        node_wf(*final(node)),
        final(node).value == old(node).value,
        forall|w: Seq<char>|
            #![trigger spec_search(*final(node), w)]
            spec_search(*final(node), w) <==> (spec_search(*old(node), w) || w == word@.subrange(
                i as int,
                word@.len() as int,
            )),
        node_pruned(*old(node)) ==> node_pruned(*final(node)),
        spec_search(*final(node), word@.subrange(i as int, word@.len() as int)),
    decreases word@.len() - i,
{
    let ghost n0 = *node;
    let ghost suffix = word@.subrange(i as int, word@.len() as int);
    if i == word.len() {
        node.is_end_of_word = true;
        proof {
            assert(suffix =~= Seq::<char>::empty());
            assert forall|w: Seq<char>|
                spec_search(*node, w) <==> (spec_search(n0, w) || w == suffix) by {
                if w.len() == 0 {
                    assert(w =~= suffix);
                } else {
                    assert(spec_child(*node, w[0]) == spec_child(n0, w[0]));
                }
            }
            assert(node_pruned(n0) ==> node_pruned(*node)) by {
                if node_pruned(n0) {
                    lemma_pruned_same_children(n0, *node);
                }
            }
        }
    } else {
        let c = word[i];
        match find_child(node, c) {
            Some(ci) => {
                let mut child = node.children.remove(ci);
                let ghost child0 = child;
                insert_rec(&mut child, word, i + 1);
                let ghost child1 = child;
                node.children.insert(ci, child);
                proof {
                    assert(node.children@ =~= n0.children@.update(ci as int, child1));
                    lemma_child_update(n0.children@, child1, ci as int, c);
                    assert forall|j: int| 0 <= j < node.children@.len() implies node_wf(
                        #[trigger] node.children@[j],
                    ) by {
                        if j != ci {
                            assert(node.children@[j] == n0.children@[j]);
                            assert(node_wf(n0.children@[j]));
                        }
                    }
                    assert forall|w: Seq<char>|
                        #![trigger spec_search(*node, w)]
                        spec_search(*node, w) <==> (spec_search(n0, w) || w == suffix) by {
                        if w.len() == 0 {
                            assert(w != suffix);
                        } else if w[0] == c {
                            assert(spec_child(*node, c) == Some(child1));
                            assert(spec_child(n0, c) == Some(child0));
                            let rest = w.subrange(1, w.len() as int);
                            assert(spec_search(child1, rest) <==> (spec_search(child0, rest)
                                || rest == word@.subrange(i + 1, word@.len() as int)));
                            lemma_suffix_cons(word@, i as int, w);
                        } else {
                            assert(spec_child(*node, w[0]) == spec_child(n0, w[0]));
                            assert(w != suffix) by {
                                if w == suffix {
                                    assert(suffix[0] == c);
                                }
                            }
                        }
                    }
                    assert(node_pruned(n0) ==> node_pruned(*node)) by {
                        if node_pruned(n0) {
                            assert(child0 == n0.children@[ci as int]);
                            lemma_unfold_pruned(n0, ci as int);
                            assert(node_pruned(child0));
                            assert(node_pruned(child1));
                            assert(spec_search(
                                child1,
                                word@.subrange(i + 1, word@.len() as int),
                            ));
                            lemma_pruned_update_child(n0, *node, ci as int, child1);
                        }
                    }
                    assert(spec_search(*node, suffix));
                }
            },
            None => {
                let mut child = TrieNode { value: Some(c), is_end_of_word: false, children: Vec::new() };
                let ghost fresh = child;
                insert_rec(&mut child, word, i + 1);
                let ghost child1 = child;
                node.children.push(child);
                proof {
                    lemma_child_push(n0.children@, child1, c);
                    assert forall|j: int| 0 <= j < node.children@.len() implies node_wf(
                        #[trigger] node.children@[j],
                    ) by {
                        if j < n0.children@.len() {
                            assert(node.children@[j] == n0.children@[j]);
                            assert(node_wf(n0.children@[j]));
                        } else {
                            assert(node.children@[j] == child1);
                        }
                    }
                    assert forall|w: Seq<char>|
                        #![trigger spec_search(*node, w)]
                        spec_search(*node, w) <==> (spec_search(n0, w) || w == suffix) by {
                        if w.len() == 0 {
                            assert(w != suffix);
                        } else if w[0] == c {
                            assert(spec_child(*node, c) == Some(child1));
                            assert(spec_child(n0, c) is None);
                            let rest = w.subrange(1, w.len() as int);
                            lemma_leaf_wordless(fresh, rest);
                            assert(spec_search(child1, rest) <==> (spec_search(fresh, rest) || rest
                                == word@.subrange(i + 1, word@.len() as int)));
                            lemma_suffix_cons(word@, i as int, w);
                        } else {
                            assert(spec_child(*node, w[0]) == spec_child(n0, w[0]));
                            assert(w != suffix) by {
                                if w == suffix {
                                    assert(suffix[0] == c);
                                }
                            }
                        }
                    }
                    assert(node_pruned(n0) ==> node_pruned(*node)) by {
                        if node_pruned(n0) {
                            assert(node_pruned(fresh));
                            assert(node_pruned(child1));
                            assert(spec_search(
                                child1,
                                word@.subrange(i + 1, word@.len() as int),
                            ));
                            lemma_pruned_push_child(n0, *node, child1);
                        }
                    }
                    assert(spec_search(*node, suffix));
                }
            },
        }
    }
}

/// Whether the word's suffix from the given position is held below
/// this node.
fn search_rec(node: &TrieNode, word: &Vec<char>, i: usize) -> (r: bool)
    requires
        node_wf(*node),
        i <= word@.len(),
    ensures
        r == spec_search(*node, word@.subrange(i as int, word@.len() as int)),
    decreases word@.len() - i,
{
    let ghost suffix = word@.subrange(i as int, word@.len() as int);
    if i == word.len() {
        proof {
            assert(suffix =~= Seq::<char>::empty());
        }
        node.is_end_of_word
    } else {
        let c = word[i];
        proof {
            assert(suffix[0] == c);
        }
        match find_child(node, c) {
            Some(ci) => {
                let r = search_rec(&node.children[ci], word, i + 1);
                proof {
                    assert(suffix.subrange(1, suffix.len() as int) =~= word@.subrange(
                        i + 1,
                        word@.len() as int,
                    ));
                }
                r
            },
            None => false,
        }
    }
}

/// Whether the prefix's suffix from the given position is a path
/// below this node.
fn path_rec(node: &TrieNode, prefix: &Vec<char>, i: usize) -> (r: bool)
    requires
        node_wf(*node),
        i <= prefix@.len(),
    ensures
        r == spec_has_path(*node, prefix@.subrange(i as int, prefix@.len() as int)),
    decreases prefix@.len() - i,
{
    let ghost suffix = prefix@.subrange(i as int, prefix@.len() as int);
    if i == prefix.len() {
        proof {
            assert(suffix =~= Seq::<char>::empty());
        }
        true
    } else {
        let c = prefix[i];
        proof {
            assert(suffix[0] == c);
        }
        match find_child(node, c) {
            Some(ci) => {
                let r = path_rec(&node.children[ci], prefix, i + 1);
                proof {
                    assert(suffix.subrange(1, suffix.len() as int) =~= prefix@.subrange(
                        i + 1,
                        prefix@.len() as int,
                    ));
                }
                r
            },
            None => false,
        }
    }
}

/// A prefix tree over character strings; its abstract state is the
/// set of words it holds and the character paths that exist in it.
pub struct Trie {
    root: TrieNode,
}

impl Trie {
    #[verifier::type_invariant]
    closed spec fn inv(&self) -> bool {
        self.wf()
    }

    /// Whether the trie holds the word.
    pub closed spec fn has_word(self, w: Seq<char>) -> bool {
        spec_search(self.root, w)
    }

    /// Whether the character path exists in the trie; inserting a
    /// word creates the paths to each of its prefixes, and deleting
    /// one removes the paths that no remaining word needs.
    pub closed spec fn has_path(self, p: Seq<char>) -> bool {
        spec_has_path(self.root, p)
    }

    /// The number of words held.
    pub closed spec fn word_count(self) -> nat {
        spec_count(self.root)
    }

    /// The words held, in trie order: a word ending at a node comes
    /// before the words below it, and children are ordered by
    /// insertion.
    pub closed spec fn word_list(self) -> Seq<Seq<char>> {
        spec_words(self.root, Seq::empty())
    }

    /// The trie's structural validity: every operation of this type
    /// returns or leaves a valid trie, and the lemmas below assume
    /// one.
    pub closed spec fn wf(self) -> bool {
        node_wf(self.root) && node_pruned(self.root)
    }

    /// The empty character path exists in every trie.
    pub proof fn lemma_empty_path(self)
        ensures
            self.has_path(Seq::empty()),
    {
    }

    /// A held word makes every one of its prefixes an existing path;
    /// in particular a held word is itself a path.
    pub proof fn lemma_word_gives_path(self, w: Seq<char>, p: Seq<char>)
        requires
            self.has_word(w),
            p.is_prefix_of(w),
        ensures
            self.has_path(p),
    {
        lemma_search_gives_path(self.root, w, p);
    }

    /// The word count is the length of the word listing.
    pub proof fn lemma_count_is_list_len(self)
        ensures
            self.word_count() == self.word_list().len(),
    {
        lemma_count_is_len(self.root, Seq::empty());
    }

    /// The word listing holds exactly the held words.
    pub proof fn lemma_word_list_members(self, w: Seq<char>)
        requires
            self.wf(),
        ensures
            self.word_list().contains(w) <==> self.has_word(w),
    {
        if self.has_word(w) {
            lemma_words_complete(self.root, Seq::empty(), w);
            assert(Seq::empty() + w =~= w);
        }
        if self.word_list().contains(w) {
            lemma_words_sound(self.root, Seq::empty(), w);
            let w2 = choose|w2: Seq<char>|
                w == Seq::empty() + w2 && #[trigger] spec_search(self.root, w2);
            assert(Seq::empty() + w2 =~= w2);
        }
    }

    /// The word listing holds each word once.
    pub proof fn lemma_word_list_no_duplicates(self)
        requires
            self.wf(),
        ensures
            self.word_list().no_duplicates(),
    {
        lemma_words_nodup(self.root, Seq::empty());
    }

    /// Every nonempty existing path leads toward some held word, so
    /// paths exist exactly for the prefixes of held words.
    pub proof fn lemma_path_gives_word(self, p: Seq<char>)
        requires
            self.wf(),
            self.has_path(p),
            p.len() >= 1,
        ensures
            exists|w: Seq<char>| self.has_word(w) && p.is_prefix_of(w),
    {
        lemma_path_word(self.root, p);
        let w = choose|w: Seq<char>| spec_search(self.root, w) && #[trigger] p.is_prefix_of(w);
        assert(self.has_word(w) && p.is_prefix_of(w));
    }

    /// Create a trie with no words and no paths.
    pub fn new() -> (t: Trie)
        ensures
            t.wf(),
            t.word_count() == 0,
            forall|w: Seq<char>| !t.has_word(w),
            forall|p: Seq<char>| p.len() >= 1 ==> !t.has_path(p),
    {
        let t = Trie { root: TrieNode { value: None, is_end_of_word: false, children: Vec::new() } };
        proof {
            assert(node_pruned(t.root));
            assert forall|w: Seq<char>| !t.has_word(w) by {
                lemma_leaf_wordless(t.root, w);
            }
            assert forall|p: Seq<char>| p.len() >= 1 implies !t.has_path(p) by {
                if exists|i: int|
                    0 <= i < t.root.children@.len() && (#[trigger] t.root.children@[i]).value
                        == Some(p[0]) {
                    assert(false);
                }
            }
        }
        t
    }

    /// Add a word; the trie then holds exactly the old words and the
    /// new one.
    pub fn insert(&mut self, word: &str)
        ensures
            final(self).wf(),
            forall|w: Seq<char>|
                final(self).has_word(w) <==> (old(self).has_word(w) || w == word@),
            final(self).word_count() == old(self).word_count() + (if old(self).has_word(word@) {
                0nat
            } else {
                1nat
            }),
    {
        proof {
            use_type_invariant(&*self);
        }
        let chars = str_to_chars(word);
        let mut root = TrieNode { value: None, is_end_of_word: false, children: Vec::new() };
        core::mem::swap(&mut root, &mut self.root);
        insert_rec(&mut root, &chars, 0);
        proof {
            assert(chars@.subrange(0, chars@.len() as int) =~= word@);
        }
        self.root = root;
        proof {
            lemma_word_set_count(*old(self), *self);
            assert forall|x: Seq<char>|
                self.word_list().to_set().contains(x) <==> (old(self).word_list().to_set().contains(
                    x,
                ) || x == word@) by {
                assert(self.has_word(x) <==> (old(self).has_word(x) || x == word@));
            }
            assert(self.word_count() == old(self).word_count() + (if old(self).has_word(word@) {
                0nat
            } else {
                1nat
            })) by {
                if old(self).has_word(word@) {
                    assert(old(self).word_list().to_set().contains(word@));
                    assert(self.word_list().to_set() =~= old(self).word_list().to_set());
                } else {
                    assert(!old(self).word_list().to_set().contains(word@));
                    assert(self.word_list().to_set() =~= old(self).word_list().to_set().insert(
                        word@,
                    ));
                }
            }
        }
    }

    /// Whether the word was inserted and not deleted since.
    pub fn search(&self, word: &str) -> (r: bool)
        ensures
            r == self.has_word(word@),
    {
        proof {
            use_type_invariant(self);
        }
        let chars = str_to_chars(word);
        let r = search_rec(&self.root, &chars, 0);
        proof {
            assert(chars@.subrange(0, chars@.len() as int) =~= word@);
        }
        r
    }

    /// Whether the character path exists in the trie.
    pub fn starts_with(&self, prefix: &str) -> (r: bool)
        ensures
            r == self.has_path(prefix@),
    {
        proof {
            use_type_invariant(self);
        }
        let chars = str_to_chars(prefix);
        let r = path_rec(&self.root, &chars, 0);
        proof {
            assert(chars@.subrange(0, chars@.len() as int) =~= prefix@);
        }
        r
    }

    /// Remove a word; the trie then holds exactly the old words but
    /// that one. Nodes that no longer serve any word are pruned.
    pub fn delete(&mut self, word: &str)
        ensures
            final(self).wf(),
            forall|w: Seq<char>|
                final(self).has_word(w) <==> (old(self).has_word(w) && w != word@),
            old(self).word_count() == final(self).word_count() + (if old(self).has_word(word@) {
                1nat
            } else {
                0nat
            }),
    {
        proof {
            use_type_invariant(&*self);
        }
        let chars = str_to_chars(word);
        let mut root = TrieNode { value: None, is_end_of_word: false, children: Vec::new() };
        core::mem::swap(&mut root, &mut self.root);
        let _ = delete_rec(&mut root, &chars, 0);
        proof {
            assert(chars@.subrange(0, chars@.len() as int) =~= word@);
        }
        self.root = root;
        proof {
            lemma_word_set_count(*old(self), *self);
            assert forall|x: Seq<char>|
                self.word_list().to_set().contains(x) <==> (old(self).word_list().to_set().contains(
                    x,
                ) && x != word@) by {
                assert(self.has_word(x) <==> (old(self).has_word(x) && x != word@));
            }
            assert(old(self).word_count() == self.word_count() + (if old(self).has_word(word@) {
                1nat
            } else {
                0nat
            })) by {
                if old(self).has_word(word@) {
                    assert(!self.word_list().to_set().contains(word@));
                    assert(old(self).word_list().to_set() =~= self.word_list().to_set().insert(
                        word@,
                    ));
                } else {
                    assert(self.word_list().to_set() =~= old(self).word_list().to_set());
                }
            }
        }
    }

    /// The number of words held, clipped at the machine-word bound.
    pub fn count_words(&self) -> (r: usize)
        ensures
            self.wf(),
            r as nat == cap_usize(self.word_count()),
    {
        proof {
            use_type_invariant(self);
        }
        count_rec(&self.root)
    }

    /// The words held, in trie order.
    pub fn list_words(&self) -> (r: Vec<String>)
        ensures
            self.wf(),
            r@.map_values(|s: String| s@) == self.word_list(),
    {
        proof {
            use_type_invariant(self);
        }
        let mut words: Vec<String> = Vec::new();
        let mut prefix: Vec<char> = Vec::new();
        list_rec(&self.root, &mut prefix, &mut words);
        proof {
            assert(words@.map_values(|s: String| s@) =~= self.word_list());
        }
        words
    }

    /// Remove every word and every path.
    pub fn clear(&mut self)
        ensures
            final(self).wf(),
            final(self).word_count() == 0,
            forall|w: Seq<char>| !final(self).has_word(w),
            forall|p: Seq<char>| p.len() >= 1 ==> !final(self).has_path(p),
    {
        self.root = TrieNode { value: None, is_end_of_word: false, children: Vec::new() };
        proof {
            assert(node_pruned(self.root));
            assert forall|w: Seq<char>| !self.has_word(w) by {
                lemma_leaf_wordless(self.root, w);
            }
            assert forall|p: Seq<char>| p.len() >= 1 implies !self.has_path(p) by {
                if exists|i: int|
                    0 <= i < self.root.children@.len() && (#[trigger] self.root.children@[i]).value
                        == Some(p[0]) {
                    assert(false);
                }
            }
        }
    }

    /// Whether no single-character path exists: the root has no
    /// children, as after `new`, `clear`, or deleting every word.
    pub fn is_empty(&self) -> (r: bool)
        ensures
            self.wf(),
            r <==> (forall|c: char| !self.has_path(seq![c])),
    {
        proof {
            use_type_invariant(self);
        }
        let r = self.root.children.len() == 0;
        proof {
            if r {
                assert forall|c: char| !self.has_path(seq![c]) by {
                    let p = seq![c];
                    assert(p[0] == c);
                    if exists|i: int|
                        0 <= i < self.root.children@.len() && (
                        #[trigger] self.root.children@[i]).value == Some(c) {
                        assert(false);
                    }
                }
            } else {
                let c0 = self.root.children@[0].value.unwrap();
                assert(self.root.children@[0].value == Some(c0));
                let p = seq![c0];
                assert(p[0] == c0);
                assert(spec_child(self.root, c0) is Some);
                let ch = spec_child(self.root, c0).unwrap();
                assert(spec_has_path(ch, Seq::<char>::empty()));
                assert(p.subrange(1, p.len() as int) =~= Seq::<char>::empty());
                assert(self.has_path(p));
            }
        }
        r
    }
}

/// Remove the word's suffix from the given position below this
/// node; the answer says whether the node now serves no word and
/// can be pruned by its parent.
fn delete_rec(node: &mut TrieNode, word: &Vec<char>, i: usize) -> (r: bool)
    requires
        node_wf(*old(node)),
        i <= word@.len(),
    ensures
        node_wf(*final(node)),
        final(node).value == old(node).value,
        forall|w: Seq<char>|
            #![trigger spec_search(*final(node), w)]
            spec_search(*final(node), w) <==> (spec_search(*old(node), w) && w != word@.subrange(
                i as int,
                word@.len() as int,
            )),
        r ==> final(node).children@.len() == 0 && !final(node).is_end_of_word,
        node_pruned(*old(node)) ==> node_pruned(*final(node)),
        (!r && node_pruned(*old(node)) && (exists|w: Seq<char>|
            spec_search(*old(node), w))) ==> (exists|w: Seq<char>|
            spec_search(*final(node), w)),
    decreases word@.len() - i,
{
    let ghost n0 = *node;
    let ghost suffix = word@.subrange(i as int, word@.len() as int);
    if i == word.len() {
        proof {
            assert(suffix =~= Seq::<char>::empty());
        }
        if node.is_end_of_word {
            node.is_end_of_word = false;
            let r_val = node.children.len() == 0;
            proof {
                assert forall|w: Seq<char>|
                    #![trigger spec_search(*node, w)]
                    spec_search(*node, w) <==> (spec_search(n0, w) && w != suffix) by {
                    if w.len() == 0 {
                        assert(w =~= suffix);
                    } else {
                        assert(spec_child(*node, w[0]) == spec_child(n0, w[0]));
                    }
                }
            assert(node_pruned(n0) ==> node_pruned(*node)) by {
                if node_pruned(n0) {
                    lemma_pruned_same_children(n0, *node);
                }
            }
                if !r_val && node_pruned(n0) {
                    lemma_pruned_nonempty_word(*node);
                }
            }
            r_val
        } else {
            proof {
                assert forall|w: Seq<char>|
                    #![trigger spec_search(*node, w)]
                    spec_search(*node, w) <==> (spec_search(n0, w) && w != suffix) by {
                    if w.len() == 0 {
                        assert(!spec_search(n0, w));
                    }
                }
                assert(*node == n0);
            }
            false
        }
    } else {
        let c = word[i];
        proof {
            assert(suffix[0] == c);
        }
        match find_child(node, c) {
            Some(ci) => {
                let mut child = node.children.remove(ci);
                let ghost child0 = child;
                let prune = delete_rec(&mut child, word, i + 1);
                let ghost child1 = child;
                if prune {
                    proof {
                        lemma_child_remove(n0.children@, ci as int, c);
                        assert(node.children@ == n0.children@.remove(ci as int));
                        assert forall|j: int| 0 <= j < node.children@.len() implies node_wf(
                            #[trigger] node.children@[j],
                        ) by {
                            let j0 = if j < ci {
                                j
                            } else {
                                j + 1
                            };
                            assert(node.children@[j] == n0.children@[j0]);
                            assert(node_wf(n0.children@[j0]));
                        }
                        assert forall|w: Seq<char>|
                            #![trigger spec_search(*node, w)]
                            spec_search(*node, w) <==> (spec_search(n0, w) && w != suffix) by {
                            if w.len() == 0 {
                                assert(w != suffix);
                            } else if w[0] == c {
                                assert(spec_child(*node, c) is None);
                                assert(spec_child(n0, c) == Some(child0));
                                let rest = w.subrange(1, w.len() as int);
                                lemma_leaf_wordless(child1, rest);
                                assert(!(spec_search(child0, rest) && rest != word@.subrange(
                                    i + 1,
                                    word@.len() as int,
                                )));
                                if spec_search(n0, w) && w != suffix {
                                    assert(spec_search(child0, rest));
                                    assert(rest == word@.subrange(i + 1, word@.len() as int));
                                    lemma_suffix_cons(word@, i as int, w);
                                }
                            } else {
                                assert(spec_child(*node, w[0]) == spec_child(n0, w[0]));
                                assert(w != suffix) by {
                                    if w == suffix {
                                        assert(suffix[0] == c);
                                    }
                                }
                            }
                        }
                        assert(node_pruned(n0) ==> node_pruned(*node)) by {
                            if node_pruned(n0) {
                                lemma_pruned_remove_child(n0, *node, ci as int);
                            }
                        }
                    }
                } else {
                    node.children.insert(ci, child);
                    proof {
                        assert(node.children@ =~= n0.children@.update(ci as int, child1));
                        lemma_child_update(n0.children@, child1, ci as int, c);
                        assert forall|j: int| 0 <= j < node.children@.len() implies node_wf(
                            #[trigger] node.children@[j],
                        ) by {
                            if j != ci {
                                assert(node.children@[j] == n0.children@[j]);
                                assert(node_wf(n0.children@[j]));
                            }
                        }
                        assert forall|w: Seq<char>|
                            #![trigger spec_search(*node, w)]
                            spec_search(*node, w) <==> (spec_search(n0, w) && w != suffix) by {
                            if w.len() == 0 {
                                assert(w != suffix);
                            } else if w[0] == c {
                                assert(spec_child(*node, c) == Some(child1));
                                assert(spec_child(n0, c) == Some(child0));
                                let rest = w.subrange(1, w.len() as int);
                                assert(spec_search(child1, rest) <==> (spec_search(child0, rest)
                                    && rest != word@.subrange(i + 1, word@.len() as int)));
                                lemma_suffix_cons(word@, i as int, w);
                            } else {
                                assert(spec_child(*node, w[0]) == spec_child(n0, w[0]));
                                assert(w != suffix) by {
                                    if w == suffix {
                                        assert(suffix[0] == c);
                                    }
                                }
                            }
                        }
                        assert(node_pruned(n0) ==> node_pruned(*node)) by {
                            if node_pruned(n0) {
                                assert(child0 == n0.children@[ci as int]);
                                lemma_unfold_pruned(n0, ci as int);
                                assert(node_pruned(child0) && (exists|w2: Seq<char>|
                                    spec_search(child0, w2)));
                                assert(node_pruned(child1));
                                assert(exists|w2: Seq<char>| spec_search(child1, w2));
                                lemma_pruned_update_child(n0, *node, ci as int, child1);
                            }
                        }
                    }
                }
                let r_val = node.children.len() == 0 && !node.is_end_of_word;
                proof {
                    if !r_val && node_pruned(n0) {
                        lemma_pruned_nonempty_word(*node);
                    }
                }
                r_val
            },
            None => {
                proof {
                    assert forall|w: Seq<char>|
                        #![trigger spec_search(*node, w)]
                        spec_search(*node, w) <==> (spec_search(n0, w) && w != suffix) by {
                        if w == suffix {
                            assert(suffix[0] == c);
                            assert(spec_child(n0, c) is None);
                            assert(!spec_search(n0, w));
                        }
                    }
                    assert(*node == n0);
                }
                false
            },
        }
    }
}

/// Add two counts, clipping at the machine-word bound.
fn sat_add(a: usize, b: usize) -> (r: usize)
    ensures
        r as nat == cap_usize(a as nat + b as nat),
{
    if a > usize::MAX - b {
        usize::MAX
    } else {
        a + b
    }
}

/// Count the word-end marks below this node, clipping at the
/// machine-word bound.
fn count_rec(node: &TrieNode) -> (r: usize)
    requires
        node_wf(*node),
    ensures
        r as nat == cap_usize(spec_count(*node)),
    decreases *node,
{
    let mut acc: usize = 0;
    let mut k: usize = 0;
    let m = node.children.len();
    while k < m
        invariant
            node_wf(*node),
            m == node.children@.len(),
            k <= m,
            acc as nat == cap_usize(spec_count_kids(*node, k as int)),
        decreases m - k,
    {
        proof {
            assert(node_wf(node.children@[k as int]));
        }
        let sub = count_rec(&node.children[k]);
        acc = sat_add(acc, sub);
        k = k + 1;
    }
    if node.is_end_of_word {
        acc = sat_add(acc, 1);
    }
    acc
}

/// Append the words below this node, each prefixed by the path that
/// led here; the prefix is restored before returning.
fn list_rec(node: &TrieNode, prefix: &mut Vec<char>, words: &mut Vec<String>)
    requires
        node_wf(*node),
    ensures
        final(prefix)@ == old(prefix)@,
        final(words)@.map_values(|s: String| s@) == old(words)@.map_values(|s: String| s@)
            + spec_words(*node, old(prefix)@),
    decreases *node,
{
    let ghost w0 = words@.map_values(|s: String| s@);
    let ghost p0 = prefix@;
    if node.is_end_of_word {
        let word = chars_to_string(prefix);
        words.push(word);
        proof {
            assert(words@.map_values(|s: String| s@) =~= w0.push(p0));
        }
    }
    let ghost w1 = words@.map_values(|s: String| s@);
    proof {
        assert(w1 =~= w0 + (if node.is_end_of_word {
            seq![p0]
        } else {
            Seq::<Seq<char>>::empty()
        }));
    }
    let m = node.children.len();
    let mut k: usize = 0;
    while k < m
        invariant
            node_wf(*node),
            m == node.children@.len(),
            k <= m,
            prefix@ == p0,
            words@.map_values(|s: String| s@) == w1 + spec_words_kids(*node, p0, k as int),
        decreases m - k,
    {
        proof {
            assert(node_wf(node.children@[k as int]));
            assert(node.children@[k as int].value is Some);
        }
        let c = match node.children[k].value {
            Some(c) => c,
            None => {
                proof {
                    assert(false);
                }
                return ;
            },
        };
        prefix.push(c);
        proof {
            assert(prefix@ == p0.push(c));
            assert(node.children@[k as int].value.unwrap() == c);
        }
        list_rec(&node.children[k], prefix, words);
        if let Some(_) = prefix.pop() {
        }
        proof {
            assert(prefix@ =~= p0);
            assert(words@.map_values(|s: String| s@) =~= w1 + spec_words_kids(
                *node,
                p0,
                k + 1,
            ));
        }
        k = k + 1;
    }
    proof {
        assert(words@.map_values(|s: String| s@) =~= w0 + spec_words(*node, p0));
    }
}

} // verus!
