//! A prefix tree for a canonical code, with a cursor that advances one bit at
//! a time.
//!
//! The tree is a flat list of nodes; the root is node 0, and a child index of
//! 0 means that there is no child on that side.

use crate::huffman::canonical::admissible;
use crate::huffman::canonical::begins_word_below;
use crate::huffman::canonical::code_of;
use crate::huffman::canonical::codeword;
use crate::huffman::canonical::count_of;
use crate::huffman::canonical::first_code;
use crate::huffman::canonical::is_prefix_code;
use crate::huffman::canonical::is_used;
use crate::huffman::canonical::is_word;
use crate::huffman::canonical::kraft_holds;
use crate::huffman::canonical::lemma_prefix_code_iff_kraft;
use crate::huffman::canonical::symbol_of;
use crate::huffman::canonical::walk;
use crate::huffman::canonical::word_of;
use crate::huffman::canonical::Walk;
use crate::power::lemma_two_to_positive;
use crate::power::lemma_two_to_values;
use crate::power::power_of_two;
use crate::power::two_to;
use vstd::prelude::*;

verus! {

/// One node of the tree.
#[derive(Clone, Copy, Debug, PartialEq, Eq, Structural)]
pub enum Node {
    /// The end of a word: the symbol that the word stands for.
    Leaf { symbol: u16 },
    /// An inner node with the indices of its two children, 0 for none.
    Branch { zero: usize, one: usize },
}

/// What one bit does to a cursor.
#[derive(Clone, Copy, Debug, PartialEq, Eq, Structural)]
pub enum Step {
    /// The bits so far begin a word: go on from this node.
    Descend(usize),
    /// The bits so far are the word of this symbol.
    Resolved(u16),
}

/// The child of `node` on the side of `bit`, 0 for none.
pub open spec fn child(node: Node, bit: bool) -> int {
    match node {
        Node::Leaf { .. } => 0,
        Node::Branch { zero, one } => if bit {
            one as int
        } else {
            zero as int
        },
    }
}

/// The node reached from the root along `word`, if the tree goes that far.
pub open spec fn descend(nodes: Seq<Node>, word: Seq<bool>) -> Option<int>
    decreases word.len(),
{
    if word.len() == 0 {
        Some(0int)
    } else {
        match descend(nodes, word.drop_last()) {
            Some(i) => {
                let c = child(nodes[i], word.last());
                if 0 < c < nodes.len() {
                    Some(c)
                } else {
                    None
                }
            },
            None => None,
        }
    }
}

/// The shape of a tree: node 0 is an inner node, children lie within the
/// list, and `paths` names for each node the one word that leads to it.
pub open spec fn structure(nodes: Seq<Node>, paths: Seq<Seq<bool>>) -> bool {
    &&& nodes.len() >= 1
    &&& nodes.len() == paths.len()
    &&& nodes[0] is Branch
    &&& paths[0] == Seq::<bool>::empty()
    &&& forall|i: int|
        #![trigger nodes[i]]
        0 <= i < nodes.len() ==> child(nodes[i], false) < nodes.len() && child(nodes[i], true)
            < nodes.len()
    &&& forall|w: Seq<bool>|
        #![trigger descend(nodes, w)]
        descend(nodes, w) matches Some(i) ==> 0 <= i < nodes.len() && paths[i] == w
    &&& forall|i: int|
        #![trigger paths[i]]
        0 <= i < nodes.len() ==> descend(nodes, paths[i]) == Some(i)
}

/// What the tree holds once the symbols below `limit` are in it: each leaf
/// ends the word of one of them, each of them has its leaf, and each inner
/// node lies on the way to one of them or on the way along `pending`.
pub open spec fn labelled(nodes: Seq<Node>, lengths: Seq<u8>, limit: int, pending: Seq<bool>) -> bool {
    &&& forall|w: Seq<bool>|
        #![trigger descend(nodes, w)]
        descend(nodes, w) matches Some(i) ==> match nodes[i] {
            Node::Leaf { symbol } => symbol < limit && is_used(lengths, symbol as int) && w
                == codeword(lengths, symbol as int),
            Node::Branch { .. } => w.len() == 0 || w.is_prefix_of(pending) || begins_word_below(
                lengths,
                limit,
                w,
            ),
        }
    &&& forall|s: int|
        #![trigger codeword(lengths, s)]
        0 <= s < limit && is_used(lengths, s) ==> (descend(nodes, codeword(lengths, s)) matches Some(
            i,
        ) && nodes[i] == (Node::Leaf { symbol: s as u16 }))
}

/// `node` with the child on the side of `bit` set to `target`.
pub open spec fn with_child(node: Node, bit: bool, target: usize) -> Node {
    match node {
        Node::Leaf { symbol } => Node::Leaf { symbol },
        Node::Branch { zero, one } => if bit {
            Node::Branch { zero, one: target }
        } else {
            Node::Branch { zero: target, one }
        },
    }
}

/// Whether `node` has no child.
pub open spec fn childless(node: Node) -> bool {
    child(node, false) == 0 && child(node, true) == 0
}

/// The node list after hanging `fresh` under node `at` on the side of `bit`.
pub open spec fn grafted(nodes: Seq<Node>, at: int, bit: bool, fresh: Node) -> Seq<Node> {
    nodes.update(at, with_child(nodes[at], bit, nodes.len() as usize)).push(fresh)
}

/// Hanging a new node changes one walk only: the one that ends on it.
proof fn lemma_graft_walk(
    nodes: Seq<Node>,
    paths: Seq<Seq<bool>>,
    at: int,
    bit: bool,
    fresh: Node,
    w: Seq<bool>,
)
    requires
        structure(nodes, paths),
        0 <= at < nodes.len(),
        nodes.len() <= usize::MAX,
        nodes[at] is Branch,
        child(nodes[at], bit) == 0,
        childless(fresh),
    ensures
        descend(grafted(nodes, at, bit, fresh), w) == (if w == paths[at].push(bit) {
            Some(nodes.len() as int)
        } else {
            descend(nodes, w)
        }),
    decreases w.len(),
{
    let target = paths[at].push(bit);
    let after = grafted(nodes, at, bit, fresh);
    let n = nodes.len() as int;
    assert(target.drop_last() == paths[at]);
    assert(target.last() == bit);
    assert(descend(nodes, paths[at]) == Some(at));
    assert(descend(nodes, target) is None);
    if w.len() == 0 {
    } else {
        let prev = w.drop_last();
        lemma_graft_walk(nodes, paths, at, bit, fresh, prev);
        assert(w == prev.push(w.last()));
        if prev == target {
            assert(descend(after, prev) == Some(n));
            assert(after[n] == fresh);
            assert(descend(after, w) is None);
            assert(descend(nodes, w) is None);
            assert(w.len() != target.len());
        } else {
            assert(descend(after, prev) == descend(nodes, prev));
            match descend(nodes, prev) {
                None => {
                    if w == target {
                        assert(prev == paths[at]);
                    }
                },
                Some(i) => {
                    assert(paths[i] == prev);
                    if i == at {
                        if w.last() == bit {
                            assert(w == target);
                            assert(child(after[at], bit) == n);
                        } else {
                            assert(child(after[at], w.last()) == child(nodes[at], w.last()));
                            assert(w != target);
                        }
                    } else {
                        assert(after[i] == nodes[i]);
                        if w == target {
                            assert(prev == paths[at]);
                            assert(descend(nodes, prev) == Some(at));
                        }
                        assert(child(nodes[i], w.last()) < n);
                    }
                },
            }
        }
    }
}

/// Hanging a new node keeps the shape of the tree, and changes one walk only.
proof fn lemma_graft_structure(
    nodes: Seq<Node>,
    paths: Seq<Seq<bool>>,
    at: int,
    bit: bool,
    fresh: Node,
)
    requires
        structure(nodes, paths),
        0 <= at < nodes.len(),
        nodes.len() <= usize::MAX,
        nodes[at] is Branch,
        child(nodes[at], bit) == 0,
        childless(fresh),
    ensures
        structure(grafted(nodes, at, bit, fresh), paths.push(paths[at].push(bit))),
        forall|w: Seq<bool>|
            #![trigger descend(grafted(nodes, at, bit, fresh), w)]
            descend(grafted(nodes, at, bit, fresh), w) == (if w == paths[at].push(bit) {
                Some(nodes.len() as int)
            } else {
                descend(nodes, w)
            }),
{
    let target = paths[at].push(bit);
    let after = grafted(nodes, at, bit, fresh);
    let paths2 = paths.push(target);
    let n = nodes.len() as int;
    assert forall|w: Seq<bool>| #![trigger descend(after, w)] descend(after, w) == (if w == target {
        Some(n)
    } else {
        descend(nodes, w)
    }) by {
        lemma_graft_walk(nodes, paths, at, bit, fresh, w);
    }
    assert(target.drop_last() == paths[at]);
    assert(descend(nodes, paths[at]) == Some(at));
    assert(descend(nodes, target) is None);
    assert forall|i: int| #![trigger after[i]] 0 <= i < after.len() implies child(after[i], false)
        < after.len() && child(after[i], true) < after.len() by {
        if i < n && i != at {
            assert(after[i] == nodes[i]);
        }
    }
    assert forall|i: int| #![trigger paths2[i]] 0 <= i < after.len() implies descend(
        after,
        paths2[i],
    ) == Some(i) by {
        if i < n {
            assert(paths2[i] == paths[i]);
            assert(descend(nodes, paths[i]) == Some(i));
        }
    }
}

/// Along a word that the tree holds, every proper beginning ends on an inner node.
proof fn lemma_on_the_way(nodes: Seq<Node>, w: Seq<bool>, j: int)
    requires
        descend(nodes, w) is Some,
        0 <= j < w.len(),
    ensures
        descend(nodes, w.take(j)) matches Some(i) && nodes[i] is Branch,
    decreases w.len(),
{
    if j == w.len() - 1 {
        assert(w.take(j) == w.drop_last());
    } else {
        assert(w.drop_last().take(j) == w.take(j));
        lemma_on_the_way(nodes, w.drop_last(), j);
    }
}

/// A tree of one childless root holds the empty word and no other.
proof fn lemma_lone_root(w: Seq<bool>)
    ensures
        descend(seq![Node::Branch { zero: 0, one: 0 }], w) == (if w.len() == 0 {
            Some(0int)
        } else {
            None
        }),
    decreases w.len(),
{
    if w.len() > 0 {
        lemma_lone_root(w.drop_last());
    }
}

/// A new inner node on the way along the pending word keeps the labelling.
proof fn lemma_graft_branch_labelled(
    nodes: Seq<Node>,
    paths: Seq<Seq<bool>>,
    lengths: Seq<u8>,
    limit: int,
    at: int,
    bit: bool,
)
    requires
        structure(nodes, paths),
        labelled(nodes, lengths, limit, paths[at]),
        0 <= at < nodes.len(),
        nodes.len() <= usize::MAX,
        nodes[at] is Branch,
        child(nodes[at], bit) == 0,
    ensures
        labelled(
            grafted(nodes, at, bit, Node::Branch { zero: 0, one: 0 }),
            lengths,
            limit,
            paths[at].push(bit),
        ),
{
    let fresh = Node::Branch { zero: 0, one: 0 };
    let after = grafted(nodes, at, bit, fresh);
    let target = paths[at].push(bit);
    let n = nodes.len() as int;
    lemma_graft_structure(nodes, paths, at, bit, fresh);
    assert(target.drop_last() == paths[at]);
    assert(descend(nodes, paths[at]) == Some(at));
    assert(descend(nodes, target) is None);
    assert forall|w: Seq<bool>| #![trigger descend(after, w)] (descend(after, w) matches Some(i) ==> match after[i] {
        Node::Leaf { symbol } => symbol < limit && is_used(lengths, symbol as int) && w
            == codeword(lengths, symbol as int),
        Node::Branch { .. } => w.len() == 0 || w.is_prefix_of(target) || begins_word_below(
            lengths,
            limit,
            w,
        ),
    }) by {
        if descend(after, w) is Some {
            let i = descend(after, w)->0;
            if w == target {
                assert(w.is_prefix_of(target));
            } else {
                assert(descend(nodes, w) == Some(i));
                if i != at {
                    assert(after[i] == nodes[i]);
                }
                if w.is_prefix_of(paths[at]) {
                    assert(w.is_prefix_of(target));
                }
            }
        }
    }
    assert forall|s: int|
        #![trigger codeword(lengths, s)]
        0 <= s < limit && is_used(lengths, s) implies (descend(after, codeword(lengths, s)) matches Some(
        i,
    ) && after[i] == (Node::Leaf { symbol: s as u16 })) by {
        let w = codeword(lengths, s);
        let i = descend(nodes, w)->0;
        assert(nodes[i] == (Node::Leaf { symbol: s as u16 }));
        assert(w != target);
        assert(i != at);
        assert(after[i] == nodes[i]);
    }
}

/// Going down to an inner node that is there already keeps the labelling.
proof fn lemma_step_labelled(
    nodes: Seq<Node>,
    lengths: Seq<u8>,
    limit: int,
    pending: Seq<bool>,
    bit: bool,
)
    requires
        labelled(nodes, lengths, limit, pending),
    ensures
        labelled(nodes, lengths, limit, pending.push(bit)),
{
    assert forall|w: Seq<bool>| #![trigger descend(nodes, w)] (descend(nodes, w) matches Some(i) ==> match nodes[i] {
        Node::Leaf { symbol } => symbol < limit && is_used(lengths, symbol as int) && w
            == codeword(lengths, symbol as int),
        Node::Branch { .. } => w.len() == 0 || w.is_prefix_of(pending.push(bit))
            || begins_word_below(lengths, limit, w),
    }) by {
        if descend(nodes, w) is Some {
            if w.is_prefix_of(pending) {
                assert(w.is_prefix_of(pending.push(bit)));
            }
        }
    }
}

/// The leaf that ends the word of `symbol` completes the labelling for it.
proof fn lemma_graft_leaf_labelled(
    nodes: Seq<Node>,
    paths: Seq<Seq<bool>>,
    lengths: Seq<u8>,
    symbol: u16,
    at: int,
    bit: bool,
)
    requires
        structure(nodes, paths),
        labelled(nodes, lengths, symbol as int, paths[at]),
        0 <= at < nodes.len(),
        nodes.len() <= usize::MAX,
        nodes[at] is Branch,
        child(nodes[at], bit) == 0,
        is_used(lengths, symbol as int),
        paths[at].push(bit) == codeword(lengths, symbol as int),
    ensures
        labelled(
            grafted(nodes, at, bit, Node::Leaf { symbol }),
            lengths,
            symbol + 1,
            Seq::empty(),
        ),
{
    let fresh = Node::Leaf { symbol };
    let after = grafted(nodes, at, bit, fresh);
    let target = paths[at].push(bit);
    let n = nodes.len() as int;
    let limit = symbol as int;
    lemma_graft_structure(nodes, paths, at, bit, fresh);
    assert(target.drop_last() == paths[at]);
    assert(descend(nodes, paths[at]) == Some(at));
    assert(descend(nodes, target) is None);
    assert forall|w: Seq<bool>| #![trigger descend(after, w)] (descend(after, w) matches Some(i) ==> match after[i] {
        Node::Leaf { symbol } => symbol < limit + 1 && is_used(lengths, symbol as int) && w
            == codeword(lengths, symbol as int),
        Node::Branch { .. } => w.len() == 0 || w.is_prefix_of(Seq::<bool>::empty())
            || begins_word_below(lengths, limit + 1, w),
    }) by {
        if descend(after, w) is Some {
            let i = descend(after, w)->0;
            if w == target {
                assert(after[n] == fresh);
            } else {
                assert(descend(nodes, w) == Some(i));
                if i != at {
                    assert(after[i] == nodes[i]);
                }
                if after[i] is Branch {
                    assert(nodes[i] is Branch);
                    if w.len() > 0 {
                        if w.is_prefix_of(paths[at]) {
                            assert(w.is_prefix_of(target));
                            assert(w.len() < lengths[limit]);
                            assert(w.is_prefix_of(codeword(lengths, limit)));
                            assert(begins_word_below(lengths, limit + 1, w));
                        } else {
                            assert(begins_word_below(lengths, limit, w));
                            let s = choose|s: int|
                                #![trigger codeword(lengths, s)]
                                s < limit && is_used(lengths, s) && w.len() < lengths[s]
                                    && w.is_prefix_of(codeword(lengths, s));
                            assert(s < limit + 1 && w.is_prefix_of(codeword(lengths, s)));
                            assert(begins_word_below(lengths, limit + 1, w));
                        }
                    }
                }
            }
        }
    }
    assert forall|s: int|
        #![trigger codeword(lengths, s)]
        0 <= s < limit + 1 && is_used(lengths, s) implies (descend(after, codeword(lengths, s)) matches Some(
        i,
    ) && after[i] == (Node::Leaf { symbol: s as u16 })) by {
        let w = codeword(lengths, s);
        if s == limit {
            assert(after[n] == fresh);
        } else {
            let i = descend(nodes, w)->0;
            assert(nodes[i] == (Node::Leaf { symbol: s as u16 }));
            assert(w != target);
            assert(i != at);
            assert(after[i] == nodes[i]);
        }
    }
}

/// A symbol without a word adds nothing to the labelling.
proof fn lemma_skip_labelled(nodes: Seq<Node>, lengths: Seq<u8>, limit: int)
    requires
        labelled(nodes, lengths, limit, Seq::empty()),
        !is_used(lengths, limit),
    ensures
        labelled(nodes, lengths, limit + 1, Seq::empty()),
{
    assert forall|w: Seq<bool>| #![trigger descend(nodes, w)] (descend(nodes, w) matches Some(i) ==> match nodes[i] {
        Node::Leaf { symbol } => symbol < limit + 1 && is_used(lengths, symbol as int) && w
            == codeword(lengths, symbol as int),
        Node::Branch { .. } => w.len() == 0 || w.is_prefix_of(Seq::<bool>::empty())
            || begins_word_below(lengths, limit + 1, w),
    }) by {
        if descend(nodes, w) is Some {
            if begins_word_below(lengths, limit, w) {
                let s = choose|s: int|
                    #![trigger codeword(lengths, s)]
                    s < limit && is_used(lengths, s) && w.len() < lengths[s] && w.is_prefix_of(
                        codeword(lengths, s),
                    );
                assert(s < limit + 1 && w.is_prefix_of(codeword(lengths, s)));
            }
        }
    }
}

/// A tree that holds a leaf for every used symbol shows that no word begins
/// another.
proof fn lemma_labelled_prefix_free(nodes: Seq<Node>, paths: Seq<Seq<bool>>, lengths: Seq<u8>)
    requires
        structure(nodes, paths),
        labelled(nodes, lengths, lengths.len() as int, Seq::empty()),
        lengths.len() <= 65536,
    ensures
        forall|s: int, t: int|
            #![trigger codeword(lengths, s), codeword(lengths, t)]
            is_used(lengths, s) && is_used(lengths, t) && s != t ==> !codeword(
                lengths,
                s,
            ).is_prefix_of(codeword(lengths, t)),
{
    assert forall|s: int, t: int|
        #![trigger codeword(lengths, s), codeword(lengths, t)]
        is_used(lengths, s) && is_used(lengths, t) && s != t implies !codeword(
        lengths,
        s,
    ).is_prefix_of(codeword(lengths, t)) by {
        let ws = codeword(lengths, s);
        let wt = codeword(lengths, t);
        if ws.is_prefix_of(wt) {
            let i = descend(nodes, ws)->0;
            let j = descend(nodes, wt)->0;
            assert(nodes[i] == (Node::Leaf { symbol: s as u16 }));
            assert(nodes[j] == (Node::Leaf { symbol: t as u16 }));
            if ws.len() == wt.len() {
                assert(ws =~= wt);
                assert(false);
            } else {
                lemma_on_the_way(nodes, wt, ws.len() as int);
                assert(wt.take(ws.len() as int) =~= ws);
                assert(false);
            }
        }
    }
}

/// No more symbols below `upto` have a given length than there are symbols.
proof fn lemma_count_bounded(lengths: Seq<u8>, len: int, upto: int)
    requires
        0 <= upto,
    ensures
        count_of(lengths, len, upto) <= upto,
    decreases upto,
{
    if upto > 0 {
        lemma_count_bounded(lengths, len, upto - 1);
    }
}

/// The first number of a length stays far below the range of a `u32`.
proof fn lemma_first_code_bound(lengths: Seq<u8>, len: int)
    requires
        lengths.len() <= 65536,
        1 <= len,
    ensures
        first_code(lengths, len) + 131072 <= 65536 * two_to(len as nat),
    decreases len,
{
    if len > 1 {
        lemma_first_code_bound(lengths, len - 1);
        lemma_count_bounded(lengths, len - 1, lengths.len() as int);
        assert(two_to(len as nat) == 2 * two_to((len - 1) as nat));
    } else {
        assert(two_to(1) == 2) by {
            lemma_two_to_values();
        }
    }
}

/// Bit `i` of the word of `len` bits that spells `code`.
fn bit_of(code: u32, len: u8, i: u8) -> (bit: bool)
    requires
        i < len <= 16,
    ensures
        bit == word_of(code as nat, len as nat)[i as int],
{
    let weight: u32 = power_of_two(len - 1 - i);
    proof {
        lemma_two_to_positive((len - 1 - i) as nat);
    }
    (code / weight) % 2 == 1
}

/// Counts the symbols of each length from 0 to 15; `None` if a length is
/// above 15.
fn length_counts(lengths: &Vec<u8>) -> (counts: Option<Vec<u32>>)
    requires
        lengths.len() <= 65536,
    ensures
        counts is Some <==> forall|s: int| 0 <= s < lengths.len() ==> #[trigger] lengths[s] <= 15,
        counts matches Some(c) ==> c.len() == 16 && forall|l: int|
            0 <= l < 16 ==> #[trigger] c[l] == count_of(lengths@, l, lengths.len() as int),
{
    let mut counts: Vec<u32> = Vec::new();
    let mut l: usize = 0;
    while l < 16
        invariant
            l <= 16,
            counts.len() == l,
            forall|k: int| 0 <= k < l ==> #[trigger] counts[k] == 0,
        decreases 16 - l,
    {
        counts.push(0);
        l += 1;
    }
    let mut s: usize = 0;
    while s < lengths.len()
        invariant
            s <= lengths.len() <= 65536,
            counts.len() == 16,
            forall|t: int| 0 <= t < s ==> #[trigger] lengths[t] <= 15,
            forall|k: int| 0 <= k < 16 ==> #[trigger] counts[k] == count_of(lengths@, k, s as int),
        decreases lengths.len() - s,
    {
        let len: u8 = lengths[s];
        if len > 15 {
            return None;
        }
        proof {
            lemma_count_bounded(lengths@, len as int, s as int);
        }
        let ghost before = counts@;
        let seen: u32 = counts[len as usize];
        counts.set(len as usize, seen + 1);
        proof {
            assert forall|k: int| 0 <= k < 16 implies #[trigger] counts[k] == count_of(
                lengths@,
                k,
                s + 1,
            ) by {
                assert(before[k] == count_of(lengths@, k, s as int));
            }
        }
        s += 1;
    }
    Some(counts)
}

/// Computes the number of the first word of each length from 1 to 15.
fn first_codes(counts: &Vec<u32>, Ghost(lengths): Ghost<Seq<u8>>) -> (next: Vec<u32>)
    requires
        counts.len() == 16,
        lengths.len() <= 65536,
        forall|l: int|
            0 <= l < 16 ==> #[trigger] counts[l] == count_of(lengths, l, lengths.len() as int),
    ensures
        next.len() == 16,
        forall|l: int| 1 <= l < 16 ==> #[trigger] next[l] == first_code(lengths, l),
{
    let mut next: Vec<u32> = Vec::new();
    next.push(0);
    next.push(0);
    let mut l: usize = 2;
    while l < 16
        invariant
            2 <= l <= 16,
            next.len() == l,
            counts.len() == 16,
            lengths.len() <= 65536,
            forall|k: int|
                0 <= k < 16 ==> #[trigger] counts[k] == count_of(lengths, k, lengths.len() as int),
            forall|k: int| 1 <= k < l ==> #[trigger] next[k] == first_code(lengths, k),
        decreases 16 - l,
    {
        proof {
            lemma_first_code_bound(lengths, l as int);
            lemma_count_bounded(lengths, l - 1, lengths.len() as int);
            lemma_two_to_values();
            crate::power::lemma_two_to_monotonic(l as nat, 15);
            assert(counts[l - 1] == count_of(lengths, l - 1, lengths.len() as int));
            assert(next[l - 1] == first_code(lengths, l - 1));
        }
        let code: u32 = 2 * (next[l - 1] + counts[l - 1]);
        next.push(code);
        l += 1;
    }
    next
}

/// A tree under construction.
struct Trie {
    nodes: Vec<Node>,
    paths: Ghost<Seq<Seq<bool>>>,
}

impl Trie {
    /// A tree of one childless root.
    fn new(Ghost(lengths): Ghost<Seq<u8>>) -> (trie: Trie)
        ensures
            structure(trie.nodes@, trie.paths@),
            labelled(trie.nodes@, lengths, 0, Seq::empty()),
    {
        let mut nodes: Vec<Node> = Vec::new();
        nodes.push(Node::Branch { zero: 0, one: 0 });
        let trie = Trie {
            nodes,
            paths: Ghost(Seq::<Seq<bool>>::empty().push(Seq::<bool>::empty())),
        };
        proof {
            assert(trie.nodes@ =~= seq![Node::Branch { zero: 0, one: 0 }]);
            assert forall|w: Seq<bool>| #![trigger descend(trie.nodes@, w)] descend(trie.nodes@, w)
                == (if w.len() == 0 {
                Some(0int)
            } else {
                None
            }) by {
                lemma_lone_root(w);
            }
            assert forall|w: Seq<bool>|
                #![trigger descend(trie.nodes@, w)]
                descend(trie.nodes@, w) is Some implies w == trie.paths@[0] by {
                assert(w =~= Seq::<bool>::empty());
            }
        }
        trie
    }

    /// Hangs `fresh` under node `at` on the side of `bit`; returns its index.
    fn graft(&mut self, at: usize, bit: bool, fresh: Node) -> (index: usize)
        requires
            structure(old(self).nodes@, old(self).paths@),
            at < old(self).nodes.len(),
            old(self).nodes[at as int] is Branch,
            child(old(self).nodes[at as int], bit) == 0,
            childless(fresh),
        ensures
            final(self).nodes@ == grafted(old(self).nodes@, at as int, bit, fresh),
            final(self).paths@ == old(self).paths@.push(old(self).paths@[at as int].push(bit)),
            index == old(self).nodes.len(),
            index < final(self).nodes.len(),
            final(self).nodes[index as int] == fresh,
            structure(final(self).nodes@, final(self).paths@),
    {
        let index: usize = self.nodes.len();
        let node: Node = self.nodes[at];
        let updated = match node {
            Node::Branch { zero, one } => if bit {
                Node::Branch { zero, one: index }
            } else {
                Node::Branch { zero: index, one }
            },
            Node::Leaf { symbol } => Node::Leaf { symbol },
        };
        proof {
            lemma_graft_structure(self.nodes@, self.paths@, at as int, bit, fresh);
        }
        self.nodes.set(at, updated);
        self.nodes.push(fresh);
        self.paths = Ghost(self.paths@.push(self.paths@[at as int].push(bit)));
        index
    }

    /// The child of node `at` on the side of `bit`, 0 for none.
    fn child_of(&self, at: usize, bit: bool) -> (next: usize)
        requires
            structure(self.nodes@, self.paths@),
            at < self.nodes.len(),
        ensures
            next == child(self.nodes[at as int], bit),
            next < self.nodes.len(),
            next != 0 ==> descend(self.nodes@, self.paths@[at as int].push(bit)) == Some(
                next as int,
            ) && self.paths@[next as int] == self.paths@[at as int].push(bit),
            next == 0 ==> descend(self.nodes@, self.paths@[at as int].push(bit)) is None,
    {
        let node: Node = self.nodes[at];
        proof {
            let w = self.paths@[at as int].push(bit);
            assert(w.drop_last() == self.paths@[at as int]);
            assert(descend(self.nodes@, self.paths@[at as int]) == Some(at as int));
        }
        match node {
            Node::Branch { zero, one } => if bit {
                one
            } else {
                zero
            },
            Node::Leaf { .. } => 0,
        }
    }

    /// Adds the word of `symbol`; `false` if it collides with a word that is
    /// in the tree already.
    fn insert(&mut self, code: u32, len: u8, symbol: u16, Ghost(lengths): Ghost<Seq<u8>>) -> (ok:
        bool)
        requires
            structure(old(self).nodes@, old(self).paths@),
            labelled(old(self).nodes@, lengths, symbol as int, Seq::empty()),
            is_used(lengths, symbol as int),
            len == lengths[symbol as int],
            len <= 15,
            code == code_of(lengths, symbol as int),
        ensures
            ok ==> structure(final(self).nodes@, final(self).paths@) && labelled(
                final(self).nodes@,
                lengths,
                symbol + 1,
                Seq::empty(),
            ),
            !ok ==> !is_prefix_code(lengths),
    {
        let ghost word = codeword(lengths, symbol as int);
        let mut at: usize = 0;
        let mut i: u8 = 0;
        proof {
            assert(word.take(0) =~= Seq::<bool>::empty());
        }
        while i + 1 < len
            invariant
                1 <= len <= 15,
                i < len,
                word == codeword(lengths, symbol as int),
                code == code_of(lengths, symbol as int),
                len == lengths[symbol as int],
                is_used(lengths, symbol as int),
                structure(self.nodes@, self.paths@),
                at < self.nodes.len(),
                self.nodes[at as int] is Branch,
                self.paths@[at as int] == word.take(i as int),
                labelled(self.nodes@, lengths, symbol as int, word.take(i as int)),
            decreases len - i,
        {
            let bit = bit_of(code, len, i);
            let next = self.child_of(at, bit);
            proof {
                assert(word.take(i as int).push(bit) =~= word.take(i + 1));
            }
            if next == 0 {
                proof {
                    lemma_graft_branch_labelled(
                        self.nodes@,
                        self.paths@,
                        lengths,
                        symbol as int,
                        at as int,
                        bit,
                    );
                }
                at = self.graft(at, bit, Node::Branch { zero: 0, one: 0 });
            } else {
                let found: Node = self.nodes[next];
                match found {
                    Node::Leaf { symbol: other } => {
                        proof {
                            let begun = word.take(i + 1);
                            assert(begun == codeword(lengths, other as int));
                            assert(begun.is_prefix_of(word));
                            assert(codeword(lengths, other as int).is_prefix_of(
                                codeword(lengths, symbol as int),
                            ));
                        }
                        return false;
                    },
                    Node::Branch { .. } => {
                        proof {
                            lemma_step_labelled(
                                self.nodes@,
                                lengths,
                                symbol as int,
                                word.take(i as int),
                                bit,
                            );
                        }
                        at = next;
                    },
                }
            }
            i = i + 1;
        }
        let bit = bit_of(code, len, i);
        let next = self.child_of(at, bit);
        proof {
            assert(word.take(i as int).push(bit) =~= word);
        }
        if next != 0 {
            proof {
                let found = self.nodes@[next as int];
                match found {
                    Node::Leaf { symbol: other } => {
                        assert(word == codeword(lengths, other as int));
                        assert(word.is_prefix_of(word));
                        assert(codeword(lengths, other as int).is_prefix_of(
                            codeword(lengths, symbol as int),
                        ));
                    },
                    Node::Branch { .. } => {
                        assert(!word.is_prefix_of(word.take(i as int)));
                        assert(begins_word_below(lengths, symbol as int, word));
                        let s = choose|s: int|
                            #![trigger codeword(lengths, s)]
                            s < symbol && is_used(lengths, s) && word.len() < lengths[s]
                                && word.is_prefix_of(codeword(lengths, s));
                        assert(codeword(lengths, symbol as int).is_prefix_of(codeword(lengths, s)));
                    },
                }
            }
            return false;
        }
        proof {
            lemma_graft_leaf_labelled(self.nodes@, self.paths@, lengths, symbol, at as int, bit);
        }
        self.graft(at, bit, Node::Leaf { symbol });
        true
    }
}

/// The prefix tree of a canonical code.
pub struct Tree {
    nodes: Vec<Node>,
    lengths: Ghost<Seq<u8>>,
    paths: Ghost<Seq<Seq<bool>>>,
}

impl View for Tree {
    type V = Seq<u8>;

    /// The code lengths that the tree was built from.
    closed spec fn view(&self) -> Seq<u8> {
        self.lengths@
    }
}

impl Tree {
    /// The tree holds a leaf at the end of the word of every used symbol,
    /// and nothing that is on the way to none.
    #[verifier::type_invariant]
    spec fn well_formed(self) -> bool {
        &&& structure(self.nodes@, self.paths@)
        &&& labelled(self.nodes@, self.lengths@, self.lengths@.len() as int, Seq::empty())
        &&& self.lengths@.len() <= 65536
    }

    /// The bits that lead from the root to `node`, if `node` is an inner node
    /// of the tree; a cursor can stand on such a node and on no other.
    pub closed spec fn path_to(&self, node: usize) -> Option<Seq<bool>> {
        if node < self.nodes.len() && self.nodes[node as int] is Branch {
            Some(self.paths@[node as int])
        } else {
            None
        }
    }

    /// The node at which every walk begins.
    pub fn root(&self) -> (node: usize)
        ensures
            self.path_to(node) == Some(Seq::<bool>::empty()),
    {
        proof {
            use_type_invariant(self);
        }
        0
    }

    /// Advances a cursor at `node` by one bit.  The bits walked so far,
    /// followed by `bit`, either spell the word of a symbol, or begin a
    /// word, in which case the cursor moves to the node returned; or no word
    /// begins with them, and the result is `None`.  A `node` on which no
    /// cursor can stand gives `None` as well.
    pub fn lookup(&self, node: usize, bit: bool) -> (step: Option<Step>)
        ensures
            match self.path_to(node) {
                None => step is None,
                Some(path) => match walk(self@, path.push(bit)) {
                    Walk::Resolved(symbol) => 0 <= symbol < 65536 && step == Some(
                        Step::Resolved(symbol as u16),
                    ),
                    Walk::Descend => step matches Some(Step::Descend(next)) && self.path_to(next)
                        == Some(path.push(bit)),
                    Walk::Stuck => step is None,
                },
            },
    {
        proof {
            use_type_invariant(self);
        }
        if node >= self.nodes.len() {
            return None;
        }
        let here: Node = self.nodes[node];
        match here {
            Node::Leaf { .. } => None,
            Node::Branch { zero, one } => {
                let next: usize = if bit {
                    one
                } else {
                    zero
                };
                let ghost lengths = self.lengths@;
                let ghost w = self.paths@[node as int].push(bit);
                proof {
                    assert(w.drop_last() == self.paths@[node as int]);
                    assert(descend(self.nodes@, self.paths@[node as int]) == Some(node as int));
                    assert(next < self.nodes.len());
                }
                if next == 0 {
                    proof {
                        assert(descend(self.nodes@, w) is None);
                        if is_word(lengths, w) {
                            let s = symbol_of(lengths, w);
                            assert(descend(self.nodes@, codeword(lengths, s)) is Some);
                        }
                        if begins_word_below(lengths, lengths.len() as int, w) {
                            let s = choose|s: int|
                                #![trigger codeword(lengths, s)]
                                s < lengths.len() && is_used(lengths, s) && w.len() < lengths[s]
                                    && w.is_prefix_of(codeword(lengths, s));
                            lemma_on_the_way(self.nodes@, codeword(lengths, s), w.len() as int);
                            assert(codeword(lengths, s).take(w.len() as int) =~= w);
                        }
                    }
                    None
                } else {
                    let found: Node = self.nodes[next];
                    proof {
                        assert(descend(self.nodes@, w) == Some(next as int));
                        assert(self.paths@[next as int] == w);
                    }
                    match found {
                        Node::Leaf { symbol } => {
                            proof {
                                assert(w == codeword(lengths, symbol as int));
                                assert(is_word(lengths, w));
                                let s = symbol_of(lengths, w);
                                assert(is_used(lengths, s) && codeword(lengths, s) == w);
                                assert(self.nodes@[next as int] == (Node::Leaf { symbol: s as u16 }));
                            }
                            Some(Step::Resolved(symbol))
                        },
                        Node::Branch { .. } => {
                            proof {
                                if is_word(lengths, w) {
                                    let s = symbol_of(lengths, w);
                                    assert(is_used(lengths, s) && codeword(lengths, s) == w);
                                    assert(self.nodes@[next as int] == (Node::Leaf {
                                        symbol: s as u16,
                                    }));
                                }
                                assert(!w.is_prefix_of(Seq::<bool>::empty()));
                            }
                            Some(Step::Descend(next))
                        },
                    }
                }
            },
        }
    }
}

/// Builds the tree of the canonical code of `lengths`, one length per
/// symbol, 0 for a symbol without a word.  There is a tree exactly when the
/// lengths are admissible: at most 65536 of them, none above 15, and the
/// words they give form a prefix code; which they do exactly when the
/// lengths meet Kraft's inequality.
pub fn codes_from_lengths(lengths: &Vec<u8>) -> (tree: Option<Tree>)
    ensures
        tree is Some <==> admissible(lengths@),
        tree is Some <==> lengths@.len() <= 65536 && (forall|s: int|
            0 <= s < lengths@.len() ==> #[trigger] lengths@[s] <= 15) && kraft_holds(lengths@),
        tree matches Some(t) ==> t@ == lengths@,
{
    if lengths.len() > 65536 {
        return None;
    }
    let counts = match length_counts(lengths) {
        Some(c) => c,
        None => {
            return None;
        },
    };
    proof {
        lemma_prefix_code_iff_kraft(lengths@);
    }
    let mut next = first_codes(&counts, Ghost(lengths@));
    let mut trie = Trie::new(Ghost(lengths@));
    let mut s: usize = 0;
    while s < lengths.len()
        invariant
            s <= lengths.len() <= 65536,
            is_prefix_code(lengths@) <==> kraft_holds(lengths@),
            forall|t: int| 0 <= t < lengths.len() ==> #[trigger] lengths[t] <= 15,
            next.len() == 16,
            forall|l: int|
                1 <= l < 16 ==> #[trigger] next[l] == first_code(lengths@, l) + count_of(
                    lengths@,
                    l,
                    s as int,
                ),
            structure(trie.nodes@, trie.paths@),
            labelled(trie.nodes@, lengths@, s as int, Seq::empty()),
            forall|t: int|
                0 <= t < s && #[trigger] is_used(lengths@, t) ==> code_of(lengths@, t) < two_to(
                    lengths@[t] as nat,
                ),
        decreases lengths.len() - s,
    {
        let len: u8 = lengths[s];
        let ghost before = next@;
        if len > 0 {
            let code: u32 = next[len as usize];
            proof {
                assert(is_used(lengths@, s as int));
                assert(code == code_of(lengths@, s as int));
                lemma_two_to_values();
                crate::power::lemma_two_to_monotonic(len as nat, 15);
            }
            if code >= power_of_two(len) {
                return None;
            }
            if !trie.insert(code, len, s as u16, Ghost(lengths@)) {
                return None;
            }
            next.set(len as usize, code + 1);
        } else {
            proof {
                lemma_skip_labelled(trie.nodes@, lengths@, s as int);
            }
        }
        proof {
            assert forall|l: int| 1 <= l < 16 implies #[trigger] next[l] == first_code(lengths@, l)
                + count_of(lengths@, l, s + 1) by {
                assert(before[l] == first_code(lengths@, l) + count_of(lengths@, l, s as int));
            }
        }
        s += 1;
    }
    proof {
        lemma_labelled_prefix_free(trie.nodes@, trie.paths@, lengths@);
    }
    Some(Tree { nodes: trie.nodes, lengths: Ghost(lengths@), paths: trie.paths })
}

} // verus!
