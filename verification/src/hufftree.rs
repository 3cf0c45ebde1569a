//! Huffman tree construction and code derivation.
//!
//! Both the encoder and the decoder rebuild the tree from the same
//! 256-entry frequency table by the same deterministic procedure: keep a
//! queue of subtrees ordered by weight (ties broken by insertion order),
//! repeatedly merge the two lightest into one node, and stop when a single
//! root remains. A symbol's code is the path from the root to its leaf,
//! `false` descending left and `true` descending right.

use vstd::prelude::*;

verus! {

/// A Huffman tree: every internal node has exactly two children, and every
/// leaf carries one byte value.
pub enum Tree {
    Leaf { sym: u8 },
    Node { left: Box<Tree>, right: Box<Tree> },
}

/// The code of symbol `s` in tree `t`: the root-to-leaf path, `false` for
/// left and `true` for right, or `None` if no leaf carries `s`.
pub open spec fn code_of(t: Tree, s: u8) -> Option<Seq<bool>>
    decreases t,
{
    match t {
        Tree::Leaf { sym } => if sym == s {
            Some(Seq::<bool>::empty())
        } else {
            None
        },
        Tree::Node { left, right } => match code_of(*left, s) {
            Some(c) => Some(seq![false] + c),
            None => match code_of(*right, s) {
                Some(c) => Some(seq![true] + c),
                None => None,
            },
        },
    }
}

/// True iff some leaf of `t` carries `s`.
pub open spec fn has_sym(t: Tree, s: u8) -> bool {
    code_of(t, s) is Some
}

/// Walks `t` from the root along `bits` until a leaf is reached; yields the
/// leaf's symbol and the bits not consumed, or `None` if the bits run out
/// at an internal node.
pub open spec fn walk_bits(t: Tree, bits: Seq<bool>) -> Option<(u8, Seq<bool>)>
    decreases t,
{
    match t {
        Tree::Leaf { sym } => Some((sym, bits)),
        Tree::Node { left, right } => if bits.len() == 0 {
            None
        } else if bits[0] {
            walk_bits(*right, bits.drop_first())
        } else {
            walk_bits(*left, bits.drop_first())
        },
    }
}

/// Decodes `n` symbols from `bits` by repeated tree walks from the root;
/// bits left over after the last symbol are ignored.
pub open spec fn decode_syms(t: Tree, bits: Seq<bool>, n: nat) -> Option<Seq<u8>>
    decreases n,
{
    if n == 0 {
        Some(Seq::<u8>::empty())
    } else {
        match walk_bits(t, bits) {
            None => None,
            Some((s, rest)) => match decode_syms(t, rest, (n - 1) as nat) {
                None => None,
                Some(tail) => Some(seq![s] + tail),
            },
        }
    }
}

/// The concatenated codes of a symbol sequence.
pub open spec fn encode_syms(t: Tree, syms: Seq<u8>) -> Seq<bool>
    decreases syms.len(),
{
    if syms.len() == 0 {
        Seq::<bool>::empty()
    } else {
        code_of(t, syms[0]).unwrap() + encode_syms(t, syms.drop_first())
    }
}

/// Walking a symbol's own code from the root reaches that symbol's leaf
/// exactly, leaving any following bits unconsumed.
pub proof fn lemma_walk_code(t: Tree, s: u8, rest: Seq<bool>)
    requires
        has_sym(t, s),
    ensures
        walk_bits(t, code_of(t, s).unwrap() + rest) == Some((s, rest)),
    decreases t,
{
    let c = code_of(t, s).unwrap();
    match t {
        Tree::Leaf { sym } => {
            assert(c + rest =~= rest);
        },
        Tree::Node { left, right } => {
            match code_of(*left, s) {
                Some(cl) => {
                    assert((c + rest).drop_first() =~= cl + rest);
                    lemma_walk_code(*left, s, rest);
                },
                None => {
                    let cr = code_of(*right, s).unwrap();
                    assert((c + rest).drop_first() =~= cr + rest);
                    lemma_walk_code(*right, s, rest);
                },
            }
        },
    }
}

/// Decoding the concatenated codes of `syms` — followed by any trailing
/// bits — yields `syms` back, provided every symbol has a code in `t`.
pub proof fn lemma_decode_encode(t: Tree, syms: Seq<u8>, extra: Seq<bool>)
    requires
        forall|i: int| 0 <= i < syms.len() ==> has_sym(t, syms[i]),
    ensures
        decode_syms(t, encode_syms(t, syms) + extra, syms.len() as nat) == Some(syms),
    decreases syms.len(),
{
    if syms.len() == 0 {
        assert(decode_syms(t, encode_syms(t, syms) + extra, 0) == Some(Seq::<u8>::empty()));
        assert(syms =~= Seq::<u8>::empty());
    } else {
        let c0 = code_of(t, syms[0]).unwrap();
        let tail = syms.drop_first();
        assert(encode_syms(t, syms) + extra =~= c0 + (encode_syms(t, tail) + extra));
        lemma_walk_code(t, syms[0], encode_syms(t, tail) + extra);
        assert(forall|i: int| 0 <= i < tail.len() ==> tail[i] == syms[i + 1]);
        lemma_decode_encode(t, tail, extra);
        assert(seq![syms[0]] + tail =~= syms);
    }
}

/// Merges two weighted subtrees: the lighter-queued first becomes the left
/// child, and the weights add (wrapping, though a real table's total always
/// fits: it is at most 256 times a 32-bit count).
pub open spec fn merge_nodes(a: (u64, Tree), b: (u64, Tree)) -> (u64, Tree) {
    (
        vstd::wrapping::u64_specs::wrapping_add(a.0, b.0),
        Tree::Node { left: Box::new(a.1), right: Box::new(b.1) },
    )
}

/// Inserts `x` into a weight-ordered queue, after any entries of equal
/// weight, so that the tie-break is the insertion order.
pub open spec fn insert_sorted(q: Seq<(u64, Tree)>, x: (u64, Tree)) -> Seq<(u64, Tree)>
    decreases q.len(),
{
    if q.len() == 0 {
        seq![x]
    } else if q[0].0 <= x.0 {
        seq![q[0]] + insert_sorted(q.drop_first(), x)
    } else {
        seq![x] + q
    }
}

pub proof fn lemma_insert_sorted_len(q: Seq<(u64, Tree)>, x: (u64, Tree))
    ensures
        insert_sorted(q, x).len() == q.len() + 1,
    decreases q.len(),
{
    if q.len() > 0 && q[0].0 <= x.0 {
        lemma_insert_sorted_len(q.drop_first(), x);
    }
}

/// One construction step: remove the two lightest subtrees and reinsert
/// their merge.
pub open spec fn build_step(q: Seq<(u64, Tree)>) -> Seq<(u64, Tree)>
    recommends
        q.len() >= 2,
{
    insert_sorted(q.skip(2), merge_nodes(q[0], q[1]))
}

/// `n` construction steps in a row.
pub open spec fn build_loop(q: Seq<(u64, Tree)>, n: nat) -> Seq<(u64, Tree)>
    decreases n,
{
    if n == 0 {
        q
    } else {
        build_loop(build_step(q), (n - 1) as nat)
    }
}

/// The queue of leaves for table entries below `n`, in symbol order of
/// insertion.
pub open spec fn leaves_upto(freqs: Seq<u32>, n: int) -> Seq<(u64, Tree)>
    decreases n,
{
    if n <= 0 {
        Seq::<(u64, Tree)>::empty()
    } else {
        let prev = leaves_upto(freqs, n - 1);
        if freqs[n - 1] != 0 {
            insert_sorted(prev, (freqs[n - 1] as u64, Tree::Leaf { sym: (n - 1) as u8 }))
        } else {
            prev
        }
    }
}

/// The starting queue: one leaf per byte value with a nonzero count.
pub open spec fn initial_queue(freqs: Seq<u32>) -> Seq<(u64, Tree)> {
    leaves_upto(freqs, 256)
}

/// The Huffman tree of a frequency table; meaningful whenever some entry
/// is nonzero, so that the starting queue is nonempty.
pub open spec fn huffman_tree(freqs: Seq<u32>) -> Tree {
    let q = initial_queue(freqs);
    build_loop(q, (q.len() - 1) as nat)[0].1
}

/// True iff some subtree in the queue carries a leaf for `s`.
pub open spec fn queue_has_sym(q: Seq<(u64, Tree)>, s: u8) -> bool
    decreases q.len(),
{
    if q.len() == 0 {
        false
    } else {
        has_sym(q[0].1, s) || queue_has_sym(q.drop_first(), s)
    }
}

pub proof fn lemma_insert_sorted_has_sym(q: Seq<(u64, Tree)>, x: (u64, Tree), s: u8)
    ensures
        queue_has_sym(insert_sorted(q, x), s) <==> (queue_has_sym(q, s) || has_sym(x.1, s)),
    decreases q.len(),
{
    let r = insert_sorted(q, x);
    if q.len() == 0 {
        assert(r =~= seq![x]);
        assert(r[0] == x);
        assert(r.drop_first() =~= Seq::<(u64, Tree)>::empty());
        assert(!queue_has_sym(r.drop_first(), s));
        assert(queue_has_sym(r, s) <==> has_sym(x.1, s));
    } else if q[0].0 <= x.0 {
        let rest = insert_sorted(q.drop_first(), x);
        assert(r[0] == q[0]);
        assert(r.drop_first() =~= rest);
        lemma_insert_sorted_has_sym(q.drop_first(), x, s);
        assert(queue_has_sym(r, s) <==> has_sym(q[0].1, s) || queue_has_sym(rest, s));
        assert(queue_has_sym(q, s) <==> has_sym(q[0].1, s) || queue_has_sym(q.drop_first(), s));
    } else {
        assert(r[0] == x);
        assert(r.drop_first() =~= q);
        assert(queue_has_sym(r, s) <==> has_sym(x.1, s) || queue_has_sym(q, s));
    }
}

/// A construction step neither adds nor loses symbols.
pub proof fn lemma_build_step_has_sym(q: Seq<(u64, Tree)>, s: u8)
    requires
        q.len() >= 2,
    ensures
        queue_has_sym(build_step(q), s) <==> queue_has_sym(q, s),
{
    let m = merge_nodes(q[0], q[1]);
    lemma_insert_sorted_has_sym(q.skip(2), m, s);
    assert(has_sym(m.1, s) <==> (has_sym(q[0].1, s) || has_sym(q[1].1, s)));
    assert(queue_has_sym(q, s) <==> has_sym(q[0].1, s) || queue_has_sym(q.drop_first(), s));
    assert(q.drop_first()[0] == q[1]);
    assert(q.drop_first().drop_first() =~= q.skip(2));
    assert(queue_has_sym(q.drop_first(), s) <==> has_sym(q[1].1, s) || queue_has_sym(
        q.skip(2),
        s,
    ));
}

/// After `n` steps the queue is `n` entries shorter and carries the same
/// symbols.
pub proof fn lemma_build_loop_props(q: Seq<(u64, Tree)>, n: nat)
    requires
        n < q.len(),
    ensures
        build_loop(q, n).len() == q.len() - n,
        forall|s: u8| queue_has_sym(build_loop(q, n), s) <==> queue_has_sym(q, s),
    decreases n,
{
    if n > 0 {
        lemma_insert_sorted_len(q.skip(2), merge_nodes(q[0], q[1]));
        assert(build_step(q).len() == q.len() - 1);
        assert forall|s: u8| queue_has_sym(build_step(q), s) <==> queue_has_sym(q, s) by {
            lemma_build_step_has_sym(q, s);
        }
        lemma_build_loop_props(build_step(q), (n - 1) as nat);
    }
}

/// The starting queue carries exactly the symbols below `n` with nonzero
/// counts, and has at most one entry per such symbol.
pub proof fn lemma_leaves_upto_props(freqs: Seq<u32>, n: int)
    requires
        0 <= n <= 256,
        freqs.len() == 256,
    ensures
        forall|s: u8|
            #[trigger] queue_has_sym(leaves_upto(freqs, n), s) <==> (s < n && freqs[s as int]
                != 0),
        leaves_upto(freqs, n).len() == 0 <==> (forall|i: int| 0 <= i < n ==> freqs[i] == 0),
    decreases n,
{
    if n > 0 {
        lemma_leaves_upto_props(freqs, n - 1);
        let prev = leaves_upto(freqs, n - 1);
        if freqs[n - 1] != 0 {
            let x = (freqs[n - 1] as u64, Tree::Leaf { sym: (n - 1) as u8 });
            lemma_insert_sorted_len(prev, x);
            assert forall|s: u8|
                #[trigger] queue_has_sym(leaves_upto(freqs, n), s) <==> (s < n && freqs[s as int]
                    != 0) by {
                lemma_insert_sorted_has_sym(prev, x, s);
                assert(has_sym(x.1, s) <==> s == n - 1);
            }
        }
    }
}

/// The Huffman tree of a table with a nonzero entry carries exactly the
/// symbols whose counts are nonzero.
pub proof fn lemma_huffman_tree_has_sym(freqs: Seq<u32>)
    requires
        freqs.len() == 256,
        initial_queue(freqs).len() > 0,
    ensures
        forall|s: u8| #[trigger] has_sym(huffman_tree(freqs), s) <==> freqs[s as int] != 0,
{
    let q = initial_queue(freqs);
    lemma_leaves_upto_props(freqs, 256);
    lemma_build_loop_props(q, (q.len() - 1) as nat);
    let fin = build_loop(q, (q.len() - 1) as nat);
    assert(fin.len() == 1);
    assert forall|s: u8| #[trigger] has_sym(huffman_tree(freqs), s) <==> freqs[s as int] != 0 by {
        assert(fin.drop_first() =~= Seq::<(u64, Tree)>::empty());
        assert(!queue_has_sym(fin.drop_first(), s));
        assert(queue_has_sym(fin, s) <==> has_sym(fin[0].1, s));
        assert(queue_has_sym(fin, s) <==> queue_has_sym(q, s));
    }
}

/// The number of leaves of a tree.
pub open spec fn leaf_count(t: Tree) -> nat
    decreases t,
{
    match t {
        Tree::Leaf { .. } => 1,
        Tree::Node { left, right } => leaf_count(*left) + leaf_count(*right),
    }
}

pub proof fn lemma_leaf_count_pos(t: Tree)
    ensures
        leaf_count(t) >= 1,
    decreases t,
{
    match t {
        Tree::Leaf { .. } => {},
        Tree::Node { left, right } => {
            lemma_leaf_count_pos(*left);
        },
    }
}

/// A code is strictly shorter than the tree's leaf count.
pub proof fn lemma_code_len(t: Tree, s: u8)
    requires
        has_sym(t, s),
    ensures
        code_of(t, s).unwrap().len() < leaf_count(t),
    decreases t,
{
    match t {
        Tree::Leaf { .. } => {},
        Tree::Node { left, right } => {
            match code_of(*left, s) {
                Some(_) => {
                    lemma_code_len(*left, s);
                    lemma_leaf_count_pos(*right);
                },
                None => {
                    lemma_code_len(*right, s);
                    lemma_leaf_count_pos(*left);
                },
            }
        },
    }
}

/// The total number of leaves across a queue.
pub open spec fn queue_leaves(q: Seq<(u64, Tree)>) -> nat
    decreases q.len(),
{
    if q.len() == 0 {
        0
    } else {
        leaf_count(q[0].1) + queue_leaves(q.drop_first())
    }
}

proof fn lemma_insert_sorted_leaves(q: Seq<(u64, Tree)>, x: (u64, Tree))
    ensures
        queue_leaves(insert_sorted(q, x)) == queue_leaves(q) + leaf_count(x.1),
    decreases q.len(),
{
    let r = insert_sorted(q, x);
    if q.len() == 0 {
        assert(r =~= seq![x]);
        assert(r[0] == x);
        assert(r.drop_first() =~= Seq::<(u64, Tree)>::empty());
        assert(queue_leaves(r.drop_first()) == 0);
    } else if q[0].0 <= x.0 {
        let rest = insert_sorted(q.drop_first(), x);
        assert(r[0] == q[0]);
        assert(r.drop_first() =~= rest);
        lemma_insert_sorted_leaves(q.drop_first(), x);
        assert(queue_leaves(r) == leaf_count(q[0].1) + queue_leaves(rest));
        assert(queue_leaves(q) == leaf_count(q[0].1) + queue_leaves(q.drop_first()));
    } else {
        assert(r[0] == x);
        assert(r.drop_first() =~= q);
        assert(queue_leaves(r) == leaf_count(x.1) + queue_leaves(q));
    }
}

proof fn lemma_build_loop_leaves(q: Seq<(u64, Tree)>, n: nat)
    requires
        n < q.len(),
    ensures
        queue_leaves(build_loop(q, n)) == queue_leaves(q),
    decreases n,
{
    if n > 0 {
        let m = merge_nodes(q[0], q[1]);
        lemma_insert_sorted_leaves(q.skip(2), m);
        lemma_insert_sorted_len(q.skip(2), m);
        assert(leaf_count(m.1) == leaf_count(q[0].1) + leaf_count(q[1].1));
        assert(queue_leaves(q) == leaf_count(q[0].1) + queue_leaves(q.drop_first()));
        assert(q.drop_first()[0] == q[1]);
        assert(q.drop_first().drop_first() =~= q.skip(2));
        assert(queue_leaves(q.drop_first()) == leaf_count(q[1].1) + queue_leaves(q.skip(2)));
        lemma_build_loop_leaves(build_step(q), (n - 1) as nat);
    }
}

proof fn lemma_leaves_upto_leaves(freqs: Seq<u32>, n: int)
    requires
        0 <= n <= 256,
        freqs.len() == 256,
    ensures
        queue_leaves(leaves_upto(freqs, n)) <= n,
    decreases n,
{
    if n > 0 {
        lemma_leaves_upto_leaves(freqs, n - 1);
        if freqs[n - 1] != 0 {
            let x = (freqs[n - 1] as u64, Tree::Leaf { sym: (n - 1) as u8 });
            lemma_insert_sorted_leaves(leaves_upto(freqs, n - 1), x);
        }
    }
}

/// A Huffman tree built from a 256-entry table has at most 256 leaves, so
/// every code is at most 255 bits long.
pub proof fn lemma_huffman_code_len(freqs: Seq<u32>, s: u8)
    requires
        freqs.len() == 256,
        initial_queue(freqs).len() > 0,
        has_sym(huffman_tree(freqs), s),
    ensures
        code_of(huffman_tree(freqs), s).unwrap().len() < 256,
{
    let q = initial_queue(freqs);
    lemma_leaves_upto_leaves(freqs, 256);
    lemma_build_loop_leaves(q, (q.len() - 1) as nat);
    lemma_build_loop_props(q, (q.len() - 1) as nat);
    let fin = build_loop(q, (q.len() - 1) as nat);
    assert(fin.drop_first() =~= Seq::<(u64, Tree)>::empty());
    assert(queue_leaves(fin.drop_first()) == 0);
    assert(queue_leaves(fin) == leaf_count(fin[0].1));
    lemma_code_len(huffman_tree(freqs), s);
}

/// The number of nonzero table entries below `n`.
pub open spec fn nonzero_below(freqs: Seq<u32>, n: int) -> nat
    decreases n,
{
    if n <= 0 {
        0
    } else {
        nonzero_below(freqs, n - 1) + (if freqs[n - 1] != 0 {
            1nat
        } else {
            0nat
        })
    }
}

proof fn lemma_leaves_upto_count(freqs: Seq<u32>, n: int)
    requires
        0 <= n <= 256,
        freqs.len() == 256,
    ensures
        queue_leaves(leaves_upto(freqs, n)) == nonzero_below(freqs, n),
    decreases n,
{
    if n > 0 {
        lemma_leaves_upto_count(freqs, n - 1);
        if freqs[n - 1] != 0 {
            let x = (freqs[n - 1] as u64, Tree::Leaf { sym: (n - 1) as u8 });
            lemma_insert_sorted_leaves(leaves_upto(freqs, n - 1), x);
        }
    }
}

proof fn lemma_nonzero_two(freqs: Seq<u32>, a: u8, b: u8, n: int)
    requires
        0 <= n <= 256,
        freqs.len() == 256,
        a != b,
        forall|v: u8| v != a && v != b ==> freqs[v as int] == 0,
    ensures
        nonzero_below(freqs, n) == (if (a as int) < n && freqs[a as int] != 0 {
            1nat
        } else {
            0nat
        }) + (if (b as int) < n && freqs[b as int] != 0 {
            1nat
        } else {
            0nat
        }),
    decreases n,
{
    if n > 0 {
        lemma_nonzero_two(freqs, a, b, n - 1);
        if n - 1 != a as int && n - 1 != b as int {
            assert(((n - 1) as u8) != a && ((n - 1) as u8) != b);
            assert(freqs[n - 1] == 0);
        }
    }
}

proof fn lemma_single_leaf(t: Tree)
    requires
        leaf_count(t) == 1,
    ensures
        t matches Tree::Leaf { .. },
{
    match t {
        Tree::Leaf { .. } => {},
        Tree::Node { left, right } => {
            lemma_leaf_count_pos(*left);
            lemma_leaf_count_pos(*right);
        },
    }
}

/// Law: a table with exactly two distinct nonzero symbols yields a tree of
/// two leaves, so each of the two symbols gets a one-bit code.
pub proof fn lemma_two_symbol_codes(freqs: Seq<u32>, a: u8, b: u8)
    requires
        freqs.len() == 256,
        a != b,
        freqs[a as int] != 0,
        freqs[b as int] != 0,
        forall|v: u8| v != a && v != b ==> freqs[v as int] == 0,
    ensures
        (code_of(huffman_tree(freqs), a) matches Some(c) && c.len() == 1),
        (code_of(huffman_tree(freqs), b) matches Some(c) && c.len() == 1),
{
    let q = initial_queue(freqs);
    lemma_leaves_upto_props(freqs, 256);
    assert(q.len() > 0);
    lemma_leaves_upto_count(freqs, 256);
    lemma_nonzero_two(freqs, a, b, 256);
    lemma_build_loop_leaves(q, (q.len() - 1) as nat);
    lemma_build_loop_props(q, (q.len() - 1) as nat);
    let fin = build_loop(q, (q.len() - 1) as nat);
    assert(fin.drop_first() =~= Seq::<(u64, Tree)>::empty());
    assert(queue_leaves(fin.drop_first()) == 0);
    let t = huffman_tree(freqs);
    assert(leaf_count(t) == 2);
    lemma_huffman_tree_has_sym(freqs);
    assert(has_sym(t, a) && has_sym(t, b));
    match t {
        Tree::Leaf { .. } => {
            assert(false);
        },
        Tree::Node { left, right } => {
            lemma_leaf_count_pos(*left);
            lemma_leaf_count_pos(*right);
            lemma_single_leaf(*left);
            lemma_single_leaf(*right);
            match (*left, *right) {
                (Tree::Leaf { sym: x }, Tree::Leaf { sym: y }) => {
                    assert(code_of(*left, a) == (if x == a {
                        Some(Seq::<bool>::empty())
                    } else {
                        None::<Seq<bool>>
                    }));
                    assert(code_of(*right, a) == (if y == a {
                        Some(Seq::<bool>::empty())
                    } else {
                        None::<Seq<bool>>
                    }));
                    assert(code_of(*left, b) == (if x == b {
                        Some(Seq::<bool>::empty())
                    } else {
                        None::<Seq<bool>>
                    }));
                    assert(code_of(*right, b) == (if y == b {
                        Some(Seq::<bool>::empty())
                    } else {
                        None::<Seq<bool>>
                    }));
                    assert(x == a || y == a);
                    assert(x == b || y == b);
                    if x == a {
                        assert(code_of(t, a) == Some(seq![false] + Seq::<bool>::empty()));
                        assert(code_of(t, b) == Some(seq![true] + Seq::<bool>::empty()));
                    } else {
                        assert(y == a && x == b);
                        assert(code_of(t, b) == Some(seq![false] + Seq::<bool>::empty()));
                        assert(code_of(t, a) == Some(seq![true] + Seq::<bool>::empty()));
                    }
                },
                _ => {
                    assert(false);
                },
            }
        },
    }
}

/// Characterizes the recursive insertion as a single splice at the first
/// position whose weight exceeds the new entry's.
proof fn lemma_insert_sorted_at(q: Seq<(u64, Tree)>, x: (u64, Tree), idx: int)
    requires
        0 <= idx <= q.len(),
        forall|j: int| 0 <= j < idx ==> q[j].0 <= x.0,
        idx < q.len() ==> q[idx].0 > x.0,
    ensures
        insert_sorted(q, x) == q.insert(idx, x),
    decreases q.len(),
{
    if idx == 0 {
        if q.len() == 0 {
            assert(insert_sorted(q, x) =~= q.insert(0, x));
        } else {
            assert(insert_sorted(q, x) =~= q.insert(0, x));
        }
    } else {
        lemma_insert_sorted_at(q.drop_first(), x, idx - 1);
        assert(insert_sorted(q, x) =~= q.insert(idx, x));
    }
}

/// Inserts an entry into a weight-ordered queue, after entries of equal
/// weight.
fn insert_by_weight(q: &mut Vec<(u64, Tree)>, x: (u64, Tree))
    ensures
        final(q)@ == insert_sorted(old(q)@, x),
{
    let n = q.len();
    let mut idx: usize = 0;
    while idx < n && q[idx].0 <= x.0
        invariant
            q@ == old(q)@,
            n == q@.len(),
            idx <= n,
            forall|j: int| 0 <= j < idx ==> q@[j].0 <= x.0,
        decreases n - idx,
    {
        idx = idx + 1;
    }
    let ghost q0 = q@;
    q.insert(idx, x);
    proof {
        lemma_insert_sorted_at(q0, x, idx as int);
    }
}

/// Builds the Huffman tree of a 256-entry frequency table, or returns
/// `None` when every count is zero and there is nothing to code.
pub fn build_tree(freqs: &Vec<u32>) -> (r: Option<Tree>)
    requires
        freqs@.len() == 256,
    ensures
        r is Some <==> initial_queue(freqs@).len() > 0,
        r matches Some(t) ==> t == huffman_tree(freqs@),
{
    let mut queue: Vec<(u64, Tree)> = Vec::new();
    let mut i: usize = 0;
    while i < 256
        invariant
            freqs@.len() == 256,
            i <= 256,
            queue@ == leaves_upto(freqs@, i as int),
        decreases 256 - i,
    {
        let f = freqs[i];
        if f != 0 {
            insert_by_weight(&mut queue, (f as u64, Tree::Leaf { sym: i as u8 }));
        }
        i = i + 1;
    }
    if queue.len() == 0 {
        return None;
    }
    let ghost q0 = queue@;
    while queue.len() > 1
        invariant
            queue@.len() >= 1,
            q0.len() >= 1,
            build_loop(queue@, (queue@.len() - 1) as nat) == build_loop(q0, (q0.len() - 1) as nat),
        decreases queue@.len(),
    {
        let ghost qpre = queue@;
        let a = queue.remove(0);
        let b = queue.remove(0);
        proof {
            assert(queue@ =~= qpre.skip(2));
        }
        let m = (a.0.wrapping_add(b.0), Tree::Node { left: Box::new(a.1), right: Box::new(b.1) });
        proof {
            assert(m == merge_nodes(qpre[0], qpre[1]));
        }
        insert_by_weight(&mut queue, m);
        proof {
            lemma_insert_sorted_len(qpre.skip(2), m);
            assert(queue@ == build_step(qpre));
            assert(build_loop(qpre, (qpre.len() - 1) as nat) == build_loop(
                build_step(qpre),
                (qpre.len() - 2) as nat,
            ));
        }
    }
    let entry = queue.remove(0);
    proof {
        assert(build_loop(queue@.insert(0, entry), 0) == queue@.insert(0, entry));
    }
    Some(entry.1)
}

/// Finds the code of `s` in `t` by a depth-first search: `false` on a left
/// descent, `true` on a right one.
fn find_code(t: &Tree, s: u8) -> (r: Option<Vec<bool>>)
    ensures
        r is Some <==> has_sym(*t, s),
        r matches Some(v) ==> code_of(*t, s) == Some(v@),
    decreases *t,
{
    match t {
        Tree::Leaf { sym } => {
            if *sym == s {
                Some(Vec::new())
            } else {
                None
            }
        },
        Tree::Node { left, right } => {
            match find_code(&**left, s) {
                Some(mut v) => {
                    let ghost c = v@;
                    v.insert(0, false);
                    proof {
                        assert(v@ =~= seq![false] + c);
                    }
                    Some(v)
                },
                None => match find_code(&**right, s) {
                    Some(mut v) => {
                        let ghost c = v@;
                        v.insert(0, true);
                        proof {
                            assert(v@ =~= seq![true] + c);
                        }
                        Some(v)
                    },
                    None => None,
                },
            }
        },
    }
}

/// Derives the full code table of `t`: entry `s` holds the code of byte
/// value `s`, or `None` for a symbol with no leaf.
pub fn derive_codes(t: &Tree) -> (codes: Vec<Option<Vec<bool>>>)
    ensures
        codes@.len() == 256,
        forall|s: int|
            0 <= s < 256 ==> match #[trigger] codes@[s] {
                Some(v) => code_of(*t, s as u8) == Some(v@),
                None => !has_sym(*t, s as u8),
            },
{
    let mut codes: Vec<Option<Vec<bool>>> = Vec::new();
    let mut i: usize = 0;
    while i < 256
        invariant
            i <= 256,
            codes@.len() == i,
            forall|s: int|
                0 <= s < i ==> match #[trigger] codes@[s] {
                    Some(v) => code_of(*t, s as u8) == Some(v@),
                    None => !has_sym(*t, s as u8),
                },
        decreases 256 - i,
    {
        codes.push(find_code(t, i as u8));
        i = i + 1;
    }
    codes
}

} // verus!
