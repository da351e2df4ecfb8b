//! The Huffman codec: frequency counting, greedy tree construction,
//! code assignment, code-table extraction, encoding and decoding.

use vstd::prelude::*;
use crate::{subst_char, unsubst_char, char_lt, lemma_char_lt_trichotomy, HuffError, NEW_LINE,
    SPECIAL_CHAR};
use crate::node::{HuffTree, Link, Node};
use crate::my_tree_map::{lookup, sorted_keys, table_extend, table_insert, table_from, table_wf,
    prefix_free, lemma_lookup_at_index, lemma_lookup_index, lemma_sorted_distinct,
    lemma_table_insert, lemma_table_insert_at, MyTreeMap, TableModel};

verus! {

// ------------------------------------------------------------------
// Frequency counting
// ------------------------------------------------------------------

/// How often `c` occurs in `s`.
pub open spec fn count_of(s: Seq<char>, c: char) -> nat
    decreases s.len(),
{
    if s.len() == 0 {
        0
    } else {
        count_of(s.drop_last(), c) + (if s.last() == c {
            1nat
        } else {
            0nat
        })
    }
}

/// The text as the counter sees it: newlines replaced by the sentinel.
pub open spec fn subst_text(t: Seq<char>) -> Seq<char> {
    t.map_values(|c: char| subst_char(c))
}

/// Mathematical frequency table: symbol and count, sorted by symbol.
pub type FreqModel = Seq<(char, nat)>;

/// One counting step: raise the count of `c` by one.
pub open spec fn bump(f: FreqModel, c: char) -> FreqModel {
    match lookup(f, c) {
        Some(n) => table_insert(f, (c, n + 1)),
        None => table_insert(f, (c, 1nat)),
    }
}

/// The frequency table of a text: every character counted in order,
/// newlines under the sentinel.
pub open spec fn freq_of(t: Seq<char>) -> FreqModel
    decreases t.len(),
{
    if t.len() == 0 {
        Seq::empty()
    } else {
        bump(freq_of(t.drop_last()), subst_char(t.last()))
    }
}

/// A count never exceeds the length counted over.
pub proof fn lemma_count_le_len(s: Seq<char>, c: char)
    ensures
        count_of(s, c) <= s.len(),
    decreases s.len(),
{
    if s.len() > 0 {
        lemma_count_le_len(s.drop_last(), c);
    }
}

/// What the frequency table of a text holds: its keys are sorted, and
/// each symbol maps to its count in the substituted text — present if
/// and only if the count is positive.
pub proof fn lemma_freq_of(t: Seq<char>)
    ensures
        sorted_keys(freq_of(t)),
        forall|c: char| #[trigger]
            lookup(freq_of(t), c) == (if count_of(subst_text(t), c) > 0 {
                Some(count_of(subst_text(t), c))
            } else {
                None::<nat>
            }),
    decreases t.len(),
{
    if t.len() == 0 {
    } else {
        let front = t.drop_last();
        let x = subst_char(t.last());
        lemma_freq_of(front);
        assert(subst_text(front) =~= subst_text(t).drop_last());
        assert(subst_text(t).last() == x);
        let f = freq_of(front);
        match lookup(f, x) {
            Some(n) => {
                lemma_table_insert(f, (x, n + 1));
                assert(count_of(subst_text(front), x) == n);
            },
            None => {
                lemma_table_insert(f, (x, 1nat));
                assert(count_of(subst_text(front), x) == 0);
            },
        }
        assert forall|c: char| #[trigger] lookup(freq_of(t), c) == (if count_of(
            subst_text(t),
            c,
        ) > 0 {
            Some(count_of(subst_text(t), c))
        } else {
            None::<nat>
        }) by {
            if c != x {
                assert(count_of(subst_text(t), c) == count_of(subst_text(front), c));
            }
        }
    }
}

/// The counts of a frequency table added up.
pub open spec fn freq_total(f: FreqModel) -> nat
    decreases f.len(),
{
    if f.len() == 0 {
        0
    } else {
        f[0].1 + freq_total(f.drop_first())
    }
}

/// Sums add over concatenation.
proof fn lemma_freq_total_add(a: FreqModel, b: FreqModel)
    ensures
        freq_total(a + b) == freq_total(a) + freq_total(b),
    decreases a.len(),
{
    if a.len() == 0 {
        assert(a + b =~= b);
    } else {
        assert((a + b).drop_first() =~= a.drop_first() + b);
        lemma_freq_total_add(a.drop_first(), b);
    }
}

/// A bump raises the total by exactly one.
proof fn lemma_bump_total(f: FreqModel, c: char)
    requires
        sorted_keys(f),
    ensures
        freq_total(bump(f, c)) == freq_total(f) + 1,
{
    let i = lemma_insert_position(f, c);
    lemma_sorted_distinct(f);
    let e: (char, nat) = match lookup(f, c) {
        Some(n) => (c, n + 1),
        None => (c, 1nat),
    };
    lemma_table_insert_at(f, e, i);
    if i < f.len() && f[i].0 == c {
        lemma_lookup_at_index(f, i);
        assert(lookup(f, c) == Some(f[i].1));
        assert(f =~= f.take(i) + seq![f[i]] + f.skip(i + 1));
        assert(bump(f, c) =~= f.take(i) + seq![e] + f.skip(i + 1));
        lemma_freq_total_add(f.take(i) + seq![e], f.skip(i + 1));
        lemma_freq_total_add(f.take(i), seq![e]);
        lemma_freq_total_add(f.take(i) + seq![f[i]], f.skip(i + 1));
        lemma_freq_total_add(f.take(i), seq![f[i]]);
        assert(freq_total(seq![e]) == e.1) by {
            reveal_with_fuel(freq_total, 2);
            assert(seq![e].drop_first() =~= Seq::<(char, nat)>::empty());
        }
        assert(freq_total(seq![f[i]]) == f[i].1) by {
            reveal_with_fuel(freq_total, 2);
            assert(seq![f[i]].drop_first() =~= Seq::<(char, nat)>::empty());
        }
    } else {
        assert(lookup(f, c) is None) by {
            if lookup(f, c) is Some {
                lemma_lookup_index(f, c);
                let k = choose|k: int| 0 <= k < f.len() && (#[trigger] f[k]).0 == c && f[k].1
                    == lookup(f, c)->0;
                if k < i {
                    assert(char_lt(f[k].0, c));
                    lemma_char_lt_trichotomy(f[k].0, c);
                } else {
                    if k > i {
                        assert(char_lt(f[i].0, f[k].0));
                    }
                    lemma_char_lt_trichotomy(c, f[i].0);
                    lemma_char_lt_trichotomy(f[i].0, f[k].0);
                }
            }
        }
        assert(bump(f, c) == f.take(i) + seq![e] + f.skip(i));
        assert(f =~= f.take(i) + f.skip(i));
        lemma_freq_total_add(f.take(i) + seq![e], f.skip(i));
        lemma_freq_total_add(f.take(i), seq![e]);
        lemma_freq_total_add(f.take(i), f.skip(i));
        assert(freq_total(seq![e]) == e.1) by {
            reveal_with_fuel(freq_total, 2);
            assert(seq![e].drop_first() =~= Seq::<(char, nat)>::empty());
        }
    }
}

/// In a sorted table there is a first position whose key is not below
/// `c`.
proof fn lemma_insert_position(f: FreqModel, c: char) -> (i: int)
    requires
        sorted_keys(f),
    ensures
        0 <= i <= f.len(),
        forall|j: int| 0 <= j < i ==> char_lt(#[trigger] f[j].0, c),
        i < f.len() ==> !char_lt(f[i].0, c),
    decreases f.len(),
{
    if f.len() == 0 || !char_lt(f[0].0, c) {
        0
    } else {
        let df = f.drop_first();
        assert(sorted_keys(df)) by {
            assert(forall|k: int| 0 <= k < df.len() ==> #[trigger] df[k] == f[k + 1]);
        }
        let i = lemma_insert_position(df, c);
        assert(forall|j: int| 1 <= j < i + 1 ==> f[j] == df[j - 1]);
        i + 1
    }
}

/// The counts of a text's frequency table add up to the text's length.
pub proof fn lemma_freq_total_is_len(t: Seq<char>)
    ensures
        freq_total(freq_of(t)) == t.len(),
    decreases t.len(),
{
    if t.len() > 0 {
        lemma_freq_total_is_len(t.drop_last());
        lemma_freq_of(t.drop_last());
        lemma_bump_total(freq_of(t.drop_last()), subst_char(t.last()));
    }
}

/// The executable frequency table seen as its model.
pub open spec fn freq_view(v: Seq<(char, usize)>) -> FreqModel {
    v.map_values(|e: (char, usize)| (e.0, e.1 as nat))
}

/// Counts every character of the text, newlines under the sentinel;
/// the result is exactly the text's frequency table, sorted by symbol.
pub fn get_hash_char_freq(msg: &Vec<char>) -> (r: Vec<(char, usize)>)
    ensures
        freq_view(r@) == freq_of(msg@),
{
    let mut table: Vec<(char, usize)> = Vec::new();
    let mut idx: usize = 0;
    proof {
        assert(msg@.take(0) =~= Seq::<char>::empty());
        assert(freq_view(table@) =~= freq_of(msg@.take(0)));
    }
    while idx < msg.len()
        invariant
            idx <= msg@.len(),
            freq_view(table@) == freq_of(msg@.take(idx as int)),
        decreases msg@.len() - idx,
    {
        let ghost prefix = msg@.take(idx as int);
        let ghost f = freq_of(prefix);
        proof {
            lemma_freq_of(prefix);
            assert(msg@.take(idx as int + 1).drop_last() =~= prefix);
            assert(msg@.take(idx as int + 1).last() == msg@[idx as int]);
        }
        let c0 = msg[idx];
        let c: char = if c0 == '\n' {
            NEW_LINE
        } else {
            c0
        };
        proof {
            assert(c == subst_char(msg@[idx as int]));
        }
        let mut i: usize = 0;
        while i < table.len() && (table[i].0 as u32) < (c as u32)
            invariant
                0 <= i <= table@.len(),
                freq_view(table@) == f,
                forall|j: int| 0 <= j < i ==> char_lt(#[trigger] f[j].0, c),
                table@.len() == f.len(),
                forall|j: int| 0 <= j < f.len() ==> (#[trigger] table@[j]).0 == f[j].0
                    && table@[j].1 as nat == f[j].1,
            decreases table@.len() - i,
        {
            i = i + 1;
        }
        proof {
            lemma_sorted_distinct(f);
            lemma_table_insert_at(
                f,
                (c, if lookup(f, c) is Some {
                    lookup(f, c)->0 + 1
                } else {
                    1nat
                }),
                i as int,
            );
        }
        if i < table.len() && table[i].0 == c {
            let cnt = table[i].1;
            proof {
                lemma_lookup_at_index(f, i as int);
                assert(lookup(f, c) == Some(f[i as int].1));
                assert(count_of(subst_text(prefix), c) == cnt as nat);
                lemma_count_le_len(subst_text(prefix), c);
                assert(subst_text(prefix).len() == prefix.len());
            }
            table.set(i, (c, cnt + 1));
            proof {
                assert(freq_view(table@) =~= f.update(i as int, (c, (cnt + 1) as nat)));
                assert(bump(f, c) == f.update(i as int, (c, cnt as nat + 1)));
            }
        } else {
            proof {
                assert(lookup(f, c) is None) by {
                    if lookup(f, c) is Some {
                        lemma_lookup_index(f, c);
                        let k = choose|k: int| 0 <= k < f.len() && (#[trigger] f[k]).0 == c
                            && f[k].1 == lookup(f, c)->0;
                        if k < i {
                            assert(char_lt(f[k].0, c));
                            lemma_char_lt_trichotomy(f[k].0, c);
                        } else {
                            if i < f.len() {
                                if k > i {
                                    assert(char_lt(f[i as int].0, f[k].0));
                                }
                                lemma_char_lt_trichotomy(c, f[i as int].0);
                                lemma_char_lt_trichotomy(f[i as int].0, f[k].0);
                            }
                        }
                    }
                }
                if i < table.len() {
                    lemma_char_lt_trichotomy(c, f[i as int].0);
                }
            }
            table.insert(i, (c, 1));
            proof {
                assert(freq_view(table@) =~= f.take(i as int) + seq![(c, 1nat)] + f.skip(i as int));
                assert(bump(f, c) == f.take(i as int) + seq![(c, 1nat)] + f.skip(i as int));
            }
        }
        idx = idx + 1;
        proof {
            assert(freq_view(table@) =~= freq_of(msg@.take(idx as int)));
        }
    }
    proof {
        assert(msg@.take(idx as int) =~= msg@);
    }
    table
}

} // verus!

// ------------------------------------------------------------------
// Tree construction
// ------------------------------------------------------------------

verus! {

/// The forest seen through the mathematical tree model.
pub open spec fn forest_view(ns: Seq<Node>) -> Seq<HuffTree> {
    ns.map_values(|n: Node| n.as_tree())
}

/// Root frequencies never decrease along the forest.
pub open spec fn sorted_freqs(ts: Seq<HuffTree>) -> bool {
    forall|i: int, j: int|
        0 <= i < j < ts.len() ==> (#[trigger] ts[i]).freq() <= (#[trigger] ts[j]).freq()
}

/// Insert a tree after every tree of no greater root frequency: the
/// position a stable re-sort gives a node pushed at the back, which is
/// the deterministic tie-break of the whole builder.
pub open spec fn forest_insert(ts: Seq<HuffTree>, t: HuffTree) -> Seq<HuffTree>
    decreases ts.len(),
{
    if ts.len() == 0 {
        seq![t]
    } else if t.freq() < ts[0].freq() {
        seq![t] + ts
    } else {
        seq![ts[0]] + forest_insert(ts.drop_first(), t)
    }
}

/// The initial forest: one leaf per frequency-table entry, inserted in
/// symbol order, so equal frequencies keep their symbol order.
pub open spec fn spec_forest(f: FreqModel) -> Seq<HuffTree>
    decreases f.len(),
{
    if f.len() == 0 {
        Seq::empty()
    } else {
        forest_insert(
            spec_forest(f.drop_last()),
            HuffTree::Leaf { sym: f.last().0, freq: f.last().1 },
        )
    }
}

/// Inserting adds one tree.
pub proof fn lemma_forest_insert_len(ts: Seq<HuffTree>, t: HuffTree)
    ensures
        forest_insert(ts, t).len() == ts.len() + 1,
    decreases ts.len(),
{
    if ts.len() > 0 && !(t.freq() < ts[0].freq()) {
        lemma_forest_insert_len(ts.drop_first(), t);
    }
}

/// The greedy merge: while at least two trees remain, the two of
/// lowest frequency become the children of a fresh branch, which goes
/// back after its equals.
pub open spec fn merge_forest(ts: Seq<HuffTree>) -> HuffTree
    recommends
        ts.len() >= 1,
    decreases ts.len(),
        via merge_forest_decreases
{
    if ts.len() <= 1 {
        ts[0]
    } else {
        merge_forest(
            forest_insert(
                ts.skip(2),
                HuffTree::Branch {
                    freq: ts[0].freq() + ts[1].freq(),
                    left: Box::new(ts[0]),
                    right: Box::new(ts[1]),
                },
            ),
        )
    }
}

#[via_fn]
proof fn merge_forest_decreases(ts: Seq<HuffTree>) {
    if ts.len() > 1 {
        lemma_forest_insert_len(
            ts.skip(2),
            HuffTree::Branch {
                freq: ts[0].freq() + ts[1].freq(),
                left: Box::new(ts[0]),
                right: Box::new(ts[1]),
            },
        );
    }
}

/// The tree of a non-empty frequency table.
pub open spec fn spec_tree(f: FreqModel) -> HuffTree {
    merge_forest(spec_forest(f))
}

/// What `forest_insert` does: order kept, the head is the new tree or
/// the old head, and the entries are the old ones plus the new one.
pub proof fn lemma_forest_insert(ts: Seq<HuffTree>, t: HuffTree)
    requires
        sorted_freqs(ts),
    ensures
        sorted_freqs(forest_insert(ts, t)),
        forest_insert(ts, t).len() == ts.len() + 1,
        forest_insert(ts, t)[0] == t || (ts.len() >= 1 && forest_insert(ts, t)[0] == ts[0]),
    decreases ts.len(),
{
    lemma_forest_insert_len(ts, t);
    let r = forest_insert(ts, t);
    if ts.len() == 0 {
    } else if t.freq() < ts[0].freq() {
        assert(forall|i: int| 1 <= i < r.len() ==> #[trigger] r[i] == ts[i - 1]);
    } else {
        let dt = ts.drop_first();
        assert(sorted_freqs(dt)) by {
            assert(forall|k: int| 0 <= k < dt.len() ==> #[trigger] dt[k] == ts[k + 1]);
        }
        lemma_forest_insert(dt, t);
        let rt = forest_insert(dt, t);
        assert(r.drop_first() =~= rt);
        assert forall|i: int, j: int| 0 <= i < j < r.len() implies (#[trigger] r[i]).freq() <= (
        #[trigger] r[j]).freq() by {
            if i >= 1 {
                assert(r[i] == rt[i - 1] && r[j] == rt[j - 1]);
            } else {
                assert(r[j] == rt[j - 1]);
                if j > 1 {
                    assert(rt[0].freq() <= rt[j - 1].freq());
                }
                assert(rt[0] == t || (dt.len() >= 1 && rt[0] == dt[0]));
            }
        }
    }
}

/// Positional description of `forest_insert`: the new tree is spliced
/// in at the first position of strictly greater frequency.
pub proof fn lemma_forest_insert_at(ts: Seq<HuffTree>, t: HuffTree, i: int)
    requires
        sorted_freqs(ts),
        0 <= i <= ts.len(),
        forall|j: int| 0 <= j < i ==> (#[trigger] ts[j]).freq() <= t.freq(),
        i < ts.len() ==> t.freq() < ts[i].freq(),
    ensures
        forest_insert(ts, t) == ts.take(i) + seq![t] + ts.skip(i),
    decreases ts.len(),
{
    if i == 0 {
        if ts.len() == 0 || t.freq() < ts[0].freq() {
            assert(forest_insert(ts, t) =~= ts.take(0) + seq![t] + ts.skip(0));
        } else {
            assert(ts[0].freq() <= t.freq());
            assert(t.freq() < ts[0].freq());
        }
    } else {
        let dt = ts.drop_first();
        assert(sorted_freqs(dt)) by {
            assert(forall|k: int| 0 <= k < dt.len() ==> #[trigger] dt[k] == ts[k + 1]);
        }
        assert(ts[0].freq() <= t.freq());
        assert(forall|j: int| 0 <= j < i - 1 ==> (#[trigger] dt[j]).freq() <= t.freq());
        lemma_forest_insert_at(dt, t, i - 1);
        assert(forest_insert(ts, t) =~= ts.take(i) + seq![t] + ts.skip(i));
    }
}

/// The root frequencies of a forest added up.
pub open spec fn forest_freq_sum(ts: Seq<HuffTree>) -> nat
    decreases ts.len(),
{
    if ts.len() == 0 {
        0
    } else {
        ts[0].freq() + forest_freq_sum(ts.drop_first())
    }
}

/// Forest sums add over concatenation.
pub proof fn lemma_forest_sum_add(a: Seq<HuffTree>, b: Seq<HuffTree>)
    ensures
        forest_freq_sum(a + b) == forest_freq_sum(a) + forest_freq_sum(b),
    decreases a.len(),
{
    if a.len() == 0 {
        assert(a + b =~= b);
    } else {
        assert((a + b).drop_first() =~= a.drop_first() + b);
        lemma_forest_sum_add(a.drop_first(), b);
    }
}

/// The initial forest carries exactly the counts of the table.
pub proof fn lemma_spec_forest_sum(f: FreqModel)
    ensures
        forest_freq_sum(spec_forest(f)) == freq_total(f),
        spec_forest(f).len() == f.len(),
        sorted_freqs(spec_forest(f)),
    decreases f.len(),
{
    if f.len() > 0 {
        let front = f.drop_last();
        let leaf = HuffTree::Leaf { sym: f.last().0, freq: f.last().1 };
        lemma_spec_forest_sum(front);
        lemma_forest_insert(spec_forest(front), leaf);
        lemma_forest_insert_sum(spec_forest(front), leaf);
        assert(freq_total(f) == freq_total(front) + f.last().1) by {
            lemma_freq_total_add(front, seq![f.last()]);
            assert(front + seq![f.last()] =~= f);
            reveal_with_fuel(freq_total, 2);
            assert(seq![f.last()].drop_first() =~= Seq::<(char, nat)>::empty());
        }
    }
}

/// Inserting adds the new tree's frequency to the sum.
pub proof fn lemma_forest_insert_sum(ts: Seq<HuffTree>, t: HuffTree)
    ensures
        forest_freq_sum(forest_insert(ts, t)) == forest_freq_sum(ts) + t.freq(),
    decreases ts.len(),
{
    let r = forest_insert(ts, t);
    reveal_with_fuel(forest_freq_sum, 2);
    if ts.len() == 0 {
        assert(r.drop_first() =~= Seq::<HuffTree>::empty());
    } else if t.freq() < ts[0].freq() {
        assert(r.drop_first() =~= ts);
    } else {
        assert(r.drop_first() =~= forest_insert(ts.drop_first(), t));
        lemma_forest_insert_sum(ts.drop_first(), t);
    }
}

/// Builds the leaf forest of a frequency table: one leaf per entry,
/// ordered by frequency with ties kept in symbol order.
pub fn get_nodes(freq: &Vec<(char, usize)>) -> (nodes: Vec<Node>)
    ensures
        forest_view(nodes@) == spec_forest(freq_view(freq@)),
        forall|i: int| 0 <= i < nodes@.len() ==> (#[trigger] nodes@[i]).wf(),
{
    let ghost f = freq_view(freq@);
    let mut nodes: Vec<Node> = Vec::new();
    let mut k: usize = 0;
    proof {
        assert(freq_view(freq@.take(0)) =~= f.take(0));
        assert(f.take(0) =~= Seq::<(char, nat)>::empty());
        assert(forest_view(nodes@) =~= spec_forest(f.take(0)));
    }
    while k < freq.len()
        invariant
            k <= freq@.len(),
            f == freq_view(freq@),
            f.len() == freq@.len(),
            forest_view(nodes@) == spec_forest(f.take(k as int)),
            sorted_freqs(forest_view(nodes@)),
            forall|i: int| 0 <= i < nodes@.len() ==> (#[trigger] nodes@[i]).wf(),
        decreases freq@.len() - k,
    {
        let ghost ts = forest_view(nodes@);
        let e = freq[k];
        let node = Node::new_default(e.0, e.1);
        let ghost leaf = node.as_tree();
        proof {
            assert(f[k as int] == (e.0, e.1 as nat));
            assert(leaf == (HuffTree::Leaf { sym: e.0, freq: e.1 as nat }));
            assert(leaf.freq() == e.1 as nat);
            assert(forall|j: int| 0 <= j < ts.len() ==> (#[trigger] ts[j]).freq() == (
            nodes@[j]).freq as nat);
        }
        let mut i: usize = 0;
        while i < nodes.len() && nodes[i].freq <= e.1
            invariant
                0 <= i <= nodes@.len(),
                ts == forest_view(nodes@),
                forall|j: int| 0 <= j < i ==> (#[trigger] ts[j]).freq() <= e.1 as nat,
                forall|j: int| 0 <= j < ts.len() ==> (#[trigger] ts[j]).freq() == (
                nodes@[j]).freq as nat,
            decreases nodes@.len() - i,
        {
            i = i + 1;
        }
        proof {
            lemma_forest_insert_at(ts, leaf, i as int);
            lemma_forest_insert(ts, leaf);
        }
        nodes.insert(i, node);
        k = k + 1;
        proof {
            assert(forest_view(nodes@) =~= ts.take(i as int) + seq![leaf] + ts.skip(i as int));
            assert(f.take(k as int).drop_last() =~= f.take(k - 1));
            assert(f.take(k as int).last() == f[k - 1]);
            assert(forest_view(nodes@) == spec_forest(f.take(k as int)));
        }
    }
    proof {
        assert(f.take(k as int) =~= f);
    }
    nodes
}

/// Greedily merges the two lowest-frequency trees until one remains:
/// the Huffman tree of the given forest.  The forest must carry a
/// total frequency a machine word can hold, which a text's frequency
/// table always does.
pub fn build_huff_tree(nodes: &mut Vec<Node>) -> (root: Node)
    requires
        old(nodes)@.len() >= 1,
        sorted_freqs(forest_view(old(nodes)@)),
        forest_freq_sum(forest_view(old(nodes)@)) <= usize::MAX,
        forall|i: int| 0 <= i < old(nodes)@.len() ==> (#[trigger] old(nodes)@[i]).wf(),
    ensures
        root.wf(),
        root.as_tree() == merge_forest(forest_view(old(nodes)@)),
        final(nodes)@.len() == 0,
{
    while nodes.len() > 1
        invariant
            nodes@.len() >= 1,
            sorted_freqs(forest_view(nodes@)),
            forest_freq_sum(forest_view(nodes@)) <= usize::MAX,
            forall|i: int| 0 <= i < nodes@.len() ==> (#[trigger] nodes@[i]).wf(),
            merge_forest(forest_view(nodes@)) == merge_forest(forest_view(old(nodes)@)),
        decreases nodes@.len(),
    {
        let ghost ts = forest_view(nodes@);
        let n0 = nodes.remove(0);
        let n1 = nodes.remove(0);
        let ghost rest = forest_view(nodes@);
        proof {
            assert(rest =~= ts.skip(2));
            assert(forall|j: int| 0 <= j < rest.len() ==> (#[trigger] rest[j]).freq() == (
            nodes@[j]).freq as nat);
            assert(n0.as_tree() == ts[0] && n1.as_tree() == ts[1]);
            assert(n0.as_tree().freq() == n0.freq as nat && n1.as_tree().freq() == n1.freq as nat);
            // the pair's sum is bounded by the forest's total
            assert(ts =~= seq![ts[0]] + (seq![ts[1]] + ts.skip(2)));
            lemma_forest_sum_add(seq![ts[0]], seq![ts[1]] + ts.skip(2));
            lemma_forest_sum_add(seq![ts[1]], ts.skip(2));
            reveal_with_fuel(forest_freq_sum, 2);
            assert(seq![ts[0]].drop_first() =~= Seq::<HuffTree>::empty());
            assert(seq![ts[1]].drop_first() =~= Seq::<HuffTree>::empty());
            assert(ts[0].freq() + ts[1].freq() + forest_freq_sum(ts.skip(2)) == forest_freq_sum(
                ts,
            ));
        }
        let f = n0.freq + n1.freq;
        let parent = Node::new_param(
            SPECIAL_CHAR,
            f,
            Some(Box::new(n0)),
            Some(Box::new(n1)),
            Vec::new(),
        );
        let ghost branch = parent.as_tree();
        proof {
            assert(parent.wf());
            assert(branch == (HuffTree::Branch {
                freq: ts[0].freq() + ts[1].freq(),
                left: Box::new(ts[0]),
                right: Box::new(ts[1]),
            }));
        }
        let mut i: usize = 0;
        while i < nodes.len() && nodes[i].freq <= f
            invariant
                0 <= i <= nodes@.len(),
                rest == forest_view(nodes@),
                branch.freq() == f as nat,
                forall|j: int| 0 <= j < i ==> (#[trigger] rest[j]).freq() <= f as nat,
                forall|j: int| 0 <= j < rest.len() ==> (#[trigger] rest[j]).freq() == (
                nodes@[j]).freq as nat,
            decreases nodes@.len() - i,
        {
            i = i + 1;
        }
        proof {
            assert(sorted_freqs(rest)) by {
                assert(forall|a: int| 0 <= a < rest.len() ==> #[trigger] rest[a] == ts[a + 2]);
            }
            lemma_forest_insert_at(rest, branch, i as int);
            lemma_forest_insert(rest, branch);
            lemma_forest_insert_sum(rest, branch);
        }
        nodes.insert(i, parent);
        proof {
            assert(forest_view(nodes@) =~= rest.take(i as int) + seq![branch] + rest.skip(
                i as int,
            ));
            assert(forest_view(nodes@) == forest_insert(rest, branch));
            assert(merge_forest(ts) == merge_forest(forest_insert(ts.skip(2), branch)));
        }
    }
    let root = nodes.remove(0);
    proof {
        assert(root.as_tree() == forest_view(old(nodes)@)[0] || root.as_tree() == merge_forest(
            forest_view(old(nodes)@),
        ));
    }
    root
}

} // verus!

// ------------------------------------------------------------------
// Code assignment and table extraction
// ------------------------------------------------------------------

verus! {

/// Every node's code is a one bit followed by the node's path from the
/// root (left = 0, right = 1).  The leading one keeps any code from
/// matching a run of zero-valued filler bits at the end of a packed
/// stream.
pub open spec fn codes_assigned(n: Node, path: Seq<bool>) -> bool
    decreases n,
{
    &&& n.code@ == seq![true] + path
    &&& (n.l is Some ==> codes_assigned(*n.l->0, path.push(false)))
    &&& (n.r is Some ==> codes_assigned(*n.r->0, path.push(true)))
}

/// A fresh code: a one bit followed by the current path.
fn one_then(path: &Vec<bool>) -> (code: Vec<bool>)
    ensures
        code@ == seq![true] + path@,
{
    let mut code: Vec<bool> = Vec::new();
    code.push(true);
    let mut j: usize = 0;
    proof {
        assert(code@ =~= (seq![true] + path@).take(1));
    }
    while j < path.len()
        invariant
            j <= path@.len(),
            code@ == (seq![true] + path@).take(j + 1),
        decreases path@.len() - j,
    {
        code.push(path[j]);
        proof {
            assert(code@ =~= (seq![true] + path@).take(j + 2));
        }
        j = j + 1;
    }
    proof {
        assert((seq![true] + path@).take(path@.len() as int + 1) =~= seq![true] + path@);
    }
    code
}

/// Walks one node: writes its code, then its children's, keeping the
/// path in `marker`.
fn mark_node(n: &mut Node, marker: &mut Vec<bool>)
    requires
        old(n).wf(),
    ensures
        final(n).wf(),
        final(n).as_tree() == old(n).as_tree(),
        codes_assigned(*final(n), old(marker)@),
        final(marker)@ == old(marker)@,
    decreases *old(n),
{
    let code = one_then(marker);
    n.code = code;
    let ghost path = marker@;
    match n.l.take() {
        Some(mut bx) => {
            marker.push(false);
            mark_node(&mut *bx, marker);
            let _ = marker.pop();
            proof {
                assert(path.push(false).drop_last() =~= path);
            }
            n.l = Some(bx);
        },
        None => {},
    }
    match n.r.take() {
        Some(mut bx) => {
            marker.push(true);
            mark_node(&mut *bx, marker);
            let _ = marker.pop();
            proof {
                assert(path.push(true).drop_last() =~= path);
            }
            n.r = Some(bx);
        },
        None => {},
    }
}

/// Pre-order traversal assigning every node its code: a one bit, then
/// the path of left/right turns that reaches the node.
pub fn mark_tree(root: &mut Link, marker: &mut Vec<bool>)
    requires
        old(root).is_some() ==> old(root).unwrap().wf(),
    ensures
        final(marker)@ == old(marker)@,
        old(root).is_none() ==> final(root).is_none(),
        old(root).is_some() ==> {
            &&& final(root).is_some()
            &&& final(root).unwrap().wf()
            &&& final(root).unwrap().as_tree() == old(root).unwrap().as_tree()
            &&& codes_assigned(*final(root).unwrap(), old(marker)@)
        },
{
    match root.take() {
        Some(mut bx) => {
            mark_node(&mut *bx, marker);
            *root = Some(bx);
        },
        None => {},
    }
}

/// The code-table entries of a tree: one per leaf with a real symbol,
/// each code a one bit followed by the leaf's path, in traversal order.
pub open spec fn leaf_entries(t: HuffTree, path: Seq<bool>) -> TableModel
    decreases t,
{
    match t {
        HuffTree::Leaf { sym, .. } => {
            if sym == SPECIAL_CHAR {
                Seq::empty()
            } else {
                seq![(sym, seq![true] + path)]
            }
        },
        HuffTree::Branch { left, right, .. } => leaf_entries(*left, path.push(false)) + leaf_entries(
            *right,
            path.push(true),
        ),
    }
}

/// Extending by two entry runs is extending by their concatenation.
pub proof fn lemma_table_extend_add(t: TableModel, a: TableModel, b: TableModel)
    ensures
        table_extend(table_extend(t, a), b) == table_extend(t, a + b),
    decreases b.len(),
{
    if b.len() == 0 {
        assert(a + b =~= a);
    } else {
        assert((a + b).drop_last() =~= a + b.drop_last());
        assert((a + b).last() == b.last());
        lemma_table_extend_add(t, a, b.drop_last());
    }
}

/// Building from entries is extending the empty table by them.
proof fn lemma_table_from_is_extend(es: TableModel)
    ensures
        table_from(es) == table_extend(Seq::empty(), es),
    decreases es.len(),
{
    if es.len() > 0 {
        lemma_table_from_is_extend(es.drop_last());
    }
}

/// In-order walk inserting each leaf's symbol and code into the table.
fn collect_codes(n: &Node, Ghost(path): Ghost<Seq<bool>>, m: &mut MyTreeMap)
    requires
        n.wf(),
        codes_assigned(*n, path),
        old(m).wf(),
        !n.as_tree().syms().contains('\n'),
    ensures
        final(m).wf(),
        final(m)@ == table_extend(old(m)@, leaf_entries(n.as_tree(), path)),
    decreases *n,
{
    let ghost t = n.as_tree();
    if n.l.is_none() {
        if n.data != SPECIAL_CHAR {
            let code = copy_code(n);
            proof {
                assert(t.syms().contains(n.data));
            }
            m.insert(n.data, code);
            proof {
                reveal_with_fuel(table_extend, 2);
                assert(leaf_entries(t, path) =~= seq![(n.data, seq![true] + path)]);
                assert(leaf_entries(t, path).drop_last() =~= Seq::<(char, Seq<bool>)>::empty());
            }
        } else {
            proof {
                assert(n.r is None);
                assert(leaf_entries(t, path) =~= Seq::<(char, Seq<bool>)>::empty());
            }
        }
    } else {
        let ghost lt = n.l->0.as_tree();
        let ghost rt = n.r->0.as_tree();
        proof {
            assert(t == (HuffTree::Branch {
                freq: n.freq as nat,
                left: Box::new(lt),
                right: Box::new(rt),
            }));
            assert(t.syms() == lt.syms() + rt.syms());
        }
        match &n.l {
            Some(bx) => {
                collect_codes(&**bx, Ghost(path.push(false)), m);
            },
            None => {
                proof {
                    assert(false);
                }
            },
        }
        match &n.r {
            Some(bx) => {
                collect_codes(&**bx, Ghost(path.push(true)), m);
            },
            None => {
                proof {
                    assert(false);
                }
            },
        }
        proof {
            lemma_table_extend_add(
                old(m)@,
                leaf_entries(lt, path.push(false)),
                leaf_entries(rt, path.push(true)),
            );
        }
    }
}

/// A fresh copy of this node's code vector.
fn copy_code(n: &Node) -> (code: Vec<bool>)
    ensures
        code@ == n.code@,
{
    let mut code: Vec<bool> = Vec::new();
    let mut j: usize = 0;
    proof {
        assert(code@ =~= n.code@.take(0));
    }
    while j < n.code.len()
        invariant
            j <= n.code@.len(),
            code@ == n.code@.take(j as int),
        decreases n.code@.len() - j,
    {
        code.push(n.code[j]);
        proof {
            assert(code@ =~= n.code@.take(j + 1));
        }
        j = j + 1;
    }
    proof {
        assert(n.code@.take(n.code@.len() as int) =~= n.code@);
    }
    code
}

/// Reads the finished, marked tree into a code table: one entry per
/// real-symbol leaf, keys in symbol order.
pub fn get_hash_of_tree(root: Option<Box<Node>>) -> (m: MyTreeMap)
    requires
        root is Some ==> {
            &&& root->0.wf()
            &&& codes_assigned(*root->0, Seq::empty())
            &&& !root->0.as_tree().syms().contains('\n')
        },
    ensures
        m.wf(),
        root is Some ==> m@ == table_from(leaf_entries(root->0.as_tree(), Seq::empty())),
        root is None ==> m@ == Seq::<(char, Seq<bool>)>::empty(),
{
    let mut m = MyTreeMap::new_default();
    match &root {
        Some(bx) => {
            collect_codes(&**bx, Ghost(Seq::empty()), &mut m);
            proof {
                lemma_table_from_is_extend(leaf_entries(root->0.as_tree(), Seq::empty()));
            }
        },
        None => {},
    }
    m
}

} // verus!

// ------------------------------------------------------------------
// Symbols of the built tree
// ------------------------------------------------------------------

verus! {

/// All leaf symbols of a forest.
pub open spec fn forest_syms(ts: Seq<HuffTree>) -> Set<char>
    decreases ts.len(),
{
    if ts.len() == 0 {
        Set::empty()
    } else {
        ts[0].syms() + forest_syms(ts.drop_first())
    }
}

/// No symbol appears at two leaves anywhere in the forest.
pub open spec fn forest_distinct(ts: Seq<HuffTree>) -> bool
    decreases ts.len(),
{
    if ts.len() == 0 {
        true
    } else {
        &&& ts[0].distinct_syms()
        &&& ts[0].syms().disjoint(forest_syms(ts.drop_first()))
        &&& forest_distinct(ts.drop_first())
    }
}

/// Inserting a tree adds its symbols and keeps distinctness.
proof fn lemma_forest_insert_syms(ts: Seq<HuffTree>, t: HuffTree)
    ensures
        forest_syms(forest_insert(ts, t)) == forest_syms(ts) + t.syms(),
        forest_distinct(ts) && t.distinct_syms() && t.syms().disjoint(forest_syms(ts))
            ==> forest_distinct(forest_insert(ts, t)),
    decreases ts.len(),
{
    let r = forest_insert(ts, t);
    if ts.len() == 0 {
        reveal_with_fuel(forest_syms, 2);
        reveal_with_fuel(forest_distinct, 2);
        assert(r.drop_first() =~= Seq::<HuffTree>::empty());
        assert(forest_syms(r) =~= forest_syms(ts) + t.syms());
    } else if t.freq() < ts[0].freq() {
        assert(r.drop_first() =~= ts);
        assert(forest_syms(r) =~= forest_syms(ts) + t.syms());
        if forest_distinct(ts) && t.distinct_syms() && t.syms().disjoint(forest_syms(ts)) {
            assert(t.syms().disjoint(forest_syms(ts)));
        }
    } else {
        assert(r.drop_first() =~= forest_insert(ts.drop_first(), t));
        lemma_forest_insert_syms(ts.drop_first(), t);
        assert(forest_syms(r) =~= forest_syms(ts) + t.syms());
        if forest_distinct(ts) && t.distinct_syms() && t.syms().disjoint(forest_syms(ts)) {
            assert(t.syms().disjoint(forest_syms(ts.drop_first()))) by {
                assert forall|x: char| t.syms().contains(x) implies !forest_syms(
                    ts.drop_first(),
                ).contains(x) by {
                    assert(forest_syms(ts).contains(x) == (ts[0].syms().contains(x) || forest_syms(
                        ts.drop_first(),
                    ).contains(x)));
                }
            }
            assert(ts[0].syms().disjoint(forest_syms(r.drop_first()))) by {
                assert forall|x: char| ts[0].syms().contains(x) implies !forest_syms(
                    r.drop_first(),
                ).contains(x) by {
                    assert(!forest_syms(ts.drop_first()).contains(x));
                    assert(!t.syms().contains(x));
                }
            }
        }
    }
}

/// The merged tree carries exactly the forest's symbols, each at one
/// leaf.
proof fn lemma_merge_forest_syms(ts: Seq<HuffTree>)
    requires
        ts.len() >= 1,
        forest_distinct(ts),
    ensures
        merge_forest(ts).syms() == forest_syms(ts),
        merge_forest(ts).distinct_syms(),
    decreases ts.len(),
{
    if ts.len() == 1 {
        reveal_with_fuel(forest_syms, 2);
        assert(ts.drop_first() =~= Seq::<HuffTree>::empty());
        assert(merge_forest(ts).syms() =~= forest_syms(ts));
    } else {
        let branch = HuffTree::Branch {
            freq: ts[0].freq() + ts[1].freq(),
            left: Box::new(ts[0]),
            right: Box::new(ts[1]),
        };
        let rest = ts.skip(2);
        reveal_with_fuel(forest_syms, 3);
        reveal_with_fuel(forest_distinct, 3);
        assert(ts.drop_first().drop_first() =~= rest);
        assert(ts.drop_first()[0] == ts[1]);
        assert(forest_distinct(ts.drop_first()));
        assert(ts[0].distinct_syms() && ts[1].distinct_syms());
        assert(forest_syms(ts.drop_first()) == ts[1].syms() + forest_syms(rest));
        assert(forest_syms(ts) == ts[0].syms() + (ts[1].syms() + forest_syms(rest)));
        assert(branch.syms() == ts[0].syms() + ts[1].syms());
        assert(ts[0].syms().disjoint(ts[1].syms() + forest_syms(rest)));
        assert(ts[1].syms().disjoint(forest_syms(rest)));
        assert(branch.distinct_syms()) by {
            assert forall|x: char| ts[0].syms().contains(x) implies !ts[1].syms().contains(x) by {
                assert((ts[1].syms() + forest_syms(rest)).contains(x) == (ts[1].syms().contains(x)
                    || forest_syms(rest).contains(x)));
            }
        }
        assert(branch.syms().disjoint(forest_syms(rest))) by {
            assert forall|x: char| branch.syms().contains(x) implies !forest_syms(rest).contains(
                x,
            ) by {
                if ts[0].syms().contains(x) {
                    assert((ts[1].syms() + forest_syms(rest)).contains(x) == (ts[1].syms().contains(
                        x,
                    ) || forest_syms(rest).contains(x)));
                }
            }
        }
        assert(forest_distinct(rest));
        lemma_forest_insert_syms(rest, branch);
        lemma_forest_insert_len(rest, branch);
        lemma_merge_forest_syms(forest_insert(rest, branch));
        assert(forest_syms(forest_insert(rest, branch)) =~= forest_syms(ts));
    }
}

/// The key set of a frequency table.
pub open spec fn keys_set(f: FreqModel) -> Set<char>
    decreases f.len(),
{
    if f.len() == 0 {
        Set::empty()
    } else {
        keys_set(f.drop_last()).insert(f.last().0)
    }
}

/// A symbol is a key exactly when it can be looked up.
pub proof fn lemma_keys_set(f: FreqModel)
    ensures
        forall|c: char| #[trigger] keys_set(f).contains(c) <==> lookup(f, c) is Some,
    decreases f.len(),
{
    if f.len() > 0 {
        let front = f.drop_last();
        let e = f.last();
        lemma_keys_set(front);
        crate::my_tree_map::lemma_lookup_snoc(front, e);
        assert(front.push(e) =~= f);
        assert forall|c: char| #[trigger] keys_set(f).contains(c) <==> lookup(f, c) is Some by {
            assert(keys_set(f) == keys_set(front).insert(e.0));
            assert(lookup(f, c) == lookup(front.push(e), c));
            assert(lookup(front.push(e), c) == (if lookup(front, c) is Some {
                lookup(front, c)
            } else if c == e.0 {
                Some(e.1)
            } else {
                None::<nat>
            }));
            assert(keys_set(front).contains(c) <==> lookup(front, c) is Some);
        }
    }
}

/// A leaf's symbol set and distinctness, stated through parameters so
/// the facts attach to any leaf term.
proof fn lemma_leaf_facts(c: char, fr: nat)
    ensures
        (HuffTree::Leaf { sym: c, freq: fr }).syms() == set![c],
        (HuffTree::Leaf { sym: c, freq: fr }).distinct_syms(),
{
}

/// The initial forest holds one leaf per key, all distinct.
proof fn lemma_spec_forest_syms(f: FreqModel)
    requires
        sorted_keys(f),
    ensures
        forest_syms(spec_forest(f)) == keys_set(f),
        forest_distinct(spec_forest(f)),
    decreases f.len(),
{
    if f.len() == 0 {
        assert(forest_syms(spec_forest(f)) =~= keys_set(f));
    } else {
        let front = f.drop_last();
        let c = f.last().0;
        let leaf = HuffTree::Leaf { sym: c, freq: f.last().1 };
        assert(sorted_keys(front)) by {
            assert(forall|k: int| 0 <= k < front.len() ==> #[trigger] front[k] == f[k]);
        }
        lemma_spec_forest_syms(front);
        lemma_leaf_facts(c, f.last().1);
        assert(!keys_set(front).contains(c)) by {
            lemma_keys_set(front);
            if lookup(front, c) is Some {
                crate::my_tree_map::lemma_lookup_index(front, c);
                let k = choose|k: int|
                    0 <= k < front.len() && (#[trigger] front[k]).0 == c && front[k].1 == lookup(
                        front,
                        c,
                    )->0;
                assert(char_lt(f[k].0, f[f.len() - 1].0));
                lemma_char_lt_trichotomy(f[k].0, c);
            }
        }
        assert(leaf.syms() == set![c]);
        assert(leaf.syms() =~= Set::empty().insert(c));
        assert(leaf.syms().disjoint(forest_syms(spec_forest(front)))) by {
            assert forall|x: char| leaf.syms().contains(x) implies !forest_syms(
                spec_forest(front),
            ).contains(x) by {
                assert(x == c);
            }
        }
        assert(leaf.distinct_syms());
        lemma_forest_insert_syms(spec_forest(front), leaf);
        assert(forest_syms(spec_forest(f)) =~= keys_set(f));
    }
}

/// The Huffman tree of a sorted, non-empty frequency table carries
/// exactly the table's keys, one leaf each.
pub proof fn lemma_tree_of_freq(f: FreqModel)
    requires
        sorted_keys(f),
        f.len() >= 1,
    ensures
        spec_tree(f).syms() == keys_set(f),
        spec_tree(f).distinct_syms(),
{
    lemma_spec_forest_syms(f);
    lemma_spec_forest_sum(f);
    lemma_merge_forest_syms(spec_forest(f));
}

/// A character that never occurs is counted zero times.
pub proof fn lemma_count_zero(s: Seq<char>, c: char)
    requires
        forall|i: int| 0 <= i < s.len() ==> s[i] != c,
    ensures
        count_of(s, c) == 0,
    decreases s.len(),
{
    if s.len() > 0 {
        assert(forall|i: int| 0 <= i < s.drop_last().len() ==> s.drop_last()[i] != c);
        lemma_count_zero(s.drop_last(), c);
    }
}

/// A non-empty text has a non-empty frequency table and conversely.
pub proof fn lemma_freq_of_len(t: Seq<char>)
    ensures
        t.len() == 0 <==> freq_of(t).len() == 0,
{
    if t.len() > 0 {
        lemma_freq_of(t.drop_last());
        let f = freq_of(t.drop_last());
        let x = subst_char(t.last());
        match lookup(f, x) {
            Some(n) => {
                lemma_table_insert(f, (x, n + 1));
            },
            None => {
                lemma_table_insert(f, (x, 1nat));
            },
        }
    }
}

/// Builds the whole encode-side structure from a text: frequency
/// table, leaf forest, greedy merge, code assignment.  Returns the
/// marked tree root, or nothing for the empty text.
pub fn get_tree_root(msg: &Vec<char>) -> (root: Link)
    ensures
        root is Some <==> msg@.len() >= 1,
        root is Some ==> {
            &&& root.unwrap().wf()
            &&& root.unwrap().as_tree() == spec_tree(freq_of(msg@))
            &&& codes_assigned(*root.unwrap(), Seq::empty())
            &&& root.unwrap().as_tree().distinct_syms()
            &&& root.unwrap().as_tree().syms() == keys_set(freq_of(msg@))
            &&& !root.unwrap().as_tree().syms().contains('\n')
        },
{
    let freq = get_hash_char_freq(msg);
    proof {
        lemma_freq_of_len(msg@);
        assert(freq@.len() == freq_view(freq@).len());
    }
    if freq.len() == 0 {
        return None;
    }
    let ghost f = freq_of(msg@);
    let mut nodes = get_nodes(&freq);
    proof {
        lemma_freq_of(msg@);
        lemma_freq_total_is_len(msg@);
        lemma_spec_forest_sum(f);
        assert(msg@.len() <= usize::MAX) by {
            assert(msg.len() == msg@.len());
        }
    }
    let root_node = build_huff_tree(&mut nodes);
    let mut link: Link = Some(Box::new(root_node));
    let mut marker: Vec<bool> = Vec::new();
    mark_tree(&mut link, &mut marker);
    proof {
        lemma_tree_of_freq(f);
        assert(!keys_set(f).contains('\n')) by {
            lemma_keys_set(f);
            assert forall|i: int| 0 <= i < subst_text(msg@).len() implies subst_text(msg@)[i]
                != '\n' by {
                assert(subst_text(msg@)[i] == subst_char(msg@[i]));
            }
            lemma_count_zero(subst_text(msg@), '\n');
        }
    }
    link
}

} // verus!

// ------------------------------------------------------------------
// Encoding
// ------------------------------------------------------------------

verus! {

/// The bit stream of a text under a table: each character's code in
/// order, with no separators; nothing at all when some character has
/// no entry.
pub open spec fn spec_encode(t: Seq<char>, table: TableModel) -> Option<Seq<bool>>
    decreases t.len(),
{
    if t.len() == 0 {
        Some(Seq::empty())
    } else {
        match (lookup(table, subst_char(t[0])), spec_encode(t.drop_first(), table)) {
            (Some(code), Some(rest)) => Some(code + rest),
            _ => None,
        }
    }
}

/// Encoding one more character appends its code.
pub proof fn lemma_encode_snoc(t: Seq<char>, c: char, table: TableModel)
    ensures
        spec_encode(t.push(c), table) == (match (spec_encode(t, table), lookup(
            table,
            subst_char(c),
        )) {
            (Some(bits), Some(code)) => Some(bits + code),
            _ => None::<Seq<bool>>,
        }),
    decreases t.len(),
{
    if t.len() == 0 {
        assert(t.push(c).drop_first() =~= Seq::<char>::empty());
        assert(t.push(c)[0] == c);
        match lookup(table, subst_char(c)) {
            Some(code) => {
                assert(spec_encode(t.push(c), table) == Some(code + Seq::<bool>::empty()));
                assert(code + Seq::<bool>::empty() =~= Seq::<bool>::empty() + code);
            },
            None => {},
        }
    } else {
        assert(t.push(c).drop_first() =~= t.drop_first().push(c));
        assert(t.push(c)[0] == t[0]);
        lemma_encode_snoc(t.drop_first(), c, table);
        match (lookup(table, subst_char(t[0])), spec_encode(t.drop_first(), table), lookup(
            table,
            subst_char(c),
        )) {
            (Some(code0), Some(rest), Some(code)) => {
                assert(code0 + (rest + code) =~= (code0 + rest) + code);
            },
            _ => {},
        }
    }
}

/// A text encodes exactly when every one of its characters has an
/// entry in the table.
pub proof fn lemma_encode_some(t: Seq<char>, table: TableModel)
    ensures
        spec_encode(t, table) is Some <==> (forall|i: int|
            0 <= i < t.len() ==> lookup(table, subst_char(#[trigger] t[i])) is Some),
    decreases t.len(),
{
    if t.len() > 0 {
        lemma_encode_some(t.drop_first(), table);
        if spec_encode(t, table) is Some {
            assert forall|i: int| 0 <= i < t.len() implies lookup(
                table,
                subst_char(#[trigger] t[i]),
            ) is Some by {
                if i > 0 {
                    assert(t.drop_first()[i - 1] == t[i]);
                }
            }
        } else {
            if lookup(table, subst_char(t[0])) is Some {
                let j = choose|j: int|
                    0 <= j < t.drop_first().len() && !(lookup(
                        table,
                        subst_char(#[trigger] t.drop_first()[j]),
                    ) is Some);
                assert(t[j + 1] == t.drop_first()[j]);
            }
        }
    }
}

/// Turns the text into one concatenated code stream, character by
/// character; reports the missing entry if the table does not cover
/// the text.
pub fn convert_to_code_str(original_msg: &Vec<char>, map: &MyTreeMap) -> (r: Result<
    Vec<bool>,
    HuffError,
>)
    ensures
        match r {
            Ok(bits) => spec_encode(original_msg@, map@) == Some(bits@),
            Err(e) => spec_encode(original_msg@, map@) is None && e == HuffError::MissingCode,
        },
{
    let mut out: Vec<bool> = Vec::new();
    let mut i: usize = 0;
    proof {
        assert(original_msg@.take(0) =~= Seq::<char>::empty());
    }
    while i < original_msg.len()
        invariant
            i <= original_msg@.len(),
            spec_encode(original_msg@.take(i as int), map@) == Some(out@),
        decreases original_msg@.len() - i,
    {
        let c0 = original_msg[i];
        let c: char = if c0 == '\n' {
            NEW_LINE
        } else {
            c0
        };
        proof {
            assert(c == subst_char(original_msg@[i as int]));
            lemma_encode_snoc(original_msg@.take(i as int), original_msg@[i as int], map@);
            assert(original_msg@.take(i as int).push(original_msg@[i as int]) =~= original_msg@.take(
                i as int + 1,
            ));
        }
        match map.get(c) {
            Some(code) => {
                let ghost before = out@;
                let mut j: usize = 0;
                while j < code.len()
                    invariant
                        j <= code@.len(),
                        out@ == before + code@.take(j as int),
                    decreases code@.len() - j,
                {
                    out.push(code[j]);
                    proof {
                        assert(before + code@.take(j as int + 1) =~= (before + code@.take(
                            j as int,
                        )).push(code@[j as int]));
                    }
                    j = j + 1;
                }
                proof {
                    assert(code@.take(code@.len() as int) =~= code@);
                }
            },
            None => {
                proof {
                    lemma_encode_some(original_msg@.take(i as int + 1), map@);
                    lemma_encode_some(original_msg@, map@);
                    assert(original_msg@.take(i as int + 1)[i as int] == original_msg@[i as int]);
                }
                return Err(HuffError::MissingCode);
            },
        }
        i = i + 1;
    }
    proof {
        assert(original_msg@.take(i as int) =~= original_msg@);
    }
    Ok(out)
}

/// Encodes a whole text against the given code table.
pub fn encode_file(msg: &Vec<char>, map: &MyTreeMap) -> (r: Result<Vec<bool>, HuffError>)
    ensures
        match r {
            Ok(bits) => spec_encode(msg@, map@) == Some(bits@),
            Err(e) => spec_encode(msg@, map@) is None && e == HuffError::MissingCode,
        },
{
    let encoded_str = convert_to_code_str(msg, &map);
    encoded_str
}

} // verus!

// ------------------------------------------------------------------
// Decoding
// ------------------------------------------------------------------

verus! {

/// An entry matches when its code is non-empty and starts the stream.
pub open spec fn is_match(e: (char, Seq<bool>), bits: Seq<bool>) -> bool {
    e.1.len() >= 1 && e.1.is_prefix_of(bits)
}

/// The first table entry, in key order, whose code starts the stream.
pub open spec fn first_match(table: TableModel, bits: Seq<bool>) -> Option<(char, Seq<bool>)>
    decreases table.len(),
{
    if table.len() == 0 {
        None
    } else if is_match(table[0], bits) {
        Some(table[0])
    } else {
        first_match(table.drop_first(), bits)
    }
}

/// Only zero-valued bits remain: the shape of packing filler.
pub open spec fn all_zero(bits: Seq<bool>) -> bool {
    forall|i: int| 0 <= i < bits.len() ==> !bits[i]
}

/// A found match really matches.
pub proof fn lemma_first_match_is_match(table: TableModel, bits: Seq<bool>)
    ensures
        first_match(table, bits) is Some ==> is_match(first_match(table, bits)->0, bits),
    decreases table.len(),
{
    if table.len() > 0 && !is_match(table[0], bits) {
        lemma_first_match_is_match(table.drop_first(), bits);
    }
}

/// The text recovered from a bit stream: the first matching code is
/// consumed at each step; a final run of fewer than eight zero bits is
/// the packer's filler and decodes to nothing; anything else that
/// matches no code is an error, and so is an empty matched code.
pub open spec fn spec_decode(bits: Seq<bool>, table: TableModel) -> Option<Seq<char>>
    decreases bits.len(),
        via spec_decode_decreases
{
    if bits.len() == 0 {
        Some(Seq::empty())
    } else {
        match first_match(table, bits) {
            Some(e) => {
                if e.1.len() < 1 {
                    None
                } else {
                    match spec_decode(bits.skip(e.1.len() as int), table) {
                        Some(rest) => Some(seq![unsubst_char(e.0)] + rest),
                        None => None,
                    }
                }
            },
            None => {
                if bits.len() < 8 && all_zero(bits) {
                    Some(Seq::empty())
                } else {
                    None
                }
            },
        }
    }
}

#[via_fn]
proof fn spec_decode_decreases(bits: Seq<bool>, table: TableModel) {
    lemma_first_match_is_match(table, bits);
}

/// If a match was found at position `k` and none earlier, it is the
/// first match.
proof fn lemma_first_match_at(table: TableModel, bits: Seq<bool>, k: int)
    requires
        0 <= k < table.len(),
        is_match(table[k], bits),
        forall|j: int| 0 <= j < k ==> !is_match(#[trigger] table[j], bits),
    ensures
        first_match(table, bits) == Some(table[k]),
    decreases table.len(),
{
    if k > 0 {
        let dt = table.drop_first();
        assert(forall|j: int| 0 <= j < dt.len() ==> #[trigger] dt[j] == table[j + 1]);
        lemma_first_match_at(dt, bits, k - 1);
    }
}

/// If no entry matches, there is no first match.
proof fn lemma_first_match_none(table: TableModel, bits: Seq<bool>)
    requires
        forall|j: int| 0 <= j < table.len() ==> !is_match(#[trigger] table[j], bits),
    ensures
        first_match(table, bits) is None,
    decreases table.len(),
{
    if table.len() > 0 {
        let dt = table.drop_first();
        assert(forall|j: int| 0 <= j < dt.len() ==> #[trigger] dt[j] == table[j + 1]);
        lemma_first_match_none(dt, bits);
    }
}

/// Scans the table in key order for the first entry whose code starts
/// the stream at `index`.
fn find_match(bits: &Vec<bool>, index: usize, map: &MyTreeMap) -> (r: Option<usize>)
    requires
        index <= bits@.len(),
        map.wf(),
    ensures
        match r {
            Some(j) => 0 <= j < map@.len() && first_match(map@, bits@.skip(index as int)) == Some(
                map@[j as int],
            ),
            None => first_match(map@, bits@.skip(index as int)) is None,
        },
{
    let ghost suffix = bits@.skip(index as int);
    let mut j: usize = 0;
    while j < map.data_map.len()
        invariant
            j <= map@.len(),
            map.wf(),
            index <= bits@.len(),
            suffix == bits@.skip(index as int),
            map@.len() == map.data_map@.len(),
            forall|p: int| 0 <= p < j ==> !is_match(#[trigger] map@[p], suffix),
        decreases map@.len() - j,
    {
        let code_len = map.data_map[j].1.len();
        proof {
            assert(map@[j as int].1 == map.data_map@[j as int].1@);
            assert(map@[j as int].1.len() >= 1);
            assert(map@[j as int].0 == map.data_map@[j as int].0);
        }
        if code_len <= bits.len() - index {
            let mut k: usize = 0;
            let mut matches = true;
            while k < code_len && matches
                invariant
                    k <= code_len,
                    code_len == map@[j as int].1.len(),
                    j < map@.len(),
                    map@.len() == map.data_map@.len(),
                    map@[j as int].1 == map.data_map@[j as int].1@,
                    index <= bits@.len(),
                    code_len <= bits@.len() - index,
                    suffix == bits@.skip(index as int),
                    matches ==> forall|q: int|
                        0 <= q < k ==> map@[j as int].1[q] == suffix[q],
                    !matches ==> !map@[j as int].1.is_prefix_of(suffix),
                decreases code_len - k + (if matches {
                    1int
                } else {
                    0int
                }),
            {
                proof {
                    assert(bits.len() == bits@.len());
                }
                if map.data_map[j].1[k] != bits[index + k] {
                    proof {
                        assert(suffix[k as int] == bits@[index + k]);
                        assert(!map@[j as int].1.is_prefix_of(suffix)) by {
                            if map@[j as int].1.is_prefix_of(suffix) {
                                assert(map@[j as int].1[k as int] == suffix.subrange(
                                    0,
                                    map@[j as int].1.len() as int,
                                )[k as int]);
                            }
                        }
                    }
                    matches = false;
                } else {
                    proof {
                        assert(suffix[k as int] == bits@[index + k]);
                    }
                    k = k + 1;
                }
            }
            if matches {
                proof {
                    assert(map@[j as int].1 =~= suffix.subrange(0, code_len as int));
                    assert(is_match(map@[j as int], suffix));
                    lemma_first_match_at(map@, suffix, j as int);
                }
                return Some(j);
            }
        } else {
            proof {
                assert(!map@[j as int].1.is_prefix_of(suffix)) by {
                    assert(suffix.len() == bits@.len() - index);
                }
            }
        }
        j = j + 1;
    }
    proof {
        lemma_first_match_none(map@, suffix);
    }
    None
}

/// Decodes a bit stream against a table: at each position the first
/// matching code is consumed and its symbol emitted, the newline
/// sentinel turning back into a literal newline; a final run of fewer
/// than eight zero bits is accepted as the packer's filler; any other
/// unmatched position is a corrupted stream or a mismatched table.
pub fn decode_encoded_str(encoded_msg: &Vec<bool>, map: &MyTreeMap) -> (r: Result<
    Vec<char>,
    HuffError,
>)
    requires
        map.wf(),
    ensures
        match r {
            Ok(text) => spec_decode(encoded_msg@, map@) == Some(text@),
            Err(e) => spec_decode(encoded_msg@, map@) is None && e == HuffError::NoMatch,
        },
{
    let ghost full = encoded_msg@;
    let ghost t = map@;
    let mut ret: Vec<char> = Vec::new();
    let mut index: usize = 0;
    proof {
        assert(full.skip(0) =~= full);
    }
    while index < encoded_msg.len()
        invariant
            index <= full.len(),
            full == encoded_msg@,
            t == map@,
            map.wf(),
            spec_decode(full, t) == (match spec_decode(full.skip(index as int), t) {
                Some(rest) => Some(ret@ + rest),
                None => None::<Seq<char>>,
            }),
        decreases full.len() - index,
    {
        let ghost suffix = full.skip(index as int);
        match find_match(encoded_msg, index, map) {
            Some(j) => {
                let key = map.data_map[j].0;
                let code_len = map.data_map[j].1.len();
                let ghost e = t[j as int];
                proof {
                    assert(e.1 == map.data_map@[j as int].1@);
                    assert(e.0 == map.data_map@[j as int].0);
                    assert(e.1.len() >= 1);
                    lemma_first_match_is_match(t, suffix);
                    assert(e.1.len() <= suffix.len());
                }
                if key == NEW_LINE {
                    ret.push('\n');
                } else {
                    ret.push(key);
                }
                proof {
                    assert(ret@.last() == unsubst_char(e.0));
                }
                index = index + code_len;
                proof {
                    assert(suffix.skip(e.1.len() as int) =~= full.skip(index as int));
                    match spec_decode(full.skip(index as int), t) {
                        Some(rest) => {
                            assert(spec_decode(suffix, t) == Some(
                                seq![unsubst_char(e.0)] + rest,
                            ));
                            assert(ret@ + rest =~= ret@.drop_last() + (seq![unsubst_char(e.0)]
                                + rest));
                        },
                        None => {
                            assert(spec_decode(suffix, t) is None);
                        },
                    }
                }
            },
            None => {
                let rem = encoded_msg.len() - index;
                if rem < 8 {
                    let ghost ret0 = ret@;
                    let mut k: usize = index;
                    while k < encoded_msg.len()
                        invariant
                            index <= k <= full.len(),
                            full == encoded_msg@,
                            t == map@,
                            suffix == full.skip(index as int),
                            first_match(t, suffix) is None,
                            ret@ == ret0,
                            spec_decode(full, t) == (match spec_decode(suffix, t) {
                                Some(rest) => Some(ret@ + rest),
                                None => None::<Seq<char>>,
                            }),
                            forall|m: int| index <= m < k ==> !full[m],
                        decreases full.len() - k,
                    {
                        if encoded_msg[k] {
                            proof {
                                assert(suffix[k - index] == full[k as int]);
                                assert(!all_zero(suffix));
                                assert(spec_decode(suffix, t) is None);
                            }
                            return Err(HuffError::NoMatch);
                        }
                        k = k + 1;
                    }
                    proof {
                        assert(all_zero(suffix)) by {
                            assert forall|i: int| 0 <= i < suffix.len() implies !suffix[i] by {
                                assert(suffix[i] == full[index + i]);
                            }
                        }
                        assert(suffix.len() < 8);
                        assert(spec_decode(suffix, t) == Some(Seq::<char>::empty()));
                        assert(ret@ + Seq::<char>::empty() =~= ret@);
                    }
                    return Ok(ret);
                } else {
                    proof {
                        assert(suffix.len() >= 8);
                        assert(spec_decode(suffix, t) is None);
                    }
                    return Err(HuffError::NoMatch);
                }
            },
        }
    }
    proof {
        assert(full.skip(index as int) =~= Seq::<bool>::empty());
        assert(spec_decode(full.skip(index as int), t) == Some(Seq::<char>::empty()));
        assert(ret@ + Seq::<char>::empty() =~= ret@);
    }
    Ok(ret)
}

} // verus!

// ------------------------------------------------------------------
// The laws of the generated table
// ------------------------------------------------------------------

verus! {

/// Prefixes compose.
proof fn lemma_prefix_trans(a: Seq<bool>, b: Seq<bool>, c: Seq<bool>)
    requires
        a.is_prefix_of(b),
        b.is_prefix_of(c),
    ensures
        a.is_prefix_of(c),
{
    assert(a =~= c.subrange(0, a.len() as int)) by {
        assert(forall|q: int|
            0 <= q < a.len() ==> a[q] == b.subrange(0, a.len() as int)[q] && b[q] == c.subrange(
                0,
                b.len() as int,
            )[q]);
    }
}

/// Every code of a subtree's entries starts with a one bit followed
/// by the path to the subtree, names a real symbol of the subtree, and
/// is long enough to reach below the subtree's root.
proof fn lemma_leaf_entries_shape(t: HuffTree, path: Seq<bool>)
    ensures
        forall|i: int|
            0 <= i < leaf_entries(t, path).len() ==> {
                let e = #[trigger] leaf_entries(t, path)[i];
                &&& (seq![true] + path).is_prefix_of(e.1)
                &&& e.1.len() >= 1 + path.len()
                &&& e.0 != SPECIAL_CHAR
                &&& t.syms().contains(e.0)
            },
    decreases t,
{
    match t {
        HuffTree::Leaf { sym, .. } => {
            if sym != SPECIAL_CHAR {
                assert(leaf_entries(t, path)[0] == (sym, seq![true] + path));
                assert((seq![true] + path).is_prefix_of(seq![true] + path)) by {
                    assert((seq![true] + path) =~= (seq![true] + path).subrange(
                        0,
                        (seq![true] + path).len() as int,
                    ));
                }
                assert(t.syms().contains(sym));
            }
        },
        HuffTree::Branch { left, right, .. } => {
            let el = leaf_entries(*left, path.push(false));
            let er = leaf_entries(*right, path.push(true));
            lemma_leaf_entries_shape(*left, path.push(false));
            lemma_leaf_entries_shape(*right, path.push(true));
            assert((seq![true] + path).is_prefix_of(seq![true] + path.push(false))) by {
                assert((seq![true] + path) =~= (seq![true] + path.push(false)).subrange(
                    0,
                    (seq![true] + path).len() as int,
                ));
            }
            assert((seq![true] + path).is_prefix_of(seq![true] + path.push(true))) by {
                assert((seq![true] + path) =~= (seq![true] + path.push(true)).subrange(
                    0,
                    (seq![true] + path).len() as int,
                ));
            }
            assert forall|i: int| 0 <= i < leaf_entries(t, path).len() implies {
                let e = #[trigger] leaf_entries(t, path)[i];
                &&& (seq![true] + path).is_prefix_of(e.1)
                &&& e.1.len() >= 1 + path.len()
                &&& e.0 != SPECIAL_CHAR
                &&& t.syms().contains(e.0)
            } by {
                if i < el.len() {
                    assert(leaf_entries(t, path)[i] == el[i]);
                    lemma_prefix_trans(seq![true] + path, seq![true] + path.push(false), el[i].1);
                } else {
                    assert(leaf_entries(t, path)[i] == er[i - el.len()]);
                    lemma_prefix_trans(
                        seq![true] + path,
                        seq![true] + path.push(true),
                        er[i - el.len()].1,
                    );
                }
            }
        },
    }
}

/// Entries of distinct leaves have distinct symbols and codes of which
/// neither is a prefix of the other: the codes diverge where their
/// paths split.
proof fn lemma_leaf_entries_pairwise(t: HuffTree, path: Seq<bool>)
    requires
        t.distinct_syms(),
    ensures
        forall|i: int, j: int|
            0 <= i < leaf_entries(t, path).len() && 0 <= j < leaf_entries(t, path).len() && i != j
                ==> (#[trigger] leaf_entries(t, path)[i]).0 != (#[trigger] leaf_entries(
                t,
                path,
            )[j]).0 && !leaf_entries(t, path)[i].1.is_prefix_of(leaf_entries(t, path)[j].1),
    decreases t,
{
    let es = leaf_entries(t, path);
    match t {
        HuffTree::Leaf { .. } => {},
        HuffTree::Branch { left, right, .. } => {
            let el = leaf_entries(*left, path.push(false));
            let er = leaf_entries(*right, path.push(true));
            lemma_leaf_entries_pairwise(*left, path.push(false));
            lemma_leaf_entries_pairwise(*right, path.push(true));
            lemma_leaf_entries_shape(*left, path.push(false));
            lemma_leaf_entries_shape(*right, path.push(true));
            let d = 1 + path.len() as int;
            assert forall|i: int, j: int|
                0 <= i < es.len() && 0 <= j < es.len() && i != j implies (#[trigger] es[i]).0 != (
            #[trigger] es[j]).0 && !es[i].1.is_prefix_of(es[j].1) by {
                if i < el.len() && j < el.len() {
                    assert(es[i] == el[i] && es[j] == el[j]);
                } else if i >= el.len() && j >= el.len() {
                    assert(es[i] == er[i - el.len()] && es[j] == er[j - el.len()]);
                } else {
                    let (a, b) = if i < el.len() {
                        (es[i], es[j])
                    } else {
                        (es[j], es[i])
                    };
                    // a is a left entry, b a right entry
                    assert(left.syms().contains(a.0) && right.syms().contains(b.0));
                    assert(left.syms().disjoint(right.syms()));
                    assert(a.0 != b.0);
                    // the codes disagree at the split position d
                    assert((seq![true] + path.push(false)).is_prefix_of(a.1));
                    assert((seq![true] + path.push(true)).is_prefix_of(b.1));
                    assert(a.1[d] == false && b.1[d] == true) by {
                        assert(a.1[d] == a.1.subrange(0, d + 1)[d]);
                        assert(b.1[d] == b.1.subrange(0, d + 1)[d]);
                        assert((seq![true] + path.push(false))[d] == false);
                        assert((seq![true] + path.push(true))[d] == true);
                    }
                    assert(a.1.len() > d && b.1.len() > d);
                    assert(!a.1.is_prefix_of(b.1)) by {
                        if a.1.is_prefix_of(b.1) {
                            assert(a.1[d] == b.1.subrange(0, a.1.len() as int)[d]);
                        }
                    }
                    assert(!b.1.is_prefix_of(a.1)) by {
                        if b.1.is_prefix_of(a.1) {
                            assert(b.1[d] == a.1.subrange(0, b.1.len() as int)[d]);
                        }
                    }
                }
            }
        },
    }
}

/// Every real symbol of the tree owns an entry.
proof fn lemma_leaf_entries_covers(t: HuffTree, path: Seq<bool>, c: char) -> (i: int)
    requires
        t.syms().contains(c),
        c != SPECIAL_CHAR,
    ensures
        0 <= i < leaf_entries(t, path).len(),
        leaf_entries(t, path)[i].0 == c,
    decreases t,
{
    match t {
        HuffTree::Leaf { sym, .. } => {
            assert(c == sym);
            0
        },
        HuffTree::Branch { left, right, .. } => {
            let el = leaf_entries(*left, path.push(false));
            if left.syms().contains(c) {
                let i = lemma_leaf_entries_covers(*left, path.push(false), c);
                assert(leaf_entries(t, path)[i] == el[i]);
                i
            } else {
                let i = lemma_leaf_entries_covers(*right, path.push(true), c);
                assert(leaf_entries(t, path)[el.len() + i] == leaf_entries(
                    *right,
                    path.push(true),
                )[i]);
                el.len() + i
            }
        },
    }
}

/// Building a table from entries with pairwise distinct keys keeps
/// exactly those entries: each key looks up its code, every successful
/// lookup names an entry, and nothing else got in.
proof fn lemma_table_from(es: TableModel)
    requires
        forall|i: int, j: int|
            0 <= i < es.len() && 0 <= j < es.len() && i != j ==> (#[trigger] es[i]).0 != (
            #[trigger] es[j]).0,
    ensures
        sorted_keys(table_from(es)),
        forall|i: int|
            0 <= i < es.len() ==> lookup(table_from(es), (#[trigger] es[i]).0) == Some(es[i].1),
        forall|c: char| #[trigger]
            lookup(table_from(es), c) is Some ==> exists|i: int|
                0 <= i < es.len() && (#[trigger] es[i]).0 == c && es[i].1 == lookup(
                    table_from(es),
                    c,
                )->0,
        forall|k: int|
            0 <= k < table_from(es).len() ==> es.contains(#[trigger] table_from(es)[k]),
    decreases es.len(),
{
    if es.len() > 0 {
        let front = es.drop_last();
        let e = es.last();
        assert(forall|i: int| 0 <= i < front.len() ==> #[trigger] front[i] == es[i]);
        lemma_table_from(front);
        let ft = table_from(front);
        lemma_table_insert(ft, e);
        let r = table_from(es);
        assert(r == table_insert(ft, e));
        assert forall|i: int| 0 <= i < es.len() implies lookup(r, (#[trigger] es[i]).0) == Some(
            es[i].1,
        ) by {
            if i < es.len() - 1 {
                assert(es[i].0 != e.0);
                assert(front[i] == es[i]);
                assert(lookup(ft, front[i].0) == Some(front[i].1));
            }
        }
        assert forall|c: char| #[trigger] lookup(r, c) is Some implies exists|i: int|
            0 <= i < es.len() && (#[trigger] es[i]).0 == c && es[i].1 == lookup(r, c)->0 by {
            if c == e.0 {
                assert(es[es.len() - 1].0 == c && es[es.len() - 1].1 == lookup(r, c)->0);
            } else {
                assert(lookup(r, c) == lookup(ft, c));
                let i = choose|i: int|
                    0 <= i < front.len() && (#[trigger] front[i]).0 == c && front[i].1 == lookup(
                        ft,
                        c,
                    )->0;
                assert(es[i].0 == c && es[i].1 == lookup(r, c)->0);
            }
        }
        assert forall|k: int| 0 <= k < r.len() implies es.contains(#[trigger] r[k]) by {
            if r[k] == e {
                assert(es[es.len() - 1] == e);
            } else {
                assert(ft.contains(r[k]));
                let i = choose|i: int| 0 <= i < ft.len() && ft[i] == r[k];
                assert(front.contains(ft[i]));
                let m = choose|m: int| 0 <= m < front.len() && front[m] == ft[i];
                assert(es[m] == r[k]);
            }
        }
    }
}

/// The code table a text generates.
pub open spec fn table_for(t: Seq<char>) -> TableModel {
    if t.len() == 0 {
        Seq::empty()
    } else {
        table_from(leaf_entries(spec_tree(freq_of(t)), Seq::empty()))
    }
}

/// A character that occurs is counted at least once.
proof fn lemma_count_positive(s: Seq<char>, c: char, i: int)
    requires
        0 <= i < s.len(),
        s[i] == c,
    ensures
        count_of(s, c) > 0,
    decreases s.len(),
{
    if i < s.len() - 1 {
        lemma_count_positive(s.drop_last(), c, i);
    }
}

/// The table of any text is valid and prefix-free, and every one of
/// its codes starts with a one bit: no code can be mistaken for the
/// packer's zero-valued filler.
pub proof fn lemma_table_for_wf(t: Seq<char>)
    ensures
        table_wf(table_for(t)),
        prefix_free(table_for(t)),
        forall|k: int|
            0 <= k < table_for(t).len() ==> (#[trigger] table_for(t)[k]).1.len() >= 1 && table_for(
                t,
            )[k].1[0] == true,
{
    if t.len() == 0 {
    } else {
        let f = freq_of(t);
        let tree = spec_tree(f);
        let es = leaf_entries(tree, Seq::empty());
        let r = table_for(t);
        lemma_freq_of(t);
        lemma_freq_of_len(t);
        lemma_tree_of_freq(f);
        lemma_leaf_entries_shape(tree, Seq::empty());
        lemma_leaf_entries_pairwise(tree, Seq::empty());
        lemma_table_from(es);
        assert(!keys_set(f).contains('\n')) by {
            lemma_keys_set(f);
            assert forall|i: int| 0 <= i < subst_text(t).len() implies subst_text(t)[i] != '\n' by {
                assert(subst_text(t)[i] == subst_char(t[i]));
            }
            lemma_count_zero(subst_text(t), '\n');
        }
        assert forall|k: int| 0 <= k < r.len() implies (#[trigger] r[k]).1.len() >= 1 && r[k].1[0]
            == true && r[k].0 != '\n' by {
            assert(es.contains(r[k]));
            let i = choose|i: int| 0 <= i < es.len() && es[i] == r[k];
            assert((seq![true] + Seq::<bool>::empty()).is_prefix_of(es[i].1));
            assert(es[i].1[0] == es[i].1.subrange(0, 1)[0]);
            assert((seq![true] + Seq::<bool>::empty())[0] == true);
            assert(tree.syms().contains(es[i].0));
        }
        assert(prefix_free(r)) by {
            assert forall|c1: char, c2: char|
                c1 != c2 && #[trigger] lookup(r, c1) is Some && #[trigger] lookup(r, c2)
                    is Some implies !lookup(r, c1)->0.is_prefix_of(lookup(r, c2)->0) by {
                let i = choose|i: int|
                    0 <= i < es.len() && (#[trigger] es[i]).0 == c1 && es[i].1 == lookup(r, c1)->0;
                let j = choose|j: int|
                    0 <= j < es.len() && (#[trigger] es[j]).0 == c2 && es[j].1 == lookup(r, c2)->0;
                assert(i != j);
                assert(!es[i].1.is_prefix_of(es[j].1));
            }
        }
    }
}

/// The table of a text covers the text: encoding cannot miss, except
/// on the reserved internal marker.
pub proof fn lemma_encode_covers(t: Seq<char>)
    requires
        forall|i: int| 0 <= i < t.len() ==> t[i] != SPECIAL_CHAR,
    ensures
        spec_encode(t, table_for(t)) is Some,
{
    if t.len() == 0 {
    } else {
        let f = freq_of(t);
        let tree = spec_tree(f);
        let es = leaf_entries(tree, Seq::empty());
        let r = table_for(t);
        lemma_freq_of(t);
        lemma_freq_of_len(t);
        lemma_tree_of_freq(f);
        lemma_keys_set(f);
        lemma_leaf_entries_pairwise(tree, Seq::empty());
        lemma_table_from(es);
        lemma_encode_some(t, r);
        assert forall|i: int| 0 <= i < t.len() implies lookup(r, subst_char(#[trigger] t[i]))
            is Some by {
            let c = subst_char(t[i]);
            assert(subst_text(t)[i] == c);
            lemma_count_positive(subst_text(t), c, i);
            assert(lookup(f, c) is Some);
            assert(keys_set(f).contains(c));
            assert(tree.syms().contains(c));
            assert(c != SPECIAL_CHAR);
            let k = lemma_leaf_entries_covers(tree, Seq::empty(), c);
            assert(lookup(r, es[k].0) == Some(es[k].1));
        }
    }
}

} // verus!

// ------------------------------------------------------------------
// The round trip
// ------------------------------------------------------------------

verus! {

use crate::bits::{padded, pad_len, zeros};

/// A key found in the tail was not the head's, and looks up the same
/// code in the whole table.
proof fn lemma_lookup_tail(table: TableModel)
    requires
        sorted_keys(table),
        table.len() >= 1,
    ensures
        forall|c: char| #[trigger]
            lookup(table.drop_first(), c) is Some ==> c != table[0].0 && lookup(table, c) == lookup(
                table.drop_first(),
                c,
            ),
{
    let dt = table.drop_first();
    assert(forall|i: int| 0 <= i < dt.len() ==> #[trigger] dt[i] == table[i + 1]);
    assert forall|c: char| #[trigger] lookup(dt, c) is Some implies c != table[0].0 && lookup(
        table,
        c,
    ) == lookup(dt, c) by {
        lemma_lookup_index(dt, c);
        let i = choose|i: int|
            0 <= i < dt.len() && (#[trigger] dt[i]).0 == c && dt[i].1 == lookup(dt, c)->0;
        assert(char_lt(table[0].0, table[i + 1].0));
    }
}

/// At a position where some symbol's code starts the stream, that
/// code's entry is the one and only match: prefix-freeness leaves no
/// other candidate.
proof fn lemma_first_match_exact(table: TableModel, c: char, rest: Seq<bool>)
    requires
        sorted_keys(table),
        prefix_free(table),
        forall|k: int| 0 <= k < table.len() ==> (#[trigger] table[k]).1.len() >= 1,
        lookup(table, c) is Some,
    ensures
        first_match(table, lookup(table, c)->0 + rest) == Some((c, lookup(table, c)->0)),
    decreases table.len(),
{
    let code = lookup(table, c)->0;
    let bits = code + rest;
    assert(code.len() >= 1) by {
        lemma_lookup_index(table, c);
        let i = choose|i: int|
            0 <= i < table.len() && (#[trigger] table[i]).0 == c && table[i].1 == code;
    }
    if table[0].0 == c {
        assert(code == table[0].1);
        assert(is_match(table[0], bits)) by {
            assert(code =~= bits.subrange(0, code.len() as int));
        }
        assert(table[0] == (c, code));
    } else {
        assert(lookup(table, table[0].0) == Some(table[0].1));
        let a = table[0].1;
        assert(!is_match(table[0], bits)) by {
            if a.is_prefix_of(bits) {
                if a.len() <= code.len() {
                    assert(a.is_prefix_of(code)) by {
                        assert forall|q: int| 0 <= q < a.len() implies a[q] == code.subrange(
                            0,
                            a.len() as int,
                        )[q] by {
                            assert(a[q] == bits.subrange(0, a.len() as int)[q]);
                            assert(bits[q] == code[q]);
                        }
                        assert(a =~= code.subrange(0, a.len() as int));
                    }
                    assert(!lookup(table, table[0].0)->0.is_prefix_of(lookup(table, c)->0));
                } else {
                    assert(code.is_prefix_of(a)) by {
                        assert forall|q: int| 0 <= q < code.len() implies code[q] == a.subrange(
                            0,
                            code.len() as int,
                        )[q] by {
                            assert(a[q] == bits.subrange(0, a.len() as int)[q]);
                            assert(bits[q] == code[q]);
                        }
                        assert(code =~= a.subrange(0, code.len() as int));
                    }
                    assert(!lookup(table, c)->0.is_prefix_of(lookup(table, table[0].0)->0));
                }
            }
        }
        let dt = table.drop_first();
        assert(forall|i: int| 0 <= i < dt.len() ==> #[trigger] dt[i] == table[i + 1]);
        assert(sorted_keys(dt));
        lemma_lookup_tail(table);
        assert(lookup(dt, c) == lookup(table, c));
        assert(prefix_free(dt)) by {
            assert forall|c1: char, c2: char|
                c1 != c2 && #[trigger] lookup(dt, c1) is Some && #[trigger] lookup(dt, c2)
                    is Some implies !lookup(dt, c1)->0.is_prefix_of(lookup(dt, c2)->0) by {
                assert(lookup(table, c1) == lookup(dt, c1));
                assert(lookup(table, c2) == lookup(dt, c2));
            }
        }
        lemma_first_match_exact(dt, c, rest);
    }
}

/// No code matches a run of zero bits: every code starts with a one.
proof fn lemma_no_match_zeros(table: TableModel, bits: Seq<bool>)
    requires
        forall|k: int|
            0 <= k < table.len() ==> (#[trigger] table[k]).1.len() >= 1 && table[k].1[0] == true,
        all_zero(bits),
    ensures
        first_match(table, bits) is None,
{
    assert forall|k: int| 0 <= k < table.len() implies !is_match(#[trigger] table[k], bits) by {
        let a = table[k].1;
        if a.is_prefix_of(bits) {
            assert(a[0] == bits.subrange(0, a.len() as int)[0]);
            assert(!bits[0]);
        }
    }
    lemma_first_match_none(table, bits);
}

/// Decoding undoes encoding: over any sorted, prefix-free table whose
/// codes all start with a one bit, a text that encodes at all is
/// recovered exactly, even with up to seven zero-valued filler bits
/// appended.  Texts holding the newline sentinel itself are the one
/// exception: their sentinel decodes as a newline.
pub proof fn lemma_decode_encode(t: Seq<char>, table: TableModel, filler: Seq<bool>)
    requires
        sorted_keys(table),
        prefix_free(table),
        forall|k: int|
            0 <= k < table.len() ==> (#[trigger] table[k]).1.len() >= 1 && table[k].1[0] == true,
        spec_encode(t, table) is Some,
        forall|i: int| 0 <= i < t.len() ==> t[i] != NEW_LINE,
        filler.len() < 8,
        all_zero(filler),
    ensures
        spec_decode(spec_encode(t, table)->0 + filler, table) == Some(t),
    decreases t.len(),
{
    if t.len() == 0 {
        assert(spec_encode(t, table)->0 + filler =~= filler);
        if filler.len() > 0 {
            lemma_no_match_zeros(table, filler);
        }
        assert(spec_decode(filler, table) == Some(Seq::<char>::empty()));
        assert(Seq::<char>::empty() =~= t);
    } else {
        let c = subst_char(t[0]);
        assert(lookup(table, c) is Some && spec_encode(t.drop_first(), table) is Some);
        let code = lookup(table, c)->0;
        let rest_enc = spec_encode(t.drop_first(), table)->0;
        assert(spec_encode(t, table)->0 == code + rest_enc);
        let bits = spec_encode(t, table)->0 + filler;
        assert(bits =~= code + (rest_enc + filler));
        lemma_first_match_exact(table, c, rest_enc + filler);
        assert(first_match(table, bits) == Some((c, code)));
        assert(code.len() >= 1) by {
            lemma_lookup_index(table, c);
            let i = choose|i: int|
                0 <= i < table.len() && (#[trigger] table[i]).0 == c && table[i].1 == code;
        }
        assert(bits.skip(code.len() as int) =~= rest_enc + filler);
        assert(forall|i: int|
            0 <= i < t.drop_first().len() ==> #[trigger] t.drop_first()[i] == t[i + 1]);
        lemma_decode_encode(t.drop_first(), table, filler);
        assert(spec_decode(bits, table) == Some(seq![unsubst_char(c)] + t.drop_first()));
        assert(unsubst_char(c) == t[0]);
        assert(seq![t[0]] + t.drop_first() =~= t);
    }
}

/// For every text free of the two reserved characters, packing the
/// encoded stream and decoding what the unpacker gives back yields the
/// text again: the filler bits of the final byte decode to nothing.
pub proof fn lemma_round_trip(t: Seq<char>)
    requires
        forall|i: int| 0 <= i < t.len() ==> t[i] != NEW_LINE && t[i] != SPECIAL_CHAR,
    ensures
        spec_encode(t, table_for(t)) is Some,
        spec_decode(padded(spec_encode(t, table_for(t))->0), table_for(t)) == Some(t),
{
    lemma_table_for_wf(t);
    lemma_encode_covers(t);
    let bits = spec_encode(t, table_for(t))->0;
    let filler = zeros(pad_len(bits.len()));
    assert(filler.len() < 8);
    assert(all_zero(filler));
    lemma_decode_encode(t, table_for(t), filler);
}

} // verus!

verus! {

/// Determinism: the code table and the encoded stream are functions
/// of the text alone.  Every executable step of the encode side
/// promises exactly these functions of its input — the builder breaks
/// frequency ties by symbol order and re-inserts merged nodes after
/// their equals — so two runs over equal texts, in one process or
/// two, produce identical tables and identical bit streams.
pub proof fn lemma_encode_deterministic(t1: Seq<char>, t2: Seq<char>)
    requires
        t1 == t2,
    ensures
        table_for(t1) == table_for(t2),
        spec_encode(t1, table_for(t1)) == spec_encode(t2, table_for(t2)),
{
}

} // verus!
