//! The code table: a symbol-to-bit-code mapping kept as a vector of
//! entries sorted by symbol, so that iteration order (and with it every
//! tie-break that depends on it) is fixed.

use vstd::prelude::*;
use crate::char_lt;

verus! {

/// One persisted entry: a symbol and its bit code.
pub type TableEntry = (char, Vec<bool>);

/// The mathematical model of a table: entries with mathematical codes.
pub type TableModel = Seq<(char, Seq<bool>)>;

/// Keys strictly increase, so each key appears once and iteration
/// order is the lexicographic order of the symbols.
pub open spec fn sorted_keys<V>(t: Seq<(char, V)>) -> bool {
    forall|i: int, j: int| 0 <= i < j < t.len() ==> char_lt(#[trigger] t[i].0, #[trigger] t[j].0)
}

/// A valid table: sorted, no empty code, and no raw newline key (the
/// newline sentinel stands in for it).
pub open spec fn table_wf(t: TableModel) -> bool {
    &&& sorted_keys(t)
    &&& forall|i: int| 0 <= i < t.len() ==> (#[trigger] t[i]).1.len() >= 1 && t[i].0 != '\n'
}

/// The value stored for `c`: the first entry with key `c`, if any.
pub open spec fn lookup<V>(t: Seq<(char, V)>, c: char) -> Option<V>
    decreases t.len(),
{
    if t.len() == 0 {
        None
    } else if t[0].0 == c {
        Some(t[0].1)
    } else {
        lookup(t.drop_first(), c)
    }
}

/// Insertion keeping the keys sorted; an existing entry with the same
/// key is replaced.
pub open spec fn table_insert<V>(t: Seq<(char, V)>, e: (char, V)) -> Seq<(char, V)>
    decreases t.len(),
{
    if t.len() == 0 {
        seq![e]
    } else if t[0].0 == e.0 {
        seq![e] + t.drop_first()
    } else if char_lt(e.0, t[0].0) {
        seq![e] + t
    } else {
        seq![t[0]] + table_insert(t.drop_first(), e)
    }
}

/// The table built by inserting the given entries in order.
pub open spec fn table_from<V>(es: Seq<(char, V)>) -> Seq<(char, V)>
    decreases es.len(),
{
    if es.len() == 0 {
        Seq::empty()
    } else {
        table_insert(table_from(es.drop_last()), es.last())
    }
}

/// The given table extended by inserting the entries in order.
pub open spec fn table_extend<V>(t: Seq<(char, V)>, es: Seq<(char, V)>) -> Seq<(char, V)>
    decreases es.len(),
{
    if es.len() == 0 {
        t
    } else {
        table_insert(table_extend(t, es.drop_last()), es.last())
    }
}

/// No code in the table is a prefix of the code of another symbol.
pub open spec fn prefix_free(t: TableModel) -> bool {
    forall|c1: char, c2: char|
        c1 != c2 && #[trigger] lookup(t, c1) is Some && #[trigger] lookup(t, c2) is Some
            ==> !lookup(t, c1)->0.is_prefix_of(lookup(t, c2)->0)
}

/// What `table_insert` does: it keeps the keys sorted, it maps the new
/// key to the new code and every other key to what it had, and every
/// entry of the result is the new entry or one of the old ones.
pub proof fn lemma_table_insert<V>(t: Seq<(char, V)>, e: (char, V))
    requires
        sorted_keys(t),
    ensures
        sorted_keys(table_insert(t, e)),
        table_insert(t, e).len() >= 1,
        table_insert(t, e)[0].0 == e.0 || (t.len() >= 1 && table_insert(t, e)[0].0 == t[0].0),
        forall|c: char| #[trigger]
            lookup(table_insert(t, e), c) == (if c == e.0 {
                Some(e.1)
            } else {
                lookup(t, c)
            }),
        forall|i: int|
            0 <= i < table_insert(t, e).len()
                ==> #[trigger] table_insert(t, e)[i] == e || t.contains(table_insert(t, e)[i]),
    decreases t.len(),
{
    let r = table_insert(t, e);
    if t.len() == 0 {
        assert(forall|c: char| c != e.0 ==> #[trigger] lookup(r, c) == lookup(r.drop_first(), c));
        assert(r.drop_first() =~= Seq::empty());
    } else if t[0].0 == e.0 {
        assert(r.drop_first() =~= t.drop_first());
        assert(forall|i: int| 0 <= i < r.len() ==> r[i] == e || t.contains(#[trigger] r[i])) by {
            assert(forall|i: int| 1 <= i < r.len() ==> #[trigger] r[i] == t[i]);
        }
    } else if char_lt(e.0, t[0].0) {
        assert(r.drop_first() =~= t);
        assert(forall|i: int| 1 <= i < r.len() ==> #[trigger] r[i] == t[i - 1]);
    } else {
        let dt = t.drop_first();
        assert(sorted_keys(dt)) by {
            assert(forall|i: int| 0 <= i < dt.len() ==> #[trigger] dt[i] == t[i + 1]);
        }
        assert(char_lt(t[0].0, e.0)) by {
            crate::lemma_char_lt_trichotomy(e.0, t[0].0);
        }
        lemma_table_insert(dt, e);
        let rt = table_insert(dt, e);
        assert(r.drop_first() =~= rt);
        assert(r[0] == t[0]);
        // sortedness: the head key is below every key of the tail
        assert forall|i: int, j: int| 0 <= i < j < r.len() implies char_lt(r[i].0, r[j].0) by {
            if i >= 1 {
                assert(r[i] == rt[i - 1] && r[j] == rt[j - 1]);
            } else {
                assert(r[j] == rt[j - 1]);
                if j == 1 {
                    assert(rt[0].0 == e.0 || (dt.len() >= 1 && rt[0].0 == dt[0].0));
                } else {
                    assert(char_lt(rt[0].0, rt[j - 1].0));
                    assert(rt[0].0 == e.0 || (dt.len() >= 1 && rt[0].0 == dt[0].0));
                }
            }
        }
        assert forall|c: char| #[trigger] lookup(r, c) == (if c == e.0 {
            Some(e.1)
        } else {
            lookup(t, c)
        }) by {
            assert(r[0].0 == t[0].0);
            if c == t[0].0 {
                assert(lookup(r, c) == Some(t[0].1));
            } else {
                assert(lookup(r, c) == lookup(rt, c));
                assert(lookup(t, c) == lookup(dt, c));
            }
        }
        assert forall|i: int| 0 <= i < r.len() implies #[trigger] r[i] == e || t.contains(r[i]) by {
            if i == 0 {
                assert(t.contains(t[0]));
            } else {
                assert(r[i] == rt[i - 1]);
                if rt[i - 1] == e {
                } else {
                    assert(dt.contains(rt[i - 1]));
                    let k = choose|k: int| 0 <= k < dt.len() && dt[k] == rt[i - 1];
                    assert(t[k + 1] == dt[k]);
                    assert(t.contains(t[k + 1]));
                }
            }
        }
    }
}

/// Positional description of `table_insert`: at the first position `i`
/// whose key is not below the new key, the entry is either replaced
/// (same key) or spliced in.
pub proof fn lemma_table_insert_at<V>(t: Seq<(char, V)>, e: (char, V), i: int)
    requires
        sorted_keys(t),
        0 <= i <= t.len(),
        forall|j: int| 0 <= j < i ==> char_lt(#[trigger] t[j].0, e.0),
        i < t.len() ==> !char_lt(t[i].0, e.0),
    ensures
        i < t.len() && t[i].0 == e.0 ==> table_insert(t, e) == t.update(i, e),
        !(i < t.len() && t[i].0 == e.0) ==> table_insert(t, e) == t.take(i) + seq![e] + t.skip(i),
    decreases t.len(),
{
    let r = table_insert(t, e);
    if i == 0 {
        if t.len() == 0 {
            assert(r =~= t.take(0) + seq![e] + t.skip(0));
        } else if t[0].0 == e.0 {
            assert(r =~= t.update(0, e));
        } else {
            assert(char_lt(e.0, t[0].0)) by {
                crate::lemma_char_lt_trichotomy(e.0, t[0].0);
            }
            assert(r =~= t.take(0) + seq![e] + t.skip(0));
        }
    } else {
        let dt = t.drop_first();
        assert(sorted_keys(dt)) by {
            assert(forall|k: int| 0 <= k < dt.len() ==> #[trigger] dt[k] == t[k + 1]);
        }
        assert(char_lt(t[0].0, e.0));
        assert(forall|j: int| 0 <= j < i - 1 ==> char_lt(#[trigger] dt[j].0, e.0));
        lemma_table_insert_at(dt, e, i - 1);
        assert(r == seq![t[0]] + table_insert(dt, e));
        if i < t.len() && t[i].0 == e.0 {
            assert(dt[i - 1] == t[i]);
            assert(r =~= t.update(i, e));
        } else {
            assert(r =~= t.take(i) + seq![e] + t.skip(i));
        }
    }
}

/// With pairwise distinct keys, looking up the key of entry `k` finds
/// exactly that entry.
pub proof fn lemma_lookup_at_index<V>(t: Seq<(char, V)>, k: int)
    requires
        0 <= k < t.len(),
        forall|i: int, j: int| 0 <= i < j < t.len() ==> (#[trigger] t[i]).0 != (#[trigger] t[j]).0,
    ensures
        lookup(t, t[k].0) == Some(t[k].1),
    decreases t.len(),
{
    if k > 0 {
        let dt = t.drop_first();
        assert(forall|i: int| 0 <= i < dt.len() ==> #[trigger] dt[i] == t[i + 1]);
        lemma_lookup_at_index(dt, k - 1);
    }
}

/// A successful lookup names an entry of the table.
pub proof fn lemma_lookup_index<V>(t: Seq<(char, V)>, c: char)
    requires
        lookup(t, c) is Some,
    ensures
        exists|i: int| 0 <= i < t.len() && (#[trigger] t[i]).0 == c && t[i].1 == lookup(t, c)->0,
    decreases t.len(),
{
    if t.len() > 0 && t[0].0 != c {
        let dt = t.drop_first();
        lemma_lookup_index(dt, c);
        let i = choose|i: int| 0 <= i < dt.len() && (#[trigger] dt[i]).0 == c && dt[i].1 == lookup(
            dt,
            c,
        )->0;
        assert(t[i + 1] == dt[i]);
    }
}

/// Sorted keys are pairwise distinct.
pub proof fn lemma_sorted_distinct<V>(t: Seq<(char, V)>)
    requires
        sorted_keys(t),
    ensures
        forall|i: int, j: int| 0 <= i < j < t.len() ==> (#[trigger] t[i]).0 != (#[trigger] t[j]).0,
{
    assert forall|i: int, j: int| 0 <= i < j < t.len() implies (#[trigger] t[i]).0 != (
    #[trigger] t[j]).0 by {
        assert(char_lt(t[i].0, t[j].0));
    }
}

/// The symbol-to-code table, the single artifact shared between the
/// encode and the decode side.
#[derive(Debug)]
pub struct MyTreeMap {
    /// The entries, sorted by symbol.
    pub data_map: Vec<TableEntry>,
}

impl View for MyTreeMap {
    type V = TableModel;

    open spec fn view(&self) -> TableModel {
        self.data_map@.map_values(|e: TableEntry| (e.0, e.1@))
    }
}

impl MyTreeMap {
    /// A table is valid when its model is.
    pub open spec fn wf(self) -> bool {
        table_wf(self@)
    }

    /// An empty table.
    pub fn new_default() -> (m: MyTreeMap)
        ensures
            m.wf(),
            m@ == Seq::<(char, Seq<bool>)>::empty(),
    {
        let m = MyTreeMap { data_map: Vec::new() };
        proof {
            assert(m@ =~= Seq::<(char, Seq<bool>)>::empty());
        }
        m
    }

    /// Insert one entry, keeping the keys sorted; an entry under the
    /// same key is replaced.
    pub fn insert(&mut self, key: char, code: Vec<bool>)
        requires
            old(self).wf(),
            code@.len() >= 1,
            key != '\n',
        ensures
            final(self).wf(),
            final(self)@ == table_insert(old(self)@, (key, code@)),
    {
        let ghost t = self@;
        let ghost e = (key, code@);
        let mut i: usize = 0;
        while i < self.data_map.len() && (self.data_map[i].0 as u32) < (key as u32)
            invariant
                0 <= i <= self.data_map.len(),
                forall|j: int| 0 <= j < i ==> char_lt(#[trigger] t[j].0, key),
                self@ == t,
                *self == *old(self),
            decreases self.data_map.len() - i,
        {
            assert(t[i as int].0 == self.data_map[i as int].0);
            i = i + 1;
        }
        proof {
            lemma_table_insert(t, e);
            lemma_table_insert_at(t, e, i as int);
        }
        if i < self.data_map.len() && self.data_map[i].0 == key {
            self.data_map.set(i, (key, code));
            proof {
                assert(self@ =~= t.update(i as int, e));
            }
        } else {
            proof {
                if i < self.data_map.len() {
                    assert(t[i as int].0 == self.data_map[i as int].0);
                }
            }
            self.data_map.insert(i, (key, code));
            proof {
                assert(self@ =~= t.take(i as int) + seq![e] + t.skip(i as int));
            }
        }
        proof {
            assert forall|k: int| 0 <= k < self@.len() implies (#[trigger] self@[k]).1.len() >= 1
                && self@[k].0 != '\n' by {
                if self@[k] == e {
                } else {
                    assert(t.contains(self@[k]));
                }
            }
        }
    }

    /// The code stored for `key`, if any.
    pub fn get(&self, key: char) -> (r: Option<&Vec<bool>>)
        ensures
            match r {
                Some(code) => lookup(self@, key) == Some(code@),
                None => lookup(self@, key) is None,
            },
    {
        let mut i: usize = 0;
        proof {
            assert(self@.skip(0) =~= self@);
        }
        while i < self.data_map.len()
            invariant
                0 <= i <= self.data_map.len(),
                lookup(self@, key) == lookup(self@.skip(i as int), key),
            decreases self.data_map.len() - i,
        {
            if self.data_map[i].0 == key {
                assert(self@.skip(i as int)[0] == self@[i as int]);
                return Some(&self.data_map[i].1);
            }
            proof {
                assert(self@.skip(i as int).drop_first() =~= self@.skip(i as int + 1));
                assert(self@.skip(i as int)[0] == self@[i as int]);
            }
            i = i + 1;
        }
        proof {
            assert(self@.skip(i as int).len() == 0);
        }
        None
    }

    /// The number of entries.
    pub fn len(&self) -> (n: usize)
        ensures
            n == self@.len(),
    {
        self.data_map.len()
    }

    /// Decides validity at run time, for tables that arrive from
    /// outside the builder.
    pub fn check_wf(&self) -> (r: bool)
        ensures
            r == self.wf(),
    {
        let ghost t = self@;
        let mut i: usize = 0;
        while i < self.data_map.len()
            invariant
                0 <= i <= t.len(),
                t == self@,
                t.len() == self.data_map@.len(),
                forall|k: int| 0 <= k < i ==> (#[trigger] t[k]).1.len() >= 1 && t[k].0 != '\n',
                forall|k: int| 0 <= k < i && k + 1 < t.len() ==> char_lt(
                    (#[trigger] t[k]).0,
                    t[k + 1].0,
                ),
            decreases t.len() - i,
        {
            proof {
                assert(t[i as int].0 == self.data_map@[i as int].0);
                assert(t[i as int].1 == self.data_map@[i as int].1@);
            }
            if self.data_map[i].1.len() == 0 || self.data_map[i].0 == '\n' {
                proof {
                    assert(!table_wf(t));
                }
                return false;
            }
            if i + 1 < self.data_map.len() {
                proof {
                    assert(t[i as int + 1].0 == self.data_map@[i as int + 1].0);
                }
                if !((self.data_map[i].0 as u32) < (self.data_map[i + 1].0 as u32)) {
                    proof {
                        assert(!char_lt(t[i as int].0, t[i as int + 1].0));
                        assert(!sorted_keys(t));
                    }
                    return false;
                }
            }
            i = i + 1;
        }
        proof {
            assert(sorted_keys(t)) by {
                assert forall|a: int, b: int| 0 <= a < b < t.len() implies char_lt(
                    (#[trigger] t[a]).0,
                    (#[trigger] t[b]).0,
                ) by {
                    lemma_adjacent_sorted(t, a, b);
                }
            }
        }
        true
    }
}

/// Strictly increasing adjacent keys order the whole table.
proof fn lemma_adjacent_sorted(t: TableModel, i: int, j: int)
    requires
        forall|k: int| 0 <= k < t.len() - 1 ==> char_lt((#[trigger] t[k]).0, t[k + 1].0),
        0 <= i < j < t.len(),
    ensures
        char_lt(t[i].0, t[j].0),
    decreases j - i,
{
    if j > i + 1 {
        lemma_adjacent_sorted(t, i, j - 1);
    }
}

} // verus!

verus! {

/// Looking up in a table with one entry appended: the old entries win,
/// being earlier in scan order.
pub proof fn lemma_lookup_snoc<V>(t: Seq<(char, V)>, e: (char, V))
    ensures
        forall|c: char| #[trigger]
            lookup(t.push(e), c) == (if lookup(t, c) is Some {
                lookup(t, c)
            } else if c == e.0 {
                Some(e.1)
            } else {
                None::<V>
            }),
    decreases t.len(),
{
    if t.len() == 0 {
        assert forall|c: char| #[trigger] lookup(t.push(e), c) == (if lookup(t, c) is Some {
            lookup(t, c)
        } else if c == e.0 {
            Some(e.1)
        } else {
            None::<V>
        }) by {
            reveal_with_fuel(lookup, 2);
            assert(t.push(e).drop_first() =~= Seq::<(char, V)>::empty());
            assert(t.push(e)[0] == e);
        }
    } else {
        assert(t.push(e).drop_first() =~= t.drop_first().push(e));
        lemma_lookup_snoc(t.drop_first(), e);
        assert forall|c: char| #[trigger] lookup(t.push(e), c) == (if lookup(t, c) is Some {
            lookup(t, c)
        } else if c == e.0 {
            Some(e.1)
        } else {
            None::<V>
        }) by {
            assert(t.push(e)[0] == t[0]);
            if c != t[0].0 {
                assert(lookup(t.push(e), c) == lookup(t.drop_first().push(e), c));
            }
        }
    }
}

} // verus!
