//! The line-oriented code-table format: one line per symbol, the
//! symbol first, then its code as a run of '0' and '1' characters,
//! then a newline.  Emitting a table and parsing the text back yields
//! the same table, which is what lets a later, independent decode run
//! recover the encode-time table exactly.

use vstd::prelude::*;
use crate::HuffError;
use crate::my_tree_map::{lookup, sorted_keys, table_extend, table_insert, table_wf,
    lemma_table_insert, lemma_table_insert_at, MyTreeMap, TableModel};
use crate::huffman::lemma_table_extend_add;

verus! {

/// A code as the format writes it: one character per bit.
pub open spec fn code_chars(code: Seq<bool>) -> Seq<char> {
    code.map_values(
        |b: bool|
            if b {
                '1'
            } else {
                '0'
            },
    )
}

/// One line of the format.
pub open spec fn line_of(e: (char, Seq<bool>)) -> Seq<char> {
    seq![e.0] + code_chars(e.1) + seq!['\n']
}

/// The whole persisted table: the lines of the entries in order.
pub open spec fn spec_serialize(t: TableModel) -> Seq<char>
    decreases t.len(),
{
    if t.len() == 0 {
        Seq::empty()
    } else {
        line_of(t[0]) + spec_serialize(t.drop_first())
    }
}

/// Serializing one more entry appends its line.
proof fn lemma_serialize_snoc(t: TableModel, e: (char, Seq<bool>))
    ensures
        spec_serialize(t.push(e)) == spec_serialize(t) + line_of(e),
    decreases t.len(),
{
    if t.len() == 0 {
        reveal_with_fuel(spec_serialize, 2);
        assert(t.push(e).drop_first() =~= Seq::<(char, Seq<bool>)>::empty());
        assert(t.push(e)[0] == e);
        assert(spec_serialize(t.push(e)) =~= spec_serialize(t) + line_of(e));
    } else {
        assert(t.push(e).drop_first() =~= t.drop_first().push(e));
        assert(t.push(e)[0] == t[0]);
        lemma_serialize_snoc(t.drop_first(), e);
        assert(line_of(t[0]) + (spec_serialize(t.drop_first()) + line_of(e)) =~= (line_of(t[0])
            + spec_serialize(t.drop_first())) + line_of(e));
    }
}

/// The position of the first newline, if any.
pub open spec fn find_nl(s: Seq<char>) -> Option<int>
    decreases s.len(),
{
    if s.len() == 0 {
        None
    } else if s[0] == '\n' {
        Some(0)
    } else {
        match find_nl(s.drop_first()) {
            Some(k) => Some(k + 1),
            None => None,
        }
    }
}

/// Where the first newline is, it is a newline and nothing before it
/// is one.
proof fn lemma_find_nl(s: Seq<char>)
    ensures
        match find_nl(s) {
            Some(k) => 0 <= k < s.len() && s[k] == '\n' && forall|i: int| 0 <= i < k ==> s[i] != '\n',
            None => forall|i: int| 0 <= i < s.len() ==> s[i] != '\n',
        },
    decreases s.len(),
{
    if s.len() > 0 && s[0] != '\n' {
        let dt = s.drop_first();
        lemma_find_nl(dt);
        assert(forall|i: int| 0 <= i < dt.len() ==> #[trigger] dt[i] == s[i + 1]);
        match find_nl(dt) {
            Some(k) => {
                assert(s[k + 1] == dt[k]);
                assert forall|i: int| 0 <= i < k + 1 implies s[i] != '\n' by {
                    if i > 0 {
                        assert(dt[i - 1] == s[i]);
                    }
                }
            },
            None => {
                assert forall|i: int| 0 <= i < s.len() implies s[i] != '\n' by {
                    if i > 0 {
                        assert(dt[i - 1] == s[i]);
                    }
                }
            },
        }
    }
}

/// Finding a newline at `k` with none before pins `find_nl`.
proof fn lemma_find_nl_at(s: Seq<char>, k: int)
    requires
        0 <= k < s.len(),
        s[k] == '\n',
        forall|i: int| 0 <= i < k ==> s[i] != '\n',
    ensures
        find_nl(s) == Some(k),
    decreases s.len(),
{
    if k > 0 {
        assert(forall|i: int| 0 <= i < s.drop_first().len() ==> #[trigger] s.drop_first()[i] == s[i
            + 1]);
        lemma_find_nl_at(s.drop_first(), k - 1);
    }
}

/// The characters a code may be written with.
pub open spec fn valid_code_chars(cs: Seq<char>) -> bool {
    forall|i: int| 0 <= i < cs.len() ==> cs[i] == '0' || #[trigger] cs[i] == '1'
}

/// The bits a run of code characters stands for.
pub open spec fn bits_of_chars(cs: Seq<char>) -> Seq<bool> {
    cs.map_values(|c: char| c == '1')
}

/// Parses line after line, inserting each entry into `acc`; nothing
/// comes back from text with an unterminated final line, a line too
/// short to hold a symbol and a non-empty code, or a stray character
/// in a code.
pub open spec fn spec_parse_into(s: Seq<char>, acc: TableModel) -> Option<TableModel>
    decreases s.len(),
        via spec_parse_into_decreases
{
    if s.len() == 0 {
        Some(acc)
    } else {
        match find_nl(s) {
            None => None,
            Some(j) => {
                let line = s.take(j);
                if line.len() < 2 || !valid_code_chars(line.skip(1)) {
                    None
                } else {
                    spec_parse_into(
                        s.skip(j + 1),
                        table_insert(acc, (line[0], bits_of_chars(line.skip(1)))),
                    )
                }
            },
        }
    }
}

#[via_fn]
proof fn spec_parse_into_decreases(s: Seq<char>, acc: TableModel) {
    lemma_find_nl(s);
}

/// The table read back from persisted text.
pub open spec fn spec_parse(s: Seq<char>) -> Option<TableModel> {
    spec_parse_into(s, Seq::empty())
}

/// Writes the table out, one `<symbol><code>` line per entry, in key
/// order.
pub fn serialize_table(m: &MyTreeMap) -> (r: Vec<char>)
    ensures
        r@ == spec_serialize(m@),
{
    let ghost t = m@;
    let mut out: Vec<char> = Vec::new();
    let mut i: usize = 0;
    proof {
        assert(t.take(0) =~= Seq::<(char, Seq<bool>)>::empty());
        assert(out@ =~= spec_serialize(t.take(0)));
    }
    while i < m.data_map.len()
        invariant
            i <= t.len(),
            t == m@,
            t.len() == m.data_map@.len(),
            out@ == spec_serialize(t.take(i as int)),
        decreases t.len() - i,
    {
        let ghost e = t[i as int];
        let ghost before = out@;
        proof {
            assert(e.0 == m.data_map@[i as int].0 && e.1 == m.data_map@[i as int].1@);
        }
        out.push(m.data_map[i].0);
        let mut k: usize = 0;
        while k < m.data_map[i].1.len()
            invariant
                i < t.len(),
                t == m@,
                t.len() == m.data_map@.len(),
                e == t[i as int],
                e.0 == m.data_map@[i as int].0,
                e.1 == m.data_map@[i as int].1@,
                k <= e.1.len(),
                out@ == before + seq![e.0] + code_chars(e.1).take(k as int),
            decreases e.1.len() - k,
        {
            let b = m.data_map[i].1[k];
            if b {
                out.push('1');
            } else {
                out.push('0');
            }
            proof {
                assert(before + seq![e.0] + code_chars(e.1).take(k as int + 1) =~= (before
                    + seq![e.0] + code_chars(e.1).take(k as int)).push(
                    if e.1[k as int] {
                        '1'
                    } else {
                        '0'
                    },
                ));
            }
            k = k + 1;
        }
        out.push('\n');
        i = i + 1;
        proof {
            lemma_serialize_snoc(t.take(i - 1), e);
            assert(t.take(i - 1).push(e) =~= t.take(i as int));
            assert(code_chars(e.1).take(e.1.len() as int) =~= code_chars(e.1));
            assert(out@ =~= spec_serialize(t.take(i - 1)) + line_of(e));
        }
    }
    proof {
        assert(t.take(i as int) =~= t);
    }
    out
}

/// Reads a persisted table back: one entry per line, inserted in
/// order, later duplicates replacing earlier ones; any malformed line
/// is an error.
pub fn parse_table(text: &Vec<char>) -> (r: Result<MyTreeMap, HuffError>)
    ensures
        match r {
            Ok(m) => spec_parse(text@) == Some(m@) && m.wf(),
            Err(e) => spec_parse(text@) is None && e == HuffError::BadTableLine,
        },
{
    let ghost full = text@;
    let mut m = MyTreeMap::new_default();
    let mut pos: usize = 0;
    proof {
        assert(full.skip(0) =~= full);
    }
    while pos < text.len()
        invariant
            pos <= full.len(),
            full == text@,
            m.wf(),
            spec_parse(full) == spec_parse_into(full.skip(pos as int), m@),
        decreases full.len() - pos,
    {
        let ghost suffix = full.skip(pos as int);
        // find the end of the line
        let mut j: usize = pos;
        while j < text.len() && text[j] != '\n'
            invariant
                pos <= j <= full.len(),
                full == text@,
                forall|q: int| pos <= q < j ==> full[q] != '\n',
            decreases full.len() - j,
        {
            j = j + 1;
        }
        if j == text.len() {
            proof {
                assert forall|q: int| 0 <= q < suffix.len() implies suffix[q] != '\n' by {
                    assert(suffix[q] == full[pos + q]);
                }
                lemma_find_nl(suffix);
                if find_nl(suffix) is Some {
                    let k = find_nl(suffix)->0;
                    assert(suffix[k] == '\n');
                }
                assert(spec_parse_into(suffix, m@) is None);
            }
            return Err(HuffError::BadTableLine);
        }
        let ghost nl = j - pos;
        proof {
            assert(suffix[nl as int] == full[j as int]);
            assert forall|q: int| 0 <= q < nl implies suffix[q] != '\n' by {
                assert(suffix[q] == full[pos + q]);
            }
            lemma_find_nl_at(suffix, nl as int);
        }
        let ghost line = suffix.take(nl as int);
        if j - pos < 2 {
            proof {
                assert(line.len() < 2);
                assert(spec_parse_into(suffix, m@) is None);
            }
            return Err(HuffError::BadTableLine);
        }
        // read the code characters
        let mut code: Vec<bool> = Vec::new();
        let mut q: usize = pos + 1;
        proof {
            assert(line.skip(1) =~= full.subrange(pos + 1, j as int));
            assert(code@ =~= bits_of_chars(line.skip(1)).take(0));
        }
        while q < j
            invariant
                pos + 1 <= q <= j <= full.len(),
                full == text@,
                suffix == full.skip(pos as int),
                spec_parse(full) == spec_parse_into(suffix, m@),
                find_nl(suffix) == Some(nl as int),
                nl == j - pos,
                nl >= 2,
                line == suffix.take(nl as int),
                line.skip(1) == full.subrange(pos + 1, j as int),
                line.skip(1).len() == j - pos - 1,
                forall|w: int| 0 <= w < q - pos - 1 ==> line.skip(1)[w] == '0' || #[trigger] line.skip(
                    1,
                )[w] == '1',
                code@ == bits_of_chars(line.skip(1)).take(q - pos - 1),
            decreases j - q,
        {
            let c = text[q];
            proof {
                assert(line.skip(1)[q - pos - 1] == full[q as int]);
            }
            if c == '1' {
                code.push(true);
            } else if c == '0' {
                code.push(false);
            } else {
                proof {
                    assert(line.skip(1)[q - pos - 1] != '0' && line.skip(1)[q - pos - 1] != '1');
                    assert(!valid_code_chars(line.skip(1)));
                    assert(line.len() == nl);
                    assert(spec_parse_into(suffix, m@) is None);
                }
                return Err(HuffError::BadTableLine);
            }
            proof {
                assert(bits_of_chars(line.skip(1)).take(q - pos) =~= bits_of_chars(
                    line.skip(1),
                ).take(q - pos - 1).push(full[q as int] == '1'));
            }
            q = q + 1;
        }
        proof {
            assert(valid_code_chars(line.skip(1)));
            assert(code@ =~= bits_of_chars(line.skip(1)));
            assert(code@.len() >= 1);
            assert(line[0] == full[pos as int]);
            assert(line[0] != '\n');
        }
        let key = text[pos];
        let ghost before = m@;
        m.insert(key, code);
        proof {
            assert(spec_parse_into(suffix, before) == spec_parse_into(
                suffix.skip(nl as int + 1),
                table_insert(before, (line[0], bits_of_chars(line.skip(1)))),
            ));
            assert(suffix.skip(nl as int + 1) =~= full.skip(j + 1));
        }
        pos = j + 1;
    }
    proof {
        assert(full.skip(pos as int) =~= Seq::<char>::empty());
    }
    Ok(m)
}

/// Inserting already-sorted entries into the empty table, in order,
/// reproduces them exactly.
proof fn lemma_extend_empty_sorted(t: TableModel)
    requires
        sorted_keys(t),
    ensures
        table_extend(Seq::empty(), t) == t,
    decreases t.len(),
{
    if t.len() > 0 {
        let front = t.drop_last();
        let e = t.last();
        assert(sorted_keys(front)) by {
            assert(forall|i: int| 0 <= i < front.len() ==> #[trigger] front[i] == t[i]);
        }
        lemma_extend_empty_sorted(front);
        assert(forall|i: int| 0 <= i < front.len() ==> crate::char_lt((#[trigger] front[i]).0, e.0));
        lemma_table_insert_at(front, e, front.len() as int);
        assert(table_insert(front, e) =~= t) by {
            assert(table_insert(front, e) == front.take(front.len() as int) + seq![e] + front.skip(
                front.len() as int,
            ));
            assert(front.take(front.len() as int) =~= front);
            assert(front.skip(front.len() as int) =~= Seq::<(char, Seq<bool>)>::empty());
        }
    } else {
        assert(table_extend(Seq::empty(), t) =~= t);
    }
}


/// Parsing what was serialized rebuilds every entry in order.
proof fn lemma_parse_serialize_into(t: TableModel, acc: TableModel)
    requires
        table_wf(t),
    ensures
        spec_parse_into(spec_serialize(t), acc) == Some(table_extend(acc, t)),
    decreases t.len(),
{
    if t.len() == 0 {
        assert(table_extend(acc, t) == acc);
    } else {
        let e = t[0];
        let rest = t.drop_first();
        let s = spec_serialize(t);
        let ln = line_of(e);
        assert(s == ln + spec_serialize(rest));
        assert(ln.len() == e.1.len() + 2);
        // the first newline ends the first line
        assert(s[e.1.len() as int + 1] == '\n') by {
            assert(ln[e.1.len() as int + 1] == '\n');
        }
        assert forall|i: int| 0 <= i < e.1.len() + 1 implies s[i] != '\n' by {
            assert(s[i] == ln[i]);
            if i == 0 {
                assert(ln[0] == e.0);
            } else {
                assert(ln[i] == code_chars(e.1)[i - 1]);
            }
        }
        lemma_find_nl_at(s, e.1.len() as int + 1);
        let line = s.take(e.1.len() as int + 1);
        assert(line[0] == e.0);
        assert(line.skip(1) =~= code_chars(e.1));
        assert(valid_code_chars(line.skip(1)));
        assert(bits_of_chars(line.skip(1)) =~= e.1);
        assert(s.skip(e.1.len() as int + 2) =~= spec_serialize(rest));
        assert(table_wf(rest)) by {
            assert(forall|i: int| 0 <= i < rest.len() ==> #[trigger] rest[i] == t[i + 1]);
        }
        lemma_parse_serialize_into(rest, table_insert(acc, e));
        assert(table_extend(table_insert(acc, e), rest) == table_extend(acc, t)) by {
            lemma_table_extend_add(acc, seq![e], rest);
            assert(seq![e] + rest =~= t);
            assert(table_extend(acc, seq![e]) == table_insert(acc, e)) by {
                reveal_with_fuel(table_extend, 2);
                assert(seq![e].drop_last() =~= Seq::<(char, Seq<bool>)>::empty());
                assert(seq![e].last() == e);
            }
        }
    }
}

/// Persisting a valid table and reparsing the text yields the same
/// table: same keys, same codes.
pub proof fn lemma_table_round_trip(t: TableModel)
    requires
        table_wf(t),
    ensures
        spec_parse(spec_serialize(t)) == Some(t),
{
    lemma_parse_serialize_into(t, Seq::empty());
    lemma_extend_empty_sorted(t);
}

} // verus!
