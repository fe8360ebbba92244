//! Substitution of every variable of a table in a text, in one pass.

use vstd::prelude::*;
use crate::text::{
    append_chars, chars_of, matches_at, occurs_in, replaced, shares_no_char, starts_with, string_of,
};
use crate::vars::VariableTable;

verus! {

/// The place of the first entry of `table`, from the place `from` on, whose
/// name stands at the beginning of `text`.
pub open spec fn standing_from(
    text: Seq<char>,
    table: Seq<(Seq<char>, Seq<char>)>,
    from: int,
) -> Option<int>
    decreases table.len() - from,
{
    if from < 0 || from >= table.len() {
        None
    } else if starts_with(text, table[from].0) {
        Some(from)
    } else {
        standing_from(text, table, from + 1)
    }
}

/// The place of the first entry of `table` whose name stands at the
/// beginning of `text`.
pub open spec fn standing(text: Seq<char>, table: Seq<(Seq<char>, Seq<char>)>) -> Option<int> {
    standing_from(text, table, 0)
}

/// `text` after one pass of substitution.
///
/// The text is walked once from the left. Where the name of an entry stands,
/// the value of the first such entry of the table is written and the walk
/// goes on behind the name; any other character is written as it is. So no
/// entry ever searches what an entry wrote. An empty name stands before every
/// character that no entry before it takes, and at the end.
pub open spec fn substituted(text: Seq<char>, table: Seq<(Seq<char>, Seq<char>)>) -> Seq<char>
    decreases text.len(),
{
    match standing(text, table) {
        None => if text.len() == 0 {
            text
        } else {
            seq![text[0]] + substituted(text.skip(1), table)
        },
        Some(k) => {
            let name = table[k].0;
            let value = table[k].1;
            if 0 < name.len() <= text.len() {
                value + substituted(text.skip(name.len() as int), table)
            } else if text.len() == 0 {
                value
            } else {
                value + seq![text[0]] + substituted(text.skip(1), table)
            }
        },
    }
}

/// What [`standing_from`] gives: the entry found is the first from `from` on
/// whose name stands, and where none is found no name stands.
pub proof fn lemma_standing_from(text: Seq<char>, table: Seq<(Seq<char>, Seq<char>)>, from: int)
    requires
        0 <= from,
    ensures
        match standing_from(text, table, from) {
            Some(k) => {
                &&& from <= k < table.len()
                &&& starts_with(text, table[k].0)
                &&& forall|j: int| from <= j < k ==> !starts_with(text, (#[trigger] table[j]).0)
            },
            None => forall|j: int|
                from <= j < table.len() ==> !starts_with(text, (#[trigger] table[j]).0),
        },
    decreases table.len() - from,
{
    if from < table.len() && !starts_with(text, table[from].0) {
        lemma_standing_from(text, table, from + 1);
    }
}

/// With one entry the pass is the replacement of its name by its value.
pub proof fn lemma_substituted_single(text: Seq<char>, name: Seq<char>, value: Seq<char>)
    ensures
        substituted(text, seq![(name, value)]) == replaced(text, name, value),
    decreases text.len(),
{
    let table = seq![(name, value)];
    lemma_standing_from(text, table, 0);
    assert(table[0] == (name, value));
    if text.len() == 0 {
        if name.len() == 0 {
            assert(text.take(0) =~= name);
        }
    } else if name.len() == 0 {
        assert(text.take(0) =~= name);
        lemma_substituted_single(text.skip(1), name, value);
    } else if starts_with(text, name) {
        lemma_substituted_single(text.skip(name.len() as int), name, value);
    } else {
        lemma_substituted_single(text.skip(1), name, value);
    }
}

/// No name of `table` occurs in `text`.
pub open spec fn free_of_names(text: Seq<char>, table: Seq<(Seq<char>, Seq<char>)>) -> bool {
    forall|i: int| 0 <= i < table.len() ==> !occurs_in(text, (#[trigger] table[i]).0)
}

/// The pass leaves a text alone in which no name occurs.
pub proof fn lemma_substituted_free(text: Seq<char>, table: Seq<(Seq<char>, Seq<char>)>)
    requires
        free_of_names(text, table),
    ensures
        substituted(text, table) == text,
    decreases text.len(),
{
    lemma_standing_from(text, table, 0);
    assert(text.skip(0) =~= text);
    assert(standing(text, table) is None) by {
        if standing(text, table) is Some {
            let k = standing(text, table)->Some_0;
            assert(!occurs_in(text, table[k].0));
            assert(starts_with(text.skip(0), table[k].0));
        }
    }
    if text.len() > 0 {
        let rest = text.skip(1);
        assert forall|i: int| 0 <= i < table.len() implies !occurs_in(
            rest,
            (#[trigger] table[i]).0,
        ) by {
            if occurs_in(rest, table[i].0) {
                let p = choose|p: int|
                    0 <= p <= rest.len() && #[trigger] starts_with(rest.skip(p), table[i].0);
                assert(rest.skip(p) =~= text.skip(p + 1));
                assert(starts_with(text.skip(p + 1), table[i].0));
                assert(!occurs_in(text, table[i].0));
            }
        }
        lemma_substituted_free(rest, table);
        assert(seq![text[0]] + rest =~= text);
    }
}

/// A second pass gives what the first gave, whenever the first left no name
/// behind.
pub proof fn lemma_substituted_twice(text: Seq<char>, table: Seq<(Seq<char>, Seq<char>)>)
    requires
        free_of_names(substituted(text, table), table),
    ensures
        substituted(substituted(text, table), table) == substituted(text, table),
{
    lemma_substituted_free(substituted(text, table), table);
}

/// No name and no value of `table` is empty, and no value holds a character
/// of any name.
pub open spec fn values_apart_from_names(table: Seq<(Seq<char>, Seq<char>)>) -> bool {
    &&& forall|i: int| 0 <= i < table.len() ==> (#[trigger] table[i]).0.len() > 0
    &&& forall|i: int| 0 <= i < table.len() ==> (#[trigger] table[i]).1.len() > 0
    &&& forall|i: int, j: int|
        0 <= i < table.len() && 0 <= j < table.len() ==> shares_no_char(
            (#[trigger] table[i]).0,
            (#[trigger] table[j]).1,
        )
}

/// What the pass wrote begins as the text did, as far as it holds no
/// character of a value.
proof fn lemma_substituted_prefix(
    text: Seq<char>,
    table: Seq<(Seq<char>, Seq<char>)>,
    prefix: Seq<char>,
)
    requires
        values_apart_from_names(table),
        forall|j: int| 0 <= j < table.len() ==> shares_no_char(prefix, (#[trigger] table[j]).1),
        starts_with(substituted(text, table), prefix),
    ensures
        starts_with(text, prefix),
    decreases text.len(),
{
    let out = substituted(text, table);
    lemma_standing_from(text, table, 0);
    if prefix.len() == 0 {
        assert(text.take(0) =~= prefix);
    } else {
        assert(out.take(prefix.len() as int)[0] == prefix[0]);
        match standing(text, table) {
            Some(k) => {
                assert(shares_no_char(prefix, table[k].1));
                assert(out[0] == table[k].1[0]);
            },
            None => {
                if text.len() > 0 {
                    let rest = text.skip(1);
                    let rest_out = substituted(rest, table);
                    let shorter = prefix.skip(1);
                    assert(rest_out.take(shorter.len() as int) =~= shorter) by {
                        assert forall|n: int| 0 <= n < shorter.len() implies rest_out[n]
                            == shorter[n] by {
                            assert(out.take(prefix.len() as int)[n + 1] == prefix[n + 1]);
                        }
                    }
                    assert forall|j: int| 0 <= j < table.len() implies shares_no_char(
                        shorter,
                        (#[trigger] table[j]).1,
                    ) by {
                        assert(shares_no_char(prefix, table[j].1));
                        assert forall|a: int, b: int|
                            0 <= a < shorter.len() && 0 <= b < table[j].1.len() implies shorter[a]
                            != table[j].1[b] by {
                            assert(shorter[a] == prefix[a + 1]);
                        }
                    }
                    lemma_substituted_prefix(rest, table, shorter);
                    assert(text.take(prefix.len() as int) =~= prefix) by {
                        assert forall|n: int| 0 <= n < prefix.len() implies text[n]
                            == prefix[n] by {
                            if n > 0 {
                                assert(rest.take(shorter.len() as int)[n - 1] == shorter[n - 1]);
                            }
                        }
                    }
                }
            },
        }
    }
}

/// Where the values keep apart from the names, the pass leaves no name
/// behind.
pub proof fn lemma_substituted_leaves_none(text: Seq<char>, table: Seq<(Seq<char>, Seq<char>)>)
    requires
        values_apart_from_names(table),
    ensures
        free_of_names(substituted(text, table), table),
    decreases text.len(),
{
    let out = substituted(text, table);
    lemma_standing_from(text, table, 0);
    assert forall|i: int| 0 <= i < table.len() implies !occurs_in(out, (#[trigger] table[i]).0) by {
        let name = table[i].0;
        if occurs_in(out, name) {
            let p = choose|p: int| 0 <= p <= out.len() && #[trigger] starts_with(out.skip(p), name);
            assert(out.skip(p).take(name.len() as int)[0] == name[0]);
            match standing(text, table) {
                Some(k) => {
                    let value = table[k].1;
                    let rest = text.skip(table[k].0.len() as int);
                    let rest_out = substituted(rest, table);
                    lemma_substituted_leaves_none(rest, table);
                    assert(shares_no_char(name, value));
                    if p < value.len() {
                        assert(out[p] == value[p]);
                    } else {
                        assert(out.skip(p) =~= rest_out.skip(p - value.len()));
                        assert(starts_with(rest_out.skip(p - value.len()), name));
                        assert(!occurs_in(rest_out, table[i].0));
                    }
                },
                None => {
                    if text.len() > 0 {
                        let rest = text.skip(1);
                        let rest_out = substituted(rest, table);
                        lemma_substituted_leaves_none(rest, table);
                        if p == 0 {
                            assert(out.skip(0) =~= out);
                            assert forall|j: int| 0 <= j < table.len() implies shares_no_char(
                                name,
                                (#[trigger] table[j]).1,
                            ) by {
                                assert(shares_no_char(table[i].0, table[j].1));
                            }
                            lemma_substituted_prefix(text, table, name);
                        } else {
                            assert(out.skip(p) =~= rest_out.skip(p - 1));
                            assert(starts_with(rest_out.skip(p - 1), name));
                            assert(!occurs_in(rest_out, table[i].0));
                        }
                    }
                },
            }
        }
    }
}

/// A second pass gives what the first gave, whenever no name and no value is
/// empty and no value holds a character of any name.
pub proof fn lemma_substituted_twice_apart(text: Seq<char>, table: Seq<(Seq<char>, Seq<char>)>)
    requires
        values_apart_from_names(table),
    ensures
        substituted(substituted(text, table), table) == substituted(text, table),
{
    lemma_substituted_leaves_none(text, table);
    lemma_substituted_twice(text, table);
}

/// No name of `table` is the beginning of the name of another entry. Such
/// names are distinct, and at no place of a text do two of them stand.
pub open spec fn prefix_free(table: Seq<(Seq<char>, Seq<char>)>) -> bool {
    forall|i: int, j: int|
        0 <= i < table.len() && 0 <= j < table.len() && i != j ==> !starts_with(
            (#[trigger] table[i]).0,
            (#[trigger] table[j]).0,
        )
}

/// Every entry of `a` is one of `b`.
pub open spec fn entries_among(
    a: Seq<(Seq<char>, Seq<char>)>,
    b: Seq<(Seq<char>, Seq<char>)>,
) -> bool {
    forall|i: int| 0 <= i < a.len() ==> exists|j: int| 0 <= j < b.len() && b[j] == #[trigger] a[i]
}

/// Of two names that stand at the beginning of one text, the shorter is the
/// beginning of the longer.
proof fn lemma_two_standing(text: Seq<char>, short: Seq<char>, long: Seq<char>)
    requires
        starts_with(text, short),
        starts_with(text, long),
        short.len() <= long.len(),
    ensures
        starts_with(long, short),
{
    assert(long.take(short.len() as int) =~= short) by {
        assert forall|n: int| 0 <= n < short.len() implies long[n] == short[n] by {
            assert(text.take(long.len() as int)[n] == long[n]);
            assert(text.take(short.len() as int)[n] == short[n]);
        }
    }
}

/// Where one table finds an entry at the beginning of a text, another table
/// of the same entries finds the same entry, if no name is the beginning of
/// another.
proof fn lemma_same_standing(
    text: Seq<char>,
    a: Seq<(Seq<char>, Seq<char>)>,
    b: Seq<(Seq<char>, Seq<char>)>,
)
    requires
        prefix_free(a),
        entries_among(a, b),
        entries_among(b, a),
    ensures
        standing(text, a) is Some <==> standing(text, b) is Some,
        standing(text, a) is Some ==> a[standing(text, a)->Some_0] == b[standing(text, b)->Some_0],
{
    lemma_standing_from(text, a, 0);
    lemma_standing_from(text, b, 0);
    if standing(text, a) is Some {
        let k = standing(text, a)->Some_0;
        let j = choose|j: int| 0 <= j < b.len() && b[j] == a[k];
        assert(starts_with(text, b[j].0));
        assert(standing(text, b) is Some);
        let found = standing(text, b)->Some_0;
        let back = choose|i: int| 0 <= i < a.len() && a[i] == b[found];
        assert(starts_with(text, a[back].0));
        if back != k {
            if a[back].0.len() <= a[k].0.len() {
                lemma_two_standing(text, a[back].0, a[k].0);
                assert(starts_with(a[k].0, a[back].0));
            } else {
                lemma_two_standing(text, a[k].0, a[back].0);
                assert(starts_with(a[back].0, a[k].0));
            }
        }
    } else if standing(text, b) is Some {
        let found = standing(text, b)->Some_0;
        let back = choose|i: int| 0 <= i < a.len() && a[i] == b[found];
        assert(starts_with(text, a[back].0));
    }
}

/// The order of the entries does not matter where no name is the beginning
/// of another: two tables of the same entries give the same text.
pub proof fn lemma_substituted_any_order(
    text: Seq<char>,
    a: Seq<(Seq<char>, Seq<char>)>,
    b: Seq<(Seq<char>, Seq<char>)>,
)
    requires
        prefix_free(a),
        entries_among(a, b),
        entries_among(b, a),
    ensures
        substituted(text, a) == substituted(text, b),
    decreases text.len(),
{
    lemma_same_standing(text, a, b);
    lemma_standing_from(text, a, 0);
    match standing(text, a) {
        None => {
            if text.len() > 0 {
                lemma_substituted_any_order(text.skip(1), a, b);
            }
        },
        Some(k) => {
            let name = a[k].0;
            if 0 < name.len() <= text.len() {
                lemma_substituted_any_order(text.skip(name.len() as int), a, b);
            } else if text.len() > 0 {
                lemma_substituted_any_order(text.skip(1), a, b);
            }
        },
    }
}

/// The length of all the values that the pass writes into `text`.
pub open spec fn written(text: Seq<char>, table: Seq<(Seq<char>, Seq<char>)>) -> nat
    decreases text.len(),
{
    match standing(text, table) {
        None => if text.len() == 0 {
            0
        } else {
            written(text.skip(1), table)
        },
        Some(k) => {
            let name = table[k].0;
            let value = table[k].1;
            if 0 < name.len() <= text.len() {
                value.len() + written(text.skip(name.len() as int), table)
            } else if text.len() == 0 {
                value.len()
            } else {
                value.len() + written(text.skip(1), table)
            }
        },
    }
}

/// A substituted text is no longer than the text and the values written into
/// it.
pub proof fn lemma_substituted_len(text: Seq<char>, table: Seq<(Seq<char>, Seq<char>)>)
    ensures
        substituted(text, table).len() <= text.len() + written(text, table),
    decreases text.len(),
{
    match standing(text, table) {
        None => {
            if text.len() > 0 {
                lemma_substituted_len(text.skip(1), table);
            }
        },
        Some(k) => {
            let name = table[k].0;
            if 0 < name.len() <= text.len() {
                lemma_substituted_len(text.skip(name.len() as int), table);
            } else if text.len() > 0 {
                lemma_substituted_len(text.skip(1), table);
            }
        },
    }
}

/// What a table of names and values in characters stands for.
pub open spec fn entry_models(entries: Seq<(Vec<char>, Vec<char>)>) -> Seq<(Seq<char>, Seq<char>)> {
    Seq::new(entries.len(), |i: int| (entries[i].0@, entries[i].1@))
}

/// The first entry whose name stands in `text` at the place `at`.
pub fn standing_at(text: &Vec<char>, at: usize, entries: &Vec<(Vec<char>, Vec<char>)>) -> (found:
    Option<usize>)
    requires
        at <= text.len(),
    ensures
        match found {
            Some(k) => k < entries.len() && standing(
                text@.skip(at as int),
                entry_models(entries@),
            ) == Some(k as int) && at + entries[k as int].0.len() <= text.len(),
            None => standing(text@.skip(at as int), entry_models(entries@)) is None,
        },
{
    let ghost tail = text@.skip(at as int);
    let ghost table = entry_models(entries@);
    let mut k: usize = 0;
    while k < entries.len()
        invariant
            k <= entries.len(),
            at <= text.len(),
            tail == text@.skip(at as int),
            table == entry_models(entries@),
            standing_from(tail, table, 0) == standing_from(tail, table, k as int),
        decreases entries.len() - k,
    {
        assert(table[k as int].0 == entries[k as int].0@);
        if matches_at(text, at, &entries[k].0) {
            return Some(k);
        }
        k += 1;
    }
    None
}

/// One pass of substitution on characters.
pub fn substitute_chars(text: &Vec<char>, entries: &Vec<(Vec<char>, Vec<char>)>) -> (out: Vec<char>)
    ensures
        out@ == substituted(text@, entry_models(entries@)),
{
    let ghost table = entry_models(entries@);
    let mut out: Vec<char> = Vec::new();
    let mut i: usize = 0;
    assert(text@.skip(0) =~= text@);
    assert(out@ + substituted(text@, table) =~= substituted(text@, table));
    while i < text.len()
        invariant
            i <= text.len(),
            table == entry_models(entries@),
            out@ + substituted(text@.skip(i as int), table) == substituted(text@, table),
        decreases text.len() - i,
    {
        let ghost tail = text@.skip(i as int);
        let ghost before = out@;
        assert(tail.len() > 0 && tail[0] == text@[i as int]);
        match standing_at(text, i, entries) {
            Some(k) => {
                assert(table[k as int] == (entries[k as int].0@, entries[k as int].1@));
                append_chars(&mut out, &entries[k].1);
                let n = entries[k].0.len();
                if n > 0 {
                    assert(tail.skip(n as int) =~= text@.skip(i + n));
                    assert(before + (entries[k as int].1@ + substituted(tail.skip(n as int), table))
                        =~= out@ + substituted(tail.skip(n as int), table));
                    i += n;
                } else {
                    out.push(text[i]);
                    assert(tail.skip(1) =~= text@.skip(i + 1));
                    assert(before + (entries[k as int].1@ + seq![tail[0]] + substituted(
                        tail.skip(1),
                        table,
                    )) =~= out@ + substituted(tail.skip(1), table));
                    i += 1;
                }
            },
            None => {
                out.push(text[i]);
                assert(tail.skip(1) =~= text@.skip(i + 1));
                assert(before + (seq![tail[0]] + substituted(tail.skip(1), table)) =~= out@
                    + substituted(tail.skip(1), table));
                i += 1;
            },
        }
    }
    let ghost before = out@;
    assert(text@.skip(text.len() as int).len() == 0);
    match standing_at(text, i, entries) {
        Some(k) => {
            assert(table[k as int] == (entries[k as int].0@, entries[k as int].1@));
            append_chars(&mut out, &entries[k].1);
        },
        None => {
            assert(before + text@.skip(text.len() as int) =~= before);
        },
    }
    out
}

/// Replaces in `msg` every occurrence of a name of `var_pairs` by the text
/// bound to it, in one pass: what was written for one name is not searched
/// for another.
pub fn replace_vars(msg: String, var_pairs: &VariableTable) -> (out: String)
    ensures
        out@ == substituted(msg@, var_pairs@),
{
    let text = chars_of(msg.as_str());
    let mut entries: Vec<(Vec<char>, Vec<char>)> = Vec::new();
    let mut i: usize = 0;
    while i < var_pairs.len()
        invariant
            i <= var_pairs@.len(),
            entries@.len() == i,
            forall|j: int|
                0 <= j < i ==> (#[trigger] entries@[j]).0@ == var_pairs@[j].0 && entries@[j].1@
                    == var_pairs@[j].1,
        decreases var_pairs@.len() - i,
    {
        let name = chars_of(var_pairs.name(i).as_str());
        let value = chars_of(var_pairs.value(i).as_str());
        entries.push((name, value));
        i += 1;
    }
    assert(entry_models(entries@) =~= var_pairs@);
    let out = substitute_chars(&text, &entries);
    string_of(&out)
}

} // verus!
