//! The variable table: which text stands for which placeholder.

use vstd::prelude::*;
use crate::error::HydrateError;
use crate::text::{replace_all, replaced};

verus! {

/// Some entry of `table` has the name `name`.
pub open spec fn binds(table: Seq<(Seq<char>, Seq<char>)>, name: Seq<char>) -> bool {
    exists|i: int| 0 <= i < table.len() && (#[trigger] table[i]).0 == name
}

/// Entry `i` of `table` is the first that has the name `name`.
pub open spec fn first_at(table: Seq<(Seq<char>, Seq<char>)>, name: Seq<char>, i: int) -> bool {
    &&& 0 <= i < table.len()
    &&& table[i].0 == name
    &&& forall|j: int| 0 <= j < i ==> (#[trigger] table[j]).0 != name
}

/// The place of the first entry named `name` in a table that binds it.
pub open spec fn slot_of(table: Seq<(Seq<char>, Seq<char>)>, name: Seq<char>) -> int {
    choose|i: int| first_at(table, name, i)
}

/// A table that binds a name has a first entry of that name, at the place
/// that [`slot_of`] gives, and no other entry is the first.
pub proof fn lemma_slot_of(table: Seq<(Seq<char>, Seq<char>)>, name: Seq<char>)
    requires
        binds(table, name),
    ensures
        first_at(table, name, slot_of(table, name)),
        forall|i: int| first_at(table, name, i) ==> i == slot_of(table, name),
{
    let w = choose|i: int| 0 <= i < table.len() && (#[trigger] table[i]).0 == name;
    lemma_first_upto(table, name, w);
    let k = slot_of(table, name);
    assert forall|i: int| first_at(table, name, i) implies i == k by {
        if i < k {
            assert(table[i].0 != name);
        } else if k < i {
            assert(table[k].0 != name);
        }
    }
}

/// Where entry `upto` has the name, some entry up to it is the first that
/// has it.
proof fn lemma_first_upto(table: Seq<(Seq<char>, Seq<char>)>, name: Seq<char>, upto: int)
    requires
        0 <= upto < table.len(),
        table[upto].0 == name,
    ensures
        exists|i: int| first_at(table, name, i),
    decreases upto,
{
    if forall|j: int| 0 <= j < upto ==> (#[trigger] table[j]).0 != name {
        assert(first_at(table, name, upto));
    } else {
        let j = choose|j: int| 0 <= j < upto && (#[trigger] table[j]).0 == name;
        lemma_first_upto(table, name, j);
    }
}

/// No two entries of `table` have the same name.
pub open spec fn distinct_names(table: Seq<(Seq<char>, Seq<char>)>) -> bool {
    forall|i: int, j: int|
        0 <= i < j < table.len() ==> (#[trigger] table[i]).0 != (#[trigger] table[j]).0
}

/// `table` after `name` was bound to `value`: a name that is bound already
/// keeps its place and takes the new value, a new name goes to the end.
pub open spec fn bound(
    table: Seq<(Seq<char>, Seq<char>)>,
    name: Seq<char>,
    value: Seq<char>,
) -> Seq<(Seq<char>, Seq<char>)> {
    if binds(table, name) {
        table.update(slot_of(table, name), (name, value))
    } else {
        table.push((name, value))
    }
}

/// The table that the first `pairs` name and value pairs of `tokens` make,
/// bound one after the other.
pub open spec fn paired_upto(tokens: Seq<Seq<char>>, pairs: nat) -> Seq<(Seq<char>, Seq<char>)>
    decreases pairs,
{
    if pairs == 0 {
        Seq::empty()
    } else {
        bound(
            paired_upto(tokens, (pairs - 1) as nat),
            tokens[2 * pairs - 2],
            tokens[2 * pairs - 1],
        )
    }
}

/// The table that a list of alternating names and values makes.
pub open spec fn paired(tokens: Seq<Seq<char>>) -> Seq<(Seq<char>, Seq<char>)> {
    paired_upto(tokens, tokens.len() / 2)
}

/// Binding keeps the names of a table distinct, and the name is bound
/// afterwards.
pub proof fn lemma_bound_distinct(
    table: Seq<(Seq<char>, Seq<char>)>,
    name: Seq<char>,
    value: Seq<char>,
)
    requires
        distinct_names(table),
    ensures
        distinct_names(bound(table, name, value)),
        binds(bound(table, name, value), name),
{
    let after = bound(table, name, value);
    if binds(table, name) {
        lemma_slot_of(table, name);
        let k = slot_of(table, name);
        assert(after[k].0 == name);
        assert forall|i: int, j: int| 0 <= i < j < after.len() implies (#[trigger] after[i]).0 != (
        #[trigger] after[j]).0 by {
            assert(after[i].0 == table[i].0);
            assert(after[j].0 == table[j].0);
        }
    } else {
        assert(after[table.len() as int].0 == name);
        assert forall|i: int, j: int| 0 <= i < j < after.len() implies (#[trigger] after[i]).0 != (
        #[trigger] after[j]).0 by {
            if j < table.len() {
                assert(after[i] == table[i] && after[j] == table[j]);
            } else {
                assert(after[i] == table[i]);
            }
        }
    }
}

/// Every table made from tokens has distinct names.
pub proof fn lemma_paired_distinct(tokens: Seq<Seq<char>>, pairs: nat)
    ensures
        distinct_names(paired_upto(tokens, pairs)),
    decreases pairs,
{
    if pairs > 0 {
        lemma_paired_distinct(tokens, (pairs - 1) as nat);
        lemma_bound_distinct(
            paired_upto(tokens, (pairs - 1) as nat),
            tokens[2 * pairs - 2],
            tokens[2 * pairs - 1],
        );
    }
}

/// Of two bindings of one name the later gives the value.
pub proof fn lemma_bound_twice(
    table: Seq<(Seq<char>, Seq<char>)>,
    name: Seq<char>,
    first: Seq<char>,
    second: Seq<char>,
)
    ensures
        bound(bound(table, name, first), name, second) == bound(table, name, second),
{
    let once = bound(table, name, first);
    if binds(table, name) {
        lemma_slot_of(table, name);
        let k0 = slot_of(table, name);
        assert(once[k0].0 == name);
        assert(first_at(once, name, k0)) by {
            assert forall|j: int| 0 <= j < k0 implies (#[trigger] once[j]).0 != name by {
                assert(once[j] == table[j]);
            }
        }
        lemma_slot_of(once, name);
        assert(once.update(k0, (name, second)) =~= table.update(k0, (name, second)));
    } else {
        let n = table.len() as int;
        assert(once[n].0 == name);
        assert(first_at(once, name, n)) by {
            assert forall|j: int| 0 <= j < n implies (#[trigger] once[j]).0 != name by {
                assert(once[j] == table[j]);
            }
        }
        lemma_slot_of(once, name);
        assert(once.update(n, (name, second)) =~= table.push((name, second)));
    }
}

/// A bound name has the value that it was bound to.
pub proof fn lemma_bound_value(
    table: Seq<(Seq<char>, Seq<char>)>,
    name: Seq<char>,
    value: Seq<char>,
)
    ensures
        binds(bound(table, name, value), name),
        bound(table, name, value)[slot_of(bound(table, name, value), name)] == (name, value),
{
    let after = bound(table, name, value);
    let k = if binds(table, name) {
        slot_of(table, name)
    } else {
        table.len() as int
    };
    if binds(table, name) {
        lemma_slot_of(table, name);
    }
    assert(after[k] == (name, value));
    assert(first_at(after, name, k)) by {
        assert forall|j: int| 0 <= j < k implies (#[trigger] after[j]).0 != name by {
            assert(after[j] == table[j]);
        }
    }
    lemma_slot_of(after, name);
}

/// A variable table: placeholder names with the text that replaces each, in
/// the order in which the names were first bound. No name occurs twice.
#[derive(Debug)]
pub struct VariableTable {
    entries: Vec<(String, String)>,
}

impl View for VariableTable {
    type V = Seq<(Seq<char>, Seq<char>)>;

    closed spec fn view(&self) -> Seq<(Seq<char>, Seq<char>)> {
        Seq::new(self.entries@.len(), |i: int| (self.entries@[i].0@, self.entries@[i].1@))
    }
}

impl VariableTable {
    /// What holds of every table: no name occurs twice. The fields are
    /// private, and each function that makes or changes a table keeps it so.
    pub open spec fn wf(&self) -> bool {
        distinct_names(self@)
    }

    /// The table without entries.
    pub fn new() -> (table: VariableTable)
        ensures
            table@ == Seq::<(Seq<char>, Seq<char>)>::empty(),
            table.wf(),
    {
        let table = VariableTable { entries: Vec::new() };
        assert(table@ =~= Seq::<(Seq<char>, Seq<char>)>::empty());
        table
    }

    /// The number of entries.
    pub fn len(&self) -> (n: usize)
        ensures
            n == self@.len(),
    {
        self.entries.len()
    }

    /// The name of entry `i`.
    pub fn name(&self, i: usize) -> (name: &String)
        requires
            i < self@.len(),
        ensures
            name@ == self@[i as int].0,
    {
        &self.entries[i].0
    }

    /// The replacement text of entry `i`.
    pub fn value(&self, i: usize) -> (value: &String)
        requires
            i < self@.len(),
        ensures
            value@ == self@[i as int].1,
    {
        &self.entries[i].1
    }

    /// The place of the entry named `name`, if the table binds it.
    pub fn find(&self, name: &String) -> (found: Option<usize>)
        ensures
            match found {
                Some(i) => binds(self@, name@) && i == slot_of(self@, name@) && first_at(
                    self@,
                    name@,
                    i as int,
                ),
                None => !binds(self@, name@),
            },
    {
        let mut i: usize = 0;
        while i < self.entries.len()
            invariant
                i <= self.entries.len(),
                forall|j: int| 0 <= j < i ==> (#[trigger] self@[j]).0 != name@,
            decreases self.entries.len() - i,
        {
            if self.entries[i].0 == *name {
                proof {
                    assert(self@[i as int].0 == name@);
                    assert(first_at(self@, name@, i as int));
                    lemma_slot_of(self@, name@);
                }
                return Some(i);
            }
            i += 1;
        }
        None
    }

    /// The replacement text bound to `name`, if any.
    pub fn get(&self, name: &String) -> (value: Option<&String>)
        ensures
            match value {
                Some(v) => binds(self@, name@) && v@ == self@[slot_of(self@, name@)].1,
                None => !binds(self@, name@),
            },
    {
        match self.find(name) {
            Some(i) => Some(&self.entries[i].1),
            None => None,
        }
    }

    /// Binds `name` to `value`. A name bound before keeps its place and takes
    /// the new value.
    pub fn insert(&mut self, name: String, value: String)
        ensures
            final(self)@ == bound(old(self)@, name@, value@),
            old(self).wf() ==> final(self).wf(),
    {
        proof {
            if self.wf() {
                lemma_bound_distinct(self@, name@, value@);
            }
        }
        let ghost before = self@;
        match self.find(&name) {
            Some(i) => {
                self.entries.set(i, (name, value));
                assert(self@ =~= before.update(i as int, (name@, value@)));
            },
            None => {
                self.entries.push((name, value));
                assert(self@ =~= before.push((name@, value@)));
            },
        }
    }

    /// The table that a list of alternating names and values makes. A list
    /// that ends in a name without a value is refused.
    pub fn from_tokens(tokens: &Vec<String>) -> (res: Result<VariableTable, HydrateError>)
        ensures
            match res {
                Ok(table) => tokens.len() % 2 == 0 && table@ == paired(tokens.deep_view())
                    && table.wf(),
                Err(e) => tokens.len() % 2 == 1 && e == HydrateError::VariableParse,
            },
    {
        if tokens.len() % 2 != 0 {
            return Err(HydrateError::VariableParse);
        }
        let pairs: usize = tokens.len() / 2;
        let mut table = VariableTable::new();
        let mut k: usize = 0;
        while k < pairs
            invariant
                k <= pairs,
                pairs == tokens.len() / 2,
                tokens.len() % 2 == 0,
                table@ == paired_upto(tokens.deep_view(), k as nat),
                table.wf(),
            decreases pairs - k,
        {
            let name = tokens[2 * k].clone();
            let value = tokens[2 * k + 1].clone();
            assert(tokens.deep_view()[2 * k] == name@);
            assert(tokens.deep_view()[2 * k + 1] == value@);
            table.insert(name, value);
            k += 1;
        }
        Ok(table)
    }
}

/// What `serde_json_wasm::from_str` makes of `text` when asked for a list of
/// strings: the strings of the JSON array that `text` is, or nothing where
/// `text` is no such array.
pub uninterp spec fn json_string_list(text: Seq<char>) -> Option<Seq<Seq<char>>>;

/// `serde_json_wasm::from_str` at the type `Vec<String>`: the list that the
/// JSON text holds, or the error that the parser gave.
#[verifier::external_body]
fn parse_string_list(text: &str) -> (res: Result<Vec<String>, serde_json_wasm::de::Error>)
    ensures
        match res {
            Ok(tokens) => json_string_list(text@) == Some(tokens.deep_view()),
            Err(_) => json_string_list(text@) is None,
        },
{
    serde_json_wasm::from_str(text)
}

/// The bindings text with both of its separators made one: every `:` is
/// written as `,`.
pub open spec fn flattened(bindings: Seq<char>) -> Seq<char> {
    replaced(bindings, seq![':'], seq![','])
}

/// The table that a bindings text stands for, or nothing where the text is
/// refused: it must be, once flattened, a JSON array of strings, and an even
/// number of them.
pub open spec fn bindings_table(bindings: Seq<char>) -> Option<Seq<(Seq<char>, Seq<char>)>> {
    match json_string_list(flattened(bindings)) {
        Some(tokens) => if tokens.len() % 2 == 0 {
            Some(paired(tokens))
        } else {
            None
        },
        None => None,
    }
}

/// Reads a bindings text such as `["name1": "value1", "name2": "value2"]`.
pub fn parse_bindings(bindings: &str) -> (res: Result<VariableTable, HydrateError>)
    ensures
        match res {
            Ok(table) => bindings_table(bindings@) == Some(table@),
            Err(e) => bindings_table(bindings@) is None && e == HydrateError::VariableParse,
        },
{
    proof {
        reveal_strlit(":");
        reveal_strlit(",");
        assert(":"@ =~= seq![':']);
        assert(","@ =~= seq![',']);
    }
    let flat = replace_all(bindings, ":", ",");
    match parse_string_list(flat.as_str()) {
        Ok(tokens) => VariableTable::from_tokens(&tokens),
        Err(_) => Err(HydrateError::VariableParse),
    }
}

} // verus!
