use template_hydrator::substitute::{replace_vars, substitute_chars};
use template_hydrator::text::{chars_of, replace_all, replace_chars, string_of};
use template_hydrator::vars::VariableTable;

fn table_of(pairs: &[(&str, &str)]) -> VariableTable {
    let mut table = VariableTable::new();
    for (name, value) in pairs {
        table.insert(name.to_string(), value.to_string());
    }
    table
}

#[test]
fn replace_all_replaces_every_occurrence() {
    assert_eq!(replace_all("a-b-c", "-", "+"), "a+b+c");
    assert_eq!(replace_all("$x and $x", "$x", "42"), "42 and 42");
    assert_eq!(replace_all("nothing here", "$x", "42"), "nothing here");
    assert_eq!(replace_all("", "$x", "42"), "");
}

#[test]
fn replace_all_takes_occurrences_from_the_left_without_overlap() {
    assert_eq!(replace_all("aaa", "aa", "b"), "ba");
    assert_eq!(replace_all("aaaa", "aa", "b"), "bb");
    assert_eq!(replace_all("ababa", "aba", "x"), "xba");
}

#[test]
fn replace_all_does_not_search_what_it_put_in() {
    assert_eq!(replace_all("ab", "a", "aa"), "aab");
    assert_eq!(replace_all("xx", "x", "xy"), "xyxy");
}

#[test]
fn replace_all_with_the_empty_pattern() {
    assert_eq!(replace_all("abc", "", "-"), "-a-b-c-");
    assert_eq!(replace_all("", "", "-"), "-");
}

#[test]
fn replace_all_regards_no_quoting_or_word_boundary() {
    assert_eq!(replace_all("{\"k\":\"pre$v.post\"}", "$v", "1"), "{\"k\":\"pre1.post\"}");
    assert_eq!(replace_all("variable1 variable10", "variable1", "X"), "X X0");
}

#[test]
fn replace_all_agrees_with_the_standard_library() {
    let texts = ["", "a", "abcabc", "aaaa", "héllo wörld héllo", "日本語日本", "a\u{1F600}b\u{1F600}"];
    let patterns = ["", "a", "bc", "aa", "é", "héllo", "日本", "\u{1F600}", "zzz"];
    let values = ["", "X", "日", "aa", "abc"];
    for text in texts {
        for pattern in patterns {
            for value in values {
                assert_eq!(replace_all(text, pattern, value), text.replace(pattern, value));
            }
        }
    }
}

#[test]
fn chars_and_strings_convert_both_ways() {
    let chars = chars_of("héllo\u{1F600}");
    assert_eq!(chars, vec!['h', 'é', 'l', 'l', 'o', '\u{1F600}']);
    assert_eq!(string_of(&chars), "héllo\u{1F600}");
    assert_eq!(string_of(&Vec::new()), "");
    assert_eq!(chars_of(""), Vec::<char>::new());
}

#[test]
fn replace_chars_works_on_characters() {
    let out = replace_chars(&chars_of("a.b.c"), &chars_of("."), &chars_of("::"));
    assert_eq!(string_of(&out), "a::b::c");
}

#[test]
fn replace_vars_applies_every_entry() {
    let table = table_of(&[("$a", "1"), ("$b", "2")]);
    assert_eq!(replace_vars("$a+$b=$a$b".to_string(), &table), "1+2=12");
}

#[test]
fn replace_vars_with_an_empty_table_changes_nothing() {
    let table = VariableTable::new();
    assert_eq!(replace_vars("$a stays".to_string(), &table), "$a stays");
}

#[test]
fn replace_vars_does_not_search_what_it_wrote() {
    // A value that is another name stays as it was written, whatever the order.
    let table = table_of(&[("$a", "$b"), ("$b", "done")]);
    assert_eq!(replace_vars("$a".to_string(), &table), "$b");
    let table = table_of(&[("$b", "done"), ("$a", "$b")]);
    assert_eq!(replace_vars("$a".to_string(), &table), "$b");
    // Each name of the text itself is still replaced.
    let table = table_of(&[("$a", "$b"), ("$b", "done")]);
    assert_eq!(replace_vars("$a $b $a".to_string(), &table), "$b done $b");
    // A second call goes on where the first stopped.
    let once = replace_vars("$a".to_string(), &table);
    assert_eq!(replace_vars(once, &table), "done");
}

#[test]
fn replace_vars_does_not_join_what_it_wrote_with_the_text() {
    // `x` is written before `y`, and the `xy` that comes of it is not taken.
    let table = table_of(&[("$a", "x"), ("xy", "joined")]);
    assert_eq!(replace_vars("$ay".to_string(), &table), "xy");
}

#[test]
fn replace_vars_takes_the_first_entry_where_names_overlap() {
    let table = table_of(&[("$a", "1"), ("$ab", "2")]);
    assert_eq!(replace_vars("$ab".to_string(), &table), "1b");
    let table = table_of(&[("$ab", "2"), ("$a", "1")]);
    assert_eq!(replace_vars("$ab".to_string(), &table), "2");
    assert_eq!(replace_vars("$a $ab".to_string(), &table), "1 2");
}

#[test]
fn replace_vars_is_one_walk_from_the_left() {
    let table = table_of(&[("aa", "x"), ("ab", "y")]);
    assert_eq!(replace_vars("aab".to_string(), &table), "xb");
    assert_eq!(replace_vars("aaab".to_string(), &table), "xy");
}

#[test]
fn replace_vars_with_one_entry_is_replace_all() {
    let texts = ["", "a", "abcabc", "aaaa", "héllo wörld héllo", "日本語日本"];
    let patterns = ["", "a", "bc", "aa", "é", "日本", "zzz"];
    let values = ["", "X", "aa", "abc"];
    for text in texts {
        for pattern in patterns {
            for value in values {
                let table = table_of(&[(pattern, value)]);
                assert_eq!(replace_vars(text.to_string(), &table), text.replace(pattern, value));
                assert_eq!(
                    replace_vars(text.to_string(), &table),
                    replace_all(text, pattern, value)
                );
            }
        }
    }
}

#[test]
fn replace_vars_with_an_empty_name() {
    // The empty name stands wherever no entry before it does, and at the end.
    let table = table_of(&[("b", "B"), ("", "-")]);
    assert_eq!(replace_vars("abc".to_string(), &table), "-aB-c-");
    let table = table_of(&[("", "-"), ("b", "B")]);
    assert_eq!(replace_vars("abc".to_string(), &table), "-a-b-c-");
}

#[test]
fn substitute_chars_works_on_characters() {
    let entries = vec![(chars_of("$x"), chars_of("é")), (chars_of("é"), chars_of("no"))];
    let out = substitute_chars(&chars_of("a$xé"), &entries);
    assert_eq!(string_of(&out), "aéno");
}

#[test]
fn replace_vars_is_idempotent_where_no_name_is_left() {
    let table = table_of(&[("$warp.var.x", "terra1"), ("$warp.var.y", "uluna")]);
    let once = replace_vars("{\"a\":\"$warp.var.x\",\"b\":\"$warp.var.y\"}".to_string(), &table);
    assert_eq!(once, "{\"a\":\"terra1\",\"b\":\"uluna\"}");
    let twice = replace_vars(once.clone(), &table);
    assert_eq!(twice, once);
}

#[test]
fn replace_vars_can_leave_a_name_behind() {
    // No value holds a name, and still a second pass finds one.
    let table = table_of(&[("ab", "")]);
    let once = replace_vars("aabb".to_string(), &table);
    assert_eq!(once, "ab");
    assert_eq!(replace_vars(once, &table), "");
}

#[test]
fn replace_vars_output_is_bounded() {
    let table = table_of(&[("x", "yyy")]);
    let text = "xaxbx";
    let out = replace_vars(text.to_string(), &table);
    assert_eq!(out, "yyyayyybyyy");
    assert!(out.chars().count() <= text.chars().count() + (text.chars().count() + 1) * 3);
}

#[test]
fn replace_vars_regards_no_order_where_no_name_begins_another() {
    let text = "{\"a\":\"$x\",\"b\":\"$y$z\",\"c\":\"$z $x\"}";
    let orders: [[(&str, &str); 3]; 6] = [
        [("$x", "1"), ("$y", "$x"), ("$z", "3")],
        [("$x", "1"), ("$z", "3"), ("$y", "$x")],
        [("$y", "$x"), ("$x", "1"), ("$z", "3")],
        [("$y", "$x"), ("$z", "3"), ("$x", "1")],
        [("$z", "3"), ("$x", "1"), ("$y", "$x")],
        [("$z", "3"), ("$y", "$x"), ("$x", "1")],
    ];
    for order in orders {
        let table = table_of(&order);
        assert_eq!(
            replace_vars(text.to_string(), &table),
            "{\"a\":\"1\",\"b\":\"$x3\",\"c\":\"3 1\"}"
        );
    }
}
