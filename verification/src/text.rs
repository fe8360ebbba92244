//! Literal replacement of one pattern in a text.
//!
//! Texts are modelled as sequences of characters. Replacement pays no regard
//! to words, quoting or any other structure of the text.

use vstd::prelude::*;

verus! {

/// `text` begins with `pattern`.
pub open spec fn starts_with(text: Seq<char>, pattern: Seq<char>) -> bool {
    pattern.len() <= text.len() && text.take(pattern.len() as int) == pattern
}

/// `pattern` stands somewhere in `text`. The empty pattern stands in every text.
pub open spec fn occurs_in(text: Seq<char>, pattern: Seq<char>) -> bool {
    exists|i: int| 0 <= i <= text.len() && #[trigger] starts_with(text.skip(i), pattern)
}

/// `text` with every occurrence of `from` replaced by `to`.
///
/// Occurrences are taken from the left and do not overlap; what a replacement
/// put in is not searched again. The empty pattern is found once before each
/// character and once at the end.
pub open spec fn replaced(text: Seq<char>, from: Seq<char>, to: Seq<char>) -> Seq<char>
    decreases text.len(),
{
    if text.len() == 0 {
        if from.len() == 0 {
            to
        } else {
            text
        }
    } else if from.len() == 0 {
        to + seq![text[0]] + replaced(text.skip(1), from, to)
    } else if starts_with(text, from) {
        to + replaced(text.skip(from.len() as int), from, to)
    } else {
        seq![text[0]] + replaced(text.skip(1), from, to)
    }
}

/// A text without any occurrence of the pattern is left as it is.
pub proof fn lemma_replaced_without_occurrence(text: Seq<char>, from: Seq<char>, to: Seq<char>)
    requires
        !occurs_in(text, from),
    ensures
        replaced(text, from, to) == text,
    decreases text.len(),
{
    assert(text.skip(0) == text);
    assert(!starts_with(text.skip(0), from));
    if text.len() == 0 {
        assert(from.len() != 0) by {
            if from.len() == 0 {
                assert(text.take(0) == from);
            }
        }
    } else {
        assert(from.len() != 0) by {
            if from.len() == 0 {
                assert(text.take(0) == from);
            }
        }
        let rest = text.skip(1);
        assert(!occurs_in(rest, from)) by {
            if occurs_in(rest, from) {
                let i = choose|i: int| 0 <= i <= rest.len() && #[trigger] starts_with(rest.skip(i), from);
                assert(rest.skip(i) == text.skip(i + 1));
                assert(starts_with(text.skip(i + 1), from));
            }
        }
        lemma_replaced_without_occurrence(rest, from, to);
        assert(seq![text[0]] + rest == text);
    }
}

/// The number of occurrences of `from` that a replacement in `text` finds.
pub open spec fn occurrences(text: Seq<char>, from: Seq<char>) -> nat
    decreases text.len(),
{
    if text.len() == 0 {
        if from.len() == 0 {
            1
        } else {
            0
        }
    } else if from.len() == 0 {
        1 + occurrences(text.skip(1), from)
    } else if starts_with(text, from) {
        1 + occurrences(text.skip(from.len() as int), from)
    } else {
        occurrences(text.skip(1), from)
    }
}

/// The length after a replacement: that of the text, less the pattern and
/// more the value for each occurrence found.
pub proof fn lemma_replaced_len(text: Seq<char>, from: Seq<char>, to: Seq<char>)
    ensures
        replaced(text, from, to).len() + occurrences(text, from) * from.len() == text.len()
            + occurrences(text, from) * to.len(),
        occurrences(text, from) <= text.len() + 1,
    decreases text.len(),
{
    let f = from.len() as int;
    let t = to.len() as int;
    let k = occurrences(text, from) as int;
    if text.len() == 0 {
        assert(k * f == 0) by (nonlinear_arith)
            requires
                k == 0 || f == 0,
        ;
        assert(k * t == if f == 0 { t } else { 0 }) by (nonlinear_arith)
            requires
                (f == 0 && k == 1) || (f != 0 && k == 0),
        ;
    } else if from.len() == 0 || starts_with(text, from) {
        let rest = if from.len() == 0 {
            text.skip(1)
        } else {
            text.skip(f)
        };
        lemma_replaced_len(rest, from, to);
        let r = occurrences(rest, from) as int;
        assert(k == r + 1);
        assert(k * f == r * f + f && k * t == r * t + t) by (nonlinear_arith)
            requires
                k == r + 1,
        ;
    } else {
        lemma_replaced_len(text.skip(1), from, to);
    }
}

/// No character of `a` is one of `b`.
pub open spec fn shares_no_char(a: Seq<char>, b: Seq<char>) -> bool {
    forall|i: int, j: int| 0 <= i < a.len() && 0 <= j < b.len() ==> a[i] != b[j]
}

/// What replacement wrote begins as the text did, as far as it holds nothing
/// of the value.
proof fn lemma_replaced_prefix(text: Seq<char>, from: Seq<char>, to: Seq<char>, prefix: Seq<char>)
    requires
        from.len() > 0,
        to.len() > 0,
        shares_no_char(prefix, to),
        starts_with(replaced(text, from, to), prefix),
    ensures
        starts_with(text, prefix),
    decreases text.len(),
{
    let out = replaced(text, from, to);
    if prefix.len() == 0 {
        assert(text.take(0) =~= prefix);
    } else if text.len() == 0 {
    } else if starts_with(text, from) {
        assert(out.take(prefix.len() as int)[0] == prefix[0]);
        assert(out[0] == to[0]);
    } else {
        let rest = text.skip(1);
        let rest_out = replaced(rest, from, to);
        let shorter = prefix.skip(1);
        assert(out.take(prefix.len() as int)[0] == prefix[0]);
        assert(rest_out.take(shorter.len() as int) =~= shorter) by {
            assert forall|k: int| 0 <= k < shorter.len() implies rest_out[k] == shorter[k] by {
                assert(out.take(prefix.len() as int)[k + 1] == prefix[k + 1]);
            }
        }
        lemma_replaced_prefix(rest, from, to, shorter);
        assert(text.take(prefix.len() as int) =~= prefix) by {
            assert forall|k: int| 0 <= k < prefix.len() implies text[k] == prefix[k] by {
                if k > 0 {
                    assert(rest.take(shorter.len() as int)[k - 1] == shorter[k - 1]);
                }
            }
        }
    }
}

/// Where the pattern and the value share no character, the replacement
/// leaves no occurrence of the pattern behind.
pub proof fn lemma_replaced_leaves_none(text: Seq<char>, from: Seq<char>, to: Seq<char>)
    requires
        from.len() > 0,
        to.len() > 0,
        shares_no_char(from, to),
    ensures
        !occurs_in(replaced(text, from, to), from),
    decreases text.len(),
{
    let out = replaced(text, from, to);
    if occurs_in(out, from) {
        let i = choose|i: int| 0 <= i <= out.len() && #[trigger] starts_with(out.skip(i), from);
        assert(out.skip(i).take(from.len() as int)[0] == from[0]);
        if text.len() == 0 {
        } else if starts_with(text, from) {
            let rest = text.skip(from.len() as int);
            let rest_out = replaced(rest, from, to);
            lemma_replaced_leaves_none(rest, from, to);
            if i < to.len() {
                assert(out[i] == to[i]);
            } else {
                assert(out.skip(i) =~= rest_out.skip(i - to.len()));
                assert(starts_with(rest_out.skip(i - to.len()), from));
            }
        } else {
            let rest = text.skip(1);
            let rest_out = replaced(rest, from, to);
            lemma_replaced_leaves_none(rest, from, to);
            if i == 0 {
                assert(out.skip(0) =~= out);
                lemma_replaced_prefix(text, from, to, from);
            } else {
                assert(out.skip(i) =~= rest_out.skip(i - 1));
                assert(starts_with(rest_out.skip(i - 1), from));
            }
        }
    }
}

/// Replacing twice gives what replacing once gives, whenever neither the
/// pattern nor the value is empty and they share no character.
pub proof fn lemma_replaced_twice(text: Seq<char>, from: Seq<char>, to: Seq<char>)
    requires
        from.len() > 0,
        to.len() > 0,
        shares_no_char(from, to),
    ensures
        replaced(replaced(text, from, to), from, to) == replaced(text, from, to),
{
    lemma_replaced_leaves_none(text, from, to);
    lemma_replaced_without_occurrence(replaced(text, from, to), from, to);
}

/// The characters of `s`, in order.
pub fn chars_of(s: &str) -> (out: Vec<char>)
    ensures
        out@ == s@,
{
    let mut out: Vec<char> = Vec::new();
    for c in it: s.chars()
        invariant
            out@ == it.seq().take(it.index() as int),
    {
        out.push(c);
    }
    out
}

/// `String::push` of std: appends one character to the end of the string.
#[verifier::external_body]
fn push_char(s: &mut String, c: char)
    ensures
        final(s)@ == old(s)@.push(c),
{
    s.push(c)
}

/// The string made of `chars`, in order.
pub fn string_of(chars: &Vec<char>) -> (out: String)
    ensures
        out@ == chars@,
{
    let mut out = String::new();
    let mut i: usize = 0;
    while i < chars.len()
        invariant
            i <= chars.len(),
            out@ == chars@.take(i as int),
        decreases chars.len() - i,
    {
        push_char(&mut out, chars[i]);
        assert(chars@.take(i as int).push(chars@[i as int]) == chars@.take(i + 1));
        i += 1;
    }
    assert(chars@.take(chars.len() as int) == chars@);
    out
}

/// Does `pattern` stand in `text` at position `at`?
pub fn matches_at(text: &Vec<char>, at: usize, pattern: &Vec<char>) -> (found: bool)
    requires
        at <= text.len(),
    ensures
        found == starts_with(text@.skip(at as int), pattern@),
{
    if pattern.len() > text.len() - at {
        return false;
    }
    let ghost tail = text@.skip(at as int);
    let mut k: usize = 0;
    while k < pattern.len()
        invariant
            k <= pattern.len(),
            at + pattern.len() <= text.len(),
            tail == text@.skip(at as int),
            forall|j: int| 0 <= j < k ==> tail[j] == pattern@[j],
        decreases pattern.len() - k,
    {
        if text[at + k] != pattern[k] {
            assert(tail.take(pattern.len() as int)[k as int] != pattern@[k as int]);
            return false;
        }
        k += 1;
    }
    assert(tail.take(pattern.len() as int) =~= pattern@);
    true
}

/// Appends the characters of `more` to `out`.
pub fn append_chars(out: &mut Vec<char>, more: &Vec<char>)
    ensures
        final(out)@ == old(out)@ + more@,
{
    let mut k: usize = 0;
    while k < more.len()
        invariant
            k <= more.len(),
            out@ == old(out)@ + more@.take(k as int),
        decreases more.len() - k,
    {
        out.push(more[k]);
        assert(more@.take(k as int).push(more@[k as int]) == more@.take(k + 1));
        k += 1;
    }
    assert(more@.take(more.len() as int) == more@);
}

/// Replaces every occurrence of `from` in `text` by `to`, on characters.
pub fn replace_chars(text: &Vec<char>, from: &Vec<char>, to: &Vec<char>) -> (out: Vec<char>)
    ensures
        out@ == replaced(text@, from@, to@),
{
    let mut out: Vec<char> = Vec::new();
    let mut i: usize = 0;
    assert(text@.skip(0) == text@);
    assert(out@ + replaced(text@, from@, to@) == replaced(text@, from@, to@));
    while i < text.len()
        invariant
            i <= text.len(),
            out@ + replaced(text@.skip(i as int), from@, to@) == replaced(text@, from@, to@),
        decreases text.len() - i,
    {
        let ghost tail = text@.skip(i as int);
        assert(tail.len() > 0 && tail[0] == text@[i as int]);
        if from.len() == 0 {
            append_chars(&mut out, to);
            out.push(text[i]);
            assert(tail.skip(1) == text@.skip(i + 1));
            i += 1;
        } else if matches_at(text, i, from) {
            append_chars(&mut out, to);
            assert(tail.skip(from.len() as int) == text@.skip(i + from.len()));
            i += from.len();
        } else {
            out.push(text[i]);
            assert(tail.skip(1) == text@.skip(i + 1));
            i += 1;
        }
    }
    assert(text@.skip(text.len() as int).len() == 0);
    if from.len() == 0 {
        append_chars(&mut out, to);
    }
    out
}

/// Replaces every occurrence of `from` in `text` by `to`.
pub fn replace_all(text: &str, from: &str, to: &str) -> (out: String)
    ensures
        out@ == replaced(text@, from@, to@),
{
    let text_chars = chars_of(text);
    let from_chars = chars_of(from);
    let to_chars = chars_of(to);
    let out_chars = replace_chars(&text_chars, &from_chars, &to_chars);
    string_of(&out_chars)
}

} // verus!
