//! Reading a WHOIS answer: free text, one field to a line, the field's label
//! differing from registry to registry.

use vstd::prelude::*;
use vstd::string::*;
use crate::text::chars_of;

verus! {

/// White space, as Unicode defines it.
pub open spec fn is_space(c: char) -> bool {
    ||| ('\t' <= c && c <= '\r')
    ||| c == ' '
    ||| c == '\u{85}'
    ||| c == '\u{a0}'
    ||| c == '\u{1680}'
    ||| ('\u{2000}' <= c && c <= '\u{200a}')
    ||| c == '\u{2028}'
    ||| c == '\u{2029}'
    ||| c == '\u{202f}'
    ||| c == '\u{205f}'
    ||| c == '\u{3000}'
}

/// `s` without the white space it starts with.
pub open spec fn trim_start(s: Seq<char>) -> Seq<char>
    decreases s.len(),
{
    if s.len() > 0 && is_space(s[0]) {
        trim_start(s.drop_first())
    } else {
        s
    }
}

/// `s` without the white space it ends with.
pub open spec fn trim_end(s: Seq<char>) -> Seq<char>
    decreases s.len(),
{
    if s.len() > 0 && is_space(s.last()) {
        trim_end(s.drop_last())
    } else {
        s
    }
}

/// `s` without the white space around it.
pub open spec fn trim(s: Seq<char>) -> Seq<char> {
    trim_end(trim_start(s))
}

/// How many characters stand before the first line feed of `t`.
pub open spec fn first_line_len(t: Seq<char>) -> nat
    decreases t.len(),
{
    if t.len() == 0 || t[0] == '\n' {
        0
    } else {
        1 + first_line_len(t.drop_first())
    }
}

/// The lines of `t`: the stretches between its line feeds. A line feed at the
/// very end starts no further line.
pub open spec fn lines(t: Seq<char>) -> Seq<Seq<char>>
    decreases t.len(),
{
    let k = first_line_len(t) as int;
    if t.len() == 0 {
        Seq::empty()
    } else if k >= t.len() {
        seq![t]
    } else {
        seq![t.take(k)] + lines(t.skip(k + 1))
    }
}

/// What a line says under `label`: where the line, trimmed, starts with the
/// label, the rest of it, trimmed.
pub open spec fn line_value(line: Seq<char>, label: Seq<char>) -> Option<Seq<char>> {
    let t = trim(line);
    if label.is_prefix_of(t) {
        Some(trim(t.skip(label.len() as int)))
    } else {
        None
    }
}

/// What a line says under either of two labels.
pub open spec fn labelled_value(line: Seq<char>, first: Seq<char>, second: Seq<char>) -> Option<
    Seq<char>,
> {
    match line_value(line, first) {
        Some(v) => Some(v),
        None => line_value(line, second),
    }
}

/// The value of the first line that carries one of the two labels; empty
/// where no line does.
pub open spec fn first_value(text_lines: Seq<Seq<char>>, first: Seq<char>, second: Seq<char>) -> Seq<
    char,
>
    decreases text_lines.len(),
{
    if text_lines.len() == 0 {
        Seq::empty()
    } else {
        match labelled_value(text_lines[0], first, second) {
            Some(v) => v,
            None => first_value(text_lines.drop_first(), first, second),
        }
    }
}

/// The expiration date that a WHOIS answer states.
pub open spec fn expiration_of(text: Seq<char>) -> Seq<char> {
    first_value(lines(text), "Registry Expiry Date:"@, "Expires On:"@)
}

/// The registrar that a WHOIS answer states.
pub open spec fn registrar_of(text: Seq<char>) -> Seq<char> {
    first_value(lines(text), "Registrar:"@, "Name:"@)
}

/// A text none of whose lines carries either label yields the empty value.
pub proof fn lemma_unlabelled_text_is_empty(
    text_lines: Seq<Seq<char>>,
    first: Seq<char>,
    second: Seq<char>,
)
    requires
        forall|i: int|
            0 <= i < text_lines.len() ==> (#[trigger] labelled_value(text_lines[i], first, second))
                is None,
    ensures
        first_value(text_lines, first, second) == Seq::<char>::empty(),
    decreases text_lines.len(),
{
    if text_lines.len() > 0 {
        let rest = text_lines.drop_first();
        assert forall|i: int| 0 <= i < rest.len() implies (#[trigger] labelled_value(
            rest[i],
            first,
            second,
        )) is None by {
            assert(rest[i] == text_lines[i + 1]);
        }
        lemma_unlabelled_text_is_empty(rest, first, second);
    }
}

/// `label` stands somewhere in `text`.
pub open spec fn occurs_in(label: Seq<char>, text: Seq<char>) -> bool {
    exists|at: int|
        0 <= at && at + label.len() <= text.len() && #[trigger] text.subrange(
            at,
            at + label.len(),
        ) == label
}

/// What trimming leaves is a part of what it was given.
pub proof fn lemma_trim_is_part(s: Seq<char>)
    ensures
        exists|a: int, b: int| 0 <= a <= b <= s.len() && trim(s) == #[trigger] s.subrange(a, b),
{
    lemma_trim_start_is_tail(s);
    let a = choose|a: int| 0 <= a <= s.len() && trim_start(s) == #[trigger] s.skip(a);
    let rest = s.skip(a);
    lemma_trim_end_is_head(rest);
    let b = choose|b: int| 0 <= b <= rest.len() && trim_end(rest) == #[trigger] rest.take(b);
    assert(rest.take(b) =~= s.subrange(a, a + b));
}

/// What `trim_start` leaves is the end of what it was given.
pub proof fn lemma_trim_start_is_tail(s: Seq<char>)
    ensures
        exists|a: int| 0 <= a <= s.len() && trim_start(s) == #[trigger] s.skip(a),
    decreases s.len(),
{
    if s.len() > 0 && is_space(s[0]) {
        let rest = s.drop_first();
        lemma_trim_start_is_tail(rest);
        let a = choose|a: int| 0 <= a <= rest.len() && trim_start(rest) == #[trigger] rest.skip(a);
        assert(rest.skip(a) =~= s.skip(a + 1));
    } else {
        assert(s =~= s.skip(0));
    }
}

/// What `trim_end` leaves is the start of what it was given.
pub proof fn lemma_trim_end_is_head(s: Seq<char>)
    ensures
        exists|b: int| 0 <= b <= s.len() && trim_end(s) == #[trigger] s.take(b),
    decreases s.len(),
{
    if s.len() > 0 && is_space(s.last()) {
        let rest = s.drop_last();
        lemma_trim_end_is_head(rest);
        let b = choose|b: int| 0 <= b <= rest.len() && trim_end(rest) == #[trigger] rest.take(b);
        assert(rest.take(b) =~= s.take(b));
    } else {
        assert(s =~= s.take(s.len() as int));
    }
}

/// The first line is no longer than the text.
pub proof fn lemma_first_line_len_bound(t: Seq<char>)
    ensures
        first_line_len(t) <= t.len(),
    decreases t.len(),
{
    if t.len() > 0 && t[0] != '\n' {
        lemma_first_line_len_bound(t.drop_first());
    }
}

/// Every line of a text is a part of the text.
pub proof fn lemma_line_is_part(t: Seq<char>, i: int)
    requires
        0 <= i < lines(t).len(),
    ensures
        exists|a: int, b: int| 0 <= a <= b <= t.len() && lines(t)[i] == #[trigger] t.subrange(a, b),
    decreases t.len(),
{
    let k = first_line_len(t) as int;
    lemma_first_line_len_bound(t);
    if i == 0 {
        assert(t.take(k) =~= t.subrange(0, k));
        assert(t =~= t.subrange(0, t.len() as int));
    } else {
        let rest = t.skip(k + 1);
        assert(lines(t)[i] == lines(rest)[i - 1]);
        lemma_line_is_part(rest, i - 1);
        let (a, b) = choose|a: int, b: int|
            0 <= a <= b <= rest.len() && lines(rest)[i - 1] == #[trigger] rest.subrange(a, b);
        assert(rest.subrange(a, b) =~= t.subrange(k + 1 + a, k + 1 + b));
    }
}

/// A line carries a label only where the label stands in the line.
pub proof fn lemma_label_occurs(line: Seq<char>, label: Seq<char>)
    requires
        line_value(line, label) is Some,
    ensures
        occurs_in(label, line),
{
    lemma_trim_is_part(line);
    let (a, b) = choose|a: int, b: int|
        0 <= a <= b <= line.len() && trim(line) == #[trigger] line.subrange(a, b);
    assert(line.subrange(a, b).subrange(0, label.len() as int) =~= line.subrange(
        a,
        a + label.len(),
    ));
}

/// A text in which neither label stands anywhere yields the empty value.
pub proof fn lemma_text_without_labels_is_empty(text: Seq<char>, first: Seq<char>, second: Seq<char>)
    requires
        !occurs_in(first, text),
        !occurs_in(second, text),
    ensures
        first_value(lines(text), first, second) == Seq::<char>::empty(),
{
    let text_lines = lines(text);
    assert forall|i: int| 0 <= i < text_lines.len() implies (#[trigger] labelled_value(
        text_lines[i],
        first,
        second,
    )) is None by {
        lemma_line_is_part(text, i);
        let (a, b) = choose|a: int, b: int|
            0 <= a <= b <= text.len() && text_lines[i] == #[trigger] text.subrange(a, b);
        let line = text.subrange(a, b);
        if line_value(line, first) is Some {
            lemma_label_occurs(line, first);
            let at = choose|at: int|
                0 <= at && at + first.len() <= line.len() && #[trigger] line.subrange(
                    at,
                    at + first.len(),
                ) == first;
            assert(line.subrange(at, at + first.len()) =~= text.subrange(
                a + at,
                a + at + first.len(),
            ));
        }
        if line_value(line, second) is Some {
            lemma_label_occurs(line, second);
            let at = choose|at: int|
                0 <= at && at + second.len() <= line.len() && #[trigger] line.subrange(
                    at,
                    at + second.len(),
                ) == second;
            assert(line.subrange(at, at + second.len()) =~= text.subrange(
                a + at,
                a + at + second.len(),
            ));
        }
    }
    lemma_unlabelled_text_is_empty(text_lines, first, second);
}

/// Whether a character is white space.
pub fn is_space_char(c: char) -> (r: bool)
    ensures
        r == is_space(c),
{
    ('\t' <= c && c <= '\r') || c == ' ' || c == '\u{85}' || c == '\u{a0}' || c == '\u{1680}' || (
    '\u{2000}' <= c && c <= '\u{200a}') || c == '\u{2028}' || c == '\u{2029}' || c == '\u{202f}'
        || c == '\u{205f}' || c == '\u{3000}'
}

/// Where the line that starts at `start` ends: at the next line feed, or at
/// the end of the text.
pub fn line_end(t: &Vec<char>, start: usize) -> (end: usize)
    requires
        start <= t.len(),
    ensures
        start <= end <= t.len(),
        end - start == first_line_len(t@.skip(start as int)),
{
    let mut e: usize = start;
    while e < t.len() && t[e] != '\n'
        invariant
            start <= e <= t.len(),
            first_line_len(t@.skip(start as int)) == (e - start) + first_line_len(
                t@.skip(e as int),
            ),
        decreases t.len() - e,
    {
        assert(t@.skip(e as int).drop_first() =~= t@.skip(e + 1));
        e = e + 1;
    }
    e
}

/// The bounds of the stretch from `a` to `b`, trimmed.
pub fn trim_bounds(t: &Vec<char>, a: usize, b: usize) -> (r: (usize, usize))
    requires
        a <= b <= t.len(),
    ensures
        a <= r.0 <= r.1 <= b,
        t@.subrange(r.0 as int, r.1 as int) == trim(t@.subrange(a as int, b as int)),
{
    let mut x: usize = a;
    while x < b && is_space_char(t[x])
        invariant
            a <= x <= b <= t.len(),
            trim_start(t@.subrange(a as int, b as int)) == trim_start(
                t@.subrange(x as int, b as int),
            ),
        decreases b - x,
    {
        assert(t@.subrange(x as int, b as int).drop_first() =~= t@.subrange(x + 1, b as int));
        x = x + 1;
    }
    let mut y: usize = b;
    while y > x && is_space_char(t[y - 1])
        invariant
            x <= y <= b <= t.len(),
            trim_end(t@.subrange(x as int, b as int)) == trim_end(t@.subrange(x as int, y as int)),
        decreases y,
    {
        assert(t@.subrange(x as int, y as int).drop_last() =~= t@.subrange(x as int, y - 1));
        y = y - 1;
    }
    (x, y)
}

/// Whether the stretch from `a` to `b` starts with `label`.
pub fn starts_with_at(t: &Vec<char>, a: usize, b: usize, label: &Vec<char>) -> (r: bool)
    requires
        a <= b <= t.len(),
    ensures
        r == label@.is_prefix_of(t@.subrange(a as int, b as int)),
{
    if label.len() > b - a {
        return false;
    }
    let ghost line = t@.subrange(a as int, b as int);
    let mut i: usize = 0;
    while i < label.len()
        invariant
            i <= label.len() <= b - a,
            a <= b <= t.len(),
            line == t@.subrange(a as int, b as int),
            forall|j: int| 0 <= j < i ==> label@[j] == line[j],
        decreases label.len() - i,
    {
        if label[i] != t[a + i] {
            assert(line.subrange(0, label@.len() as int)[i as int] == line[i as int]);
            return false;
        }
        i = i + 1;
    }
    assert(label@ =~= line.subrange(0, label@.len() as int));
    true
}

/// The bounds of what the line from `a` to `b` says under `label`, if it
/// carries that label.
pub fn value_bounds(t: &Vec<char>, a: usize, b: usize, label: &Vec<char>) -> (r: Option<
    (usize, usize),
>)
    requires
        a <= b <= t.len(),
    ensures
        match r {
            Some((x, y)) => x <= y <= t.len() && line_value(
                t@.subrange(a as int, b as int),
                label@,
            ) == Some(t@.subrange(x as int, y as int)),
            None => line_value(t@.subrange(a as int, b as int), label@) is None,
        },
{
    let (x, y) = trim_bounds(t, a, b);
    if starts_with_at(t, x, y, label) {
        assert(t@.subrange(x as int, y as int).skip(label@.len() as int) =~= t@.subrange(
            x + label@.len(),
            y as int,
        ));
        let v = trim_bounds(t, x + label.len(), y);
        Some(v)
    } else {
        None
    }
}

/// The bounds of the value of the first line of `t` that carries one of the
/// two labels; an empty stretch where no line does.
pub fn find_value(t: &Vec<char>, first: &Vec<char>, second: &Vec<char>) -> (r: (usize, usize))
    ensures
        r.0 <= r.1 <= t.len(),
        t@.subrange(r.0 as int, r.1 as int) == first_value(lines(t@), first@, second@),
{
    let mut pos: usize = 0;
    assert(t@.skip(0) =~= t@);
    while pos < t.len()
        invariant
            pos <= t.len(),
            first_value(lines(t@), first@, second@) == first_value(
                lines(t@.skip(pos as int)),
                first@,
                second@,
            ),
        decreases t.len() - pos,
    {
        let end = line_end(t, pos);
        let ghost rest = t@.skip(pos as int);
        let ghost k = end - pos;
        proof {
            assert(t@.subrange(pos as int, end as int) =~= rest.take(k));
            if end < t.len() {
                assert(rest.skip(k + 1) =~= t@.skip(end + 1));
                assert(lines(rest).drop_first() =~= lines(rest.skip(k + 1)));
            } else {
                assert(rest.take(k) =~= rest);
                assert(lines(rest).drop_first() =~= Seq::<Seq<char>>::empty());
                assert(t@.skip(t@.len() as int).len() == 0);
            }
            assert(lines(rest)[0] == t@.subrange(pos as int, end as int));
        }
        match value_bounds(t, pos, end, first) {
            Some(v) => {
                return v;
            },
            None => {},
        }
        match value_bounds(t, pos, end, second) {
            Some(v) => {
                return v;
            },
            None => {},
        }
        if end < t.len() {
            pos = end + 1;
        } else {
            pos = end;
        }
    }
    assert(t@.subrange(0, 0) =~= Seq::<char>::empty());
    (0, 0)
}

/// The value that `text` states under one of two labels: that of the first
/// line that carries either; empty where none does.
pub fn labelled_field(text: &str, first: &str, second: &str) -> (value: String)
    ensures
        value@ == first_value(lines(text@), first@, second@),
{
    let t = chars_of(text);
    let l1 = chars_of(first);
    let l2 = chars_of(second);
    let (x, y) = find_value(&t, &l1, &l2);
    String::from_str(text.substring_char(x, y))
}

/// The expiration date that a WHOIS answer states: what follows
/// `Registry Expiry Date:` or `Expires On:` on the first line that starts
/// with either; empty where no line does.
pub fn parse_expiration(text: &str) -> (value: String)
    ensures
        value@ == expiration_of(text@),
{
    labelled_field(text, "Registry Expiry Date:", "Expires On:")
}

/// The registrar that a WHOIS answer states: what follows `Registrar:` or
/// `Name:` on the first line that starts with either; empty where no line
/// does.
pub fn parse_registrar(text: &str) -> (value: String)
    ensures
        value@ == registrar_of(text@),
{
    labelled_field(text, "Registrar:", "Name:")
}

} // verus!
