//! Character-level string operations.

use vstd::prelude::*;

verus! {

/// Code-point lexicographic order on character sequences.
pub open spec fn precedes(a: Seq<char>, b: Seq<char>) -> bool
    decreases a.len(),
{
    if b.len() == 0 {
        false
    } else if a.len() == 0 {
        true
    } else if a[0] == b[0] {
        precedes(a.drop_first(), b.drop_first())
    } else {
        a[0] < b[0]
    }
}

/// No sequence precedes itself.
pub proof fn lemma_precedes_irreflexive(a: Seq<char>)
    ensures
        !precedes(a, a),
    decreases a.len(),
{
    if a.len() > 0 {
        lemma_precedes_irreflexive(a.drop_first());
    }
}

/// The order is transitive.
pub proof fn lemma_precedes_transitive(a: Seq<char>, b: Seq<char>, c: Seq<char>)
    requires
        precedes(a, b),
        precedes(b, c),
    ensures
        precedes(a, c),
    decreases a.len(),
{
    if a.len() > 0 {
        if a[0] == b[0] && b[0] == c[0] {
            lemma_precedes_transitive(a.drop_first(), b.drop_first(), c.drop_first());
        }
    }
}

/// Two different sequences are ordered one way or the other.
pub proof fn lemma_precedes_total(a: Seq<char>, b: Seq<char>)
    ensures
        a == b || precedes(a, b) || precedes(b, a),
    decreases a.len(),
{
    if a.len() == 0 || b.len() == 0 {
        if a.len() == 0 && b.len() == 0 {
            assert(a =~= b);
        }
    } else if a[0] == b[0] {
        lemma_precedes_total(a.drop_first(), b.drop_first());
        if a.drop_first() == b.drop_first() {
            assert(a =~= seq![a[0]] + a.drop_first());
            assert(b =~= seq![b[0]] + b.drop_first());
        }
    }
}

/// Returns the characters of `text` in order.
pub fn characters(text: &str) -> (result: Vec<char>)
    ensures
        result@ == text@,
{
    let mut result: Vec<char> = Vec::new();
    for c in iter: text.chars()
        invariant
            iter.seq() == text@,
            result@ == text@.take(iter.index() as int),
    {
        result.push(c);
        assert(text@.take(iter.index() as int).push(c) =~= text@.take(iter.index() as int + 1));
    }
    assert(text@.take(text@.len() as int) =~= text@);
    result
}

/// The number of bytes of a string's UTF-8 form.
pub open spec fn byte_count(text: Seq<char>) -> nat {
    vstd::utf8::encode_utf8(text).len()
}

/// Returns the number of bytes of a string's UTF-8 form.
pub fn byte_len(text: &str) -> (result: usize)
    ensures
        result == byte_count(text@),
{
    text.as_bytes().len()
}

/// How one string compares to another.
#[derive(Clone, Copy, Debug, PartialEq, Eq, Structural)]
pub enum Order {
    /// The first string comes first.
    Before,
    /// Both strings hold the same characters.
    Same,
    /// The second string comes first.
    After,
}

/// Compares two strings by code point.
pub fn compare(a: &str, b: &str) -> (result: Order)
    ensures
        result == (if a@ == b@ {
            Order::Same
        } else if precedes(a@, b@) {
            Order::Before
        } else {
            Order::After
        }),
{
    let mut left = a.chars();
    let mut right = b.chars();
    let ghost mut n: int = 0;
    assert(a@.skip(0) =~= a@);
    assert(b@.skip(0) =~= b@);
    loop
        invariant
            vstd::std_specs::iter::IteratorSpec::obeys_prophetic_iter_laws(&left),
            vstd::std_specs::iter::IteratorSpec::obeys_prophetic_iter_laws(&right),
            0 <= n <= a@.len(),
            n <= b@.len(),
            vstd::std_specs::iter::IteratorSpec::remaining(&left) == a@.skip(n),
            vstd::std_specs::iter::IteratorSpec::remaining(&right) == b@.skip(n),
            a@.take(n) == b@.take(n),
            precedes(a@, b@) == precedes(a@.skip(n), b@.skip(n)),
        decreases a@.len() - n,
    {
        match (left.next(), right.next()) {
            (None, None) => {
                assert(a@.take(n) =~= a@);
                assert(b@.take(n) =~= b@);
                return Order::Same;
            },
            (None, Some(_)) => {
                return Order::Before;
            },
            (Some(_), None) => {
                return Order::After;
            },
            (Some(x), Some(y)) => {
                if x < y {
                    return Order::Before;
                }
                if y < x {
                    return Order::After;
                }
                proof {
                    assert(a@.skip(n).drop_first() =~= a@.skip(n + 1));
                    assert(b@.skip(n).drop_first() =~= b@.skip(n + 1));
                    assert(a@.take(n + 1) =~= a@.take(n).push(x));
                    assert(b@.take(n + 1) =~= b@.take(n).push(y));
                    n = n + 1;
                }
            },
        }
    }
}

/// `String::push`: afterwards the string holds its former characters followed by `c`.
pub assume_specification[ String::push ](s: &mut String, c: char)
    ensures
        final(s)@ == old(s)@.push(c),
;

/// `String::pop`: takes the last character off, if there is one, and returns it.
pub assume_specification[ String::pop ](s: &mut String) -> (result: Option<char>)
    ensures
        old(s)@.len() > 0 ==> {
            &&& result == Some(old(s)@.last())
            &&& final(s)@ == old(s)@.drop_last()
        },
        old(s)@.len() == 0 ==> result is None && final(s)@ == old(s)@,
;

/// Builds a string from the characters at positions `from` up to `to`.
pub fn from_characters(chars: &Vec<char>, from: usize, to: usize) -> (result: String)
    requires
        from <= to <= chars@.len(),
    ensures
        result@ == chars@.subrange(from as int, to as int),
{
    let mut result = String::new();
    let mut i: usize = from;
    while i < to
        invariant
            from <= i <= to <= chars@.len(),
            result@ == chars@.subrange(from as int, i as int),
        decreases to - i,
    {
        result.push(chars[i]);
        assert(chars@.subrange(from as int, i + 1) =~= chars@.subrange(from as int, i as int).push(
            chars@[i as int],
        ));
        i = i + 1;
    }
    result
}

/// Concatenates two strings.
pub fn cat2(a: &str, b: &str) -> (result: String)
    ensures
        result@ == a@ + b@,
{
    let mut result = a.to_owned();
    result.append(b);
    result
}

/// Concatenates three strings.
pub fn cat3(a: &str, b: &str, c: &str) -> (result: String)
    ensures
        result@ == a@ + b@ + c@,
{
    let mut result = cat2(a, b);
    result.append(c);
    result
}

/// Concatenates four strings.
pub fn cat4(a: &str, b: &str, c: &str, d: &str) -> (result: String)
    ensures
        result@ == a@ + b@ + c@ + d@,
{
    let mut result = cat3(a, b, c);
    result.append(d);
    result
}

/// Concatenates five strings.
pub fn cat5(a: &str, b: &str, c: &str, d: &str, e: &str) -> (result: String)
    ensures
        result@ == a@ + b@ + c@ + d@ + e@,
{
    let mut result = cat4(a, b, c, d);
    result.append(e);
    result
}

/// Concatenates six strings.
pub fn cat6(a: &str, b: &str, c: &str, d: &str, e: &str, f: &str) -> (result: String)
    ensures
        result@ == a@ + b@ + c@ + d@ + e@ + f@,
{
    let mut result = cat5(a, b, c, d, e);
    result.append(f);
    result
}

/// The decimal digit for a number below ten.
pub open spec fn digit(n: int) -> char {
    (48 + n) as char
}

/// A number written in decimal without leading zeros.
pub open spec fn decimal_text(n: nat) -> Seq<char>
    decreases n,
{
    if n < 10 {
        seq![digit(n as int)]
    } else {
        decimal_text(n / 10).push(digit((n % 10) as int))
    }
}

/// Writes a number in decimal.
pub fn decimal(n: u128) -> (result: String)
    ensures
        result@ == decimal_text(n as nat),
    decreases n,
{
    let mut result = if n < 10 {
        String::new()
    } else {
        decimal(n / 10)
    };
    let last: u8 = (n % 10) as u8;
    result.push((48 + last) as char);
    assert(result@ =~= decimal_text(n as nat));
    result
}

/// A signed number written in decimal.
pub open spec fn signed_text(n: int) -> Seq<char> {
    if n < 0 {
        "-"@ + decimal_text((-n) as nat)
    } else {
        decimal_text(n as nat)
    }
}

/// Writes a signed number in decimal.
pub fn signed(n: i32) -> (result: String)
    ensures
        result@ == signed_text(n as int),
{
    let wide: i64 = n as i64;
    if wide < 0 {
        cat2("-", decimal((-wide) as u128).as_str())
    } else {
        decimal(wide as u128)
    }
}

/// Strings written one after another with a separator between them.
pub open spec fn joined(parts: Seq<Seq<char>>, separator: Seq<char>) -> Seq<char>
    decreases parts.len(),
{
    if parts.len() == 0 {
        Seq::empty()
    } else if parts.len() == 1 {
        parts[0]
    } else {
        joined(parts.drop_last(), separator) + separator + parts.last()
    }
}

/// Joins strings with a separator.
pub fn join(parts: &Vec<String>, separator: &str) -> (result: String)
    ensures
        result@ == joined(parts.deep_view(), separator@),
{
    let mut result = String::new();
    let ghost all = parts.deep_view();
    let mut i: usize = 0;
    while i < parts.len()
        invariant
            all == parts.deep_view(),
            i <= parts@.len(),
            result@ == joined(all.take(i as int), separator@),
        decreases parts@.len() - i,
    {
        let ghost before = all.take(i as int);
        proof {
            assert(all.take(i + 1).drop_last() =~= before);
            assert(all.take(i + 1).last() == parts@[i as int]@);
        }
        if i > 0 {
            result.append(separator);
        }
        result.append(parts[i].as_str());
        proof {
            if i == 0 {
                assert(result@ =~= all.take(1)[0]);
            }
        }
        i = i + 1;
    }
    assert(all.take(parts@.len() as int) =~= all);
    result
}

/// Returns a copy of a list of strings.
pub fn copy_list(list: &Vec<String>) -> (result: Vec<String>)
    ensures
        result.deep_view() == list.deep_view(),
{
    let mut result: Vec<String> = Vec::new();
    let mut i: usize = 0;
    while i < list.len()
        invariant
            i <= list@.len(),
            result@.len() == i,
            forall|j: int| 0 <= j < i ==> (#[trigger] result@[j])@ == list@[j]@,
        decreases list@.len() - i,
    {
        result.push(list[i].clone());
        i = i + 1;
    }
    assert(result.deep_view() =~= list.deep_view());
    result
}

/// Returns where `c` first occurs in `chars`.
pub fn find(chars: &Vec<char>, c: char) -> (result: Option<usize>)
    ensures
        match result {
            Some(i) => {
                &&& i < chars@.len()
                &&& chars@[i as int] == c
                &&& !chars@.take(i as int).contains(c)
            },
            None => !chars@.contains(c),
        },
{
    let mut i: usize = 0;
    while i < chars.len()
        invariant
            i <= chars@.len(),
            forall|j: int| 0 <= j < i ==> chars@[j] != c,
        decreases chars@.len() - i,
    {
        if chars[i] == c {
            return Some(i);
        }
        i = i + 1;
    }
    None
}

/// `text` starts with `prefix`.
pub open spec fn starts(text: Seq<char>, prefix: Seq<char>) -> bool {
    prefix.len() <= text.len() && text.take(prefix.len() as int) == prefix
}

/// `text` ends with `suffix`.
pub open spec fn ends(text: Seq<char>, suffix: Seq<char>) -> bool {
    suffix.len() <= text.len() && text.skip(text.len() - suffix.len()) == suffix
}

/// `pattern` occurs in `text`.
pub open spec fn occurs(text: Seq<char>, pattern: Seq<char>) -> bool {
    exists|i: int| 0 <= i <= text.len() && starts(#[trigger] text.skip(i), pattern)
}

/// Reports whether `pattern` stands at position `at` of `text`.
pub(crate) fn matches_at(text: &Vec<char>, pattern: &Vec<char>, at: usize) -> (result: bool)
    requires
        at <= text@.len(),
    ensures
        result == starts(text@.skip(at as int), pattern@),
{
    let size = text.len();
    if pattern.len() > size - at {
        return false;
    }
    let mut i: usize = 0;
    while i < pattern.len()
        invariant
            size == text@.len(),
            at <= size,
            pattern@.len() <= text@.len() - at,
            i <= pattern@.len(),
            forall|j: int| 0 <= j < i ==> text@[at + j] == pattern@[j],
        decreases pattern@.len() - i,
    {
        if text[at + i] != pattern[i] {
            proof {
                let head = text@.skip(at as int).take(pattern@.len() as int);
                assert(head[i as int] != pattern@[i as int]);
            }
            return false;
        }
        i = i + 1;
    }
    assert(text@.skip(at as int).take(pattern@.len() as int) =~= pattern@);
    true
}

/// Reports whether `text` starts with `prefix`.
pub fn starts_with(text: &str, prefix: &str) -> (result: bool)
    ensures
        result == starts(text@, prefix@),
{
    assert(text@.skip(0) =~= text@);
    matches_at(&characters(text), &characters(prefix), 0)
}

/// Reports whether `text` ends with `suffix`.
pub fn ends_with(text: &str, suffix: &str) -> (result: bool)
    ensures
        result == ends(text@, suffix@),
{
    let chars = characters(text);
    let tail = characters(suffix);
    if tail.len() > chars.len() {
        return false;
    }
    proof {
        let end = text@.skip(text@.len() - suffix@.len());
        assert(end.take(suffix@.len() as int) =~= end);
    }
    matches_at(&chars, &tail, chars.len() - tail.len())
}

/// Reports whether `pattern` occurs in `text`.
pub fn contains(text: &str, pattern: &str) -> (result: bool)
    ensures
        result == occurs(text@, pattern@),
{
    let chars = characters(text);
    let wanted = characters(pattern);
    let mut i: usize = 0;
    while i < chars.len()
        invariant
            chars@ == text@,
            wanted@ == pattern@,
            i <= chars@.len(),
            forall|j: int| 0 <= j < i ==> !starts(#[trigger] text@.skip(j), pattern@),
        decreases chars@.len() - i,
    {
        if matches_at(&chars, &wanted, i) {
            return true;
        }
        i = i + 1;
    }
    let result = matches_at(&chars, &wanted, i);
    assert(result == starts(text@.skip(i as int), pattern@));
    result
}

/// Reports whether `c` occurs in `text`.
pub fn contains_character(text: &str, c: char) -> (result: bool)
    ensures
        result == text@.contains(c),
{
    find(&characters(text), c).is_some()
}

/// Reports whether two strings hold the same characters.
pub fn same(a: &str, b: &str) -> (result: bool)
    ensures
        result == (a@ == b@),
{
    match compare(a, b) {
        Order::Same => true,
        _ => false,
    }
}

/// The lowercase form of a string, as `str::to_lowercase` gives it.
pub uninterp spec fn lowercased(s: Seq<char>) -> Seq<char>;

/// `str::to_lowercase`: the lowercase form of the string by the Unicode tables, whatever the
/// locale. It is made of the lowercase forms of the string's characters, so that of the empty
/// string is empty.
#[verifier::external_body]
pub(crate) fn lowercase(s: &str) -> (result: String)
    ensures
        result@ == lowercased(s@),
        s@.len() == 0 ==> result@.len() == 0,
{
    s.to_lowercase()
}

/// The position of the first line end from `from` on, or the end of the text.
pub open spec fn line_break(text: Seq<char>, from: int) -> int
    decreases text.len() - from,
{
    if from >= text.len() {
        text.len() as int
    } else if text[from] == '\n' {
        from
    } else {
        line_break(text, from + 1)
    }
}

/// The lines from position `from` on, without their ends.
pub open spec fn lines_from(text: Seq<char>, from: int) -> Seq<Seq<char>>
    decreases text.len() + 1 - from,
{
    if from >= text.len() {
        Seq::empty()
    } else {
        proof {
            lemma_line_break(text, from);
        }
        let end = line_break(text, from);
        seq![text.subrange(from, end)] + lines_from(text, end + 1)
    }
}

/// A line break is not before its start.
pub proof fn lemma_line_break(text: Seq<char>, from: int)
    ensures
        from <= text.len() ==> from <= line_break(text, from) <= text.len(),
    decreases text.len() - from,
{
    if from < text.len() && text[from] != '\n' {
        lemma_line_break(text, from + 1);
    }
}

/// A line stands in its text.
pub proof fn lemma_line_within(text: Seq<char>, from: int, i: int) -> (at: int)
    requires
        0 <= from,
        0 <= i < lines_from(text, from).len(),
    ensures
        0 <= at <= text.len(),
        starts(text.skip(at), lines_from(text, from)[i]),
    decreases i,
{
    lemma_line_break(text, from);
    let end = line_break(text, from);
    if i == 0 {
        let line = text.subrange(from, end);
        assert(text.skip(from).take(line.len() as int) =~= line);
        from
    } else {
        assert(lines_from(text, from)[i] == lines_from(text, end + 1)[i - 1]);
        lemma_line_within(text, end + 1, i - 1)
    }
}

/// What occurs in a part of a text occurs in the text.
pub proof fn lemma_occurs_in_part(text: Seq<char>, at: int, part: Seq<char>, pattern: Seq<char>)
    requires
        0 <= at <= text.len(),
        starts(text.skip(at), part),
        occurs(part, pattern),
    ensures
        occurs(text, pattern),
{
    let i = choose|i: int| 0 <= i <= part.len() && starts(#[trigger] part.skip(i), pattern);
    let size = pattern.len() as int;
    assert(text.skip(at).take(part.len() as int) == part);
    assert forall|j: int| 0 <= j < size implies text.skip(at + i).take(size)[j] == #[trigger]
        pattern[j] by {
        assert(part.skip(i).take(size)[j] == pattern[j]);
        assert(text.skip(at).take(part.len() as int)[i + j] == part[i + j]);
    }
    assert(text.skip(at + i).take(size) =~= pattern);
    assert(starts(text.skip(at + i), pattern));
}

/// Splits a text into lines.
pub fn lines(text: &str) -> (result: Vec<String>)
    ensures
        result.deep_view() == lines_from(text@, 0),
{
    let chars = characters(text);
    let size = chars.len();
    let mut result: Vec<String> = Vec::new();
    let mut i: usize = 0;
    assert(result.deep_view() + lines_from(text@, 0) =~= lines_from(text@, 0));
    while i < size
        invariant
            chars@ == text@,
            size == chars@.len(),
            i <= size,
            result.deep_view() + lines_from(text@, i as int) == lines_from(text@, 0),
        decreases size - i,
    {
        let mut end: usize = i;
        while end < size && chars[end] != '\n'
            invariant
                chars@ == text@,
                size == chars@.len(),
                i <= end <= size,
                line_break(text@, end as int) == line_break(text@, i as int),
            decreases size - end,
        {
            end = end + 1;
        }
        let ghost before = result.deep_view();
        let line = from_characters(&chars, i, end);
        result.push(line);
        proof {
            assert(result.deep_view() =~= before.push(line@));
            assert(before + lines_from(text@, i as int) =~= result.deep_view() + lines_from(
                text@,
                end + 1,
            ));
        }
        if end == size {
            assert(result.deep_view() + lines_from(text@, end + 1) =~= result.deep_view());
            return result;
        }
        i = end + 1;
    }
    assert(result.deep_view() + lines_from(text@, i as int) =~= result.deep_view());
    result
}

/// A text starts with what it was made from.
pub proof fn lemma_starts_itself(prefix: Seq<char>, rest: Seq<char>)
    ensures
        starts(prefix + rest, prefix),
{
    assert((prefix + rest).take(prefix.len() as int) =~= prefix);
}

/// A single part is joined to itself.
pub proof fn lemma_joined_one(part: Seq<char>, separator: Seq<char>)
    ensures
        joined(seq![part], separator) == part,
{
    reveal_with_fuel(joined, 2);
}

/// The bytes of two texts in a row are those of both.
pub proof fn lemma_byte_count_adds(a: Seq<char>, b: Seq<char>)
    ensures
        byte_count(a + b) == byte_count(a) + byte_count(b),
    decreases a.len(),
{
    if a.len() == 0 {
        assert(a + b =~= b);
    } else {
        assert((a + b).drop_first() =~= a.drop_first() + b);
        assert((a + b)[0] == a[0]);
        lemma_byte_count_adds(a.drop_first(), b);
    }
}

/// Of two texts that agree up to some place, the one that ends there comes first, else the one with
/// the smaller character there.
pub proof fn law_the_first_difference_orders_texts(a: Seq<char>, b: Seq<char>, k: int)
    requires
        0 <= k <= a.len(),
        k < b.len(),
        a.take(k) == b.take(k),
        k == a.len() || a[k] < b[k],
    ensures
        precedes(a, b),
        !precedes(b, a),
    decreases k,
{
    if k > 0 {
        let (x, y) = (a.drop_first(), b.drop_first());
        assert(a[0] == a.take(k)[0] && b[0] == b.take(k)[0]);
        assert(x.take(k - 1) =~= a.take(k).drop_first());
        assert(y.take(k - 1) =~= b.take(k).drop_first());
        law_the_first_difference_orders_texts(x, y, k - 1);
    }
}

/// The number that decimal digits stand for.
pub open spec fn number(digits: Seq<char>) -> int
    decreases digits.len(),
{
    if digits.len() == 0 {
        0
    } else {
        10 * number(digits.drop_last()) + (digits.last() as int - '0' as int)
    }
}

/// A number is written in decimal digits that stand for it, without a zero in front.
pub proof fn law_decimals_read_back(n: nat)
    ensures
        number(decimal_text(n)) == n,
        decimal_text(n).len() > 0,
        forall|i: int|
            0 <= i < decimal_text(n).len() ==> '0' <= #[trigger] decimal_text(n)[i] <= '9',
        n > 0 ==> decimal_text(n)[0] != '0',
    decreases n,
{
    reveal_with_fuel(number, 2);
    if n >= 10 {
        law_decimals_read_back(n / 10);
        let front = decimal_text(n / 10);
        assert(decimal_text(n).drop_last() =~= front);
        assert forall|i: int| 0 <= i < decimal_text(n).len() implies '0' <= #[trigger] decimal_text(
            n,
        )[i] <= '9' by {
            if i < front.len() {
                assert(decimal_text(n)[i] == front[i]);
            }
        }
    } else {
        assert(decimal_text(n).drop_last() =~= Seq::empty());
    }
}

/// A number below zero is written as a hyphen and its amount, any other as its amount alone.
pub proof fn law_signed_decimals_read_back(n: int)
    ensures
        n >= 0 ==> number(signed_text(n)) == n && signed_text(n)[0] != '-',
        n < 0 ==> signed_text(n)[0] == '-' && -number(signed_text(n).skip(1)) == n,
{
    reveal_strlit("-");
    if n >= 0 {
        law_decimals_read_back(n as nat);
    } else {
        law_decimals_read_back((-n) as nat);
        assert(signed_text(n).skip(1) =~= decimal_text((-n) as nat));
    }
}

/// Texts, each with a line feed behind it.
pub open spec fn fed_lines(lines: Seq<Seq<char>>) -> Seq<char>
    decreases lines.len(),
{
    if lines.len() == 0 {
        Seq::empty()
    } else {
        fed_lines(lines.drop_last()) + lines.last().push('\n')
    }
}

proof fn lemma_fed_lines(line: Seq<char>, rest: Seq<Seq<char>>)
    ensures
        fed_lines(seq![line] + rest) == line.push('\n') + fed_lines(rest),
    decreases rest.len(),
{
    let all = seq![line] + rest;
    reveal_with_fuel(fed_lines, 2);
    if rest.len() == 0 {
        assert(all.drop_last() =~= Seq::empty());
        assert(all.last() == line);
        assert(fed_lines(all) =~= line.push('\n') + fed_lines(rest));
    } else {
        assert(all.drop_last() =~= seq![line] + rest.drop_last());
        lemma_fed_lines(line, rest.drop_last());
        assert(fed_lines(all) =~= line.push('\n') + fed_lines(rest));
    }
}

proof fn lemma_no_break_before(text: Seq<char>, from: int)
    requires
        0 <= from <= text.len(),
    ensures
        !text.subrange(from, line_break(text, from)).contains('\n'),
        line_break(text, from) < text.len() ==> text[line_break(text, from)] == '\n',
    decreases text.len() - from,
{
    lemma_line_break(text, from);
    let end = line_break(text, from);
    if from < text.len() && text[from] != '\n' {
        lemma_no_break_before(text, from + 1);
        lemma_line_break(text, from + 1);
        let (all, rest) = (text.subrange(from, end), text.subrange(from + 1, end));
        assert forall|i: int| 0 <= i < all.len() implies all[i] != '\n' by {
            if i > 0 {
                assert(rest[i - 1] == all[i]);
                assert(rest.contains(rest[i - 1]));
            }
        }
    }
}

proof fn lemma_lines(text: Seq<char>, from: int)
    requires
        0 <= from <= text.len(),
    ensures
        fed_lines(lines_from(text, from)) == (if from == text.len() || text.last() == '\n' {
            text.skip(from)
        } else {
            text.skip(from).push('\n')
        }),
        forall|i: int|
            0 <= i < lines_from(text, from).len() ==> !(#[trigger] lines_from(
                text,
                from,
            )[i]).contains('\n'),
    decreases text.len() - from,
{
    if from < text.len() {
        lemma_line_break(text, from);
        lemma_no_break_before(text, from);
        let end = line_break(text, from);
        let line = text.subrange(from, end);
        let rest = lines_from(text, end + 1);
        lemma_fed_lines(line, rest);
        if end < text.len() {
            lemma_lines(text, end + 1);
            assert(text.skip(from) =~= line.push('\n') + text.skip(end + 1));
            assert(text.skip(from).push('\n') =~= line.push('\n') + text.skip(end + 1).push('\n'));
            if end + 1 == text.len() {
                assert(text.last() == '\n');
            }
        } else {
            assert(rest =~= Seq::empty());
            assert(line =~= text.skip(from));
            assert(fed_lines(rest) =~= Seq::empty());
            assert(line.push('\n') + fed_lines(rest) =~= line.push('\n'));
            assert(line.contains(text.last())) by {
                assert(line[line.len() - 1] == text.last());
            }
        }
        assert forall|i: int| 0 <= i < lines_from(text, from).len() implies !(
        #[trigger] lines_from(text, from)[i]).contains('\n') by {
            if i > 0 {
                assert(lines_from(text, from)[i] == rest[i - 1]);
            }
        }
    } else {
        assert(text.skip(from) =~= Seq::empty());
    }
}

/// No line of a text holds a line feed, and the lines with a line feed behind each are the text,
/// whose last line may lack its line feed.
pub proof fn law_lines_divide_the_text(text: Seq<char>)
    ensures
        fed_lines(lines_from(text, 0)) == (if text.len() == 0 || text.last() == '\n' {
            text
        } else {
            text.push('\n')
        }),
        forall|i: int|
            0 <= i < lines_from(text, 0).len() ==> !(#[trigger] lines_from(text, 0)[i]).contains(
                '\n',
            ),
{
    lemma_lines(text, 0);
    assert(text.skip(0) =~= text);
}

/// Joining nothing gives nothing, joining one text gives that text, and joining two lists in a row
/// gives both with the separator between them.
pub proof fn law_joining_separates(
    first: Seq<Seq<char>>,
    second: Seq<Seq<char>>,
    part: Seq<char>,
    separator: Seq<char>,
)
    requires
        first.len() > 0,
        second.len() > 0,
    ensures
        joined(Seq::empty(), separator) == Seq::<char>::empty(),
        joined(seq![part], separator) == part,
        joined(first + second, separator) == joined(first, separator) + separator + joined(
            second,
            separator,
        ),
    decreases second.len(),
{
    lemma_joined_one(part, separator);
    let both = first + second;
    if second.len() == 1 {
        assert(both.drop_last() =~= first);
    } else {
        assert(both.drop_last() =~= first + second.drop_last());
        law_joining_separates(first, second.drop_last(), part, separator);
        assert(joined(both, separator) =~= joined(first, separator) + separator + joined(
            second,
            separator,
        ));
    }
}

/// A text starts with what stands in front of it, ends with what stands behind it, and holds what
/// stands in it, and nothing else.
pub proof fn law_texts_hold_their_parts(
    text: Seq<char>,
    front: Seq<char>,
    part: Seq<char>,
    back: Seq<char>,
)
    ensures
        starts(part + back, part),
        ends(front + part, part),
        occurs(front + part + back, part),
        starts(text, part) ==> text == part + text.skip(part.len() as int),
        ends(text, part) ==> text == text.take(text.len() - part.len()) + part,
        occurs(text, part) ==> exists|before: Seq<char>, after: Seq<char>|
            text == #[trigger] (before + part + after),
{
    lemma_starts_itself(part, back);
    assert((front + part).skip(front.len() as int) =~= part);
    let whole = front + part + back;
    assert(whole.skip(front.len() as int) =~= part + back);
    assert(starts(whole.skip(front.len() as int), part));
    if starts(text, part) {
        assert(text =~= text.take(part.len() as int) + text.skip(part.len() as int));
    }
    if ends(text, part) {
        let at = text.len() - part.len();
        assert(text =~= text.take(at) + text.skip(at));
    }
    if occurs(text, part) {
        let i = choose|i: int| 0 <= i <= text.len() && starts(#[trigger] text.skip(i), part);
        let rest = text.skip(i);
        assert(rest =~= rest.take(part.len() as int) + rest.skip(part.len() as int));
        assert(text =~= text.take(i) + part + rest.skip(part.len() as int));
    }
}

/// Two texts in a row are encoded as the bytes of both.
pub proof fn lemma_encoding_adds(a: Seq<char>, b: Seq<char>)
    ensures
        vstd::utf8::encode_utf8(a + b) == vstd::utf8::encode_utf8(a) + vstd::utf8::encode_utf8(b),
    decreases a.len(),
{
    if a.len() == 0 {
        assert(a + b =~= b);
        assert(vstd::utf8::encode_utf8(a) + vstd::utf8::encode_utf8(b) =~= vstd::utf8::encode_utf8(
            b,
        ));
    } else {
        assert((a + b).drop_first() =~= a.drop_first() + b);
        assert((a + b)[0] == a[0]);
        lemma_encoding_adds(a.drop_first(), b);
        assert(vstd::utf8::encode_utf8(a + b) =~= vstd::utf8::encode_utf8(a)
            + vstd::utf8::encode_utf8(b));
    }
}

} // verus!
