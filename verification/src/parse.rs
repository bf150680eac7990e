//! Parsing of the tab-separated input files: lines, fields, and the
//! non-negative integers the rank columns hold.
//!
//! Every input file has a header row (skipped) and one record per line;
//! fields are separated by tabs. What each record means is the builder's
//! business; this module only turns text into rows of fields, exactly.

use vstd::prelude::*;

use crate::wca::string_views;

verus! {

/// The fields of `s` split on the separator `sep`. Always at least one
/// field; a trailing separator yields a trailing empty field.
pub open spec fn split_on(s: Seq<char>, sep: char) -> Seq<Seq<char>>
    decreases s.len(),
{
    if s.len() == 0 {
        seq![Seq::<char>::empty()]
    } else {
        let r = split_on(s.drop_last(), sep);
        if s.last() == sep {
            r.push(Seq::<char>::empty())
        } else {
            r.update(r.len() - 1, r.last().push(s.last()))
        }
    }
}

/// Splitting yields at least one field.
pub proof fn lemma_split_on_len(s: Seq<char>, sep: char)
    ensures
        split_on(s, sep).len() >= 1,
    decreases s.len(),
{
    if s.len() > 0 {
        lemma_split_on_len(s.drop_last(), sep);
    }
}

/// Splits a string on a separator character.
pub fn split_str(s: &str, sep: char) -> (r: Vec<String>)
    ensures
        string_views(r@) == split_on(s@, sep),
{
    let n = s.unicode_len();
    let mut fields: Vec<String> = Vec::new();
    let mut start: usize = 0;
    let mut i: usize = 0;
    proof {
        assert(s@.take(0) =~= Seq::<char>::empty());
        assert(s@.subrange(0, 0) =~= Seq::<char>::empty());
        assert(string_views(fields@).push(s@.subrange(0, 0)) =~= seq![Seq::<char>::empty()]);
    }
    while i < n
        invariant
            start <= i <= n,
            n == s@.len(),
            string_views(fields@).push(s@.subrange(start as int, i as int)) == split_on(
                s@.take(i as int),
                sep,
            ),
        decreases n - i,
    {
        let ghost fs0 = fields@;
        let ghost start0 = start;
        let c = s.get_char(i);
        if c == sep {
            let piece = s.substring_char(start, i).to_owned();
            fields.push(piece);
            start = i + 1;
        }
        proof {
            let t1 = s@.take(i as int);
            let t2 = s@.take(i + 1 as int);
            assert(t2.drop_last() =~= t1);
            assert(t2.last() == s@[i as int]);
            if c == sep {
                assert(string_views(fields@) =~= string_views(fs0).push(
                    s@.subrange(start0 as int, i as int),
                ));
                assert(s@.subrange(start as int, i + 1 as int) =~= Seq::<char>::empty());
                assert(string_views(fields@).push(s@.subrange(start as int, i + 1 as int)) =~= split_on(
                    t2,
                    sep,
                ));
            } else {
                lemma_split_on_len(t1, sep);
                assert(s@.subrange(start as int, i + 1 as int) =~= s@.subrange(
                    start as int,
                    i as int,
                ).push(s@[i as int]));
                assert(string_views(fields@).push(s@.subrange(start as int, i + 1 as int)) =~= split_on(
                    t2,
                    sep,
                ));
            }
        }
        i = i + 1;
    }
    let piece = s.substring_char(start, n).to_owned();
    fields.push(piece);
    proof {
        assert(s@.take(n as int) =~= s@);
        assert(string_views(fields@) =~= string_views(fields@.drop_last()).push(
            s@.subrange(start as int, n as int),
        ));
    }
    fields
}

/// The lines of a file's contents: separated by newlines, with a final
/// newline terminating the last line rather than opening an empty one.
pub open spec fn content_lines(s: Seq<char>) -> Seq<Seq<char>> {
    let parts = split_on(s, '\n');
    if parts.last().len() == 0 {
        parts.drop_last()
    } else {
        parts
    }
}

/// The data rows of a file's contents: every line but the header, split
/// into fields on tabs.
pub open spec fn data_rows(s: Seq<char>) -> Seq<Seq<Seq<char>>> {
    if content_lines(s).len() <= 1 {
        Seq::empty()
    } else {
        content_lines(s).skip(1).map_values(|l: Seq<char>| split_on(l, '\t'))
    }
}

/// Reads a file's contents into data rows of fields, skipping the header
/// line.
pub fn read_rows(content: &str) -> (rows: Vec<Vec<String>>)
    ensures
        rows@.len() == data_rows(content@).len(),
        rows@.len() < usize::MAX,
        forall|i: int|
            0 <= i < rows@.len() ==> #[trigger] string_views(rows@[i]@) == data_rows(content@)[i],
{
    let mut lines: Vec<String> = split_str(content, '\n');
    proof {
        lemma_split_on_len(content@, '\n');
    }
    if lines[lines.len() - 1].as_str().is_empty() {
        lines.pop();
    }
    proof {
        assert(string_views(lines@) =~= content_lines(content@));
    }
    let mut rows: Vec<Vec<String>> = Vec::new();
    let mut i: usize = 1;
    if lines.len() == 0 {
        proof {
            assert(data_rows(content@) =~= Seq::<Seq<Seq<char>>>::empty());
        }
        return rows;
    }
    while i < lines.len()
        invariant
            1 <= i <= lines@.len(),
            string_views(lines@) == content_lines(content@),
            rows@.len() == i - 1,
            forall|j: int|
                0 <= j < rows@.len() ==> #[trigger] string_views(rows@[j]@) == split_on(
                    lines@[j + 1]@,
                    '\t',
                ),
        decreases lines@.len() - i,
    {
        let row = split_str(lines[i].as_str(), '\t');
        rows.push(row);
        i = i + 1;
    }
    proof {
        if content_lines(content@).len() <= 1 {
            assert(data_rows(content@) =~= Seq::<Seq<Seq<char>>>::empty());
        } else {
            assert(rows@.len() == data_rows(content@).len());
            assert forall|j: int| 0 <= j < rows@.len() implies #[trigger] string_views(rows@[j]@)
                == data_rows(content@)[j] by {
                assert(content_lines(content@).skip(1)[j] == content_lines(content@)[j + 1]);
                assert(string_views(lines@)[j + 1] == lines@[j + 1]@);
            }
        }
    }
    rows
}

/// A decimal digit.
pub open spec fn is_digit(c: char) -> bool {
    48 <= (c as u32) && (c as u32) <= 57
}

/// The value of a decimal digit.
pub open spec fn digit_val(c: char) -> nat {
    ((c as u32) - 48) as nat
}

/// A non-empty string of decimal digits.
pub open spec fn is_digits(s: Seq<char>) -> bool {
    s.len() > 0 && forall|i: int| 0 <= i < s.len() ==> is_digit(s[i])
}

/// The number a string of decimal digits denotes.
pub open spec fn digits_val(s: Seq<char>) -> nat
    decreases s.len(),
{
    if s.len() == 0 {
        0
    } else {
        digits_val(s.drop_last()) * 10 + digit_val(s.last())
    }
}

/// A digit string's value only grows as digits are appended.
pub proof fn lemma_digits_val_prefix(s: Seq<char>, i: int)
    requires
        0 <= i <= s.len(),
    ensures
        digits_val(s.take(i)) <= digits_val(s),
    decreases s.len() - i,
{
    if i == s.len() {
        assert(s.take(i) =~= s);
    } else {
        lemma_digits_val_prefix(s, i + 1);
        let t2 = s.take(i + 1);
        assert(t2.drop_last() =~= s.take(i));
        assert(t2.last() == s[i]);
        assert(digits_val(s.take(i)) * 10 >= digits_val(s.take(i))) by (nonlinear_arith);
    }
}

/// Parses a non-negative integer: a non-empty, all-digit string whose
/// value fits. Anything else is nothing, never a default.
pub fn parse_u32(s: &str) -> (r: Option<u32>)
    ensures
        match r {
            Some(v) => is_digits(s@) && digits_val(s@) <= u32::MAX && v == digits_val(s@),
            None => !(is_digits(s@) && digits_val(s@) <= u32::MAX),
        },
{
    let n = s.unicode_len();
    if n == 0 {
        return None;
    }
    let mut acc: u32 = 0;
    let mut i: usize = 0;
    proof {
        assert(s@.take(0) =~= Seq::<char>::empty());
    }
    while i < n
        invariant
            i <= n,
            n == s@.len(),
            forall|j: int| 0 <= j < i ==> is_digit(s@[j]),
            acc == digits_val(s@.take(i as int)),
        decreases n - i,
    {
        let c = s.get_char(i);
        let cv = c as u32;
        if cv < 48 || cv > 57 {
            return None;
        }
        let d = cv - 48;
        proof {
            let t2 = s@.take(i + 1 as int);
            assert(t2.drop_last() =~= s@.take(i as int));
            assert(t2.last() == s@[i as int]);
        }
        if acc > (u32::MAX - d) / 10 {
            proof {
                assert(acc * 10 + d > u32::MAX) by (nonlinear_arith)
                    requires
                        acc > (u32::MAX - d) / 10,
                        d <= 9,
                ;
                lemma_digits_val_prefix(s@, i + 1);
            }
            return None;
        }
        proof {
            assert(acc * 10 + d <= u32::MAX) by (nonlinear_arith)
                requires
                    acc <= (u32::MAX - d) / 10,
                    d <= 9,
            ;
        }
        acc = acc * 10 + d;
        i = i + 1;
    }
    proof {
        assert(s@.take(n as int) =~= s@);
    }
    Some(acc)
}

/// A well-formed `u32` field: all digits, value in range.
pub open spec fn u32_ok(s: Seq<char>) -> bool {
    is_digits(s) && digits_val(s) <= u32::MAX
}

/// A well-formed signed 32-bit integer field: an optional leading minus
/// sign, then digits, with the magnitude in range.
pub open spec fn is_i32_str(s: Seq<char>) -> bool {
    if s.len() > 0 && s[0] == '-' {
        is_digits(s.skip(1)) && digits_val(s.skip(1)) <= 2147483648
    } else {
        is_digits(s) && digits_val(s) <= 2147483647
    }
}

/// Decides whether a field holds a signed 32-bit integer.
pub fn is_i32_token(s: &str) -> (r: bool)
    ensures
        r == is_i32_str(s@),
{
    let n = s.unicode_len();
    if n > 0 && s.get_char(0) == '-' {
        let rest = s.substring_char(1, n);
        match parse_u32(rest) {
            Some(v) => v <= 2147483648u32,
            None => false,
        }
    } else {
        match parse_u32(s) {
            Some(v) => v <= 2147483647u32,
            None => false,
        }
    }
}

} // verus!
