//! The lines that carry a column value.
//!
//! A field line ends with `###   @<index>=<value>`: a decimal column index and, after the
//! equals sign, the rest of the line as the value, taken as it stands. The value holds no
//! line feed. Where a line ends with such text in more than one way, the text that
//! begins first counts.

use vstd::prelude::*;
use vstd::string::*;
use crate::text::{
    char_is_digit,
    chars_of,
    decimal_value,
    is_digit,
    is_digits,
    matches_at,
    occurs_at,
    parse_decimal,
};

verus! {

/// The text of a field line for the numeral `digits` and the value `value`.
pub open spec fn field_text(digits: Seq<char>, value: Seq<char>) -> Seq<char> {
    "###   @"@ + digits + "="@ + value
}

/// No character of `s` is a line feed.
pub open spec fn is_single_line(s: Seq<char>) -> bool {
    forall|i: int| 0 <= i < s.len() ==> s[i] != '\n'
}

/// From `start` to its end, `line` is the field text of `digits` and `value`.
pub open spec fn is_field_at(line: Seq<char>, start: int, digits: Seq<char>, value: Seq<char>) -> bool {
    &&& 0 <= start <= line.len()
    &&& is_digits(digits)
    &&& is_single_line(value)
    &&& line.subrange(start, line.len() as int) == field_text(digits, value)
}

/// `line` is a field line whose field text begins at `start`, and nowhere before.
pub open spec fn is_first_field(
    line: Seq<char>,
    start: int,
    digits: Seq<char>,
    value: Seq<char>,
) -> bool {
    &&& is_field_at(line, start, digits, value)
    &&& forall|s: int, d: Seq<char>, v: Seq<char>| is_field_at(line, s, d, v) ==> start <= s
}

/// The column index and the value that a line carries, if it is a field line whose index
/// fits in a `usize`.
pub open spec fn spec_extract_field(line: Seq<char>) -> Option<(usize, Seq<char>)> {
    if exists|start: int, digits: Seq<char>, value: Seq<char>|
        is_first_field(line, start, digits, value) {
        let (start, digits, value) = choose|start: int, digits: Seq<char>, value: Seq<char>|
            is_first_field(line, start, digits, value);
        if decimal_value(digits) <= usize::MAX {
            Some((decimal_value(digits) as usize, value))
        } else {
            None
        }
    } else {
        None
    }
}

proof fn lemma_field_literals()
    ensures
        "###   @"@ == seq!['#', '#', '#', ' ', ' ', ' ', '@'],
        "="@ == seq!['='],
{
    reveal_strlit("###   @");
    reveal_strlit("=");
    assert("###   @"@ =~= seq!['#', '#', '#', ' ', ' ', ' ', '@']);
    assert("="@ =~= seq!['=']);
}

/// From `start` on, `line` reads: the lead, digits up to `eq`, an equals sign at `eq`.
spec fn field_shape(line: Seq<char>, start: int, eq: int) -> bool {
    &&& occurs_at(line, start, "###   @"@)
    &&& start + 7 < eq < line.len()
    &&& forall|i: int| start + 7 <= i < eq ==> is_digit(#[trigger] line[i])
    &&& line[eq] == '='
}

/// Field text at `start` has the shape above, and its parts are the text between the marks.
proof fn lemma_field_shape(line: Seq<char>, start: int, digits: Seq<char>, value: Seq<char>)
    requires
        0 <= start <= line.len(),
        is_digits(digits),
        line.subrange(start, line.len() as int) == field_text(digits, value),
    ensures
        field_shape(line, start, start + 7 + digits.len()),
        digits == line.subrange(start + 7, start + 7 + digits.len()),
        value == line.subrange(start + 8 + digits.len(), line.len() as int),
        is_single_line(value) ==> forall|i: int| start <= i < line.len() ==> line[i] != '\n',
{
    lemma_field_literals();
    let n = line.len() as int;
    let eq = start + 7 + digits.len();
    let text = field_text(digits, value);
    assert(text.len() == 7 + digits.len() + 1 + value.len());
    assert(line.subrange(start, n).len() == n - start);
    assert forall|k: int| 0 <= k < text.len() implies line[start + k] == text[k] by {
        assert(line.subrange(start, n)[k] == line[start + k]);
    }
    assert(line.subrange(start, start + 7) =~= "###   @"@) by {
        assert forall|k: int| 0 <= k < 7 implies line[start + k] == "###   @"@[k] by {
            assert(text[k] == "###   @"@[k]);
        }
    }
    assert forall|i: int| start + 7 <= i < eq implies is_digit(#[trigger] line[i]) by {
        assert(text[i - start] == digits[i - start - 7]);
    }
    assert(line[eq] == '=') by {
        assert(text[eq - start] == '=');
    }
    assert(digits =~= line.subrange(start + 7, eq)) by {
        assert forall|k: int| 0 <= k < digits.len() implies digits[k] == line[start + 7 + k] by {
            assert(text[7 + k] == digits[k]);
        }
    }
    assert(value =~= line.subrange(eq + 1, n)) by {
        assert forall|k: int| 0 <= k < value.len() implies value[k] == line[eq + 1 + k] by {
            assert(text[eq + 1 - start + k] == value[k]);
        }
    }
    if is_single_line(value) {
        assert forall|i: int| start <= i < n implies line[i] != '\n' by {
            assert(line[i] == text[i - start]);
            if i < start + 7 {
                assert(text[i - start] == "###   @"@[i - start]);
            } else if i < eq {
                assert(is_digit(line[i]));
            } else if i == eq {
            } else {
                assert(text[i - start] == value[i - eq - 1]);
            }
        }
    }
}

/// The shape above makes field text at `start`.
proof fn lemma_shape_is_field(line: Seq<char>, start: int, eq: int)
    requires
        0 <= start,
        field_shape(line, start, eq),
    ensures
        is_digits(line.subrange(start + 7, eq)),
        line.subrange(start, line.len() as int) == field_text(
            line.subrange(start + 7, eq),
            line.subrange(eq + 1, line.len() as int),
        ),
{
    lemma_field_literals();
    let n = line.len() as int;
    let digits = line.subrange(start + 7, eq);
    let value = line.subrange(eq + 1, n);
    let text = field_text(digits, value);
    assert forall|i: int| 0 <= i < digits.len() implies is_digit(#[trigger] digits[i]) by {
        assert(is_digit(line[start + 7 + i]));
    }
    assert forall|k: int| 0 <= k < text.len() implies text[k] == line[start + k] by {
        if k < 7 {
            assert(line.subrange(start, start + 7)[k] == line[start + k]);
        }
    }
    assert(text =~= line.subrange(start, n));
}

/// A line is a field line in at most one way.
pub proof fn lemma_first_field_unique(
    line: Seq<char>,
    start1: int,
    digits1: Seq<char>,
    value1: Seq<char>,
    start2: int,
    digits2: Seq<char>,
    value2: Seq<char>,
)
    requires
        is_first_field(line, start1, digits1, value1),
        is_first_field(line, start2, digits2, value2),
    ensures
        start1 == start2,
        digits1 == digits2,
        value1 == value2,
{
    lemma_field_shape(line, start1, digits1, value1);
    lemma_field_shape(line, start2, digits2, value2);
    let e1 = start1 + 7 + digits1.len();
    let e2 = start1 + 7 + digits2.len();
    if e1 < e2 {
        assert(is_digit(line[e1]));
    }
    if e2 < e1 {
        assert(is_digit(line[e2]));
    }
}

/// The first field text of a line gives what is extracted from it.
pub proof fn lemma_extract_first_field(
    line: Seq<char>,
    start: int,
    digits: Seq<char>,
    value: Seq<char>,
)
    requires
        is_first_field(line, start, digits, value),
    ensures
        spec_extract_field(line) == if decimal_value(digits) <= usize::MAX {
            Some((decimal_value(digits) as usize, value))
        } else {
            None
        },
{
    let (s, d, v) = choose|s: int, d: Seq<char>, v: Seq<char>| is_first_field(line, s, d, v);
    lemma_first_field_unique(line, start, digits, value, s, d, v);
}

/// The place just after the last line feed of `chars`, or 0 where there is none.
fn after_last_line_feed(chars: &Vec<char>) -> (r: usize)
    ensures
        r <= chars@.len(),
        forall|i: int| r <= i < chars@.len() ==> chars@[i] != '\n',
        r > 0 ==> chars@[r - 1] == '\n',
{
    let mut i: usize = chars.len();
    while i > 0
        invariant
            i <= chars@.len(),
            forall|j: int| i <= j < chars@.len() ==> chars@[j] != '\n',
        decreases i,
    {
        if chars[i - 1] == '\n' {
            return i;
        }
        i = i - 1;
    }
    0
}

/// The place of the equals sign of the field text that begins at `start`, if field text
/// begins there.
fn field_at(chars: &Vec<char>, start: usize, lead: &Vec<char>) -> (r: Option<usize>)
    requires
        lead@ == "###   @"@,
        start <= chars@.len(),
    ensures
        match r {
            Some(eq) => field_shape(chars@, start as int, eq as int),
            None => forall|digits: Seq<char>, value: Seq<char>|
                !(is_digits(digits) && chars@.subrange(start as int, chars@.len() as int)
                    == field_text(digits, value)),
        },
{
    let ghost line = chars@;
    let n: usize = chars.len();
    proof {
        lemma_field_literals();
    }
    if !matches_at(chars, start, lead) {
        assert forall|digits: Seq<char>, value: Seq<char>|
            !(is_digits(digits) && line.subrange(start as int, n as int) == field_text(
                digits,
                value,
            )) by {
            if is_digits(digits) && line.subrange(start as int, n as int) == field_text(
                digits,
                value,
            ) {
                lemma_field_shape(line, start as int, digits, value);
            }
        }
        return None;
    }
    let first: usize = start + 7;
    let mut eq: usize = first;
    while eq < n && char_is_digit(chars[eq])
        invariant
            first <= eq <= n,
            n == chars@.len(),
            forall|i: int| first <= i < eq ==> is_digit(#[trigger] chars@[i]),
        decreases n - eq,
    {
        eq = eq + 1;
    }
    if eq == first || eq == n || chars[eq] != '=' {
        assert forall|digits: Seq<char>, value: Seq<char>|
            !(is_digits(digits) && line.subrange(start as int, n as int) == field_text(
                digits,
                value,
            )) by {
            if is_digits(digits) && line.subrange(start as int, n as int) == field_text(
                digits,
                value,
            ) {
                lemma_field_shape(line, start as int, digits, value);
                let e = start + 7 + digits.len();
                if e < eq {
                    assert(is_digit(line[e]));
                }
                if eq < e {
                    assert(is_digit(line[eq as int]));
                }
            }
        }
        return None;
    }
    Some(eq)
}

/// Reads one field line.
///
/// Returns the column index and the value of the line's first field text, the value as it
/// stands. Returns `None` for a line that is no field line, and for one whose index does
/// not fit in a `usize`.
pub fn extract_field_value(line: &str) -> (r: Option<(usize, String)>)
    ensures
        match r {
            Some((index, value)) => spec_extract_field(line@) == Some((index, value@)),
            None => spec_extract_field(line@).is_none(),
        },
{
    let chars = chars_of(line);
    let lead = chars_of("###   @");
    let n: usize = chars.len();
    let floor: usize = after_last_line_feed(&chars);
    let mut start: usize = floor;
    assert forall|s: int, d: Seq<char>, v: Seq<char>| s < floor implies !is_field_at(
        chars@,
        s,
        d,
        v,
    ) by {
        if is_field_at(chars@, s, d, v) {
            lemma_field_shape(chars@, s, d, v);
            assert(chars@[floor - 1] == '\n');
        }
    }
    while start < n
        invariant
            floor <= start <= n,
            n == chars@.len(),
            chars@ == line@,
            lead@ == "###   @"@,
            forall|i: int| floor <= i < n ==> chars@[i] != '\n',
            floor > 0 ==> chars@[floor - 1] == '\n',
            forall|s: int, d: Seq<char>, v: Seq<char>|
                s < start ==> !is_field_at(chars@, s, d, v),
        decreases n - start,
    {
        match field_at(&chars, start, &lead) {
            Some(eq) => {
                let index = parse_decimal(&chars, start + 7, eq);
                let value = String::from_str(line.substring_char(eq + 1, n));
                proof {
                    let digits = chars@.subrange(start + 7, eq as int);
                    lemma_shape_is_field(chars@, start as int, eq as int);
                    assert(is_single_line(value@));
                    assert(is_first_field(chars@, start as int, digits, value@));
                    lemma_extract_first_field(chars@, start as int, digits, value@);
                }
                return match index {
                    Some(i) => Some((i, value)),
                    None => None,
                };
            },
            None => {
                assert forall|s: int, d: Seq<char>, v: Seq<char>| s < start + 1 implies !is_field_at(
                    chars@,
                    s,
                    d,
                    v,
                ) by {}
            },
        }
        start = start + 1;
    }
    proof {
        assert forall|s: int, d: Seq<char>, v: Seq<char>| !is_first_field(chars@, s, d, v) by {
            if is_field_at(chars@, s, d, v) {
                lemma_field_shape(chars@, s, d, v);
            }
        }
    }
    None
}

/// A line that is nothing but field text gives the index and the value written in it.
pub proof fn lemma_plain_field_line(digits: Seq<char>, value: Seq<char>)
    requires
        is_digits(digits),
        is_single_line(value),
    ensures
        spec_extract_field(field_text(digits, value)) == if decimal_value(digits)
            <= usize::MAX {
            Some((decimal_value(digits) as usize, value))
        } else {
            None
        },
{
    let line = field_text(digits, value);
    assert(line.subrange(0, line.len() as int) =~= line);
    assert(is_field_at(line, 0, digits, value));
    lemma_extract_first_field(line, 0, digits, value);
}

/// A line without field text gives nothing.
pub proof fn lemma_no_field_text(line: Seq<char>)
    requires
        forall|start: int, digits: Seq<char>, value: Seq<char>|
            !is_field_at(line, start, digits, value),
    ensures
        spec_extract_field(line).is_none(),
{
}

} // verus!
