use vstd::prelude::*;

verus! {

/// `String::push` appends one character to the text.
pub assume_specification[ String::push ](text: &mut String, c: char)
    ensures
        final(text)@ == old(text)@.push(c),
;

/// The parts of a text between the occurrences of a separator. A text has one
/// part more than it has separators, so there is always one.
pub open spec fn split(text: Seq<char>, sep: char) -> Seq<Seq<char>>
    decreases text.len(),
{
    if text.len() == 0 {
        seq![Seq::empty()]
    } else {
        let parts = split(text.drop_last(), sep);
        if text.last() == sep {
            parts.push(Seq::empty())
        } else {
            parts.drop_last().push(parts.last().push(text.last()))
        }
    }
}

/// The parts, written one after the other with the separator between them.
pub open spec fn join(parts: Seq<Seq<char>>, sep: char) -> Seq<char>
    decreases parts.len(),
{
    if parts.len() == 0 {
        Seq::empty()
    } else if parts.len() == 1 {
        parts[0]
    } else {
        join(parts.drop_last(), sep) + seq![sep] + parts.last()
    }
}

/// Splitting never gives an empty list, and no part holds the separator.
pub proof fn lemma_split_parts(text: Seq<char>, sep: char)
    ensures
        split(text, sep).len() >= 1,
        forall|i: int, j: int|
            0 <= i < split(text, sep).len() && 0 <= j < split(text, sep)[i].len() ==> split(
                text,
                sep,
            )[i][j] != sep,
    decreases text.len(),
{
    if text.len() > 0 {
        lemma_split_parts(text.drop_last(), sep);
        let parts = split(text.drop_last(), sep);
        let now = split(text, sep);
        assert forall|i: int, j: int| 0 <= i < now.len() && 0 <= j < now[i].len() implies now[i][j]
            != sep by {
            if i < parts.len() - 1 {
                assert(now[i] == parts[i]);
            } else if text.last() != sep {
                if j < parts.last().len() {
                    assert(now[i][j] == parts[parts.len() - 1][j]);
                }
            }
        }
    }
}

/// Joining the parts of a text gives the text back.
pub proof fn lemma_join_split(text: Seq<char>, sep: char)
    ensures
        join(split(text, sep), sep) == text,
    decreases text.len(),
{
    if text.len() == 0 {
        assert(join(split(text, sep), sep) =~= text);
    } else {
        let head = text.drop_last();
        let parts = split(head, sep);
        let now = split(text, sep);
        lemma_split_parts(head, sep);
        lemma_join_split(head, sep);
        if text.last() == sep {
            assert(now.drop_last() =~= parts);
            assert(join(now, sep) =~= head + seq![sep] + Seq::<char>::empty());
            assert(head + seq![sep] + Seq::<char>::empty() =~= text);
        } else if parts.len() == 1 {
            assert(join(now, sep) =~= parts[0].push(text.last()));
            assert(parts[0].push(text.last()) =~= text);
        } else {
            assert(now.drop_last() =~= parts.drop_last());
            assert(join(now, sep) =~= join(parts.drop_last(), sep) + seq![sep] + parts.last().push(
                text.last(),
            ));
            assert(join(parts.drop_last(), sep) + seq![sep] + parts.last().push(text.last())
                =~= (join(parts.drop_last(), sep) + seq![sep] + parts.last()).push(text.last()));
            assert(head.push(text.last()) =~= text);
        }
    }
}

/// The views of a list of texts.
pub open spec fn texts_view(texts: Seq<String>) -> Seq<Seq<char>> {
    texts.map_values(|t: String| t@)
}

/// Splits a text at every occurrence of a separator.
pub fn split_text(text: &str, sep: char) -> (r: Vec<String>)
    ensures
        texts_view(r@) == split(text@, sep),
        r@.len() >= 1,
{
    let mut parts: Vec<String> = Vec::new();
    let mut current: String = String::new();
    proof {
        assert(text@.take(0) =~= Seq::<char>::empty());
        assert(texts_view(parts@).push(current@) =~= split(text@.take(0), sep));
    }
    for c in it: text.chars()
        invariant
            it.seq() == text@,
            texts_view(parts@).push(current@) == split(text@.take(it.index() as int), sep),
    {
        let ghost i = it.index() as int;
        let ghost before = split(text@.take(i), sep);
        proof {
            assert(text@.take(i + 1).drop_last() =~= text@.take(i));
            assert(text@.take(i + 1).last() == c);
            assert(before.last() == current@);
            assert(before.drop_last() =~= texts_view(parts@));
        }
        if c == sep {
            let ghost so_far = parts@;
            let mut done: String = String::new();
            core::mem::swap(&mut current, &mut done);
            parts.push(done);
            proof {
                assert(texts_view(parts@) =~= texts_view(so_far).push(done@));
                assert(texts_view(parts@).push(current@) =~= before.push(Seq::empty()));
            }
        } else {
            current.push(c);
            proof {
                assert(texts_view(parts@).push(current@) =~= before.drop_last().push(
                    before.last().push(c),
                ));
            }
        }
    }
    proof {
        assert(text@.take(text@.len() as int) =~= text@);
    }
    let ghost so_far = parts@;
    parts.push(current);
    proof {
        assert(texts_view(parts@) =~= texts_view(so_far).push(current@));
    }
    parts
}

/// The upper-case form of a character of the ASCII range: the small letters
/// become capitals, everything else stays.
pub open spec fn ascii_upper(c: char) -> char {
    if 'a' <= c <= 'z' {
        ((c as int) - 32) as char
    } else {
        c
    }
}

/// Whether a character is one of the ten decimal digits.
pub open spec fn is_digit(c: char) -> bool {
    '0' <= c <= '9'
}

/// The number that a decimal digit stands for.
pub open spec fn digit_value(c: char) -> int {
    c as int - '0' as int
}

/// The decimal digit that stands for a number below ten.
pub open spec fn digit_char(n: int) -> char {
    (n + '0' as int) as char
}

/// Whether a text is made of decimal digits alone.
pub open spec fn all_digits(text: Seq<char>) -> bool {
    forall|i: int| 0 <= i < text.len() ==> is_digit(#[trigger] text[i])
}

/// The number that a run of decimal digits writes.
pub open spec fn digits_value(text: Seq<char>) -> int
    decreases text.len(),
{
    if text.len() == 0 {
        0
    } else {
        digits_value(text.drop_last()) * 10 + digit_value(text.last())
    }
}

/// The digits of a text that writes an integer: the text without its sign.
pub open spec fn unsigned_part(text: Seq<char>) -> Seq<char> {
    if text.len() > 0 && (text[0] == '-' || text[0] == '+') {
        text.skip(1)
    } else {
        text
    }
}

/// The signed 64-bit integer that a text writes in decimal: an optional sign,
/// then one digit or more, and a value within the type. Any other text writes
/// none.
pub open spec fn integer_of(text: Seq<char>) -> Option<i64> {
    let digits = unsigned_part(text);
    let value = if text.len() > 0 && text[0] == '-' {
        -digits_value(digits)
    } else {
        digits_value(digits)
    };
    if digits.len() > 0 && all_digits(digits) && i64::MIN <= value <= i64::MAX {
        Some(value as i64)
    } else {
        None
    }
}

/// Reads a signed 64-bit integer written in decimal.
pub fn parse_integer(text: &str) -> (r: Option<i64>)
    ensures
        r == integer_of(text@),
{
    let ghost digits = unsigned_part(text@);
    let ghost sign: int = text@.len() - digits.len();
    let mut first: bool = true;
    let mut negative: bool = false;
    let mut seen: bool = false;
    let mut clean: bool = true;
    let mut over: bool = false;
    let mut value: i128 = 0;
    for c in it: text.chars()
        invariant
            it.seq() == text@,
            digits == unsigned_part(text@),
            sign == text@.len() - digits.len(),
            first == (it.index() == 0),
            first ==> value == 0 && !over,
            negative == (it.index() > 0 && text@[0] == '-'),
            seen == (it.index() > sign),
            it.index() >= sign ==> clean == all_digits(digits.take(it.index() - sign)),
            it.index() < sign ==> clean,
            clean && !over && it.index() >= sign ==> value == digits_value(
                digits.take(it.index() - sign),
            ),
            0 <= value <= 0x8000_0000_0000_0000,
            clean && over ==> it.index() >= sign && digits_value(digits.take(it.index() - sign))
                > 0x8000_0000_0000_0000,
    {
        let ghost i = it.index() as int;
        if first && (c == '-' || c == '+') {
            negative = c == '-';
            proof {
                assert(text@[0] == c);
                assert(sign == 1);
                assert(digits.take(0) =~= Seq::<char>::empty());
                assert(digits_value(digits.take(0)) == 0);
            }
        } else {
            let ghost at = i - sign;
            proof {
                assert(digits[at] == c);
                assert(digits.take(at + 1).drop_last() =~= digits.take(at));
                assert(digits.take(at + 1).last() == c);
                if at == 0 {
                    assert(digits.take(0) =~= Seq::<char>::empty());
                }
            }
            seen = true;
            if c >= '0' && c <= '9' {
                let d: i128 = (c as u32 - '0' as u32) as i128;
                if !over {
                    let next: i128 = value * 10 + d;
                    if next > 0x8000_0000_0000_0000 {
                        over = true;
                    } else {
                        value = next;
                    }
                }
                proof {
                    if clean {
                        assert forall|j: int| 0 <= j < at + 1 implies is_digit(
                            #[trigger] digits.take(at + 1)[j],
                        ) by {
                            if j < at {
                                assert(digits.take(at)[j] == digits.take(at + 1)[j]);
                            }
                        }
                    } else {
                        let j = choose|j: int| 0 <= j < at && !is_digit(#[trigger] digits.take(at)[j]);
                        assert(digits.take(at + 1)[j] == digits.take(at)[j]);
                    }
                }
            } else {
                clean = false;
                proof {
                    assert(!is_digit(digits.take(at + 1)[at]));
                }
            }
        }
        first = false;
    }
    proof {
        let n = text@.len() as int;
        assert(digits.take(n - sign) =~= digits);
    }
    if !clean || !seen || over {
        return None;
    }
    if negative {
        Some((0 - value) as i64)
    } else if value <= 0x7fff_ffff_ffff_ffff {
        Some(value as i64)
    } else {
        None
    }
}

/// The decimal digits of a natural number, without leading zeros.
pub open spec fn digits_of(n: nat) -> Seq<char>
    decreases n,
{
    if n < 10 {
        seq![digit_char(n as int)]
    } else {
        digits_of(n / 10).push(digit_char((n % 10) as int))
    }
}

/// An integer written in decimal: a minus sign where it is negative, then its
/// digits.
pub open spec fn decimal_text(n: int) -> Seq<char> {
    if n < 0 {
        seq!['-'] + digits_of((-n) as nat)
    } else {
        digits_of(n as nat)
    }
}

/// Writes a signed 64-bit integer in decimal.
pub fn write_integer(n: i64) -> (r: String)
    ensures
        r@ == decimal_text(n as int),
{
    let mut out: String = String::new();
    let magnitude: u64 = if n < 0 {
        out.push('-');
        (0 - (n as i128)) as u64
    } else {
        n as u64
    };
    let ghost prefix = out@;
    // The digits, last one first.
    let mut reversed: Vec<char> = Vec::new();
    let mut left: u64 = magnitude;
    let ghost mut tail: Seq<char> = Seq::empty();
    proof {
        assert(digits_of(left as nat) + tail =~= digits_of(magnitude as nat));
    }
    while left >= 10
        invariant
            digits_of(magnitude as nat) == digits_of(left as nat) + tail,
            reversed@.len() == tail.len(),
            forall|i: int| 0 <= i < tail.len() ==> reversed@[i] == tail[tail.len() - 1 - i],
        decreases left,
    {
        let c = digit_to_char(left % 10);
        proof {
            assert(digits_of(left as nat) + tail =~= digits_of((left / 10) as nat) + (seq![c]
                + tail));
            tail = seq![c] + tail;
        }
        reversed.push(c);
        left = left / 10;
    }
    let c = digit_to_char(left);
    proof {
        assert(digits_of(left as nat) + tail =~= seq![c] + tail);
        tail = seq![c] + tail;
    }
    reversed.push(c);
    let mut k: usize = reversed.len();
    proof {
        assert(tail.take(0) =~= Seq::<char>::empty());
        assert(prefix + tail.take(0) =~= prefix);
    }
    while k > 0
        invariant
            k <= reversed@.len(),
            reversed@.len() == tail.len(),
            forall|i: int| 0 <= i < tail.len() ==> reversed@[i] == tail[tail.len() - 1 - i],
            out@ == prefix + tail.take(tail.len() - k),
        decreases k,
    {
        let ghost at = tail.len() - k;
        out.push(reversed[k - 1]);
        proof {
            assert(tail.take(at + 1) =~= tail.take(at).push(tail[at]));
            assert(prefix + tail.take(at + 1) =~= (prefix + tail.take(at)).push(tail[at]));
        }
        k = k - 1;
    }
    proof {
        assert(tail.take(tail.len() as int) =~= tail);
        assert(prefix + digits_of(magnitude as nat) =~= decimal_text(n as int));
    }
    out
}

/// The character of a digit.
fn digit_to_char(d: u64) -> (c: char)
    requires
        d < 10,
    ensures
        c == digit_char(d as int),
{
    if d == 0 {
        '0'
    } else if d == 1 {
        '1'
    } else if d == 2 {
        '2'
    } else if d == 3 {
        '3'
    } else if d == 4 {
        '4'
    } else if d == 5 {
        '5'
    } else if d == 6 {
        '6'
    } else if d == 7 {
        '7'
    } else if d == 8 {
        '8'
    } else {
        '9'
    }
}

/// The first part of a text that starts with a run without the separator,
/// followed by the separator, is that run.
pub proof fn lemma_split_first(head: Seq<char>, rest: Seq<char>, sep: char)
    requires
        forall|i: int| 0 <= i < head.len() ==> head[i] != sep,
    ensures
        split(head + seq![sep] + rest, sep)[0] == head,
        split(head + seq![sep] + rest, sep).len() >= 2,
    decreases rest.len(),
{
    let text = head + seq![sep] + rest;
    if rest.len() == 0 {
        assert(text.drop_last() =~= head);
        lemma_split_whole(head, sep);
    } else {
        lemma_split_first(head, rest.drop_last(), sep);
        assert(text.drop_last() =~= head + seq![sep] + rest.drop_last());
    }
}

/// A text without the separator is its own single part.
pub proof fn lemma_split_whole(text: Seq<char>, sep: char)
    requires
        forall|i: int| 0 <= i < text.len() ==> text[i] != sep,
    ensures
        split(text, sep) == seq![text],
    decreases text.len(),
{
    if text.len() > 0 {
        lemma_split_whole(text.drop_last(), sep);
        assert(text.drop_last().push(text.last()) =~= text);
        assert(seq![text.drop_last()].drop_last().push(text) =~= seq![text]);
    } else {
        assert(text =~= Seq::<char>::empty());
    }
}

/// Whether a run of digits is written without a needless leading zero.
pub open spec fn is_plain_number(digits: Seq<char>) -> bool {
    &&& digits.len() > 0
    &&& all_digits(digits)
    &&& digits.len() == 1 || digits[0] != '0'
}

/// Whether a text writes an integer the way `decimal_text` does: digits
/// without a needless leading zero, after a minus sign where the number is
/// below zero, and no sign otherwise.
pub open spec fn plainly_written(text: Seq<char>) -> bool {
    if text.len() > 0 && text[0] == '-' {
        is_plain_number(text.skip(1)) && text.skip(1) != seq!['0']
    } else {
        is_plain_number(text)
    }
}

/// A run of digits without a needless leading zero is the digits of the
/// number it writes.
pub proof fn lemma_digits_of_value(digits: Seq<char>)
    requires
        is_plain_number(digits),
    ensures
        digits_value(digits) >= 0,
        digits_of(digits_value(digits) as nat) == digits,
        digits[0] != '0' ==> digits_value(digits) >= 1,
    decreases digits.len(),
{
    let last = digits.last();
    assert(is_digit(digits[digits.len() - 1]));
    if digits.len() == 1 {
        assert(digits.drop_last() =~= Seq::<char>::empty());
        assert(digits_value(digits.drop_last()) == 0);
        assert(digits_of(digits_value(digits) as nat) =~= digits);
    } else {
        let head = digits.drop_last();
        assert(head[0] == digits[0]);
        assert forall|i: int| 0 <= i < head.len() implies is_digit(#[trigger] head[i]) by {
            assert(head[i] == digits[i]);
        }
        lemma_digits_of_value(head);
        let v = digits_value(head);
        let n = digits_value(digits);
        assert(n == v * 10 + digit_value(last));
        assert(n / 10 == v && n % 10 == digit_value(last)) by (nonlinear_arith)
            requires
                n == v * 10 + digit_value(last),
                0 <= digit_value(last) <= 9,
        ;
        assert(digits_of(n as nat) =~= digits);
    }
}

/// The digits of a number write that number, without a needless leading zero.
pub proof fn lemma_value_of_digits(n: nat)
    ensures
        is_plain_number(digits_of(n)),
        digits_value(digits_of(n)) == n,
        n > 0 ==> digits_of(n)[0] != '0',
    decreases n,
{
    let d = digits_of(n);
    if n < 10 {
        assert(d.drop_last() =~= Seq::<char>::empty());
        assert(digits_value(d.drop_last()) == 0);
    } else {
        lemma_value_of_digits(n / 10);
        let head = digits_of(n / 10);
        assert(d.drop_last() =~= head);
        assert(d[0] == head[0]);
        assert forall|i: int| 0 <= i < d.len() implies is_digit(#[trigger] d[i]) by {
            if i < head.len() {
                assert(d[i] == head[i]);
            }
        }
    }
}

/// Writing what a plainly written integer reads as gives the text back.
pub proof fn lemma_write_after_parse(text: Seq<char>)
    requires
        plainly_written(text),
        integer_of(text) is Some,
    ensures
        decimal_text(integer_of(text).unwrap() as int) == text,
{
    let digits = unsigned_part(text);
    if text.len() > 0 && text[0] == '-' {
        lemma_digits_of_value(digits);
        if digits[0] == '0' {
            assert(digits =~= seq!['0']);
        }
        assert(seq!['-'] + digits =~= text);
    } else {
        assert(is_digit(text[0]));
        lemma_digits_of_value(text);
    }
}

/// Reading what was written of a signed 64-bit integer gives the integer
/// back, and what is written is plainly written.
pub proof fn lemma_parse_after_write(n: i64)
    ensures
        integer_of(decimal_text(n as int)) == Some(n),
        plainly_written(decimal_text(n as int)),
{
    let text = decimal_text(n as int);
    if n < 0 {
        let d = digits_of((-n) as nat);
        lemma_value_of_digits((-n) as nat);
        assert(text[0] == '-');
        assert(text.skip(1) =~= d);
        if d == seq!['0'] {
            assert(d.drop_last() =~= Seq::<char>::empty());
            assert(digits_value(d.drop_last()) == 0);
            assert(digits_value(d) == 0);
        }
    } else {
        lemma_value_of_digits(n as nat);
        assert(is_digit(text[0]));
    }
}

} // verus!
