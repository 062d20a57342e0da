//! Text primitives shared by the logsheet and the relay wire format:
//! decimal numbers and separator-delimited fields, each with a
//! mathematical model over `Seq<char>`.

use vstd::prelude::*;

verus! {

/// `String::push` appends the given character to the end of the string.
pub assume_specification[ String::push ](s: &mut String, ch: char)
    ensures
        final(s)@ == old(s)@.push(ch),
;

/// The character that writes the decimal digit `d`.
pub open spec fn digit_char(d: int) -> char {
    if d == 0 {
        '0'
    } else if d == 1 {
        '1'
    } else if d == 2 {
        '2'
    } else if d == 3 {
        '3'
    } else if d == 4 {
        '4'
    } else if d == 5 {
        '5'
    } else if d == 6 {
        '6'
    } else if d == 7 {
        '7'
    } else if d == 8 {
        '8'
    } else {
        '9'
    }
}

/// The digit that `c` writes, if it is one of `0` to `9`.
pub open spec fn digit_value(c: char) -> Option<int> {
    if c == '0' {
        Some(0)
    } else if c == '1' {
        Some(1)
    } else if c == '2' {
        Some(2)
    } else if c == '3' {
        Some(3)
    } else if c == '4' {
        Some(4)
    } else if c == '5' {
        Some(5)
    } else if c == '6' {
        Some(6)
    } else if c == '7' {
        Some(7)
    } else if c == '8' {
        Some(8)
    } else if c == '9' {
        Some(9)
    } else {
        None
    }
}

/// The shortest decimal numeral of `n`.
pub open spec fn decimal(n: nat) -> Seq<char>
    decreases n,
{
    if n < 10 {
        seq![digit_char(n as int)]
    } else {
        decimal(n / 10).push(digit_char((n % 10) as int))
    }
}

/// The last `width` decimal digits of `n`, with leading zeros.
pub open spec fn padded(n: nat, width: nat) -> Seq<char>
    decreases width,
{
    if width == 0 {
        Seq::empty()
    } else {
        padded(n / 10, (width - 1) as nat).push(digit_char((n % 10) as int))
    }
}

/// Ten to the power of `width`.
pub open spec fn pow10(width: nat) -> nat
    decreases width,
{
    if width == 0 {
        1
    } else {
        10 * pow10((width - 1) as nat)
    }
}

/// Every character of `s` is a decimal digit.
pub open spec fn all_digits(s: Seq<char>) -> bool {
    forall|i: int| 0 <= i < s.len() ==> (#[trigger] digit_value(s[i])) is Some
}

/// The number that the digits of `s` write, most significant digit first.
pub open spec fn digits_value(s: Seq<char>) -> nat
    decreases s.len(),
{
    if s.len() == 0 {
        0
    } else {
        match digit_value(s.last()) {
            Some(d) => digits_value(s.drop_last()) * 10 + d as nat,
            None => digits_value(s.drop_last()) * 10,
        }
    }
}

/// The number that `s` writes: `s` must be a non-empty run of digits.
pub open spec fn number(s: Seq<char>) -> Option<nat> {
    if s.len() > 0 && all_digits(s) {
        Some(digits_value(s))
    } else {
        None
    }
}

/// `number(s)`, where it does not exceed `max`.
pub open spec fn number_up_to(s: Seq<char>, max: nat) -> Option<nat> {
    match number(s) {
        Some(v) => if v <= max {
            Some(v)
        } else {
            None
        },
        None => None,
    }
}

/// The fields of `s`: the runs between occurrences of `sep`. There is one
/// field more than there are separators, and a field may be empty.
pub open spec fn split(s: Seq<char>, sep: char) -> Seq<Seq<char>>
    decreases s.len(),
{
    if s.len() == 0 {
        seq![Seq::<char>::empty()]
    } else {
        let before = split(s.drop_last(), sep);
        if s.last() == sep {
            before.push(Seq::<char>::empty())
        } else {
            before.drop_last().push(before.last().push(s.last()))
        }
    }
}

/// The fields in order, with `sep` between neighbours.
pub open spec fn join(fields: Seq<Seq<char>>, sep: char) -> Seq<char>
    decreases fields.len(),
{
    if fields.len() == 0 {
        Seq::empty()
    } else if fields.len() == 1 {
        fields[0]
    } else {
        join(fields.drop_last(), sep).push(sep) + fields.last()
    }
}

/// The texts that a sequence of strings holds.
pub open spec fn views(fields: Seq<String>) -> Seq<Seq<char>> {
    Seq::new(fields.len(), |i: int| fields[i]@)
}

/// A digit's character is read back as that digit.
pub proof fn lemma_digit_round_trip(d: int)
    requires
        0 <= d <= 9,
    ensures
        digit_value(digit_char(d)) == Some(d),
{
}

/// A decimal numeral is a non-empty run of digits that writes its number.
pub proof fn lemma_decimal_round_trip(n: nat)
    ensures
        decimal(n).len() > 0,
        all_digits(decimal(n)),
        digits_value(decimal(n)) == n,
        number(decimal(n)) == Some(n),
    decreases n,
{
    if n < 10 {
        lemma_digit_round_trip(n as int);
        assert(digits_value(decimal(n).drop_last()) == 0);
    } else {
        lemma_decimal_round_trip(n / 10);
        let shorter = decimal(n / 10);
        let s = decimal(n);
        lemma_digit_round_trip((n % 10) as int);
        assert(s.drop_last() =~= shorter);
        assert forall|i: int| 0 <= i < s.len() implies (#[trigger] digit_value(s[i])) is Some by {}
    }
}

/// A zero-padded numeral has the asked width and is all digits.
pub proof fn lemma_padded_shape(n: nat, width: nat)
    ensures
        padded(n, width).len() == width,
        all_digits(padded(n, width)),
    decreases width,
{
    if width > 0 {
        lemma_padded_shape(n / 10, (width - 1) as nat);
        let shorter = padded(n / 10, (width - 1) as nat);
        let s = padded(n, width);
        lemma_digit_round_trip((n % 10) as int);
        assert forall|i: int| 0 <= i < s.len() implies (#[trigger] digit_value(s[i])) is Some by {}
    }
}

/// A zero-padded numeral writes its number, when the width has room for it.
pub proof fn lemma_padded_round_trip(n: nat, width: nat)
    requires
        n < pow10(width),
    ensures
        digits_value(padded(n, width)) == n,
    decreases width,
{
    if width > 0 {
        let shorter = padded(n / 10, (width - 1) as nat);
        let s = padded(n, width);
        lemma_padded_round_trip(n / 10, (width - 1) as nat);
        lemma_digit_round_trip((n % 10) as int);
        assert(s.drop_last() =~= shorter);
    }
}

/// A run of digits writes at least what any of its prefixes writes.
pub proof fn lemma_digits_value_grows(s: Seq<char>, k: int)
    requires
        0 <= k <= s.len(),
    ensures
        digits_value(s.take(k)) <= digits_value(s),
    decreases s.len() - k,
{
    if k == s.len() {
        assert(s.take(k) =~= s);
    } else {
        lemma_digits_value_grows(s.drop_last(), k);
        assert(s.drop_last().take(k) =~= s.take(k));
    }
}

/// Appending a run without separators extends the last field.
pub proof fn lemma_split_extend(a: Seq<char>, b: Seq<char>, sep: char)
    requires
        !b.contains(sep),
    ensures
        split(a + b, sep) == split(a, sep).drop_last().push(split(a, sep).last() + b),
        split(a, sep).len() > 0,
    decreases b.len(),
{
    lemma_split_shape(a, sep);
    if b.len() > 0 {
        let shorter = b.drop_last();
        assert(!shorter.contains(sep));
        assert(b.last() != sep);
        lemma_split_extend(a, shorter, sep);
        assert((a + b).drop_last() =~= a + shorter);
        assert(split(a + shorter, sep).last().push(b.last()) =~= split(a, sep).last() + b);
    }
}

/// A text always has at least one field, and no field holds the separator.
pub proof fn lemma_split_shape(s: Seq<char>, sep: char)
    ensures
        split(s, sep).len() > 0,
        forall|i: int| 0 <= i < split(s, sep).len() ==> !(#[trigger] split(s, sep)[i]).contains(sep),
    decreases s.len(),
{
    if s.len() > 0 {
        lemma_split_shape(s.drop_last(), sep);
        let after = split(s, sep);
        assert forall|i: int| 0 <= i < after.len() implies !(#[trigger] after[i]).contains(sep) by {}
    }
}

/// A separator followed by a run without separators adds that run as a field.
pub proof fn lemma_split_field(a: Seq<char>, b: Seq<char>, sep: char)
    requires
        !b.contains(sep),
    ensures
        split(a.push(sep) + b, sep) == split(a, sep).push(b),
{
    let with_sep = a.push(sep);
    assert(with_sep.drop_last() =~= a);
    lemma_split_extend(with_sep, b, sep);
}

/// A text without separators is its own single field.
pub proof fn lemma_split_single(b: Seq<char>, sep: char)
    requires
        !b.contains(sep),
    ensures
        split(b, sep) == seq![b],
{
    lemma_split_extend(Seq::<char>::empty(), b, sep);
}

/// Joining one more field adds a separator and the field.
pub proof fn lemma_join_push(fields: Seq<Seq<char>>, field: Seq<char>, sep: char)
    requires
        fields.len() > 0,
    ensures
        join(fields.push(field), sep) == join(fields, sep).push(sep) + field,
{
    assert(fields.push(field).drop_last() =~= fields);
}

/// Splitting what `join` wrote gives the fields back, as long as there is
/// at least one field and none of them holds the separator.
pub proof fn lemma_split_join(fields: Seq<Seq<char>>, sep: char)
    requires
        fields.len() > 0,
        forall|i: int| 0 <= i < fields.len() ==> !(#[trigger] fields[i]).contains(sep),
    ensures
        split(join(fields, sep), sep) == fields,
    decreases fields.len(),
{
    if fields.len() == 1 {
        lemma_split_single(fields[0], sep);
    } else {
        let front = fields.drop_last();
        assert forall|i: int| 0 <= i < front.len() implies !(#[trigger] front[i]).contains(sep) by {}
        lemma_split_join(front, sep);
        lemma_split_field(join(front, sep), fields.last(), sep);
    }
}

/// Joining the fields of a text gives the text back. With
/// `lemma_split_shape` and `lemma_split_join` this says what `split` is:
/// the one way to cut a text into fields that hold no separator.
pub proof fn lemma_join_split(s: Seq<char>, sep: char)
    ensures
        join(split(s, sep), sep) == s,
    decreases s.len(),
{
    if s.len() > 0 {
        lemma_join_split(s.drop_last(), sep);
        lemma_split_shape(s.drop_last(), sep);
        let before = split(s.drop_last(), sep);
        let after = split(s, sep);
        if s.last() == sep {
            assert(after.drop_last() =~= before);
        } else {
            let field = before.last().push(s.last());
            if before.len() > 1 {
                assert(after.drop_last() =~= before.drop_last());
                assert(join(before, sep) == join(before.drop_last(), sep).push(sep)
                    + before.last());
                assert(join(before.drop_last(), sep).push(sep) + field =~= (join(
                    before.drop_last(),
                    sep,
                ).push(sep) + before.last()).push(s.last()));
            }
        }
    }
}

fn digit_of(d: u64) -> (c: char)
    requires
        d < 10,
    ensures
        c == digit_char(d as int),
{
    if d == 0 {
        '0'
    } else if d == 1 {
        '1'
    } else if d == 2 {
        '2'
    } else if d == 3 {
        '3'
    } else if d == 4 {
        '4'
    } else if d == 5 {
        '5'
    } else if d == 6 {
        '6'
    } else if d == 7 {
        '7'
    } else if d == 8 {
        '8'
    } else {
        '9'
    }
}

fn value_of_digit(c: char) -> (d: Option<u64>)
    ensures
        match d {
            Some(v) => digit_value(c) == Some(v as int),
            None => digit_value(c) is None,
        },
{
    if c == '0' {
        Some(0)
    } else if c == '1' {
        Some(1)
    } else if c == '2' {
        Some(2)
    } else if c == '3' {
        Some(3)
    } else if c == '4' {
        Some(4)
    } else if c == '5' {
        Some(5)
    } else if c == '6' {
        Some(6)
    } else if c == '7' {
        Some(7)
    } else if c == '8' {
        Some(8)
    } else if c == '9' {
        Some(9)
    } else {
        None
    }
}

/// Appends the shortest decimal numeral of `n` to `out`.
pub fn push_decimal(out: &mut String, n: u64)
    ensures
        final(out)@ == old(out)@ + decimal(n as nat),
    decreases n,
{
    if n >= 10 {
        push_decimal(out, n / 10);
    }
    out.push(digit_of(n % 10));
}

/// Appends the last `width` decimal digits of `n` to `out`, with leading
/// zeros.
pub fn push_padded(out: &mut String, n: u64, width: u8)
    ensures
        final(out)@ == old(out)@ + padded(n as nat, width as nat),
    decreases width,
{
    if width > 0 {
        push_padded(out, n / 10, width - 1);
        out.push(digit_of(n % 10));
    }
}

/// The characters of `text`, in order.
pub fn chars_of(text: &str) -> (chars: Vec<char>)
    ensures
        chars@ == text@,
{
    broadcast use vstd::string::group_string_axioms;

    let mut chars: Vec<char> = Vec::new();
    for c in it: text.chars()
        invariant
            it.seq() == text@,
            chars@ == it.seq().take(it.index() as int),
    {
        chars.push(c);
    }
    chars
}

/// Reads the number that `chars[from..to]` writes, if that range is a
/// non-empty run of digits whose number does not exceed `max`.
pub fn parse_number(chars: &Vec<char>, from: usize, to: usize, max: u64) -> (value: Option<u64>)
    requires
        from <= to <= chars.len(),
    ensures
        match value {
            Some(v) => number_up_to(chars@.subrange(from as int, to as int), max as nat) == Some(
                v as nat,
            ),
            None => number_up_to(chars@.subrange(from as int, to as int), max as nat) is None,
        },
{
    let ghost s = chars@.subrange(from as int, to as int);
    if from == to {
        return None;
    }
    let mut total: u64 = 0;
    let mut i: usize = from;
    while i < to
        invariant
            from <= i <= to <= chars.len(),
            s == chars@.subrange(from as int, to as int),
            all_digits(s.take(i - from)),
            total == digits_value(s.take(i - from)),
            total <= max,
        decreases to - i,
    {
        let ghost prefix = s.take(i - from);
        let ghost longer = s.take(i + 1 - from);
        proof {
            assert(longer.drop_last() =~= prefix);
            assert(longer.last() == chars@[i as int]);
        }
        match value_of_digit(chars[i]) {
            None => {
                return None;
            },
            Some(d) => {
                if d > max || total > (max - d) / 10 {
                    proof {
                        assert(digits_value(longer) > max) by (nonlinear_arith)
                            requires
                                digits_value(longer) == total * 10 + d,
                                total > (max - d) / 10 || d > max,
                                0 <= d < 10,
                                0 <= total,
                        ;
                        lemma_digits_value_grows(s, i + 1 - from);
                    }
                    return None;
                }
                proof {
                    assert(total * 10 + d <= max) by (nonlinear_arith)
                        requires
                            total <= (max - d) / 10,
                            d <= max,
                            0 <= d,
                    ;
                    assert forall|j: int| 0 <= j < longer.len() implies (#[trigger] digit_value(
                        longer[j],
                    )) is Some by {}
                }
                total = total * 10 + d;
                i = i + 1;
            },
        }
    }
    proof {
        assert(s.take(i - from) =~= s);
    }
    Some(total)
}

/// Splits `text` at every occurrence of `sep`.
pub fn split_fields(text: &str, sep: char) -> (fields: Vec<String>)
    ensures
        views(fields@) == split(text@, sep),
{
    broadcast use vstd::string::group_string_axioms;

    let mut fields: Vec<String> = Vec::new();
    let mut current = String::new();
    for c in it: text.chars()
        invariant
            it.seq() == text@,
            views(fields@).push(current@) == split(text@.take(it.index() as int), sep),
    {
        proof {
            let next = text@.take(it.index() + 1);
            assert(next.drop_last() =~= text@.take(it.index() as int));
        }
        if c == sep {
            fields.push(current);
            current = String::new();
        } else {
            current.push(c);
        }
    }
    proof {
        assert(text@.take(text@.len() as int) =~= text@);
    }
    fields.push(current);
    fields
}

} // verus!
