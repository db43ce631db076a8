//! Unsigned decimal numbers: reading one from its digits, and writing one
//! out.
use vstd::prelude::*;

verus! {

/// Whether `c` is one of the ten decimal digits.
pub open spec fn is_digit(c: char) -> bool {
    0x30 <= c as u32 <= 0x39
}

/// The number that the digit `c` stands for.
pub open spec fn digit_value(c: char) -> nat {
    if is_digit(c) {
        (c as u32 - 0x30) as nat
    } else {
        0
    }
}

/// The digit that stands for `d`, for `d` below ten.
pub open spec fn digit_char(d: nat) -> char {
    seq!['0', '1', '2', '3', '4', '5', '6', '7', '8', '9'][d as int]
}

/// Whether `s` is a run of one or more decimal digits.
pub open spec fn is_decimal(s: Seq<char>) -> bool {
    s.len() > 0 && forall|i: int| 0 <= i < s.len() ==> is_digit(#[trigger] s[i])
}

/// The number that the digits `s` write in base ten.
pub open spec fn decimal_value(s: Seq<char>) -> nat
    decreases s.len(),
{
    if s.len() == 0 {
        0
    } else {
        10 * decimal_value(s.drop_last()) + digit_value(s.last())
    }
}

/// The number that `s` writes, if `s` is a run of decimal digits and the
/// number is at most `max`. Nothing but digits is taken: no sign, no white
/// space, no separator.
pub open spec fn parse_unsigned(s: Seq<char>, max: nat) -> Option<nat> {
    if is_decimal(s) && decimal_value(s) <= max {
        Some(decimal_value(s))
    } else {
        None
    }
}

/// `n` written in base ten, without leading zeros.
pub open spec fn decimal(n: nat) -> Seq<char>
    decreases n,
{
    if n < 10 {
        seq![digit_char(n)]
    } else {
        decimal(n / 10).push(digit_char(n % 10))
    }
}

/// More digits never write a smaller number.
pub proof fn lemma_decimal_value_grows(s: Seq<char>, k: int)
    requires
        0 <= k <= s.len(),
    ensures
        decimal_value(s.take(k)) <= decimal_value(s),
    decreases s.len(),
{
    if k == s.len() {
        assert(s.take(k) =~= s);
    } else {
        assert(s.drop_last().take(k) =~= s.take(k));
        lemma_decimal_value_grows(s.drop_last(), k);
    }
}

/// Reading back what `decimal` wrote gives the number that was written.
pub proof fn lemma_decimal_reads_back(n: nat)
    ensures
        is_decimal(decimal(n)),
        decimal_value(decimal(n)) == n,
        forall|max: nat| n <= max ==> parse_unsigned(decimal(n), max) == Some(n),
    decreases n,
{
    if n < 10 {
        assert(decimal_value(decimal(n).drop_last()) == 0);
    } else {
        lemma_decimal_reads_back(n / 10);
        assert(decimal(n).drop_last() =~= decimal(n / 10));
    }
}

/// The number written in the window `from..to` of `chars`, if that window
/// is a run of decimal digits and the number is at most `max`.
pub(crate) fn scan_unsigned(chars: &[char], from: usize, to: usize, max: u32) -> (number: Option<
    u32,
>)
    requires
        from <= to <= chars@.len(),
    ensures
        match number {
            Some(v) => parse_unsigned(chars@.subrange(from as int, to as int), max as nat) == Some(
                v as nat,
            ),
            None => parse_unsigned(chars@.subrange(from as int, to as int), max as nat) is None,
        },
{
    let ghost s = chars@.subrange(from as int, to as int);
    if from == to {
        return None;
    }
    let mut value: u32 = 0;
    let mut i: usize = from;
    while i < to
        invariant
            from <= i <= to <= chars@.len(),
            s == chars@.subrange(from as int, to as int),
            forall|j: int| 0 <= j < i - from ==> is_digit(#[trigger] s[j]),
            value == decimal_value(s.take(i - from)),
            value <= max,
        decreases to - i,
    {
        let code: u32 = chars[i] as u32;
        if code < 0x30 || code > 0x39 {
            assert(!is_digit(s[i - from]));
            return None;
        }
        let next: u64 = value as u64 * 10 + (code - 0x30) as u64;
        proof {
            assert(s.take(i - from + 1).drop_last() =~= s.take(i - from));
            assert(s.take(i - from + 1).last() == s[i - from]);
            assert(next == decimal_value(s.take(i - from + 1)));
        }
        if next > max as u64 {
            proof {
                lemma_decimal_value_grows(s, i - from + 1);
            }
            return None;
        }
        value = next as u32;
        i += 1;
    }
    assert(s.take(to - from) =~= s);
    Some(value)
}

/// The one-character text of the digit for `d`.
fn digit_text(d: u32) -> (text: &'static str)
    requires
        d < 10,
    ensures
        text@ == seq![digit_char(d as nat)],
{
    proof {
        reveal_strlit("0");
        reveal_strlit("1");
        reveal_strlit("2");
        reveal_strlit("3");
        reveal_strlit("4");
        reveal_strlit("5");
        reveal_strlit("6");
        reveal_strlit("7");
        reveal_strlit("8");
        reveal_strlit("9");
    }
    let text = match d {
        0 => "0",
        1 => "1",
        2 => "2",
        3 => "3",
        4 => "4",
        5 => "5",
        6 => "6",
        7 => "7",
        8 => "8",
        _ => "9",
    };
    assert(text@ =~= seq![digit_char(d as nat)]);
    text
}

/// Appends `n`, written in base ten, to `out`.
pub fn push_decimal(out: &mut String, n: u32)
    ensures
        final(out)@ == old(out)@ + decimal(n as nat),
    decreases n,
{
    if n >= 10 {
        push_decimal(out, n / 10);
    }
    out.append(digit_text(n % 10));
    proof {
        if n >= 10 {
            assert(old(out)@ + decimal(n as nat / 10) + seq![digit_char(n as nat % 10)] =~= old(
                out,
            )@ + decimal(n as nat));
        }
    }
}

} // verus!
