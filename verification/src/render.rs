//! Text forms of numbers, bytes and span lists, as sequences of characters.

use crate::spanset::Span;
use vstd::prelude::*;
use vstd::string::*;

verus! {

/// The character of a digit below sixteen.
pub open spec fn digit_char(d: int) -> char {
    if d == 0 {
        '0'
    } else if d == 1 {
        '1'
    } else if d == 2 {
        '2'
    } else if d == 3 {
        '3'
    } else if d == 4 {
        '4'
    } else if d == 5 {
        '5'
    } else if d == 6 {
        '6'
    } else if d == 7 {
        '7'
    } else if d == 8 {
        '8'
    } else if d == 9 {
        '9'
    } else if d == 10 {
        'a'
    } else if d == 11 {
        'b'
    } else if d == 12 {
        'c'
    } else if d == 13 {
        'd'
    } else if d == 14 {
        'e'
    } else {
        'f'
    }
}

/// A number in decimal, without leading zeros.
pub open spec fn decimal(n: nat) -> Seq<char>
    decreases n,
{
    if n < 10 {
        seq![digit_char(n as int)]
    } else {
        decimal(n / 10).push(digit_char((n % 10) as int))
    }
}

/// A byte as two lower-case hexadecimal digits.
pub open spec fn hex_byte(b: u8) -> Seq<char> {
    seq![digit_char(b as int / 16), digit_char(b as int % 16)]
}

/// A byte string as lower-case hexadecimal digits, two per byte.
pub open spec fn hex(bytes: Seq<u8>) -> Seq<char>
    decreases bytes.len(),
{
    if bytes.len() == 0 {
        Seq::empty()
    } else {
        hex(bytes.drop_last()) + hex_byte(bytes.last())
    }
}

/// One span: its ids one by one where there are at most three of them,
/// otherwise its two ends with `..=` between.
pub open spec fn span_text(s: Span) -> Seq<char> {
    if s.high - s.low > 2 {
        decimal(s.low as nat) + seq!['.', '.', '='] + decimal(s.high as nat)
    } else if s.high == s.low {
        decimal(s.low as nat)
    } else if s.high == s.low + 1 {
        decimal(s.low as nat) + seq![' '] + decimal(s.high as nat)
    } else {
        decimal(s.low as nat) + seq![' '] + decimal((s.low + 1) as nat) + seq![' '] + decimal(
            s.high as nat,
        )
    }
}

/// The spans in order, a blank between two of them.
pub open spec fn spans_text(spans: Seq<Span>) -> Seq<char>
    decreases spans.len(),
{
    if spans.len() == 0 {
        Seq::empty()
    } else if spans.len() == 1 {
        span_text(spans[0])
    } else {
        spans_text(spans.drop_last()) + seq![' '] + span_text(spans.last())
    }
}

/// The text of one digit.
fn digit_str(d: u8) -> (r: &'static str)
    requires
        d < 16,
    ensures
        r@ == seq![digit_char(d as int)],
{
    proof {
        reveal_strlit("0");
        reveal_strlit("1");
        reveal_strlit("2");
        reveal_strlit("3");
        reveal_strlit("4");
        reveal_strlit("5");
        reveal_strlit("6");
        reveal_strlit("7");
        reveal_strlit("8");
        reveal_strlit("9");
        reveal_strlit("a");
        reveal_strlit("b");
        reveal_strlit("c");
        reveal_strlit("d");
        reveal_strlit("e");
        reveal_strlit("f");
    }
    let r = if d == 0 {
        "0"
    } else if d == 1 {
        "1"
    } else if d == 2 {
        "2"
    } else if d == 3 {
        "3"
    } else if d == 4 {
        "4"
    } else if d == 5 {
        "5"
    } else if d == 6 {
        "6"
    } else if d == 7 {
        "7"
    } else if d == 8 {
        "8"
    } else if d == 9 {
        "9"
    } else if d == 10 {
        "a"
    } else if d == 11 {
        "b"
    } else if d == 12 {
        "c"
    } else if d == 13 {
        "d"
    } else if d == 14 {
        "e"
    } else {
        "f"
    };
    assert(r@ =~= seq![digit_char(d as int)]);
    r
}

/// Appends `n` in decimal to `out`.
pub fn push_decimal(out: &mut String, n: u64)
    ensures
        final(out)@ == old(out)@ + decimal(n as nat),
    decreases n,
{
    if n >= 10 {
        push_decimal(out, n / 10);
    }
    out.append(digit_str((n % 10) as u8));
    assert(final(out)@ =~= old(out)@ + decimal(n as nat));
}

/// Appends the bytes to `out` as hexadecimal digits.
pub fn push_hex_slice(out: &mut String, bytes: &[u8])
    ensures
        final(out)@ == old(out)@ + hex(bytes@),
{
    let mut i: usize = 0;
    while i < bytes.len()
        invariant
            0 <= i <= bytes@.len(),
            out@ == old(out)@ + hex(bytes@.take(i as int)),
        decreases bytes@.len() - i,
    {
        let b = bytes[i];
        out.append(digit_str(b / 16));
        out.append(digit_str(b % 16));
        proof {
            let next = bytes@.take(i + 1);
            assert(next.drop_last() =~= bytes@.take(i as int));
            assert(next.last() == b);
            assert(out@ =~= old(out)@ + hex(next));
        }
        i = i + 1;
    }
    assert(bytes@.take(i as int) =~= bytes@);
}

/// Appends one span to `out`.
pub fn push_span(out: &mut String, s: Span)
    requires
        s.low <= s.high,
    ensures
        final(out)@ == old(out)@ + span_text(s),
{
    proof {
        reveal_strlit("..=");
        reveal_strlit(" ");
    }
    push_decimal(out, s.low);
    if s.high - s.low > 2 {
        out.append("..=");
        push_decimal(out, s.high);
        assert(out@ =~= old(out)@ + span_text(s));
    } else if s.high > s.low {
        if s.high > s.low + 1 {
            out.append(" ");
            push_decimal(out, s.low + 1);
        }
        out.append(" ");
        push_decimal(out, s.high);
        assert(out@ =~= old(out)@ + span_text(s));
    }
}

/// Appends the spans to `out`, a blank between two of them.
pub fn push_spans(out: &mut String, spans: &Vec<Span>)
    requires
        forall|i: int| 0 <= i < spans@.len() ==> (#[trigger] spans@[i]).low <= spans@[i].high,
    ensures
        final(out)@ == old(out)@ + spans_text(spans@),
{
    let mut i: usize = 0;
    while i < spans.len()
        invariant
            0 <= i <= spans@.len(),
            forall|i: int| 0 <= i < spans@.len() ==> (#[trigger] spans@[i]).low <= spans@[i].high,
            out@ == old(out)@ + spans_text(spans@.take(i as int)),
        decreases spans@.len() - i,
    {
        let ghost before = out@;
        if i > 0 {
            proof {
                reveal_strlit(" ");
            }
            out.append(" ");
        }
        push_span(out, spans[i]);
        proof {
            let next = spans@.take(i + 1);
            assert(next.drop_last() =~= spans@.take(i as int));
            assert(next.last() == spans@[i as int]);
            let here = span_text(spans@[i as int]);
            if i == 0 {
                assert(spans_text(spans@.take(0)) =~= Seq::<char>::empty());
                assert(next.len() == 1);
                assert(spans_text(next) == here);
                assert(out@ =~= before + here);
                assert(before =~= old(out)@);
            } else {
                assert(next.len() > 1);
                let head = spans_text(spans@.take(i as int));
                assert(spans_text(next) == head + seq![' '] + here);
                assert(out@ =~= before + seq![' '] + here);
            }
            assert(out@ =~= old(out)@ + spans_text(next));
        }
        i = i + 1;
    }
    assert(spans@.take(i as int) =~= spans@);
}

} // verus!
