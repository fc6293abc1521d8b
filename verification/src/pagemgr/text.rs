//! Numbers and bytes as text.

use crate::order;
use vstd::prelude::*;
use vstd::string::*;

verus! {

/// `String::push` of the standard library: the character is appended to the
/// end of the string.
pub assume_specification [String::push] (s: &mut String, c: char)
    ensures
        final(s)@ == old(s)@.push(c),
;

/// The character of a digit below sixteen.
pub open spec fn digit(d: int) -> char {
    if d < 10 {
        (48 + d) as char
    } else {
        (87 + d) as char
    }
}

/// A number in decimal notation.
pub open spec fn decimal(n: nat) -> Seq<char>
    decreases n,
{
    if n < 10 {
        seq![digit(n as int)]
    } else {
        decimal(n / 10).push(digit((n % 10) as int))
    }
}

/// Numbers in decimal notation, separated by commas.
pub open spec fn joined(s: Seq<int>) -> Seq<char>
    decreases s.len(),
{
    if s.len() == 0 {
        Seq::empty()
    } else if s.len() == 1 {
        decimal(s[0] as nat)
    } else {
        joined(s.drop_last()) + ", "@ + decimal(s.last() as nat)
    }
}

/// A list of numbers in brackets.
pub open spec fn list(s: Seq<int>) -> Seq<char> {
    "["@ + joined(s) + "]"@
}

/// A byte as two hexadecimal digits.
pub open spec fn hex(b: u8) -> Seq<char> {
    seq![digit(b as int / 16), digit(b as int % 16)]
}

/// Bytes as hexadecimal digits, separated by blanks.
pub open spec fn hex_run(s: Seq<u8>) -> Seq<char>
    decreases s.len(),
{
    if s.len() == 0 {
        Seq::empty()
    } else if s.len() == 1 {
        hex(s[0])
    } else {
        hex_run(s.drop_last()).push(' ') + hex(s.last())
    }
}

/// A byte as a character: itself if it is a visible ASCII character or a
/// blank, else a dot.
pub open spec fn shown(b: u8) -> char {
    if 0x20 <= b <= 0x7e {
        b as char
    } else {
        '.'
    }
}

/// The bytes of a slot, in hexadecimal and as characters.
pub open spec fn slot_text(s: Seq<u8>) -> Seq<char> {
    hex_run(s) + "  |"@ + s.map_values(|b: u8| shown(b)) + "|"@
}

/// The number that some decimal digits make, the most significant one first.
pub open spec fn read_decimal(s: Seq<char>) -> nat
    decreases s.len(),
{
    if s.len() == 0 {
        0
    } else {
        (10 * read_decimal(s.drop_last()) + (s.last() as int - 48)) as nat
    }
}

/// Decimal notation can be read back: it consists of digits, the first of which
/// is not zero unless it is the only one, and these make the number.
pub proof fn decimal_can_be_read_back(n: nat)
    ensures
        read_decimal(decimal(n)) == n,
        decimal(n).len() >= 1,
        forall|i: int| 0 <= i < decimal(n).len() ==> 48 <= #[trigger] decimal(n)[i] as int <= 57,
        n > 0 ==> decimal(n)[0] as int != 48,
        n == 0 ==> decimal(n).len() == 1,
    decreases n,
{
    if n < 10 {
        assert(decimal(n).drop_last() =~= Seq::empty());
        assert(read_decimal(decimal(n).drop_last()) == 0);
        assert(decimal(n).last() as int == 48 + n);
    } else {
        let front = decimal(n / 10);
        decimal_can_be_read_back(n / 10);
        assert(decimal(n).drop_last() =~= front);
        assert(decimal(n).last() as int == 48 + n % 10);
        assert(decimal(n)[0] == front[0]);
        assert forall|i: int| 0 <= i < decimal(n).len() implies 48 <= #[trigger] decimal(
            n,
        )[i] as int <= 57 by {
            if i < front.len() {
                assert(decimal(n)[i] == front[i]);
            }
        }
    }
}

/// A digit behind a number makes it ten times as large and adds its value; a
/// number below ten is one digit.
pub proof fn digits_follow_their_number(n: nat, d: nat)
    requires
        d < 10,
    ensures
        decimal(d).len() == 1,
        decimal(d)[0] as int == 48 + d,
        n > 0 ==> decimal(10 * n + d) == decimal(n).push((48 + d) as char),
{
    assert((10 * n + d) / 10 == n);
    assert((10 * n + d) % 10 == d);
}

/// Different numbers have different texts.
pub proof fn decimals_differ(a: nat, b: nat)
    requires
        a != b,
    ensures
        decimal(a) != decimal(b),
{
    decimal_can_be_read_back(a);
    decimal_can_be_read_back(b);
}

/// The texts of two lists one after the other are the text of both, with a comma
/// in between; the text of one number is its decimal notation.
pub proof fn joined_lists_are_joined(a: Seq<int>, b: Seq<int>)
    requires
        a.len() > 0,
        b.len() > 0,
    ensures
        joined(a + b) == joined(a) + ", "@ + joined(b),
        a.len() == 1 ==> joined(a) == decimal(a[0] as nat),
        b.len() == 1 ==> joined(b) == decimal(b[0] as nat),
        joined(Seq::empty()).len() == 0,
    decreases b.len(),
{
    let all = a + b;
    assert(all.last() == b.last());
    if b.len() == 1 {
        assert(all.drop_last() =~= a);
    } else {
        assert(all.drop_last() =~= a + b.drop_last());
        joined_lists_are_joined(a, b.drop_last());
        assert(joined(all) =~= joined(a) + ", "@ + joined(b));
    }
}

/// The text of a list is that of its numbers between two brackets.
pub proof fn list_is_bracketed(s: Seq<int>)
    ensures
        list(s).len() == joined(s).len() + 2,
        list(s)[0] == '[',
        list(s).last() == ']',
        list(s).subrange(1, list(s).len() - 1) == joined(s),
{
    reveal_strlit("[");
    reveal_strlit("]");
    assert(list(s).subrange(1, list(s).len() - 1) =~= joined(s));
}

/// The number that a hexadecimal digit stands for.
pub open spec fn read_digit(c: char) -> int {
    if c as int <= 57 {
        c as int - 48
    } else {
        c as int - 87
    }
}

/// The two digits of a byte make its value, the more significant one first; they
/// are digits, or letters from `a` to `f`.
pub proof fn hex_can_be_read_back(b: u8)
    ensures
        hex(b).len() == 2,
        16 * read_digit(hex(b)[0]) + read_digit(hex(b)[1]) == b,
        forall|i: int|
            0 <= i < 2 ==> 48 <= #[trigger] hex(b)[i] as int <= 57 || 97 <= hex(b)[i] as int <= 102,
{
}

/// Bytes with the same text are the same.
pub proof fn bytes_differ_in_hex(a: u8, b: u8)
    requires
        a != b,
    ensures
        hex(a) != hex(b),
        a < 10 ==> hex(a) =~= seq!['0', (48 + a) as char],
        a as int / 16 == b as int / 16 ==> hex(a)[0] == hex(b)[0] && hex(a)[1] != hex(b)[1],
        a as int % 16 == b as int % 16 ==> hex(a)[1] == hex(b)[1] && hex(a)[0] != hex(b)[0],
{
    hex_can_be_read_back(a);
    hex_can_be_read_back(b);
}

/// The digits of every byte stand at its place, with a blank between two bytes.
pub proof fn hex_run_shows_every_byte(s: Seq<u8>)
    ensures
        hex_run(s).len() == if s.len() == 0 {
            0
        } else {
            3 * s.len() - 1
        },
        forall|i: int|
            0 <= i < s.len() ==> hex_run(s)[3 * i] == hex(#[trigger] s[i])[0] && hex_run(s)[3 * i
                + 1] == hex(s[i])[1] && (i + 1 < s.len() ==> hex_run(s)[3 * i + 2] == ' '),
    decreases s.len(),
{
    if s.len() > 1 {
        let front = s.drop_last();
        hex_run_shows_every_byte(front);
        assert forall|i: int| 0 <= i < s.len() implies hex_run(s)[3 * i] == hex(#[trigger] s[i])[0]
            && hex_run(s)[3 * i + 1] == hex(s[i])[1] && (i + 1 < s.len() ==> hex_run(s)[3 * i + 2]
            == ' ') by {
            if i < front.len() {
                assert(front[i] == s[i]);
            }
        }
    }
}

/// A slot is shown as the digits of its bytes, followed by one character for
/// every byte between two bars: the byte itself where it is a visible character
/// or a blank, else a dot.
pub proof fn slot_text_shows_every_byte(s: Seq<u8>)
    ensures
        ({
            let n = hex_run(s).len() as int;
            let t = slot_text(s);
            &&& t.len() == n + 3 + s.len() + 1
            &&& t.subrange(0, n) == hex_run(s)
            &&& t[n] == ' '
            &&& t[n + 1] == ' '
            &&& t[n + 2] == '|'
            &&& t.last() == '|'
            &&& forall|i: int|
                0 <= i < s.len() ==> t[n + 3 + i] as int == if 32 <= #[trigger] s[i] < 127 {
                    s[i] as int
                } else {
                    46
                }
        }),
{
    reveal_strlit("  |");
    reveal_strlit("|");
    let n = hex_run(s).len() as int;
    assert(slot_text(s).subrange(0, n) =~= hex_run(s));
}

fn digit_char(d: u8) -> (c: char)
    requires
        d < 16,
    ensures
        c == digit(d as int),
{
    if d < 10 {
        (48 + d) as char
    } else {
        (87 + d) as char
    }
}

/// Appends a number in decimal notation.
pub fn push_decimal(out: &mut String, n: u64)
    ensures
        final(out)@ == old(out)@ + decimal(n as nat),
    decreases n,
{
    if n >= 10 {
        push_decimal(out, n / 10);
    }
    out.push(digit_char((n % 10) as u8));
    assert(out@ =~= old(out)@ + decimal(n as nat));
}

/// Appends a list of numbers in brackets.
pub fn push_list(out: &mut String, v: &Vec<u64>)
    ensures
        final(out)@ == old(out)@ + list(order::ints(v@)),
{
    let ghost all = order::ints(v@);
    out.append("[");
    let ghost start = out@;
    let mut i: usize = 0;
    assert(start =~= start + joined(all.take(0)));
    while i < v.len()
        invariant
            i <= v@.len(),
            all == order::ints(v@),
            out@ == start + joined(all.take(i as int)),
        decreases v@.len() - i,
    {
        let ghost before = out@;
        if i > 0 {
            out.append(", ");
        }
        push_decimal(out, v[i]);
        proof {
            let next = all.take(i + 1);
            assert(next.drop_last() =~= all.take(i as int));
            assert(next.last() == v@[i as int]);
            assert(out@ =~= start + joined(next));
        }
        i = i + 1;
    }
    assert(all.take(i as int) =~= all);
    out.append("]");
    assert(out@ =~= old(out)@ + list(all));
}

/// The bytes of a slot, in hexadecimal and as characters.
pub fn format_slot_bytes(bytes: &[u8]) -> (r: String)
    ensures
        r@ == slot_text(bytes@),
{
    let mut out: String = String::new();
    let mut ascii: String = String::new();
    let mut i: usize = 0;
    let ghost chars = bytes@.map_values(|b: u8| shown(b));
    assert(out@ =~= hex_run(bytes@.take(0)));
    assert(ascii@ =~= chars.take(0));
    while i < bytes.len()
        invariant
            i <= bytes@.len(),
            chars == bytes@.map_values(|b: u8| shown(b)),
            out@ == hex_run(bytes@.take(i as int)),
            ascii@ == chars.take(i as int),
        decreases bytes@.len() - i,
    {
        let b: u8 = bytes[i];
        if i > 0 {
            out.push(' ');
        }
        out.push(digit_char(b / 16));
        out.push(digit_char(b % 16));
        ascii.push(
            if 0x20 <= b && b <= 0x7e {
                b as char
            } else {
                '.'
            },
        );
        proof {
            let next = bytes@.take(i + 1);
            assert(next.drop_last() =~= bytes@.take(i as int));
            assert(next.last() == b);
            assert(out@ =~= hex_run(next));
            assert(ascii@ =~= chars.take(i + 1));
        }
        i = i + 1;
    }
    proof {
        assert(bytes@.take(i as int) =~= bytes@);
        assert(chars.take(i as int) =~= chars);
    }
    out.append("  |");
    out.append(ascii.as_str());
    out.append("|");
    out
}

} // verus!
