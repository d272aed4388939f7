use vstd::prelude::*;
use vstd::string::*;

use crate::types::NodeId;

verus! {

/// The lowercase hexadecimal digit of a value below 16.
pub open spec fn hex_digit(n: u8) -> char {
    if n < 10 {
        (('0' as u8) + n) as char
    } else {
        (('a' as u8) + (n - 10)) as char
    }
}

/// Two lowercase hexadecimal digits per byte, most significant first.
pub open spec fn hex_of(bytes: Seq<u8>) -> Seq<char>
    decreases bytes.len(),
{
    if bytes.len() == 0 {
        Seq::empty()
    } else {
        hex_of(bytes.drop_last()) + seq![hex_digit(bytes.last() / 16), hex_digit(bytes.last() % 16)]
    }
}

/// The decimal digit of a value below 10.
pub open spec fn dec_digit(n: u64) -> char {
    (('0' as u8) + n) as char
}

/// A value below 100 in two decimal digits.
pub open spec fn two_digits(n: u64) -> Seq<char> {
    seq![dec_digit(n / 10), dec_digit(n % 10)]
}

/// Hours, minutes and seconds of the day of a Unix time.
pub open spec fn hms_parts(unix_secs: u64) -> (u64, u64, u64) {
    (((unix_secs % 86400) / 3600) as u64, ((unix_secs % 3600) / 60) as u64, (unix_secs % 60) as u64)
}

fn push_hex_digit(out: &mut String, n: u8)
    requires
        n < 16,
    ensures
        final(out)@ == old(out)@ + seq![hex_digit(n)],
{
    let s: &str = if n == 0 {
        proof { reveal_strlit("0"); }
        "0"
    } else if n == 1 {
        proof { reveal_strlit("1"); }
        "1"
    } else if n == 2 {
        proof { reveal_strlit("2"); }
        "2"
    } else if n == 3 {
        proof { reveal_strlit("3"); }
        "3"
    } else if n == 4 {
        proof { reveal_strlit("4"); }
        "4"
    } else if n == 5 {
        proof { reveal_strlit("5"); }
        "5"
    } else if n == 6 {
        proof { reveal_strlit("6"); }
        "6"
    } else if n == 7 {
        proof { reveal_strlit("7"); }
        "7"
    } else if n == 8 {
        proof { reveal_strlit("8"); }
        "8"
    } else if n == 9 {
        proof { reveal_strlit("9"); }
        "9"
    } else if n == 10 {
        proof { reveal_strlit("a"); }
        "a"
    } else if n == 11 {
        proof { reveal_strlit("b"); }
        "b"
    } else if n == 12 {
        proof { reveal_strlit("c"); }
        "c"
    } else if n == 13 {
        proof { reveal_strlit("d"); }
        "d"
    } else if n == 14 {
        proof { reveal_strlit("e"); }
        "e"
    } else {
        proof { reveal_strlit("f"); }
        "f"
    };
    assert(s@ =~= seq![hex_digit(n)]);
    out.append(s);
}

/// Lowercase hexadecimal of the bytes, two digits each.
pub fn bytes_to_hex(bytes: &[u8]) -> (s: String)
    ensures
        s@ == hex_of(bytes@),
{
    let mut out = String::new();
    let mut i: usize = 0;
    while i < bytes.len()
        invariant
            0 <= i <= bytes@.len(),
            out@ == hex_of(bytes@.take(i as int)),
        decreases bytes@.len() - i,
    {
        let b = bytes[i];
        proof {
            let t = bytes@.take(i + 1);
            assert(t.drop_last() =~= bytes@.take(i as int));
            assert(t.last() == b);
        }
        push_hex_digit(&mut out, b / 16);
        push_hex_digit(&mut out, b % 16);
        i = i + 1;
    }
    assert(bytes@.take(bytes@.len() as int) =~= bytes@);
    out
}

/// The first four bytes of a node id in hexadecimal: a short label for display.
pub fn peer_hex(id: &NodeId) -> (s: String)
    ensures
        s@ == hex_of(id.0@.take(4)),
{
    let prefix = [id.0[0], id.0[1], id.0[2], id.0[3]];
    assert(prefix@ =~= id.0@.take(4));
    bytes_to_hex(&prefix)
}

fn push_two_digits(out: &mut String, n: u64)
    requires
        n < 100,
    ensures
        final(out)@ == old(out)@ + two_digits(n),
{
    push_hex_digit(out, (n / 10) as u8);
    push_hex_digit(out, (n % 10) as u8);
}

/// The time of day of a Unix time as `HH:MM:SS UTC`.
pub fn hms(unix_secs: u64) -> (s: String)
    ensures
        s@ == two_digits(hms_parts(unix_secs).0) + seq![':'] + two_digits(hms_parts(unix_secs).1) + seq![':']
            + two_digits(hms_parts(unix_secs).2) + seq![' ', 'U', 'T', 'C'],
{
    let h = (unix_secs % 86400) / 3600;
    let m = (unix_secs % 3600) / 60;
    let sec = unix_secs % 60;
    let mut out = String::new();
    push_two_digits(&mut out, h);
    proof {
        reveal_strlit(":");
        reveal_strlit(" UTC");
    }
    out.append(":");
    push_two_digits(&mut out, m);
    out.append(":");
    push_two_digits(&mut out, sec);
    out.append(" UTC");
    assert(":"@ =~= seq![':']);
    assert(" UTC"@ =~= seq![' ', 'U', 'T', 'C']);
    out
}

} // verus!
