use crate::addr::Address;
use vstd::prelude::*;
use vstd::string::StringExecFns;

verus! {

/// The character of one decimal digit.
pub open spec fn digit_char(d: int) -> char
    recommends
        0 <= d <= 9,
{
    (48 + d) as char
}

/// The decimal digits of a non-negative number, most significant first.
pub open spec fn dec_digits(n: int) -> Seq<char>
    recommends
        n >= 0,
    decreases n,
{
    if n < 10 {
        seq![digit_char(n)]
    } else {
        dec_digits(n / 10).push(digit_char(n % 10))
    }
}

/// Appends the decimal digits of a number.
fn push_dec(out: &mut String, n: u64)
    ensures
        final(out)@ == old(out)@ + dec_digits(n as int),
    decreases n,
{
    if n >= 10 {
        push_dec(out, n / 10);
        let d = (n % 10) as u8;
        out.push((48 + d) as char);
        proof {
            assert(((48 + d) as char) == digit_char(n as int % 10));
            assert(out@ =~= old(out)@ + dec_digits(n as int));
        }
    } else {
        let d = n as u8;
        out.push((48 + d) as char);
        proof {
            assert(((48 + d) as char) == digit_char(n as int));
            assert(out@ =~= old(out)@ + dec_digits(n as int));
        }
    }
}

/// The text of an address: the four octets separated by dots, then a colon
/// and the port.
pub open spec fn addr_text(a: Address) -> Seq<char> {
    dec_digits(a.ip0 as int) + seq!['.'] + dec_digits(a.ip1 as int) + seq!['.'] + dec_digits(
        a.ip2 as int,
    ) + seq!['.'] + dec_digits(a.ip3 as int) + seq![':'] + dec_digits(a.port as int)
}

/// Renders an address as text.
pub fn format_addr(a: &Address) -> (s: String)
    ensures
        s@ == addr_text(*a),
{
    let mut s = String::new();
    push_dec(&mut s, a.ip0 as u64);
    s.push('.');
    push_dec(&mut s, a.ip1 as u64);
    s.push('.');
    push_dec(&mut s, a.ip2 as u64);
    s.push('.');
    push_dec(&mut s, a.ip3 as u64);
    s.push(':');
    push_dec(&mut s, a.port as u64);
    proof {
        assert(s@ =~= addr_text(*a));
    }
    s
}

/// The text of one address inside a listing: the address in double quotes.
pub open spec fn quoted_addr_text(a: Address) -> Seq<char> {
    seq!['"'] + addr_text(a) + seq!['"']
}

/// The quoted addresses joined by a comma and a space.
pub open spec fn joined_addrs_text(s: Seq<Address>) -> Seq<char>
    recommends
        s.len() > 0,
    decreases s.len(),
{
    if s.len() <= 1 {
        quoted_addr_text(s[0])
    } else {
        joined_addrs_text(s.drop_last()) + seq![',', ' '] + quoted_addr_text(s.last())
    }
}

/// The text of a peer listing: each address quoted, joined by comma and
/// space, in brackets; a fixed phrase for an empty listing.
pub open spec fn addr_list_text(s: Seq<Address>) -> Seq<char> {
    if s.len() == 0 {
        "[no one]"@
    } else {
        seq!['['] + joined_addrs_text(s) + seq![']']
    }
}

/// Renders a listing of addresses.
pub fn format_list_of_addrs(items: &Vec<Address>) -> (s: String)
    ensures
        s@ == addr_list_text(items@),
{
    let n = items.len();
    if n == 0 {
        return String::from_str("[no one]");
    }
    let mut s = String::new();
    s.push('[');
    let mut i: usize = 0;
    while i < n
        invariant
            n == items@.len(),
            0 < n,
            i <= n,
            i == 0 ==> s@ == seq!['['],
            i >= 1 ==> s@ == seq!['['] + joined_addrs_text(items@.take(i as int)),
        decreases n - i,
    {
        if i > 0 {
            s.push(',');
            s.push(' ');
        }
        s.push('"');
        let t = format_addr(&items[i]);
        s.append(t.as_str());
        s.push('"');
        proof {
            assert(items@.take(i + 1).drop_last() =~= items@.take(i as int));
            assert(items@.take(i + 1).last() == items@[i as int]);
            if i == 0 {
                assert(joined_addrs_text(items@.take(1)) == quoted_addr_text(items@[0]));
            }
            assert(s@ =~= seq!['['] + joined_addrs_text(items@.take(i + 1)));
        }
        i += 1;
    }
    s.push(']');
    proof {
        assert(items@.take(n as int) =~= items@);
        assert(s@ =~= addr_list_text(items@));
    }
    s
}

/// A number padded with a leading zero to at least two digits.
pub open spec fn two_digit_text(n: int) -> Seq<char>
    recommends
        n >= 0,
{
    if n < 10 {
        seq!['0'] + dec_digits(n)
    } else {
        dec_digits(n)
    }
}

/// The clock-style text of an elapsed duration: hours, minutes and seconds,
/// each at least two digits, separated by colons.
pub open spec fn elapsed_text(total: int) -> Seq<char>
    recommends
        total >= 0,
{
    two_digit_text(total / 3600) + seq![':'] + two_digit_text((total % 3600) / 60) + seq![':']
        + two_digit_text(total % 60)
}

/// Appends a number padded to at least two digits.
fn push_two(out: &mut String, n: u64)
    ensures
        final(out)@ == old(out)@ + two_digit_text(n as int),
{
    if n < 10 {
        out.push('0');
    }
    push_dec(out, n);
    proof {
        assert(out@ =~= old(out)@ + two_digit_text(n as int));
    }
}

/// Renders an elapsed duration in whole seconds as clock-style text, for log
/// stamping.
pub fn format_elapsed(total_secs: u64) -> (s: String)
    ensures
        s@ == elapsed_text(total_secs as int),
{
    let h = total_secs / 3600;
    let m = (total_secs % 3600) / 60;
    let sec = total_secs % 60;
    let mut s = String::new();
    push_two(&mut s, h);
    s.push(':');
    push_two(&mut s, m);
    s.push(':');
    push_two(&mut s, sec);
    proof {
        assert(s@ =~= elapsed_text(total_secs as int));
    }
    s
}

} // verus!
