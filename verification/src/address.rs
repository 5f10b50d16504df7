//! The addresses that a server listens on.

use crate::text;
use vstd::prelude::*;

verus! {

/// Why a text is no address.
#[derive(Debug, Clone, Copy, PartialEq, Eq, Structural)]
pub enum AddressError {
    /// There is no colon.
    Address,
    /// What stands behind the last colon is no port.
    Port,
}

/// The message of an error.
pub open spec fn address_error_text(e: AddressError) -> Seq<char> {
    match e {
        AddressError::Address => "invalid address"@,
        AddressError::Port => "invalid port"@,
    }
}

impl AddressError {
    /// The message of the error.
    pub fn message(self) -> (m: &'static str)
        ensures
            m@ == address_error_text(self),
    {
        match self {
            AddressError::Address => "invalid address",
            AddressError::Port => "invalid port",
        }
    }
}

/// The value of a digit, if a character is one.
pub open spec fn digit_value(c: char) -> Option<int> {
    if '0' <= c <= '9' {
        Some(c as int - '0' as int)
    } else {
        None
    }
}

/// The number that digits stand for; none where a character is no digit.
pub open spec fn number_of(chars: Seq<char>) -> Option<int>
    decreases chars.len(),
{
    if chars.len() == 0 {
        Some(0)
    } else {
        match (number_of(chars.drop_last()), digit_value(chars.last())) {
            (Some(n), Some(d)) => Some(10 * n + d),
            _ => None,
        }
    }
}

/// The digits of a number that may begin with a plus sign.
pub open spec fn unsigned(chars: Seq<char>) -> Seq<char> {
    if chars.len() > 0 && chars[0] == '+' {
        chars.skip(1)
    } else {
        chars
    }
}

/// The port that a text stands for.
pub open spec fn port_of(chars: Seq<char>) -> Option<int> {
    let digits = unsigned(chars);
    match number_of(digits) {
        Some(n) => if digits.len() > 0 && n <= 65535 {
            Some(n)
        } else {
            None
        },
        None => None,
    }
}

/// A number does not shrink when digits are added.
proof fn number_grows(chars: Seq<char>, n: int)
    requires
        0 <= n <= chars.len(),
        number_of(chars) is Some,
    ensures
        number_of(chars.take(n)) is Some,
        0 <= number_of(chars.take(n))->0 <= number_of(chars)->0,
    decreases chars.len(),
{
    if n == chars.len() {
        assert(chars.take(n) =~= chars);
        if n > 0 {
            number_grows(chars.drop_last(), n - 1);
            assert(chars.drop_last().take(n - 1) =~= chars.drop_last());
        }
    } else {
        number_grows(chars.drop_last(), n);
        assert(chars.drop_last().take(n) =~= chars.take(n));
    }
}

/// The port that characters from `from` on stand for.
fn read_port(chars: &Vec<char>, from: usize) -> (port: Option<u16>)
    requires
        from <= chars@.len(),
    ensures
        match port {
            Some(p) => port_of(chars@.skip(from as int)) == Some(p as int),
            None => port_of(chars@.skip(from as int)) is None,
        },
{
    let ghost all = chars@.skip(from as int);
    let ghost digits = unsigned(all);
    let mut i: usize = from;
    if i < chars.len() && chars[i] == '+' {
        i += 1;
        assert(digits =~= chars@.skip(i as int));
    }
    let start: usize = i;
    if start == chars.len() {
        return None;
    }
    let mut n: u32 = 0;
    assert(digits.take(0) =~= Seq::empty());
    while i < chars.len()
        invariant
            start <= i <= chars@.len(),
            digits == chars@.skip(start as int),
            number_of(digits.take(i - start)) == Some(n as int),
            n <= 65535,
            all == chars@.skip(from as int),
            digits == unsigned(all),
        decreases chars@.len() - i,
    {
        let c: char = chars[i];
        proof {
            assert(digits.take(i + 1 - start).drop_last() =~= digits.take(i - start));
            assert(digits.take(i + 1 - start).last() == c);
            if number_of(digits) is Some {
                number_grows(digits, i + 1 - start);
            }
        }
        if c < '0' || c > '9' {
            return None;
        }
        n = 10 * n + (c as u32 - '0' as u32);
        i += 1;
        if n > 65535 {
            return None;
        }
    }
    assert(digits.take(i - start) =~= digits);
    Some(n as u16)
}

/// Where the last colon is.
pub open spec fn last_colon(chars: Seq<char>) -> int
    decreases chars.len(),
{
    if chars.len() == 0 {
        -1
    } else if chars.last() == ':' {
        chars.len() - 1
    } else {
        last_colon(chars.drop_last())
    }
}

/// Splits an address at its last colon into a host and a port.
pub fn split_address(addr: &str) -> (r: Result<(String, u16), AddressError>)
    ensures
        ({
            let at = last_colon(addr@);
            match r {
                Ok(parts) => {
                    &&& at >= 0
                    &&& parts.0@ == addr@.take(at)
                    &&& port_of(addr@.skip(at + 1)) == Some(parts.1 as int)
                },
                Err(AddressError::Address) => at < 0,
                Err(AddressError::Port) => at >= 0 && port_of(addr@.skip(at + 1)) is None,
            }
        }),
{
    let chars = text::chars_of(addr);
    let mut at: usize = chars.len();
    assert(chars@.take(at as int) =~= chars@);
    while at > 0
        invariant
            at <= chars@.len(),
            chars@ == addr@,
            last_colon(addr@) == last_colon(chars@.take(at as int)),
        decreases at,
    {
        assert(chars@.take(at as int).drop_last() =~= chars@.take(at - 1));
        if chars[at - 1] == ':' {
            return match read_port(&chars, at) {
                Some(port) => {
                    let host = text::text_of(&chars, 0, at - 1);
                    assert(host@ =~= addr@.take(at - 1));
                    Ok((host, port))
                },
                None => Err(AddressError::Port),
            };
        }
        at -= 1;
    }
    Err(AddressError::Address)
}

} // verus!
