//! Process configuration as the rest of the program consumes it. The
//! reading of the environment happens outside the library; here lives
//! the data and the one derived value, the listen address.

use vstd::prelude::*;

verus! {

/// Everything the process needs to run: where the data lives, the
/// token-signing secret and lifetime, and where to listen.
#[derive(Clone)]
pub struct Config {
    pub database_url: String,
    pub jwt_secret: String,
    pub jwt_expiration_hours: i64,
    pub server_host: String,
    pub server_port: u16,
}

/// The character of one decimal digit.
pub open spec fn spec_digit_char(d: int) -> char {
    if d == 0 {
        '0'
    } else if d == 1 {
        '1'
    } else if d == 2 {
        '2'
    } else if d == 3 {
        '3'
    } else if d == 4 {
        '4'
    } else if d == 5 {
        '5'
    } else if d == 6 {
        '6'
    } else if d == 7 {
        '7'
    } else if d == 8 {
        '8'
    } else {
        '9'
    }
}

/// The decimal digits of a non-negative number, most significant
/// first, with no leading zero except for zero itself.
pub open spec fn spec_decimal(n: int) -> Seq<char>
    recommends
        n >= 0,
    decreases n,
{
    if n < 10 {
        seq![spec_digit_char(n)]
    } else {
        spec_decimal(n / 10).push(spec_digit_char(n % 10))
    }
}

/// Relies on std's `String::push`: appends exactly the one character.
#[verifier::external_body]
fn push_char(s: &mut String, c: char)
    ensures
        final(s)@ == old(s)@.push(c),
{
    s.push(c);
}

/// Append the decimal digits of `n`, most significant first.
fn push_decimal(s: &mut String, n: u16)
    ensures
        final(s)@ == old(s)@ + spec_decimal(n as int),
    decreases n,
{
    if n >= 10 {
        push_decimal(s, n / 10);
    }
    let d = n % 10;
    let c = if d == 0 {
        '0'
    } else if d == 1 {
        '1'
    } else if d == 2 {
        '2'
    } else if d == 3 {
        '3'
    } else if d == 4 {
        '4'
    } else if d == 5 {
        '5'
    } else if d == 6 {
        '6'
    } else if d == 7 {
        '7'
    } else if d == 8 {
        '8'
    } else {
        '9'
    };
    push_char(s, c);
    proof {
        if n < 10 {
            assert(old(s)@ + spec_decimal(n as int) =~= old(s)@.push(spec_digit_char(n as int)));
        } else {
            assert(old(s)@ + spec_decimal(n as int) =~= (old(s)@ + spec_decimal(
                n as int / 10,
            )).push(spec_digit_char(n as int % 10)));
        }
    }
}

impl Config {
    /// The address the server binds: the host, a colon, and the port
    /// in decimal.
    pub fn server_addr(&self) -> (r: String)
        ensures
            r@ == self.server_host@ + seq![':'] + spec_decimal(self.server_port as int),
    {
        let mut s = self.server_host.clone();
        push_char(&mut s, ':');
        push_decimal(&mut s, self.server_port);
        proof {
            assert(self.server_host@.push(':') =~= self.server_host@ + seq![':']);
        }
        s
    }
}

} // verus!
