//! The power socket's report.

use vstd::prelude::*;

use crate::codec::{self, dec_chars, spec_parse_message, state_keyword, ParseError};
use crate::decimal::Decimal;
use crate::power::Power;
use crate::state::DeviceState;

verus! {

use vstd::string::StringExecFns;

/// One report from the power socket: a power reading and an on/off state.
#[derive(Clone, Copy, Debug, PartialEq, Eq, Structural)]
pub struct Socket {
    pub power: Power,
    pub state: DeviceState,
}

/// The label that opens a socket message.
pub open spec fn socket_label() -> Seq<char> {
    seq!['S', 'o', 'c', 'k', 'e', 't']
}

/// What parsing a socket message returns, stated over the characters.
pub open spec fn spec_parse_socket(s: Seq<char>) -> Result<Socket, ParseError> {
    match spec_parse_message(s, socket_label(), 'W') {
        Ok((d, st)) => Ok(
            (Socket { power: Power(d), state: DeviceState(st) }),
        ),
        Err(e) => Err(e),
    }
}

/// The wire text of a socket report: the label, one space, the number, the
/// unit letter, one space, `State:`, one space, and the state token.
pub open spec fn spec_socket_message(s: Socket) -> Seq<char> {
    codec::spec_report_text(
        socket_label(),
        'W',
        seq![' '],
        dec_chars(s.power.0),
        seq![' '],
        seq![' '],
        s.state.0,
        Seq::empty(),
    )
}

impl Socket {
    pub open spec fn wf(self) -> bool {
        self.power.0.wf()
    }

    pub fn new(power: Power, state: DeviceState) -> (r: Socket)
        ensures
            r == (Socket { power, state }),
    {
        Socket { power, state }
    }

    pub fn power(&self) -> (r: &Power)
        ensures
            *r == self.power,
    {
        &self.power
    }

    pub fn power_mut(&mut self) -> (r: &mut Power)
        ensures
            *r == old(self).power,
            final(self).power == *final(r),
            final(self).state == old(self).state,
    {
        &mut self.power
    }

    pub fn state(&self) -> (r: &DeviceState)
        ensures
            *r == self.state,
    {
        &self.state
    }

    /// Parse one socket message; see the codec for the grammar.
    pub fn parse(s: &str) -> (r: Result<Socket, ParseError>)
        ensures
            r == spec_parse_socket(s@),
            r matches Ok(v) ==> v.wf() && v.power.0.scale < crate::decimal::MAX_DIGITS,
    {
        proof {
            reveal_strlit("Socket");
            assert("Socket"@ =~= socket_label());
        }
        match codec::parse_message(s, "Socket", 'W') {
            Ok((d, st)) => Ok(Socket { power: Power(d), state: DeviceState(st) }),
            Err(e) => Err(e),
        }
    }

    /// The wire text of this report.
    pub fn to_message(&self) -> (r: String)
        requires
            self.wf(),
        ensures
            r@ == spec_socket_message(*self),
    {
        let mut out = String::new();
        proof {
            reveal_strlit("Socket ");
            assert("Socket "@ =~= socket_label() + seq![' ']);
        }
        out.append("Socket ");
        codec::push_dec_chars(&mut out, self.power.0);
        proof {
            reveal_strlit("W State: ");
            assert("W State: "@ =~= seq!['W', ' '] + state_keyword() + seq![' ']);
        }
        out.append("W State: ");
        let tok = self.state.token();
        out.append(tok.as_str());
        proof {
            assert(out@ =~= spec_socket_message(*self));
        }
        out
    }
}

/// Round trip: every valid socket message — the label, whitespace, a plain
/// decimal number, `W`, whitespace, `State:`, whitespace, `on` or `off`, and
/// anything after the token — parses to exactly that number and that state.
pub proof fn lemma_socket_round_trip(
    w1: Seq<char>,
    num: Seq<char>,
    w2: Seq<char>,
    w3: Seq<char>,
    on: bool,
    rest: Seq<char>,
)
    requires
        w1.len() > 0 && codec::all_spaces(w1),
        w2.len() > 0 && codec::all_spaces(w2),
        w3.len() > 0 && codec::all_spaces(w3),
        codec::is_number_token(num),
        codec::spec_number_ok(num),
    ensures
        spec_parse_socket(codec::spec_report_text(socket_label(), 'W', w1, num, w2, w3, on, rest))
            == Ok::<Socket, ParseError>(
            (Socket {
                power: Power(
                    Decimal {
                        mantissa: codec::token_mantissa(num) as u64,
                        scale: codec::token_scale(num) as u32,
                    },
                ),
                state: DeviceState(on),
            }),
        ),
{
    codec::lemma_parse_round_trip(socket_label(), 'W', w1, num, w2, w3, on, rest);
}

/// A report's printed message parses back to the very same report.  (The
/// one representation it cannot round-trip is a value of the largest scale,
/// whose leading zero needs one digit too many; the parser never produces
/// such a value.)
pub proof fn lemma_socket_message_round_trip(s: Socket)
    requires
        s.wf(),
        s.power.0.scale < crate::decimal::MAX_DIGITS,
    ensures
        spec_parse_socket(spec_socket_message(s)) == Ok::<Socket, ParseError>(s),
{
    let d = s.power.0;
    codec::lemma_dec_chars_token(d);
    let sp = seq![' '];
    assert(codec::all_spaces(sp)) by {
        assert(sp[0] == ' ');
    }
    codec::lemma_parse_round_trip(
        socket_label(),
        'W',
        sp,
        dec_chars(d),
        sp,
        sp,
        s.state.0,
        Seq::empty(),
    );
    assert((Decimal {
        mantissa: codec::token_mantissa(dec_chars(d)) as u64,
        scale: codec::token_scale(dec_chars(d)) as u32,
    }) == d);
}

impl core::str::FromStr for Socket {
    type Err = ParseError;

    fn from_str(s: &str) -> Result<Socket, ParseError> {
        Socket::parse(s)
    }
}

} // verus!
