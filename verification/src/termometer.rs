//! The thermometer's report.
//!
//! The device spells its own label `Termometer` on the wire; the label is
//! matched exactly as the device sends it.

use vstd::prelude::*;

use crate::codec::{self, dec_chars, spec_parse_message, state_keyword, ParseError};
use crate::decimal::Decimal;
use crate::state::DeviceState;
use crate::temperature::Temperature;

verus! {

use vstd::string::StringExecFns;

/// One report from the thermometer: a temperature reading and an on/off
/// state.
#[derive(Clone, Copy, Debug, PartialEq, Eq, Structural)]
pub struct Termometer {
    pub temperature: Temperature,
    pub state: DeviceState,
}

/// The label that opens a thermometer message.
pub open spec fn termometer_label() -> Seq<char> {
    seq!['T', 'e', 'r', 'm', 'o', 'm', 'e', 't', 'e', 'r']
}

/// What parsing a thermometer message returns, stated over the characters.
pub open spec fn spec_parse_termometer(s: Seq<char>) -> Result<Termometer, ParseError> {
    match spec_parse_message(s, termometer_label(), 'C') {
        Ok((d, st)) => Ok(
            (Termometer { temperature: Temperature(d), state: DeviceState(st) }),
        ),
        Err(e) => Err(e),
    }
}

/// The wire text of a thermometer report: the label, one space, the number,
/// the unit letter, one space, `State:`, one space, and the state token.
pub open spec fn spec_termometer_message(t: Termometer) -> Seq<char> {
    codec::spec_report_text(
        termometer_label(),
        'C',
        seq![' '],
        dec_chars(t.temperature.0),
        seq![' '],
        seq![' '],
        t.state.0,
        Seq::empty(),
    )
}

impl Termometer {
    pub open spec fn wf(self) -> bool {
        self.temperature.0.wf()
    }

    pub fn new(temperature: Temperature, state: DeviceState) -> (r: Termometer)
        ensures
            r == (Termometer { temperature, state }),
    {
        Termometer { temperature, state }
    }

    pub fn temperature(&self) -> (r: &Temperature)
        ensures
            *r == self.temperature,
    {
        &self.temperature
    }

    pub fn temperature_mut(&mut self) -> (r: &mut Temperature)
        ensures
            *r == old(self).temperature,
            final(self).temperature == *final(r),
            final(self).state == old(self).state,
    {
        &mut self.temperature
    }

    pub fn state(&self) -> (r: &DeviceState)
        ensures
            *r == self.state,
    {
        &self.state
    }

    /// Parse one thermometer message; see the codec for the grammar.
    pub fn parse(s: &str) -> (r: Result<Termometer, ParseError>)
        ensures
            r == spec_parse_termometer(s@),
            r matches Ok(v) ==> v.wf() && v.temperature.0.scale < crate::decimal::MAX_DIGITS,
    {
        proof {
            reveal_strlit("Termometer");
            assert("Termometer"@ =~= termometer_label());
        }
        match codec::parse_message(s, "Termometer", 'C') {
            Ok((d, st)) => Ok(Termometer { temperature: Temperature(d), state: DeviceState(st) }),
            Err(e) => Err(e),
        }
    }

    /// The wire text of this report.
    pub fn to_message(&self) -> (r: String)
        requires
            self.wf(),
        ensures
            r@ == spec_termometer_message(*self),
    {
        let mut out = String::new();
        proof {
            reveal_strlit("Termometer ");
            assert("Termometer "@ =~= termometer_label() + seq![' ']);
        }
        out.append("Termometer ");
        codec::push_dec_chars(&mut out, self.temperature.0);
        proof {
            reveal_strlit("C State: ");
            assert("C State: "@ =~= seq!['C', ' '] + state_keyword() + seq![' ']);
        }
        out.append("C State: ");
        let tok = self.state.token();
        out.append(tok.as_str());
        proof {
            assert(out@ =~= spec_termometer_message(*self));
        }
        out
    }
}

/// Round trip: every valid thermometer message — the label, whitespace, a
/// plain decimal number, `C`, whitespace, `State:`, whitespace, `on` or
/// `off`, and anything after the token — parses to exactly that number and
/// that state.
pub proof fn lemma_termometer_round_trip(
    w1: Seq<char>,
    num: Seq<char>,
    w2: Seq<char>,
    w3: Seq<char>,
    on: bool,
    rest: Seq<char>,
)
    requires
        w1.len() > 0 && codec::all_spaces(w1),
        w2.len() > 0 && codec::all_spaces(w2),
        w3.len() > 0 && codec::all_spaces(w3),
        codec::is_number_token(num),
        codec::spec_number_ok(num),
    ensures
        spec_parse_termometer(
            codec::spec_report_text(termometer_label(), 'C', w1, num, w2, w3, on, rest),
        ) == Ok::<Termometer, ParseError>(
            (Termometer {
                temperature: Temperature(
                    Decimal {
                        mantissa: codec::token_mantissa(num) as u64,
                        scale: codec::token_scale(num) as u32,
                    },
                ),
                state: DeviceState(on),
            }),
        ),
{
    codec::lemma_parse_round_trip(termometer_label(), 'C', w1, num, w2, w3, on, rest);
}

/// A report's printed message parses back to the very same report.  (The
/// one representation it cannot round-trip is a value of the largest scale,
/// whose leading zero needs one digit too many; the parser never produces
/// such a value.)
pub proof fn lemma_termometer_message_round_trip(t: Termometer)
    requires
        t.wf(),
        t.temperature.0.scale < crate::decimal::MAX_DIGITS,
    ensures
        spec_parse_termometer(spec_termometer_message(t)) == Ok::<Termometer, ParseError>(t),
{
    let d = t.temperature.0;
    codec::lemma_dec_chars_token(d);
    let sp = seq![' '];
    assert(codec::all_spaces(sp)) by {
        assert(sp[0] == ' ');
    }
    codec::lemma_parse_round_trip(
        termometer_label(),
        'C',
        sp,
        dec_chars(d),
        sp,
        sp,
        t.state.0,
        Seq::empty(),
    );
    assert((Decimal {
        mantissa: codec::token_mantissa(dec_chars(d)) as u64,
        scale: codec::token_scale(dec_chars(d)) as u32,
    }) == d);
}

impl core::str::FromStr for Termometer {
    type Err = ParseError;

    fn from_str(s: &str) -> Result<Termometer, ParseError> {
        Termometer::parse(s)
    }
}

} // verus!
