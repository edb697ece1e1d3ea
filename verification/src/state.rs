//! On/off state of a device.

use vstd::prelude::*;

use crate::codec::{off_token, on_token};

verus! {

use vstd::string::StringExecFns;

/// Whether a device reports itself on.
///
/// The wire token `on` means on; any other token means off, so reading a
/// state from text never fails.
#[derive(Clone, Copy, Debug, PartialEq, Eq, Structural)]
pub struct DeviceState(pub bool);

/// The wire form of a state: `on` or `off`.
pub open spec fn state_chars(on: bool) -> Seq<char> {
    if on {
        on_token()
    } else {
        off_token()
    }
}

impl DeviceState {
    pub fn get(&self) -> (r: bool)
        ensures
            r == self.0,
    {
        self.0
    }

    /// Read a state token: exactly `on` is on, anything else is off.
    pub fn from_token(s: &str) -> (r: DeviceState)
        ensures
            r.0 == (s@ == on_token()),
    {
        let n = s.unicode_len();
        if n == 2 && s.get_char(0) == 'o' && s.get_char(1) == 'n' {
            proof {
                assert(s@ =~= on_token());
            }
            DeviceState(true)
        } else {
            proof {
                if s@ == on_token() {
                    assert(s@.len() == 2);
                    assert(s@[0] == 'o' && s@[1] == 'n');
                }
            }
            DeviceState(false)
        }
    }

    /// The wire form of this state.
    pub fn token(&self) -> (r: String)
        ensures
            r@ == state_chars(self.0),
    {
        proof {
            reveal_strlit("on");
            reveal_strlit("off");
            assert("on"@ =~= on_token());
            assert("off"@ =~= off_token());
        }
        if self.0 {
            String::from_str("on")
        } else {
            String::from_str("off")
        }
    }
}

} // verus!
