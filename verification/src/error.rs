//! What can go wrong with an adapter.

use vstd::prelude::*;

use crate::jam::{report, Flaw};
use crate::text;

verus! {

/// An error from anything that talks to hardware.
#[derive(Debug)]
#[non_exhaustive]
pub enum Error {
    /// The host has no Bluetooth adapter, or none the platform will hand over.
    NoAdapter,
    /// A scan ran its course without a Tentacle answering. Only raised by something that
    /// needs a *particular* box.
    NoTentacle { filter: Option<String> },
    /// The box would not accept a connection. It stops accepting them after a few dozen
    /// rapid ones while still advertising.
    Connect { name: String, reason: String },
    /// The box connected and its GATT tree had no timecode characteristic in it.
    NoTimecodeCharacteristic,
    /// A capture was taken and could not be reduced.
    Calibration(Flaw),
    /// The adapter refused something, in its own words.
    Bluetooth(String),
}

/// `0xFDAC`, as messages write it.
pub open spec fn service_text() -> Seq<char> {
    "0xFDAC"@
}

/// What an error says.
pub open spec fn error_text(e: Error) -> Seq<char> {
    match e {
        Error::NoAdapter => "no bluetooth adapter"@,
        Error::NoTentacle { filter } => "no Tentacle advertising "@ + service_text() + (match filter {
            Some(filter) => " named like "@ + text::quoted(filter@),
            None => Seq::empty(),
        }),
        Error::Connect { name, reason } => "could not connect to "@ + name@ + ": "@ + reason@,
        Error::NoTimecodeCharacteristic => "no timecode characteristic on this device"@,
        Error::Calibration(flaw) => report::flaw_text(flaw@),
        Error::Bluetooth(said) => "bluetooth: "@ + said@,
    }
}

impl Error {
    /// The error in words.
    pub fn to_string(&self) -> (out: String)
        ensures
            out@ == error_text(*self),
    {
        let mut out = String::new();
        match self {
            Error::NoAdapter => {
                out.push_str("no bluetooth adapter");
            },
            Error::NoTentacle { filter } => {
                out.push_str("no Tentacle advertising ");
                put_service(&mut out);
                match filter {
                    Some(filter) => {
                        out.push_str(" named like ");
                        out.push_str(text::quote(filter.as_str()).as_str());
                    },
                    None => {},
                }
            },
            Error::Connect { name, reason } => {
                out.push_str("could not connect to ");
                out.push_str(name.as_str());
                out.push_str(": ");
                out.push_str(reason.as_str());
            },
            Error::NoTimecodeCharacteristic => {
                out.push_str("no timecode characteristic on this device");
            },
            Error::Calibration(flaw) => {
                out.push_str(flaw.to_string().as_str());
            },
            Error::Bluetooth(said) => {
                out.push_str("bluetooth: ");
                out.push_str(said.as_str());
            },
        }
        assert(out@ =~= error_text(*self));
        out
    }
}

/// Writes the Tentacle's service as `0x` and four hexadecimal digits, in capitals.
pub fn put_service(out: &mut String)
    ensures
        final(out)@ == old(out)@ + service_text(),
{
    out.push_str("0xFDAC");
}

impl From<Flaw> for Error {
    fn from(flaw: Flaw) -> (e: Error) {
        Error::Calibration(flaw)
    }
}

impl vstd::std_specs::convert::FromSpecImpl<Flaw> for Error {
    open spec fn obeys_from_spec() -> bool {
        true
    }

    open spec fn from_spec(flaw: Flaw) -> Error {
        Error::Calibration(flaw)
    }
}

} // verus!
