//! The command builder: accumulates an ordered list of byte-string
//! arguments, the operation name first, and hands an embedding the exact
//! request bytes to send. The builder owns no connection; the transport
//! belongs to the caller, which sends the bytes, accumulates reply bytes,
//! and decodes them with [`crate::decode::parse_response`], reading more
//! while the decode error is recoverable.

use vstd::prelude::*;
use vstd::string::*;

use crate::encode::{create_command, spec_encode_command};
use crate::errors::EncodeError;

verus! {

/// A command under construction: its arguments in order, by value.
#[derive(Debug)]
pub struct Cmd {
    args: Vec<Vec<u8>>,
}

impl View for Cmd {
    type V = Seq<Seq<u8>>;

    closed spec fn view(&self) -> Seq<Seq<u8>> {
        self.args.deep_view()
    }
}

impl Cmd {
    /// Start a command from its operation name.
    pub fn cmd(cmd: &str) -> (r: Self)
        ensures
            r@ == seq![cmd.spec_bytes()],
    {
        let mut args: Vec<Vec<u8>> = Vec::new();
        args.push(vstd::slice::slice_to_vec(cmd.as_bytes()));
        let r = Cmd { args };
        proof {
            assert(r@ =~~= seq![cmd.spec_bytes()]);
        }
        r
    }

    /// Append one argument to the command.
    pub fn arg(self, arg: &str) -> (r: Self)
        ensures
            r@ == self@.push(arg.spec_bytes()),
    {
        let ghost before = self@;
        let mut args = self.args;
        args.push(vstd::slice::slice_to_vec(arg.as_bytes()));
        let r = Cmd { args };
        proof {
            assert(r@ =~~= before.push(arg.spec_bytes()));
        }
        r
    }

    /// Encode an argument list as one request frame.
    pub fn create_command(args: &Vec<Vec<u8>>) -> (r: Result<Vec<u8>, EncodeError>)
        ensures
            (match r {
                Ok(out) => args@.len() > 0 && out@ == spec_encode_command(args.deep_view()),
                Err(e) => args@.len() == 0 && e == EncodeError::EmptyCommand,
            }),
    {
        create_command(args)
    }

    /// The exact bytes this command puts on the wire.
    pub fn request_bytes(&self) -> (r: Result<Vec<u8>, EncodeError>)
        ensures
            (match r {
                Ok(out) => self@.len() > 0 && out@ == spec_encode_command(self@),
                Err(e) => self@.len() == 0 && e == EncodeError::EmptyCommand,
            }),
    {
        Self::create_command(&self.args)
    }
}

} // verus!
