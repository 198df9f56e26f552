//! The command surface of a session: decoding a command number and its
//! argument words into a request, and carrying the request out.

use vstd::prelude::*;

use crate::session::{GpioError, Session, read_level_done, set_mode_done, set_output_done};

verus! {

/// Reads the level of an input pin. Argument: the pin. Result: 0 or 1.
pub const GPIO_READ: u32 = 0xC0047C80;

/// Lists the output pins. Result: up to 28 pin numbers.
pub const GET_OUTPUTS: u32 = 0x80707C81;

/// Lists the input pins. Result: up to 28 pin numbers.
pub const GET_INPUTS: u32 = 0x80707C82;

/// Drives an output pin. Arguments: the pin, and nonzero for high.
pub const SET_OUTPUT: u32 = 0x40087C83;

/// Sets a pin's mode. Arguments: the pin, and nonzero for output.
pub const SET_MODE: u32 = 0x40087C84;

/// A decoded command.
#[derive(PartialEq, Eq, Structural, Clone, Copy, Debug)]
pub enum Request {
    ReadLevel { pin: u32 },
    GetOutputs,
    GetInputs,
    SetOutput { pin: u32, high: bool },
    SetMode { pin: u32, output: bool },
}

/// What a carried-out command hands back.
#[derive(Debug)]
pub enum Reply {
    /// The level read: 0 or 1.
    Level(u32),
    /// The pins of a class.
    Pins(Vec<u32>),
    /// The command took effect and returns nothing.
    Done,
}

/// The request that command `cmd` with argument words `arg0` and `arg1`
/// stands for, if `cmd` is known. A pin word is taken as unsigned; a flag
/// word is true when nonzero.
pub open spec fn request_of(cmd: u32, arg0: i32, arg1: i32) -> Option<Request> {
    if cmd == GPIO_READ {
        Some(Request::ReadLevel { pin: arg0 as u32 })
    } else if cmd == GET_OUTPUTS {
        Some(Request::GetOutputs)
    } else if cmd == GET_INPUTS {
        Some(Request::GetInputs)
    } else if cmd == SET_OUTPUT {
        Some(Request::SetOutput { pin: arg0 as u32, high: arg1 != 0 })
    } else if cmd == SET_MODE {
        Some(Request::SetMode { pin: arg0 as u32, output: arg1 != 0 })
    } else {
        None
    }
}

/// Decodes command `cmd` with argument words `arg0` and `arg1`; fails with
/// `Unsupported` when `cmd` is not a known command.
pub fn decode_request(cmd: u32, arg0: i32, arg1: i32) -> (r: Result<Request, GpioError>)
    ensures
        r == match request_of(cmd, arg0, arg1) {
            Some(q) => Ok::<Request, GpioError>(q),
            None => Err(GpioError::Unsupported),
        },
{
    if cmd == GPIO_READ {
        Ok(Request::ReadLevel { pin: arg0 as u32 })
    } else if cmd == GET_OUTPUTS {
        Ok(Request::GetOutputs)
    } else if cmd == GET_INPUTS {
        Ok(Request::GetInputs)
    } else if cmd == SET_OUTPUT {
        Ok(Request::SetOutput { pin: arg0 as u32, high: arg1 != 0 })
    } else if cmd == SET_MODE {
        Ok(Request::SetMode { pin: arg0 as u32, output: arg1 != 0 })
    } else {
        Err(GpioError::Unsupported)
    }
}

/// What carrying out `q` on `pre` leaves (`post`) and returns (`r`).
pub open spec fn handled(pre: Session, post: Session, q: Request, r: Result<Reply, GpioError>) -> bool {
    match q {
        Request::ReadLevel { pin } => match r {
            Ok(Reply::Level(v)) => read_level_done(pre, post, pin, Ok(v)),
            Err(e) => read_level_done(pre, post, pin, Err(e)),
            _ => false,
        },
        Request::GetOutputs => post == pre && (r matches Ok(Reply::Pins(v)) && v@ == pre.outputs()),
        Request::GetInputs => post == pre && (r matches Ok(Reply::Pins(v)) && v@ == pre.inputs()),
        Request::SetOutput { pin, high } => match r {
            Ok(Reply::Done) => set_output_done(pre, post, pin, high, Ok(())),
            Err(e) => set_output_done(pre, post, pin, high, Err(e)),
            _ => false,
        },
        Request::SetMode { pin, output } => match r {
            Ok(Reply::Done) => set_mode_done(pre, post, pin, output, Ok(())),
            Err(e) => set_mode_done(pre, post, pin, output, Err(e)),
            _ => false,
        },
    }
}

impl Session {
    /// Carries out request `q`.
    pub fn handle(&mut self, q: Request) -> (r: Result<Reply, GpioError>)
        requires
            old(self).wf(),
            old(self).is_open(),
        ensures
            final(self).wf(),
            final(self).is_open(),
            handled(*old(self), *final(self), q, r),
    {
        match q {
            Request::ReadLevel { pin } => match self.read_level(pin) {
                Ok(v) => Ok(Reply::Level(v)),
                Err(e) => Err(e),
            },
            Request::GetOutputs => Ok(Reply::Pins(self.get_output_pins())),
            Request::GetInputs => Ok(Reply::Pins(self.get_input_pins())),
            Request::SetOutput { pin, high } => match self.set_output(pin, high) {
                Ok(()) => Ok(Reply::Done),
                Err(e) => Err(e),
            },
            Request::SetMode { pin, output } => match self.set_mode(pin, output) {
                Ok(()) => Ok(Reply::Done),
                Err(e) => Err(e),
            },
        }
    }

    /// Decodes command `cmd` with argument words `arg0` and `arg1` and
    /// carries it out. An unknown command fails with `Unsupported` and
    /// leaves the session as it was.
    pub fn ioctl(&mut self, cmd: u32, arg0: i32, arg1: i32) -> (r: Result<Reply, GpioError>)
        requires
            old(self).wf(),
            old(self).is_open(),
        ensures
            final(self).wf(),
            final(self).is_open(),
            match request_of(cmd, arg0, arg1) {
                Some(q) => handled(*old(self), *final(self), q, r),
                None => *final(self) == *old(self) && (r matches Err(e) && e
                    == GpioError::Unsupported),
            },
    {
        match decode_request(cmd, arg0, arg1) {
            Ok(q) => self.handle(q),
            Err(e) => Err(e),
        }
    }
}

} // verus!
