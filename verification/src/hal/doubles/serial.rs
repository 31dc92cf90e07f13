//! A serial port for tests, on which nothing ever happens.
use crate::hal::serial::Read;
use crate::hal::serial::TimeoutRead;
use crate::hal::serial::Write;
use crate::hal::time::Milliseconds;
use vstd::prelude::*;

verus! {

#[derive(Copy, Clone, Debug)]
pub struct SerialStubError;

/// A serial port that swallows what is written to it and reads zeros.
pub struct SerialStub;

impl Write for SerialStub {
    type Error = SerialStubError;

    fn write_str(&mut self, _text: &str) -> (result: Result<(), SerialStubError>)
        ensures
            result is Ok,
    {
        Ok(())
    }
}

impl Read for SerialStub {
    type Error = SerialStubError;

    fn read(&mut self) -> (result: Result<u8, nb::Error<SerialStubError>>)
        ensures
            result matches Ok(byte) && byte == 0,
    {
        Ok(0)
    }
}

impl TimeoutRead for SerialStub {
    type Error = SerialStubError;

    fn read_within(&mut self, _timeout: Milliseconds) -> (result: Result<u8, SerialStubError>)
        ensures
            result matches Ok(byte) && byte == 0,
    {
        Ok(0)
    }
}

} // verus!
