//! Small values of the application session: move directions, color choices and the
//! capabilities a waveform-protocol client announced.
use vstd::prelude::*;

verus! {

/// The direction in which items are moved.
#[derive(Debug, Clone, Copy, PartialEq, Eq, Structural)]
pub enum MoveDir {
    Up,
    Down,
}

impl MoveDir {
    /// The name of the direction as it is displayed.
    pub fn name(&self) -> (text: &'static str)
        ensures
            text@ == match *self {
                MoveDir::Up => "up"@,
                MoveDir::Down => "down"@,
            },
    {
        match self {
            MoveDir::Up => "up",
            MoveDir::Down => "down",
        }
    }
}

/// A color chosen by its index in the palette or by its name.
#[derive(Debug, Clone)]
pub enum ColorSpecifier {
    Index(usize),
    Name(String),
}

/// The capabilities that a waveform-protocol client announced.
#[derive(Debug, Clone, Copy, PartialEq, Eq, Structural)]
pub struct WcpClientCapabilities {
    pub waveforms_loaded: bool,
    pub goto_declaration: bool,
    pub add_drivers: bool,
    pub add_loads: bool,
}

impl WcpClientCapabilities {
    /// No capability announced.
    pub fn new() -> (caps: Self)
        ensures
            !caps.waveforms_loaded && !caps.goto_declaration && !caps.add_drivers && !caps.add_loads,
    {
        WcpClientCapabilities { waveforms_loaded: false, goto_declaration: false, add_drivers: false, add_loads: false }
    }
}

} // verus!
