//! The interface to whatever sets up interrupt lines for devices.

use std::sync::Arc;
use vstd::prelude::*;

verus! {

/// The kind of interrupt that a group of lines delivers.
#[derive(Debug, Copy, Clone, PartialEq, Eq, Structural)]
pub enum InterruptSourceType {
    /// Lines of a legacy interrupt controller.
    LegacyIrq,
    /// Message-signalled interrupts.
    MsiIrq,
}

/// The interrupt lines that a device asks for: `count` lines of one kind,
/// from line `base` on.
#[derive(Debug, Copy, Clone, PartialEq, Eq)]
pub struct InterruptRequest {
    /// The kind of the lines.
    pub kind: InterruptSourceType,
    /// The first line.
    pub base: u32,
    /// The number of lines.
    pub count: u32,
}

/// Why a group of interrupt lines could not be set up. The device manager
/// does not look into it.
#[derive(Debug, Copy, Clone, PartialEq, Eq)]
pub struct InterruptError;

/// Sets up groups of interrupt lines.
///
/// The device manager promises nothing of what an implementation does, and
/// is ready for either outcome.
pub trait InterruptManager {
    /// A group of interrupt lines bound to one device. The device manager
    /// only keeps it.
    type Group: ?Sized;

    /// Sets up `count` lines of kind `kind` from line `base` on.
    fn create_group(&self, kind: InterruptSourceType, base: u32, count: u32) -> Result<
        Arc<Self::Group>,
        InterruptError,
    >;
}

} // verus!
