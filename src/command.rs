//! The controller's command bytes.
use vstd::prelude::*;

verus! {

/// Temperature coefficient of the LCD supply voltage (extended instruction set).
#[derive(Clone, Copy, Debug, PartialEq, Eq, Structural)]
pub enum TemperatureCoefficient {
    TC0,
    TC1,
    TC2,
    TC3,
}

/// Bias system ratio (extended instruction set).
#[derive(Clone, Copy, Debug, PartialEq, Eq, Structural)]
pub enum BiasMode {
    Bias1To100,
    Bias1To80,
    Bias1To65,
    Bias1To48,
    Bias1To40,
    Bias1To24,
    Bias1To18,
    Bias1To10,
}

/// Display configuration (basic instruction set).
#[derive(Clone, Copy, Debug, PartialEq, Eq, Structural)]
pub enum DisplayMode {
    DisplayBlank,
    NormalMode,
    AllSegmentsOn,
    InverseVideoMode,
}

impl TemperatureCoefficient {
    pub open spec fn spec_bits(self) -> u8 {
        match self {
            TemperatureCoefficient::TC0 => 0,
            TemperatureCoefficient::TC1 => 1,
            TemperatureCoefficient::TC2 => 2,
            TemperatureCoefficient::TC3 => 3,
        }
    }

    /// The coefficient's two-bit field.
    pub fn bits(self) -> (r: u8)
        ensures
            r == self.spec_bits(),
    {
        match self {
            TemperatureCoefficient::TC0 => 0,
            TemperatureCoefficient::TC1 => 1,
            TemperatureCoefficient::TC2 => 2,
            TemperatureCoefficient::TC3 => 3,
        }
    }
}

impl BiasMode {
    pub open spec fn spec_bits(self) -> u8 {
        match self {
            BiasMode::Bias1To100 => 0,
            BiasMode::Bias1To80 => 1,
            BiasMode::Bias1To65 => 2,
            BiasMode::Bias1To48 => 3,
            BiasMode::Bias1To40 => 4,
            BiasMode::Bias1To24 => 5,
            BiasMode::Bias1To18 => 6,
            BiasMode::Bias1To10 => 7,
        }
    }

    /// The ratio's three-bit field.
    pub fn bits(self) -> (r: u8)
        ensures
            r == self.spec_bits(),
    {
        match self {
            BiasMode::Bias1To100 => 0,
            BiasMode::Bias1To80 => 1,
            BiasMode::Bias1To65 => 2,
            BiasMode::Bias1To48 => 3,
            BiasMode::Bias1To40 => 4,
            BiasMode::Bias1To24 => 5,
            BiasMode::Bias1To18 => 6,
            BiasMode::Bias1To10 => 7,
        }
    }
}

impl DisplayMode {
    pub open spec fn spec_bits(self) -> u8 {
        match self {
            DisplayMode::DisplayBlank => 0b000,
            DisplayMode::NormalMode => 0b100,
            DisplayMode::AllSegmentsOn => 0b001,
            DisplayMode::InverseVideoMode => 0b101,
        }
    }

    /// The mode's D and E bits.
    pub fn bits(self) -> (r: u8)
        ensures
            r == self.spec_bits(),
    {
        match self {
            DisplayMode::DisplayBlank => 0b000,
            DisplayMode::NormalMode => 0b100,
            DisplayMode::AllSegmentsOn => 0b001,
            DisplayMode::InverseVideoMode => 0b101,
        }
    }
}

/// Function set: power-down, entry mode and extended instruction set flags.
pub open spec fn function_set_byte(power_down: bool, entry_mode: bool, extended: bool) -> u8 {
    (0x20u8 | (if power_down { 0x04u8 } else { 0u8 }) | (if entry_mode { 0x02u8 } else { 0u8 })
        | (if extended { 0x01u8 } else { 0u8 })) as u8
}

pub open spec fn display_mode_byte(mode: DisplayMode) -> u8 {
    (0x08u8 | mode.spec_bits()) as u8
}

pub open spec fn bias_byte(bias: BiasMode) -> u8 {
    (0x10u8 | bias.spec_bits()) as u8
}

pub open spec fn temperature_byte(coefficient: TemperatureCoefficient) -> u8 {
    (0x04u8 | coefficient.spec_bits()) as u8
}

/// Set Vop: the command marker in bit 7 and the low seven bits of `contrast`.
pub open spec fn contrast_byte(contrast: u8) -> u8 {
    (0x80u8 | (contrast & 0x7fu8)) as u8
}

/// Builds the function-set command byte.
pub fn function_set(power_down: bool, entry_mode: bool, extended: bool) -> (r: u8)
    ensures
        r == function_set_byte(power_down, entry_mode, extended),
{
    let p: u8 = if power_down { 0x04 } else { 0 };
    let e: u8 = if entry_mode { 0x02 } else { 0 };
    let x: u8 = if extended { 0x01 } else { 0 };
    0x20u8 | p | e | x
}

/// Builds the Set Vop command byte. Bits of `contrast` above the seventh are
/// dropped, so the command marker is never disturbed.
pub fn contrast_command(contrast: u8) -> (r: u8)
    ensures
        r == contrast_byte(contrast),
        r & 0x80u8 == 0x80u8,
        contrast < 128 ==> r == 0x80u8 | contrast,
{
    let r: u8 = 0x80u8 | (contrast & 0x7f);
    assert(r & 0x80u8 == 0x80u8) by (bit_vector)
        requires r == 0x80u8 | (contrast & 0x7fu8);
    assert(contrast < 128 ==> r == 0x80u8 | contrast) by (bit_vector)
        requires r == 0x80u8 | (contrast & 0x7fu8);
    r
}

} // verus!
