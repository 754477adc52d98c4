//! The device handle: configuration flags, the framebuffer, and the command
//! and data transactions issued through the serial channel and control lines.
use vstd::prelude::*;

use crate::bus::{
    frame, frames, lemma_frames_append, lemma_frames_index, lemma_frames_len, lemma_frames_push,
    lemma_log_push, lemma_logs_append, lemma_run_prefix, lemma_run_single, lemma_run_then, line_log, ops_of, run,
    spi_log, tagged, BusOp, Line, OutputError, OutputPin, SpiWrite,
};
use crate::command::{
    bias_byte, contrast_byte, contrast_command, display_mode_byte, function_set,
    function_set_byte, temperature_byte, BiasMode, DisplayMode, TemperatureCoefficient,
};
use crate::pixels::{
    in_bounds, lemma_filled_bit, lemma_pixel_index, lemma_pixel_index_eq, lemma_with_bit,
    pixel_index, pixel_on, set_bit, with_bit, BUFFER_LEN, HEIGHT, WIDTH,
};

verus! {

/// A pixel's color on a two-state display.
#[derive(Clone, Copy, Debug, PartialEq, Eq, Structural)]
pub enum BinaryColor {
    Off,
    On,
}

/// The error of a driver over the given resources.
pub type DriverError<SPI, DC, CE, RST, LIGHT> = OutputError<
    <SPI as SpiWrite>::Error,
    <DC as OutputPin>::Error,
    <CE as OutputPin>::Error,
    <RST as OutputPin>::Error,
    <LIGHT as OutputPin>::Error,
>;

/// Every byte of a framebuffer holding `byte`.
pub open spec fn filled(byte: u8) -> Seq<u8> {
    Seq::new(504, |_i: int| byte)
}

/// The data transactions that send framebuffer `fb`, in its own order.
pub open spec fn data_txs(fb: Seq<u8>) -> Seq<(bool, u8)> {
    Seq::new(fb.len(), |i: int| (true, fb[i]))
}

/// The operations of `init`: a reset pulse, then each command's transaction.
pub open spec fn init_ops() -> Seq<BusOp> {
    seq![BusOp::Reset(false), BusOp::Reset(true)]
        + frame(false, function_set_byte(false, false, true))
        + frame(false, contrast_byte(56))
        + frame(false, temperature_byte(TemperatureCoefficient::TC3))
        + frame(false, bias_byte(BiasMode::Bias1To40))
        + frame(false, function_set_byte(false, false, false))
        + frame(false, display_mode_byte(DisplayMode::NormalMode))
}

/// Flushing a blank framebuffer sends exactly 504 data transactions, each of
/// the byte `0x00`, one after the other.
pub proof fn lemma_flush_blank()
    ensures
        data_txs(filled(0)) == Seq::new(504, |_i: int| (true, 0u8)),
        frames(data_txs(filled(0))).len() == 4 * 504,
        forall|k: int|
            0 <= k < 504 ==> #[trigger] frames(data_txs(filled(0))).subrange(4 * k, 4 * k + 4)
                == frame(true, 0u8),
{
    let txs = data_txs(filled(0));
    assert(txs =~= Seq::new(504, |_i: int| (true, 0u8)));
    lemma_frames_len(txs);
    assert forall|k: int| 0 <= k < 504 implies #[trigger] frames(txs).subrange(4 * k, 4 * k + 4)
        == frame(true, 0u8) by {
        lemma_frames_index(txs, k);
    }
}

/// When the transfer of the third start-up command fails, `init` returns a
/// transport error; the reset pulse and the first two commands stand sent,
/// the third got as far as its transfer, and nothing was issued after it.
pub proof fn lemma_init_third_command_fails<A, B, C, D, E>(
    old: Seq<(BusOp, bool)>,
    new: Seq<(BusOp, bool)>,
    r: Result<(), OutputError<A, B, C, D, E>>,
)
    requires
        run(old, new, init_ops(), r),
        new.len() > old.len() + 12,
        !new[old.len() as int + 12].1,
    ensures
        r is Err && r->Err_0 is SPIError,
        new.len() == old.len() + 13,
        ops_of(new.skip(old.len() as int)) == seq![BusOp::Reset(false), BusOp::Reset(true)]
            + frame(false, function_set_byte(false, false, true))
            + frame(false, contrast_byte(56))
            + seq![
            BusOp::ModeSelect(false),
            BusOp::ChipEnable(false),
            BusOp::Transfer(temperature_byte(TemperatureCoefficient::TC3)),
        ],
{
    let k = old.len() as int;
    if new.len() > k + 13 {
        assert(new[k + 12].1);
    }
    let expect = seq![BusOp::Reset(false), BusOp::Reset(true)]
        + frame(false, function_set_byte(false, false, true))
        + frame(false, contrast_byte(56))
        + seq![
        BusOp::ModeSelect(false),
        BusOp::ChipEnable(false),
        BusOp::Transfer(temperature_byte(TemperatureCoefficient::TC3)),
    ];
    assert(init_ops().take(13) =~= expect);
    assert(ops_of(new.skip(k))[12] == new[k + 12].0);
    assert(new.last() == new[k + 12]);
}

/// A PCD8544 driven through a serial channel and four output lines.
pub struct PCD8544<SPI, DC, CE, RST, LIGHT> where
    SPI: SpiWrite,
    DC: OutputPin,
    CE: OutputPin,
    RST: OutputPin,
    LIGHT: OutputPin,
 {
    spi: SPI,
    dc: DC,
    ce: CE,
    rst: RST,
    light: LIGHT,
    power_down_control: bool,
    entry_mode: bool,
    extended_instruction_set: bool,
    framebuffer: Vec<u8>,
    trace: Ghost<Seq<(BusOp, bool)>>,
    spi_start: Ghost<Seq<(Seq<u8>, bool)>>,
    dc_start: Ghost<Seq<(bool, bool)>>,
    ce_start: Ghost<Seq<(bool, bool)>>,
    rst_start: Ghost<Seq<(bool, bool)>>,
    light_start: Ghost<Seq<(bool, bool)>>,
}

fn blank_buffer() -> (r: Vec<u8>)
    ensures
        r@ == filled(0),
{
    let mut fb: Vec<u8> = Vec::new();
    while fb.len() < BUFFER_LEN
        invariant
            fb.len() <= 504,
            forall|j: int| 0 <= j < fb.len() ==> fb@[j] == 0u8,
        decreases 504 - fb.len(),
    {
        fb.push(0u8);
    }
    assert(fb@ =~= filled(0));
    fb
}

/// The operation that drives `line` to level `high`.
pub open spec fn line_op(line: Line, high: bool) -> BusOp {
    match line {
        Line::ModeSelect => BusOp::ModeSelect(high),
        Line::ChipEnable => BusOp::ChipEnable(high),
        Line::Reset => BusOp::Reset(high),
        Line::Backlight => BusOp::Backlight(high),
    }
}

impl<SPI, DC, CE, RST, LIGHT> PCD8544<SPI, DC, CE, RST, LIGHT> where
    SPI: SpiWrite,
    DC: OutputPin,
    CE: OutputPin,
    RST: OutputPin,
    LIGHT: OutputPin,
 {
    /// The framebuffer holds 504 bytes, and what each resource was asked,
    /// since the driver took it, is exactly what the log of operations
    /// issued on it says, outcomes included.
    pub open spec fn wf(&self) -> bool {
        &&& self.buffer().len() == 504
        &&& self.spi_history() == self.spi_start() + spi_log(self.ops())
        &&& self.dc_history() == self.dc_start() + line_log(self.ops(), Line::ModeSelect)
        &&& self.ce_history() == self.ce_start() + line_log(self.ops(), Line::ChipEnable)
        &&& self.rst_history() == self.rst_start() + line_log(self.ops(), Line::Reset)
        &&& self.light_history() == self.light_start() + line_log(self.ops(), Line::Backlight)
    }

    /// The framebuffer, bank-major.
    pub closed spec fn buffer(&self) -> Seq<u8> {
        self.framebuffer@
    }

    /// Every operation issued on the resources, in order, each with whether
    /// it succeeded.
    pub closed spec fn ops(&self) -> Seq<(BusOp, bool)> {
        self.trace@
    }

    pub closed spec fn spi_history(&self) -> Seq<(Seq<u8>, bool)> {
        self.spi.history()
    }

    pub closed spec fn dc_history(&self) -> Seq<(bool, bool)> {
        self.dc.history()
    }

    pub closed spec fn ce_history(&self) -> Seq<(bool, bool)> {
        self.ce.history()
    }

    pub closed spec fn rst_history(&self) -> Seq<(bool, bool)> {
        self.rst.history()
    }

    pub closed spec fn light_history(&self) -> Seq<(bool, bool)> {
        self.light.history()
    }

    /// The serial channel's history when the driver took it.
    pub closed spec fn spi_start(&self) -> Seq<(Seq<u8>, bool)> {
        self.spi_start@
    }

    pub closed spec fn dc_start(&self) -> Seq<(bool, bool)> {
        self.dc_start@
    }

    pub closed spec fn ce_start(&self) -> Seq<(bool, bool)> {
        self.ce_start@
    }

    pub closed spec fn rst_start(&self) -> Seq<(bool, bool)> {
        self.rst_start@
    }

    pub closed spec fn light_start(&self) -> Seq<(bool, bool)> {
        self.light_start@
    }

    pub closed spec fn power_down_flag(&self) -> bool {
        self.power_down_control
    }

    pub closed spec fn entry_mode_flag(&self) -> bool {
        self.entry_mode
    }

    pub closed spec fn extended_flag(&self) -> bool {
        self.extended_instruction_set
    }

    /// The resources' starting histories are those of `other`.
    pub open spec fn same_start(&self, other: &Self) -> bool {
        &&& self.spi_start() == other.spi_start()
        &&& self.dc_start() == other.dc_start()
        &&& self.ce_start() == other.ce_start()
        &&& self.rst_start() == other.rst_start()
        &&& self.light_start() == other.light_start()
    }

    /// A well-formed driver whose flags, framebuffer and resources' starting
    /// histories are those of `other`.
    pub open spec fn same_state(&self, other: &Self) -> bool {
        &&& self.wf()
        &&& self.same_start(other)
        &&& self.buffer() == other.buffer()
        &&& self.power_down_flag() == other.power_down_flag()
        &&& self.entry_mode_flag() == other.entry_mode_flag()
        &&& self.extended_flag() == other.extended_flag()
    }

    /// Takes the resources, drives reset low and chip enable high. The
    /// flags start cleared and the framebuffer blank; no command is sent.
    pub fn new(spi: SPI, dc: DC, ce: CE, rst: RST, light: LIGHT) -> (r: Result<Self, DriverError<SPI, DC, CE, RST, LIGHT>>)
        ensures
            match r {
                Ok(d) => {
                    &&& d.wf()
                    &&& d.ops() == seq![(BusOp::Reset(false), true), (BusOp::ChipEnable(true), true)]
                    &&& d.spi_start() == spi.history()
                    &&& d.dc_start() == dc.history()
                    &&& d.ce_start() == ce.history()
                    &&& d.rst_start() == rst.history()
                    &&& d.light_start() == light.history()
                    &&& d.buffer() == filled(0)
                    &&& !d.power_down_flag() && !d.entry_mode_flag() && !d.extended_flag()
                },
                Err(e) => e is RSTError || e is CEError,
            },
    {
        let ghost starts = (spi.history(), dc.history(), ce.history(), rst.history(), light.history());
        let framebuffer = blank_buffer();
        let mut d = PCD8544 {
            spi,
            dc,
            ce,
            rst,
            light,
            power_down_control: false,
            entry_mode: false,
            extended_instruction_set: false,
            framebuffer,
            trace: Ghost(Seq::empty()),
            spi_start: Ghost(starts.0),
            dc_start: Ghost(starts.1),
            ce_start: Ghost(starts.2),
            rst_start: Ghost(starts.3),
            light_start: Ghost(starts.4),
        };
        assert(d.spi.history() =~= starts.0 + spi_log(Seq::empty()));
        assert(d.dc.history() =~= starts.1 + line_log(Seq::empty(), Line::ModeSelect));
        assert(d.ce.history() =~= starts.2 + line_log(Seq::empty(), Line::ChipEnable));
        assert(d.rst.history() =~= starts.3 + line_log(Seq::empty(), Line::Reset));
        assert(d.light.history() =~= starts.4 + line_log(Seq::empty(), Line::Backlight));
        let r = d.drive(Line::Reset, false);
        if let Err(e) = r {
            return Err(e);
        }
        let r = d.drive(Line::ChipEnable, true);
        if let Err(e) = r {
            return Err(e);
        }
        Ok(d)
    }

    /// Drives one of the four lines to `high`, logging the request and its
    /// outcome; a failure comes back tagged with the line.
    fn drive(&mut self, line: Line, high: bool) -> (r: Result<(), DriverError<SPI, DC, CE, RST, LIGHT>>)
        requires
            old(self).wf(),
        ensures
            final(self).same_state(old(self)),
            final(self).ops() == old(self).ops().push((line_op(line, high), r is Ok)),
            r is Err ==> tagged(line_op(line, high), r->Err_0),
    {
        let ghost t0 = self.trace@;
        match line {
            Line::ModeSelect => {
                let r = if high { self.dc.set_high() } else { self.dc.set_low() };
                self.trace = Ghost(self.trace@.push((BusOp::ModeSelect(high), r is Ok)));
                proof { lemma_log_push(t0, (BusOp::ModeSelect(high), r is Ok)); }
                match r {
                    Ok(_) => Ok(()),
                    Err(e) => Err(OutputError::DCError(e)),
                }
            },
            Line::ChipEnable => {
                let r = if high { self.ce.set_high() } else { self.ce.set_low() };
                self.trace = Ghost(self.trace@.push((BusOp::ChipEnable(high), r is Ok)));
                proof { lemma_log_push(t0, (BusOp::ChipEnable(high), r is Ok)); }
                match r {
                    Ok(_) => Ok(()),
                    Err(e) => Err(OutputError::CEError(e)),
                }
            },
            Line::Reset => {
                let r = if high { self.rst.set_high() } else { self.rst.set_low() };
                self.trace = Ghost(self.trace@.push((BusOp::Reset(high), r is Ok)));
                proof { lemma_log_push(t0, (BusOp::Reset(high), r is Ok)); }
                match r {
                    Ok(_) => Ok(()),
                    Err(e) => Err(OutputError::RSTError(e)),
                }
            },
            Line::Backlight => {
                let r = if high { self.light.set_high() } else { self.light.set_low() };
                self.trace = Ghost(self.trace@.push((BusOp::Backlight(high), r is Ok)));
                proof { lemma_log_push(t0, (BusOp::Backlight(high), r is Ok)); }
                match r {
                    Ok(_) => Ok(()),
                    Err(e) => Err(OutputError::LIGHTError(e)),
                }
            },
        }
    }

    /// Writes one byte over the serial channel, logging it and its outcome.
    fn transfer(&mut self, value: u8) -> (r: Result<(), DriverError<SPI, DC, CE, RST, LIGHT>>)
        requires
            old(self).wf(),
        ensures
            final(self).same_state(old(self)),
            final(self).ops() == old(self).ops().push((BusOp::Transfer(value), r is Ok)),
            r is Err ==> r->Err_0 is SPIError,
    {
        let ghost t0 = self.trace@;
        let buf: [u8; 1] = [value];
        assert(buf@ =~= seq![value]);
        let r = self.spi.write(&buf);
        self.trace = Ghost(self.trace@.push((BusOp::Transfer(value), r is Ok)));
        proof { lemma_log_push(t0, (BusOp::Transfer(value), r is Ok)); }
        match r {
            Ok(_) => Ok(()),
            Err(e) => Err(OutputError::SPIError(e)),
        }
    }

    /// One byte transaction: mode select low for a command or high for data,
    /// chip enable low, the byte over the serial channel, chip enable high.
    /// The first failing step ends it.
    fn write_byte(&mut self, data: bool, value: u8) -> (r: Result<(), DriverError<SPI, DC, CE, RST, LIGHT>>)
        requires
            old(self).wf(),
        ensures
            final(self).same_state(old(self)),
            run(old(self).ops(), final(self).ops(), frame(data, value), r),
    {
        let ghost t0 = self.trace@;
        let ghost plan = frame(data, value);
        assert(t0.take(t0.len() as int) =~= t0);
        assert(ops_of(t0.skip(t0.len() as int)) =~= Seq::<BusOp>::empty().take(0));
        assert(run(t0, t0, Seq::<BusOp>::empty(), Ok::<(), DriverError<SPI, DC, CE, RST, LIGHT>>(())));
        let ghost t1 = self.trace@;
        let r = self.drive(Line::ModeSelect, data);
        proof {
            lemma_run_single(t1, BusOp::ModeSelect(data), r is Ok, r);
            assert(plan.take(1) =~= Seq::<BusOp>::empty() + seq![BusOp::ModeSelect(data)]);
            lemma_run_prefix(t0, t1, self.trace@, Seq::empty(), seq![BusOp::ModeSelect(data)], plan, r);
        }
        if r.is_err() {
            return r;
        }
        let ghost d1 = seq![BusOp::ModeSelect(data)];
        assert(Seq::<BusOp>::empty() + d1 =~= d1);
        let ghost t2 = self.trace@;
        let r = self.drive(Line::ChipEnable, false);
        proof {
            lemma_run_single(t2, BusOp::ChipEnable(false), r is Ok, r);
            assert(plan.take(2) =~= d1 + seq![BusOp::ChipEnable(false)]);
            lemma_run_prefix(t0, t2, self.trace@, d1, seq![BusOp::ChipEnable(false)], plan, r);
        }
        if r.is_err() {
            return r;
        }
        let ghost d2 = d1 + seq![BusOp::ChipEnable(false)];
        let ghost t3 = self.trace@;
        let r = self.transfer(value);
        proof {
            lemma_run_single(t3, BusOp::Transfer(value), r is Ok, r);
            assert(plan.take(3) =~= d2 + seq![BusOp::Transfer(value)]);
            lemma_run_prefix(t0, t3, self.trace@, d2, seq![BusOp::Transfer(value)], plan, r);
        }
        if r.is_err() {
            return r;
        }
        let ghost d3 = d2 + seq![BusOp::Transfer(value)];
        let ghost t4 = self.trace@;
        let r = self.drive(Line::ChipEnable, true);
        proof {
            lemma_run_single(t4, BusOp::ChipEnable(true), r is Ok, r);
            assert(plan.take(4) =~= d3 + seq![BusOp::ChipEnable(true)]);
            lemma_run_prefix(t0, t4, self.trace@, d3, seq![BusOp::ChipEnable(true)], plan, r);
            assert(d3 + seq![BusOp::ChipEnable(true)] =~= plan);
        }
        r
    }

    /// Sends `value` as a command byte.
    pub fn write_command(&mut self, value: u8) -> (r: Result<(), DriverError<SPI, DC, CE, RST, LIGHT>>)
        requires
            old(self).wf(),
        ensures
            final(self).same_state(old(self)),
            run(old(self).ops(), final(self).ops(), frame(false, value), r),
    {
        self.write_byte(false, value)
    }

    /// Sends `value` as a display data byte.
    pub fn write_data(&mut self, value: u8) -> (r: Result<(), DriverError<SPI, DC, CE, RST, LIGHT>>)
        requires
            old(self).wf(),
        ensures
            final(self).same_state(old(self)),
            run(old(self).ops(), final(self).ops(), frame(true, value), r),
    {
        self.write_byte(true, value)
    }

    /// Sends the function-set command built from the three stored flags.
    fn write_current_function_set(&mut self) -> (r: Result<(), DriverError<SPI, DC, CE, RST, LIGHT>>)
        requires
            old(self).wf(),
        ensures
            final(self).same_state(old(self)),
            run(
                old(self).ops(),
                final(self).ops(),
                frame(
                    false,
                    function_set_byte(
                        old(self).power_down_flag(),
                        old(self).entry_mode_flag(),
                        old(self).extended_flag(),
                    ),
                ),
                r,
            ),
    {
        let power = self.power_down_control;
        let entry = self.entry_mode;
        let extended = self.extended_instruction_set;
        self.write_function_set(power, entry, extended)
    }

    fn write_function_set(&mut self, power_down_control: bool, entry_mode: bool, extended_instruction_set: bool) -> (r: Result<(), DriverError<SPI, DC, CE, RST, LIGHT>>)
        requires
            old(self).wf(),
        ensures
            final(self).same_state(old(self)),
            run(
                old(self).ops(),
                final(self).ops(),
                frame(false, function_set_byte(power_down_control, entry_mode, extended_instruction_set)),
                r,
            ),
    {
        let val = function_set(power_down_control, entry_mode, extended_instruction_set);
        self.write_command(val)
    }

    /// Stores the power-down flag and rewrites the function set.
    pub fn set_power_down(&mut self, power_down: bool) -> (r: Result<(), DriverError<SPI, DC, CE, RST, LIGHT>>)
        requires
            old(self).wf(),
        ensures
            final(self).wf(),
            final(self).same_start(old(self)),
            final(self).buffer() == old(self).buffer(),
            final(self).power_down_flag() == power_down,
            final(self).entry_mode_flag() == old(self).entry_mode_flag(),
            final(self).extended_flag() == old(self).extended_flag(),
            run(
                old(self).ops(),
                final(self).ops(),
                frame(false, function_set_byte(power_down, old(self).entry_mode_flag(), old(self).extended_flag())),
                r,
            ),
    {
        self.power_down_control = power_down;
        self.write_current_function_set()
    }

    /// Stores the entry-mode flag and rewrites the function set.
    pub fn set_entry_mode(&mut self, entry_mode: bool) -> (r: Result<(), DriverError<SPI, DC, CE, RST, LIGHT>>)
        requires
            old(self).wf(),
        ensures
            final(self).wf(),
            final(self).same_start(old(self)),
            final(self).buffer() == old(self).buffer(),
            final(self).power_down_flag() == old(self).power_down_flag(),
            final(self).entry_mode_flag() == entry_mode,
            final(self).extended_flag() == old(self).extended_flag(),
            run(
                old(self).ops(),
                final(self).ops(),
                frame(false, function_set_byte(old(self).power_down_flag(), entry_mode, old(self).extended_flag())),
                r,
            ),
    {
        self.entry_mode = entry_mode;
        self.write_current_function_set()
    }

    /// Stores the extended-instruction-set flag and rewrites the function set.
    pub fn enable_extended_commands(&mut self, enable: bool) -> (r: Result<(), DriverError<SPI, DC, CE, RST, LIGHT>>)
        requires
            old(self).wf(),
        ensures
            final(self).wf(),
            final(self).same_start(old(self)),
            final(self).buffer() == old(self).buffer(),
            final(self).power_down_flag() == old(self).power_down_flag(),
            final(self).entry_mode_flag() == old(self).entry_mode_flag(),
            final(self).extended_flag() == enable,
            run(
                old(self).ops(),
                final(self).ops(),
                frame(false, function_set_byte(old(self).power_down_flag(), old(self).entry_mode_flag(), enable)),
                r,
            ),
    {
        self.extended_instruction_set = enable;
        self.write_current_function_set()
    }

    /// Switches the backlight, whose line is active low.
    pub fn set_light(&mut self, enabled: bool) -> (r: Result<(), DriverError<SPI, DC, CE, RST, LIGHT>>)
        requires
            old(self).wf(),
        ensures
            final(self).same_state(old(self)),
            run(old(self).ops(), final(self).ops(), seq![BusOp::Backlight(!enabled)], r),
    {
        let ghost t0 = self.trace@;
        let r = self.drive(Line::Backlight, !enabled);
        proof {
            lemma_run_single(t0, BusOp::Backlight(!enabled), r is Ok, r);
        }
        r
    }

    pub fn set_display_mode(&mut self, mode: DisplayMode) -> (r: Result<(), DriverError<SPI, DC, CE, RST, LIGHT>>)
        requires
            old(self).wf(),
        ensures
            final(self).same_state(old(self)),
            run(old(self).ops(), final(self).ops(), frame(false, display_mode_byte(mode)), r),
    {
        self.write_command(0x08u8 | mode.bits())
    }

    pub fn set_bias_mode(&mut self, bias: BiasMode) -> (r: Result<(), DriverError<SPI, DC, CE, RST, LIGHT>>)
        requires
            old(self).wf(),
        ensures
            final(self).same_state(old(self)),
            run(old(self).ops(), final(self).ops(), frame(false, bias_byte(bias)), r),
    {
        self.write_command(0x10u8 | bias.bits())
    }

    pub fn set_temperature_coefficient(&mut self, coefficient: TemperatureCoefficient) -> (r: Result<(), DriverError<SPI, DC, CE, RST, LIGHT>>)
        requires
            old(self).wf(),
        ensures
            final(self).same_state(old(self)),
            run(old(self).ops(), final(self).ops(), frame(false, temperature_byte(coefficient)), r),
    {
        self.write_command(0x04u8 | coefficient.bits())
    }

    /// Sets the operating voltage; only the low seven bits of `contrast`
    /// are sent, under the command marker.
    pub fn set_contrast(&mut self, contrast: u8) -> (r: Result<(), DriverError<SPI, DC, CE, RST, LIGHT>>)
        requires
            old(self).wf(),
        ensures
            final(self).same_state(old(self)),
            run(old(self).ops(), final(self).ops(), frame(false, contrast_byte(contrast)), r),
    {
        let value = contrast_command(contrast);
        self.write_command(value)
    }

    /// Blanks the framebuffer; nothing is sent until `flush`.
    pub fn clear(&mut self) -> (r: Result<(), DriverError<SPI, DC, CE, RST, LIGHT>>)
        requires
            old(self).wf(),
        ensures
            r is Ok,
            final(self).wf(),
            final(self).same_start(old(self)),
            final(self).buffer() == filled(0),
            final(self).ops() == old(self).ops(),
            final(self).power_down_flag() == old(self).power_down_flag(),
            final(self).entry_mode_flag() == old(self).entry_mode_flag(),
            final(self).extended_flag() == old(self).extended_flag(),
    {
        self.fill(BinaryColor::Off);
        Ok(())
    }

    /// The draw surface's clear: every framebuffer byte becomes `0xFF` for
    /// `On` and `0x00` for `Off`, so every pixel takes `color`.
    pub fn fill(&mut self, color: BinaryColor)
        requires
            old(self).wf(),
        ensures
            final(self).wf(),
            final(self).same_start(old(self)),
            final(self).buffer() == filled(if color == BinaryColor::On { 0xffu8 } else { 0u8 }),
            forall|x: int, y: int|
                in_bounds(x, y) ==> pixel_on(final(self).buffer(), x, y) == (color == BinaryColor::On),
            final(self).ops() == old(self).ops(),
            final(self).power_down_flag() == old(self).power_down_flag(),
            final(self).entry_mode_flag() == old(self).entry_mode_flag(),
            final(self).extended_flag() == old(self).extended_flag(),
    {
        let byte: u8 = match color {
            BinaryColor::On => 0xff,
            BinaryColor::Off => 0x00,
        };
        let mut i: usize = 0;
        while i < BUFFER_LEN
            invariant
                self.framebuffer@.len() == 504,
                0 <= i <= 504,
                forall|j: int| 0 <= j < i ==> self.framebuffer@[j] == byte,
                self.trace@ == old(self).trace@,
                self.spi == old(self).spi,
                self.dc == old(self).dc,
                self.ce == old(self).ce,
                self.rst == old(self).rst,
                self.light == old(self).light,
                self.same_start(old(self)),
                self.power_down_control == old(self).power_down_control,
                self.entry_mode == old(self).entry_mode,
                self.extended_instruction_set == old(self).extended_instruction_set,
            decreases 504 - i,
        {
            self.framebuffer.set(i, byte);
            i += 1;
        }
        assert(self.framebuffer@ =~= filled(byte));
        assert forall|x: int, y: int| in_bounds(x, y) implies pixel_on(self.framebuffer@, x, y) == (color
            == BinaryColor::On) by {
            lemma_pixel_index(x, y);
            lemma_filled_bit((y % 8) as u8);
        }
    }

    /// The surface's size: 84 columns by 48 rows.
    pub fn size(&self) -> (r: (u32, u32))
        ensures
            r == (84u32, 48u32),
    {
        (WIDTH, HEIGHT)
    }

    /// The draw surface's pixel write. Inside 84x48 it sets (`On`) or clears
    /// bit `y % 8` of column `x` in bank `y / 8`; outside it changes nothing.
    pub fn draw_pixel(&mut self, x: i32, y: i32, color: BinaryColor)
        requires
            old(self).wf(),
        ensures
            final(self).wf(),
            final(self).same_start(old(self)),
            final(self).ops() == old(self).ops(),
            final(self).power_down_flag() == old(self).power_down_flag(),
            final(self).entry_mode_flag() == old(self).entry_mode_flag(),
            final(self).extended_flag() == old(self).extended_flag(),
            !in_bounds(x as int, y as int) ==> final(self).buffer() == old(self).buffer(),
            in_bounds(x as int, y as int) ==> {
                &&& final(self).buffer() == old(self).buffer().update(
                    pixel_index(x as int, y as int),
                    with_bit(
                        old(self).buffer()[pixel_index(x as int, y as int)],
                        (y % 8) as u8,
                        color == BinaryColor::On,
                    ),
                )
                &&& pixel_on(final(self).buffer(), x as int, y as int) == (color == BinaryColor::On)
                &&& forall|x2: int, y2: int|
                    in_bounds(x2, y2) && (x2 != x || y2 != y) ==> pixel_on(final(self).buffer(), x2, y2)
                        == pixel_on(old(self).buffer(), x2, y2)
            },
    {
        if 0 <= x && x < 84 && 0 <= y && y < 48 {
            proof {
                lemma_pixel_index(x as int, y as int);
            }
            let idx: usize = ((y / 8) * 84 + x) as usize;
            let bit: u8 = (y % 8) as u8;
            let old_byte = self.framebuffer[idx];
            let new_byte = set_bit(old_byte, bit, color == BinaryColor::On);
            self.framebuffer.set(idx, new_byte);
            proof {
                let on = color == BinaryColor::On;
                lemma_with_bit(old_byte, bit, bit, on);
                assert forall|x2: int, y2: int|
                    in_bounds(x2, y2) && (x2 != x || y2 != y) implies pixel_on(self.framebuffer@, x2, y2)
                        == pixel_on(old(self).framebuffer@, x2, y2) by {
                    lemma_pixel_index(x2, y2);
                    if pixel_index(x2, y2) == idx as int {
                        lemma_pixel_index_eq(x2, y2, x as int, y as int);
                        lemma_with_bit(old_byte, bit, (y2 % 8) as u8, on);
                    }
                }
            }
        }
    }

    /// The pixel at `(x, y)` is on; pixels outside 84x48 read as off.
    pub fn pixel(&self, x: i32, y: i32) -> (r: bool)
        requires
            self.wf(),
        ensures
            r == (in_bounds(x as int, y as int) && pixel_on(self.buffer(), x as int, y as int)),
    {
        if 0 <= x && x < 84 && 0 <= y && y < 48 {
            proof {
                lemma_pixel_index(x as int, y as int);
            }
            let idx: usize = ((y / 8) * 84 + x) as usize;
            let bit: u8 = (y % 8) as u8;
            (self.framebuffer[idx] >> bit) & 1u8 == 1u8
        } else {
            false
        }
    }

    /// Sends the whole framebuffer: one data transaction per byte, bank 0
    /// columns 0 to 83, then bank 1, and so on. The first failure ends it.
    pub fn flush(&mut self) -> (r: Result<(), DriverError<SPI, DC, CE, RST, LIGHT>>)
        requires
            old(self).wf(),
        ensures
            final(self).same_state(old(self)),
            run(old(self).ops(), final(self).ops(), frames(data_txs(old(self).buffer())), r),
    {
        let ghost t0 = self.trace@;
        let ghost txs = data_txs(self.framebuffer@);
        let mut i: usize = 0;
        assert(txs.take(0) =~= Seq::<(bool, u8)>::empty());
        assert(t0.take(t0.len() as int) =~= t0);
        assert(ops_of(t0.skip(t0.len() as int)) =~= Seq::<BusOp>::empty().take(0));
        while i < BUFFER_LEN
            invariant
                self.same_state(old(self)),
                0 <= i <= 504,
                txs == data_txs(self.framebuffer@),
                txs == data_txs(old(self).framebuffer@),
                t0 == old(self).trace@,
                run(t0, self.trace@, frames(txs.take(i as int)), Ok::<(), DriverError<SPI, DC, CE, RST, LIGHT>>(())),
            decreases 504 - i,
        {
            let b = self.framebuffer[i];
            let ghost t1 = self.trace@;
            let r = self.write_data(b);
            proof {
                let done = frames(txs.take(i as int));
                let rest = frames(txs.skip(i + 1));
                assert(txs.take(i + 1) =~= txs.take(i as int).push(txs[i as int]));
                lemma_frames_push(txs.take(i as int), txs[i as int]);
                assert(txs.take(i + 1) + txs.skip(i + 1) =~= txs);
                lemma_frames_append(txs.take(i + 1), txs.skip(i + 1));
                assert(txs[i as int] == (true, b));
                lemma_frames_len(txs.take(i as int));
                let head = frames(txs.take(i + 1));
                assert(head == done + frame(true, b));
                assert((head + rest).take(head.len() as int) =~= head);
                lemma_run_prefix(t0, t1, self.trace@, done, frame(true, b), frames(txs), r);
            }
            if r.is_err() {
                return r;
            }
            i += 1;
        }
        assert(txs.take(504) =~= txs);
        Ok(())
    }

    /// Pulses reset, clears the three flags, sends the start-up commands
    /// (extended set on, contrast 56, temperature coefficient 3, bias 1:40,
    /// extended set off, normal display), then blanks the framebuffer. The
    /// first failure ends it; flags already stored stay stored.
    pub fn init(&mut self) -> (r: Result<(), DriverError<SPI, DC, CE, RST, LIGHT>>)
        requires
            old(self).wf(),
        ensures
            final(self).wf(),
            final(self).same_start(old(self)),
            run(old(self).ops(), final(self).ops(), init_ops(), r),
            r is Ok ==> {
                &&& final(self).buffer() == filled(0)
                &&& !final(self).power_down_flag()
                &&& !final(self).entry_mode_flag()
                &&& !final(self).extended_flag()
            },
            r is Err ==> {
                let n = final(self).ops().len() - old(self).ops().len();
                &&& final(self).buffer() == old(self).buffer()
                &&& n <= 2 ==> {
                    &&& final(self).power_down_flag() == old(self).power_down_flag()
                    &&& final(self).entry_mode_flag() == old(self).entry_mode_flag()
                    &&& final(self).extended_flag() == old(self).extended_flag()
                }
                &&& n > 2 ==> {
                    &&& !final(self).power_down_flag()
                    &&& !final(self).entry_mode_flag()
                    &&& final(self).extended_flag() == (n <= 18)
                }
            },
    {
        let ghost t0 = self.trace@;
        let ghost plan = init_ops();
        assert(t0.take(t0.len() as int) =~= t0);
        assert(ops_of(t0.skip(t0.len() as int)) =~= Seq::<BusOp>::empty().take(0));
        let ghost t1 = self.trace@;
        let r = self.drive(Line::Reset, false);
        proof {
            lemma_run_single(t1, BusOp::Reset(false), r is Ok, r);
            assert(plan.take(1) =~= Seq::<BusOp>::empty() + seq![BusOp::Reset(false)]);
            lemma_run_prefix(t0, t1, self.trace@, Seq::empty(), seq![BusOp::Reset(false)], plan, r);
        }
        if r.is_err() {
            return r;
        }
        let ghost d1 = seq![BusOp::Reset(false)];
        assert(Seq::<BusOp>::empty() + d1 =~= d1);
        let ghost t2 = self.trace@;
        let r = self.drive(Line::Reset, true);
        proof {
            lemma_run_single(t2, BusOp::Reset(true), r is Ok, r);
            assert(plan.take(2) =~= d1 + seq![BusOp::Reset(true)]);
            lemma_run_prefix(t0, t2, self.trace@, d1, seq![BusOp::Reset(true)], plan, r);
        }
        if r.is_err() {
            return r;
        }
        let ghost d2 = d1 + seq![BusOp::Reset(true)];
        self.power_down_control = false;
        self.entry_mode = false;
        self.extended_instruction_set = false;
        let ghost t3 = self.trace@;
        let r = self.enable_extended_commands(true);
        proof {
            assert(plan.take(d2.len() as int + 4) =~= d2 + frame(false, function_set_byte(false, false, true)));
            lemma_run_prefix(t0, t3, self.trace@, d2, frame(false, function_set_byte(false, false, true)), plan, r);
        }
        if r.is_err() {
            return r;
        }
        let ghost d3 = d2 + frame(false, function_set_byte(false, false, true));
        let ghost t4 = self.trace@;
        let r = self.set_contrast(56u8);
        proof {
            assert(plan.take(d3.len() as int + 4) =~= d3 + frame(false, contrast_byte(56)));
            lemma_run_prefix(t0, t4, self.trace@, d3, frame(false, contrast_byte(56)), plan, r);
        }
        if r.is_err() {
            return r;
        }
        let ghost d4 = d3 + frame(false, contrast_byte(56));
        let ghost t5 = self.trace@;
        let r = self.set_temperature_coefficient(TemperatureCoefficient::TC3);
        proof {
            assert(plan.take(d4.len() as int + 4) =~= d4 + frame(false, temperature_byte(TemperatureCoefficient::TC3)));
            lemma_run_prefix(t0, t5, self.trace@, d4, frame(false, temperature_byte(TemperatureCoefficient::TC3)), plan, r);
        }
        if r.is_err() {
            return r;
        }
        let ghost d5 = d4 + frame(false, temperature_byte(TemperatureCoefficient::TC3));
        let ghost t6 = self.trace@;
        let r = self.set_bias_mode(BiasMode::Bias1To40);
        proof {
            assert(plan.take(d5.len() as int + 4) =~= d5 + frame(false, bias_byte(BiasMode::Bias1To40)));
            lemma_run_prefix(t0, t6, self.trace@, d5, frame(false, bias_byte(BiasMode::Bias1To40)), plan, r);
        }
        if r.is_err() {
            return r;
        }
        let ghost d6 = d5 + frame(false, bias_byte(BiasMode::Bias1To40));
        let ghost t7 = self.trace@;
        let r = self.enable_extended_commands(false);
        proof {
            assert(plan.take(d6.len() as int + 4) =~= d6 + frame(false, function_set_byte(false, false, false)));
            lemma_run_prefix(t0, t7, self.trace@, d6, frame(false, function_set_byte(false, false, false)), plan, r);
        }
        if r.is_err() {
            return r;
        }
        let ghost d7 = d6 + frame(false, function_set_byte(false, false, false));
        let ghost t8 = self.trace@;
        let r = self.set_display_mode(DisplayMode::NormalMode);
        proof {
            assert(plan.take(d7.len() as int + 4) =~= d7 + frame(false, display_mode_byte(DisplayMode::NormalMode)));
            lemma_run_prefix(t0, t8, self.trace@, d7, frame(false, display_mode_byte(DisplayMode::NormalMode)), plan, r);
        }
        if r.is_err() {
            return r;
        }
        let ghost d8 = d7 + frame(false, display_mode_byte(DisplayMode::NormalMode));
        assert(d8 =~= plan);
        self.fill(BinaryColor::Off);
        Ok(())
    }

    /// Drives reset low, then runs `init`.
    pub fn reset(&mut self) -> (r: Result<(), DriverError<SPI, DC, CE, RST, LIGHT>>)
        requires
            old(self).wf(),
        ensures
            final(self).wf(),
            final(self).same_start(old(self)),
            run(old(self).ops(), final(self).ops(), seq![BusOp::Reset(false)] + init_ops(), r),
            r is Ok ==> {
                &&& final(self).buffer() == filled(0)
                &&& !final(self).power_down_flag()
                &&& !final(self).entry_mode_flag()
                &&& !final(self).extended_flag()
            },
            r is Err ==> {
                let n = final(self).ops().len() - old(self).ops().len();
                &&& final(self).buffer() == old(self).buffer()
                &&& n <= 3 ==> {
                    &&& final(self).power_down_flag() == old(self).power_down_flag()
                    &&& final(self).entry_mode_flag() == old(self).entry_mode_flag()
                    &&& final(self).extended_flag() == old(self).extended_flag()
                }
                &&& n > 3 ==> {
                    &&& !final(self).power_down_flag()
                    &&& !final(self).entry_mode_flag()
                    &&& final(self).extended_flag() == (n <= 19)
                }
            },
    {
        let ghost t0 = self.trace@;
        assert(t0.take(t0.len() as int) =~= t0);
        assert(ops_of(t0.skip(t0.len() as int)) =~= Seq::<BusOp>::empty().take(0));
        let r = self.drive(Line::Reset, false);
        proof {
            lemma_run_single(t0, BusOp::Reset(false), r is Ok, r);
        }
        if r.is_err() {
            proof {
                let plan = seq![BusOp::Reset(false)] + init_ops();
                assert(plan.take(1) =~= Seq::<BusOp>::empty() + seq![BusOp::Reset(false)]);
                lemma_run_prefix(t0, t0, self.trace@, Seq::empty(), seq![BusOp::Reset(false)], plan, r);
            }
            return r;
        }
        let ghost t1 = self.trace@;
        let r = self.init();
        proof {
            lemma_run_then(t0, t1, self.trace@, seq![BusOp::Reset(false)], init_ops(), r);
        }
        r
    }

    /// Between two states of a driver, each resource's history grew by
    /// exactly the requests, with their outcomes, that the new part of the
    /// log made of it.
    pub proof fn lemma_history_growth(before: &Self, after: &Self)
        requires
            before.wf(),
            after.wf(),
            after.same_start(before),
            before.ops().len() <= after.ops().len(),
            after.ops().take(before.ops().len() as int) == before.ops(),
        ensures
            ({
                let added = after.ops().skip(before.ops().len() as int);
                &&& after.spi_history() == before.spi_history() + spi_log(added)
                &&& after.dc_history() == before.dc_history() + line_log(added, Line::ModeSelect)
                &&& after.ce_history() == before.ce_history() + line_log(added, Line::ChipEnable)
                &&& after.rst_history() == before.rst_history() + line_log(added, Line::Reset)
                &&& after.light_history() == before.light_history() + line_log(added, Line::Backlight)
            }),
    {
        let k = before.ops().len() as int;
        let added = after.ops().skip(k);
        assert(after.ops() =~= before.ops() + added);
        lemma_logs_append(before.ops(), added);
        assert(after.spi_history() =~= before.spi_history() + spi_log(added));
        assert(after.dc_history() =~= before.dc_history() + line_log(added, Line::ModeSelect));
        assert(after.ce_history() =~= before.ce_history() + line_log(added, Line::ChipEnable));
        assert(after.rst_history() =~= before.rst_history() + line_log(added, Line::Reset));
        assert(after.light_history() =~= before.light_history() + line_log(added, Line::Backlight));
    }
}

} // verus!
