use std::cell::RefCell;
use std::rc::Rc;

use pcd8544::bus::{OutputError, OutputPin, SpiWrite};
use pcd8544::command::{contrast_command, function_set};
use pcd8544::{BiasMode, BinaryColor, DisplayMode, TemperatureCoefficient, PCD8544};

#[derive(Clone, Copy, Debug, PartialEq, Eq)]
enum Line {
    Dc,
    Ce,
    Rst,
    Light,
}

#[derive(Clone, Debug, PartialEq, Eq)]
enum Ev {
    Pin(Line, bool),
    Spi(Vec<u8>),
}

#[derive(Default)]
struct Bus {
    events: Vec<Ev>,
    // fail the operation with this index (counted over all events)
    fail_at: Option<usize>,
}

impl Bus {
    fn record(&mut self, ev: Ev) -> Result<(), ()> {
        let n = self.events.len();
        self.events.push(ev);
        if self.fail_at == Some(n) {
            Err(())
        } else {
            Ok(())
        }
    }
}

type Shared = Rc<RefCell<Bus>>;

struct Pin(Line, Shared);

impl OutputPin for Pin {
    type Error = Line;
    fn set_low(&mut self) -> Result<(), Line> {
        self.1.borrow_mut().record(Ev::Pin(self.0, false)).map_err(|_| self.0)
    }
    fn set_high(&mut self) -> Result<(), Line> {
        self.1.borrow_mut().record(Ev::Pin(self.0, true)).map_err(|_| self.0)
    }
}

struct Spi(Shared);

impl SpiWrite for Spi {
    type Error = &'static str;
    fn write(&mut self, words: &[u8]) -> Result<(), &'static str> {
        self.0.borrow_mut().record(Ev::Spi(words.to_vec())).map_err(|_| "spi")
    }
}

type Dev = PCD8544<Spi, Pin, Pin, Pin, Pin>;
type DevError = OutputError<&'static str, Line, Line, Line, Line>;

fn device() -> (Dev, Shared) {
    let bus: Shared = Rc::new(RefCell::new(Bus::default()));
    let d = PCD8544::new(
        Spi(bus.clone()),
        Pin(Line::Dc, bus.clone()),
        Pin(Line::Ce, bus.clone()),
        Pin(Line::Rst, bus.clone()),
        Pin(Line::Light, bus.clone()),
    )
    .ok()
    .unwrap();
    bus.borrow_mut().events.clear();
    (d, bus)
}

fn frame(data: bool, v: u8) -> Vec<Ev> {
    vec![
        Ev::Pin(Line::Dc, data),
        Ev::Pin(Line::Ce, false),
        Ev::Spi(vec![v]),
        Ev::Pin(Line::Ce, true),
    ]
}

/// The (data?, byte) transactions in the event log.
fn transfers(bus: &Shared) -> Vec<(bool, u8)> {
    let evs = bus.borrow().events.clone();
    let mut dc = false;
    let mut out = Vec::new();
    for e in evs {
        match e {
            Ev::Pin(Line::Dc, level) => dc = level,
            Ev::Spi(bytes) => {
                for b in bytes {
                    out.push((dc, b));
                }
            }
            _ => {}
        }
    }
    out
}

fn events(bus: &Shared) -> Vec<Ev> {
    bus.borrow().events.clone()
}

fn framebuffer_via_flush(d: &mut Dev, bus: &Shared) -> Vec<u8> {
    bus.borrow_mut().events.clear();
    assert!(d.flush().is_ok());
    let t = transfers(bus);
    assert_eq!(t.len(), 504);
    t.into_iter().map(|(data, b)| {
        assert!(data);
        b
    }).collect()
}

#[test]
fn new_drives_reset_low_then_chip_enable_high() {
    let bus: Shared = Rc::new(RefCell::new(Bus::default()));
    let d = PCD8544::new(
        Spi(bus.clone()),
        Pin(Line::Dc, bus.clone()),
        Pin(Line::Ce, bus.clone()),
        Pin(Line::Rst, bus.clone()),
        Pin(Line::Light, bus.clone()),
    );
    assert!(d.is_ok());
    assert_eq!(events(&bus), vec![Ev::Pin(Line::Rst, false), Ev::Pin(Line::Ce, true)]);
}

#[test]
fn new_reports_reset_and_chip_enable_failures() {
    for (at, expect) in [(0usize, Line::Rst), (1usize, Line::Ce)] {
        let bus: Shared = Rc::new(RefCell::new(Bus { events: vec![], fail_at: Some(at) }));
        let d = PCD8544::new(
            Spi(bus.clone()),
            Pin(Line::Dc, bus.clone()),
            Pin(Line::Ce, bus.clone()),
            Pin(Line::Rst, bus.clone()),
            Pin(Line::Light, bus.clone()),
        );
        match d {
            Err(OutputError::RSTError(l)) => assert_eq!((at, l), (0, expect)),
            Err(OutputError::CEError(l)) => assert_eq!((at, l), (1, expect)),
            _ => panic!("expected a pin error"),
        }
    }
}

#[test]
fn draw_pixel_sets_and_clears_its_bit() {
    let (mut d, bus) = device();
    d.draw_pixel(5, 13, BinaryColor::On);
    assert!(d.pixel(5, 13));
    let fb = framebuffer_via_flush(&mut d, &bus);
    assert_eq!(fb[84 + 5], 1 << 5);
    assert_eq!(fb.iter().filter(|b| **b != 0).count(), 1);
    d.draw_pixel(5, 13, BinaryColor::Off);
    assert!(!d.pixel(5, 13));
    let fb = framebuffer_via_flush(&mut d, &bus);
    assert!(fb.iter().all(|b| *b == 0));
}

#[test]
fn draw_pixel_keeps_neighbouring_bits() {
    let (mut d, bus) = device();
    d.draw_pixel(0, 0, BinaryColor::On);
    d.draw_pixel(0, 7, BinaryColor::On);
    d.draw_pixel(83, 47, BinaryColor::On);
    d.draw_pixel(0, 7, BinaryColor::Off);
    assert!(d.pixel(0, 0));
    assert!(!d.pixel(0, 7));
    assert!(d.pixel(83, 47));
    let fb = framebuffer_via_flush(&mut d, &bus);
    assert_eq!(fb[0], 0x01);
    assert_eq!(fb[5 * 84 + 83], 0x80);
}

#[test]
fn draw_pixel_every_corner_and_last_write_wins() {
    let (mut d, _bus) = device();
    for x in 0..84 {
        for y in 0..48 {
            let on = (x + y) % 3 == 0;
            d.draw_pixel(x, y, if on { BinaryColor::On } else { BinaryColor::Off });
        }
    }
    for x in 0..84 {
        for y in 0..48 {
            assert_eq!(d.pixel(x, y), (x + y) % 3 == 0);
        }
    }
}

#[test]
fn draw_pixel_out_of_bounds_is_ignored() {
    let (mut d, bus) = device();
    d.draw_pixel(10, 10, BinaryColor::On);
    let before = framebuffer_via_flush(&mut d, &bus);
    for (x, y) in [(84, 0), (0, 48), (-1, 0), (0, -1), (i32::MAX, i32::MAX), (i32::MIN, 3)] {
        d.draw_pixel(x, y, BinaryColor::On);
        assert!(!d.pixel(x, y));
    }
    let after = framebuffer_via_flush(&mut d, &bus);
    assert_eq!(before, after);
}

#[test]
fn fill_and_size() {
    let (mut d, bus) = device();
    d.fill(BinaryColor::On);
    assert!(framebuffer_via_flush(&mut d, &bus).iter().all(|b| *b == 0xFF));
    assert!(d.pixel(40, 20));
    d.fill(BinaryColor::Off);
    assert!(framebuffer_via_flush(&mut d, &bus).iter().all(|b| *b == 0x00));
    assert_eq!(d.size(), (84, 48));
}

#[test]
fn clear_blanks_without_touching_the_bus() {
    let (mut d, bus) = device();
    d.fill(BinaryColor::On);
    assert!(d.clear().is_ok());
    assert!(events(&bus).is_empty());
    assert!(framebuffer_via_flush(&mut d, &bus).iter().all(|b| *b == 0));
}

#[test]
fn flush_of_blank_buffer_sends_504_zero_data_bytes() {
    let (mut d, bus) = device();
    assert!(d.clear().is_ok());
    assert!(d.flush().is_ok());
    let evs = events(&bus);
    assert_eq!(evs.len(), 504 * 4);
    for k in 0..504 {
        assert_eq!(evs[4 * k..4 * k + 4].to_vec(), frame(true, 0));
    }
}

#[test]
fn flush_order_is_bank_major() {
    let (mut d, bus) = device();
    d.draw_pixel(1, 0, BinaryColor::On);
    d.draw_pixel(0, 8, BinaryColor::On);
    let fb = framebuffer_via_flush(&mut d, &bus);
    assert_eq!(fb[1], 0x01);
    assert_eq!(fb[84], 0x01);
}

#[test]
fn flush_stops_at_first_failure() {
    let (mut d, bus) = device();
    bus.borrow_mut().fail_at = Some(4 * 10 + 2);
    match d.flush() {
        Err(OutputError::SPIError(_)) => {}
        _ => panic!("expected a transport error"),
    }
    assert_eq!(events(&bus).len(), 4 * 10 + 3);
}

#[test]
fn contrast_command_bytes() {
    let (mut d, bus) = device();
    assert!(d.set_contrast(56).is_ok());
    assert_eq!(events(&bus), frame(false, 0xB8));
    bus.borrow_mut().events.clear();
    assert!(d.set_contrast(200).is_ok());
    assert_eq!(transfers(&bus), vec![(false, 0x80 | (200 & 0x7f))]);
    assert_eq!(contrast_command(200) & 0x80, 0x80);
    assert_eq!(contrast_command(127), 0xFF);
    assert_eq!(contrast_command(0), 0x80);
}

#[test]
fn function_set_bytes() {
    assert_eq!(function_set(false, false, false), 0x20);
    assert_eq!(function_set(true, false, false), 0x24);
    assert_eq!(function_set(false, true, false), 0x22);
    assert_eq!(function_set(false, false, true), 0x21);
    assert_eq!(function_set(true, true, true), 0x27);
}

#[test]
fn flag_setters_rewrite_the_whole_function_set() {
    let (mut d, bus) = device();
    assert!(d.set_power_down(true).is_ok());
    assert!(d.set_entry_mode(true).is_ok());
    assert!(d.enable_extended_commands(true).is_ok());
    assert!(d.set_power_down(false).is_ok());
    assert_eq!(
        transfers(&bus),
        vec![(false, 0x24), (false, 0x26), (false, 0x27), (false, 0x23)]
    );
}

#[test]
fn mode_commands() {
    let (mut d, bus) = device();
    assert!(d.set_display_mode(DisplayMode::DisplayBlank).is_ok());
    assert!(d.set_display_mode(DisplayMode::NormalMode).is_ok());
    assert!(d.set_display_mode(DisplayMode::AllSegmentsOn).is_ok());
    assert!(d.set_display_mode(DisplayMode::InverseVideoMode).is_ok());
    assert!(d.set_bias_mode(BiasMode::Bias1To100).is_ok());
    assert!(d.set_bias_mode(BiasMode::Bias1To10).is_ok());
    assert!(d.set_temperature_coefficient(TemperatureCoefficient::TC0).is_ok());
    assert!(d.set_temperature_coefficient(TemperatureCoefficient::TC2).is_ok());
    let bytes: Vec<u8> = transfers(&bus).into_iter().map(|(_, b)| b).collect();
    assert_eq!(bytes, vec![0x08, 0x0C, 0x09, 0x0D, 0x10, 0x17, 0x04, 0x06]);
    assert!(transfers(&bus).iter().all(|(data, _)| !data));
}

#[test]
fn write_command_and_write_data_framing() {
    let (mut d, bus) = device();
    assert!(d.write_command(0x42).is_ok());
    assert!(d.write_data(0x99).is_ok());
    let mut expect = frame(false, 0x42);
    expect.extend(frame(true, 0x99));
    assert_eq!(events(&bus), expect);
}

#[test]
fn backlight_is_active_low() {
    let (mut d, bus) = device();
    assert!(d.set_light(true).is_ok());
    assert!(d.set_light(false).is_ok());
    assert_eq!(
        events(&bus),
        vec![Ev::Pin(Line::Light, false), Ev::Pin(Line::Light, true)]
    );
    bus.borrow_mut().fail_at = Some(2);
    match d.set_light(true) {
        Err(OutputError::LIGHTError(Line::Light)) => {}
        _ => panic!("expected a backlight error"),
    }
}

fn init_sequence() -> Vec<Ev> {
    let mut v = vec![Ev::Pin(Line::Rst, false), Ev::Pin(Line::Rst, true)];
    for b in [0x21u8, 0xB8, 0x07, 0x14, 0x20, 0x0C] {
        v.extend(frame(false, b));
    }
    v
}

#[test]
fn init_sends_the_start_up_commands_in_order() {
    let (mut d, bus) = device();
    d.fill(BinaryColor::On);
    assert!(d.init().is_ok());
    assert_eq!(events(&bus), init_sequence());
    assert!(framebuffer_via_flush(&mut d, &bus).iter().all(|b| *b == 0));
}

#[test]
fn reset_pulls_reset_low_then_inits() {
    let (mut d, bus) = device();
    assert!(d.reset().is_ok());
    let mut expect = vec![Ev::Pin(Line::Rst, false)];
    expect.extend(init_sequence());
    assert_eq!(events(&bus), expect);
}

#[test]
fn init_aborts_at_failed_third_command() {
    let (mut d, bus) = device();
    d.fill(BinaryColor::On);
    // the transfer of the third command
    bus.borrow_mut().fail_at = Some(2 + 4 * 2 + 2);
    let r: Result<(), DevError> = d.init();
    match r {
        Err(OutputError::SPIError("spi")) => {}
        _ => panic!("expected a transport error"),
    }
    let expect: Vec<Ev> = init_sequence()[..2 + 4 * 2 + 3].to_vec();
    assert_eq!(events(&bus), expect);
    // the framebuffer was not cleared
    assert!(d.pixel(0, 0));
    // extended set still on: the next flag write carries it
    bus.borrow_mut().fail_at = None;
    bus.borrow_mut().events.clear();
    assert!(d.set_power_down(false).is_ok());
    assert_eq!(transfers(&bus), vec![(false, 0x21)]);
}

#[test]
fn init_reports_reset_line_failure() {
    let (mut d, bus) = device();
    bus.borrow_mut().fail_at = Some(1);
    match d.init() {
        Err(OutputError::RSTError(Line::Rst)) => {}
        _ => panic!("expected a reset error"),
    }
    assert_eq!(events(&bus).len(), 2);
}

#[test]
fn chip_enable_failure_skips_the_transfer() {
    let (mut d, bus) = device();
    bus.borrow_mut().fail_at = Some(1);
    match d.write_command(0x20) {
        Err(OutputError::CEError(Line::Ce)) => {}
        _ => panic!("expected a chip enable error"),
    }
    assert_eq!(events(&bus), vec![Ev::Pin(Line::Dc, false), Ev::Pin(Line::Ce, false)]);
    assert!(transfers(&bus).is_empty());
}

#[test]
fn mode_select_failure_is_tagged() {
    let (mut d, bus) = device();
    bus.borrow_mut().fail_at = Some(0);
    match d.write_data(1) {
        Err(OutputError::DCError(Line::Dc)) => {}
        _ => panic!("expected a mode select error"),
    }
    assert_eq!(events(&bus).len(), 1);
}

#[test]
fn chip_enable_release_failure_comes_after_the_transfer() {
    let (mut d, bus) = device();
    bus.borrow_mut().fail_at = Some(3);
    match d.write_command(0x0C) {
        Err(OutputError::CEError(Line::Ce)) => {}
        _ => panic!("expected a chip enable error"),
    }
    assert_eq!(events(&bus), frame(false, 0x0C));
}

#[test]
fn enum_bits() {
    assert_eq!(TemperatureCoefficient::TC3.bits(), 3);
    assert_eq!(BiasMode::Bias1To40.bits(), 4);
    assert_eq!(BiasMode::Bias1To48.bits(), 3);
    assert_eq!(DisplayMode::NormalMode.bits(), 0b100);
    assert_eq!(DisplayMode::InverseVideoMode.bits(), 0b101);
}
