use monitor_gpio::command::{
    decode_request, Reply, Request, GET_INPUTS, GET_OUTPUTS, GPIO_READ, SET_MODE, SET_OUTPUT,
};
use monitor_gpio::regs::{
    fsel_offset, level_bit, mode_of, set_mode_bits, PinMode, RegisterBlock, GPIO_BLOCK_WORDS,
    GPLEV0_OFFSET, GPPUDCLK0_OFFSET, GPPUD_OFFSET, GPSET0_OFFSET, GPCLR0_OFFSET,
};
use monitor_gpio::session::{GpioError, Session};

// Pins 2 and 17 are outputs, pins 5 and 20 are in alternate function 0, the
// rest are inputs.
fn window() -> Vec<u32> {
    let mut w = vec![0u32; GPIO_BLOCK_WORDS];
    w[0] = (0b001 << 6) | (0b100 << 15);
    w[1] = 0b001 << 21;
    w[2] = 0b100;
    w
}

fn sorted(mut v: Vec<u32>) -> Vec<u32> {
    v.sort();
    v
}

fn opened() -> Session {
    match Session::open(window()) {
        Ok(s) => s,
        Err(e) => panic!("open failed: {:?}", e),
    }
}

#[test]
fn field_arithmetic() {
    assert_eq!(fsel_offset(0), 0);
    assert_eq!(fsel_offset(9), 0);
    assert_eq!(fsel_offset(10), 4);
    assert_eq!(fsel_offset(27), 8);
    assert_eq!(mode_of(0b001 << 6, 2), PinMode::Output);
    assert_eq!(mode_of(0b001 << 6, 3), PinMode::Input);
    assert_eq!(mode_of(0b100 << 15, 5), PinMode::Alternate);
    assert_eq!(mode_of(0b111 << 21, 17), PinMode::Alternate);
    assert_eq!(set_mode_bits(0xFFFF_FFFF, 3, false), 0xFFFF_FFFF & !(0b111 << 9));
    assert_eq!(set_mode_bits(0xFFFF_FFFF, 3, true), (0xFFFF_FFFF & !(0b111 << 9)) | (1 << 9));
    assert_eq!(set_mode_bits(0, 27, true), 1 << 21);
    assert_eq!(level_bit(1 << 4, 4), 1);
    assert_eq!(level_bit(1 << 4, 5), 0);
    assert_eq!(level_bit(0xFFFF_FFFF, 27), 1);
}

#[test]
fn map_needs_whole_block() {
    assert!(RegisterBlock::map(vec![0u32; 10]).is_none());
    assert!(RegisterBlock::map(vec![0u32; GPIO_BLOCK_WORDS]).is_some());
}

#[test]
fn open_fails_on_short_window() {
    assert_eq!(Session::open(vec![0u32; 16]).err(), Some(GpioError::ResourceExhausted));
    assert_eq!(Session::open(Vec::new()).err(), Some(GpioError::ResourceExhausted));
}

#[test]
fn open_classifies_every_pin_once() {
    let s = opened();
    assert_eq!(sorted(s.get_output_pins()), vec![2, 17]);
    let inputs = sorted(s.get_input_pins());
    let expected: Vec<u32> = (0..28).filter(|p| ![2, 5, 17, 20].contains(p)).collect();
    assert_eq!(inputs, expected);
    let mut all = s.get_output_pins();
    all.extend(s.get_input_pins());
    all.push(5);
    all.push(20);
    assert_eq!(sorted(all), (0..28).collect::<Vec<u32>>());
}

#[test]
fn open_clears_pull_control() {
    let mut w = window();
    w[GPPUD_OFFSET / 4] = 7;
    w[GPPUDCLK0_OFFSET / 4] = 9;
    let mut s = Session::open(w).unwrap();
    let words = s.release().unwrap();
    assert_eq!(words[GPPUD_OFFSET / 4], 0);
    assert_eq!(words[GPPUDCLK0_OFFSET / 4], 0);
    assert_eq!(words[0], window()[0]);
}

#[test]
fn set_mode_moves_input_to_output() {
    let mut s = opened();
    assert!(s.get_input_pins().contains(&3));
    assert_eq!(s.set_mode(3, true), Ok(()));
    assert!(s.get_output_pins().contains(&3));
    assert!(!s.get_input_pins().contains(&3));
    let words = s.release().unwrap();
    assert_eq!((words[0] >> 9) & 0b111, 0b001);
    assert_eq!(words[0] & !(0b111 << 9), window()[0]);
}

#[test]
fn set_mode_moves_alternate_to_input() {
    let mut s = opened();
    assert_eq!(s.set_mode(5, false), Ok(()));
    assert!(s.get_input_pins().contains(&5));
    assert!(!s.get_output_pins().contains(&5));
    assert_eq!(s.set_mode(5, true), Ok(()));
    assert!(s.get_output_pins().contains(&5));
    assert!(!s.get_input_pins().contains(&5));
    let words = s.release().unwrap();
    assert_eq!((words[0] >> 15) & 0b111, 0b001);
}

#[test]
fn set_mode_output_to_input_and_back() {
    let mut s = opened();
    assert_eq!(s.set_mode(17, false), Ok(()));
    assert_eq!(s.get_output_pins(), vec![2]);
    assert!(s.get_input_pins().contains(&17));
    let words = s.release().unwrap();
    assert_eq!(words[1], 0);
}

#[test]
fn read_level_denied_on_output() {
    let mut s = opened();
    assert_eq!(s.read_level(2), Err(GpioError::PermissionDenied));
    assert_eq!(s.read_level(5), Err(GpioError::PermissionDenied));
    assert_eq!(s.read_level(40), Err(GpioError::PermissionDenied));
}

#[test]
fn read_level_of_input() {
    let mut w = window();
    w[GPLEV0_OFFSET / 4] = 1 << 4;
    let mut s = Session::open(w).unwrap();
    assert_eq!(s.read_level(4), Ok(1));
    assert_eq!(s.read_level(3), Ok(0));
}

#[test]
fn set_output_denied_on_input() {
    let mut s = opened();
    assert_eq!(s.set_output(3, true), Err(GpioError::PermissionDenied));
    let words = s.release().unwrap();
    assert_eq!(words[GPSET0_OFFSET / 4], 0);
}

#[test]
fn set_output_writes_set_and_clear() {
    let mut s = opened();
    assert_eq!(s.set_output(17, true), Ok(()));
    assert_eq!(s.set_output(2, false), Ok(()));
    let words = s.release().unwrap();
    assert_eq!(words[GPSET0_OFFSET / 4], 1 << 17);
    assert_eq!(words[GPCLR0_OFFSET / 4], 1 << 2);
}

#[test]
fn set_mode_out_of_range() {
    let mut s = opened();
    assert_eq!(s.set_mode(28, true), Err(GpioError::InvalidArgument));
    assert_eq!(s.set_mode(u32::MAX, false), Err(GpioError::InvalidArgument));
    assert_eq!(s.release().unwrap(), window_after_open());
}

fn window_after_open() -> Vec<u32> {
    let mut w = window();
    w[GPPUD_OFFSET / 4] = 0;
    w[GPPUDCLK0_OFFSET / 4] = 0;
    w
}

#[test]
fn release_twice_unmaps_once() {
    let mut s = opened();
    assert!(s.release().is_some());
    assert!(s.release().is_none());
}

#[test]
fn listing_twice_gives_same_pins() {
    let s = opened();
    assert_eq!(sorted(s.get_output_pins()), sorted(s.get_output_pins()));
    assert_eq!(s.get_input_pins(), s.get_input_pins());
}

#[test]
fn decode_known_and_unknown() {
    assert_eq!(decode_request(GPIO_READ, 4, 0), Ok(Request::ReadLevel { pin: 4 }));
    assert_eq!(decode_request(GET_OUTPUTS, 0, 0), Ok(Request::GetOutputs));
    assert_eq!(decode_request(GET_INPUTS, 0, 0), Ok(Request::GetInputs));
    assert_eq!(
        decode_request(SET_OUTPUT, 2, 5),
        Ok(Request::SetOutput { pin: 2, high: true })
    );
    assert_eq!(
        decode_request(SET_MODE, -1, 0),
        Ok(Request::SetMode { pin: u32::MAX, output: false })
    );
    assert_eq!(decode_request(0x1234, 0, 0), Err(GpioError::Unsupported));
}

#[test]
fn ioctl_dispatches() {
    let mut s = opened();
    assert!(matches!(s.ioctl(0, 0, 0), Err(GpioError::Unsupported)));
    assert!(matches!(s.ioctl(SET_MODE, 3, 1), Ok(Reply::Done)));
    match s.ioctl(GET_OUTPUTS, 0, 0) {
        Ok(Reply::Pins(p)) => assert_eq!(sorted(p), vec![2, 3, 17]),
        other => panic!("unexpected reply {:?}", other),
    }
    assert!(matches!(s.ioctl(GPIO_READ, 3, 0), Err(GpioError::PermissionDenied)));
    assert!(matches!(s.ioctl(SET_MODE, 28, 1), Err(GpioError::InvalidArgument)));
    assert!(matches!(s.ioctl(SET_OUTPUT, 3, 1), Ok(Reply::Done)));
    assert!(matches!(s.ioctl(GPIO_READ, 0, 0), Ok(Reply::Level(0))));
    match s.ioctl(GET_INPUTS, 0, 0) {
        Ok(Reply::Pins(p)) => assert_eq!(p.len(), 23),
        other => panic!("unexpected reply {:?}", other),
    }
}
