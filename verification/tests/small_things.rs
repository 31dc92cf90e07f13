use blue_hal::drivers::efm32gg11b::clocks::Clock;
use blue_hal::drivers::efm32gg11b::clocks::Clocks;
use blue_hal::drivers::efm32gg11b::gpio::Gpio;
use blue_hal::drivers::efm32gg11b::gpio::Input;
use blue_hal::drivers::efm32gg11b::gpio::Mode;
use blue_hal::drivers::efm32gg11b::gpio::Pin;
use blue_hal::drivers::efm32gg11b::serial::RxPin;
use blue_hal::drivers::efm32gg11b::serial::Serial;
use blue_hal::drivers::efm32gg11b::serial::TxPin;
use blue_hal::drivers::is25lp128f;
use blue_hal::drivers::max3263::gpio::has_pin;
use blue_hal::drivers::max3263::gpio::AF0;
use blue_hal::drivers::max3263::spi::ClkmanScale;
use blue_hal::drivers::micron::n25q128a_flash::Address;
use blue_hal::drivers::micron::n25q128a_flash::MemoryMap;
use blue_hal::drivers::max3263::spi::Spi;
use blue_hal::drivers::max3263::spi::SpiError;
use blue_hal::drivers::stm32f4::qspi::Bk1CsPin;
use blue_hal::drivers::stm32f4::qspi::Bk1Io0Pin;
use blue_hal::drivers::stm32f4::qspi::Bk1Io1Pin;
use blue_hal::drivers::stm32f4::qspi::Bk1Io2Pin;
use blue_hal::drivers::stm32f4::qspi::Bk1Io3Pin;
use blue_hal::drivers::stm32f4::qspi::ClkPin;
use blue_hal::drivers::stm32f4::qspi::Config;
use blue_hal::drivers::stm32f4::qspi::ConfigError;
use blue_hal::drivers::stm32f4::qspi::DataRate;
use blue_hal::drivers::stm32f4::qspi::FlashMode;
use blue_hal::drivers::stm32f4::qspi::Frame;
use blue_hal::drivers::stm32f4::qspi::QspiError;
use blue_hal::drivers::stm32f4::qspi::QuadSpi;
use blue_hal::drivers::stm32f4::qspi::Setup;
use blue_hal::drivers::stm32f4::qspi::Single;
use blue_hal::drivers::stm32f4::update_signal::FixedUpdateSignal;
use blue_hal::hal::doubles::qspi::MockQspi;
use blue_hal::hal::doubles::serial::SerialStub;
use blue_hal::hal::null::NullInstant;
use blue_hal::hal::null::NullUpdateSignal;
use blue_hal::hal::qspi::Data;
use blue_hal::hal::qspi::Indirect;
use blue_hal::hal::qspi::Mode as QspiMode;
use blue_hal::hal::qspi::QSPICommand;
use blue_hal::hal::serial::Read;
use blue_hal::hal::serial::TimeoutRead;
use blue_hal::hal::serial::Write;
use blue_hal::hal::time::elapsed;
use blue_hal::hal::time::Hertz;
use blue_hal::hal::time::MegaHertz;
use blue_hal::hal::time::Milliseconds;
use blue_hal::hal::update_signal::UpdateSignal;
use blue_hal::hal::update_signal::UpdateSignalResult;
use blue_hal::utilities::bitwise::is_set;
use blue_hal::utilities::bitwise::is_subset_of;
use blue_hal::utilities::memory::overlaps;
use blue_hal::utilities::memory::Overlap;
use blue_hal::utilities::safety::LimitedU8;

#[test]
fn claiming_a_pin_twice_gives_it_once() {
    let mut gpio = Gpio::new();
    assert!(gpio.claim_as_input::<b'A', 3>().is_some());
    assert!(gpio.claim_as_output::<b'B', 3>().is_some());
    assert!(gpio.claim_as_output::<b'A', 4>().is_some());
    assert!(gpio.claim_as_input::<b'A', 3>().is_none());
    assert!(gpio.claim_as_output::<b'A', 3>().is_none());
    assert!(gpio.claim_with_alternate_function::<b'A', 3, 2>().is_none());
    assert!(gpio.claim_with_alternate_function::<b'L', 15, 2>().is_some());
    assert!(gpio.claim_with_alternate_function::<b'L', 15, 2>().is_none());
    assert!(gpio.claim_as_input::<b'A', 0>().is_some());
    assert!(gpio.claim_as_input::<b'B', 3>().is_none());
    assert!(gpio.claim::<b'C', 7>());
    assert!(!gpio.claim::<b'C', 7>());
}

#[test]
fn claiming_a_pin_that_is_not_there_gives_none() {
    let mut gpio = Gpio::new();
    assert!(gpio.claim_as_input::<b'M', 0>().is_none());
    assert!(gpio.claim_as_input::<b'@', 0>().is_none());
    assert!(gpio.claim_as_output::<0, 0>().is_none());
    assert!(gpio.claim_as_output::<b'a', 0>().is_none());
    assert!(gpio.claim_as_output::<b'A', 16>().is_none());
    assert!(gpio.claim_with_alternate_function::<b'L', 255, 0>().is_none());
    assert!(gpio.claim_as_output::<b'A', 16>().is_none());
    assert!(gpio.claim_as_output::<b'A', 15>().is_some());
}

#[test]
fn registries_do_not_share_their_pins() {
    let mut first = Gpio::new();
    let mut second = Gpio::new();
    assert!(first.claim_as_input::<b'D', 9>().is_some());
    assert!(second.claim_as_input::<b'D', 9>().is_some());
    assert!(first.claim_as_input::<b'D', 9>().is_none());
}

#[test]
fn pin_changes_its_mode_by_changing_its_type() {
    let mut gpio = Gpio::new();
    let pin: Pin<Input, b'E', 9> = gpio.claim_as_input::<b'E', 9>().unwrap();
    // Pin 9 has the bits 4 to 7 of the high mode register.
    let (pin, register) = pin.as_output(0x0000_0010);
    assert_eq!(register, 0x0000_0040);
    let (pin, register) = pin.as_disabled(register);
    assert_eq!(register, 0);
    let (_pin, register): (Pin<Input, b'E', 9>, u32) = pin.as_input(register);
    assert_eq!(register, 0x0000_0010);
    assert!(Pin::<Input, b'E', 9>::uses_high_register());
    assert!(!Pin::<Input, b'E', 7>::uses_high_register());
}

#[test]
fn mode_register_changes_in_the_bits_of_the_pin_only() {
    assert_eq!(Mode::Disabled.bits(), 0);
    assert_eq!(Mode::Input.bits(), 1);
    assert_eq!(Mode::PushPullOutput.bits(), 4);
    assert_eq!(Pin::<Input, b'A', 0>::set_mode(Mode::Input, 0), 0x0000_0001);
    assert_eq!(Pin::<Input, b'A', 2>::set_mode(Mode::PushPullOutput, 0xFFFF_FFFF), 0xFFFF_F4FF);
    assert_eq!(Pin::<Input, b'A', 7>::set_mode(Mode::Input, 0x4000_0000), 0x1000_0000);
    assert_eq!(Pin::<Input, b'A', 8>::set_mode(Mode::PushPullOutput, 0x1234_5678), 0x1234_5674);
    assert_eq!(Pin::<Input, b'A', 15>::set_mode(Mode::Disabled, 0x1234_5678), 0x0234_5678);
}

#[test]
fn max3263_has_eight_full_ports_and_two_more_pins() {
    assert!(has_pin(0, 0));
    assert!(has_pin(7, 7));
    assert!(!has_pin(7, 8));
    assert!(has_pin(8, 1));
    assert!(!has_pin(8, 2));
    assert!(!has_pin(9, 0));
    let _ = AF0 {};
}

#[test]
fn bits_are_counted_from_the_least_significant() {
    assert!(is_set(0b0000_0001, 0));
    assert!(!is_set(0b0000_0001, 1));
    assert!(is_set(0b1000_0000, 7));
    assert!(!is_set(0b0111_1111, 7));
    assert!(is_set(0b0001_0000, 4));
}

#[test]
fn bit_subsets() {
    assert!(is_subset_of(&[0b0101, 0x00], &[0b1101, 0x00, 0x12]));
    assert!(is_subset_of(&[], &[]));
    assert!(is_subset_of(&[], &[1]));
    assert!(is_subset_of(&[0xAB, 0xCD], &[0xFF, 0xFF]));
    assert!(is_subset_of(&[0x00], &[0x00]));
    assert!(!is_subset_of(&[0b0010], &[0b1101]));
    assert!(!is_subset_of(&[0x0F, 0x10], &[0x0F, 0x0F]));
    assert!(!is_subset_of(&[0x00, 0x00], &[0xFF]));
}

#[test]
fn overlaps_cut_a_run_of_bytes_at_the_block_bounds() {
    let pages = MemoryMap::pages();
    let found = overlaps(&pages, 600, Address(200));
    assert_eq!(
        found,
        vec![
            Overlap { block: 0, start: 0, end: 56, address: 200 },
            Overlap { block: 1, start: 56, end: 312, address: 256 },
            Overlap { block: 2, start: 312, end: 568, address: 512 },
            Overlap { block: 3, start: 568, end: 600, address: 768 },
        ]
    );
    assert_eq!(overlaps(&pages, 0, Address(200)), vec![]);
    assert_eq!(
        overlaps(&pages, 256, Address(512)),
        vec![Overlap { block: 2, start: 0, end: 256, address: 512 }]
    );
    let sectors = MemoryMap::sectors();
    assert_eq!(
        overlaps(&sectors, 8, Address(0x00FF_FFFC)),
        vec![Overlap { block: 255, start: 0, end: 4, address: 0x00FF_FFFC }]
    );
    assert_eq!(overlaps(&sectors, 8, Address(0x0100_0000)), vec![]);
    assert_eq!(
        overlaps(&pages[2..4], 2000, Address(0)),
        vec![
            Overlap { block: 0, start: 512, end: 768, address: 512 },
            Overlap { block: 1, start: 768, end: 1024, address: 768 },
        ]
    );
}

#[test]
fn limited_bytes_lie_within_their_limits() {
    assert!(LimitedU8::<3, 7>::new(2).is_none());
    assert_eq!(LimitedU8::<3, 7>::new(3).unwrap().value(), 3);
    assert_eq!(*LimitedU8::<3, 7>::new(4).unwrap(), 4);
    assert_eq!(LimitedU8::<3, 7>::new(7).unwrap().value(), 7);
    assert!(LimitedU8::<3, 7>::new(8).is_none());
    assert!(LimitedU8::<7, 3>::new(5).is_none());
    assert_eq!(LimitedU8::<0, 255>::new(255).unwrap().value(), 255);
}

#[test]
fn update_signals() {
    assert!(matches!(FixedUpdateSignal::new(true).should_update(), UpdateSignalResult::Any));
    assert!(matches!(FixedUpdateSignal::new(false).should_update(), UpdateSignalResult::NoUpdate));
    assert!(matches!(NullUpdateSignal.should_update(), UpdateSignalResult::Any));
    assert_eq!(NullInstant - NullInstant, Milliseconds(0));
    let _: NullInstant = NullInstant + Milliseconds(5);
}

#[test]
fn time_between_two_moments() {
    assert_eq!(elapsed(Milliseconds(5), Milliseconds(12)), Milliseconds(7));
    assert_eq!(elapsed(Milliseconds(12), Milliseconds(5)), Milliseconds(0));
    assert_eq!(elapsed(Milliseconds(12), Milliseconds(12)), Milliseconds(0));
    assert_eq!(MegaHertz(72).hertz(), Hertz(72_000_000));
}

#[test]
fn serial_stub_reads_zeros() {
    let mut stub = SerialStub;
    assert!(stub.write_str("anything").is_ok());
    assert!(matches!(Read::read(&mut stub), Ok(0)));
    assert!(matches!(stub.read_within(Milliseconds(10)), Ok(0)));
}

#[test]
fn command_builder_sets_one_part_at_a_time() {
    let command = QSPICommand::default();
    assert_eq!(command.instruction(), None);
    assert_eq!(command.address(), None);
    assert_eq!(command.dummy_cycles(), 0);
    assert!(matches!(command.data_ref(), Data::WriteNone));
    let command = command.with_instruction(0x9E).with_address(0x1234).with_dummy_cycles(4);
    assert_eq!(command.instruction(), Some(0x9E));
    assert_eq!(command.address(), Some(0x1234));
    assert_eq!(command.dummy_cycles(), 4);
    assert!(matches!(command.data_ref(), Data::WriteNone));
    let command = command.with_read_data(vec![0; 3]);
    assert!(matches!(command.data_ref(), Data::Read(buffer) if buffer.len() == 3));
    let command = command.with_write_data(vec![1, 2]);
    assert!(matches!(command.data_ref(), Data::Write(bytes) if bytes == &vec![1, 2]));
    let mut command = command.with_data(Data::Read(vec![5]));
    assert_eq!(command.instruction(), Some(0x9E));
    if let Data::Read(buffer) = command.data_mut() {
        buffer[0] = 6;
    }
    assert!(matches!(command.data(), Data::Read(buffer) if buffer == vec![6]));
}

#[test]
fn mock_qspi_notes_commands_and_answers_reads() {
    let mut qspi = MockQspi::default();
    assert_eq!(qspi.mode, QspiMode::Single);
    qspi.to_read.push_back(vec![1, 2, 3]);
    qspi.to_read.push_back(vec![4]);
    let mut write = QSPICommand::default().with_instruction(2).with_write_data(vec![7, 8]);
    qspi.execute_command(&mut write).unwrap();
    let mut read = QSPICommand::default().with_address(9).with_read_data(vec![0, 0]);
    qspi.execute_command(&mut read).unwrap();
    assert!(matches!(read.data_ref(), Data::Read(buffer) if buffer == &vec![1, 2]));
    let mut read = QSPICommand::default().with_read_data(vec![9, 9]).with_dummy_cycles(3);
    qspi.execute_command(&mut read).unwrap();
    assert!(matches!(read.data_ref(), Data::Read(buffer) if buffer == &vec![4, 9]));
    qspi.execute_command(&mut read).unwrap();
    assert!(matches!(read.data_ref(), Data::Read(buffer) if buffer == &vec![4, 9]));
    let mut bare = QSPICommand::default();
    qspi.execute_command(&mut bare).unwrap();
    let records = &qspi.command_records;
    assert_eq!(records.len(), 5);
    assert_eq!(records[0].instruction, Some(2));
    assert!(records[0].contains(&[7, 8]));
    assert!(!records[0].contains(&[7]));
    assert!(!records[0].contains(&[7, 9]));
    assert_eq!(records[0].length_requested, 0);
    assert_eq!(records[1].address, Some(9));
    assert_eq!(records[1].length_requested, 2);
    assert!(records[1].contains(&[0, 0]));
    assert_eq!(records[2].dummy_cycles, 3);
    assert!(records[3].contains(&[4, 9]));
    assert!(!records[4].contains(&[]));
    assert_eq!(records[4].data, None);
    qspi.clear();
    assert!(qspi.command_records.is_empty());
    assert!(qspi.to_read.is_empty());
}

struct Wire;

impl ClkPin for Wire {}
impl Bk1CsPin for Wire {}
impl Bk1Io0Pin for Wire {}
impl Bk1Io1Pin for Wire {}
impl Bk1Io2Pin for Wire {}
impl Bk1Io3Pin for Wire {}

type Pins = (Wire, Wire, Wire, Wire, Wire, Wire);

fn pins() -> Pins {
    (Wire, Wire, Wire, Wire, Wire, Wire)
}

#[test]
fn quadspi_configuration() {
    let config: Config<Single> = Config::new();
    assert!(QuadSpi::from_config(pins(), config).is_ok());
    for bits in [8u8, 16, 24, 32] {
        let config: Config<Single> = Config::new().with_flash_size(bits).ok().unwrap();
        let driver = QuadSpi::from_config(pins(), config).ok().unwrap();
        assert_eq!(
            driver.setup(),
            Setup {
                prescaler: 255,
                fifo_threshold: 1,
                flash_size: bits - 1,
                chip_select_high_time: 7
            }
        );
    }
    for bits in [0u8, 7, 9, 23, 25, 31, 33, 64, 255] {
        let config: Config<Single> = Config::new();
        assert!(matches!(config.with_flash_size(bits), Err(ConfigError::InvalidFlashSize)));
    }
    let config: Config<Single> = Config::<Single>::new().double().quad().single();
    let config = config.with_data_rate(DataRate::Double);
    assert!(matches!(
        QuadSpi::from_config(pins(), config),
        Err(ConfigError::NotYetImplemented)
    ));
    let config: Config<Single> = Config::new().with_flash_mode(FlashMode::Double);
    assert!(matches!(
        QuadSpi::from_config(pins(), config),
        Err(ConfigError::NotYetImplemented)
    ));
    let config: Config<Single> =
        Config::new().with_flash_mode(FlashMode::Double).with_flash_mode(FlashMode::Single);
    assert!(QuadSpi::from_config(pins(), config).is_ok());
}

#[test]
fn quadspi_lays_commands_out_for_its_registers() {
    let config: Config<Single> = Config::new();
    let driver = QuadSpi::from_config(pins(), config).ok().unwrap();
    let command = QSPICommand::default()
        .with_instruction(0x03)
        .with_address(0x1234)
        .with_read_data(vec![0; 16])
        .with_dummy_cycles(8);
    assert_eq!(
        driver.plan(&command, false),
        Ok(Frame {
            data_length: 15,
            data_mode: 1,
            functional_mode: 1,
            dummy_cycles: 8,
            address_size: 2,
            address_mode: 1,
            instruction_mode: 1,
            instruction: 0x03,
            address: Some(0x1234),
        })
    );
    let command = QSPICommand::default().with_write_data(vec![1]);
    assert_eq!(
        driver.plan(&command, false),
        Ok(Frame {
            data_length: 0,
            data_mode: 1,
            functional_mode: 0,
            dummy_cycles: 0,
            address_size: 2,
            address_mode: 1,
            instruction_mode: 0,
            instruction: 0,
            address: None,
        })
    );
    let command = QSPICommand::default().with_instruction(0x06);
    let frame = driver.plan(&command, false).unwrap();
    assert_eq!((frame.data_length, frame.data_mode, frame.functional_mode), (0, 0, 0));
    assert_eq!(driver.plan(&command, true), Err(nb::Error::WouldBlock));
    let command = QSPICommand::default().with_dummy_cycles(31);
    assert!(driver.plan(&command, false).is_ok());
    let command = QSPICommand::default().with_dummy_cycles(32);
    let out_of_range = Err(nb::Error::Other(QspiError::DummyCyclesValueOutOfRange));
    assert_eq!(driver.plan(&command, false), out_of_range);
    assert_eq!(driver.plan(&command, true), out_of_range);
    for (bits, size) in [(8u8, 0u8), (16, 1), (24, 2), (32, 3)] {
        let config: Config<Single> = Config::new().with_flash_size(bits).ok().unwrap();
        let driver = QuadSpi::from_config(pins(), config).ok().unwrap();
        assert_eq!(driver.plan(&QSPICommand::default(), false).unwrap().address_size, size);
    }
    assert_eq!(QuadSpi::<Pins, Single>::length(0), 0);
    assert_eq!(QuadSpi::<Pins, Single>::length(1), 0);
    assert_eq!(QuadSpi::<Pins, Single>::length(256), 255);
}

type TestSpi = Spi<
    blue_hal::drivers::max3263::gpio::Pin<AF0, 1, 0>,
    blue_hal::drivers::max3263::gpio::Pin<AF0, 1, 3>,
    blue_hal::drivers::max3263::gpio::Pin<AF0, 1, 1>,
    blue_hal::drivers::max3263::gpio::Pin<AF0, 1, 2>,
>;

#[test]
fn spi_clock_settings() {
    assert_eq!(ClkmanScale::disabled().0, 0);
    assert_eq!(ClkmanScale::auto().0, 0x0A);
    assert_eq!((ClkmanScale(3) + 2).0, 5);
    assert_eq!((ClkmanScale(3) - 2).0, 1);
    assert_eq!(TestSpi::sys_get_freq(ClkmanScale(0), 96_000_000), 0);
    assert_eq!(TestSpi::sys_get_freq(ClkmanScale(1), 96_000_000), 96_000_000);
    assert_eq!(TestSpi::sys_get_freq(ClkmanScale(4), 96_000_000), 12_000_000);
    assert_eq!(TestSpi::sys_get_freq(ClkmanScale(10), 96_000_000), 187_500);
    assert_eq!(TestSpi::clock_settings(96_000_000, 48_000_000), Ok(1));
    assert_eq!(TestSpi::clock_settings(96_000_000, 12_000_000), Ok(4));
    assert_eq!(TestSpi::clock_settings(96_000_000, 3_000_000), Ok(0));
    assert_eq!(TestSpi::clock_settings(96_000_000, 3_100_000), Ok(15));
    assert_eq!(TestSpi::clock_settings(96_000_000, 15200), Err(SpiError::BadParameter));
    assert_eq!(TestSpi::clock_settings(10, 15200), Ok(1));
    // Chosen by the driver: the first scale whose fastest rate is the rate
    // asked for, or else the largest.
    assert_eq!(
        TestSpi::choose_clock_scale(ClkmanScale::auto(), 12_000_000, 96_000_000).ok().unwrap().0,
        2
    );
    assert_eq!(
        TestSpi::choose_clock_scale(ClkmanScale::auto(), 48_000_000, 96_000_000).ok().unwrap().0,
        0
    );
    assert_eq!(
        TestSpi::choose_clock_scale(ClkmanScale::auto(), 15200, 96_000_000).ok().unwrap().0,
        10
    );
    assert!(TestSpi::choose_clock_scale(ClkmanScale::auto(), 48_000_001, 96_000_000).is_err());
    // Given by the caller.
    assert_eq!(
        TestSpi::choose_clock_scale(ClkmanScale(3), 12_000_000, 96_000_000).ok().unwrap().0,
        3
    );
    assert!(TestSpi::choose_clock_scale(ClkmanScale(3), 12_000_001, 96_000_000).is_err());
    assert_eq!(
        TestSpi::choose_clock_scale(ClkmanScale(1), 48_000_000, 96_000_000).ok().unwrap().0,
        1
    );
}

struct Usart;
struct Line;

impl RxPin<Usart> for Line {}
impl TxPin<Usart> for Line {}

#[test]
fn efm32_clocks_and_baud_rate() {
    assert_eq!(Clocks::prescaler(Hertz(72_000_000), 50_000_000), 1);
    assert_eq!(Clocks::prescaler(Hertz(72_000_000), 72_000_000), 0);
    assert_eq!(Clocks::prescaler(Hertz(100_000_001), 50_000_000), 2);
    assert_eq!(Clocks::prescaler(Hertz(0), 50_000_000), 0);
    assert_eq!(Clocks::prescaler(Hertz(u32::MAX), 1), u32::MAX - 1);
    assert_eq!(Clocks::set_prescalers(MegaHertz(72)), (1, 0, 1));
    let clocks = Clocks { hf_prescaler: 0, hf_peripheral_prescaler: 3 };
    assert_eq!(clocks.get_frequency_hfclk(), Hertz(19_000_000));
    assert_eq!(clocks.get_frequency_hfperclk(), Hertz(4_750_000));
    assert_eq!(clocks.get_frequency(Clock::HfClk), Hertz(19_000_000));
    assert_eq!(clocks.get_frequency(Clock::HfPerClk), Hertz(4_750_000));
    let halved = Clocks { hf_prescaler: 1, hf_peripheral_prescaler: 0 };
    assert_eq!(halved.get_frequency_hfclk(), Hertz(9_500_000));
    assert_eq!(Serial::<Usart, Line, Line>::set_baud_rate(&clocks), 2639);
    assert_eq!(Serial::new(Usart, Line, Line, &halved).clock_divider, 1319);
}

#[test]
fn is25lp128f_knows_its_name_and_size() {
    struct Bus;
    impl blue_hal::hal::spi::FullDuplex<u8> for Bus {
        type Error = ();
        fn transmit(&mut self, _word: Option<u8>) -> Result<(), nb::Error<()>> {
            Ok(())
        }
        fn receive(&mut self) -> Result<u8, nb::Error<()>> {
            Ok(0)
        }
    }
    let flash = is25lp128f::Is25Lp128F::new(Bus);
    assert_eq!(
        flash.range(),
        (is25lp128f::Address(0x0000_0000), is25lp128f::Address(0x00FF_FFFF))
    );
    assert_eq!(is25lp128f::Is25Lp128F::<Bus>::label(), "is25lp128f");
    assert_eq!(is25lp128f::Address(5) + 3usize, is25lp128f::Address(8));
    assert_eq!(is25lp128f::Address(5) - 9usize, is25lp128f::Address(0));
    assert_eq!(is25lp128f::Address(5) - is25lp128f::Address(2), 3usize);
}

#[test]
fn pin_transitions_write_their_mode_and_nothing_else() {
    let mut gpio = Gpio::new();
    let low = gpio.claim_as_input::<b'A', 3>().unwrap();
    let (low, register) = low.as_input(0xFFFF_FFFF);
    assert_eq!(register, 0xFFFF_1FFF);
    let (low, register) = low.as_output(0x0000_0000);
    assert_eq!(register, 0x0000_4000);
    let (low, register) = low.as_disabled(0x1234_5678);
    assert_eq!(register, 0x1234_0678);
    let (_low, register) = low.as_disabled(register);
    assert_eq!(register, 0x1234_0678);
    let high = gpio.claim_as_output::<b'B', 12>().unwrap();
    let (high, register) = high.as_input(0xABCD_EF01);
    assert_eq!(register, 0xABC1_EF01);
    let (high, register) = high.as_output(0xABCD_EF01);
    assert_eq!(register, 0xABC4_EF01);
    let (_high, register) = high.as_disabled(0xABCD_EF01);
    assert_eq!(register, 0xABC0_EF01);
}
