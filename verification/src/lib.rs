//! Display logic for a temperature readout on the MSP430FR4133 segment LCD.
//!
//! The hardware itself is driven from `app/`; this library holds what the
//! firmware computes: the segment patterns of letters and digits, the decimal
//! digits of a number, the placement of characters on the six display
//! positions, and the conversion of a raw ADC sample to tenths of a degree.
//! Every write to LCD memory is recorded in an [`lcd::Lcd`] log, which the
//! firmware replays onto the LCD_E peripheral.

pub mod adc;
pub mod lcd;
pub mod lcd_helper;
