use msp430_temperature::lcd::{Lcd, LcdWord, LcdWrite};

#[test]
fn new_lcd_has_no_writes() {
    let lcd = Lcd::new();
    assert_eq!(lcd.len(), 0);
    assert_eq!(lcd.shown(LcdWord::M4), None);
}

#[test]
fn set_word_appends_a_write() {
    let mut lcd = Lcd::new();
    lcd.set_word(LcdWord::M2, 0x0400);
    assert_eq!(lcd.len(), 1);
    assert_eq!(lcd.get(0), LcdWrite { word: LcdWord::M2, bits: 0x0400 });
    assert_eq!(lcd.shown(LcdWord::M2), Some(0x0400));
    assert_eq!(lcd.shown(LcdWord::M18), None);
}

#[test]
fn last_write_to_a_word_wins() {
    let mut lcd = Lcd::new();
    lcd.set_word(LcdWord::M6, 1);
    lcd.set_word(LcdWord::M8, 2);
    lcd.set_word(LcdWord::M6, 3);
    assert_eq!(lcd.len(), 3);
    assert_eq!(lcd.shown(LcdWord::M6), Some(3));
    assert_eq!(lcd.shown(LcdWord::M8), Some(2));
}
