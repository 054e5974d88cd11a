use msp430_temperature::lcd::{Lcd, LcdWord, LcdWrite};
use msp430_temperature::lcd_helper::{
    lookup_char, lookup_number, show_temperature, write_char_pos, write_dig_pos, write_digit,
    write_string, write_temp, Digits, DEGREE_SYMBOL,
};

fn writes(lcd: &Lcd) -> Vec<(LcdWord, u16)> {
    let mut out = Vec::new();
    for i in 0..lcd.len() {
        let w: LcdWrite = lcd.get(i);
        out.push((w.word, w.bits));
    }
    out
}

fn drain(d: &mut Digits) -> Vec<u16> {
    let mut out = Vec::new();
    while let Some(x) = d.next() {
        out.push(x);
    }
    out
}

#[test]
fn lookup_char_letters() {
    assert_eq!(lookup_char('A'), 0x00EF);
    assert_eq!(lookup_char('i'), 0x5090);
    assert_eq!(lookup_char('N'), 0x826C);
    assert_eq!(lookup_char('t'), 0x5080);
    assert_eq!(lookup_char('Z'), 0x2890);
    assert_eq!(lookup_char('C'), 0x009C);
}

#[test]
fn lookup_char_non_letters_are_blank() {
    assert_eq!(lookup_char('1'), 0);
    assert_eq!(lookup_char(' '), 0);
    assert_eq!(lookup_char('é'), 0);
    assert_eq!(lookup_char('@'), 0);
    assert_eq!(lookup_char('['), 0);
}

#[test]
fn lookup_char_ignores_case() {
    for (lower, upper) in ('a'..='z').zip('A'..='Z') {
        assert_eq!(lookup_char(lower), lookup_char(upper));
        assert_ne!(lookup_char(lower), 0);
    }
}

#[test]
fn only_letters_light_segments() {
    for code in 0u32..0x250 {
        if let Some(c) = char::from_u32(code) {
            assert_eq!(lookup_char(c) != 0, c.is_ascii_alphabetic());
        }
    }
}

#[test]
fn lookup_number_digits() {
    let expected: [u16; 10] = [
        0x28FC, 0x2060, 0x00DB, 0x00F3, 0x0067, 0x00B7, 0x00BF, 0x00E0, 0x00FF, 0x00F7,
    ];
    for n in 0u16..10 {
        assert_eq!(lookup_number(n), expected[n as usize]);
    }
    assert_eq!(lookup_number(10), 0);
    assert_eq!(lookup_number(u16::MAX), 0);
}

#[test]
fn digits_pad_with_a_leading_zero() {
    assert_eq!(drain(&mut Digits::new(0)), vec![0, 0]);
    assert_eq!(drain(&mut Digits::new(5)), vec![0, 5]);
    assert_eq!(drain(&mut Digits::new(123)), vec![0, 1, 2, 3]);
    assert_eq!(drain(&mut Digits::new(65535)), vec![0, 6, 5, 5, 3, 5]);
}

#[test]
fn digits_of_powers_of_ten_have_no_padding() {
    assert_eq!(drain(&mut Digits::new(10)), vec![1, 0]);
    assert_eq!(drain(&mut Digits::new(100)), vec![1, 0, 0]);
    assert_eq!(drain(&mut Digits::new(1000)), vec![1, 0, 0, 0]);
    assert_eq!(drain(&mut Digits::new(100_000)), vec![1, 0, 0, 0, 0, 0]);
}

#[test]
fn digits_of_large_numbers_keep_the_last_digit() {
    assert_eq!(drain(&mut Digits::new(100_001)), vec![1]);
    assert_eq!(drain(&mut Digits::new(123_457)), vec![7]);
}

#[test]
fn digits_spell_every_number_up_to_100000() {
    for n in 0usize..=100_000 {
        let ds = drain(&mut Digits::new(n));
        assert!(ds.len() >= 2 && ds.len() <= 6);
        let mut value: usize = 0;
        for d in &ds {
            assert!(*d < 10);
            value = value * 10 + *d as usize;
        }
        assert_eq!(value, n);
    }
}

#[test]
fn digits_has_next() {
    let mut d = Digits::new(3);
    assert!(d.has_next());
    d.next();
    assert!(d.has_next());
    d.next();
    assert!(!d.has_next());
}

#[test]
fn digits_stay_exhausted() {
    let mut d = Digits::new(7);
    assert_eq!(d.next(), Some(0));
    assert_eq!(d.next(), Some(7));
    assert_eq!(d.next(), None);
    assert_eq!(d.next(), None);
}

#[test]
fn digits_next_back_counts_down() {
    let mut d = Digits::new(3);
    assert_eq!(d.next_back(), Some(3));
    assert_eq!(d.next_back(), Some(2));
    assert_eq!(d.next_back(), Some(1));
    let mut big = Digits::new(0x1_0005);
    assert_eq!(big.next_back(), Some(5));
}

#[test]
fn write_char_pos_each_position() {
    let mut lcd = Lcd::new();
    for pos in 1u8..=6 {
        write_char_pos('A', pos, &mut lcd);
    }
    assert_eq!(
        writes(&lcd),
        vec![
            (LcdWord::M4, 0x00EF),
            (LcdWord::M6, 0x00EF),
            (LcdWord::M8, 0x00EF),
            (LcdWord::M10, 0x00EF),
            (LcdWord::M2, 0x00EF),
            (LcdWord::M18, 0x00EF),
        ]
    );
}

#[test]
fn write_char_pos_outside_the_display_does_nothing() {
    let mut lcd = Lcd::new();
    write_char_pos('A', 0, &mut lcd);
    write_char_pos('A', 7, &mut lcd);
    write_char_pos('A', 255, &mut lcd);
    assert_eq!(lcd.len(), 0);
}

#[test]
fn write_dig_pos_places_digit_segments() {
    let mut lcd = Lcd::new();
    write_dig_pos(7, 3, &mut lcd);
    write_dig_pos(12, 5, &mut lcd);
    write_dig_pos(1, 0, &mut lcd);
    assert_eq!(writes(&lcd), vec![(LcdWord::M8, 0x00E0), (LcdWord::M2, 0)]);
}

#[test]
fn write_string_init() {
    let mut lcd = Lcd::new();
    write_string("INIT", &mut lcd);
    assert_eq!(
        writes(&lcd),
        vec![
            (LcdWord::M4, 0x5090),
            (LcdWord::M6, 0x826C),
            (LcdWord::M8, 0x5090),
            (LcdWord::M10, 0x5080),
        ]
    );
}

#[test]
fn write_string_keeps_six_characters() {
    let mut lcd = Lcd::new();
    write_string("TEMPERATURE", &mut lcd);
    assert_eq!(lcd.len(), 6);
    assert_eq!(lcd.shown(LcdWord::M4), Some(lookup_char('T')));
    assert_eq!(lcd.shown(LcdWord::M18), Some(lookup_char('R')));
}

#[test]
fn write_string_empty() {
    let mut lcd = Lcd::new();
    write_string("", &mut lcd);
    assert_eq!(lcd.len(), 0);
}

#[test]
fn write_string_places_by_byte_offset() {
    let mut lcd = Lcd::new();
    write_string("éA€B", &mut lcd);
    assert_eq!(
        writes(&lcd),
        vec![(LcdWord::M4, 0), (LcdWord::M8, 0x00EF), (LcdWord::M10, 0)]
    );
}

#[test]
fn write_digit_most_significant_digit_first() {
    let mut lcd = Lcd::new();
    write_digit(123, &mut lcd);
    assert_eq!(
        writes(&lcd),
        vec![(LcdWord::M4, 0x2060), (LcdWord::M6, 0x00DB), (LcdWord::M8, 0x00F3)]
    );
}

#[test]
fn write_digit_small_and_round_numbers() {
    let mut lcd = Lcd::new();
    write_digit(5, &mut lcd);
    assert_eq!(writes(&lcd), vec![(LcdWord::M4, 0x00B7)]);
    let mut lcd = Lcd::new();
    write_digit(0, &mut lcd);
    assert_eq!(writes(&lcd), vec![(LcdWord::M4, 0x28FC)]);
    let mut lcd = Lcd::new();
    write_digit(10, &mut lcd);
    assert_eq!(writes(&lcd), vec![(LcdWord::M4, 0x2060), (LcdWord::M6, 0x28FC)]);
    let mut lcd = Lcd::new();
    write_digit(100, &mut lcd);
    assert_eq!(
        writes(&lcd),
        vec![(LcdWord::M4, 0x2060), (LcdWord::M6, 0x28FC), (LcdWord::M8, 0x28FC)]
    );
    let mut lcd = Lcd::new();
    write_digit(10000, &mut lcd);
    assert_eq!(lcd.len(), 5);
    assert_eq!(lcd.shown(LcdWord::M4), Some(lookup_number(1)));
    assert_eq!(lcd.shown(LcdWord::M2), Some(lookup_number(0)));
}

#[test]
fn write_digit_largest_value() {
    let mut lcd = Lcd::new();
    write_digit(i16::MAX, &mut lcd);
    assert_eq!(
        writes(&lcd),
        vec![
            (LcdWord::M4, lookup_number(3)),
            (LcdWord::M6, lookup_number(2)),
            (LcdWord::M8, lookup_number(7)),
            (LcdWord::M10, lookup_number(6)),
            (LcdWord::M2, lookup_number(7)),
        ]
    );
}

#[test]
fn write_digit_negative_numbers_show_nothing() {
    let mut lcd = Lcd::new();
    write_digit(-1, &mut lcd);
    assert_eq!(lcd.len(), 0);
    write_digit(i16::MIN, &mut lcd);
    assert_eq!(lcd.len(), 0);
}

#[test]
fn write_digit_shows_every_number_in_decimal() {
    for n in 0i16..=i16::MAX {
        let mut lcd = Lcd::new();
        write_digit(n, &mut lcd);
        let text = n.to_string();
        assert_eq!(lcd.len(), text.len());
        for (i, ch) in text.chars().enumerate() {
            let digit = ch.to_digit(10).unwrap() as u16;
            assert_eq!(lcd.get(i).bits, lookup_number(digit));
        }
    }
}

#[test]
fn write_temp_shows_five_digit_words() {
    let mut lcd = Lcd::new();
    write_temp(65535, &mut lcd);
    assert_eq!(
        writes(&lcd),
        vec![
            (LcdWord::M4, lookup_number(6)),
            (LcdWord::M6, lookup_number(5)),
            (LcdWord::M8, lookup_number(5)),
            (LcdWord::M10, lookup_number(3)),
            (LcdWord::M2, lookup_number(5)),
        ]
    );
}

#[test]
fn show_temperature_reading() {
    let mut lcd = Lcd::new();
    show_temperature(300, &mut lcd);
    assert_eq!(
        writes(&lcd),
        vec![
            (LcdWord::M4, lookup_number(3)),
            (LcdWord::M6, lookup_number(0)),
            (LcdWord::M8, lookup_number(0)),
            (LcdWord::M18, lookup_char('C')),
            (LcdWord::M2, DEGREE_SYMBOL),
        ]
    );
    assert_eq!(lcd.shown(LcdWord::M10), None);
}
