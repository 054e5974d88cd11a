use msp430_temperature::adc::{convert_temp, CAL_ADC_30C, CAL_ADC_85C};

#[test]
fn convert_temp_at_calibration_points() {
    assert_eq!(convert_temp(CAL_ADC_30C), 300);
    assert_eq!(convert_temp(CAL_ADC_85C), 850);
}

#[test]
fn convert_temp_one_step_above_calibration() {
    assert_eq!(convert_temp(0x1a1b), 575);
}

#[test]
fn convert_temp_is_linear_until_the_product_wraps() {
    for step in 0u16..=11 {
        assert_eq!(convert_temp(CAL_ADC_30C + step), 300 + step * 275);
    }
    assert_eq!(convert_temp(CAL_ADC_30C + 11), 3325);
}

#[test]
fn convert_temp_wraps_in_sixteen_bits() {
    assert_eq!(convert_temp(CAL_ADC_30C + 12), 323);
    assert_eq!(convert_temp(0), 1034);
    assert_eq!(convert_temp(0xffff), 759);
}
