use vstd::prelude::*;

verus! {

/// The ADC reading of the temperature sensor at 30 °C.
pub const CAL_ADC_30C: u16 = 0x1a1a;

/// The ADC reading of the temperature sensor at 85 °C.
pub const CAL_ADC_85C: u16 = 0x1a1c;

/// `x` reduced to a 16-bit word.
pub open spec fn wrap16(x: int) -> int {
    x % 0x1_0000
}

/// The temperature, in tenths of a degree Celsius, that a raw sensor reading
/// `raw` stands for: the reading less the 30 °C calibration, times 10, times
/// the 550 tenths between the calibration points, divided by 10 times the
/// difference of the calibration readings, plus 300 tenths; each step is
/// taken on 16-bit words and wraps.
pub open spec fn temperature_tenths(raw: u16) -> u16 {
    let temp = wrap16(raw - CAL_ADC_30C);
    let scaled = wrap16(wrap16(temp * 10) * 550);
    let span = wrap16((CAL_ADC_85C - CAL_ADC_30C) * 10);
    wrap16(scaled / span + 300) as u16
}

/// Converts a raw temperature sensor reading to tenths of a degree Celsius,
/// in 16-bit wrapping arithmetic.
pub fn convert_temp(raw: u16) -> (t: u16)
    ensures
        t == temperature_tenths(raw),
{
    let caladc30c: u16 = CAL_ADC_30C;
    let caladc85c: u16 = CAL_ADC_85C;
    let temp: u16 = raw.wrapping_sub(caladc30c);
    let span: u16 = 85u16.wrapping_sub(30).wrapping_mul(10);
    let cal_span: u16 = caladc85c.wrapping_sub(caladc30c).wrapping_mul(10);
    assert(cal_span == 20);
    let scaled: u16 = temp.wrapping_mul(10).wrapping_mul(span);
    let t: u16 = (scaled / cal_span).wrapping_add(300);
    t
}

/// From the 30 °C calibration reading up to 11 steps above it, where no
/// 16-bit step wraps, the conversion is exact and linear: 300 tenths at the
/// calibration reading and 275 tenths more per ADC step.
pub proof fn lemma_temperature_linear(raw: u16)
    requires
        CAL_ADC_30C <= raw <= CAL_ADC_30C + 11,
    ensures
        temperature_tenths(raw) == 300 + (raw - CAL_ADC_30C) * 275,
{
    let temp: int = raw - CAL_ADC_30C;
    assert(wrap16(temp) == temp);
    assert(0 <= temp * 10 <= 110);
    assert(wrap16(temp * 10) == temp * 10);
    assert(0 <= temp * 10 * 550 <= 60500) by (nonlinear_arith)
        requires
            0 <= temp <= 11,
    ;
    assert(wrap16(temp * 10 * 550) == temp * 10 * 550);
    assert((temp * 10 * 550) / 20 == temp * 275) by (nonlinear_arith)
        requires
            0 <= temp <= 11,
    ;
}

/// For every reading, the temperature in tenths of a degree is the reading's
/// distance above 0x1a1a (6682) taken modulo 2^16, times 5500 modulo 2^16,
/// divided by 20, plus 300, all modulo 2^16.
pub proof fn lemma_temperature_closed_form(raw: u16)
    ensures
        temperature_tenths(raw) as int == ((((raw as int - 6682) % 65536) * 5500) % 65536 / 20 + 300)
            % 65536,
{
    let temp: int = (raw as int - 6682) % 65536;
    assert(wrap16(raw - CAL_ADC_30C) == temp);
    assert(wrap16((CAL_ADC_85C - CAL_ADC_30C) * 10) == 20);
    vstd::arithmetic::div_mod::lemma_mul_mod_noop_left(temp * 10, 550, 65536);
    assert((temp * 10) * 550 == temp * 5500) by (nonlinear_arith);
    assert(wrap16(wrap16(temp * 10) * 550) == (temp * 5500) % 65536);
    let v: int = (temp * 5500) % 65536 / 20 + 300;
    assert(0 <= v);
    assert(0 <= v % 65536 < 65536);
}

} // verus!
