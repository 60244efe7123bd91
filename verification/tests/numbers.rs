use cjson_rs::lex::scan_number;

fn bits_of(text: &str) -> u64 {
    let (bits, end) = scan_number(text.as_bytes(), 0).unwrap();
    assert_eq!(end, text.len());
    bits
}

fn same_as_std(text: &str) {
    let expected: f64 = text.parse().unwrap();
    assert_eq!(bits_of(text), expected.to_bits(), "{}", text);
}

#[test]
fn small_whole_numbers_are_exact() {
    assert_eq!(bits_of("0"), 0);
    assert_eq!(bits_of("1"), 0x3FF0_0000_0000_0000);
    assert_eq!(bits_of("-2"), 0xC000_0000_0000_0000);
    same_as_std("500");
    same_as_std("123456789012345678");
}

#[test]
fn fractions_are_rounded_to_nearest() {
    same_as_std("0.1");
    same_as_std("0.30000000000000004");
    same_as_std("3.141592653589793");
    same_as_std("2.2250738585072014e-308");
    same_as_std("2.2250738585072011e-308");
    same_as_std("4.9e-324");
    same_as_std("2.4703282292062327e-324");
    same_as_std("2.4703282292062328e-324");
    same_as_std("1.7976931348623157e308");
    same_as_std("1.7976931348623159e308");
    same_as_std("9007199254740993");
    same_as_std("9007199254740995");
    same_as_std("1e22");
    same_as_std("1e23");
    same_as_std("-1.5E+10");
    same_as_std("1e-400");
    same_as_std("1e400");
    same_as_std("0.000000000000000000000000000000000000000001e42");
}

fn text_of(x: f64) -> String {
    String::from_utf8(cjson_rs::format::number_to_text(x.to_bits())).unwrap()
}

#[test]
fn numbers_print_with_the_fewest_digits() {
    assert_eq!(text_of(0.0), "0");
    assert_eq!(text_of(-0.0), "0");
    assert_eq!(text_of(1.0), "1");
    assert_eq!(text_of(500.0), "500");
    assert_eq!(text_of(-2.5), "-2.5");
    assert_eq!(text_of(0.1), "0.1");
    assert_eq!(text_of(0.30000000000000004), "0.30000000000000004");
    assert_eq!(text_of(1e15), "1000000000000000");
    assert_eq!(text_of(1e21), "1e+21");
    assert_eq!(text_of(1e22), "1e+22");
    assert_eq!(text_of(1.5e300), "1.5e+300");
    assert_eq!(text_of(0.000001), "0.000001");
    assert_eq!(text_of(1.25e-7), "1.25e-7");
    assert_eq!(text_of(5e-324), "5e-324");
    assert_eq!(text_of(f64::MAX), "1.7976931348623157e+308");
    assert_eq!(text_of(123456789.125), "123456789.125");
}

#[test]
fn doubles_that_are_no_numbers_print_as_zero() {
    assert_eq!(text_of(f64::NAN), "0");
    assert_eq!(text_of(f64::INFINITY), "0");
    assert_eq!(text_of(f64::NEG_INFINITY), "0");
}

#[test]
fn printed_numbers_read_back() {
    let samples = [
        1.0, 0.1, 3.141592653589793, 2.2250738585072014e-308, 4.9e-324, 1.7976931348623157e308,
        9007199254740993.0, 123456.789e-20, 6.02214076e23, -1.602176634e-19, 299792458.0,
    ];
    for x in samples {
        let text = text_of(x);
        let back: f64 = text.parse().unwrap();
        assert_eq!(back.to_bits(), x.to_bits(), "{}", text);
        assert_eq!(bits_of(&text), x.to_bits(), "{}", text);
    }
}

struct Lcg(u64);

impl Lcg {
    fn next(&mut self) -> u64 {
        self.0 = self.0.wrapping_mul(6364136223846793005).wrapping_add(1442695040888963407);
        self.0 ^ (self.0 >> 29)
    }
}

fn digits_of(text: &str) -> usize {
    let mantissa = text.split(|c| c == 'e' || c == 'E').next().unwrap();
    let digits: String = mantissa.chars().filter(|c| c.is_ascii_digit()).collect();
    let trimmed = digits.trim_start_matches('0').trim_end_matches('0');
    trimmed.len().max(1)
}

#[test]
fn many_doubles_print_shortest_and_read_back() {
    let mut random = Lcg(0x2545F4914F6CDD1D);
    let mut checked = 0;
    while checked < 1500 {
        let bits = random.next();
        let x = f64::from_bits(bits);
        if !x.is_finite() || x == 0.0 {
            continue;
        }
        let text = text_of(x);
        let back: f64 = text.parse().unwrap();
        assert_eq!(back.to_bits(), bits, "{}", text);
        assert_eq!(bits_of(&text), bits, "{}", text);
        let shortest = format!("{:e}", x);
        assert_eq!(digits_of(&text), digits_of(&shortest), "{} against {}", text, shortest);
        checked += 1;
    }
}

#[test]
fn many_decimals_read_as_std_reads_them() {
    let mut random = Lcg(0x9E3779B97F4A7C15);
    for _ in 0..1500 {
        let whole = random.next() % 1_000_000_000_000;
        let fraction = random.next() % 1_000_000_000;
        let exponent = (random.next() % 700) as i64 - 350;
        let text = format!("{}.{:09}e{}", whole, fraction, exponent);
        same_as_std(&text);
        let plain = format!("-{}.{}", random.next(), random.next());
        same_as_std(&plain);
    }
}

#[test]
fn the_integer_of_an_integer_double_is_the_integer() {
    for v in [0, 1, -1, 7, -255, 65536, i32::MAX, i32::MIN, 123456789, -987654321] {
        let bits = cjson_rs::create::int_to_double(v);
        assert_eq!(bits, (v as f64).to_bits());
        assert_eq!(cjson_rs::double::double_to_int(bits), v);
    }
}

#[test]
fn singles_widen_to_doubles() {
    let mut random = Lcg(7);
    for _ in 0..500 {
        let bits = random.next() as u32;
        let single = f32::from_bits(bits);
        let wide = cjson_rs::create::single_to_double(bits);
        if single.is_nan() {
            assert!(f64::from_bits(wide).is_nan());
        } else {
            assert_eq!(wide, (single as f64).to_bits());
        }
    }
}
