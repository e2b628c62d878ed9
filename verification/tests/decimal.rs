use fpvflow_core::ieee::decimal::parse_single;

fn chars(t: &str) -> Vec<char> {
    t.chars().collect()
}

/// The value that the standard library reads, as bits.
fn native(t: &str) -> Option<u32> {
    t.parse::<f32>().ok().map(|v| v.to_bits())
}

fn check(t: &str) {
    assert_eq!(parse_single(&chars(t)).map(|v| v.bits), native(t), "{t}");
}

#[test]
fn plain_numbers_agree_with_the_standard_library() {
    for t in [
        "0", "-0", "+0", "1", "-1", "0.5", ".5", "5.", "1e3", "1E3", "1e+3", "1e-3", "-2.5e-2", "007", "0.1", "0.2",
        "0.3", "3.14159265358979", "16777217", "16777219", "123456789", "9007199254740993", "1e10", "1e20", "1e30",
        "1e38", "3.4028234e38", "3.4028235e38", "3.4028236e38", "1e39", "1e-37", "1e-38", "1e-44", "1e-45", "7e-46",
        "7.1e-46", "1e-46", "1.17549435e-38", "1.17549421e-38", "0.00000000000000000000000000000001", "1e0",
        "18446744073709551615", "18446744073709551616", "99999999999999999999",
    ] {
        check(t);
    }
}

#[test]
fn what_is_no_number_is_refused() {
    for t in [
        "", "+", "-", ".", "e", "e5", ".e5", "1e", "1e+", "1e-", "1.2.3", "1 ", " 1", "1_0", "0x10", "1f", "--1", "+-1",
        "1e5.0", "oops", "infi", "infinit", "na", "nano", "१", "1,5",
    ] {
        check(t);
        assert!(parse_single(&chars(t)).is_none(), "{t}");
    }
}

#[test]
fn words_agree_with_the_standard_library() {
    for t in ["inf", "-inf", "+inf", "INF", "infinity", "-Infinity", "iNfInItY", "nan", "-nan", "NaN", "+NAN"] {
        check(t);
        assert!(parse_single(&chars(t)).is_some());
    }
}

#[test]
fn exact_ties_and_long_numerals_agree_with_the_standard_library() {
    for t in [
        // Halfway between two neighbours, and just off it by a far digit.
        "1.000000059604644775390625",
        "1.0000000596046447753906250000000000000000000000000001",
        "1.0000000596046447753906249999999999999999999999999999",
        "1.00000017881393432617187500",
        "1.000000178813934326171875000000000000000000000000000000000001",
        "16777217.0000000000000000000000000000000000000000000000000001",
        "340282356779733661637539395458142568447.9999999",
        "340282356779733661637539395458142568448",
        "340282346638528859811704183484516925440",
        // Halfway below the smallest value.
        "7.00649232162408535461864791644958065640130970938257885878534141944895541342930300743319094181060791015625e-46",
        "7.006492321624085354618647916449580656401309709382578858785341419448955413429303007433190941810607910156250001e-46",
        "0.0000000000000000000000000000000000000000000007006492321624085354618647916449580656401309709382578858785341",
        "123456789012345678901234567890",
        "0.000000000000000000000000000000000000000000000000000000000000000000001e70",
        "100000000000000000000000000000000000000000000000000000000000000000000e-68",
    ] {
        check(t);
    }
}

#[test]
fn far_exponents_agree_with_the_standard_library() {
    for t in [
        "1e99999999999999999999999999999999999999",
        "-1e99999999999999999999999999999999999999",
        "1e-99999999999999999999999999999999999999",
        "0e99999999999999999999999999999999999999",
        "0.0e-99999999999999999999999999999999999999",
        "1e1000000000000000000000000000001",
        "1e-1000000000000000000000000000001",
        "1e41", "1e-51", "1e-50", "1e40", "99e38", "0.1e40",
    ] {
        check(t);
    }
}

#[test]
fn arbitrary_numerals_agree_with_the_standard_library() {
    let mut state = 88172645463325252u64;
    let mut next = || {
        state ^= state << 13;
        state ^= state >> 7;
        state ^= state << 17;
        state
    };
    for _ in 0..20_000 {
        let a = next();
        let b = next() % 1_000_000_000;
        let e = (next() % 100) as i64 - 55;
        check(&format!("{}.{}", a % 100_000, b));
        check(&format!("{}.{}e{}", a % 1000, b, e));
        check(&format!("-{}e{}", a, e));
        check(&format!("{}", f32::from_bits(a as u32)));
        check(&format!("{:e}", f32::from_bits(a as u32)));
    }
}
