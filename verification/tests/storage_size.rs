//! Sizes as users write them.

use llmfit::storage_size::parse_storage_size;

fn close(actual: f64, expected: f64) {
    assert!((actual - expected).abs() < 1e-9, "{actual} != {expected}");
}

fn size(input: &str) -> Result<f64, String> {
    parse_storage_size(input).map(|gb| f64::from_bits(gb.to_bits()))
}

#[test]
fn storage_sizes_distinguish_decimal_and_binary_units() {
    for (input, expected) in [
        ("100", 100.0),
        (" 100gB ", 100.0),
        ("1000M", 1.0),
        ("1.5T", 1500.0),
        ("1TB", 1000.0),
        ("1TiB", 1099.511627776),
        ("1GiB", 1.073741824),
        ("1MiB", 0.001048576),
        ("0G", 0.0),
    ] {
        close(size(input).expect("size"), expected);
    }
    for input in [
        "",
        " ",
        "-1G",
        "NaN",
        "inf",
        "1e3G",
        "1.2.3GB",
        "G",
        "1XB",
        "1GB extra",
        "١G",
    ] {
        assert!(parse_storage_size(input).is_err(), "{input}");
    }
    assert!(parse_storage_size(&format!("{}TB", "9".repeat(308))).is_err());
}

#[test]
fn numbers_are_read_as_the_machine_reads_them() {
    for text in [
        "0", "00", "1", "0.1", ".5", "5.", "3.14159265358979323846", "9007199254740993",
        "9007199254740992.5", "123456789012345678901234567890", "0.000000000000000000001",
        "1797693134862315708145274237317043567980705675258449965989174768031572607800285387605895586327668781715404589535143824642343213268894641827684675467035375169860499105765512820762454900903893289440758685084551339423045832369032229481658085593321233477747926041447387",
    ] {
        let expected: f64 = text.parse().expect("number");
        assert_eq!(
            size(text).expect("size").to_bits(),
            expected.to_bits(),
            "{text}"
        );
        let scaled = expected * 0.001;
        assert_eq!(size(&format!("{text}mb")).expect("size").to_bits(), scaled.to_bits());
        let scaled = expected * (1_073_741_824.0 / 1_000_000_000.0);
        assert_eq!(size(&format!("{text} GiB")).expect("size").to_bits(), scaled.to_bits());
    }
}

#[test]
fn white_space_and_case_do_not_matter() {
    for (a, b) in [("2TB", "\t2tb\u{3000}"), ("7 mib", "7MIB"), ("8", " 8g")] {
        assert_eq!(size(a).expect("size").to_bits(), size(b).expect("size").to_bits());
    }
}

#[test]
fn white_space_before_the_unit_does_not_matter() {
    for number in ["1", "1.5", ".25", "007", "1.2.3", "."] {
        for unit in ["", "G", "gb", "TiB", "XB", "e3G", "GB extra"] {
            let plain = size(&format!("{number}{unit}")).ok();
            for between in [" ", "\t", " \u{3000}\n"] {
                assert_eq!(size(&format!("{number}{between}{unit}")).ok(), plain);
            }
        }
    }
    assert_eq!(size("1.5 T"), Ok(1500.0));
}

#[test]
fn points_alone_and_infinite_sizes_are_refused() {
    for input in [".", "..", ".GB", "1..2", "+1G"] {
        assert!(parse_storage_size(input).is_err(), "{input}");
    }
    assert!(size(&"9".repeat(308)).expect("a finite size").is_finite());
    assert!(parse_storage_size(&"9".repeat(400)).is_err());
}

#[test]
fn refusals_quote_the_input() {
    assert_eq!(
        parse_storage_size(" 1XB ").expect_err("no unit"),
        "Invalid storage size ' 1XB ': use a non-negative size such as 100GB, 1TB, or 1TiB"
    );
}
