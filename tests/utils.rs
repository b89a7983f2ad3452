use go_size_analyzer::utils::pretty_print_size;

#[test]
fn sizes_in_bytes() {
    assert_eq!(pretty_print_size(0), "0.00B");
    assert_eq!(pretty_print_size(1023), "1023.00B");
}

#[test]
fn sizes_in_larger_units() {
    assert_eq!(pretty_print_size(1024), "1.00KB");
    assert_eq!(pretty_print_size(1536), "1.50KB");
    assert_eq!(pretty_print_size(1152), "1.12KB");
    assert_eq!(pretty_print_size(1048576), "1.00MB");
    assert_eq!(pretty_print_size(5 * 1024 * 1024 * 1024), "5.00GB");
    assert_eq!(pretty_print_size(3 * 1024 * 1024 * 1024 * 1024), "3072.00GB");
}

#[test]
fn sizes_agree_with_float_formatting() {
    for size in [1025u64, 1100, 1152, 2047, 123456, 9876543, 1 << 33] {
        let mut v = size as f64;
        let mut unit = "B";
        for u in ["KB", "MB", "GB"] {
            if v >= 1024.0 {
                v /= 1024.0;
                unit = u;
            }
        }
        assert_eq!(pretty_print_size(size), format!("{:.2}{}", v, unit));
    }
}
