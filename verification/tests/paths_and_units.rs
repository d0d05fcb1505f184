use fms::paths::{base_name_of, normalize_path, parent_of};
use fms::units::{format_size, u64_to_string};

#[test]
fn normalize_strips_one_trailing_separator() {
    assert_eq!(normalize_path("/home/a/"), "/home/a");
    assert_eq!(normalize_path("/home/a"), "/home/a");
}

#[test]
fn normalize_keeps_root() {
    assert_eq!(normalize_path("/"), "/");
}

#[test]
fn normalize_is_idempotent_on_examples() {
    for p in ["/home/a/", "/a//", "//", "/x/y/z///"] {
        let once = normalize_path(p);
        let twice = normalize_path(&once);
        assert_eq!(once, twice);
    }
}

#[test]
fn parent_of_examples() {
    assert_eq!(parent_of("/home/a"), Some("/home".to_string()));
    assert_eq!(parent_of("/home"), Some("/".to_string()));
    assert_eq!(parent_of("/"), None);
    assert_eq!(parent_of("name-without-separator"), None);
}

#[test]
fn base_name_examples() {
    assert_eq!(base_name_of("/home/a/readme.txt"), "readme.txt");
    assert_eq!(base_name_of("/home"), "home");
    assert_eq!(base_name_of("/"), "");
    assert_eq!(base_name_of("plain"), "plain");
}

#[test]
fn u64_to_string_examples() {
    assert_eq!(u64_to_string(0), "0");
    assert_eq!(u64_to_string(7), "7");
    assert_eq!(u64_to_string(1234567), "1234567");
    assert_eq!(u64_to_string(u64::MAX), "18446744073709551615");
}

#[test]
fn format_size_plain_bytes() {
    assert_eq!(format_size(0), "0 B");
    assert_eq!(format_size(512), "512 B");
    assert_eq!(format_size(1023), "1023 B");
}

#[test]
fn format_size_units() {
    assert_eq!(format_size(1024), "1.0 KB");
    assert_eq!(format_size(1536), "1.5 KB");
    assert_eq!(format_size(1048576), "1.0 MB");
    assert_eq!(format_size(1073741824), "1.0 GB");
    assert_eq!(format_size(1099511627776), "1.0 TB");
}

#[test]
fn format_size_rounds_and_carries() {
    // 1048575 / 1024 = 1023.999..., which rounds up into a carry.
    assert_eq!(format_size(1048575), "1024.0 KB");
    // 1.25 KB rounds half away from zero.
    assert_eq!(format_size(1280), "1.3 KB");
}
