use char_editor::helpers::{extract_query, extract_replacment, format_file_size};

fn float_size(bytes: usize) -> String {
    let kb: usize = 1024;
    let mb: usize = 1024 * kb;
    let gb: usize = 1024 * mb;
    if bytes >= gb {
        format!("{:.1} GB", bytes as f64 / gb as f64)
    } else if bytes >= mb {
        format!("{:.1} MB", bytes as f64 / mb as f64)
    } else if bytes >= kb {
        format!("{:.1} KB", bytes as f64 / kb as f64)
    } else {
        format!("{} B", bytes)
    }
}

#[test]
fn file_size_in_bytes() {
    assert_eq!(format_file_size(0), "0 B");
    assert_eq!(format_file_size(1), "1 B");
    assert_eq!(format_file_size(1023), "1023 B");
}

#[test]
fn file_size_in_kilobytes() {
    assert_eq!(format_file_size(1024), "1.0 KB");
    assert_eq!(format_file_size(1536), "1.5 KB");
    assert_eq!(format_file_size(10 * 1024), "10.0 KB");
    assert_eq!(format_file_size(1024 * 1024 - 1), "1024.0 KB");
}

#[test]
fn file_size_ties_round_to_even() {
    // 1280 bytes are exactly 1.25 KB, which prints as 1.2
    assert_eq!(format_file_size(1280), "1.2 KB");
    // 1.75 KB prints as 1.8
    assert_eq!(format_file_size(1792), "1.8 KB");
}

#[test]
fn file_size_in_larger_units() {
    assert_eq!(format_file_size(1024 * 1024), "1.0 MB");
    assert_eq!(format_file_size(5 * 1024 * 1024 + 512 * 1024), "5.5 MB");
    assert_eq!(format_file_size(1024 * 1024 * 1024), "1.0 GB");
    assert_eq!(format_file_size(3 * 1024 * 1024 * 1024 / 2), "1.5 GB");
}

#[test]
fn file_size_agrees_with_float_formatting() {
    let mut b: usize = 0;
    while b < 200_000 {
        assert_eq!(format_file_size(b), float_size(b), "bytes = {}", b);
        b += 7;
    }
    let mut b: usize = 1024 * 1024 - 5000;
    while b < 1024 * 1024 * 3 {
        assert_eq!(format_file_size(b), float_size(b), "bytes = {}", b);
        b += 997;
    }
    let samples: [usize; 8] = [
        1024 * 1024 * 1024 - 1,
        1024 * 1024 * 1024 + 1,
        123_456_789_012,
        usize::MAX,
        usize::MAX / 3,
        1u64.wrapping_shl(53) as usize + 1,
        999_999_999_999_999,
        (1usize << 40) + 52_428_800,
    ];
    for s in samples {
        assert_eq!(format_file_size(s), float_size(s), "bytes = {}", s);
    }
}

#[test]
fn query_between_first_two_slashes() {
    assert_eq!(extract_query("%s/foo/bar/"), "foo");
    assert_eq!(extract_query("s/abc"), "abc");
    assert_eq!(extract_query("no slash"), "");
    assert_eq!(extract_query("//x"), "");
    assert_eq!(extract_query(""), "");
}

#[test]
fn replacement_between_second_and_third_slash() {
    assert_eq!(extract_replacment("%s/foo/bar/"), "bar");
    assert_eq!(extract_replacment("%s/foo/bar"), "bar");
    assert_eq!(extract_replacment("%s/foo/bar/baz"), "bar");
    assert_eq!(extract_replacment("%s/foo"), "");
    assert_eq!(extract_replacment("a/b/c/d/e"), "c");
    assert_eq!(extract_replacment(""), "");
}

#[test]
fn substitute_command_splits_into_its_parts() {
    let cmd = format!("%s/{}/{}/", "needle", "thread");
    assert_eq!(extract_query(&cmd), "needle");
    assert_eq!(extract_replacment(&cmd), "thread");
}

#[test]
fn multibyte_chars_survive_extraction() {
    assert_eq!(extract_query("%s/é✓/ü/"), "é✓");
    assert_eq!(extract_replacment("%s/é✓/ü/"), "ü");
}
