use textutil::counts::{count, format_field, FileInfo};

#[test]
fn test_count() {
    let text: &str = "I don't want the world. I just want your half.\r\n";
    let info = count(text);

    let expected = FileInfo {
        num_lines: 1,
        num_words: 10,
        num_bytes: 48,
        num_chars: 48,
    };
    assert_eq!(info, expected);
}

#[test]
fn test_format_filed() {
    assert_eq!(format_field(1, false), "");
    assert_eq!(format_field(3, true), "       3");
    assert_eq!(format_field(10, true), "      10");
}

#[test]
fn count_edge_cases() {
    let empty = count("");
    assert_eq!(
        empty,
        FileInfo { num_lines: 0, num_words: 0, num_bytes: 0, num_chars: 0 }
    );

    // A final line without a newline still counts
    let info = count("one two\nthree ");
    assert_eq!(
        info,
        FileInfo { num_lines: 2, num_words: 3, num_bytes: 14, num_chars: 14 }
    );

    // Characters and bytes diverge outside ASCII
    let info = count("caf\u{e9}\n");
    assert_eq!(
        info,
        FileInfo { num_lines: 1, num_words: 1, num_bytes: 6, num_chars: 5 }
    );

    // Blank lines count as lines, not words
    let info = count("\n\n");
    assert_eq!(
        info,
        FileInfo { num_lines: 2, num_words: 0, num_bytes: 2, num_chars: 2 }
    );
}

#[test]
fn format_field_wide_values() {
    // Eight columns exactly, and wider values keep all their digits
    assert_eq!(format_field(12345678, true), "12345678");
    assert_eq!(format_field(123456789, true), "123456789");
    assert_eq!(format_field(0, true), "       0");
}
