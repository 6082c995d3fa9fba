use alass::formats::common::{
    get_lines_non_destructive, idx_line, idx_timestamp, mdvd_line, skip_ws, split_bom, srt_timespan,
    ssa_dialogue, ssa_timepoint, take_number, trim_non_destructive,
};

#[test]
fn test_split_bom() {
    assert_eq!(split_bom("\u{feff}abc"), ("\u{feff}", "abc"));
    assert_eq!(split_bom("\u{feff}"), ("\u{feff}", ""));
    assert_eq!(split_bom("bla"), ("", "bla"));
    assert_eq!(split_bom(""), ("", ""));
    // the UTF-8 BOM is three bytes long
    assert_eq!(split_bom("\u{feff}abc").0.len(), 3);
}

#[test]
fn test_trim_non_destructive() {
    assert_eq!(trim_non_destructive("  hello \t"), ("  ", "hello", " \t"));
    assert_eq!(trim_non_destructive(""), ("", "", ""));
    assert_eq!(trim_non_destructive("   "), ("   ", "", ""));
    assert_eq!(trim_non_destructive("a"), ("", "a", ""));
    // '\r' is not whitespace here
    assert_eq!(trim_non_destructive(" a\r"), (" ", "a\r", ""));

    for input in ["", " ", "a", "  a b  ", "\t\ta\t"] {
        let (b, m, e) = trim_non_destructive(input);
        assert_eq!(format!("{b}{m}{e}"), input);
    }
}

#[test]
fn test_take_number() {
    assert_eq!(take_number("123abc"), Some((123, "abc")));
    assert_eq!(take_number("-7"), Some((-7, "")));
    assert_eq!(take_number("-"), None);
    assert_eq!(take_number("abc"), None);
    assert_eq!(take_number(""), None);
    // does not panic on a number that cannot fit into an i64
    assert_eq!(take_number("99999999999999999999"), None);
}

#[test]
fn test_srt_timespan() {
    assert_eq!(srt_timespan("00:24:45,670 --> 00:24:45,680"), Some((1_485_670, 1_485_680)));
    assert_eq!(srt_timespan("\t0:0:0,0-->0:0:1,0  "), Some((0, 1000)));
    assert_eq!(srt_timespan("00:00:01,000 --> 00:00:02,000 x"), None);
    assert_eq!(srt_timespan("00:00:01.000 --> 00:00:02,000"), None);
    assert_eq!(srt_timespan(""), None);
    assert_eq!(srt_timespan("99999999999999999999:0:0,0 --> 0:0:0,0"), None);
}

#[test]
fn test_ssa_timepoint() {
    assert_eq!(ssa_timepoint("0:19:41.99"), Some(1_181_990));
    assert_eq!(ssa_timepoint("0:19:41:99"), Some(1_181_990));
    assert_eq!(ssa_timepoint("0:19:41,99"), None);
    assert_eq!(ssa_timepoint("0:19:41.99 "), None);
}

#[test]
fn test_idx_timestamp() {
    assert_eq!(idx_timestamp("00:41:36:961"), Some(2_496_961));
    assert_eq!(idx_timestamp("00:41:36.961"), None);
    assert_eq!(idx_timestamp("00:41:36:961x"), None);
}

#[test]
fn test_idx_line() {
    assert_eq!(
        idx_line("  timestamp: 00:00:10:000, filepos: 000000000"),
        Some(("  ", "timestamp:", " ", "00:00:10:000", ", filepos: 000000000"))
    );
    assert_eq!(idx_line("# a comment"), None);
    assert_eq!(idx_line("timestamp:"), Some(("", "timestamp:", "", "", "")));
}

#[test]
fn test_ssa_dialogue() {
    let (ws1, ws2, fields, text) = ssa_dialogue("Dialogue: 0,a,b,rest,of,it", 4).unwrap();
    assert_eq!((ws1, ws2), ("", " "));
    assert_eq!(fields, vec![("0", ','), ("a", ','), ("b", ',')]);
    assert_eq!(text, "rest,of,it");

    assert_eq!(ssa_dialogue("Comment: 0,a,b,c", 4).map(|_| ()), None);
    // too few commas
    assert_eq!(ssa_dialogue("Dialogue: 0,a", 4).map(|_| ()), None);
}

#[test]
fn test_mdvd_line() {
    let (start, end, lines) = mdvd_line("{0}{25}{y:i}Hello!|{s:15}Hello2!").unwrap();
    assert_eq!((start, end), (0, 25));
    assert_eq!(lines, vec![(vec!["y:i"], "Hello!"), (vec!["s:15"], "Hello2!")]);

    assert_eq!(mdvd_line("{0}{25}").unwrap().2, vec![(vec![], "")]);
    // an unclosed '{' invalidates the whole line
    assert!(mdvd_line("{0}{25}{unclosed").is_none());
    assert!(mdvd_line("no braces").is_none());
}

#[test]
fn get_lines_non_destructive_test0() {
    let lines = ["", "aaabb", "aaabb\r\nbcccc\n\r\n ", "aaabb\r\nbcccc", "a\rb"];
    for full_line in lines {
        let joined: String = get_lines_non_destructive(full_line)
            .into_iter()
            .flat_map(|(s1, s2)| [s1, s2])
            .collect();
        assert_eq!(full_line, joined);
    }

    assert_eq!(
        get_lines_non_destructive("a\r\nb\n"),
        vec![("a".to_string(), "\r\n".to_string()), ("b".to_string(), "\n".to_string())]
    );
}

#[test]
fn skip_ws_stops_at_the_first_other_character() {
    assert_eq!(skip_ws(" \t x "), "x ");
    assert_eq!(skip_ws("\r x"), "\r x");
    assert_eq!(skip_ws("   "), "");
}

#[test]
fn a_negative_number_is_read_with_its_sign() {
    assert_eq!(take_number("-9223372036854775807x"), Some((-9223372036854775807, "x")));
    assert_eq!(take_number("9223372036854775807"), Some((9223372036854775807, "")));
    assert_eq!(take_number("9223372036854775808"), None);
}

#[test]
fn timestamps_that_overflow_the_milliseconds_are_rejected() {
    // 2562047788016 hours is more than an i64 of milliseconds holds, one hour less is not
    assert_eq!(idx_timestamp("2562047788016:00:00:000"), None);
    assert_eq!(idx_timestamp("2562047788015:00:00:000"), Some(9_223_372_036_854_000_000));
    assert_eq!(ssa_timepoint("1:00:00.5"), Some(3_600_050));
}

#[test]
fn the_smallest_i64_is_a_number() {
    assert_eq!(take_number("-9223372036854775808x"), Some((i64::MIN, "x")));
    assert_eq!(take_number("9223372036854775808"), None);
    assert_eq!(take_number("-9223372036854775809"), None);
}
