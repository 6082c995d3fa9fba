use alass::formats::ssa::SsaFile;
use alass::formats::SubtitleEntry;
use alass::timetypes::TimeDelta;

const SSA: &str = "[Script Info]\n\
                   ScriptType: v4.00+\n\
                   \n\
                   [Events]\n\
                   Format: Layer, Start, End, Style, Name, MarginL, MarginR, MarginV, Effect, Text\n\
                   Dialogue: 0,0:00:10.00,0:00:12.00,Default,,0,0,0,,Hello there\n\
                   Dialogue: 0,0:00:15.50,0:00:17.50,Default,,0,0,0,,Second\n";

fn to_string(file: &SsaFile) -> String {
    String::from_utf8(file.to_data().unwrap()).unwrap()
}

#[test]
fn ssa_parse_is_non_destructive() {
    let file = SsaFile::parse(SSA).unwrap();
    assert_eq!(to_string(&file), SSA);
}

#[test]
fn ssa_crlf_line_endings_are_preserved() {
    let crlf = SSA.replace('\n', "\r\n");
    let file = SsaFile::parse(&crlf).unwrap();
    assert_eq!(to_string(&file), crlf);
}

#[test]
fn a_missing_trailing_newline_is_not_invented() {
    let without = SSA.trim_end_matches('\n');
    let file = SsaFile::parse(without).unwrap();
    assert_eq!(to_string(&file), without);
}

#[test]
fn bom_is_preserved() {
    let with_bom = format!("\u{feff}{SSA}");
    let file = SsaFile::parse(&with_bom).unwrap();
    assert_eq!(to_string(&file), with_bom);
}

#[test]
fn entries_are_read_and_written() {
    let mut file = SsaFile::parse(SSA).unwrap();
    let entries = file.get_subtitle_entries().unwrap();
    assert_eq!(entries.len(), 2);
    assert_eq!(
        (entries[0].timespan.start.msecs(), entries[0].timespan.end.msecs()),
        (10_000, 12_000)
    );
    assert_eq!(entries[1].line.as_deref(), Some("Second"));

    let shifted: Vec<SubtitleEntry> = entries
        .iter()
        .map(|e| SubtitleEntry::from(e.timespan + TimeDelta::from_msecs(1234)))
        .collect();
    file.update_subtitle_entries(&shifted).unwrap();
    assert_eq!(
        to_string(&file),
        SSA.replace("0:00:10.00,0:00:12.00", "0:00:11.23,0:00:13.23")
            .replace("0:00:15.50,0:00:17.50", "0:00:16.73,0:00:18.73")
    );
}

#[test]
fn field_whitespace_is_preserved() {
    let padded = SSA.replace(",0:00:10.00,", " , 0:00:10.00 ,");
    let file = SsaFile::parse(&padded).unwrap();
    assert_eq!(to_string(&file), padded);
}

#[test]
fn a_colon_is_accepted_before_the_hundredths() {
    let file = SsaFile::parse(&SSA.replace("0:00:10.00", "0:00:10:00")).unwrap();
    assert_eq!(file.get_subtitle_entries().unwrap()[0].timespan.start.msecs(), 10_000);
}

#[test]
fn ssa_broken_files_are_rejected() {
    // no `Format:` line inside `[Events]`
    assert!(SsaFile::parse("[Script Info]\nFormat: Start, End, Text\n").is_err());
    // `Text` is not last
    assert!(SsaFile::parse("[Events]\nFormat: Start, Text, End\n").is_err());
    // missing `Start`
    assert!(SsaFile::parse("[Events]\nFormat: Layer, End, Text\n").is_err());
    // a duplicated field
    assert!(SsaFile::parse("[Events]\nFormat: Start, Start, End, Text\n").is_err());
}

#[test]
fn a_broken_timepoint_names_itself() {
    let error = SsaFile::parse(&SSA.replace("0:00:10.00", "10 seconds")).unwrap_err();
    let chain = error.chain_strings();
    assert!(
        chain
            .iter()
            .any(|m| m == "the timepoint `10 seconds` in line 5 has wrong format"),
        "{chain:?}"
    );
}

#[test]
fn an_indented_format_line_is_accepted() {
    let indented = SSA.replace("Format: Layer", "  Format: Layer");
    let file = SsaFile::parse(&indented).unwrap();
    assert_eq!(file.get_subtitle_entries().unwrap().len(), 2);
    assert_eq!(to_string(&file), indented);
}

#[test]
fn the_text_field_keeps_its_commas() {
    let input = SSA.replace("Hello there", "a,b,c,d,e");
    let file = SsaFile::parse(&input).unwrap();
    assert_eq!(
        file.get_subtitle_entries().unwrap()[0].line.as_deref(),
        Some("a,b,c,d,e")
    );
    assert_eq!(to_string(&file), input);
}

#[test]
fn the_format_line_may_put_the_columns_in_any_order() {
    let input = "[Events]\n\
                 Format: Start, End, Layer, Style, Name, MarginL, MarginR, MarginV, Effect, Text\n\
                 Dialogue: 0:00:10.00,0:00:12.00,0,Default,,0,0,0,,Hello\n";
    let file = SsaFile::parse(input).unwrap();
    let entries = file.get_subtitle_entries().unwrap();
    assert_eq!(
        (entries[0].timespan.start.msecs(), entries[0].timespan.end.msecs()),
        (10_000, 12_000)
    );
    assert_eq!(entries[0].line.as_deref(), Some("Hello"));
    assert_eq!(to_string(&file), input);

    // three columns is enough
    let minimal = "[Events]\nFormat: Start, End, Text\nDialogue: 0:00:10.00,0:00:12.00,Hello\n";
    assert_eq!(
        SsaFile::parse(minimal).unwrap().get_subtitle_entries().unwrap().len(),
        1
    );
}

#[test]
fn a_dialogue_line_with_too_few_fields_is_rejected() {
    assert!(SsaFile::parse(&SSA.replace(",Default,,0,0,0,,Hello there", "")).is_err());
}

#[test]
fn updating_with_the_wrong_entry_count_is_refused() {
    let mut file = SsaFile::parse(SSA).unwrap();
    assert!(file.update_subtitle_entries(&[]).is_err());
    assert_eq!(to_string(&file), SSA);
}

#[test]
fn reading_back_an_update_gives_the_new_spans() {
    let mut file = SsaFile::parse(SSA).unwrap();
    let shifted: Vec<SubtitleEntry> = file
        .get_subtitle_entries()
        .unwrap()
        .iter()
        .map(|e| SubtitleEntry::from(e.timespan + TimeDelta::from_msecs(2000)))
        .collect();
    file.update_subtitle_entries(&shifted).unwrap();
    let back = file.get_subtitle_entries().unwrap();
    assert_eq!(back[0].timespan.start.msecs(), 12_000);
    assert_eq!(back[1].timespan.end.msecs(), 19_500);
    assert_eq!(back[0].line.as_deref(), Some("Hello there"));
}

#[test]
fn a_time_not_written_the_writers_way_is_rewritten() {
    let input = SSA.replace("0:00:10.00", "0:00:10:00");
    let file = SsaFile::parse(&input).unwrap();
    assert_eq!(to_string(&file), SSA);
}
