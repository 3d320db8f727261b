use step_merger::writer::write_step_at;
use step_merger::{Error, StepData, StepEntry};

const STAMP: &str = "2024-01-01T00:00:00+00:00";

fn file_with(lines: &str) -> String {
    format!("ISO-10303-21;\nHEADER;\nENDSEC;\nDATA;\n{}ENDSEC;\nEND-ISO-10303-21;\n", lines)
}

fn read(text: &str) -> Vec<StepEntry> {
    StepData::from_str(text).unwrap().get_entries().to_vec()
}

fn written_and_read(entries: &[StepEntry], filename: &str) -> Result<Vec<StepEntry>, Error> {
    let mut data = StepData::new();
    for entry in entries {
        data.add_entry(entry.clone());
    }
    StepData::from_str(&write_step_at(&data, filename, STAMP)).map(|d| d.get_entries().to_vec())
}

#[test]
fn entries_that_were_read_are_read_again_as_they_were_written() {
    let lines = [
        "#1 = A ( 'x;y' ,\t#2 ,\n  # 3 ) ;\n",
        "/* a comment */ #2=B(/* inside */'# 5',#1)/**/;\n",
        "#3=C=D('','/*',#0012,#0,# 7x,#8#9);\n",
        "#4=E( #0012 , # 7 ,#0, #8#9);\n",
        "#18446744073709551614= ;\n",
    ];
    let first = read(&file_with(&lines.join("")));
    assert_eq!(
        first,
        vec![
            StepEntry::new(1, " A ( 'x;y' , #2 , #3 ) "),
            StepEntry::new(2, "B( '# 5',#1) "),
            StepEntry::new(3, "C=D('','/*',#0012,#0,# 7x,#8#9)"),
            StepEntry::new(4, "E( #12 , #7 ,#0, #8#9)"),
            StepEntry::new(18446744073709551614, " "),
        ]
    );
    let second = written_and_read(&first, "a file.stp").unwrap();
    assert_eq!(second, first);
    let third = written_and_read(&second, "another/file.stp").unwrap();
    assert_eq!(third, first);
}

#[test]
fn empty_list_of_entries_is_read_again() {
    assert_eq!(written_and_read(&[], "empty.stp").unwrap(), vec![]);
}

#[test]
fn entries_that_were_made_by_hand_are_read_again() {
    let entries = vec![
        StepEntry::new(7, "PRODUCT('A','A','',(#8))"),
        StepEntry::new(8, "#"),
        StepEntry::new(9, "# x"),
        StepEntry::new(10, ""),
    ];
    assert_eq!(written_and_read(&entries, "parts.stp").unwrap(), entries);
}

#[test]
fn lone_hash_before_a_comment_and_a_digit_settles_on_the_second_pass() {
    let first = read(&file_with("#1= #/**/5;\n#2=A(#/**/7);\n"));
    assert_eq!(first, vec![StepEntry::new(1, " # 5"), StepEntry::new(2, "A(# 7)")]);
    let second = written_and_read(&first, "a.stp").unwrap();
    assert_eq!(second, vec![StepEntry::new(1, " #5"), StepEntry::new(2, "A(# 7)")]);
    let third = written_and_read(&second, "a.stp").unwrap();
    assert_eq!(third, second);
}

#[test]
fn file_name_with_a_quote_breaks_the_header() {
    let entries = vec![StepEntry::new(1, "A()")];
    assert_eq!(written_and_read(&entries, "a'b.stp"), Err(Error::ParsingTokenError()));
}

#[test]
fn entry_with_the_id_zero_is_not_read_again() {
    let entries = vec![StepEntry::new(0, "A()")];
    assert!(written_and_read(&entries, "a.stp").is_err());
}
