use step_merger::{write_step, StepData, StepEntry, StepWriter};

fn sample() -> &'static str {
    "ISO-10303-21;
HEADER;
FILE_DESCRIPTION(
/* description */ ('A minimal structure'),
/* implementation_level */ '2;1');
ENDSEC;
DATA;
#10=ORGANIZATION('O0001','LKSoft','company');
#11 = PRODUCT_DEFINITION_CONTEXT( 'part definition', #12,
    'manufacturing' ) ;
#12=APPLICATION_CONTEXT('mechanical design') /* the context */;
#13=PRODUCT('A;1','Test ''Part'' 1','',(#18));
ENDSEC;
END-ISO-10303-21;
"
}

#[test]
fn test_writing_simple() {
    let data = sample();
    let step = StepData::from_str(data).unwrap();
    assert_eq!(step.get_entries().len(), 4);

    let serialized_data = write_step(&step, "minimal-structure.stp").unwrap();

    let step2 = StepData::from_str(&serialized_data).unwrap();
    assert_eq!(step.get_entries().len(), step2.get_entries().len());

    for (entry1, entry2) in step.get_entries().iter().zip(step2.get_entries().iter()) {
        assert_eq!(entry1.get_id(), entry2.get_id());
        assert_eq!(entry1.get_definition(), entry2.get_definition());
    }
}

#[test]
fn writing_and_reading_again_changes_nothing_more() {
    let first = StepData::from_str(sample()).unwrap();
    let text1 = step_merger::writer::write_step_at(&first, "a.stp", "2024-01-01T00:00:00+00:00");
    let second = StepData::from_str(&text1).unwrap();
    let text2 = step_merger::writer::write_step_at(&second, "a.stp", "2024-01-01T00:00:00+00:00");
    assert_eq!(text1, text2);
    assert_eq!(first.get_entries(), second.get_entries());
    assert_eq!(first.get_id_range(), second.get_id_range());
}

#[test]
fn writer_writes_header_entries_and_closing_lines() {
    let protocol = vec!["AP203".to_string(), "AP214".to_string(), "AP242".to_string()];
    let mut writer = StepWriter::with_timestamp("2;1", "out.stp", "2024-02-09T12:37:21+01:00", &protocol);
    let header = "ISO-10303-21;\n\nHEADER;\n\nFILE_DESCRIPTION((''), '2;1');\nFILE_NAME('out.stp', '2024-02-09T12:37:21+01:00', (''), (''), 'step-merger', '', '');\nFILE_SCHEMA(('AP203'),('AP214'),('AP242'));\n\nENDSEC;\n\nDATA;\n";
    assert_eq!(writer.get_output(), header);
    assert!(!writer.is_finalized());
    writer.write_entry(&StepEntry::new(1, "IFCFOO('FOO', #2)")).unwrap();
    writer.write_entry(&StepEntry::new(18446744073709551615, "")).unwrap();
    assert_eq!(
        writer.get_output(),
        format!("{}#1=IFCFOO('FOO', #2);\n#18446744073709551615=;\n", header)
    );
    writer.finalize().unwrap();
    assert!(writer.is_finalized());
    let closed = format!(
        "{}#1=IFCFOO('FOO', #2);\n#18446744073709551615=;\nENDSEC;\n\nEND-ISO-10303-21;\n",
        header
    );
    assert_eq!(writer.get_output(), closed);
    writer.finalize().unwrap();
    assert_eq!(writer.get_output(), closed);
    assert_eq!(writer.into_output(), closed);
}

#[test]
fn writer_without_protocol_and_with_one() {
    let writer = StepWriter::with_timestamp("1", "", "t", &[]);
    assert!(writer.get_output().contains("FILE_SCHEMA((''));\n"));
    let writer = StepWriter::with_timestamp("1", "", "t", &["ONE".to_string()]);
    assert!(writer.get_output().contains("FILE_SCHEMA(('ONE'));\n"));
    assert!(writer.get_output().contains("FILE_DESCRIPTION((''), '1');\n"));
}

#[test]
fn into_output_closes_an_open_writer() {
    let mut writer = StepWriter::new("2;1", "x.stp", &["P".to_string()]).unwrap();
    writer.write_entry(&StepEntry::new(5, "A")).unwrap();
    let text = writer.into_output();
    assert!(text.starts_with("ISO-10303-21;\n\nHEADER;\n\nFILE_DESCRIPTION((''), '2;1');\nFILE_NAME('x.stp', '"));
    assert!(text.ends_with("DATA;\n#5=A;\nENDSEC;\n\nEND-ISO-10303-21;\n"));
}

#[test]
fn write_step_writes_every_entry_on_its_line() {
    let mut data = StepData::new();
    data.add_entry(StepEntry::new(3, "C(#4)"));
    data.add_entry(StepEntry::new(4, "D('x')"));
    let text = write_step(&data, "file.stp").unwrap();
    let body = &text[text.find("DATA;\n").unwrap()..];
    assert_eq!(body, "DATA;\n#3=C(#4);\n#4=D('x');\nENDSEC;\n\nEND-ISO-10303-21;\n");
    assert!(text.contains("FILE_NAME('file.stp', '"));
    assert!(text.contains("FILE_SCHEMA(('AP203_CONFIGURATION_CONTROLLED_3D_DESIGN_OF_MECHANICAL_PARTS_AND_ASSEMBLIES_MIM_LF { 1 0 10303 403 1 1 4 }'));\n"));
}
