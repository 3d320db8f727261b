use step_merger::{
    BufferedReader, CharReader, Error, ReadEvent, ReaderState, STEPParser, STEPReader, StepEntry,
    Token, Tokenizer,
};

/// The example file of the article on ISO 10303-21.
fn wiki() -> String {
    [
        "ISO-10303-21;\n",
        "HEADER;\n",
        "FILE_DESCRIPTION(\n",
        "/* description */ ('A minimal AP214 example with a single part'),\n",
        "/* implementation_level */ '2;1');\n",
        "FILE_NAME(\n",
        "/* name */ 'demo',\n",
        "/* time_stamp */ '2003-12-27T11:57:53',\n",
        "/* author */ ('Lothar Klein'),\n",
        "/* organization */ ('LKSoft'),\n",
        "/* preprocessor_version */ ' ',\n",
        "/* originating_system */ 'IDA-STEP',\n",
        "/* authorization */ ' ');\n",
        "FILE_SCHEMA (('AUTOMOTIVE_DESIGN { 1 0 10303 214 2 1 1}'));\n",
        "ENDSEC;\n",
        "DATA;\n",
        "#10=ORGANIZATION('O0001','LKSoft','company');\n",
        "#11=PRODUCT_DEFINITION_CONTEXT('part definition',#12,'manufacturing');\n",
        "#12=APPLICATION_CONTEXT('mechanical design');\n",
        "#13=APPLICATION_PROTOCOL_DEFINITION('','automotive_design',2003,#12);\n",
        "#14=PRODUCT_DEFINITION('0',$,#15,#11);\n",
        "#15=PRODUCT_DEFINITION_FORMATION('1',$,#16);\n",
        "#16=PRODUCT('A0001','Test Part 1','',(#18));\n",
        "#17=PRODUCT_RELATED_PRODUCT_CATEGORY('part',$,(#16));\n",
        "#18=PRODUCT_CONTEXT('',#12,'');\n",
        "#19=APPLIED_ORGANIZATION_ASSIGNMENT(#10,#20,(#16));\n",
        "#20=ORGANIZATION_ROLE('id owner');\n",
        "ENDSEC;\n",
        "END-ISO-10303-21;\n",
    ]
    .concat()
}

/// The example file with each run of whitespace as one line feed and each
/// comment as `/**/`.
fn wiki_normalized() -> String {
    [
        "ISO-10303-21;\n",
        "HEADER;\n",
        "FILE_DESCRIPTION(\n",
        "/**/\n",
        "('A minimal AP214 example with a single part'),\n",
        "/**/\n",
        "'2;1');\n",
        "FILE_NAME(\n",
        "/**/\n",
        "'demo',\n",
        "/**/\n",
        "'2003-12-27T11:57:53',\n",
        "/**/\n",
        "('Lothar Klein'),\n",
        "/**/\n",
        "('LKSoft'),\n",
        "/**/\n",
        "' ',\n",
        "/**/\n",
        "'IDA-STEP',\n",
        "/**/\n",
        "' ');\n",
        "FILE_SCHEMA\n",
        "(('AUTOMOTIVE_DESIGN { 1 0 10303 214 2 1 1}'));\n",
        "ENDSEC;\n",
        "DATA;\n",
        "#10=ORGANIZATION('O0001','LKSoft','company');\n",
        "#11=PRODUCT_DEFINITION_CONTEXT('part definition',#12,'manufacturing');\n",
        "#12=APPLICATION_CONTEXT('mechanical design');\n",
        "#13=APPLICATION_PROTOCOL_DEFINITION('','automotive_design',2003,#12);\n",
        "#14=PRODUCT_DEFINITION('0',$,#15,#11);\n",
        "#15=PRODUCT_DEFINITION_FORMATION('1',$,#16);\n",
        "#16=PRODUCT('A0001','Test Part 1','',(#18));\n",
        "#17=PRODUCT_RELATED_PRODUCT_CATEGORY('part',$,(#16));\n",
        "#18=PRODUCT_CONTEXT('',#12,'');\n",
        "#19=APPLIED_ORGANIZATION_ASSIGNMENT(#10,#20,(#16));\n",
        "#20=ORGANIZATION_ROLE('id owner');\n",
        "ENDSEC;\n",
        "END-ISO-10303-21;\n",
    ]
    .concat()
}

fn check_char_reading(text: &str, expected: &[char]) {
    let mut reader = CharReader::new(text);
    for c in expected {
        assert_eq!(reader.read().unwrap(), Some(*c));
    }
    assert_eq!(reader.read().unwrap(), None);
}

#[test]
fn char_parser_test_char_reading() {
    let mut reader = CharReader::new("Hello, World!");
    assert_eq!(reader.read().unwrap(), Some('H'));
    assert_eq!(reader.read().unwrap(), Some('e'));
    assert_eq!(reader.read().unwrap(), Some('l'));
    assert_eq!(reader.read().unwrap(), Some('l'));
    assert_eq!(reader.read().unwrap(), Some('o'));
    assert_eq!(reader.read().unwrap(), Some(','));
    assert_eq!(reader.read().unwrap(), Some(' '));
    assert_eq!(reader.read().unwrap(), Some('W'));
    assert_eq!(reader.read().unwrap(), Some('o'));
    assert_eq!(reader.read().unwrap(), Some('r'));
    assert_eq!(reader.read().unwrap(), Some('l'));
    assert_eq!(reader.read().unwrap(), Some('d'));
    assert_eq!(reader.read().unwrap(), Some('!'));
    assert_eq!(reader.read().unwrap(), None);
}

#[test]
fn char_parser_test_char_reading_newline() {
    let mut reader = CharReader::new("Hello,\n\nWorld!");
    assert_eq!(reader.read().unwrap(), Some('H'));
    assert_eq!(reader.read().unwrap(), Some('e'));
    assert_eq!(reader.read().unwrap(), Some('l'));
    assert_eq!(reader.read().unwrap(), Some('l'));
    assert_eq!(reader.read().unwrap(), Some('o'));
    assert_eq!(reader.read().unwrap(), Some(','));
    assert_eq!(reader.read().unwrap(), Some('\n'));
    assert_eq!(reader.read().unwrap(), Some('\n'));
    assert_eq!(reader.read().unwrap(), Some('W'));
    assert_eq!(reader.read().unwrap(), Some('o'));
    assert_eq!(reader.read().unwrap(), Some('r'));
    assert_eq!(reader.read().unwrap(), Some('l'));
    assert_eq!(reader.read().unwrap(), Some('d'));
    assert_eq!(reader.read().unwrap(), Some('!'));
    assert_eq!(reader.read().unwrap(), None);
}

#[test]
fn char_reader_test_char_reading() {
    let mut reader = CharReader::new("Hello, World!");
    assert_eq!(reader.read().unwrap(), Some('H'));
    assert_eq!(reader.read().unwrap(), Some('e'));
    assert_eq!(reader.read().unwrap(), Some('l'));
    assert_eq!(reader.read().unwrap(), Some('l'));
    assert_eq!(reader.read().unwrap(), Some('o'));
    assert_eq!(reader.read().unwrap(), Some(','));
    assert_eq!(reader.read().unwrap(), Some(' '));
    assert_eq!(reader.read().unwrap(), Some('W'));
    assert_eq!(reader.read().unwrap(), Some('o'));
    assert_eq!(reader.read().unwrap(), Some('r'));
    assert_eq!(reader.read().unwrap(), Some('l'));
    assert_eq!(reader.read().unwrap(), Some('d'));
    assert_eq!(reader.read().unwrap(), Some('!'));
    assert_eq!(reader.read().unwrap(), None);
}

#[test]
fn char_reader_test_char_reading_newline() {
    let mut reader = CharReader::new("Hello,\n\nWorld!");
    assert_eq!(reader.read().unwrap(), Some('H'));
    assert_eq!(reader.read().unwrap(), Some('e'));
    assert_eq!(reader.read().unwrap(), Some('l'));
    assert_eq!(reader.read().unwrap(), Some('l'));
    assert_eq!(reader.read().unwrap(), Some('o'));
    assert_eq!(reader.read().unwrap(), Some(','));
    assert_eq!(reader.read().unwrap(), Some('\n'));
    assert_eq!(reader.read().unwrap(), Some('\n'));
    assert_eq!(reader.read().unwrap(), Some('W'));
    assert_eq!(reader.read().unwrap(), Some('o'));
    assert_eq!(reader.read().unwrap(), Some('r'));
    assert_eq!(reader.read().unwrap(), Some('l'));
    assert_eq!(reader.read().unwrap(), Some('d'));
    assert_eq!(reader.read().unwrap(), Some('!'));
    assert_eq!(reader.read().unwrap(), None);
}

#[test]
fn char_reader_counts_the_bytes_behind_it() {
    check_char_reading("a\u{e4}\u{20ac}\u{1f600}z", &['a', '\u{e4}', '\u{20ac}', '\u{1f600}', 'z']);
    let mut reader = CharReader::new("a\u{e4}\u{20ac}\u{1f600}z");
    assert_eq!(reader.consumed_bytes(), 0);
    assert_eq!(reader.remaining(), 5);
    reader.read().unwrap();
    assert_eq!(reader.consumed_bytes(), 1);
    reader.read().unwrap();
    assert_eq!(reader.consumed_bytes(), 3);
    assert_eq!(reader.peek_at(0), Some('\u{20ac}'));
    assert_eq!(reader.peek_at(2), Some('z'));
    assert_eq!(reader.peek_at(3), None);
    reader.advance(2);
    assert_eq!(reader.consumed_bytes(), 10);
    assert_eq!(reader.position(), 4);
    assert_eq!(reader.text_ahead(0, 1), "z");
    reader.read().unwrap();
    assert_eq!(reader.consumed_bytes(), 11);
    assert_eq!(reader.remaining(), 0);
}

#[test]
fn char_reader_reads_numbers_ahead() {
    let reader = CharReader::new("x0042;18446744073709551615,18446744073709551616");
    assert_eq!(reader.number_ahead(1, 5), Some(42));
    assert_eq!(reader.number_ahead(1, 1), Some(0));
    assert_eq!(reader.number_ahead(6, 26), Some(u64::MAX));
    assert_eq!(reader.number_ahead(27, 47), None);
}

#[test]
fn test_init_parser() {
    STEPParser::new("ISO-10303-21; DATA;".as_bytes()).unwrap();

    STEPParser::new("ISO-10303-21 ; DATA ;".as_bytes()).unwrap();

    assert!(STEPParser::new("ISO-10304-21 ; DATA;".as_bytes()).is_err());

    assert!(STEPParser::new("ISO-10303-21 ; ".as_bytes()).is_err());
}

#[test]
fn test_read_next_entry1() {
    let mut parser = STEPParser::new("ISO-10303-21; DATA; #1=; ENDSEC;".as_bytes()).unwrap();

    let entry = parser.next().unwrap().unwrap();
    assert_eq!(entry.get_id(), 1);
    assert_eq!(entry.get_definition(), "");

    assert!(parser.next().is_none());
}

fn check_wiki_entries(entries: &[StepEntry]) {
    assert_eq!(entries.len(), 11);

    assert!(entries
        .iter()
        .enumerate()
        .all(|(i, entry)| entry.get_id() == i as u64 + 10));

    assert_eq!(
        entries[0].get_definition(),
        "ORGANIZATION('O0001','LKSoft','company')"
    );
    assert_eq!(
        entries[1].get_definition(),
        "PRODUCT_DEFINITION_CONTEXT('part definition',#12,'manufacturing')"
    );
    assert_eq!(
        entries[2].get_definition(),
        "APPLICATION_CONTEXT('mechanical design')"
    );
    assert_eq!(
        entries[3].get_definition(),
        "APPLICATION_PROTOCOL_DEFINITION('','automotive_design',2003,#12)"
    );
    assert_eq!(
        entries[4].get_definition(),
        "PRODUCT_DEFINITION('0',$,#15,#11)"
    );
    assert_eq!(
        entries[5].get_definition(),
        "PRODUCT_DEFINITION_FORMATION('1',$,#16)"
    );
    assert_eq!(
        entries[6].get_definition(),
        "PRODUCT('A0001','Test Part 1','',(#18))"
    );
    assert_eq!(
        entries[7].get_definition(),
        "PRODUCT_RELATED_PRODUCT_CATEGORY('part',$,(#16))"
    );
    assert_eq!(entries[8].get_definition(), "PRODUCT_CONTEXT('',#12,'')");
    assert_eq!(
        entries[9].get_definition(),
        "APPLIED_ORGANIZATION_ASSIGNMENT(#10,#20,(#16))"
    );
    assert_eq!(
        entries[10].get_definition(),
        "ORGANIZATION_ROLE('id owner')"
    );
}

#[test]
fn test_read_next_entry2() {
    let input = wiki();
    let parser = STEPParser::new(input.as_bytes()).unwrap();

    let entries: Vec<StepEntry> = parser.read_all().into_iter().map(|r| r.unwrap()).collect();
    check_wiki_entries(&entries);
}

#[test]
fn test_init_parser_plain() {
    STEPParser::new("ISO-10303-21; DATA;".as_bytes()).unwrap();
    STEPParser::new("ISO-10303-21 ; DATA ;".as_bytes()).unwrap();
    assert!(STEPParser::new("ISO-10304-21 ; DATA;".as_bytes()).is_err());
    assert!(STEPParser::new("ISO-10303-21 ; ".as_bytes()).is_err());
}

#[test]
fn test_init_parser_logos() {
    STEPParser::new("ISO-10303-21; DATA;".as_bytes()).unwrap();
    STEPParser::new("ISO-10303-21 ; DATA ;".as_bytes()).unwrap();
    assert!(STEPParser::new("ISO-10304-21 ; DATA;".as_bytes()).is_err());
    assert!(STEPParser::new("ISO-10303-21 ; ".as_bytes()).is_err());
}

#[test]
fn test_read_next_entry1_plain() {
    let mut parser = STEPParser::new("ISO-10303-21; DATA; #1=; ENDSEC;".as_bytes()).unwrap();
    let entry = parser.next().unwrap().unwrap();
    assert_eq!(entry.get_id(), 1);
    assert_eq!(entry.get_definition(), "");
    assert!(parser.next().is_none());
}

#[test]
fn test_read_next_entry1_logos() {
    let mut parser = STEPParser::new("ISO-10303-21; DATA; #1=; ENDSEC;".as_bytes()).unwrap();
    let entry = parser.next().unwrap().unwrap();
    assert_eq!(entry.get_id(), 1);
    assert_eq!(entry.get_definition(), "");
    assert!(parser.next().is_none());
}

#[test]
fn test_read_next_entry2_plain() {
    let input = wiki();
    let parser = STEPParser::new(input.as_bytes()).unwrap();
    let entries: Vec<StepEntry> = parser.read_all().into_iter().map(|r| r.unwrap()).collect();
    check_wiki_entries(&entries);
}

#[test]
fn test_read_next_entry2_logos() {
    let input = wiki();
    let parser = STEPParser::new(input.as_bytes()).unwrap();
    let entries: Vec<StepEntry> = parser.read_all().into_iter().map(|r| r.unwrap()).collect();
    check_wiki_entries(&entries);
}

#[test]
fn test_tokenizer_complex2() {
    let input = wiki();
    let parser = Tokenizer::new(&input);

    let output = wiki_normalized();
    assert_eq!(output, parser.into_string().unwrap());
}

#[test]
fn empty_data_section_gives_no_entry() {
    let mut parser = STEPParser::new("ISO-10303-21; DATA; ENDSEC;".as_bytes()).unwrap();
    assert!(parser.next().is_none());
    assert!(parser.next().is_none());
    let parser = STEPParser::new("ISO-10303-21; DATA; ENDSEC;".as_bytes()).unwrap();
    assert!(parser.read_all().is_empty());
}

#[test]
fn input_without_data_section_fails() {
    for input in ["ISO-10303-21;", "ISO-10303-21; HEADER; ENDSEC;", "ISO-10303-21; 'DATA'; X"] {
        match STEPParser::new(input.as_bytes()) {
            Err(Error::NoDataSection()) => {}
            other => panic!("{:?} gives {:?}", input, other.map(|_| ())),
        }
    }
}

#[test]
fn errors_of_the_beginning_of_a_file() {
    assert!(matches!(STEPParser::new(b""), Err(Error::EndOfInput())));
    assert!(matches!(STEPParser::new(b"  /* c */ "), Err(Error::EndOfInput())));
    assert!(matches!(STEPParser::new(b"ISO-10303-21"), Err(Error::EndOfInput())));
    assert!(matches!(STEPParser::new(b"ISO-10303-21; DATA"), Err(Error::EndOfInput())));
    match STEPParser::new(b"ISO-10304-21 ; DATA;") {
        Err(Error::UnexpectedToken(expected, got)) => {
            assert_eq!(expected, "ISO-10303-21");
            assert_eq!(got, "ISO-10304-21");
        }
        other => panic!("{:?}", other.map(|_| ())),
    }
    match STEPParser::new(b"ISO-10303-21 DATA;") {
        Err(Error::UnexpectedToken(expected, got)) => {
            assert_eq!(expected, ";");
            assert_eq!(got, "DATA");
        }
        other => panic!("{:?}", other.map(|_| ())),
    }
    match STEPParser::new(b"ISO-10303-21; DATA #1") {
        Err(Error::UnexpectedToken(expected, got)) => {
            assert_eq!(expected, ";");
            assert_eq!(got, "#1");
        }
        other => panic!("{:?}", other.map(|_| ())),
    }
    assert!(matches!(
        STEPParser::new(b"ISO-10303-21; a/b DATA;"),
        Err(Error::ParsingTokenError())
    ));
    assert!(matches!(
        STEPParser::new(b"ISO-10303-21; 'open DATA;"),
        Err(Error::ParsingTokenError())
    ));
    assert!(matches!(
        STEPParser::new(b"ISO-10303-21; /* open DATA;"),
        Err(Error::ParsingTokenError())
    ));
}

fn entries_of(input: &str) -> Vec<Result<StepEntry, Error>> {
    STEPParser::new(input.as_bytes()).unwrap().read_all()
}

#[test]
fn strings_are_opaque() {
    let entries = entries_of("ISO-10303-21; DATA; #7 = T('a;#b /* c */ = d', 'x' , #8 ); ENDSEC;");
    assert_eq!(entries.len(), 1);
    let entry = entries[0].as_ref().unwrap();
    assert_eq!(entry.get_id(), 7);
    assert_eq!(entry.get_definition(), " T('a;#b /* c */ = d', 'x' , #8 )");
    assert_eq!(entry.get_references(), vec![8]);
}

#[test]
fn runs_of_whitespace_and_comments_become_one_space() {
    let entries = entries_of(
        "ISO-10303-21;\nHEADER;\nENDSEC;\nDATA;\n# 12   =\r\n\tA(  #3,\n/* one */ 'b  c'/* two *//**/)\n;\n /* between */ #13=B;;ENDSEC;",
    );
    let first = entries[0].as_ref().unwrap();
    assert_eq!(first.get_id(), 12);
    assert_eq!(first.get_definition(), " A( #3, 'b  c' ) ");
    let second = entries[1].as_ref().unwrap();
    assert_eq!(second, &StepEntry::new(13, "B"));
    assert!(matches!(&entries[2], Err(Error::UnexpectedToken(expected, got)) if expected == "#" && got == ";"));
    assert_eq!(entries.len(), 3);
}

#[test]
fn tokens_of_a_definition() {
    let entries = entries_of("ISO-10303-21;DATA;#1=A=B#2 # 3 #04 #x '' #5x;ENDSEC;");
    assert_eq!(entries[0].as_ref().unwrap().get_definition(), "A=B#2 #3 #4 #x '' #5x");
    assert_eq!(entries.len(), 1);
}

#[test]
fn errors_of_the_data_section() {
    let missing_end = entries_of("ISO-10303-21; DATA; #1=A;");
    assert_eq!(missing_end.len(), 2);
    assert!(matches!(&missing_end[1], Err(Error::EndOfInput())));

    let cut = entries_of("ISO-10303-21; DATA; #1=A");
    assert_eq!(cut.len(), 1);
    assert!(matches!(&cut[0], Err(Error::EndOfInput())));

    let no_equals = entries_of("ISO-10303-21; DATA; #1 A;");
    assert!(matches!(&no_equals[0], Err(Error::UnexpectedToken(expected, got)) if expected == "=" && got == "A"));

    let keyword = entries_of("ISO-10303-21; DATA; #1 = A DATA;");
    assert!(matches!(&keyword[0], Err(Error::UnexpectedToken(expected, got)) if expected == ";" && got == "DATA"));

    let text = entries_of("ISO-10303-21; DATA; X;");
    assert!(matches!(&text[0], Err(Error::UnexpectedToken(expected, got)) if expected == "#" && got == "X"));

    let number = entries_of("ISO-10303-21; DATA; #18446744073709551616=A;");
    assert!(matches!(&number[0], Err(Error::InvalidNumber(_))));

    let greatest = entries_of("ISO-10303-21; DATA; #18446744073709551615=A; ENDSEC;");
    assert_eq!(greatest[0].as_ref().unwrap().get_id(), u64::MAX);

    let slash = entries_of("ISO-10303-21; DATA; #1=A/B;");
    assert!(matches!(&slash[0], Err(Error::ParsingTokenError())));

    let no_semicolon = entries_of("ISO-10303-21; DATA; ENDSEC #1");
    assert!(matches!(&no_semicolon[0], Err(Error::UnexpectedToken(expected, got)) if expected == ";" && got == "#1"));

    let zero = entries_of("ISO-10303-21; DATA; #0=A;");
    assert!(matches!(&zero[0], Err(Error::UnexpectedToken(expected, got)) if expected == "#" && got == "#0"));
}

#[test]
fn input_that_is_no_utf8_is_an_error() {
    let mut input = b"ISO-10303-21; DATA; #1=A('".to_vec();
    input.push(0xff);
    input.extend_from_slice(b"'); ENDSEC;");
    let items = STEPParser::new(&input).unwrap().read_all();
    assert_eq!(items.len(), 1);
    assert!(matches!(&items[0], Err(Error::UTF8(_))));

    let mut cut = "ISO-10303-21; DATA; #1=A('\u{20ac}'); ENDSEC;".as_bytes().to_vec();
    cut.truncate(28);
    let items = STEPParser::new(&cut).unwrap().read_all();
    assert!(matches!(&items[0], Err(Error::UTF8(_))));
}

#[test]
fn text_beyond_ascii_is_kept() {
    let entries = entries_of("ISO-10303-21; DATA; #1=A('\u{e4}\u{20ac}\u{1f600}',\u{3b1}\u{3b2}); ENDSEC;");
    assert_eq!(
        entries[0].as_ref().unwrap().get_definition(),
        "A('\u{e4}\u{20ac}\u{1f600}',\u{3b1}\u{3b2})"
    );
}

/// Feeds the reader with pieces of `size` bytes and collects what it hands
/// out.
fn stream(input: &[u8], size: usize) -> (Vec<StepEntry>, Option<Error>) {
    let mut reader = STEPReader::new();
    let mut entries = Vec::new();
    let mut offset = 0;
    let mut ended = false;
    loop {
        match reader.poll() {
            Ok(ReadEvent::Entry(entry)) => entries.push(entry),
            Ok(ReadEvent::Finished) => return (entries, None),
            Ok(ReadEvent::NeedInput) => {
                assert!(!ended, "more input wanted behind the end");
                if offset == input.len() {
                    ended = true;
                    if let Err(e) = reader.end_of_input() {
                        return (entries, Some(e));
                    }
                } else {
                    let space = reader.make_room();
                    assert!(space > 0);
                    let count = size.min(space).min(input.len() - offset);
                    reader.fill(&input[offset..offset + count]);
                    offset += count;
                }
            }
            Err(e) => return (entries, Some(e)),
        }
    }
}

#[test]
fn entries_do_not_depend_on_how_the_input_is_cut() {
    let input = wiki();
    let whole = STEPParser::new(input.as_bytes()).unwrap().read_all();
    let whole: Vec<StepEntry> = whole.into_iter().map(|r| r.unwrap()).collect();
    for size in [1, 2, 3, 5, 7, 16, 100, 1024, 4096] {
        let (entries, error) = stream(input.as_bytes(), size);
        assert!(error.is_none(), "pieces of {} bytes: {:?}", size, error);
        assert_eq!(entries, whole, "pieces of {} bytes", size);
    }
}

#[test]
fn entry_that_is_longer_than_the_buffer() {
    let mut input = String::from("ISO-10303-21;\nHEADER;\nENDSEC;\nDATA;\n#1=LONG(");
    for i in 0..2000 {
        input.push_str(&format!("#{},'\u{20ac} {}',", i + 2, i));
    }
    input.push_str("$);\n#2=SHORT('x');\nENDSEC;\n");
    let entries = entries_of(&input);
    assert_eq!(entries.len(), 2);
    let long = entries[0].as_ref().unwrap();
    assert_eq!(long.get_references().len(), 2000);
    assert!(long.get_definition().starts_with("LONG(#2,'\u{20ac} 0',#3,"));
    assert!(long.get_definition().ends_with(",#2001,'\u{20ac} 1999',$)"));
    assert_eq!(entries[1].as_ref().unwrap(), &StepEntry::new(2, "SHORT('x')"));
    for size in [1000, 5000] {
        let (streamed, error) = stream(input.as_bytes(), size);
        assert!(error.is_none());
        assert_eq!(streamed.len(), 2);
        assert_eq!(&streamed[0], long);
    }
}

#[test]
fn entry_that_is_cut_everywhere() {
    let mut input = String::from("ISO-10303-21;\nHEADER;\nENDSEC;\nDATA;\n#1=LONG(");
    for i in 0..150 {
        input.push_str(&format!("#{},'\u{20ac} {}' /* c */ ,", i + 2, i));
    }
    input.push_str("$);\nENDSEC;\n");
    let whole = entries_of(&input);
    assert_eq!(whole.len(), 1);
    for size in [1, 3] {
        let (streamed, error) = stream(input.as_bytes(), size);
        assert!(error.is_none());
        assert_eq!(streamed.len(), 1);
        assert_eq!(&streamed[0], whole[0].as_ref().unwrap());
    }
}

#[test]
fn reader_tells_where_it_stands() {
    let mut reader = STEPReader::new();
    assert_eq!(reader.state(), ReaderState::Start);
    assert_eq!(reader.space(), 1024);
    assert!(matches!(reader.poll(), Ok(ReadEvent::NeedInput)));
    reader.fill(b"ISO-10303-21; HEAD");
    assert!(matches!(reader.poll(), Ok(ReadEvent::NeedInput)));
    assert_eq!(reader.state(), ReaderState::SeekData);
    reader.fill(b"ER; ENDSEC; DATA; #1");
    assert!(matches!(reader.poll(), Ok(ReadEvent::NeedInput)));
    assert_eq!(reader.state(), ReaderState::Body);
    reader.fill(b"0=A; ENDSEC");
    match reader.poll() {
        Ok(ReadEvent::Entry(entry)) => assert_eq!(entry, StepEntry::new(10, "A")),
        other => panic!("{:?}", other),
    }
    assert!(matches!(reader.poll(), Ok(ReadEvent::NeedInput)));
    assert_eq!(reader.state(), ReaderState::Body);
    reader.fill(b";");
    assert!(matches!(reader.poll(), Ok(ReadEvent::Finished)));
    assert_eq!(reader.state(), ReaderState::Done);
    assert!(matches!(reader.poll(), Ok(ReadEvent::Finished)));
    assert!(reader.end_of_input().is_ok());
}

#[test]
fn buffer_shows_its_valid_beginning_as_text() {
    let mut buffer = BufferedReader::new();
    assert_eq!(buffer.capacity(), 1024);
    assert_eq!(buffer.space(), 1024);
    assert_eq!(buffer.as_str(), "");
    assert!(!buffer.check_if_filled_enough());
    let euro = "\u{20ac}".as_bytes();
    buffer.fill(b"ab");
    buffer.fill(&euro[..2]);
    assert_eq!(buffer.as_str(), "ab");
    assert_eq!(buffer.held_back(), 2);
    assert_eq!(buffer.available_data(), 4);
    buffer.fill(&euro[2..]);
    assert_eq!(buffer.as_str(), "ab\u{20ac}");
    assert_eq!(buffer.held_back(), 0);
    buffer.consumed(1);
    assert_eq!(buffer.as_str(), "b\u{20ac}");
    buffer.consumed(4);
    assert_eq!(buffer.as_str(), "");
    assert_eq!(buffer.available_data(), 0);
    buffer.fill(&[b'x', 0xff, b'y']);
    assert_eq!(buffer.as_str(), "x");
    assert_eq!(buffer.held_back(), 2);
}

#[test]
fn buffer_grows_by_doubling() {
    let mut buffer = BufferedReader::new();
    buffer.fill(&[b'a'; 1024]);
    assert_eq!(buffer.space(), 0);
    assert!(buffer.check_if_filled_enough());
    buffer.grow();
    assert_eq!(buffer.capacity(), 2048);
    assert_eq!(buffer.space(), 1024);
    assert_eq!(buffer.as_str().len(), 1024);
    buffer.consumed(1000);
    assert_eq!(buffer.as_str().len(), 24);
    assert!(buffer.space() >= 1024);
    assert!(!buffer.check_if_filled_enough());
    buffer.fill(&[b'b'; 488]);
    assert_eq!(buffer.available_data(), 512);
    assert!(buffer.check_if_filled_enough());
    assert!(buffer.as_str().starts_with("aaaaaaaaaaaaaaaaaaaaaaaab"));
    assert!(buffer.as_str().ends_with("bbbb"));
}

fn tokens_of(text: &str) -> Vec<Token> {
    let mut tokenizer = Tokenizer::new(text);
    let mut tokens = Vec::new();
    while let Some(token) = tokenizer.next() {
        tokens.push(token.unwrap());
    }
    tokens
}

#[test]
fn tokens_of_step_text() {
    assert_eq!(
        tokens_of("/* HELLO WORLD */ HEADER"),
        vec![Token::Comments, Token::Whitespace, Token::Header]
    );
    assert_eq!(
        tokens_of("HEADER SOME_IDENTIFIER"),
        vec![
            Token::Header,
            Token::Whitespace,
            Token::Definition("SOME_IDENTIFIER".to_string())
        ]
    );
    assert_eq!(tokens_of("'Hello World'"), vec![Token::String("Hello World".to_string())]);
    assert_eq!(
        tokens_of("#1 # 2"),
        vec![Token::Reference(1), Token::Whitespace, Token::Reference(2)]
    );
    assert_eq!(
        tokens_of("=;(),#&$.*"),
        vec![Token::Eq, Token::Sem, Token::Definition("(),#&$.*".to_string())]
    );
    assert_eq!(
        tokens_of("ISO-10303-21;END-ISO-10303-21 DATA ENDSEC DATAX data"),
        vec![
            Token::StartTag,
            Token::Sem,
            Token::EndTag,
            Token::Whitespace,
            Token::Data,
            Token::Whitespace,
            Token::Endsec,
            Token::Whitespace,
            Token::Definition("DATAX".to_string()),
            Token::Whitespace,
            Token::Definition("data".to_string()),
        ]
    );
    assert_eq!(
        tokens_of("/**//***/ /* * / */#12x #0 #00 #\t\r\n\x0c7"),
        vec![
            Token::Comments,
            Token::Comments,
            Token::Whitespace,
            Token::Comments,
            Token::Definition("#12x".to_string()),
            Token::Whitespace,
            Token::Definition("#0".to_string()),
            Token::Whitespace,
            Token::Definition("#00".to_string()),
            Token::Whitespace,
            Token::Reference(7),
        ]
    );
}

#[test]
fn tokenizer_tells_what_it_has_read() {
    let mut tokenizer = Tokenizer::new("\u{e4}b #3;");
    assert_eq!(tokenizer.consumed_bytes(), 0);
    assert_eq!(tokenizer.peek(), Some(Ok(Token::Definition("\u{e4}b".to_string()))));
    assert_eq!(tokenizer.consumed_bytes(), 0);
    assert_eq!(tokenizer.next(), Some(Ok(Token::Definition("\u{e4}b".to_string()))));
    assert_eq!(tokenizer.consumed_bytes(), 3);
    assert_eq!(tokenizer.next(), Some(Ok(Token::Whitespace)));
    assert_eq!(tokenizer.next(), Some(Ok(Token::Reference(3))));
    assert_eq!(tokenizer.consumed_bytes(), 6);
    assert_eq!(tokenizer.remaining(), 1);
    assert_eq!(tokenizer.next(), Some(Ok(Token::Sem)));
    assert_eq!(tokenizer.next(), None);
    assert_eq!(tokenizer.consumed_bytes(), 7);
}

#[test]
fn partial_text_may_go_on() {
    for text in ["", "ABC", "  ", "#", "#12", "# ", "# 1", "'abc", "/", "/* abc *"] {
        let mut tokenizer = Tokenizer::partial(text);
        assert!(!tokenizer.is_complete());
        assert!(
            matches!(tokenizer.next(), Some(Err(Error::EndOfInput()))),
            "{:?}",
            text
        );
        assert_eq!(tokenizer.consumed_bytes(), 0);
    }
    let mut tokenizer = Tokenizer::partial("ABC;#1 ");
    assert_eq!(tokenizer.next(), Some(Ok(Token::Definition("ABC".to_string()))));
    assert_eq!(tokenizer.next(), Some(Ok(Token::Sem)));
    assert_eq!(tokenizer.next(), Some(Ok(Token::Reference(1))));
    assert!(matches!(tokenizer.next(), Some(Err(Error::EndOfInput()))));
    assert_eq!(tokenizer.consumed_bytes(), 6);
}

#[test]
fn text_that_is_no_token() {
    for text in ["/x", "'abc", "/* abc", "/"] {
        let mut tokenizer = Tokenizer::new(text);
        assert!(matches!(tokenizer.next(), Some(Err(Error::ParsingTokenError()))), "{:?}", text);
        assert!(matches!(Tokenizer::new(text).into_string(), Err(Error::ParsingTokenError())));
    }
    let mut tokenizer = Tokenizer::new("#99999999999999999999");
    assert!(matches!(tokenizer.next(), Some(Err(Error::InvalidNumber(_)))));
}

#[test]
fn tokens_as_text() {
    assert_eq!(Token::Comments.to_string(), "/**/");
    assert_eq!(Token::Whitespace.to_string(), " ");
    assert_eq!(Token::Eq.to_string(), "=");
    assert_eq!(Token::Sem.to_string(), ";");
    assert_eq!(Token::Reference(120).to_string(), "#120");
    assert_eq!(Token::Header.to_string(), "HEADER");
    assert_eq!(Token::Data.to_string(), "DATA");
    assert_eq!(Token::Endsec.to_string(), "ENDSEC");
    assert_eq!(Token::StartTag.to_string(), "ISO-10303-21");
    assert_eq!(Token::EndTag.to_string(), "END-ISO-10303-21");
    assert_eq!(Token::String("a b".to_string()).to_string(), "'a b'");
    assert_eq!(Token::Definition("A(".to_string()).to_string(), "A(");
}

#[test]
fn parser_reads_the_same_wherever_the_input_is_cut() {
    let input = wiki();
    let whole: Vec<StepEntry> = STEPParser::new(input.as_bytes())
        .unwrap()
        .read_all()
        .into_iter()
        .map(|r| r.unwrap())
        .collect();
    check_wiki_entries(&whole);
    let cuts: Vec<Vec<usize>> = vec![
        vec![1; 2000],
        vec![0, 0, 0],
        vec![3, 1, 4, 1, 5, 9, 2, 6, 5, 3, 5, 8, 9, 7, 9],
        vec![13, 1023, 1, 1024, 7],
        vec![5000],
        (1..200).collect(),
    ];
    for sizes in cuts {
        let parser = STEPParser::in_pieces(input.as_bytes(), &sizes).unwrap();
        let entries: Vec<StepEntry> = parser.read_all().into_iter().map(|r| r.unwrap()).collect();
        assert_eq!(entries, whole);
    }
}

#[test]
fn parser_in_pieces_reports_the_same_errors() {
    let sizes = [1usize, 2, 3];
    assert_eq!(
        STEPParser::in_pieces("ISO-10303-21; HEADER; ENDSEC;".as_bytes(), &sizes).err(),
        STEPParser::new("ISO-10303-21; HEADER; ENDSEC;".as_bytes()).err()
    );
    let broken = "ISO-10303-21; DATA; #1=A('x); ENDSEC;";
    let cut: Vec<Result<StepEntry, Error>> =
        STEPParser::in_pieces(broken.as_bytes(), &sizes).unwrap().read_all();
    let whole: Vec<Result<StepEntry, Error>> =
        STEPParser::new(broken.as_bytes()).unwrap().read_all();
    assert_eq!(cut, whole);
    assert!(whole.last().unwrap().is_err());
}
