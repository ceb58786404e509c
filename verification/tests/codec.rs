use conllx::reader::{
    is_blank, parse_form_field, parse_identifier_field, parse_numeric_field, parse_string_field,
};
use conllx::writer::{partition_turn, separator};
use conllx::{
    Features, PartitioningWriter, ReadError, ReadSentence, Reader, Sentence, Token, TokenBuilder,
    WriteSentence, Writer,
};

fn test_sentences() -> Vec<Vec<Token>> {
    vec![
        vec![
            TokenBuilder::new("Die")
                .lemma("die")
                .cpos("ART")
                .pos("ART")
                .features(Features::from_string("nsf"))
                .head(2)
                .head_rel("DET")
                .p_head(3)
                .p_head_rel("TEST")
                .token(),
            TokenBuilder::new("Großaufnahme")
                .lemma("Großaufnahme")
                .cpos("N")
                .pos("NN")
                .features(Features::from_string("nsf"))
                .head(0)
                .head_rel("ROOT")
                .token(),
        ],
        vec![
            TokenBuilder::new("Gilles")
                .lemma("Gilles")
                .cpos("N")
                .pos("NE")
                .features(Features::from_string("nsm"))
                .head(0)
                .head_rel("ROOT")
                .token(),
            TokenBuilder::new("Deleuze")
                .lemma("Deleuze")
                .cpos("N")
                .pos("NE")
                .features(Features::from_string(
                    "case:nominative|number:singular|gender:masculine",
                ))
                .head(1)
                .head_rel("APP")
                .token(),
        ],
    ]
}

static BASIC: &str = "1\tDie\tdie\tART\tART\tnsf\t2\tDET\t3\tTEST
2\tGroßaufnahme\tGroßaufnahme\tN\tNN\tnsf\t0\tROOT

1\tGilles\tGilles\tN\tNE\tnsm\t0\tROOT
2\tDeleuze\tDeleuze\tN\tNE\tcase:nominative|number:singular|gender:masculine\t1\tAPP
";

static DOUBLE_NEWLINE: &str = "1\tDie\tdie\tART\tART\tnsf\t2\tDET\t3\tTEST
2\tGroßaufnahme\tGroßaufnahme\tN\tNN\tnsf\t0\tROOT


1\tGilles\tGilles\tN\tNE\tnsm\t0\tROOT
2\tDeleuze\tDeleuze\tN\tNE\tcase:nominative|number:singular|gender:masculine\t1\tAPP
";

static EMPTY: &str = "1\tDie\tdie\tART\tART\tnsf\t2\tDET\t3\tTEST
2\tGroßaufnahme\tGroßaufnahme\tN\tNN\tnsf\t0\tROOT\t_\t_

1\tGilles\tGilles\tN\tNE\tnsm\t0\tROOT\t_\t_
2\tDeleuze\tDeleuze\tN\tNE\tcase:nominative|number:singular|gender:masculine\t1\tAPP\t_\t_";

fn read_sentences(text: &str) -> Vec<Vec<Token>> {
    let mut sentences = Reader::new(text).sentences();
    let mut all = Vec::new();
    while let Some(sentence) = sentences.next() {
        all.push(sentence.unwrap());
    }
    all
}

fn test_parsing(correct: &[Sentence], fragment: &str) {
    let sentences = read_sentences(fragment);
    assert_eq!(correct, sentences.as_slice());
}

#[test]
fn reader() {
    test_parsing(&test_sentences(), BASIC);
}

#[test]
fn reader_robust() {
    test_parsing(&test_sentences(), DOUBLE_NEWLINE);
}

#[test]
fn reader_marked_empty() {
    test_parsing(&test_sentences(), EMPTY);
}

#[test]
fn reader_rejects_non_numeric_id() {
    let mut reader = Reader::new("test");
    match reader.read_sentence() {
        Err(ReadError::ParseIntField { value }) => assert_eq!(value, "test"),
        other => panic!("unexpected: {:?}", other),
    }
}

#[test]
fn reader_rejects_underscore_id() {
    let mut reader = Reader::new("_");
    match reader.read_sentence() {
        Err(ReadError::ParseIdentifierField { value }) => assert_eq!(value, "_"),
        other => panic!("unexpected: {:?}", other),
    }
}

#[test]
fn writer() {
    let output = String::new();
    let mut writer = Writer::new(output);

    for sentence in &test_sentences() {
        writer.write_sentence(sentence).unwrap();
    }

    assert_eq!(EMPTY, writer.get_ref().as_str());
}

#[test]
fn reading_what_was_written_gives_the_sentences() {
    let mut writer = Writer::new(String::new());
    for sentence in &test_sentences() {
        writer.write_sentence(sentence).unwrap();
    }
    assert_eq!(read_sentences(writer.get_ref()), test_sentences());
}

#[test]
fn empty_text_has_no_sentence() {
    assert!(Reader::new("").read_sentence().unwrap().is_none());
    assert!(Reader::new("\n\n  \n").read_sentence().unwrap().is_none());
    let mut reader = Reader::new("1\ta\n");
    assert_eq!(reader.read_sentence().unwrap(), Some(vec![Token::new("a")]));
    assert!(reader.read_sentence().unwrap().is_none());
    assert!(reader.read_sentence().unwrap().is_none());
}

#[test]
fn underscore_is_an_absent_field() {
    let mut reader = Reader::new("1\t_\t_\t_\t_\t_\t_\t_\t_\t_");
    let sentence = reader.read_sentence().unwrap().unwrap();
    assert_eq!(sentence, vec![Token::new("_")]);
    assert_eq!(sentence[0].lemma(), None);
    assert_eq!(sentence[0].head(), None);
    assert!(sentence[0].features().is_none());
    let mut writer = Writer::new(String::new());
    writer.write_sentence(&sentence).unwrap();
    assert_eq!(writer.get_ref(), "1\t_\t_\t_\t_\t_\t_\t_\t_\t_");
}

#[test]
fn empty_field_is_not_absent() {
    let mut reader = Reader::new("1\ta\t\tb");
    let sentence = reader.read_sentence().unwrap().unwrap();
    assert_eq!(sentence[0].lemma(), Some(""));
    assert_eq!(sentence[0].cpos(), Some("b"));
    assert_eq!(sentence[0].pos(), None);
}

#[test]
fn reader_rejects_a_line_without_form() {
    match Reader::new("1").read_sentence() {
        Err(ReadError::MissingFormField) => {}
        other => panic!("unexpected: {:?}", other),
    }
}

#[test]
fn reader_rejects_a_head_that_is_no_number() {
    match Reader::new("1\ta\t_\t_\t_\t_\tx1\tr").read_sentence() {
        Err(ReadError::ParseIntField { value }) => assert_eq!(value, "x1"),
        other => panic!("unexpected: {:?}", other),
    }
    match Reader::new("1\ta\t_\t_\t_\t_\t1\tr\t-2").read_sentence() {
        Err(ReadError::ParseIntField { value }) => assert_eq!(value, "-2"),
        other => panic!("unexpected: {:?}", other),
    }
    match Reader::new("1\ta\t_\t_\t_\t_\t99999999999999999999999999\tr").read_sentence() {
        Err(ReadError::ParseIntField { value }) => {
            assert_eq!(value, "99999999999999999999999999")
        }
        other => panic!("unexpected: {:?}", other),
    }
}

#[test]
fn numbers_are_read_as_the_standard_library_reads_them() {
    for text in ["0", "7", "007", "+12", "18446744073709551615", "", "+", "1 2", "١"] {
        let line = format!("1\ta\t_\t_\t_\t_\t{}\tr", text);
        let head = Reader::new(&line).read_sentence();
        match text.parse::<usize>() {
            Ok(n) => assert_eq!(head.unwrap().unwrap()[0].head(), Some(n)),
            Err(_) => assert!(head.is_err()),
        }
    }
}

#[test]
fn numbers_are_written_in_decimal() {
    let sentence = vec![TokenBuilder::new("a").head(1203).p_head(0).token()];
    let mut writer = Writer::new(String::from("x"));
    writer.write_sentence(&sentence).unwrap();
    assert_eq!(writer.get_ref(), "x1\ta\t_\t_\t_\t_\t1203\t_\t0\t_");
}

#[test]
fn white_space_around_a_line_does_not_count() {
    let mut reader = Reader::new("  1\ta\tb \r\n \r\n2\tc\n");
    assert_eq!(
        reader.read_sentence().unwrap(),
        Some(vec![TokenBuilder::new("a").lemma("b").token()])
    );
    assert_eq!(reader.read_sentence().unwrap(), Some(vec![Token::new("c")]));
}

#[test]
fn partitioning_writer_takes_turns() {
    let mut writer = PartitioningWriter::new(vec![
        Writer::new(String::new()),
        Writer::new(String::new()),
    ]);
    for form in ["a", "b", "c", "d", "e"] {
        writer.write_sentence(&vec![Token::new(form)]).unwrap();
    }
    let mut single = Writer::new(String::new());
    for form in ["a", "c", "e"] {
        single.write_sentence(&vec![Token::new(form)]).unwrap();
    }
    assert_eq!(
        single.get_ref(),
        "1\ta\t_\t_\t_\t_\t_\t_\t_\t_\n\n1\tc\t_\t_\t_\t_\t_\t_\t_\t_\n\n1\te\t_\t_\t_\t_\t_\t_\t_\t_"
    );
}

#[test]
fn blank_lines_are_told_from_others() {
    assert!(is_blank(""));
    assert!(is_blank(" \t\r\n"));
    assert!(!is_blank(" 1\ta\n"));
    assert_eq!(separator(true), "");
    assert_eq!(separator(false), "\n\n");
}

#[test]
fn turns_come_round() {
    assert_eq!(partition_turn(0, 3), 0);
    assert_eq!(partition_turn(2, 3), 2);
    assert_eq!(partition_turn(3, 3), 0);
}

#[test]
fn fields_are_read_one_by_one() {
    assert_eq!(parse_string_field(Some("_")), None);
    assert_eq!(parse_string_field(Some("__")), Some("__".to_string()));
    assert_eq!(parse_string_field(None), None);
    assert_eq!(parse_numeric_field(Some("_")).unwrap(), None);
    assert_eq!(parse_numeric_field(None).unwrap(), None);
    assert_eq!(parse_numeric_field(Some("12")).unwrap(), Some(12));
    assert_eq!(parse_identifier_field(Some("3")).unwrap(), Some(3));
    match parse_identifier_field(None) {
        Err(ReadError::ParseIdentifierField { value }) => {
            assert_eq!(value, "A token identifier should be present")
        }
        other => panic!("unexpected: {:?}", other),
    }
    assert_eq!(parse_form_field(Some("_")).unwrap(), "_");
    assert!(parse_form_field(None).is_err());
}

#[test]
fn two_sentences_are_read_one_after_the_other() {
    let mut writer = Writer::new(String::new());
    let first = vec![
        TokenBuilder::new("a b").head(2).head_rel("x").token(),
        TokenBuilder::new("c").head(0).head_rel("").p_head_rel("y").token(),
    ];
    let second = vec![Token::new("_")];
    writer.write_sentence(&first).unwrap();
    writer.write_sentence(&second).unwrap();
    let mut reader = Reader::new(writer.get_ref());
    assert_eq!(reader.read_sentence().unwrap(), Some(first));
    assert_eq!(reader.read_sentence().unwrap(), Some(second));
    assert_eq!(reader.read_sentence().unwrap(), None);
}
