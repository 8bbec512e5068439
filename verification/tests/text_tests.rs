use procedure_crafter::coordinates::{map_non_sign_to_sign, map_sign_to_non_sign};
use procedure_crafter::custom::BlockInput;
use procedure_crafter::internal::svg::{parse_translations, split_line};
use procedure_crafter::text::split_on_placeholders;

#[test]
fn placeholders_split_from_the_left() {
    assert_eq!(split_on_placeholders(&"a{}b{}c".to_string()), vec!["a", "b", "c"]);
    assert_eq!(split_on_placeholders(&"".to_string()), vec![""]);
    assert_eq!(split_on_placeholders(&"{{}}".to_string()), vec!["{", "}"]);
    assert_eq!(split_on_placeholders(&"{}{}".to_string()), vec!["", "", ""]);
    assert_eq!(split_on_placeholders(&"no inputs".to_string()), vec!["no inputs"]);
    assert_eq!(split_on_placeholders(&"é{}ü".to_string()), vec!["é", "ü"]);
}

#[test]
fn placeholders_join_back() {
    let name = "x{}{y}{}z".to_string();
    let parts = split_on_placeholders(&name);
    assert_eq!(parts.join("{}"), name);
}

#[test]
fn split_line_plain_fields() {
    assert_eq!(split_line("a,b,c"), vec!["a", "b", "c"]);
    assert_eq!(split_line(""), vec![""]);
    assert_eq!(split_line(" key , value\r"), vec!["key", "value"]);
    assert_eq!(split_line("a,,b,"), vec!["a", "", "b", ""]);
}

#[test]
fn split_line_quotes_and_escapes() {
    assert_eq!(split_line("\"a,b\",c"), vec!["a,b", "c"]);
    assert_eq!(split_line("say \\\"hi\\\",x"), vec!["say \"hi\"", "x"]);
    assert_eq!(split_line("a\\\\b"), vec!["a\\b"]);
    assert_eq!(split_line("\"\ta\t\",b"), vec!["a", "b"]);
    assert_eq!(split_line("x\ty,z"), vec!["xy", "z"]);
}

#[test]
fn translations_in_desired_language() {
    let csv = "key,en,de\nhello,Hello,Hallo\nbye,Bye,Tschuess";
    let (lang, entries) = parse_translations(csv, "de", "en").unwrap();
    assert_eq!(lang, "de");
    assert_eq!(entries, vec![
        ("hello".to_string(), "Hallo".to_string()),
        ("bye".to_string(), "Tschuess".to_string()),
    ]);
}

#[test]
fn translations_fall_back() {
    let csv = "key,en,de\nhello,Hello,Hallo";
    let (lang, entries) = parse_translations(csv, "fr", "en").unwrap();
    assert_eq!(lang, "en");
    assert_eq!(entries, vec![("hello".to_string(), "Hello".to_string())]);
}

#[test]
fn translations_later_line_wins() {
    let csv = "key,en\na,1\nb,2\na,3";
    let (_, entries) = parse_translations(csv, "en", "en").unwrap();
    assert_eq!(entries, vec![("a".to_string(), "3".to_string()), ("b".to_string(), "2".to_string())]);
}

#[test]
fn translations_without_language_fail() {
    let csv = "key,en\na,1";
    assert_eq!(
        parse_translations(csv, "fr", "de"),
        Err("Unable to find desired nor fallback languages")
    );
}

#[test]
fn translations_header_only() {
    let (lang, entries) = parse_translations("key,en", "en", "de").unwrap();
    assert_eq!(lang, "en");
    assert!(entries.is_empty());
}

#[test]
fn block_input_lists_must_match() {
    let ok = BlockInput::new("number".to_string(), Some(3), vec!["a".to_string()], vec!["1".to_string()]);
    assert!(ok.is_ok());
    assert_eq!(ok.unwrap().get_width(), 10);
    let free = BlockInput::new("text".to_string(), None, vec![], vec![]).unwrap();
    assert_eq!(free.get_width(), 20);
    let err = BlockInput::new("number".to_string(), None, vec!["a".to_string()], vec![]);
    assert_eq!(err.unwrap_err(), "expected and expected_return must have the same length");
}

#[test]
fn sign_mapping_round_trip() {
    assert_eq!(map_sign_to_non_sign(0), 32768);
    assert_eq!(map_sign_to_non_sign(i16::MIN), 0);
    assert_eq!(map_sign_to_non_sign(i16::MAX), u16::MAX);
    assert_eq!(map_non_sign_to_sign(0), i16::MIN);
    assert_eq!(map_non_sign_to_sign(32768), 0);
    for x in [-300i16, -1, 0, 1, 12345] {
        assert_eq!(map_non_sign_to_sign(map_sign_to_non_sign(x)), x);
    }
}

#[test]
fn split_line_without_quotes_splits_at_commas() {
    let line = "key\t, first \r,  second ,,last\r";
    let expected: Vec<String> = line
        .split(',')
        .map(|f| f.chars().filter(|c| *c != '\r' && *c != '\t').collect::<String>().trim().to_string())
        .collect();
    assert_eq!(split_line(line), expected);
    assert_eq!(split_line(line), vec!["key", "first", "second", "", "last"]);
}

#[test]
fn translations_same_with_crlf_line_endings() {
    let csv = "key,en,de\nhello,Hello,Hallo\nbye,Bye,Tschuess\nhello,Hi,Servus";
    let crlf = csv.replace("\n", "\r\n");
    let (lang, mut entries) = parse_translations(csv, "de", "en").unwrap();
    let (lang2, mut entries2) = parse_translations(&crlf, "de", "en").unwrap();
    entries.sort();
    entries2.sort();
    assert_eq!(lang, lang2);
    assert_eq!(entries, entries2);
    assert_eq!(
        entries,
        vec![("bye".to_string(), "Tschuess".to_string()), ("hello".to_string(), "Servus".to_string())]
    );
    assert_eq!(parse_translations(&crlf, "fr", "it"), parse_translations(csv, "fr", "it"));
}
