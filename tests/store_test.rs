use tasky::store::{
    decode_tags, decode_tasks, encode_tags, encode_tasks, tags_from_contents, tasks_from_contents,
    StoreError,
};
use tasky::task::Task;

fn strings(v: &[&str]) -> Vec<String> {
    v.iter().map(|s| s.to_string()).collect()
}

#[test]
fn tasks_text_layout() {
    let tasks = vec![Task::new(1, "Buy milk".to_string(), strings(&["errand"]))];
    let expected = "{\n  \"tasks\": [\n    {\n      \"id\": 1,\n      \"description\": \"Buy milk\",\n      \"done\": false,\n      \"tags\": [\n        \"errand\"\n      ]\n    }\n  ]\n}";
    assert_eq!(encode_tasks(&tasks), expected);
}

#[test]
fn empty_collections_layout() {
    assert_eq!(encode_tasks(&vec![]), "{\n  \"tasks\": []\n}");
    assert_eq!(encode_tags(&vec![]), "[]");
    let t = vec![Task::new(7, "x".to_string(), vec![])];
    assert_eq!(
        encode_tasks(&t),
        "{\n  \"tasks\": [\n    {\n      \"id\": 7,\n      \"description\": \"x\",\n      \"done\": false,\n      \"tags\": []\n    }\n  ]\n}"
    );
}

#[test]
fn tags_text_layout() {
    assert_eq!(encode_tags(&strings(&["a", "b"])), "[\n  \"a\",\n  \"b\"\n]");
}

#[test]
fn escapes_are_written_and_read_back() {
    let desc = "say \"hi\"\\\n\t\u{1}é".to_string();
    let tasks = vec![Task::new(4294967295, desc.clone(), strings(&["a/b"]))];
    let text = encode_tasks(&tasks);
    assert!(text.contains("\"say \\\"hi\\\"\\\\\\n\\t\\u0001é\""));
    assert!(text.contains("\"id\": 4294967295,"));
    assert_eq!(decode_tasks(&text).unwrap(), tasks);
}

#[test]
fn tasks_round_trip_many() {
    let mut t2 = Task::new(2, "Call dentist".to_string(), vec![]);
    t2.done = true;
    let tasks = vec![
        Task::new(1, "Buy milk".to_string(), strings(&["errand", "home", "errand"])),
        t2,
        Task::new(10, "".to_string(), strings(&[""])),
    ];
    assert_eq!(decode_tasks(&encode_tasks(&tasks)).unwrap(), tasks);
}

#[test]
fn tags_round_trip() {
    let tags = strings(&["work", "home", "ação", "quote\"d"]);
    assert_eq!(decode_tags(&encode_tags(&tags)).unwrap(), tags);
    let none: Vec<String> = vec![];
    assert_eq!(decode_tags(&encode_tags(&none)).unwrap(), none);
}

#[test]
fn missing_file_gives_empty_collections() {
    assert_eq!(tasks_from_contents(None).unwrap(), vec![]);
    assert_eq!(tags_from_contents(None).unwrap(), Vec::<String>::new());
}

#[test]
fn present_file_is_decoded() {
    let r = tags_from_contents(Some("[\"x\"]".to_string())).unwrap();
    assert_eq!(r, strings(&["x"]));
    let r = tasks_from_contents(Some("{\"tasks\":[]}".to_string())).unwrap();
    assert_eq!(r, vec![]);
}

#[test]
fn saving_twice_gives_identical_text() {
    let tasks = vec![Task::new(3, "a".to_string(), strings(&["t"]))];
    assert_eq!(encode_tasks(&tasks), encode_tasks(&tasks));
    let tags = strings(&["t", "u"]);
    assert_eq!(encode_tags(&tags), encode_tags(&tags));
}

#[test]
fn compact_and_unicode_escapes_are_read() {
    let text = "{\"tasks\":[{\"id\":5,\"description\":\"caf\\u00e9\\/x\",\"done\":true,\"tags\":[\"a\",\"b\"]}]}";
    let ts = decode_tasks(text).unwrap();
    let mut expected = Task::new(5, "café/x".to_string(), strings(&["a", "b"]));
    expected.done = true;
    assert_eq!(ts, vec![expected]);
}

#[test]
fn malformed_text_is_a_parse_error() {
    assert_eq!(decode_tasks("not json"), Err(StoreError::ParseError));
    assert_eq!(decode_tasks("{\"tasks\": [}"), Err(StoreError::ParseError));
    assert_eq!(decode_tasks("{\"tasks\": []} extra"), Err(StoreError::ParseError));
    assert_eq!(
        decode_tasks("{\"tasks\":[{\"id\":4294967296,\"description\":\"\",\"done\":false,\"tags\":[]}]}"),
        Err(StoreError::ParseError)
    );
    assert_eq!(
        decode_tasks("{\"tasks\":[{\"id\":1,\"description\":\"\\ud800\",\"done\":false,\"tags\":[]}]}"),
        Err(StoreError::ParseError)
    );
    assert_eq!(decode_tags("{"), Err(StoreError::ParseError));
    assert_eq!(decode_tags("[\"a\",]"), Err(StoreError::ParseError));
    assert_eq!(tags_from_contents(Some("".to_string())), Err(StoreError::ParseError));
}

#[test]
fn task_fields_in_any_order_are_read() {
    let text = "{ \"tasks\": [ { \"tags\": [\"x\"], \"done\": false, \"id\": 3, \"description\": \"d\" } ] }";
    let ts = decode_tasks(text).unwrap();
    assert_eq!(ts, vec![Task::new(3, "d".to_string(), strings(&["x"]))]);
}

#[test]
fn missing_or_repeated_fields_are_parse_errors() {
    let missing = "{\"tasks\":[{\"id\":1,\"description\":\"a\",\"done\":false}]}";
    assert_eq!(decode_tasks(missing), Err(StoreError::ParseError));
    let repeated = "{\"tasks\":[{\"id\":1,\"id\":2,\"description\":\"a\",\"done\":false,\"tags\":[]}]}";
    assert_eq!(decode_tasks(repeated), Err(StoreError::ParseError));
    assert_eq!(decode_tasks("{\"x\": 1}"), Err(StoreError::ParseError));
    assert_eq!(decode_tasks("{\"tasks\": [], \"tasks\": []}"), Err(StoreError::ParseError));
}

#[test]
fn unknown_members_are_skipped() {
    let unknown = "{\"tasks\":[{\"id\":1,\"description\":\"a\",\"done\":false,\"tags\":[],\"x\":{\"y\":[1,-2.5e3,null,true,\"s\"]}}]}";
    assert_eq!(decode_tasks(unknown).unwrap(), vec![Task::new(1, "a".to_string(), vec![])]);
    assert_eq!(decode_tasks("{\"tasks\":[],\"x\":1}").unwrap(), vec![]);
    assert_eq!(decode_tasks("{\"version\": {}, \"tasks\": [], \"n\": 0}").unwrap(), vec![]);
}

#[test]
fn invalid_values_in_unknown_members_are_parse_errors() {
    assert_eq!(decode_tasks("{\"tasks\":[],\"x\":[1,]}"), Err(StoreError::ParseError));
    assert_eq!(decode_tasks("{\"tasks\":[],\"x\":01}"), Err(StoreError::ParseError));
    assert_eq!(decode_tasks("{\"tasks\":[],\"x\":1.}"), Err(StoreError::ParseError));
    assert_eq!(decode_tasks("{\"tasks\":[],\"x\":nul}"), Err(StoreError::ParseError));
}

#[test]
fn leading_zeros_are_parse_errors() {
    let text = "{\"tasks\":[{\"id\":01,\"description\":\"a\",\"done\":false,\"tags\":[]}]}";
    assert_eq!(decode_tasks(text), Err(StoreError::ParseError));
    let zero = "{\"tasks\":[{\"id\":0,\"description\":\"a\",\"done\":false,\"tags\":[]}]}";
    assert_eq!(decode_tasks(zero).unwrap(), vec![Task::new(0, "a".to_string(), vec![])]);
}

#[test]
fn surrogate_pairs_are_one_character() {
    assert_eq!(decode_tags("[\"\\ud83d\\ude00\"]").unwrap(), strings(&["\u{1F600}"]));
    assert_eq!(decode_tags("[\"\\ud83d\"]"), Err(StoreError::ParseError));
    assert_eq!(decode_tags("[\"\\ude00\"]"), Err(StoreError::ParseError));
    assert_eq!(decode_tags("[\"\\ud83d\\u0041\"]"), Err(StoreError::ParseError));
}
