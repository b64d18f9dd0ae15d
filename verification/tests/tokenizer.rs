use hephaistos::gguf::{GgufWriter, Kv};
use hephaistos::json::{parse_json, Json};
use hephaistos::tokenizer::{
    add_byte_bpe_tokenizer, add_tokenizer, check_tokenizer, TokenizerError,
};

const DOC: &str = r#"{
  "added_tokens": [
    {"id": 0, "content": "<unk>", "special": true},
    {"id": 3, "content": "<eos>", "special": true},
    {"id": 1, "content": "a", "special": false},
    {"id": 2, "special": true},
    7
  ],
  "model": {
    "type": "BPE",
    "vocab": {"b": 2, "a": 1, "<unk>": 0, "<eos>": 3, "ab": 4},
    "merges": ["a b", ["ab", "a"]]
  }
}"#;

fn text(s: &str) -> Json {
    Json::Text(String::from(s))
}

fn strings(v: &Kv) -> Vec<String> {
    match v {
        Kv::ArrStr(x) => x.clone(),
        _ => panic!("no strings"),
    }
}

fn ints(v: &Kv) -> Vec<i32> {
    match v {
        Kv::ArrI32(x) => x.clone(),
        _ => panic!("no integers"),
    }
}

fn number(v: &Kv) -> u32 {
    match v {
        Kv::U32(x) => *x,
        _ => panic!("no number"),
    }
}

fn single(v: &Kv) -> String {
    match v {
        Kv::Str(x) => x.clone(),
        _ => panic!("no string"),
    }
}

fn added(bytes: &[u8]) -> Result<GgufWriter, TokenizerError> {
    let mut w = GgufWriter::new();
    w.kv_u32("first", 1);
    match add_byte_bpe_tokenizer(&mut w, bytes) {
        Ok(()) => Ok(w),
        Err(e) => {
            assert_eq!(w.kvs.len(), 1);
            Err(e)
        }
    }
}

#[test]
fn json_text_becomes_plain_values() {
    let doc = parse_json(b" [null, true, 7, -7, 1.5, \"x\\u00e9\", {\"b\": 1, \"a\": []}] ");
    let items = match doc {
        Ok(Json::Array(items)) => items,
        _ => panic!("no array"),
    };
    assert!(matches!(items[0], Json::Null));
    assert!(matches!(items[1], Json::Bool(true)));
    assert!(matches!(items[2], Json::Number(Some(7))));
    assert!(matches!(items[3], Json::Number(None)));
    assert!(matches!(items[4], Json::Number(None)));
    match &items[5] {
        Json::Text(s) => assert_eq!(s, "xé"),
        _ => panic!("no text"),
    }
    match &items[6] {
        Json::Object(entries) => {
            assert_eq!(entries[0].0, "a");
            assert!(matches!(&entries[0].1, Json::Array(v) if v.is_empty()));
            assert_eq!(entries[1].0, "b");
            assert!(matches!(entries[1].1, Json::Number(Some(1))));
        }
        _ => panic!("no object"),
    }
    assert!(parse_json(b"{").is_err());
    assert!(parse_json(b"1 2").is_err());
}

#[test]
fn tokenizer_metadata_is_added_in_order() {
    let w = match added(DOC.as_bytes()) {
        Ok(w) => w,
        Err(_) => panic!("document refused"),
    };
    let keys: Vec<&str> = w.kvs.iter().map(|kv| kv.0.as_str()).collect();
    assert_eq!(
        keys,
        vec![
            "first",
            "tokenizer.ggml.model",
            "tokenizer.ggml.pre",
            "tokenizer.ggml.tokens",
            "tokenizer.ggml.token_type",
            "tokenizer.ggml.merges",
            "tokenizer.ggml.unknown_token_id",
            "tokenizer.ggml.bos_token_id",
            "tokenizer.ggml.eos_token_id",
            "tokenizer.ggml.add_bos_token",
        ]
    );
    assert_eq!(single(&w.kvs[1].1), "gpt2");
    assert_eq!(single(&w.kvs[2].1), "default");
    assert_eq!(strings(&w.kvs[3].1), vec!["<unk>", "a", "b", "<eos>", "ab"]);
    assert_eq!(ints(&w.kvs[4].1), vec![2, 1, 1, 3, 1]);
    assert_eq!(strings(&w.kvs[5].1), vec!["a b", "ab a"]);
    assert_eq!(number(&w.kvs[6].1), 0);
    assert_eq!(number(&w.kvs[7].1), 0);
    assert_eq!(number(&w.kvs[8].1), 0);
    assert!(matches!(w.kvs[9].1, Kv::Bool(false)));
}

#[test]
fn repeated_ids_leave_gaps() {
    let doc = br#"{"model": {"vocab": {"<unk>": 1, "a": 1, "b": 0}, "merges": []}}"#;
    let w = match added(doc) {
        Ok(w) => w,
        Err(_) => panic!("document refused"),
    };
    assert_eq!(strings(&w.kvs[3].1), vec!["b", "a", ""]);
    assert_eq!(ints(&w.kvs[4].1), vec![1, 1, 1]);
    assert_eq!(number(&w.kvs[6].1), 1);
}

#[test]
fn text_that_is_no_json_is_an_error() {
    assert!(matches!(added(b"{\"model\":"), Err(TokenizerError::Parse(_))));
    assert!(matches!(added(b""), Err(TokenizerError::Parse(_))));
}

#[test]
fn documents_that_describe_no_tokenizer_are_malformed() {
    let docs: [&[u8]; 9] = [
        b"{}",
        b"[]",
        br#"{"model": {"vocab": [], "merges": []}}"#,
        br#"{"model": {"vocab": {"<unk>": 0}}}"#,
        br#"{"model": {"vocab": {"a": 0}, "merges": []}}"#,
        br#"{"model": {"vocab": {"<unk>": 1}, "merges": []}}"#,
        br#"{"model": {"vocab": {"<unk>": "0"}, "merges": []}}"#,
        br#"{"model": {"vocab": {"<unk>": 0}, "merges": [["a"]]}}"#,
        br#"{"model": {"vocab": {"<unk>": 0}, "merges": [7]}}"#,
    ];
    for doc in docs {
        assert!(matches!(added(doc), Err(TokenizerError::Malformed)));
    }
}

#[test]
fn plain_documents_work_without_text() {
    let vocab = Json::Object(vec![
        (String::from("x"), Json::Number(Some(1))),
        (String::from("<unk>"), Json::Number(Some(0))),
    ]);
    let merges = Json::Array(vec![Json::Array(vec![text("p"), text("q"), text("r")]), text("s t")]);
    let model = Json::Object(vec![
        (String::from("vocab"), vocab),
        (String::from("merges"), merges),
    ]);
    let doc = Json::Object(vec![(String::from("model"), model)]);
    assert!(check_tokenizer(&doc));
    assert!(!check_tokenizer(&Json::Null));
    let mut w = GgufWriter::new();
    add_tokenizer(&mut w, &doc);
    assert_eq!(strings(&w.kvs[2].1), vec!["<unk>", "x"]);
    assert_eq!(strings(&w.kvs[4].1), vec!["p q", "s t"]);
}
