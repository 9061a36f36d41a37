use gifwat::collection::Collection;
use gifwat::entry::Entry;
use gifwat::reader::parse;
use gifwat::writer::encode;

fn s(x: &str) -> String {
    x.to_string()
}

#[test]
fn encode_empty_document() {
    let v: Vec<Entry> = Vec::new();
    assert_eq!(encode(&v), "{\n  \"gifs\": []\n}");
}

#[test]
fn encode_exact_text() {
    let e = Entry {
        id: s("1"),
        url: s("http://a.gif"),
        tags: vec![s("funny")],
        created_at: 123,
    };
    let text = encode(&vec![e]);
    assert_eq!(
        text,
        "{\n  \"gifs\": [\n    {\"id\": \"1\", \"url\": \"http://a.gif\", \"tags\": [\"funny\"], \"created_at\": 123}\n  ]\n}"
    );
}

#[test]
fn parse_exact_text() {
    let text = "{\n  \"gifs\": [\n    {\"id\": \"1\", \"url\": \"http://a.gif\", \"tags\": [\"funny\", \"cat\"], \"created_at\": 123}\n  ]\n}";
    let es = parse(text).unwrap();
    assert_eq!(es.len(), 1);
    assert_eq!(es[0].id, "1");
    assert_eq!(es[0].url, "http://a.gif");
    assert_eq!(es[0].tags, vec![s("funny"), s("cat")]);
    assert_eq!(es[0].created_at, 123);
}

#[test]
fn round_trip_two_entries() {
    let mut c = Collection::new();
    c.add_at(s("http://a.gif"), vec![s("funny")], 100);
    c.add_at(s("http://b.gif"), vec![], 200);
    let text = c.save_text();
    let c2 = Collection::load_text(&text);
    assert_eq!(c.list(), c2.list());
}

#[test]
fn round_trip_escaped_characters() {
    let mut c = Collection::new();
    c.add_at(s("http://x/\"quoted\"\\back\nnewline\ttab"), vec![s("a\"b"), s("\\")], 7);
    c.add_at(s("caf\u{e9} \u{1F600}"), vec![s("\u{1}ctl")], u64::MAX);
    let text = c.save_text();
    let c2 = Collection::load_text(&text);
    assert_eq!(c.list(), c2.list());
}

#[test]
fn round_trip_empty_collection() {
    let c = Collection::new();
    let c2 = Collection::load_text(&c.save_text());
    assert!(c2.list().is_empty());
}

#[test]
fn parse_rejects_malformed() {
    assert!(parse("").is_none());
    assert!(parse("{}").is_none());
    assert!(parse("{\n  \"gifs\": []\n} ").is_none());
    assert!(parse("{\n  \"gifs\": [\n    {\"id\": \"1\"}\n  ]\n}").is_none());
    assert!(parse("{\n  \"gifs\": [\n    {\"id\": \"1\", \"url\": \"u\", \"tags\": [], \"created_at\": 1}\n  ]\n").is_none());
}

#[test]
fn parse_rejects_number_beyond_range() {
    let text = "{\n  \"gifs\": [\n    {\"id\": \"1\", \"url\": \"u\", \"tags\": [], \"created_at\": 99999999999999999999}\n  ]\n}";
    assert!(parse(text).is_none());
    let ok = "{\n  \"gifs\": [\n    {\"id\": \"1\", \"url\": \"u\", \"tags\": [], \"created_at\": 18446744073709551615}\n  ]\n}";
    assert_eq!(parse(ok).unwrap()[0].created_at, u64::MAX);
}

#[test]
fn parse_reads_unicode_escapes() {
    let text = "{\n  \"gifs\": [\n    {\"id\": \"1\", \"url\": \"a\\u0001b\", \"tags\": [], \"created_at\": 5}\n  ]\n}";
    let es = parse(text).unwrap();
    assert_eq!(es[0].url, "a\u{1}b");
}
