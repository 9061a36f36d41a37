use gifwat::collection::Collection;
use gifwat::digits::HexParse;
use gifwat::entry::Entry;

fn s(x: &str) -> String {
    x.to_string()
}

#[test]
fn scenario_add_two_lists_newest_first() {
    let mut c = Collection::new();
    let e1 = c.add_at(s("http://a.gif"), vec![s("funny")], 100);
    let e2 = c.add_at(s("http://b.gif"), vec![], 200);
    let listed = c.list();
    assert_eq!(listed.len(), 2);
    assert_eq!(listed[0], e2);
    assert_eq!(listed[1], e1);
    assert_eq!(listed[0].url, "http://b.gif");
    assert_eq!(listed[1].url, "http://a.gif");
    assert_eq!(listed[1].tags, vec![s("funny")]);
    assert!(listed[0].tags.is_empty());
    assert_ne!(e1.id, e2.id);
}

#[test]
fn scenario_delete_then_again() {
    let mut c = Collection::new();
    let e1 = c.add_at(s("http://a.gif"), vec![s("funny")], 100);
    let e2 = c.add_at(s("http://b.gif"), vec![], 200);
    assert_eq!(c.delete(&e1.id), true);
    let listed = c.list();
    assert_eq!(listed.len(), 1);
    assert_eq!(listed[0], e2);
    assert_eq!(c.delete(&e1.id), false);
    assert_eq!(c.list().len(), 1);
    assert_eq!(c.list()[0], e2);
}

#[test]
fn update_tags_replaces_exactly() {
    let mut c = Collection::new();
    let e1 = c.add_at(s("http://a.gif"), vec![s("funny")], 100);
    let e2 = c.add_at(s("http://b.gif"), vec![s("old")], 200);
    assert_eq!(c.update_tags(&e1.id, vec![s("new"), s("tags")]), true);
    let listed = c.list();
    assert_eq!(listed[0], e2);
    assert_eq!(listed[1].id, e1.id);
    assert_eq!(listed[1].url, e1.url);
    assert_eq!(listed[1].created_at, e1.created_at);
    assert_eq!(listed[1].tags, vec![s("new"), s("tags")]);
}

#[test]
fn update_tags_unknown_id_changes_nothing() {
    let mut c = Collection::new();
    let e1 = c.add_at(s("http://a.gif"), vec![s("funny")], 100);
    assert_eq!(c.update_tags(&s("nope"), vec![s("x")]), false);
    let listed = c.list();
    assert_eq!(listed.len(), 1);
    assert_eq!(listed[0], e1);
}

#[test]
fn many_adds_keep_order_and_unique_ids() {
    let mut c = Collection::new();
    let mut ids: Vec<String> = Vec::new();
    for i in 0..20u64 {
        let e = c.add_at(format!("http://{}.gif", i), vec![], i);
        ids.push(e.id);
    }
    let listed = c.list();
    assert_eq!(listed.len(), 20);
    for i in 0..20usize {
        // newest first: the last add lists first
        assert_eq!(listed[i].url, format!("http://{}.gif", 19 - i));
    }
    for a in 0..ids.len() {
        for b in (a + 1)..ids.len() {
            assert_ne!(ids[a], ids[b]);
        }
    }
}

#[test]
fn from_entries_rejects_duplicate_ids() {
    let e1 = Entry { id: s("dup"), url: s("u1"), tags: vec![], created_at: 1 };
    let e2 = Entry { id: s("dup"), url: s("u2"), tags: vec![], created_at: 2 };
    assert!(Collection::from_entries(vec![e1, e2]).is_none());
}

#[test]
fn from_entries_sets_counter_above_hex_ids() {
    let e1 = Entry { id: s("5"), url: s("u1"), tags: vec![], created_at: 1 };
    let e2 = Entry { id: s("zz"), url: s("u2"), tags: vec![], created_at: 2 };
    let mut c = Collection::from_entries(vec![e1, e2]).unwrap();
    let e3 = c.add_at(s("u3"), vec![], 3);
    assert_eq!(e3.id, "6");
    assert_eq!(c.list().len(), 3);
}

#[test]
fn load_text_bad_input_yields_empty() {
    assert!(Collection::load_text("").list().is_empty());
    assert!(Collection::load_text("garbage").list().is_empty());
    assert!(Collection::load_text("{\"gifs\": []}").list().is_empty());
}

#[test]
fn uuid_simple_is_lowercase_hex() {
    let id = gifwat::clock::uuid_simple();
    assert!(!id.is_empty());
    for ch in id.chars() {
        assert!(ch.is_ascii_hexdigit() && !ch.is_ascii_uppercase());
    }
    if id.len() > 1 {
        assert!(!id.starts_with('0'));
    }
}

#[test]
fn digit_strings_render_and_read() {
    assert_eq!(gifwat::digits::hex_u128(0), "0");
    assert_eq!(gifwat::digits::hex_u128(255), "ff");
    assert_eq!(gifwat::digits::hex_u128(0xdead_beef), "deadbeef");
    assert_eq!(gifwat::digits::dec_u64(0), "0");
    assert_eq!(gifwat::digits::dec_u64(12345), "12345");
    assert_eq!(gifwat::digits::dec_u64(u64::MAX), "18446744073709551615");
    assert!(matches!(gifwat::digits::parse_hex_u128("ff"), HexParse::Value(255)));
    assert!(matches!(gifwat::digits::parse_hex_u128("0"), HexParse::Value(0)));
    assert!(matches!(gifwat::digits::parse_hex_u128(""), HexParse::NotHex));
    assert!(matches!(gifwat::digits::parse_hex_u128("0f"), HexParse::NotHex));
    assert!(matches!(gifwat::digits::parse_hex_u128("xyz"), HexParse::NotHex));
    assert!(matches!(
        gifwat::digits::parse_hex_u128("ffffffffffffffffffffffffffffffff"),
        HexParse::Value(u128::MAX)
    ));
    assert!(matches!(
        gifwat::digits::parse_hex_u128("1ffffffffffffffffffffffffffffffff"),
        HexParse::TooBig
    ));
}
