//! Rendering the collection into its persisted text form.

use crate::codec::{
    enc_doc, enc_entry, enc_items, enc_str, enc_tag_items, enc_tags, esc, esc_char, lit_close,
    lit_comma_sp, lit_created, lit_empty_close, lit_header, lit_id, lit_item_sep, lit_nl4,
    lit_tags, lit_url,
};
use crate::digits::digit_char_of;
use crate::entry::Entry;
use crate::strutil::push_char;
use vstd::prelude::*;

verus! {

/// Escaping distributes over concatenation.
proof fn lemma_esc_append(a: Seq<char>, b: Seq<char>)
    ensures
        esc(a + b) == esc(a) + esc(b),
    decreases a.len(),
{
    if a.len() == 0 {
        assert(a + b =~= b);
        assert(esc(a) + esc(b) =~= esc(b));
    } else {
        assert((a + b).len() > 0);
        assert((a + b)[0] == a[0]);
        assert((a + b).skip(1) =~= a.skip(1) + b);
        lemma_esc_append(a.skip(1), b);
        assert(esc_char(a[0]) + (esc(a.skip(1)) + esc(b)) =~= (esc_char(a[0]) + esc(a.skip(1)))
            + esc(b));
    }
}

/// Escaping one character more extends the escaped prefix.
proof fn lemma_esc_snoc(s: Seq<char>, i: int)
    requires
        0 <= i < s.len(),
    ensures
        esc(s.subrange(0, i + 1)) == esc(s.subrange(0, i)) + esc_char(s[i]),
{
    assert(s.subrange(0, i + 1) =~= s.subrange(0, i) + seq![s[i]]);
    lemma_esc_append(s.subrange(0, i), seq![s[i]]);
    assert(seq![s[i]].skip(1) =~= Seq::<char>::empty());
    assert(esc(Seq::<char>::empty()) == Seq::<char>::empty());
    assert(esc(seq![s[i]]) == esc_char(s[i]) + esc(Seq::<char>::empty()));
    assert(esc(seq![s[i]]) =~= esc_char(s[i]));
}

/// One more tag item extends the rendered item list.
proof fn lemma_tag_items_snoc(u: Seq<Seq<char>>, t: Seq<char>)
    ensures
        enc_tag_items(u.push(t)) == enc_tag_items(u) + (lit_comma_sp() + enc_str(t)),
    decreases u.len(),
{
    if u.len() == 0 {
        assert(u.push(t)[0] == t);
        assert(u.push(t).skip(1) =~= Seq::<Seq<char>>::empty());
        assert(enc_tag_items(Seq::<Seq<char>>::empty()) == Seq::<char>::empty());
        assert(enc_tag_items(u.push(t)) == lit_comma_sp() + enc_str(t) + enc_tag_items(
            Seq::<Seq<char>>::empty(),
        ));
        assert(enc_tag_items(u) == Seq::<char>::empty());
        assert(enc_tag_items(u.push(t)) =~= enc_tag_items(u) + (lit_comma_sp() + enc_str(t)));
    } else {
        assert(u.push(t)[0] == u[0]);
        assert(u.push(t).skip(1) =~= u.skip(1).push(t));
        lemma_tag_items_snoc(u.skip(1), t);
        assert(lit_comma_sp() + enc_str(u[0]) + (enc_tag_items(u.skip(1)) + (lit_comma_sp()
            + enc_str(t))) =~= (lit_comma_sp() + enc_str(u[0]) + enc_tag_items(u.skip(1))) + (
        lit_comma_sp() + enc_str(t)));
    }
}

/// One more entry extends the rendered item list.
proof fn lemma_items_snoc(u: Seq<crate::entry::EntryModel>, e: crate::entry::EntryModel)
    ensures
        enc_items(u.push(e)) == enc_items(u) + (lit_item_sep() + enc_entry(e)),
    decreases u.len(),
{
    if u.len() == 0 {
        assert(u.push(e)[0] == e);
        assert(u.push(e).skip(1) =~= Seq::<crate::entry::EntryModel>::empty());
        assert(enc_items(Seq::<crate::entry::EntryModel>::empty()) == Seq::<char>::empty());
        assert(enc_items(u.push(e)) == lit_item_sep() + enc_entry(e) + enc_items(
            Seq::<crate::entry::EntryModel>::empty(),
        ));
        assert(enc_items(u) == Seq::<char>::empty());
        assert(enc_items(u.push(e)) =~= enc_items(u) + (lit_item_sep() + enc_entry(e)));
    } else {
        assert(u.push(e)[0] == u[0]);
        assert(u.push(e).skip(1) =~= u.skip(1).push(e));
        lemma_items_snoc(u.skip(1), e);
        assert(lit_item_sep() + enc_entry(u[0]) + (enc_items(u.skip(1)) + (lit_item_sep()
            + enc_entry(e))) =~= (lit_item_sep() + enc_entry(u[0]) + enc_items(u.skip(1))) + (
        lit_item_sep() + enc_entry(e)));
    }
}

/// Appends the escaped form of `s`.
fn append_escaped(out: &mut String, s: &String)
    ensures
        final(out)@ == old(out)@ + esc(s@),
{
    let n = s.as_str().unicode_len();
    let mut i: usize = 0;
    proof {
        assert(s@.subrange(0, 0) =~= Seq::<char>::empty());
        assert(out@ + esc(s@.subrange(0, 0)) =~= out@);
    }
    while i < n
        invariant
            n == s@.len(),
            0 <= i <= n,
            out@ == old(out)@ + esc(s@.subrange(0, i as int)),
        decreases n - i,
    {
        let c = s.as_str().get_char(i);
        proof {
            lemma_esc_snoc(s@, i as int);
        }
        if c == '"' {
            out.append("\\\"");
            proof {
                reveal_strlit("\\\"");
                assert(("\\\"")@ =~= esc_char('"'));
            }
        } else if c == '\\' {
            out.append("\\\\");
            proof {
                reveal_strlit("\\\\");
                assert(("\\\\")@ =~= esc_char('\\'));
            }
        } else if (c as u32) < 32 {
            let v = c as u32;
            out.append("\\u00");
            push_char(out, digit_char_of((v / 16) as u8));
            push_char(out, digit_char_of((v % 16) as u8));
            proof {
                reveal_strlit("\\u00");
                assert((("\\u00")@ + seq![
                    crate::digits::digit_char((v / 16) as int),
                    crate::digits::digit_char((v % 16) as int),
                ]) =~= esc_char(c));
                assert(out@ =~= old(out)@ + esc(s@.subrange(0, i as int)) + esc_char(c));
            }
        } else {
            push_char(out, c);
            proof {
                assert(esc_char(c) =~= seq![c]);
                assert(out@ =~= old(out)@ + esc(s@.subrange(0, i as int)) + esc_char(c));
            }
        }
        proof {
            assert(out@ =~= old(out)@ + esc(s@.subrange(0, i as int + 1)));
        }
        i += 1;
    }
    proof {
        assert(s@.subrange(0, n as int) =~= s@);
    }
}

/// Appends `s` as a quoted, escaped JSON string.
fn append_enc_str(out: &mut String, s: &String)
    ensures
        final(out)@ == old(out)@ + enc_str(s@),
{
    push_char(out, '"');
    append_escaped(out, s);
    push_char(out, '"');
    proof {
        assert(out@ =~= old(out)@ + enc_str(s@));
    }
}

/// Appends the tag list as a JSON array of strings.
fn append_tags(out: &mut String, tags: &Vec<String>)
    ensures
        final(out)@ == old(out)@ + enc_tags(tags.deep_view()),
{
    let ghost dv = tags.deep_view();
    push_char(out, '[');
    if tags.len() == 0 {
        push_char(out, ']');
        proof {
            assert(out@ =~= old(out)@ + enc_tags(dv));
        }
        return ;
    }
    append_enc_str(out, &tags[0]);
    proof {
        assert(dv[0] == tags@[0]@);
        assert(dv.subrange(1, 1) =~= Seq::<Seq<char>>::empty());
        assert(out@ =~= old(out)@ + seq!['['] + enc_str(dv[0]) + enc_tag_items(
            dv.subrange(1, 1),
        ));
    }
    let mut i: usize = 1;
    while i < tags.len()
        invariant
            dv == tags.deep_view(),
            1 <= i <= tags@.len(),
            out@ == old(out)@ + seq!['['] + enc_str(dv[0]) + enc_tag_items(
                dv.subrange(1, i as int),
            ),
        decreases tags@.len() - i,
    {
        out.append(", ");
        append_enc_str(out, &tags[i]);
        proof {
            reveal_strlit(", ");
            assert((", ")@ =~= lit_comma_sp());
            assert(dv[i as int] == tags@[i as int]@);
            assert(dv.subrange(1, i as int + 1) =~= dv.subrange(1, i as int).push(dv[i as int]));
            lemma_tag_items_snoc(dv.subrange(1, i as int), dv[i as int]);
            assert(out@ =~= old(out)@ + seq!['['] + enc_str(dv[0]) + enc_tag_items(
                dv.subrange(1, i as int + 1),
            ));
        }
        i += 1;
    }
    push_char(out, ']');
    proof {
        assert(dv.subrange(1, dv.len() as int) =~= dv.skip(1));
        assert(out@ =~= old(out)@ + enc_tags(dv));
    }
}

/// Appends one entry as a JSON object on one line.
#[verifier::rlimit(50)]
fn append_entry(out: &mut String, e: &Entry)
    ensures
        final(out)@ == old(out)@ + enc_entry(e@),
{
    out.append("{\"id\": ");
    proof {
        reveal_strlit("{\"id\": ");
        assert(("{\"id\": ")@ =~= lit_id());
    }
    append_enc_str(out, &e.id);
    out.append(", \"url\": ");
    proof {
        reveal_strlit(", \"url\": ");
        assert((", \"url\": ")@ =~= lit_url());
    }
    append_enc_str(out, &e.url);
    out.append(", \"tags\": ");
    proof {
        reveal_strlit(", \"tags\": ");
        assert((", \"tags\": ")@ =~= lit_tags());
    }
    append_tags(out, &e.tags);
    out.append(", \"created_at\": ");
    proof {
        reveal_strlit(", \"created_at\": ");
        assert((", \"created_at\": ")@ =~= lit_created());
    }
    let num = crate::digits::dec_u64(e.created_at);
    out.append(num.as_str());
    push_char(out, '}');
    proof {
        assert(out@ =~= old(out)@ + enc_entry(e@));
    }
}

/// Renders the whole collection into its persisted text form.
pub fn encode(entries: &Vec<Entry>) -> (r: String)
    ensures
        r@ == enc_doc(entries.deep_view()),
{
    let ghost dv = entries.deep_view();
    let mut out = String::new();
    out.append("{\n  \"gifs\": [");
    proof {
        reveal_strlit("{\n  \"gifs\": [");
        assert(("{\n  \"gifs\": [")@ =~= lit_header());
    }
    if entries.len() == 0 {
        out.append("]\n}");
        proof {
            reveal_strlit("]\n}");
            assert(("]\n}")@ =~= lit_empty_close());
            assert(out@ =~= enc_doc(dv));
        }
        return out;
    }
    out.append("\n    ");
    proof {
        reveal_strlit("\n    ");
        assert(("\n    ")@ =~= lit_nl4());
    }
    append_entry(&mut out, &entries[0]);
    proof {
        assert(dv[0] == entries@[0]@);
        assert(dv.subrange(1, 1) =~= Seq::<crate::entry::EntryModel>::empty());
        assert(out@ =~= lit_header() + lit_nl4() + enc_entry(dv[0]) + enc_items(
            dv.subrange(1, 1),
        ));
    }
    let mut i: usize = 1;
    while i < entries.len()
        invariant
            dv == entries.deep_view(),
            1 <= i <= entries@.len(),
            out@ == lit_header() + lit_nl4() + enc_entry(dv[0]) + enc_items(
                dv.subrange(1, i as int),
            ),
        decreases entries@.len() - i,
    {
        out.append(",\n    ");
        append_entry(&mut out, &entries[i]);
        proof {
            reveal_strlit(",\n    ");
            assert((",\n    ")@ =~= lit_item_sep());
            assert(dv[i as int] == entries@[i as int]@);
            assert(dv.subrange(1, i as int + 1) =~= dv.subrange(1, i as int).push(dv[i as int]));
            lemma_items_snoc(dv.subrange(1, i as int), dv[i as int]);
            assert(out@ =~= lit_header() + lit_nl4() + enc_entry(dv[0]) + enc_items(
                dv.subrange(1, i as int + 1),
            ));
        }
        i += 1;
    }
    out.append("\n  ]\n}");
    proof {
        reveal_strlit("\n  ]\n}");
        assert(("\n  ]\n}")@ =~= lit_close());
        assert(dv.subrange(1, dv.len() as int) =~= dv.skip(1));
        assert(out@ =~= enc_doc(dv));
    }
    out
}

} // verus!
