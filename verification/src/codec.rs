//! The persisted form of the collection: one JSON object
//! `{ "gifs": [ ... ] }`, one entry per line, newest first.
//!
//! The printer and the reader are both defined here, over sequences of
//! characters; reading back a rendered document yields exactly the entries
//! that were rendered (`lemma_round_trip`).

use crate::digits::{digit_val, digits_val, lemma_spec_digits_canon, spec_digits};
use crate::entry::EntryModel;
use vstd::arithmetic::div_mod::{lemma_fundamental_div_mod, lemma_mod_bound};
use vstd::prelude::*;

verus! {

// ---------------------------------------------------------------------
// Fixed pieces of the document.
// ---------------------------------------------------------------------
pub open spec fn lit_header() -> Seq<char> {
    seq!['{', '\n', ' ', ' ', '"', 'g', 'i', 'f', 's', '"', ':', ' ', '[']
}

pub open spec fn lit_empty_close() -> Seq<char> {
    seq![']', '\n', '}']
}

pub open spec fn lit_nl4() -> Seq<char> {
    seq!['\n', ' ', ' ', ' ', ' ']
}

pub open spec fn lit_item_sep() -> Seq<char> {
    seq![',', '\n', ' ', ' ', ' ', ' ']
}

pub open spec fn lit_close() -> Seq<char> {
    seq!['\n', ' ', ' ', ']', '\n', '}']
}

pub open spec fn lit_id() -> Seq<char> {
    seq!['{', '"', 'i', 'd', '"', ':', ' ']
}

pub open spec fn lit_url() -> Seq<char> {
    seq![',', ' ', '"', 'u', 'r', 'l', '"', ':', ' ']
}

pub open spec fn lit_tags() -> Seq<char> {
    seq![',', ' ', '"', 't', 'a', 'g', 's', '"', ':', ' ']
}

pub open spec fn lit_created() -> Seq<char> {
    seq![',', ' ', '"', 'c', 'r', 'e', 'a', 't', 'e', 'd', '_', 'a', 't', '"', ':', ' ']
}

pub open spec fn lit_comma_sp() -> Seq<char> {
    seq![',', ' ']
}

// ---------------------------------------------------------------------
// The printer.
// ---------------------------------------------------------------------
/// How one character appears inside a JSON string: quote and backslash are
/// escaped, control characters become `\u00XX`, all else stands as it is.
pub open spec fn esc_char(c: char) -> Seq<char> {
    if c == '"' {
        seq!['\\', '"']
    } else if c == '\\' {
        seq!['\\', '\\']
    } else if (c as u32) < 32 {
        seq![
            '\\',
            'u',
            '0',
            '0',
            crate::digits::digit_char((c as u32) as int / 16),
            crate::digits::digit_char((c as u32) as int % 16),
        ]
    } else {
        seq![c]
    }
}

/// A whole string escaped.
pub open spec fn esc(s: Seq<char>) -> Seq<char>
    decreases s.len(),
{
    if s.len() == 0 {
        Seq::empty()
    } else {
        esc_char(s[0]) + esc(s.skip(1))
    }
}

/// A quoted, escaped JSON string.
pub open spec fn enc_str(s: Seq<char>) -> Seq<char> {
    seq!['"'] + esc(s) + seq!['"']
}

/// The tag list items after the first: each preceded by a comma.
pub open spec fn enc_tag_items(ts: Seq<Seq<char>>) -> Seq<char>
    decreases ts.len(),
{
    if ts.len() == 0 {
        Seq::empty()
    } else {
        lit_comma_sp() + enc_str(ts[0]) + enc_tag_items(ts.skip(1))
    }
}

/// A JSON array of strings.
pub open spec fn enc_tags(ts: Seq<Seq<char>>) -> Seq<char> {
    if ts.len() == 0 {
        seq!['[', ']']
    } else {
        seq!['['] + enc_str(ts[0]) + enc_tag_items(ts.skip(1)) + seq![']']
    }
}

/// One entry as a JSON object on one line.
pub open spec fn enc_entry(e: EntryModel) -> Seq<char> {
    lit_id() + enc_str(e.id) + lit_url() + enc_str(e.url) + lit_tags() + enc_tags(e.tags)
        + lit_created() + spec_digits(10, e.created_at as nat) + seq!['}']
}

/// The entries after the first: each preceded by the item separator.
pub open spec fn enc_items(es: Seq<EntryModel>) -> Seq<char>
    decreases es.len(),
{
    if es.len() == 0 {
        Seq::empty()
    } else {
        lit_item_sep() + enc_entry(es[0]) + enc_items(es.skip(1))
    }
}

/// The whole persisted document.
pub open spec fn enc_doc(es: Seq<EntryModel>) -> Seq<char> {
    if es.len() == 0 {
        lit_header() + lit_empty_close()
    } else {
        lit_header() + lit_nl4() + enc_entry(es[0]) + enc_items(es.skip(1)) + lit_close()
    }
}

// ---------------------------------------------------------------------
// The reader.
// ---------------------------------------------------------------------
/// Expects `lit` at position `i`; the position after it, or nothing.
pub open spec fn p_lit(s: Seq<char>, i: int, lit: Seq<char>) -> Option<int> {
    if 0 <= i && i + lit.len() <= s.len() && s.subrange(i, i + lit.len()) == lit {
        Some(i + lit.len())
    } else {
        None
    }
}

/// Reads escaped string content up to and including the closing quote.
pub open spec fn p_str_body(s: Seq<char>, i: int) -> Option<(Seq<char>, int)>
    decreases s.len() - i,
{
    if i < 0 || i >= s.len() {
        None
    } else if s[i] == '"' {
        Some((Seq::empty(), i + 1))
    } else if s[i] == '\\' {
        if i + 1 >= s.len() {
            None
        } else {
            let c = s[i + 1];
            if c == '"' || c == '\\' {
                match p_str_body(s, i + 2) {
                    Some((t, j)) => Some((seq![c] + t, j)),
                    None => None,
                }
            } else if c == 'u' {
                if i + 5 >= s.len() {
                    None
                } else {
                    let h = digit_val(s[i + 4]);
                    let l = digit_val(s[i + 5]);
                    if s[i + 2] == '0' && s[i + 3] == '0' && 0 <= h < 16 && 0 <= l < 16 && h * 16
                        + l < 32 {
                        match p_str_body(s, i + 6) {
                            Some((t, j)) => Some((seq![((h * 16 + l) as u8) as char] + t, j)),
                            None => None,
                        }
                    } else {
                        None
                    }
                }
            } else {
                None
            }
        }
    } else if (s[i] as u32) < 32 {
        None
    } else {
        match p_str_body(s, i + 1) {
            Some((t, j)) => Some((seq![s[i]] + t, j)),
            None => None,
        }
    }
}

/// Reads a quoted JSON string.
pub open spec fn p_str(s: Seq<char>, i: int) -> Option<(Seq<char>, int)> {
    if 0 <= i && i < s.len() && s[i] == '"' {
        p_str_body(s, i + 1)
    } else {
        None
    }
}

/// The number of consecutive decimal digits at position `i`.
pub open spec fn digits_run(s: Seq<char>, i: int) -> int
    decreases s.len() - i,
{
    if i < 0 || i >= s.len() {
        0
    } else if 0 <= digit_val(s[i]) < 10 {
        1 + digits_run(s, i + 1)
    } else {
        0
    }
}

/// A digit run never has negative length.
pub proof fn lemma_digits_run_nonneg(s: Seq<char>, i: int)
    ensures
        digits_run(s, i) >= 0,
    decreases s.len() - i,
{
    if !(i < 0 || i >= s.len()) && 0 <= digit_val(s[i]) < 10 {
        lemma_digits_run_nonneg(s, i + 1);
    }
}

/// Reads a decimal number: the maximal digit run and its value.
pub open spec fn p_num(s: Seq<char>, i: int) -> Option<(int, int)> {
    let r = digits_run(s, i);
    if r == 0 {
        None
    } else {
        Some((digits_val(10, s.subrange(i, i + r)), i + r))
    }
}

/// Reads the tag strings after the first, up to and including `]`.
pub open spec fn p_tags_rest(s: Seq<char>, i: int) -> Option<(Seq<Seq<char>>, int)>
    decreases s.len() - i,
{
    if i < 0 || i > s.len() {
        None
    } else if p_lit(s, i, seq![']']) is Some {
        Some((Seq::empty(), i + 1))
    } else {
        match p_lit(s, i, lit_comma_sp()) {
            None => None,
            Some(j) => match p_str(s, j) {
                None => None,
                Some((t, j2)) => if i < j2 <= s.len() {
                    match p_tags_rest(s, j2) {
                        Some((ts, j3)) => Some((seq![t] + ts, j3)),
                        None => None,
                    }
                } else {
                    None
                },
            },
        }
    }
}

/// Reads a JSON array of strings.
pub open spec fn p_tags(s: Seq<char>, i: int) -> Option<(Seq<Seq<char>>, int)> {
    match p_lit(s, i, seq!['[']) {
        None => None,
        Some(j) => {
            if p_lit(s, j, seq![']']) is Some {
                Some((Seq::empty(), j + 1))
            } else {
                match p_str(s, j) {
                    None => None,
                    Some((t, j2)) => if j < j2 <= s.len() {
                        match p_tags_rest(s, j2) {
                            Some((ts, j3)) => Some((seq![t] + ts, j3)),
                            None => None,
                        }
                    } else {
                        None
                    },
                }
            }
        },
    }
}

/// Reads one entry object.
pub open spec fn p_entry(s: Seq<char>, i: int) -> Option<(EntryModel, int)> {
    match p_lit(s, i, lit_id()) {
        None => None,
        Some(j1) => match p_str(s, j1) {
            None => None,
            Some((id, j2)) => match p_lit(s, j2, lit_url()) {
                None => None,
                Some(j3) => match p_str(s, j3) {
                    None => None,
                    Some((url, j4)) => match p_lit(s, j4, lit_tags()) {
                        None => None,
                        Some(j5) => match p_tags(s, j5) {
                            None => None,
                            Some((tags, j6)) => match p_lit(s, j6, lit_created()) {
                                None => None,
                                Some(j7) => match p_num(s, j7) {
                                    None => None,
                                    Some((nv, j8)) => if 0 <= nv <= u64::MAX {
                                        match p_lit(s, j8, seq!['}']) {
                                            None => None,
                                            Some(j9) => Some(
                                                (
                                                    EntryModel {
                                                        id,
                                                        url,
                                                        tags,
                                                        created_at: nv as u64,
                                                    },
                                                    j9,
                                                ),
                                            ),
                                        }
                                    } else {
                                        None
                                    },
                                },
                            },
                        },
                    },
                },
            },
        },
    }
}

/// Reads the entries after the first, up to and including the closing of
/// the document.
pub open spec fn p_entries_rest(s: Seq<char>, i: int) -> Option<(Seq<EntryModel>, int)>
    decreases s.len() - i,
{
    if i < 0 || i > s.len() {
        None
    } else if p_lit(s, i, lit_close()) is Some {
        Some((Seq::empty(), i + lit_close().len()))
    } else {
        match p_lit(s, i, lit_item_sep()) {
            None => None,
            Some(j) => match p_entry(s, j) {
                None => None,
                Some((e, j2)) => if i < j2 <= s.len() {
                    match p_entries_rest(s, j2) {
                        Some((es, j3)) => Some((seq![e] + es, j3)),
                        None => None,
                    }
                } else {
                    None
                },
            },
        }
    }
}

/// Reads a whole persisted document; the entire input must be consumed.
pub open spec fn p_doc(s: Seq<char>) -> Option<Seq<EntryModel>> {
    match p_lit(s, 0, lit_header()) {
        None => None,
        Some(j) => {
            match p_lit(s, j, lit_empty_close()) {
                Some(j2) => if j2 == s.len() {
                    Some(Seq::empty())
                } else {
                    None
                },
                None => match p_lit(s, j, lit_nl4()) {
                    None => None,
                    Some(j2) => match p_entry(s, j2) {
                        None => None,
                        Some((e, j3)) => match p_entries_rest(s, j3) {
                            None => None,
                            Some((es, j4)) => if j4 == s.len() {
                                Some(seq![e] + es)
                            } else {
                                None
                            },
                        },
                    },
                },
            }
        },
    }
}

// ---------------------------------------------------------------------
// Reading back what was printed.
// ---------------------------------------------------------------------
/// A part planted inside a planted whole is itself planted.
pub proof fn lemma_subrange_chunk(s: Seq<char>, i: int, whole: Seq<char>, off: int, part: Seq<char>)
    requires
        0 <= i,
        i + whole.len() <= s.len(),
        s.subrange(i, i + whole.len()) == whole,
        0 <= off,
        off + part.len() <= whole.len(),
        whole.subrange(off, off + part.len()) == part,
    ensures
        s.subrange(i + off, i + off + part.len()) == part,
        forall|m: int| 0 <= m < part.len() ==> s[i + off + m] == part[m],
{
    assert forall|m: int| 0 <= m < part.len() implies s[i + off + m] == part[m] by {
        assert(s.subrange(i, i + whole.len())[off + m] == s[i + off + m]);
        assert(whole.subrange(off, off + part.len())[m] == whole[off + m]);
    }
    assert(s.subrange(i + off, i + off + part.len()) =~= part);
}

/// A planted literal is read as itself.
pub proof fn lemma_lit_round(s: Seq<char>, i: int, lit: Seq<char>)
    requires
        0 <= i,
        i + lit.len() <= s.len(),
        s.subrange(i, i + lit.len()) == lit,
    ensures
        p_lit(s, i, lit) == Some(i + lit.len()),
{
}

/// A control character survives the trip through its two-digit code.
pub proof fn lemma_low_char_round(c: char)
    requires
        (c as u32) < 32,
    ensures
        ((((c as u32) as int) as u8) as char) == c,
{
}

/// A planted escaped string body followed by its closing quote is read
/// back as the original string.
pub proof fn lemma_str_body_round(s: Seq<char>, i: int, v: Seq<char>)
    requires
        0 <= i,
        i + esc(v).len() < s.len(),
        s.subrange(i, i + esc(v).len()) == esc(v),
        s[i + esc(v).len()] == '"',
    ensures
        p_str_body(s, i) == Some((v, i + esc(v).len() + 1)),
    decreases v.len(),
{
    if v.len() == 0 {
        assert(esc(v) =~= Seq::<char>::empty());
        assert(s[i] == '"');
    } else {
        let c = v[0];
        let v1 = v.skip(1);
        assert(esc(v) == esc_char(c) + esc(v1));
        let ec = esc_char(c);
        let k = i + ec.len();
        assert(esc(v).subrange(0, ec.len() as int) =~= ec);
        lemma_subrange_chunk(s, i, esc(v), 0, ec);
        assert(esc(v).subrange(ec.len() as int, ec.len() + esc(v1).len() as int) =~= esc(v1));
        lemma_subrange_chunk(s, i, esc(v), ec.len() as int, esc(v1));
        assert(i + esc(v).len() == k + esc(v1).len());
        assert(s.subrange(i, i + ec.len() as int) == ec);
        assert forall|m: int| 0 <= m < ec.len() implies s[i + m] == ec[m] by {
            assert(s.subrange(i, i + ec.len() as int)[m] == s[i + m]);
        }
        lemma_str_body_round(s, k, v1);
        assert(seq![c] + v1 =~= v);
        if c == '"' || c == '\\' {
            assert(ec == seq!['\\', c]);
            assert(s[i] == '\\');
            assert(s[i + 1] == c);
            assert(p_str_body(s, i) == Some((seq![c] + v1, k + esc(v1).len() + 1)));
        } else if (c as u32) < 32 {
            let cv = (c as u32) as int;
            assert(ec == seq![
                '\\',
                'u',
                '0',
                '0',
                crate::digits::digit_char(cv / 16),
                crate::digits::digit_char(cv % 16),
            ]);
            assert(s[i] == '\\');
            assert(s[i + 1] == 'u');
            assert(s[i + 2] == '0');
            assert(s[i + 3] == '0');
            lemma_fundamental_div_mod(cv, 16);
            lemma_mod_bound(cv, 16);
            let h = digit_val(s[i + 4]);
            let l = digit_val(s[i + 5]);
            assert(h == cv / 16);
            assert(l == cv % 16);
            assert(h * 16 + l == cv) by {
                assert(cv == 16 * (cv / 16) + cv % 16);
                assert(16 * (cv / 16) == (cv / 16) * 16) by (nonlinear_arith);
            }
            lemma_low_char_round(c);
            assert(((cv as u8) as char) == c);
            assert(p_str_body(s, i) == Some((seq![c] + v1, k + esc(v1).len() + 1)));
        } else {
            assert(ec == seq![c]);
            assert(s[i] == c);
            assert(s[i] != '"' && s[i] != '\\' && !((s[i] as u32) < 32));
            assert(p_str_body(s, i) == Some((seq![c] + v1, k + esc(v1).len() + 1)));
        }
    }
}

/// A planted quoted string is read back as the original string.
pub proof fn lemma_str_round(s: Seq<char>, i: int, v: Seq<char>)
    requires
        0 <= i,
        i + enc_str(v).len() <= s.len(),
        s.subrange(i, i + enc_str(v).len()) == enc_str(v),
    ensures
        p_str(s, i) == Some((v, i + enc_str(v).len())),
{
    let w = enc_str(v);
    assert(w.len() == esc(v).len() + 2);
    assert(w.subrange(0, 1) =~= seq!['"']);
    lemma_subrange_chunk(s, i, w, 0, seq!['"']);
    assert(s.subrange(i, i + 1)[0] == s[i]);
    assert(s[i] == '"');
    assert(w.subrange(1, 1 + esc(v).len() as int) =~= esc(v));
    lemma_subrange_chunk(s, i, w, 1, esc(v));
    assert(w.subrange(1 + esc(v).len() as int, 2 + esc(v).len() as int) =~= seq!['"']);
    lemma_subrange_chunk(s, i, w, 1 + esc(v).len() as int, seq!['"']);
    assert(s.subrange(i + 1 + esc(v).len() as int, i + 2 + esc(v).len() as int)[0] == s[i + 1
        + esc(v).len()]);
    assert(s[i + 1 + esc(v).len()] == '"');
    lemma_str_body_round(s, i + 1, v);
}

/// The run of planted digits ends exactly where a non-digit follows.
pub proof fn lemma_digits_run_exact(s: Seq<char>, i: int, l: int)
    requires
        0 <= i,
        0 <= l,
        i + l <= s.len(),
        forall|m: int| i <= m < i + l ==> 0 <= #[trigger] digit_val(s[m]) < 10,
        i + l == s.len() || !(0 <= digit_val(s[i + l]) < 10),
    ensures
        digits_run(s, i) == l,
    decreases l,
{
    if l == 0 {
    } else {
        assert(0 <= digit_val(s[i]) < 10);
        lemma_digits_run_exact(s, i + 1, l - 1);
    }
}

/// A planted decimal rendering followed by a non-digit is read back as the
/// original number.
pub proof fn lemma_num_round(s: Seq<char>, i: int, n: u64)
    requires
        0 <= i,
        i + spec_digits(10, n as nat).len() <= s.len(),
        s.subrange(i, i + spec_digits(10, n as nat).len()) == spec_digits(10, n as nat),
        i + spec_digits(10, n as nat).len() == s.len() || !(0 <= digit_val(
            s[i + spec_digits(10, n as nat).len()],
        ) < 10),
    ensures
        p_num(s, i) == Some((n as int, i + spec_digits(10, n as nat).len())),
{
    lemma_spec_digits_canon(10, n as nat);
    let d = spec_digits(10, n as nat);
    assert forall|m: int| i <= m < i + d.len() implies 0 <= #[trigger] digit_val(s[m]) < 10 by {
        assert(s.subrange(i, i + d.len())[m - i] == s[m]);
        assert(0 <= digit_val(d[m - i]) < 10);
    }
    lemma_digits_run_exact(s, i, d.len() as int);
    assert(s.subrange(i, i + d.len()) == d);
}

/// A planted tag-item list is read back as the original tags.
pub proof fn lemma_tag_items_round(s: Seq<char>, i: int, ts: Seq<Seq<char>>)
    requires
        0 <= i,
        i + enc_tag_items(ts).len() + 1 <= s.len(),
        s.subrange(i, i + enc_tag_items(ts).len() + 1) == enc_tag_items(ts) + seq![']'],
    ensures
        p_tags_rest(s, i) == Some((ts, i + enc_tag_items(ts).len() + 1)),
    decreases ts.len(),
{
    let w = enc_tag_items(ts) + seq![']'];
    if ts.len() == 0 {
        assert(enc_tag_items(ts) =~= Seq::<char>::empty());
        assert(w =~= seq![']']);
        assert(w.subrange(0, 1) =~= seq![']']);
        lemma_subrange_chunk(s, i, w, 0, seq![']']);
        assert(s.subrange(i, i + 1) =~= seq![']']);
        assert(p_lit(s, i, seq![']']) is Some);
    } else {
        let t0 = ts[0];
        let ts1 = ts.skip(1);
        assert(enc_tag_items(ts) == lit_comma_sp() + enc_str(t0) + enc_tag_items(ts1));
        let o1 = lit_comma_sp().len() as int;
        let o2 = o1 + enc_str(t0).len();
        assert(w.subrange(0, o1) =~= lit_comma_sp());
        lemma_subrange_chunk(s, i, w, 0, lit_comma_sp());
        assert(w.subrange(o1, o2) =~= enc_str(t0));
        lemma_subrange_chunk(s, i, w, o1, enc_str(t0));
        assert(w.subrange(o2, o2 + enc_tag_items(ts1).len() + 1) =~= enc_tag_items(ts1)
            + seq![']']);
        lemma_subrange_chunk(s, i, w, o2, enc_tag_items(ts1) + seq![']']);
        // not the closing bracket: the first character is a comma
        assert(s.subrange(i, i + o1)[0] == s[i]);
        assert(s[i] == ',');
        if p_lit(s, i, seq![']']) is Some {
            assert(s.subrange(i, i + 1)[0] == ']');
            assert(false);
        }
        assert(s.subrange(i, i + o1) =~= lit_comma_sp());
        lemma_lit_round(s, i, lit_comma_sp());
        lemma_str_round(s, i + o1, t0);
        lemma_tag_items_round(s, i + o2, ts1);
        assert(seq![t0] + ts1 =~= ts);
    }
}

/// A planted tag array is read back as the original tags.
pub proof fn lemma_tags_round(s: Seq<char>, i: int, ts: Seq<Seq<char>>)
    requires
        0 <= i,
        i + enc_tags(ts).len() <= s.len(),
        s.subrange(i, i + enc_tags(ts).len()) == enc_tags(ts),
    ensures
        p_tags(s, i) == Some((ts, i + enc_tags(ts).len())),
{
    let w = enc_tags(ts);
    assert(w.subrange(0, 1) =~= seq!['[']);
    lemma_subrange_chunk(s, i, w, 0, seq!['[']);
    assert(s.subrange(i, i + 1) =~= seq!['[']);
    lemma_lit_round(s, i, seq!['[']);
    if ts.len() == 0 {
        assert(w.subrange(1, 2) =~= seq![']']);
        lemma_subrange_chunk(s, i, w, 1, seq![']']);
        assert(s.subrange(i + 1, i + 2) =~= seq![']']);
        assert(p_lit(s, i + 1, seq![']']) is Some);
    } else {
        let t0 = ts[0];
        let ts1 = ts.skip(1);
        assert(w == seq!['['] + enc_str(t0) + enc_tag_items(ts1) + seq![']']);
        let o1: int = 1 + enc_str(t0).len() as int;
        assert(w.subrange(1, o1) =~= enc_str(t0));
        lemma_subrange_chunk(s, i, w, 1, enc_str(t0));
        assert(w.subrange(o1, o1 + enc_tag_items(ts1).len() + 1) =~= enc_tag_items(ts1)
            + seq![']']);
        lemma_subrange_chunk(s, i, w, o1, enc_tag_items(ts1) + seq![']']);
        assert(enc_str(t0)[0] == '"');
        assert(s.subrange(i + 1, i + o1)[0] == s[i + 1]);
        assert(s[i + 1] == '"');
        if p_lit(s, i + 1, seq![']']) is Some {
            assert(s.subrange(i + 1, i + 2)[0] == ']');
            assert(false);
        }
        lemma_str_round(s, i + 1, t0);
        lemma_tag_items_round(s, i + o1, ts1);
        assert(seq![t0] + ts1 =~= ts);
    }
}

/// A planted entry object is read back as the original entry.
#[verifier::rlimit(50)]
pub proof fn lemma_entry_round(s: Seq<char>, i: int, e: EntryModel)
    requires
        0 <= i,
        i + enc_entry(e).len() <= s.len(),
        s.subrange(i, i + enc_entry(e).len()) == enc_entry(e),
    ensures
        p_entry(s, i) == Some((e, i + enc_entry(e).len())),
{
    let w = enc_entry(e);
    let d = spec_digits(10, e.created_at as nat);
    let a1 = lit_id();
    let q1 = enc_str(e.id);
    let a2 = lit_url();
    let q2 = enc_str(e.url);
    let a3 = lit_tags();
    let tg = enc_tags(e.tags);
    let a4 = lit_created();
    let o1 = a1.len() as int;
    let o2 = o1 + q1.len();
    let o3 = o2 + a2.len();
    let o4 = o3 + q2.len();
    let o5 = o4 + a3.len();
    let o6 = o5 + tg.len();
    let o7 = o6 + a4.len();
    let o8 = o7 + d.len();
    let o9 = o8 + 1;
    assert(w.len() == o9);
    assert(w.subrange(0, o1) =~= a1);
    lemma_subrange_chunk(s, i, w, 0, a1);
    lemma_lit_round(s, i, a1);
    assert(w.subrange(o1, o2) =~= q1);
    lemma_subrange_chunk(s, i, w, o1, q1);
    lemma_str_round(s, i + o1, e.id);
    assert(w.subrange(o2, o3) =~= a2);
    lemma_subrange_chunk(s, i, w, o2, a2);
    lemma_lit_round(s, i + o2, a2);
    assert(w.subrange(o3, o4) =~= q2);
    lemma_subrange_chunk(s, i, w, o3, q2);
    lemma_str_round(s, i + o3, e.url);
    assert(w.subrange(o4, o5) =~= a3);
    lemma_subrange_chunk(s, i, w, o4, a3);
    lemma_lit_round(s, i + o4, a3);
    assert(w.subrange(o5, o6) =~= tg);
    lemma_subrange_chunk(s, i, w, o5, tg);
    lemma_tags_round(s, i + o5, e.tags);
    assert(w.subrange(o6, o7) =~= a4);
    lemma_subrange_chunk(s, i, w, o6, a4);
    lemma_lit_round(s, i + o6, a4);
    assert(w.subrange(o7, o8) =~= d);
    assert(w.subrange(o8, o9) =~= seq!['}']);
    lemma_subrange_chunk(s, i, w, o7, d);
    lemma_subrange_chunk(s, i, w, o8, seq!['}']);
    assert(s.subrange(i + o8, i + o9)[0] == s[i + o8]);
    assert(s[i + o8] == '}');
    assert(digit_val('}') == -1);
    lemma_num_round(s, i + o7, e.created_at);
    lemma_lit_round(s, i + o8, seq!['}']);
    assert(s.subrange(i + o8, i + o8 + 1) =~= seq!['}']);
    assert(p_entry(s, i) == Some((EntryModel { id: e.id, url: e.url, tags: e.tags, created_at: e.created_at }, i + o9)));
    assert(EntryModel { id: e.id, url: e.url, tags: e.tags, created_at: e.created_at } =~= e);
}

/// A planted item list with the document closing is read back as the
/// original entries.
#[verifier::rlimit(50)]
pub proof fn lemma_items_round(s: Seq<char>, i: int, es: Seq<EntryModel>)
    requires
        0 <= i,
        i + enc_items(es).len() + lit_close().len() <= s.len(),
        s.subrange(i, i + enc_items(es).len() + lit_close().len()) == enc_items(es) + lit_close(),
    ensures
        p_entries_rest(s, i) == Some((es, i + enc_items(es).len() + lit_close().len())),
    decreases es.len(),
{
    let w = enc_items(es) + lit_close();
    if es.len() == 0 {
        assert(enc_items(es) =~= Seq::<char>::empty());
        assert(w =~= lit_close());
        assert(w.subrange(0, lit_close().len() as int) =~= lit_close());
        lemma_subrange_chunk(s, i, w, 0, lit_close());
        assert(s.subrange(i, i + lit_close().len()) =~= lit_close());
        assert(p_lit(s, i, lit_close()) is Some);
    } else {
        let e0 = es[0];
        let es1 = es.skip(1);
        assert(enc_items(es) == lit_item_sep() + enc_entry(e0) + enc_items(es1));
        let o1 = lit_item_sep().len() as int;
        let o2 = o1 + enc_entry(e0).len();
        assert(w.subrange(0, o1) =~= lit_item_sep());
        lemma_subrange_chunk(s, i, w, 0, lit_item_sep());
        assert(w.subrange(o1, o2) =~= enc_entry(e0));
        lemma_subrange_chunk(s, i, w, o1, enc_entry(e0));
        assert(w.subrange(o2, o2 + enc_items(es1).len() + lit_close().len()) =~= enc_items(es1)
            + lit_close());
        lemma_subrange_chunk(s, i, w, o2, enc_items(es1) + lit_close());
        assert(s.subrange(i, i + o1)[0] == s[i]);
        assert(s[i] == ',');
        if p_lit(s, i, lit_close()) is Some {
            assert(s.subrange(i, i + lit_close().len())[0] == '\n');
            assert(false);
        }
        assert(s.subrange(i, i + o1) =~= lit_item_sep());
        lemma_lit_round(s, i, lit_item_sep());
        lemma_entry_round(s, i + o1, e0);
        lemma_items_round(s, i + o2, es1);
        assert(seq![e0] + es1 =~= es);
    }
}

/// How a rendered nonempty document splits into its pieces.
#[verifier::rlimit(100)]
proof fn lemma_doc_split(es: Seq<EntryModel>)
    requires
        es.len() > 0,
    ensures
        ({
            let s = enc_doc(es);
            let hl = lit_header().len() as int;
            let o1 = hl + lit_nl4().len();
            let o2 = o1 + enc_entry(es[0]).len();
            &&& s.len() == o2 + enc_items(es.skip(1)).len() + lit_close().len()
            &&& s.subrange(0, hl) == lit_header()
            &&& s.subrange(hl, o1) == lit_nl4()
            &&& s.subrange(o1, o2) == enc_entry(es[0])
            &&& s.subrange(o2, s.len() as int) == enc_items(es.skip(1)) + lit_close()
            &&& s[hl] == '\n'
        }),
{
    let s = enc_doc(es);
    let hl = lit_header().len() as int;
    let o1 = hl + lit_nl4().len();
    let o2 = o1 + enc_entry(es[0]).len();
    assert(s == lit_header() + lit_nl4() + enc_entry(es[0]) + enc_items(es.skip(1))
        + lit_close());
    assert(s.subrange(0, hl) =~= lit_header());
    assert(s.subrange(hl, o1) =~= lit_nl4());
    assert(s.subrange(o1, o2) =~= enc_entry(es[0]));
    assert(s.subrange(o2, s.len() as int) =~= enc_items(es.skip(1)) + lit_close());
    assert(s.subrange(hl, o1)[0] == s[hl]);
}

/// Reading back a rendered nonempty document yields the rendered entries.
#[verifier::rlimit(100)]
proof fn lemma_round_trip_nonempty(es: Seq<EntryModel>)
    requires
        es.len() > 0,
    ensures
        p_doc(enc_doc(es)) == Some(es),
{
    let s = enc_doc(es);
    let hl = lit_header().len() as int;
    let e0 = es[0];
    let es1 = es.skip(1);
    lemma_doc_split(es);
    let o1 = hl + lit_nl4().len();
    let o2 = o1 + enc_entry(e0).len();
    lemma_lit_round(s, 0, lit_header());
    if p_lit(s, hl, lit_empty_close()) is Some {
        assert(s.subrange(hl, hl + lit_empty_close().len())[0] == s[hl]);
        assert(false);
    }
    lemma_lit_round(s, hl, lit_nl4());
    lemma_entry_round(s, o1, e0);
    lemma_items_round(s, o2, es1);
    assert(seq![e0] + es1 =~= es);
}

/// Reading back a rendered document yields exactly the rendered entries.
#[verifier::rlimit(100)]
pub proof fn lemma_round_trip(es: Seq<EntryModel>)
    ensures
        p_doc(enc_doc(es)) == Some(es),
{
    let s = enc_doc(es);
    let hl = lit_header().len() as int;
    if es.len() == 0 {
        assert(s == lit_header() + lit_empty_close());
        assert(s.subrange(0, hl) =~= lit_header());
        lemma_lit_round(s, 0, lit_header());
        assert(s.subrange(hl, hl + lit_empty_close().len()) =~= lit_empty_close());
        lemma_lit_round(s, hl, lit_empty_close());
        assert(hl + lit_empty_close().len() == s.len());
    } else {
        lemma_round_trip_nonempty(es);
    }
}

} // verus!
