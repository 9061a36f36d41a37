//! Reading the persisted text form back into entries.

use crate::codec::{
    digits_run, lit_close, lit_comma_sp, lit_created, lit_empty_close, lit_header, lit_id,
    lit_item_sep, lit_nl4, lit_tags, lit_url, p_doc, p_entries_rest, p_entry, p_lit, p_num, p_str,
    p_str_body, p_tags, p_tags_rest,
};
use crate::digits::{digit_val, digit_val_of, digits_val, lemma_digits_val_prefix};
use crate::entry::{Entry, EntryModel};
use crate::strutil::push_char;
use vstd::arithmetic::div_mod::{lemma_fundamental_div_mod, lemma_mod_bound};
use vstd::prelude::*;

verus! {

/// String content extended at the front by already-read text.
pub open spec fn body_extend(pre: Seq<char>, r: Option<(Seq<char>, int)>) -> Option<
    (Seq<char>, int),
> {
    match r {
        Some((t, j)) => Some((pre + t, j)),
        None => None,
    }
}

/// A tag list extended at the front by already-read tags.
pub open spec fn tags_extend(pre: Seq<Seq<char>>, r: Option<(Seq<Seq<char>>, int)>) -> Option<
    (Seq<Seq<char>>, int),
> {
    match r {
        Some((ts, j)) => Some((pre + ts, j)),
        None => None,
    }
}

/// An entry list extended at the front by already-read entries.
pub open spec fn entries_extend(
    pre: Seq<EntryModel>,
    r: Option<(Seq<EntryModel>, int)>,
) -> Option<(Seq<EntryModel>, int)> {
    match r {
        Some((es, j)) => Some((pre + es, j)),
        None => None,
    }
}

/// The characters of `s`, one by one.
fn to_chars(s: &str) -> (v: Vec<char>)
    ensures
        v@ == s@,
{
    let n = s.unicode_len();
    let mut v: Vec<char> = Vec::new();
    let mut i: usize = 0;
    while i < n
        invariant
            n == s@.len(),
            0 <= i <= n,
            v@.len() == i,
            forall|m: int| 0 <= m < i ==> v@[m] == s@[m],
        decreases n - i,
    {
        v.push(s.get_char(i));
        i += 1;
    }
    proof {
        assert(v@ =~= s@);
    }
    v
}

/// Expects the literal `lit` at position `i`.
fn expect_lit(v: &Vec<char>, i: usize, lit: &str) -> (r: Option<usize>)
    ensures
        r is None <==> p_lit(v@, i as int, lit@) is None,
        r matches Some(j) ==> p_lit(v@, i as int, lit@) == Some(j as int) && i <= j <= v@.len()
            && j == i + lit@.len(),
{
    let n = lit.unicode_len();
    let vn = v.len();
    if i > vn || n > vn - i {
        return None;
    }
    let mut j: usize = 0;
    while j < n
        invariant
            n == lit@.len(),
            0 <= j <= n,
            vn == v@.len(),
            i + n <= vn,
            forall|m: int| 0 <= m < j ==> v@[i + m] == lit@[m],
        decreases n - j,
    {
        if v[i + j] != lit.get_char(j) {
            proof {
                if p_lit(v@, i as int, lit@) is Some {
                    assert(v@.subrange(i as int, i + lit@.len())[j as int] == v@[i + j]);
                    assert(false);
                }
            }
            return None;
        }
        j += 1;
    }
    proof {
        assert(v@.subrange(i as int, i + lit@.len()) =~= lit@);
    }
    Some(i + n)
}

/// Reads a quoted JSON string at position `i`.
fn parse_string(v: &Vec<char>, i: usize) -> (r: Option<(String, usize)>)
    ensures
        r is None <==> p_str(v@, i as int) is None,
        r matches Some(p) ==> p_str(v@, i as int) == Some((p.0@, p.1 as int)) && i < p.1
            <= v@.len(),
{
    if i >= v.len() || v[i] != '"' {
        return None;
    }
    let mut out = String::new();
    let mut k: usize = i + 1;
    proof {
        match p_str_body(v@, i as int + 1) {
            Some((t, j)) => {
                assert(out@ + t =~= t);
            },
            None => {},
        }
    }
    while k <= v.len()
        invariant
            i + 1 <= k,
            k <= v@.len(),
            i < v@.len(),
            v@[i as int] == '"',
            p_str_body(v@, i as int + 1) == body_extend(out@, p_str_body(v@, k as int)),
        decreases v@.len() - k,
    {
        if k >= v.len() {
            return None;
        }
        let c = v[k];
        if c == '"' {
            proof {
                assert(p_str_body(v@, k as int) == Some((Seq::<char>::empty(), k + 1)));
                assert(out@ + Seq::<char>::empty() =~= out@);
            }
            return Some((out, k + 1));
        }
        if c == '\\' {
            if v.len() - k < 2 {
                return None;
            }
            let e = v[k + 1];
            if e == '"' || e == '\\' {
                let ghost o0 = out@;
                push_char(&mut out, e);
                proof {
                    let r2 = p_str_body(v@, k as int + 2);
                    assert(p_str_body(v@, k as int) == body_extend(seq![e], r2));
                    match r2 {
                        Some((t, j)) => {
                            assert(o0 + (seq![e] + t) =~= (o0 + seq![e]) + t);
                            assert(out@ =~= o0 + seq![e]);
                        },
                        None => {},
                    }
                }
                k = k + 2;
            } else if e == 'u' {
                if v.len() - k < 6 {
                    return None;
                }
                let h = digit_val_of(v[k + 4]);
                let l = digit_val_of(v[k + 5]);
                if !(v[k + 2] == '0' && v[k + 3] == '0' && 0 <= h && h < 16 && 0 <= l && l < 16) {
                    return None;
                }
                let val: u8 = (h as u8) * 16 + (l as u8);
                if val >= 32 {
                    return None;
                }
                let c2 = val as char;
                let ghost o0 = out@;
                push_char(&mut out, c2);
                proof {
                    let r2 = p_str_body(v@, k as int + 6);
                    assert(val as int == digit_val(v@[k as int + 4]) * 16 + digit_val(
                        v@[k as int + 5],
                    ));
                    assert(p_str_body(v@, k as int) == body_extend(seq![c2], r2));
                    match r2 {
                        Some((t, j)) => {
                            assert(o0 + (seq![c2] + t) =~= (o0 + seq![c2]) + t);
                            assert(out@ =~= o0 + seq![c2]);
                        },
                        None => {},
                    }
                }
                k = k + 6;
            } else {
                return None;
            }
        } else if (c as u32) < 32 {
            return None;
        } else {
            let ghost o0 = out@;
            push_char(&mut out, c);
            proof {
                let r2 = p_str_body(v@, k as int + 1);
                assert(p_str_body(v@, k as int) == body_extend(seq![c], r2));
                match r2 {
                    Some((t, j)) => {
                        assert(o0 + (seq![c] + t) =~= (o0 + seq![c]) + t);
                        assert(out@ =~= o0 + seq![c]);
                    },
                    None => {},
                }
            }
            k = k + 1;
        }
    }
    proof {
        assert(false);
    }
    None
}

/// The end of the run of decimal digits starting at `i`.
fn scan_digits(v: &Vec<char>, i: usize) -> (j: usize)
    requires
        i <= v@.len(),
    ensures
        i <= j <= v@.len(),
        digits_run(v@, i as int) == j - i,
        forall|m: int| i <= m < j ==> 0 <= #[trigger] digit_val(v@[m]) < 10,
{
    let mut j: usize = i;
    while j < v.len()
        invariant
            i <= j <= v@.len(),
            digits_run(v@, i as int) == (j - i) + digits_run(v@, j as int),
            forall|m: int| i <= m < j ==> 0 <= #[trigger] digit_val(v@[m]) < 10,
        decreases v@.len() - j,
    {
        let d = digit_val_of(v[j]);
        if d < 0 || d > 9 {
            proof {
                assert(digits_run(v@, j as int) == 0);
            }
            return j;
        }
        proof {
            assert(digits_run(v@, j as int) == 1 + digits_run(v@, j as int + 1));
        }
        j += 1;
    }
    proof {
        assert(digits_run(v@, j as int) == 0);
    }
    j
}

/// Reads a decimal number at position `i`; numbers beyond `u64` are
/// rejected as unreadable.
fn parse_num(v: &Vec<char>, i: usize) -> (r: Option<(u64, usize)>)
    ensures
        p_num(v@, i as int) matches Some((n, j)) ==> (n <= u64::MAX ==> (r matches Some(p)
            && p.0 == n && p.1 == j)),
        r matches Some(p) ==> p_num(v@, i as int) == Some((p.0 as int, p.1 as int)) && i < p.1
            <= v@.len(),
{
    if i >= v.len() {
        return None;
    }
    let d0 = digit_val_of(v[i]);
    if d0 < 0 || d0 > 9 {
        proof {
            assert(digits_run(v@, i as int) == 0);
        }
        return None;
    }
    let j = scan_digits(v, i);
    proof {
        crate::codec::lemma_digits_run_nonneg(v@, i as int + 1);
        assert(digits_run(v@, i as int) >= 1);
        assert(v@.subrange(i as int, i as int) =~= Seq::<char>::empty());
    }
    let ghost run = v@.subrange(i as int, j as int);
    proof {
        assert forall|m: int| 0 <= m < run.len() implies 0 <= #[trigger] digit_val(run[m])
            < 10 by {
            assert(run[m] == v@[i + m]);
        }
    }
    let mut acc: u64 = 0;
    let mut k: usize = i;
    while k < j
        invariant
            i <= k <= j <= v@.len(),
            run == v@.subrange(i as int, j as int),
            forall|m: int| 0 <= m < run.len() ==> 0 <= #[trigger] digit_val(run[m]) < 10,
            forall|m: int| i <= m < j ==> 0 <= #[trigger] digit_val(v@[m]) < 10,
            digits_run(v@, i as int) == j - i,
            acc as int == digits_val(10, v@.subrange(i as int, k as int)),
        decreases j - k,
    {
        let d = digit_val_of(v[k]) as u8;
        proof {
            assert(v@.subrange(i as int, k as int + 1).drop_last() =~= v@.subrange(
                i as int,
                k as int,
            ));
            assert(v@.subrange(i as int, k as int + 1).last() == v@[k as int]);
        }
        if acc > (u64::MAX - (d as u64)) / 10 {
            proof {
                let top = u64::MAX as int;
                let q = (top - d) / 10;
                lemma_fundamental_div_mod(top - d, 10);
                lemma_mod_bound(top - d, 10);
                assert(acc as int * 10 >= (q + 1) * 10) by (nonlinear_arith)
                    requires
                        acc as int >= q + 1,
                ;
                assert(digits_val(10, v@.subrange(i as int, k as int + 1)) > top);
                assert(v@.subrange(i as int, k as int + 1) =~= run.subrange(0, k - i + 1));
                lemma_digits_val_prefix(10, run, k - i + 1);
                assert(digits_val(10, run) > top);
                assert(i + digits_run(v@, i as int) == j);
                assert(p_num(v@, i as int) == Some((digits_val(10, run), j as int)));
            }
            return None;
        }
        proof {
            let top = u64::MAX as int;
            let q = (top - d) / 10;
            lemma_fundamental_div_mod(top - d, 10);
            lemma_mod_bound(top - d, 10);
            assert(acc as int * 10 <= q * 10) by (nonlinear_arith)
                requires
                    acc as int <= q,
            ;
        }
        acc = acc * 10 + (d as u64);
        k += 1;
    }
    Some((acc, j))
}

/// Reads a JSON array of strings at position `i`.
fn parse_tags(v: &Vec<char>, i: usize) -> (r: Option<(Vec<String>, usize)>)
    ensures
        r is None <==> p_tags(v@, i as int) is None,
        r matches Some(p) ==> p_tags(v@, i as int) == Some((p.0.deep_view(), p.1 as int)) && i
            < p.1 <= v@.len(),
{
    let open = match expect_lit(v, i, "[") {
        Some(j) => j,
        None => {
            proof {
                reveal_strlit("[");
                assert(("[")@ =~= seq!['[']);
            }
            return None;
        },
    };
    proof {
        reveal_strlit("[");
        assert(("[")@ =~= seq!['[']);
    }
    let mut out: Vec<String> = Vec::new();
    match expect_lit(v, open, "]") {
        Some(j2) => {
            proof {
                reveal_strlit("]");
                assert(("]")@ =~= seq![']']);
                assert(out.deep_view() =~= Seq::<Seq<char>>::empty());
            }
            return Some((out, j2));
        },
        None => {},
    }
    proof {
        reveal_strlit("]");
        assert(("]")@ =~= seq![']']);
    }
    let first = match parse_string(v, open) {
        Some(p) => p,
        None => {
            return None;
        },
    };
    out.push(first.0);
    let mut k: usize = first.1;
    proof {
        assert(out.deep_view() =~= seq![first.0@]);
    }
    loop
        invariant
            0 <= i < k <= v@.len(),
            out.deep_view().len() >= 1,
            p_tags(v@, i as int) == tags_extend(out.deep_view(), p_tags_rest(v@, k as int)),
        decreases v@.len() - k,
    {
        match expect_lit(v, k, "]") {
            Some(j2) => {
                proof {
                    reveal_strlit("]");
                    assert(("]")@ =~= seq![']']);
                    assert(p_tags_rest(v@, k as int) == Some((Seq::<Seq<char>>::empty(), k + 1)));
                    assert(out.deep_view() + Seq::<Seq<char>>::empty() =~= out.deep_view());
                }
                return Some((out, j2));
            },
            None => {},
        }
        proof {
            reveal_strlit("]");
            assert(("]")@ =~= seq![']']);
        }
        let sep = match expect_lit(v, k, ", ") {
            Some(j2) => j2,
            None => {
                proof {
                    reveal_strlit(", ");
                    assert((", ")@ =~= lit_comma_sp());
                }
                return None;
            },
        };
        proof {
            reveal_strlit(", ");
            assert((", ")@ =~= lit_comma_sp());
        }
        let nxt = match parse_string(v, sep) {
            Some(p) => p,
            None => {
                return None;
            },
        };
        let ghost o0 = out.deep_view();
        let ghost tv = nxt.0@;
        out.push(nxt.0);
        proof {
            assert(out.deep_view() =~= o0.push(tv));
            let r2 = p_tags_rest(v@, nxt.1 as int);
            match r2 {
                Some((ts, j)) => {
                    assert(o0 + (seq![tv] + ts) =~= o0.push(tv) + ts);
                },
                None => {},
            }
            assert(p_tags_rest(v@, k as int) == tags_extend(seq![tv], r2));
        }
        k = nxt.1;
    }
}

/// Reads one entry object at position `i`.
fn parse_entry(v: &Vec<char>, i: usize) -> (r: Option<(Entry, usize)>)
    ensures
        r is None <==> p_entry(v@, i as int) is None,
        r matches Some(p) ==> p_entry(v@, i as int) == Some((p.0@, p.1 as int)) && i < p.1
            <= v@.len(),
{
    proof {
        reveal_strlit("{\"id\": ");
        assert(("{\"id\": ")@ =~= lit_id());
        reveal_strlit(", \"url\": ");
        assert((", \"url\": ")@ =~= lit_url());
        reveal_strlit(", \"tags\": ");
        assert((", \"tags\": ")@ =~= lit_tags());
        reveal_strlit(", \"created_at\": ");
        assert((", \"created_at\": ")@ =~= lit_created());
        reveal_strlit("}");
        assert(("}")@ =~= seq!['}']);
    }
    let j1 = match expect_lit(v, i, "{\"id\": ") {
        Some(j) => j,
        None => {
            return None;
        },
    };
    let (id, j2) = match parse_string(v, j1) {
        Some(p) => p,
        None => {
            return None;
        },
    };
    let j3 = match expect_lit(v, j2, ", \"url\": ") {
        Some(j) => j,
        None => {
            return None;
        },
    };
    let (url, j4) = match parse_string(v, j3) {
        Some(p) => p,
        None => {
            return None;
        },
    };
    let j5 = match expect_lit(v, j4, ", \"tags\": ") {
        Some(j) => j,
        None => {
            return None;
        },
    };
    let (tags, j6) = match parse_tags(v, j5) {
        Some(p) => p,
        None => {
            return None;
        },
    };
    let j7 = match expect_lit(v, j6, ", \"created_at\": ") {
        Some(j) => j,
        None => {
            return None;
        },
    };
    let (num, j8) = match parse_num(v, j7) {
        Some(p) => p,
        None => {
            return None;
        },
    };
    let j9 = match expect_lit(v, j8, "}") {
        Some(j) => j,
        None => {
            return None;
        },
    };
    let e = Entry { id, url, tags, created_at: num };
    proof {
        assert(e@ =~= EntryModel {
            id: e.id@,
            url: e.url@,
            tags: e.tags.deep_view(),
            created_at: num,
        });
    }
    Some((e, j9))
}

/// What the whole document read yields, given already-read entries and
/// the outcome of reading the remainder.
pub open spec fn doc_result(
    s: Seq<char>,
    pre: Seq<EntryModel>,
    r: Option<(Seq<EntryModel>, int)>,
) -> Option<Seq<EntryModel>> {
    match r {
        Some((es, j)) => if j == s.len() {
            Some(pre + es)
        } else {
            None
        },
        None => None,
    }
}

/// Reads a whole persisted document. Answers the entries exactly when the
/// text is a well-formed document, newest entry first.
#[verifier::rlimit(100)]
pub fn parse(s: &str) -> (r: Option<Vec<Entry>>)
    ensures
        r is None <==> p_doc(s@) is None,
        r matches Some(es) ==> p_doc(s@) == Some(es.deep_view()),
{
    let v = to_chars(s);
    proof {
        reveal_strlit("{\n  \"gifs\": [");
        assert(("{\n  \"gifs\": [")@ =~= lit_header());
        reveal_strlit("]\n}");
        assert(("]\n}")@ =~= lit_empty_close());
        reveal_strlit("\n    ");
        assert(("\n    ")@ =~= lit_nl4());
        reveal_strlit("\n  ]\n}");
        assert(("\n  ]\n}")@ =~= lit_close());
        reveal_strlit(",\n    ");
        assert((",\n    ")@ =~= lit_item_sep());
    }
    let h = match expect_lit(&v, 0, "{\n  \"gifs\": [") {
        Some(j) => j,
        None => {
            return None;
        },
    };
    match expect_lit(&v, h, "]\n}") {
        Some(j2) => {
            if j2 == v.len() {
                let out: Vec<Entry> = Vec::new();
                proof {
                    assert(out.deep_view() =~= Seq::<EntryModel>::empty());
                }
                return Some(out);
            } else {
                return None;
            }
        },
        None => {},
    }
    let h2 = match expect_lit(&v, h, "\n    ") {
        Some(j) => j,
        None => {
            return None;
        },
    };
    let (e0, j3) = match parse_entry(&v, h2) {
        Some(p) => p,
        None => {
            return None;
        },
    };
    let ghost e0m = e0@;
    let mut out: Vec<Entry> = Vec::new();
    out.push(e0);
    let mut k: usize = j3;
    proof {
        assert(out.deep_view() =~= seq![e0m]);
        match p_entries_rest(v@, j3 as int) {
            Some((es2, j4)) => {
                assert(seq![e0m] + es2 =~= out.deep_view() + es2);
            },
            None => {},
        }
        assert(p_doc(s@) == doc_result(s@, out.deep_view(), p_entries_rest(v@, k as int)));
    }
    loop
        invariant
            0 < k <= v@.len(),
            v@ == s@,
            p_doc(s@) == doc_result(s@, out.deep_view(), p_entries_rest(v@, k as int)),
        decreases v@.len() - k,
    {
        proof {
            reveal_strlit("\n  ]\n}");
            assert(("\n  ]\n}")@ =~= lit_close());
            reveal_strlit(",\n    ");
            assert((",\n    ")@ =~= lit_item_sep());
        }
        match expect_lit(&v, k, "\n  ]\n}") {
            Some(j2) => {
                proof {
                    assert(p_entries_rest(v@, k as int) == Some(
                        (Seq::<EntryModel>::empty(), j2 as int),
                    ));
                    assert(out.deep_view() + Seq::<EntryModel>::empty() =~= out.deep_view());
                }
                if j2 == v.len() {
                    return Some(out);
                } else {
                    return None;
                }
            },
            None => {},
        }
        let sep = match expect_lit(&v, k, ",\n    ") {
            Some(j) => j,
            None => {
                return None;
            },
        };
        let (en, j2) = match parse_entry(&v, sep) {
            Some(p) => p,
            None => {
                return None;
            },
        };
        let ghost o0 = out.deep_view();
        let ghost em = en@;
        out.push(en);
        proof {
            assert(out.deep_view() =~= o0.push(em));
            let r2 = p_entries_rest(v@, j2 as int);
            assert(p_entries_rest(v@, k as int) == entries_extend(seq![em], r2));
            match r2 {
                Some((es2, j4)) => {
                    assert(o0 + (seq![em] + es2) =~= o0.push(em) + es2);
                },
                None => {},
            }
        }
        k = j2;
    }
}

} // verus!
