//! The term extractor: the policy that turns one document's bytes into
//! its ordered list of canonical terms.

use vstd::prelude::*;

use vstd::utf8::{decode_utf8, valid_utf8};

use crate::text::{
    bytes_to_text, is_alpha, is_ascii_upper, is_white, lowercase_chars, lower_of, push_char,
};

verus! {

/// A character the filtering step keeps: alphabetic or whitespace.
pub open spec fn keep_char(c: char) -> bool {
    is_alpha(c) || is_white(c)
}

/// The text after the filtering step: only alphabetic and whitespace
/// characters remain, in their original order.
pub open spec fn filtered(s: Seq<char>) -> Seq<char> {
    s.filter(|c: char| keep_char(c))
}

/// The tokens of `s`, split on runs of whitespace: every maximal run of
/// non-whitespace characters, in order, with no empty tokens.
pub open spec fn split_ws(s: Seq<char>) -> Seq<Seq<char>>
    decreases s.len(),
{
    if s.len() == 0 {
        Seq::empty()
    } else {
        let pre = split_ws(s.drop_last());
        let c = s.last();
        if is_white(c) {
            pre
        } else if s.len() >= 2 && !is_white(s[s.len() - 2]) {
            pre.update(pre.len() - 1, pre.last().push(c))
        } else {
            pre.push(seq![c])
        }
    }
}

/// The tokens of at least two characters, in order.
pub open spec fn long_tokens(ts: Seq<Seq<char>>) -> Seq<Seq<char>> {
    ts.filter(|t: Seq<char>| t.len() >= 2)
}

/// The canonical term list of a document given as bytes: decode as UTF-8,
/// lowercase, keep only alphabetic and whitespace characters, split on
/// whitespace, drop one-character tokens.  Meaningful when
/// `valid_utf8(b)` holds.
pub open spec fn terms_of(b: Seq<u8>) -> Seq<Seq<char>> {
    long_tokens(split_ws(filtered(lower_of(decode_utf8(b)))))
}

/// Builds a `String` holding exactly the characters of `t`.
pub(crate) fn chars_to_string(t: &Vec<char>) -> (s: String)
    ensures
        s@ == t@,
{
    let mut s = String::new();
    let mut i: usize = 0;
    proof {
        assert(t@.take(0) =~= Seq::<char>::empty());
    }
    while i < t.len()
        invariant
            i <= t.len(),
            s@ == t@.take(i as int),
        decreases t.len() - i,
    {
        push_char(&mut s, t[i]);
        proof {
            assert(t@.take(i as int + 1) =~= t@.take(i as int).push(t@[i as int]));
        }
        i = i + 1;
    }
    proof {
        assert(t@.take(t@.len() as int) =~= t@);
    }
    s
}

/// Splits `cs` on whitespace runs into its maximal non-whitespace tokens.
pub(crate) fn split_tokens(cs: &Vec<char>) -> (r: Vec<Vec<char>>)
    ensures
        r.deep_view() == split_ws(cs@),
{
    let mut r: Vec<Vec<char>> = Vec::new();
    let mut cur: Vec<char> = Vec::new();
    let mut i: usize = 0;
    proof {
        assert(cs@.take(0) =~= Seq::<char>::empty());
        assert(r.deep_view() =~~= split_ws(cs@.take(0)));
    }
    while i < cs.len()
        invariant
            i <= cs.len(),
            cur@.len() == 0 ==> r.deep_view() == split_ws(cs@.take(i as int)) && (i == 0
                || is_white(cs@[i as int - 1])),
            cur@.len() > 0 ==> split_ws(cs@.take(i as int)) == r.deep_view().push(cur@) && i > 0
                && !is_white(cs@[i as int - 1]),
        decreases cs.len() - i,
    {
        let c = cs[i];
        proof {
            assert(cs@.take(i as int + 1).drop_last() =~= cs@.take(i as int));
            assert(cs@.take(i as int + 1).last() == cs@[i as int]);
        }
        if c.is_whitespace() {
            if cur.len() > 0 {
                let ghost old_r = r.deep_view();
                let ghost t = cur@;
                r.push(cur);
                cur = Vec::new();
                proof {
                    assert(r.deep_view() =~~= old_r.push(t));
                }
            }
        } else {
            if cur.len() == 0 {
                cur.push(c);
                proof {
                    assert(cur@ =~= seq![cs@[i as int]]);
                    if i > 0 {
                        assert(cs@.take(i as int + 1)[i as int - 1] == cs@[i as int - 1]);
                    }
                }
            } else {
                let ghost old_r = r.deep_view();
                let ghost old_cur = cur@;
                cur.push(c);
                proof {
                    let pre = split_ws(cs@.take(i as int));
                    assert(cs@.take(i as int + 1)[i as int - 1] == cs@[i as int - 1]);
                    assert(pre == old_r.push(old_cur));
                    assert(pre.update(pre.len() - 1, pre.last().push(cs@[i as int])) =~~= old_r.push(
                        old_cur.push(cs@[i as int]),
                    ));
                }
            }
        }
        i = i + 1;
    }
    proof {
        assert(cs@.take(cs@.len() as int) =~= cs@);
    }
    if cur.len() > 0 {
        let ghost old_r = r.deep_view();
        let ghost t = cur@;
        r.push(cur);
        proof {
            assert(r.deep_view() =~~= old_r.push(t));
        }
    }
    r
}

/// Keeps exactly the alphabetic and whitespace characters of `cs`.
pub(crate) fn filter_chars(cs: &Vec<char>) -> (r: Vec<char>)
    ensures
        r@ == filtered(cs@),
{
    let mut r: Vec<char> = Vec::new();
    let mut i: usize = 0;
    proof {
        reveal(Seq::filter);
        assert(cs@.take(0) =~= Seq::<char>::empty());
    }
    while i < cs.len()
        invariant
            i <= cs.len(),
            r@ == cs@.take(i as int).filter(|c: char| keep_char(c)),
        decreases cs.len() - i,
    {
        let c = cs[i];
        proof {
            reveal(Seq::filter);
            assert(cs@.take(i + 1).drop_last() =~= cs@.take(i as int));
            assert(cs@.take(i + 1).last() == cs@[i as int]);
        }
        if c.is_alphabetic() || c.is_whitespace() {
            r.push(c);
        }
        i = i + 1;
    }
    proof {
        assert(cs@.take(cs@.len() as int) =~= cs@);
    }
    r
}

/// Extracts the canonical term list from one document's bytes.
///
/// Succeeds on exactly the byte sequences that are valid UTF-8, and then
/// returns the full term list, a function of the bytes alone; on invalid
/// UTF-8 it fails with a prefix length up to which the bytes are valid
/// while one byte more no longer is.  No term of the result holds an
/// ASCII capital letter: lowercasing happens before filtering and
/// splitting.
pub fn extract_terms(bytes: &[u8]) -> (r: Result<Vec<String>, usize>)
    ensures
        r is Ok <==> valid_utf8(bytes@),
        r is Ok ==> r->Ok_0.deep_view() == terms_of(bytes@),
        r is Err ==> r->Err_0 < bytes@.len() && valid_utf8(bytes@.take(r->Err_0 as int))
            && !valid_utf8(bytes@.take(r->Err_0 as int + 1)),
        r is Ok ==> forall|i: int, j: int|
            0 <= i < terms_of(bytes@).len() && 0 <= j < terms_of(bytes@)[i].len()
                ==> !is_ascii_upper(#[trigger] terms_of(bytes@)[i][j]),
        bytes@.len() == 0 ==> r is Ok && r->Ok_0@.len() == 0,
{
    match bytes_to_text(bytes) {
        Err(pos) => Err(pos),
        Ok(text) => {
            let lowered = lowercase_chars(text);
            let kept = filter_chars(&lowered);
            let toks = split_tokens(&kept);
            let mut out: Vec<String> = Vec::new();
            let mut i: usize = 0;
            proof {
                reveal(Seq::filter);
                assert(toks.deep_view().take(0) =~= Seq::<Seq<char>>::empty());
            }
            while i < toks.len()
                invariant
                    i <= toks.len(),
                    toks.deep_view().len() == toks@.len(),
                    out.deep_view() == long_tokens(toks.deep_view().take(i as int)),
                decreases toks.len() - i,
            {
                proof {
                    reveal(Seq::filter);
                    assert(toks.deep_view().take(i as int + 1).drop_last() =~= toks.deep_view()
                        .take(i as int));
                    assert(toks.deep_view().take(i as int + 1).last() == toks.deep_view()[i as int]);
                    assert(toks.deep_view()[i as int] =~= toks@[i as int]@);
                }
                let t = &toks[i];
                if t.len() >= 2 {
                    let s = chars_to_string(t);
                    let ghost old_out = out.deep_view();
                    out.push(s);
                    proof {
                        assert(out.deep_view() =~~= old_out.push(toks.deep_view()[i as int]));
                    }
                }
                i = i + 1;
            }
            proof {
                assert(toks.deep_view().take(toks@.len() as int) =~= toks.deep_view());
                lemma_term_chars_in_lower(bytes@);
                assert forall|i: int, j: int|
                    0 <= i < terms_of(bytes@).len() && 0 <= j < terms_of(bytes@)[i].len()
                        implies !is_ascii_upper(#[trigger] terms_of(bytes@)[i][j]) by {
                    let c = terms_of(bytes@)[i][j];
                    assert(lower_of(decode_utf8(bytes@)).contains(c));
                    let m = choose|m: int|
                        0 <= m < lowered@.len() && lowered@[m] == c;
                    assert(!is_ascii_upper(lowered@[m]));
                };
                if bytes@.len() == 0 {
                    reveal(Seq::filter);
                    assert(lowered@ =~= Seq::<char>::empty());
                    assert(kept@ =~= Seq::<char>::empty());
                    assert(toks.deep_view() =~= Seq::<Seq<char>>::empty());
                    assert(out.deep_view() =~= Seq::<Seq<char>>::empty());
                }
            }
            Ok(out)
        },
    }
}

/// Extracting the same bytes twice yields identical term lists: the
/// contract of `extract_terms` pins every successful result to
/// `terms_of` of the bytes alone, so two results for the same bytes
/// cannot differ.
pub proof fn lemma_extraction_idempotent(b: Seq<u8>, r1: Seq<Seq<char>>, r2: Seq<Seq<char>>)
    requires
        r1 == terms_of(b),
        r2 == terms_of(b),
    ensures
        r1 == r2,
{
}

/// Every element of a filtered sequence occurs in the sequence it was
/// filtered from.
proof fn lemma_filter_elements<A>(s: Seq<A>, pred: spec_fn(A) -> bool)
    ensures
        forall|i: int| 0 <= i < s.filter(pred).len() ==> s.contains(#[trigger] s.filter(pred)[i]),
    decreases s.len(),
{
    reveal(Seq::filter);
    if s.len() > 0 {
        lemma_filter_elements(s.drop_last(), pred);
        let f = s.filter(pred);
        let fd = s.drop_last().filter(pred);
        assert forall|i: int| 0 <= i < f.len() implies s.contains(f[i]) by {
            if pred(s.last()) && i == f.len() - 1 {
                assert(f[i] == s[s.len() - 1]);
            } else {
                assert(f[i] == fd[i]);
                assert(s.drop_last().contains(fd[i]));
                let j = choose|j: int|
                    0 <= j < s.drop_last().len() && s.drop_last()[j] == fd[i];
                assert(s[j] == fd[i]);
            }
        };
    }
}

/// Nothing but non-whitespace characters of `s` stands in the tokens of
/// `split_ws(s)`.
proof fn lemma_split_ws_chars(s: Seq<char>)
    ensures
        forall|i: int, j: int|
            0 <= i < split_ws(s).len() && 0 <= j < split_ws(s)[i].len() ==> s.contains(
                #[trigger] split_ws(s)[i][j],
            ) && !is_white(split_ws(s)[i][j]),
    decreases s.len(),
{
    if s.len() > 0 {
        lemma_split_ws_chars(s.drop_last());
        let pre = split_ws(s.drop_last());
        let out = split_ws(s);
        let c = s.last();
        assert forall|i: int, j: int|
            0 <= i < out.len() && 0 <= j < out[i].len() implies s.contains(out[i][j]) && !is_white(
            out[i][j],
        ) by {
            let lifted = !is_white(c) && s.len() >= 2 && !is_white(s[s.len() - 2]);
            if lifted {
                lemma_split_ws_last_nonwhite(s.drop_last());
            }
            let from_pre = if is_white(c) {
                true
            } else if lifted {
                i < pre.len() - 1 || j < pre[i].len()
            } else {
                i < pre.len()
            };
            if from_pre {
                assert(out[i][j] == pre[i][j]);
                assert(s.drop_last().contains(pre[i][j]));
                let k = choose|k: int|
                    0 <= k < s.drop_last().len() && s.drop_last()[k] == pre[i][j];
                assert(s[k] == pre[i][j]);
            } else {
                assert(out[i][j] == c);
                assert(s[s.len() - 1] == c);
            }
        };
    }
}

/// A sequence that ends in a non-whitespace character splits into at
/// least one token.
proof fn lemma_split_ws_last_nonwhite(s: Seq<char>)
    requires
        s.len() > 0,
        !is_white(s.last()),
    ensures
        split_ws(s).len() > 0,
    decreases s.len(),
{
    if s.len() >= 2 && !is_white(s[s.len() - 2]) {
        assert(s.drop_last().last() == s[s.len() - 2]);
        lemma_split_ws_last_nonwhite(s.drop_last());
    }
}

/// Every character of every canonical term occurs in the lowercased text
/// the term was cut from.
proof fn lemma_term_chars_in_lower(b: Seq<u8>)
    ensures
        forall|i: int, j: int|
            0 <= i < terms_of(b).len() && 0 <= j < terms_of(b)[i].len() ==> lower_of(
                decode_utf8(b),
            ).contains(#[trigger] terms_of(b)[i][j]),
{
    let low = lower_of(decode_utf8(b));
    let f = filtered(low);
    let toks = split_ws(f);
    let terms = terms_of(b);
    lemma_filter_elements(toks, |t: Seq<char>| t.len() >= 2);
    lemma_split_ws_chars(f);
    lemma_filter_elements(low, |c: char| keep_char(c));
    assert forall|i: int, j: int|
        0 <= i < terms.len() && 0 <= j < terms[i].len() implies low.contains(
        #[trigger] terms[i][j],
    ) by {
        assert(toks.contains(terms[i]));
        let k = choose|k: int| 0 <= k < toks.len() && toks[k] == terms[i];
        assert(f.contains(toks[k][j]));
        let m = choose|m: int| 0 <= m < f.len() && f[m] == toks[k][j];
        assert(low.contains(f[m]));
    };
}

/// Every character of every canonical term is alphabetic, and none is
/// whitespace: the filtering step keeps only alphabetic and whitespace
/// characters, and the splitting step cuts exactly at the whitespace.
pub proof fn lemma_terms_alphabetic(b: Seq<u8>)
    ensures
        forall|i: int, j: int|
            0 <= i < terms_of(b).len() && 0 <= j < terms_of(b)[i].len() ==> is_alpha(
                #[trigger] terms_of(b)[i][j],
            ) && !is_white(terms_of(b)[i][j]),
{
    let low = lower_of(decode_utf8(b));
    let f = filtered(low);
    let toks = split_ws(f);
    let terms = terms_of(b);
    lemma_filter_elements(toks, |t: Seq<char>| t.len() >= 2);
    lemma_split_ws_chars(f);
    assert forall|i: int, j: int|
        0 <= i < terms.len() && 0 <= j < terms[i].len() implies is_alpha(
        #[trigger] terms[i][j],
    ) && !is_white(terms[i][j]) by {
        assert(toks.contains(terms[i]));
        let k = choose|k: int| 0 <= k < toks.len() && toks[k] == terms[i];
        assert(f.contains(toks[k][j]));
        assert(!is_white(toks[k][j]));
        let m = choose|m: int| 0 <= m < f.len() && f[m] == toks[k][j];
        low.lemma_filter_pred(|c: char| keep_char(c), m);
        assert(keep_char(f[m]));
    };
}

/// No canonical term is shorter than two characters: the last step of
/// the extraction drops every shorter token.
pub proof fn lemma_terms_min_len(b: Seq<u8>)
    ensures
        forall|i: int| 0 <= i < terms_of(b).len() ==> #[trigger] terms_of(b)[i].len() >= 2,
{
    let toks = split_ws(filtered(lower_of(decode_utf8(b))));
    assert forall|i: int| 0 <= i < terms_of(b).len() implies #[trigger] terms_of(b)[i].len()
        >= 2 by {
        toks.lemma_filter_pred(|t: Seq<char>| t.len() >= 2, i);
    };
}

} // verus!
