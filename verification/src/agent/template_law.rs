//! Which messages share a template, said of their texts.

use crate::agent::extract;
use crate::agent::parts;
use crate::agent::parts::PartView;
use crate::agent::records::TemplateBatch;
use crate::agent::tokens;
use crate::agent::typed;
use crate::agent::typed::ParamType;
use crate::shared::bytes;
use crate::shared::log::LogView;
use crate::shared::numeral;
use crate::shared::text;
use vstd::prelude::*;
use vstd::utf8::*;

verus! {

// ---------- words ----------

/// The character can stand in a word: no white space, and a letter, a digit, or
/// one of `_`, `-`, `.` and `:`.
pub open spec fn in_word(c: char) -> bool {
    !text::is_space(c) && (text::is_alnum(c) || c == '_' || c == '-' || c == '.' || c == ':')
}

/// The text is a word: characters that can stand in a word, none of them a
/// decimal digit, not all of them punctuation, and no slash in front.
pub open spec fn is_word(w: Seq<char>) -> bool {
    &&& w.len() > 0
    &&& w[0] != '/'
    &&& forall|k: int| 0 <= k < w.len() ==> in_word(#[trigger] w[k])
    &&& forall|k: int| 0 <= k < w.len() ==> !('0' <= #[trigger] w[k] <= '9')
    &&& exists|k: int| 0 <= k < w.len() && !text::is_punct(#[trigger] w[k])
}

/// Nothing, or a blank and something.
pub open spec fn is_rest(x: Seq<char>) -> bool {
    x.len() == 0 || x[0] == ' '
}

proof fn lemma_one_token(w: Seq<char>)
    requires
        w.len() > 0,
        forall|k: int| 0 <= k < w.len() ==> in_word(#[trigger] w[k]),
    ensures
        tokens::tokens_of(w) == seq![w],
    decreases w.len(),
{
    let front: Seq<char> = w.drop_last();
    if w.len() > 1 {
        assert forall|k: int| 0 <= k < front.len() implies in_word(#[trigger] front[k]) by {
            assert(front[k] == w[k]);
        }
        lemma_one_token(front);
        assert(in_word(w[w.len() - 1]) && in_word(w[w.len() - 2]));
        assert(front.push(w.last()) =~= w);
        assert(seq![front].drop_last() =~= Seq::<Seq<char>>::empty());
        assert(tokens::tokens_of(w) =~= seq![w]);
    } else {
        assert(tokens::tokens_of(front) =~= Seq::<Seq<char>>::empty());
        assert(seq![w.last()] =~= w);
        assert(tokens::tokens_of(w) =~= seq![w]);
    }
}

/// The first token of a message that starts with a word is that word.
pub proof fn law_first_token(w: Seq<char>, x: Seq<char>)
    requires
        w.len() > 0,
        forall|k: int| 0 <= k < w.len() ==> in_word(#[trigger] w[k]),
        is_rest(x),
    ensures
        tokens::tokens_of(w + x).len() > 0,
        tokens::tokens_of(w + x)[0] == w,
        x.len() > 0 ==> tokens::tokens_of(w + x).len() > 1,
    decreases x.len(),
{
    let s: Seq<char> = w + x;
    if x.len() == 0 {
        assert(s =~= w);
        lemma_one_token(w);
    } else {
        let y: Seq<char> = x.drop_last();
        assert(s.drop_last() =~= w + y);
        assert(s.last() == x.last());
        assert(is_rest(y));
        law_first_token(w, y);
        let head: Seq<Seq<char>> = tokens::tokens_of(w + y);
        if x.len() == 1 {
            assert(!tokens::is_word_char(' '));
        } else {
            assert(s[s.len() - 2] == x[x.len() - 2]);
        }
    }
}

// ---------- the kinds of tokens ----------

/// Some character is a decimal digit.
pub open spec fn has_digit(s: Seq<char>) -> bool {
    exists|k: int| 0 <= k < s.len() && '0' <= #[trigger] s[k] <= '9'
}

proof fn lemma_numeral_digit(n: nat, radix: nat)
    requires
        radix == 10,
    ensures
        numeral::numeral(n, radix).len() > 0,
        '0' <= numeral::numeral(n, radix)[0] <= '9',
{
    numeral::lemma_numeral(n, radix);
    assert(numeral::digit_value(numeral::numeral(n, radix)[0]) < radix);
}

proof fn lemma_digit_at(s: Seq<char>, k: int)
    requires
        0 <= k < s.len(),
        '0' <= s[k] <= '9',
    ensures
        has_digit(s),
{
}

proof fn lemma_int_text_digit(i: int)
    ensures
        has_digit(numeral::int_text(i)),
{
    if i < 0 {
        lemma_numeral_digit((-i) as nat, 10);
        assert(numeral::int_text(i)[1] == numeral::numeral((-i) as nat, 10)[0]);
        lemma_digit_at(numeral::int_text(i), 1);
    } else {
        lemma_numeral_digit(i as nat, 10);
        lemma_digit_at(numeral::int_text(i), 0);
    }
}

proof fn lemma_two_digits(b: u8)
    ensures
        typed::two_digits(b).len() > 0,
        '0' <= typed::two_digits(b)[0] <= '9',
{
    lemma_numeral_digit(b as nat, 10);
}

/// Only a text with a decimal digit is read as a number, an address, a time or
/// the like.
pub proof fn law_typed_has_digit(ty: ParamType, s: Seq<char>)
    requires
        typed::encodable(ty, s),
        !(ty is Path),
        !(ty is String),
    ensures
        has_digit(s),
{
    let b: Seq<u8> = choose|b: Seq<u8>| #[trigger] typed::encodes(ty, s, b);
    match ty {
        ParamType::Integer => {
            lemma_int_text_digit(typed::signed64(bytes::le_value(b.take(8))));
        },
        ParamType::Hex => {
            lemma_digit_at(s, 0);
        },
        ParamType::IPv4 => {
            lemma_numeral_digit(b[0] as nat, 10);
            lemma_digit_at(s, 0);
        },
        ParamType::BlockId => {
            let t: Seq<char> = numeral::int_text(
                typed::signed64(bytes::le_value(b.take(8))),
            );
            lemma_int_text_digit(typed::signed64(bytes::le_value(b.take(8))));
            let k: int = choose|k: int| 0 <= k < t.len() && '0' <= #[trigger] t[k] <= '9';
            assert(s[4 + k] == t[k]);
            lemma_digit_at(s, 4 + k);
        },
        ParamType::IPv4Port => {
            lemma_numeral_digit(b[0] as nat, 10);
            lemma_digit_at(s, 0);
        },
        ParamType::Timestamp => {
            lemma_two_digits(b[1]);
            lemma_digit_at(s, 0);
        },
        ParamType::Path => {},
        ParamType::String => {},
    }
}

/// A word is nothing but text to the extraction.
pub proof fn law_word_class(w: Seq<char>)
    requires
        is_word(w),
    ensures
        tokens::token_class(w) == 'W',
        typed::param_kind(w) == ParamType::String,
{
    assert(!has_digit(w));
    if typed::encodable(ParamType::IPv4Port, w) {
        law_typed_has_digit(ParamType::IPv4Port, w);
    }
    if typed::encodable(ParamType::IPv4, w) {
        law_typed_has_digit(ParamType::IPv4, w);
    }
    if typed::encodable(ParamType::Timestamp, w) {
        law_typed_has_digit(ParamType::Timestamp, w);
    }
    if typed::encodable(ParamType::BlockId, w) {
        law_typed_has_digit(ParamType::BlockId, w);
    }
    if typed::encodable(ParamType::Hex, w) {
        law_typed_has_digit(ParamType::Hex, w);
    }
    if typed::encodable(ParamType::Integer, w) {
        law_typed_has_digit(ParamType::Integer, w);
    }
    assert(in_word(w[0]));
}

// ---------- templates ----------

proof fn lemma_group_first(toks: Seq<Seq<Seq<char>>>, i: int, k: int)
    requires
        0 <= i < toks.len(),
        0 <= k < toks.len(),
        toks[i].len() > 0,
        tokens::token_class(toks[i][0]) == 'W',
        encode_utf8(toks[i][0]).len() <= 64,
        extract::same_group(toks, i, k),
    ensures
        toks[k][0] == toks[i][0],
{
    let a: Seq<char> = tokens::signature(toks[i]);
    let b: Seq<char> = tokens::signature(toks[k]);
    let n: int = toks[i].len() as int;
    assert(a.len() == toks[i][0].len() + 1 + n);
    if tokens::token_class(toks[k][0]) == 'W' && encode_utf8(toks[k][0]).len() <= 64 {
        assert(b.len() == toks[k][0].len() + 1 + n);
        let m: int = toks[i][0].len() as int;
        assert(a.take(m) =~= toks[i][0]);
        assert(b.take(m) =~= toks[k][0]);
    } else {
        assert(b.len() == n);
    }
}

/// The template of a record.
pub proof fn law_record_template(logs: Seq<LogView>, b: TemplateBatch, i: int)
    requires
        extract::is_extraction(logs, b),
        b.templates@.len() <= 0x1_0000,
        0 <= i < logs.len(),
    ensures
        b.records@[i].pat_id < b.templates@.len(),
        b.templates@[b.records@[i].pat_id as int].id == b.records@[i].pat_id,
        parts::template_views(b.templates@)[b.records@[i].pat_id as int] == extract::template_of(
            extract::batch_tokens(logs),
            i,
        ),
{
    let ts: Seq<Seq<PartView>> = parts::template_views(b.templates@);
    let t: Seq<PartView> = extract::template_of(extract::batch_tokens(logs), i);
    let pat: u16 = b.records@[i].pat_id;
    assert(extract::points_at(pat, ts, t));
    let k: nat = choose|k: nat|
        k < ts.len() && ts[k as int] == t && pat as nat == #[trigger] extract::low16(k);
    assert(k < 0x1_0000);
    assert(extract::low16(k) == k);
    assert(b.templates@[k as int].id as nat == k % 0x1_0000);
}

/// A message that starts with a word of at most 64 bytes has a template that
/// starts with that word as text.
pub proof fn law_first_word_literal(
    logs: Seq<LogView>,
    b: TemplateBatch,
    i: int,
    w: Seq<char>,
    x: Seq<char>,
)
    requires
        extract::is_extraction(logs, b),
        b.templates@.len() <= 0x1_0000,
        0 <= i < logs.len(),
        logs[i].message == w + x,
        is_word(w),
        encode_utf8(w).len() <= 64,
        is_rest(x),
    ensures
        b.records@[i].pat_id < b.templates@.len(),
        parts::template_views(b.templates@)[b.records@[i].pat_id as int].len() > 0,
        parts::template_views(b.templates@)[b.records@[i].pat_id as int][0] == PartView::Literal(w),
{
    let toks: Seq<Seq<Seq<char>>> = extract::batch_tokens(logs);
    law_first_token(w, x);
    law_word_class(w);
    assert(toks[i][0] == w);
    assert forall|j: int| 0 <= j < toks.len() && extract::same_class(toks, i, j) implies #[trigger]
    toks[j][0] == toks[i][0] by {
        lemma_group_first(toks, i, j);
    }
    assert(extract::class_fixed(toks, i, 0));
    law_record_template(logs, b, i);
}

/// Messages that start with different words of at most 64 bytes have different
/// templates.
pub proof fn law_first_words_apart(
    logs: Seq<LogView>,
    b: TemplateBatch,
    i: int,
    w: Seq<char>,
    x: Seq<char>,
    j: int,
    v: Seq<char>,
    y: Seq<char>,
)
    requires
        extract::is_extraction(logs, b),
        b.templates@.len() <= 0x1_0000,
        0 <= i < logs.len(),
        logs[i].message == w + x,
        is_word(w),
        encode_utf8(w).len() <= 64,
        is_rest(x),
        0 <= j < logs.len(),
        logs[j].message == v + y,
        is_word(v),
        encode_utf8(v).len() <= 64,
        is_rest(y),
        w != v,
    ensures
        b.records@[i].pat_id != b.records@[j].pat_id,
{
    law_first_word_literal(logs, b, i, w, x);
    law_first_word_literal(logs, b, j, v, y);
}

// ---------- what messages have in common ----------

proof fn lemma_classes(toks: Seq<Seq<Seq<char>>>, i: int, j: int)
    requires
        extract::same_group(toks, i, j),
    ensures
        tokens::classes(toks[i]) == tokens::classes(toks[j]),
{
    let n: int = toks[i].len() as int;
    let a: Seq<char> = tokens::signature(toks[i]);
    let b: Seq<char> = tokens::signature(toks[j]);
    assert(a.skip(a.len() - n) =~= tokens::classes(toks[i]));
    assert(b.skip(b.len() - n) =~= tokens::classes(toks[j]));
}

proof fn lemma_leading(a: Seq<Seq<char>>, b: Seq<Seq<char>>, left: nat)
    requires
        tokens::classes(a) == tokens::classes(b),
    ensures
        tokens::leading_classes(a, left) == tokens::leading_classes(b, left),
    decreases a.len(),
{
    let ca: Seq<char> = tokens::classes(a);
    let cb: Seq<char> = tokens::classes(b);
    assert(ca.len() == a.len() && cb.len() == b.len());
    if a.len() > 0 && left > 0 {
        assert(ca[0] == tokens::token_class(a[0]) && cb[0] == tokens::token_class(b[0]));
        assert(tokens::all_space(a[0]) <==> tokens::token_class(a[0]) == 'S');
        assert(tokens::all_space(b[0]) <==> tokens::token_class(b[0]) == 'S');
        assert forall|k: int| 0 <= k < a.len() - 1 implies tokens::token_class(
            #[trigger] a.drop_first()[k],
        ) == tokens::token_class(b.drop_first()[k]) by {
            assert(a.drop_first()[k] == a[k + 1] && b.drop_first()[k] == b[k + 1]);
            assert(ca[k + 1] == tokens::token_class(a[k + 1]));
            assert(cb[k + 1] == tokens::token_class(b[k + 1]));
        }
        assert(tokens::classes(a.drop_first()) =~= tokens::classes(b.drop_first()));
        lemma_leading(a.drop_first(), b.drop_first(), left);
        lemma_leading(a.drop_first(), b.drop_first(), (left - 1) as nat);
    }
}

proof fn lemma_group_is_class(toks: Seq<Seq<Seq<char>>>, i: int, j: int)
    ensures
        extract::same_class(toks, i, j) <==> extract::same_group(toks, i, j),
{
    if extract::same_group(toks, i, j) {
        lemma_classes(toks, i, j);
        lemma_leading(toks[i], toks[j], 3);
    }
}

proof fn lemma_group_template(toks: Seq<Seq<Seq<char>>>, i: int, j: int)
    requires
        0 <= i < toks.len(),
        0 <= j < toks.len(),
        extract::same_group(toks, i, j),
    ensures
        extract::template_of(toks, i) == extract::template_of(toks, j),
{
    lemma_group_is_class(toks, i, j);
    lemma_group_is_class(toks, j, i);
    assert forall|k: int| 0 <= k < toks[i].len() implies #[trigger] extract::class_fixed(toks, i, k)
        == extract::class_fixed(toks, j, k) && (extract::class_fixed(toks, i, k) ==> toks[i][k]
        == toks[j][k]) by {
        if extract::class_fixed(toks, i, k) {
            assert(toks[j][k] == toks[i][k]);
            assert forall|m: int|
                0 <= m < toks.len() && extract::same_class(toks, j, m) implies #[trigger] toks[m][k]
                == toks[j][k] by {
                lemma_group_is_class(toks, j, m);
                lemma_group_is_class(toks, i, m);
                assert(toks[m][k] == toks[i][k]);
            }
        }
        if extract::class_fixed(toks, j, k) {
            assert(toks[i][k] == toks[j][k]);
            assert forall|m: int|
                0 <= m < toks.len() && extract::same_class(toks, i, m) implies #[trigger] toks[m][k]
                == toks[i][k] by {
                lemma_group_is_class(toks, j, m);
                lemma_group_is_class(toks, i, m);
                assert(toks[m][k] == toks[j][k]);
            }
        }
    }
    assert(extract::template_of(toks, i) =~= extract::template_of(toks, j));
}

proof fn lemma_one_number(logs: Seq<LogView>, b: TemplateBatch, i: int, j: int)
    requires
        extract::is_extraction(logs, b),
        b.templates@.len() <= 0x1_0000,
        0 <= i < logs.len(),
        0 <= j < logs.len(),
        extract::template_of(extract::batch_tokens(logs), i) == extract::template_of(
            extract::batch_tokens(logs),
            j,
        ),
    ensures
        b.records@[i].pat_id == b.records@[j].pat_id,
{
    law_record_template(logs, b, i);
    law_record_template(logs, b, j);
}

/// Messages of the same shape share a template: they have as many tokens, of the
/// same types one by one, and start with the same token, or with words of more
/// than 64 bytes, or with something else than a word.
pub proof fn law_same_shape_shares(logs: Seq<LogView>, b: TemplateBatch, i: int, j: int)
    requires
        extract::is_extraction(logs, b),
        b.templates@.len() <= 0x1_0000,
        0 <= i < logs.len(),
        0 <= j < logs.len(),
        ({
            let x: Seq<Seq<char>> = tokens::tokens_of(logs[i].message);
            let y: Seq<Seq<char>> = tokens::tokens_of(logs[j].message);
            &&& x.len() == y.len()
            &&& forall|k: int|
                0 <= k < x.len() ==> tokens::token_class(#[trigger] x[k]) == tokens::token_class(
                    y[k],
                )
            &&& x.len() > 0 ==> x[0] == y[0] || tokens::token_class(x[0]) != 'W' || (encode_utf8(
                x[0],
            ).len() > 64 && encode_utf8(y[0]).len() > 64)
        }),
    ensures
        b.records@[i].pat_id == b.records@[j].pat_id,
{
    let toks: Seq<Seq<Seq<char>>> = extract::batch_tokens(logs);
    assert(tokens::classes(toks[i]) =~= tokens::classes(toks[j]));
    if toks[i].len() > 0 {
        assert(tokens::token_class(toks[i][0]) == tokens::token_class(toks[j][0]));
    }
    assert(tokens::signature(toks[i]) == tokens::signature(toks[j]));
    lemma_group_template(toks, i, j);
    lemma_one_number(logs, b, i, j);
}

/// A token stands in a slot of a template only where messages of that template
/// differ.
pub proof fn law_slots_vary(logs: Seq<LogView>, b: TemplateBatch, i: int, k: int) -> (j: int)
    requires
        extract::is_extraction(logs, b),
        b.templates@.len() <= 0x1_0000,
        0 <= i < logs.len(),
        0 <= k < tokens::tokens_of(logs[i].message).len(),
        parts::template_views(b.templates@)[b.records@[i].pat_id as int][k] == PartView::Param,
    ensures
        0 <= j < logs.len(),
        b.records@[j].pat_id == b.records@[i].pat_id,
        tokens::tokens_of(logs[j].message).len() == tokens::tokens_of(logs[i].message).len(),
        tokens::tokens_of(logs[j].message)[k] != tokens::tokens_of(logs[i].message)[k],
{
    let toks: Seq<Seq<Seq<char>>> = extract::batch_tokens(logs);
    law_record_template(logs, b, i);
    assert(!extract::class_fixed(toks, i, k));
    let j: int = choose|j: int|
        0 <= j < toks.len() && extract::same_class(toks, i, j) && #[trigger] toks[j][k]
            != toks[i][k];
    lemma_group_template(toks, i, j);
    lemma_one_number(logs, b, i, j);
    j
}

/// Where a template has a text, all messages of that template have it.
pub proof fn law_texts_shared(
    logs: Seq<LogView>,
    b: TemplateBatch,
    i: int,
    j: int,
    k: int,
    t: Seq<char>,
)
    requires
        extract::is_extraction(logs, b),
        b.templates@.len() <= 0x1_0000,
        0 <= i < logs.len(),
        0 <= j < logs.len(),
        b.records@[i].pat_id == b.records@[j].pat_id,
        0 <= k < tokens::tokens_of(logs[i].message).len(),
        parts::template_views(b.templates@)[b.records@[i].pat_id as int][k] == PartView::Literal(t),
    ensures
        tokens::tokens_of(logs[j].message).len() == tokens::tokens_of(logs[i].message).len(),
        tokens::tokens_of(logs[i].message)[k] == t,
        tokens::tokens_of(logs[j].message)[k] == t,
{
    let toks: Seq<Seq<Seq<char>>> = extract::batch_tokens(logs);
    law_record_template(logs, b, i);
    law_record_template(logs, b, j);
    assert(extract::template_of(toks, i).len() == toks[i].len());
    assert(extract::template_of(toks, j).len() == toks[j].len());
}

/// Messages with different numbers of tokens have different templates.
pub proof fn law_token_counts_apart(logs: Seq<LogView>, b: TemplateBatch, i: int, j: int)
    requires
        extract::is_extraction(logs, b),
        b.templates@.len() <= 0x1_0000,
        0 <= i < logs.len(),
        0 <= j < logs.len(),
        tokens::tokens_of(logs[i].message).len() != tokens::tokens_of(logs[j].message).len(),
    ensures
        b.records@[i].pat_id != b.records@[j].pat_id,
{
    let toks: Seq<Seq<Seq<char>>> = extract::batch_tokens(logs);
    law_record_template(logs, b, i);
    law_record_template(logs, b, j);
    assert(extract::template_of(toks, i).len() == toks[i].len());
    assert(extract::template_of(toks, j).len() == toks[j].len());
}

/// A token that stands in a slot of the template of its message is the text of
/// the parameter for that slot in the record of the message.
pub proof fn law_parameters_are_tokens(logs: Seq<LogView>, b: TemplateBatch, i: int, k: nat)
    requires
        extract::is_extraction(logs, b),
        b.templates@.len() <= 0x1_0000,
        0 <= i < logs.len(),
        k < tokens::tokens_of(logs[i].message).len(),
        parts::template_views(b.templates@)[b.records@[i].pat_id as int][k as int]
            == PartView::Param,
    ensures
        ({
            let t: Seq<PartView> = parts::template_views(
                b.templates@,
            )[b.records@[i].pat_id as int];
            let n: nat = parts::slots_before(t, k);
            &&& n < b.records@[i].params@.len()
            &&& typed::param_text(b.records@[i].params@[n as int]@) == tokens::tokens_of(
                logs[i].message,
            )[k as int]
        }),
{
    let toks: Seq<Seq<Seq<char>>> = extract::batch_tokens(logs);
    law_record_template(logs, b, i);
    let t: Seq<PartView> = extract::template_of(toks, i);
    let ps = typed::param_views(b.records@[i].params@);
    let texts: Seq<Seq<char>> = extract::params_of(toks, i);
    assert(extract::is_record_of(logs, b.records@[i], i));
    lemma_slot_text(toks[i], t, k, toks[i].len());
    let n: nat = parts::slots_before(t, k);
    assert(extract::typed_from(texts[n as int], ps[n as int]));
}

proof fn lemma_slot_text(ts: Seq<Seq<char>>, t: Seq<PartView>, k: nat, n: nat)
    requires
        k < n <= ts.len(),
        t.len() == ts.len(),
        t[k as int] is Param,
    ensures
        parts::slots_before(t, k) < extract::slot_texts(ts, t, n).len(),
        extract::slot_texts(ts, t, n)[parts::slots_before(t, k) as int] == ts[k as int],
    decreases n,
{
    if k == n - 1 {
        lemma_slot_count(ts, t, k);
    } else {
        lemma_slot_text(ts, t, k, (n - 1) as nat);
    }
}

proof fn lemma_slot_count(ts: Seq<Seq<char>>, t: Seq<PartView>, n: nat)
    requires
        n <= ts.len(),
        t.len() == ts.len(),
    ensures
        extract::slot_texts(ts, t, n).len() == parts::slots_before(t, n),
    decreases n,
{
    if n > 0 {
        lemma_slot_count(ts, t, (n - 1) as nat);
    }
}

/// Equal messages share a template.
pub proof fn law_equal_messages_share(logs: Seq<LogView>, b: TemplateBatch, i: int, j: int)
    requires
        extract::is_extraction(logs, b),
        b.templates@.len() <= 0x1_0000,
        0 <= i < logs.len(),
        0 <= j < logs.len(),
        logs[i].message == logs[j].message,
    ensures
        b.records@[i].pat_id == b.records@[j].pat_id,
{
    law_same_shape_shares(logs, b, i, j);
}

// ---------- tokens ----------

/// A character that can stand in no word is a token by itself, and parts the
/// tokens before it from those behind it.
pub proof fn law_tokens_part(s: Seq<char>, c: char, x: Seq<char>)
    requires
        !in_word(c),
    ensures
        tokens::tokens_of(s + seq![c] + x) == tokens::tokens_of(s) + seq![seq![c]]
            + tokens::tokens_of(x),
    decreases x.len(),
{
    let front: Seq<char> = s + seq![c];
    let whole: Seq<char> = front + x;
    if x.len() == 0 {
        assert(whole =~= front);
        assert(front.drop_last() =~= s);
        assert(front.last() == c);
        assert(!tokens::is_word_char(c));
        assert(tokens::tokens_of(front) =~= tokens::tokens_of(s) + seq![seq![c]]
            + tokens::tokens_of(x));
    } else {
        let y: Seq<char> = x.drop_last();
        law_tokens_part(s, c, y);
        assert(whole.drop_last() =~= front + y);
        assert(whole.last() == x.last());
        let head: Seq<Seq<char>> = tokens::tokens_of(front + y);
        let tail: Seq<Seq<char>> = tokens::tokens_of(y);
        let before: Seq<Seq<char>> = tokens::tokens_of(s) + seq![seq![c]];
        assert(head == before + tail);
        if x.len() == 1 {
            assert(whole[whole.len() - 2] == c);
            assert(tail =~= Seq::<Seq<char>>::empty());
            assert(tokens::tokens_of(whole) =~= before + tokens::tokens_of(x));
        } else {
            assert(whole[whole.len() - 2] == x[x.len() - 2]);
            tokens::law_tokens_concat(y);
            if tokens::is_word_char(x.last()) && tokens::is_word_char(x[x.len() - 2]) {
                assert(head.drop_last() =~= before + tail.drop_last());
                assert(head.last() == tail.last());
            }
            assert(tokens::tokens_of(whole) =~= before + tokens::tokens_of(x));
        }
    }
}

/// Characters that can stand in a word make one token together.
pub proof fn law_word_is_token(w: Seq<char>)
    requires
        w.len() > 0,
        forall|k: int| 0 <= k < w.len() ==> in_word(#[trigger] w[k]),
    ensures
        tokens::tokens_of(w) == seq![w],
{
    lemma_one_token(w);
}

/// The types of tokens that are numbers, addresses, times, paths and the like
/// follow from how they are stored; blanks and punctuation have types of their
/// own.
pub proof fn law_token_types(s: Seq<char>)
    requires
        s.len() > 0,
    ensures
        (forall|k: int| 0 <= k < s.len() ==> text::is_space(#[trigger] s[k]))
            ==> tokens::token_class(s) == 'S',
        (exists|k: int| 0 <= k < s.len() && !text::is_space(#[trigger] s[k])) ==> {
            &&& typed::param_kind(s) == ParamType::IPv4Port ==> tokens::token_class(s) == 'P'
            &&& typed::param_kind(s) == ParamType::IPv4 ==> tokens::token_class(s) == 'I'
            &&& typed::param_kind(s) == ParamType::Timestamp ==> tokens::token_class(s) == 'T'
            &&& typed::param_kind(s) == ParamType::BlockId ==> tokens::token_class(s) == 'B'
            &&& typed::param_kind(s) == ParamType::Hex ==> tokens::token_class(s) == 'H'
            &&& typed::param_kind(s) == ParamType::Integer ==> tokens::token_class(s) == 'N'
            &&& typed::param_kind(s) == ParamType::Path ==> tokens::token_class(s) == 'h'
            &&& typed::param_kind(s) == ParamType::String && (forall|k: int|
                0 <= k < s.len() ==> text::is_punct(#[trigger] s[k])) ==> tokens::token_class(s)
                == 'C'
            &&& typed::param_kind(s) == ParamType::String && (exists|k: int|
                0 <= k < s.len() && !text::is_punct(#[trigger] s[k])) ==> tokens::token_class(s)
                == 'W'
        },
{
}

} // verus!
