use vstd::prelude::*;

use crate::scanner::chars_of;
use crate::scanner::classify;
use crate::scanner::escape_char;
use crate::scanner::is_digit_byte;
use crate::scanner::is_ident_byte;
use crate::scanner::is_space_byte;
use crate::scanner::lemma_run_len_is;
use crate::scanner::lemma_run_len_skip;
use crate::scanner::next_token;
use crate::scanner::digit_run;
use crate::scanner::ident_run;
use crate::scanner::scan_quoted;
use crate::scanner::space_run;
use crate::token::TokenConstModel;
use crate::token::TokenModel;
use crate::token::TokenValueModel;

verus! {

/// Exhaustion is idempotent: once a read produces the end-of-input token,
/// reading again from the state it leaves behind produces the same token
/// at the same position and consumes nothing, so every later read does
/// the same.
pub proof fn lemma_eof_idempotent(s: Seq<u8>, pos: nat)
    requires
        next_token(s, pos).0.value == TokenValueModel::Eof,
    ensures
        next_token(s.skip(next_token(s, pos).1 as int), pos + next_token(s, pos).1).0 == next_token(
            s,
            pos,
        ).0,
        next_token(s.skip(next_token(s, pos).1 as int), pos + next_token(s, pos).1).1 == 0,
{
    let w = space_run(s) as int;
    let r = s.skip(w);
    crate::scanner::lemma_run_len_props(s, |b: u8| is_space_byte(b));
    assert(r.len() == 0 || r[0] == 0);
    assert(next_token(s, pos).1 == w);
    assert(space_run(r) == 0);
    assert(r.skip(0) =~= r);
}

/// A maximal identifier-set run, bounded by a non-identifier byte or the
/// stream edge, becomes one identifier token: its text is exactly the run
/// and its position is the offset of the run's first byte. A run led by a
/// digit is not an identifier: it routes to the numeric reader instead.
pub proof fn lemma_ident_token(run: Seq<u8>, rest: Seq<u8>, pos: nat)
    requires
        run.len() >= 1,
        forall|j: int| 0 <= j < run.len() ==> is_ident_byte(run[j]),
        !is_digit_byte(run[0]),
        rest.len() > 0 ==> !is_ident_byte(rest[0]),
    ensures
        next_token(run + rest, pos).0 == (TokenModel {
            value: TokenValueModel::Ident(chars_of(run)),
            pos: pos,
            len: run.len(),
        }),
        next_token(run + rest, pos).1 == run.len(),
{
    let s = run + rest;
    assert(s[0] == run[0]);
    lemma_run_len_is(s, |b: u8| is_space_byte(b), 0);
    assert(s.skip(0) =~= s);
    assert forall|j: int| 0 <= j < run.len() implies is_ident_byte(s[j]) by {
        assert(s[j] == run[j]);
    }
    if run.len() < s.len() {
        assert(s[run.len() as int] == rest[0]);
    }
    lemma_run_len_is(s, |b: u8| is_ident_byte(b), run.len() as int);
    assert(ident_run(s) == run.len());
    assert(s.take(run.len() as int) =~= run);
    assert(chars_of(s.take(run.len() as int)) =~= chars_of(run));
}

/// A maximal decimal-digit run, bounded by a non-digit byte or the stream
/// edge, becomes one numeric token in the same way: its text is the run
/// as written and its position is the run's first byte.
pub proof fn lemma_numeric_token(run: Seq<u8>, rest: Seq<u8>, pos: nat)
    requires
        run.len() >= 1,
        forall|j: int| 0 <= j < run.len() ==> is_digit_byte(run[j]),
        rest.len() > 0 ==> !is_digit_byte(rest[0]),
    ensures
        next_token(run + rest, pos).0 == (TokenModel {
            value: TokenValueModel::Const(TokenConstModel::Numeric(chars_of(run))),
            pos: pos,
            len: run.len(),
        }),
        next_token(run + rest, pos).1 == run.len(),
{
    let s = run + rest;
    assert(s[0] == run[0]);
    lemma_run_len_is(s, |b: u8| is_space_byte(b), 0);
    assert(s.skip(0) =~= s);
    assert forall|j: int| 0 <= j < run.len() implies is_digit_byte(s[j]) by {
        assert(s[j] == run[j]);
    }
    if run.len() < s.len() {
        assert(s[run.len() as int] == rest[0]);
    }
    lemma_run_len_is(s, |b: u8| is_digit_byte(b), run.len() as int);
    assert(digit_run(s) == run.len());
    assert(s.take(run.len() as int) =~= run);
    assert(chars_of(s.take(run.len() as int)) =~= chars_of(run));
}

/// A segment free of the delimiter and of backslashes passes through the
/// quoted-literal scan verbatim.
pub proof fn lemma_scan_passthrough(s: Seq<u8>, delim: u8, i: nat, j: nat)
    requires
        i <= j <= s.len(),
        forall|k: int| i <= k < j ==> s[k] != delim && s[k] != 92,
    ensures
        scan_quoted(s, delim, i).0 == chars_of(s.subrange(i as int, j as int)) + scan_quoted(
            s,
            delim,
            j,
        ).0,
        scan_quoted(s, delim, i).1 == scan_quoted(s, delim, j).1,
    decreases j - i,
{
    if i == j {
        assert(chars_of(s.subrange(i as int, i as int)) =~= Seq::<char>::empty());
        assert(Seq::<char>::empty() + scan_quoted(s, delim, i).0 =~= scan_quoted(s, delim, i).0);
    } else {
        assert(s[i as int] != delim && s[i as int] != 92);
        lemma_scan_passthrough(s, delim, (i + 1) as nat, j);
        assert(seq![s[i as int] as char] + (chars_of(s.subrange(i as int + 1, j as int))
            + scan_quoted(s, delim, j).0) =~= chars_of(s.subrange(i as int, j as int))
            + scan_quoted(s, delim, j).0);
    }
}

/// A quoted literal with no escapes decodes to exactly the bytes between
/// (and not including) its two delimiters; its span covers the content
/// and both delimiters.
pub proof fn lemma_plain_literal(q: u8, content: Seq<u8>, rest: Seq<u8>, pos: nat)
    requires
        q == 34 || q == 39,
        forall|j: int| 0 <= j < content.len() ==> content[j] != q && content[j] != 92,
    ensures
        next_token(seq![q] + content + seq![q] + rest, pos).0 == (TokenModel {
            value: TokenValueModel::Const(
                if q == 34 {
                    TokenConstModel::String(chars_of(content))
                } else {
                    TokenConstModel::Char(chars_of(content))
                },
            ),
            pos: pos,
            len: (content.len() + 2) as nat,
        }),
        next_token(seq![q] + content + seq![q] + rest, pos).1 == content.len() + 2,
{
    let s = seq![q] + content + seq![q] + rest;
    assert(s[0] == q);
    lemma_run_len_is(s, |b: u8| is_space_byte(b), 0);
    assert(s.skip(0) =~= s);
    let e = 1 + content.len() as int;
    assert forall|k: int| 1 <= k < e implies s[k] != q && s[k] != 92 by {
        assert(s[k] == content[k - 1]);
    }
    lemma_scan_passthrough(s, q, 1, e as nat);
    assert(s[e] == q);
    assert(scan_quoted(s, q, e as nat).0 =~= Seq::<char>::empty());
    assert(scan_quoted(s, q, e as nat).1 == e + 1);
    assert(s.subrange(1, e) =~= content);
    assert(chars_of(content) + Seq::<char>::empty() =~= chars_of(content));
}

/// Escape decoding inside a quoted literal: a backslash and the specifier
/// byte after it decode to one character. The specifiers `n`, `t` and `r`
/// give newline, tab and carriage return; any other specifier retains the
/// backslash itself and contributes no character of its own. Both bytes
/// count toward the token's span.
pub proof fn lemma_escape_decode(q: u8, pre: Seq<u8>, x: u8, suf: Seq<u8>, pos: nat)
    requires
        q == 34 || q == 39,
        forall|j: int| 0 <= j < pre.len() ==> pre[j] != q && pre[j] != 92,
        forall|j: int| 0 <= j < suf.len() ==> suf[j] != q && suf[j] != 92,
    ensures
        next_token(seq![q] + pre + seq![92u8, x] + suf + seq![q], pos).0 == (TokenModel {
            value: TokenValueModel::Const(
                if q == 34 {
                    TokenConstModel::String(
                        chars_of(pre) + seq![escape_char(x)] + chars_of(suf),
                    )
                } else {
                    TokenConstModel::Char(chars_of(pre) + seq![escape_char(x)] + chars_of(suf))
                },
            ),
            pos: pos,
            len: (pre.len() + suf.len() + 4) as nat,
        }),
        next_token(seq![q] + pre + seq![92u8, x] + suf + seq![q], pos).1 == pre.len() + suf.len()
            + 4,
{
    let s = seq![q] + pre + seq![92u8, x] + suf + seq![q];
    assert(s.len() == pre.len() + suf.len() + 4);
    assert(s[0] == q);
    lemma_run_len_is(s, |b: u8| is_space_byte(b), 0);
    assert(s.skip(0) =~= s);
    let b = 1 + pre.len() as int;
    assert forall|k: int| 1 <= k < b implies s[k] != q && s[k] != 92 by {
        assert(s[k] == pre[k - 1]);
    }
    lemma_scan_passthrough(s, q, 1, b as nat);
    assert(s[b] == 92);
    assert(s[b + 1] == x);
    assert forall|k: int| b + 2 <= k < b + 2 + suf.len() implies s[k] != q && s[k] != 92 by {
        assert(s[k] == suf[k - b - 2]);
    }
    lemma_scan_passthrough(s, q, (b + 2) as nat, (b + 2 + suf.len()) as nat);
    let e = b + 2 + suf.len() as int;
    assert(s[e] == q);
    assert(scan_quoted(s, q, e as nat).0 =~= Seq::<char>::empty());
    assert(scan_quoted(s, q, e as nat).1 == e + 1);
    assert(s.subrange(1, b) =~= pre);
    assert(s.subrange(b + 2, e) =~= suf);
    assert(scan_quoted(s, q, b as nat).0 == seq![escape_char(x)] + scan_quoted(
        s,
        q,
        (b + 2) as nat,
    ).0);
    assert(chars_of(suf) + Seq::<char>::empty() =~= chars_of(suf));
    assert(chars_of(pre) + (seq![escape_char(x)] + chars_of(suf)) =~= chars_of(pre) + seq![
        escape_char(x),
    ] + chars_of(suf));
}

/// Whitespace never becomes a token of its own: a leading whitespace run
/// only moves the following token's position forward by the run's own
/// byte count, and is counted in that token's consumption.
pub proof fn lemma_space_skip(ws: Seq<u8>, s2: Seq<u8>, pos: nat)
    requires
        forall|j: int| 0 <= j < ws.len() ==> is_space_byte(ws[j]),
    ensures
        next_token(ws + s2, pos).0 == next_token(s2, pos + ws.len()).0,
        next_token(ws + s2, pos).1 == ws.len() + next_token(s2, pos + ws.len()).1,
{
    let s = ws + s2;
    assert forall|j: int| 0 <= j < ws.len() implies is_space_byte(s[j]) by {
        assert(s[j] == ws[j]);
    }
    lemma_run_len_skip(s, |b: u8| is_space_byte(b), ws.len() as int);
    assert(s.skip(ws.len() as int) =~= s2);
    assert(space_run(s) == ws.len() + space_run(s2));
    let w2 = space_run(s2) as int;
    crate::scanner::lemma_run_len_props(s2, |b: u8| is_space_byte(b));
    assert(w2 <= s2.len());
    assert(s.skip(ws.len() + w2) =~= s2.skip(w2));
    assert(classify(s.skip(ws.len() + w2), (pos + ws.len() + w2) as nat) == classify(
        s2.skip(w2),
        (pos + ws.len() + w2) as nat,
    ));
}

} // verus!
