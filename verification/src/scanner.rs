use vstd::prelude::*;
use vstd::string::StringSliceAdditionalSpecFns;

use crate::helps::ToString;
use crate::token::Token;
use crate::token::TokenCreate;
use crate::token::TokenConstModel;
use crate::token::TokenModel;
use crate::token::TokenValueModel;

verus! {

/// Whitespace that the classifier skips: space, tab, carriage return.
pub open spec fn is_space_byte(b: u8) -> bool {
    b == 32 || b == 9 || b == 13
}

/// An ASCII decimal digit.
pub open spec fn is_digit_byte(b: u8) -> bool {
    48 <= b && b <= 57
}

/// A byte of the identifier character set: ASCII letters, digits and `_`.
pub open spec fn is_ident_byte(b: u8) -> bool {
    (65 <= b && b <= 90) || (97 <= b && b <= 122) || (48 <= b && b <= 57) || b == 95
}

/// A byte sequence rendered as characters, one character per byte.
pub open spec fn chars_of(s: Seq<u8>) -> Seq<char> {
    Seq::new(s.len(), |i: int| s[i] as char)
}

/// The byte at forward offset `k`, with the sentinel 0 beyond the end.
pub open spec fn eff_byte(s: Seq<u8>, k: int) -> u8 {
    if 0 <= k < s.len() {
        s[k]
    } else {
        0
    }
}

/// The longest prefix of `s` whose bytes all satisfy `p`.
pub open spec fn run_len(s: Seq<u8>, p: spec_fn(u8) -> bool) -> nat
    decreases s.len(),
{
    if s.len() == 0 || !p(s[0]) {
        0
    } else {
        1 + run_len(s.skip(1), p)
    }
}

/// Length of the leading whitespace run.
pub open spec fn space_run(s: Seq<u8>) -> nat {
    run_len(s, |b: u8| is_space_byte(b))
}

/// Length of the leading digit run.
pub open spec fn digit_run(s: Seq<u8>) -> nat {
    run_len(s, |b: u8| is_digit_byte(b))
}

/// Length of the leading identifier-byte run.
pub open spec fn ident_run(s: Seq<u8>) -> nat {
    run_len(s, |b: u8| is_ident_byte(b))
}

/// The prefix of `s` before the first sentinel byte: the bytes the scanner
/// can still consume.
pub open spec fn live_prefix(s: Seq<u8>) -> Seq<u8>
    decreases s.len(),
{
    if s.len() == 0 || s[0] == 0 {
        Seq::empty()
    } else {
        seq![s[0]] + live_prefix(s.skip(1))
    }
}

/// What an escape specifier byte decodes to: `n`, `t` and `r` decode to
/// newline, tab and carriage return; any other specifier retains the
/// backslash itself.
pub open spec fn escape_char(b: u8) -> char {
    if b == 110 {
        '\n'
    } else if b == 116 {
        '\t'
    } else if b == 114 {
        '\r'
    } else {
        '\\'
    }
}

/// The quoted-literal scan of `s` from index `i`, with closing delimiter
/// `delim`: returns the decoded content together with the index just past
/// the last byte the scan consumed. The scan ends at the closing delimiter,
/// or early at the end of `s` (an unterminated literal). A backslash
/// consumes the following byte as an escape specifier.
pub open spec fn scan_quoted(s: Seq<u8>, delim: u8, i: nat) -> (Seq<char>, nat)
    decreases s.len() - i,
{
    if i >= s.len() {
        (Seq::empty(), i)
    } else if s[i as int] == 92 {
        if i + 1 >= s.len() {
            (seq!['\\'], (i + 1) as nat)
        } else {
            let r = scan_quoted(s, delim, (i + 2) as nat);
            (seq![escape_char(s[i as int + 1])] + r.0, r.1)
        }
    } else if s[i as int] == delim {
        (Seq::empty(), (i + 1) as nat)
    } else {
        let r = scan_quoted(s, delim, (i + 1) as nat);
        (seq![s[i as int] as char] + r.0, r.1)
    }
}

/// The token begun at the first byte of `r` (no leading whitespace), at
/// source offset `p`, together with the count of bytes it consumes.
pub open spec fn classify(r: Seq<u8>, p: nat) -> (TokenModel, nat) {
    if r.len() == 0 || r[0] == 0 {
        (TokenModel { value: TokenValueModel::Eof, pos: p, len: 0 }, 0)
    } else if r[0] == 34 {
        let q = scan_quoted(r, 34, 1);
        (TokenModel { value: TokenValueModel::Const(TokenConstModel::String(q.0)), pos: p, len: q.1 }, q.1)
    } else if r[0] == 39 {
        let q = scan_quoted(r, 39, 1);
        (TokenModel { value: TokenValueModel::Const(TokenConstModel::Char(q.0)), pos: p, len: q.1 }, q.1)
    } else if is_digit_byte(r[0]) {
        let d = digit_run(r);
        (TokenModel { value: TokenValueModel::Const(TokenConstModel::Numeric(chars_of(r.take(d as int)))), pos: p, len: d }, d)
    } else if is_ident_byte(r[0]) {
        let d = ident_run(r);
        (TokenModel { value: TokenValueModel::Ident(chars_of(r.take(d as int))), pos: p, len: d }, d)
    } else {
        (TokenModel { value: TokenValueModel::InvalidChar(seq![r[0] as char]), pos: p, len: 1 }, 1)
    }
}

/// The next token of the remaining bytes `s` at cursor position `pos`,
/// together with the total count of bytes consumed to produce it
/// (leading whitespace included).
pub open spec fn next_token(s: Seq<u8>, pos: nat) -> (TokenModel, nat) {
    let w = space_run(s);
    let t = classify(s.skip(w as int), pos + w);
    (t.0, w + t.1)
}

/// A leading run never exceeds the sequence, its bytes satisfy the
/// predicate, and the byte after it (if any) does not.
pub proof fn lemma_run_len_props(s: Seq<u8>, p: spec_fn(u8) -> bool)
    ensures
        run_len(s, p) <= s.len(),
        forall|j: int| 0 <= j < run_len(s, p) ==> p(s[j]),
        run_len(s, p) < s.len() ==> !p(s[run_len(s, p) as int]),
    decreases s.len(),
{
    if s.len() == 0 || !p(s[0]) {
    } else {
        lemma_run_len_props(s.skip(1), p);
        assert forall|j: int| 0 <= j < run_len(s, p) implies p(s[j]) by {
            if j > 0 {
                assert(s.skip(1)[j - 1] == s[j]);
            }
        }
        if run_len(s, p) < s.len() {
            assert(s.skip(1)[run_len(s, p) - 1] == s[run_len(s, p) as int]);
        }
    }
}

/// A prefix of `k` bytes satisfying the predicate, followed by a byte that
/// does not (or the end of the sequence), pins the run length to `k`.
pub proof fn lemma_run_len_is(s: Seq<u8>, p: spec_fn(u8) -> bool, k: int)
    requires
        0 <= k <= s.len(),
        forall|j: int| 0 <= j < k ==> p(s[j]),
        k < s.len() ==> !p(s[k]),
    ensures
        run_len(s, p) == k,
    decreases k,
{
    if k == 0 {
        if s.len() > 0 {
            assert(!p(s[0]));
        }
    } else {
        assert(p(s[0]));
        assert forall|j: int| 0 <= j < k - 1 implies p(s.skip(1)[j]) by {
            assert(s.skip(1)[j] == s[j + 1]);
        }
        if k - 1 < s.skip(1).len() {
            assert(s.skip(1)[k - 1] == s[k]);
        }
        lemma_run_len_is(s.skip(1), p, k - 1);
    }
}

/// Splitting off a fully-satisfying prefix shifts the run length.
pub proof fn lemma_run_len_skip(s: Seq<u8>, p: spec_fn(u8) -> bool, k: int)
    requires
        0 <= k <= s.len(),
        forall|j: int| 0 <= j < k ==> p(s[j]),
    ensures
        run_len(s, p) == k + run_len(s.skip(k), p),
    decreases k,
{
    if k == 0 {
        assert(s.skip(0) =~= s);
    } else {
        assert(p(s[0]));
        assert forall|j: int| 0 <= j < k - 1 implies p(s.skip(1)[j]) by {
            assert(s.skip(1)[j] == s[j + 1]);
        }
        lemma_run_len_skip(s.skip(1), p, k - 1);
        assert(s.skip(1).skip(k - 1) =~= s.skip(k));
    }
}

/// The live prefix copies the leading nonzero bytes of `s`: it is bounded
/// by `s`, matches it pointwise, holds no sentinel, and stops exactly at
/// the first sentinel when one exists.
pub proof fn lemma_live_prefix_props(s: Seq<u8>)
    ensures
        live_prefix(s).len() <= s.len(),
        forall|j: int| 0 <= j < live_prefix(s).len() ==> live_prefix(s)[j] == s[j] && s[j] != 0,
        live_prefix(s).len() < s.len() ==> s[live_prefix(s).len() as int] == 0,
    decreases s.len(),
{
    if s.len() == 0 || s[0] == 0 {
    } else {
        lemma_live_prefix_props(s.skip(1));
        let l = live_prefix(s);
        assert forall|j: int| 0 <= j < l.len() implies l[j] == s[j] && s[j] != 0 by {
            if j > 0 {
                assert(l[j] == live_prefix(s.skip(1))[j - 1]);
                assert(s.skip(1)[j - 1] == s[j]);
            }
        }
        if l.len() < s.len() {
            assert(s.skip(1)[l.len() - 1] == s[l.len() as int]);
        }
    }
}

/// Extending a sequence only with sentinel bytes leaves its live prefix
/// unchanged.
pub proof fn lemma_live_prefix_pad(s: Seq<u8>, t: Seq<u8>)
    requires
        s.len() <= t.len(),
        forall|j: int| 0 <= j < s.len() ==> t[j] == s[j],
        forall|j: int| s.len() <= j < t.len() ==> t[j] == 0,
    ensures
        live_prefix(t) == live_prefix(s),
    decreases s.len(),
{
    if s.len() == 0 {
        if t.len() > 0 {
            assert(t[0] == 0);
        }
    } else if s[0] == 0 {
        assert(t[0] == 0);
    } else {
        assert(t[0] == s[0]);
        assert forall|j: int| 0 <= j < s.skip(1).len() implies t.skip(1)[j] == s.skip(1)[j] by {
            assert(t[j + 1] == s[j + 1]);
        }
        assert forall|j: int| s.skip(1).len() <= j < t.skip(1).len() implies t.skip(1)[j] == 0 by {
            assert(t.skip(1)[j] == t[j + 1]);
        }
        lemma_live_prefix_pad(s.skip(1), t.skip(1));
    }
}

/// Consuming `k` live bytes shifts the live prefix by `k`.
pub proof fn lemma_live_prefix_skip(s: Seq<u8>, k: int)
    requires
        0 <= k <= live_prefix(s).len(),
    ensures
        live_prefix(s.skip(k)) == live_prefix(s).skip(k),
    decreases k,
{
    if k == 0 {
        assert(s.skip(0) =~= s);
        assert(live_prefix(s).skip(0) =~= live_prefix(s));
    } else {
        lemma_live_prefix_props(s);
        assert(s[0] != 0);
        lemma_live_prefix_skip(s.skip(1), k - 1);
        assert(s.skip(1).skip(k - 1) =~= s.skip(k));
        assert(live_prefix(s).skip(k) =~= live_prefix(s.skip(1)).skip(k - 1));
    }
}

/// The quoted-literal scan never consumes past the end of the sequence,
/// and always consumes at least up to its starting index.
pub proof fn lemma_scan_quoted_end(s: Seq<u8>, delim: u8, i: nat)
    requires
        i <= s.len(),
    ensures
        i <= scan_quoted(s, delim, i).1 <= s.len(),
    decreases s.len() - i,
{
    if i >= s.len() {
    } else if s[i as int] == 92 {
        if i + 1 >= s.len() {
        } else {
            lemma_scan_quoted_end(s, delim, (i + 2) as nat);
        }
    } else if s[i as int] == delim {
    } else {
        lemma_scan_quoted_end(s, delim, (i + 1) as nat);
    }
}

/// A classified token never consumes more bytes than remain.
pub proof fn lemma_classify_consumed(r: Seq<u8>, p: nat)
    ensures
        classify(r, p).1 <= r.len(),
{
    if r.len() == 0 || r[0] == 0 {
    } else if r[0] == 34 {
        lemma_scan_quoted_end(r, 34, 1);
    } else if r[0] == 39 {
        lemma_scan_quoted_end(r, 39, 1);
    } else if is_digit_byte(r[0]) {
        lemma_run_len_props(r, |b: u8| is_digit_byte(b));
    } else if is_ident_byte(r[0]) {
        lemma_run_len_props(r, |b: u8| is_ident_byte(b));
    } else {
    }
}

/// Ceiling division: how many chunks of size `j` cover `i` bytes.
pub fn div_ceil(i: usize, j: usize) -> (r: usize)
    requires
        j > 0,
    ensures
        i % j == 0 ==> r == i / j,
        i % j != 0 ==> r == i / j + 1,
{
    if i % j == 0 {
        return i / j;
    }
    proof {
        vstd::arithmetic::div_mod::lemma_mod_multiples_basic(i as int, 1);
        assert(j >= 2);
        vstd::arithmetic::div_mod::lemma_small_mod(0, j as nat);
        assert(i > 0);
        vstd::arithmetic::div_mod::lemma_div_decreases(i as int, j as int);
    }
    return i / j + 1;
}

/// The buffered byte source with its position-tracking cursor.
///
/// `source` and `source_read` stand for the underlying byte stream:
/// `source` holds the stream's bytes and `source_read` counts how many of
/// them the lookahead buffer has pulled so far. `cache_chars` is the
/// growable lookahead buffer of pulled, not-yet-consumed bytes, refilled in
/// fixed chunks and zero-padded once the stream runs short; that padding is
/// the end-of-input sentinel. `pos` is the absolute offset of the next
/// unconsumed real byte: it never advances over sentinel bytes.
pub struct Scanner {
    source: Vec<u8>,
    source_read: usize,
    cache_chars: Vec<u8>,
    pub pos: usize,
}

/// Lookahead and consumption over the buffered byte source. `live` is the
/// sequence of real bytes still ahead of the cursor (the stream up to its
/// end, or up to the first zero byte, which the scanner cannot tell from
/// its own end-of-input sentinel); `cursor` is the absolute offset of the
/// next unconsumed byte; `inv` is the scanner's bookkeeping invariant.
pub trait ScannerScan {
    /// Bookkeeping invariant of stream, buffer and cursor.
    spec fn inv(&self) -> bool;

    /// The real bytes not yet consumed.
    spec fn live(&self) -> Seq<u8>;

    /// Absolute offset of the next unconsumed real byte.
    spec fn cursor(&self) -> nat;

    /// Pull bytes from the source until the lookahead buffer covers forward
    /// offset `position`; the visible scanner state does not change.
    fn forward_file(&mut self, position: usize)
        requires
            old(self).inv(),
            position < usize::MAX,
        ensures
            final(self).inv(),
            final(self).live() == old(self).live(),
            final(self).cursor() == old(self).cursor(),
    ;

    /// The byte at forward offset `position`: the stream's byte while one
    /// is left, the sentinel 0 at the end of input.
    fn read_pos(&mut self, position: usize) -> (b: u8)
        requires
            old(self).inv(),
            position <= old(self).live().len(),
        ensures
            final(self).inv(),
            final(self).live() == old(self).live(),
            final(self).cursor() == old(self).cursor(),
            b == eff_byte(old(self).live(), position as int),
    ;

    /// Consume the first `position` buffered bytes, advancing the cursor
    /// once per consumed real byte.
    fn forward_pos(&mut self, position: usize)
        requires
            old(self).inv(),
            position <= old(self).live().len(),
        ensures
            final(self).inv(),
            final(self).live() == old(self).live().skip(position as int),
            final(self).cursor() == old(self).cursor() + position,
    ;
}

impl Scanner {
    /// The bytes ahead of the cursor: lookahead buffer first, then the
    /// stream bytes not yet pulled into it.
    pub closed spec fn pending(&self) -> Seq<u8> {
        self.cache_chars@ + self.source@.skip(self.source_read as int)
    }

    /// How many bytes the lookahead buffer holds.
    pub closed spec fn buffered(&self) -> nat {
        self.cache_chars@.len()
    }

    /// Bookkeeping between stream, buffer and cursor: the buffer never
    /// pulls past the stream's end, and the cursor can still advance over
    /// every remaining real byte without exhausting `usize`.
    pub closed spec fn wf(&self) -> bool {
        &&& self.source_read <= self.source@.len()
        &&& self.pos + live_prefix(self.pending()).len() < usize::MAX
    }

    /// A scanner over an in-memory byte stream, positioned at offset 0.
    pub fn from_bytes(source: Vec<u8>) -> (sc: Scanner)
        requires
            source@.len() < usize::MAX,
        ensures
            sc.inv(),
            sc.live() == live_prefix(source@),
            sc.cursor() == 0,
    {
        let sc = Scanner { source, source_read: 0, cache_chars: Vec::new(), pos: 0 };
        proof {
            assert(sc.pending() =~= sc.source@);
            lemma_live_prefix_props(sc.pending());
        }
        sc
    }

    /// A scanner over the bytes of an in-memory text, positioned at 0.
    pub fn from_string(s: &str) -> (sc: Scanner)
        requires
            s.spec_bytes().len() < usize::MAX,
        ensures
            sc.inv(),
            sc.live() == live_prefix(s.spec_bytes()),
            sc.cursor() == 0,
    {
        let bytes = vstd::slice::slice_to_vec(s.as_bytes());
        Scanner::from_bytes(bytes)
    }
}

impl ScannerScan for Scanner {
    closed spec fn inv(&self) -> bool {
        self.wf()
    }

    closed spec fn live(&self) -> Seq<u8> {
        live_prefix(self.pending())
    }

    closed spec fn cursor(&self) -> nat {
        self.pos as nat
    }

    fn forward_file(&mut self, position: usize)
        ensures
            final(self).buffered() > position,
            final(self).pending().len() >= old(self).pending().len(),
            forall|k: int|
                0 <= k < old(self).pending().len()
                    ==> final(self).pending()[k] == old(self).pending()[k],
            forall|k: int|
                old(self).pending().len() <= k < final(self).pending().len()
                    ==> final(self).pending()[k] == 0,
    {
        let l = position + 1;
        let c_len = self.cache_chars.len();
        if l > c_len {
            let ii = div_ceil(l - c_len, 8);
            proof {
                vstd::arithmetic::div_mod::lemma_fundamental_div_mod((l - c_len) as int, 8);
                vstd::arithmetic::div_mod::lemma_mod_bound((l - c_len) as int, 8);
            }
            let ghost pend0 = self.pending();
            let mut n: usize = 0;
            while n < ii
                invariant
                    n <= ii,
                    self.cache_chars@.len() == c_len + n * 8,
                    self.source_read <= self.source@.len(),
                    self.pos == old(self).pos,
                    self.source@ == old(self).source@,
                    self.pending().len() >= pend0.len(),
                    forall|k: int| 0 <= k < pend0.len() ==> self.pending()[k] == pend0[k],
                    forall|k: int|
                        pend0.len() <= k < self.pending().len() ==> self.pending()[k] == 0,
                decreases ii - n,
            {
                let mut j: usize = 0;
                while j < 8
                    invariant
                        j <= 8,
                        self.cache_chars@.len() == c_len + n * 8 + j,
                        self.source_read <= self.source@.len(),
                        self.pos == old(self).pos,
                        self.source@ == old(self).source@,
                        self.pending().len() >= pend0.len(),
                        forall|k: int| 0 <= k < pend0.len() ==> self.pending()[k] == pend0[k],
                        forall|k: int|
                            pend0.len() <= k < self.pending().len() ==> self.pending()[k] == 0,
                    decreases 8 - j,
                {
                    let ghost pend_before = self.pending();
                    if self.source_read < self.source.len() {
                        let b = self.source[self.source_read];
                        self.cache_chars.push(b);
                        self.source_read = self.source_read + 1;
                        proof {
                            assert(self.pending() =~= pend_before);
                        }
                    } else {
                        self.cache_chars.push(0);
                        proof {
                            assert(self.pending() =~= pend_before + seq![0u8]);
                        }
                    }
                    j = j + 1;
                }
                n = n + 1;
            }
        }
        proof {
            let t = self.pending();
            let s = old(self).pending();
            lemma_live_prefix_pad(s, t);
        }
    }

    fn read_pos(&mut self, position: usize) -> (b: u8) {
        proof {
            lemma_live_prefix_props(old(self).pending());
        }
        self.forward_file(position);
        proof {
            lemma_live_prefix_pad(old(self).pending(), self.pending());
            lemma_live_prefix_props(self.pending());
        }
        let b = self.cache_chars[position];
        proof {
            let lv = live_prefix(self.pending());
            assert(self.pending()[position as int] == self.cache_chars@[position as int]);
            if (position as int) < lv.len() {
                assert(lv[position as int] == self.pending()[position as int]);
            } else {
                assert(self.pending()[position as int] == 0);
            }
        }
        b
    }

    fn forward_pos(&mut self, position: usize) {
        proof {
            lemma_live_prefix_props(old(self).pending());
        }
        self.forward_file(position);
        proof {
            lemma_live_prefix_pad(old(self).pending(), self.pending());
            lemma_live_prefix_props(self.pending());
        }
        let ghost pend1 = self.pending();
        let ghost live1 = live_prefix(pend1);
        let ghost src1 = self.source@;
        let ghost sr1 = self.source_read;
        let ghost pos1 = self.pos;
        proof {
            assert(pend1.skip(0) =~= pend1);
            assert(live1.skip(0) =~= live1);
        }
        let mut t: usize = 0;
        while t < position
            invariant
                t <= position,
                position <= live1.len(),
                live1 == live_prefix(pend1),
                live1 == old(self).live(),
                self.source@ == src1,
                self.source_read == sr1,
                sr1 <= src1.len(),
                self.pos == pos1 + t,
                pos1 + live1.len() < usize::MAX,
                self.pending() == pend1.skip(t as int),
                live_prefix(self.pending()) == live1.skip(t as int),
                self.cache_chars@.len() + t > position,
            decreases position - t,
        {
            proof {
                lemma_live_prefix_props(pend1);
                assert(self.pending()[0] == pend1[t as int]);
                assert(pend1[t as int] == live1[t as int]);
                assert(self.cache_chars@[0] == self.pending()[0]);
            }
            if self.cache_chars[0] != 0 {
                self.pos = self.pos + 1;
            }
            let ghost pend_cur = self.pending();
            self.cache_chars.remove(0);
            proof {
                assert(self.pending() =~= pend_cur.skip(1));
                assert(pend_cur.skip(1) =~= pend1.skip(t + 1));
                lemma_live_prefix_skip(pend_cur, 1);
                assert(live_prefix(pend_cur).skip(1) =~= live1.skip(t + 1));
            }
            t = t + 1;
        }
        proof {
            lemma_live_prefix_props(pend1);
        }
    }
}


/// Membership in the identifier character set, as a pure predicate over
/// ASCII codes.
fn is_ident_char(c: u8) -> (r: bool)
    ensures
        r == is_ident_byte(c),
{
    (c >= 65 && c <= 90) || (c >= 97 && c <= 122) || (c >= 48 && c <= 57) || c == 95
}

/// What an escape specifier decodes to, executably.
fn escape_char_of(b: u8) -> (c: char)
    ensures
        c == escape_char(b),
{
    if b == 110 {
        '\n'
    } else if b == 116 {
        '\t'
    } else if b == 114 {
        '\r'
    } else {
        '\\'
    }
}

/// Consumer-facing pull/push access to a token stream.
pub trait ScannerTokenizer {
    fn get_token(&mut self) -> Token;

    fn push_token(&mut self, t: Token);
}

/// Token production: the classifier dispatch (`read`) and the literal
/// readers it dispatches to. Every method returns a batch holding exactly
/// one fully-formed token.
pub trait ScannerRead: ScannerScan {
    /// Skip leading whitespace, classify the byte at offset 0 and produce
    /// the next token of the stream.
    fn read(&mut self) -> (ts: Vec<Token>)
        requires
            old(self).inv(),
        ensures
            final(self).inv(),
            ts@.len() == 1,
            ts@[0]@ == next_token(old(self).live(), old(self).cursor()).0,
            final(self).live() == old(self).live().skip(
                next_token(old(self).live(), old(self).cursor()).1 as int,
            ),
            final(self).cursor() == old(self).cursor() + next_token(
                old(self).live(),
                old(self).cursor(),
            ).1,
    ;

    /// Consume one byte (the classifier calls this on whitespace) and read
    /// the next token after it.
    fn jump_space(&mut self) -> (ts: Vec<Token>)
        requires
            old(self).inv(),
            old(self).live().len() >= 1,
        ensures
            final(self).inv(),
            ts@.len() == 1,
            ts@[0]@ == next_token(old(self).live().skip(1), old(self).cursor() + 1).0,
            final(self).live() == old(self).live().skip(1).skip(
                next_token(old(self).live().skip(1), old(self).cursor() + 1).1 as int,
            ),
            final(self).cursor() == old(self).cursor() + 1 + next_token(
                old(self).live().skip(1),
                old(self).cursor() + 1,
            ).1,
    ;

    /// Read a single-quote-delimited literal starting at the current byte.
    fn read_char(&mut self) -> (ts: Vec<Token>)
        requires
            old(self).inv(),
            old(self).live().len() >= 1,
        ensures
            final(self).inv(),
            ts@.len() == 1,
            ts@[0]@ == (TokenModel {
                value: TokenValueModel::Const(TokenConstModel::Char(
                    scan_quoted(old(self).live(), old(self).live()[0], 1).0,
                )),
                pos: old(self).cursor(),
                len: scan_quoted(old(self).live(), old(self).live()[0], 1).1,
            }),
            final(self).live() == old(self).live().skip(
                scan_quoted(old(self).live(), old(self).live()[0], 1).1 as int,
            ),
            final(self).cursor() == old(self).cursor() + scan_quoted(
                old(self).live(),
                old(self).live()[0],
                1,
            ).1,
    ;

    /// Read the maximal identifier-byte run starting at the current byte.
    fn read_ident(&mut self) -> (ts: Vec<Token>)
        requires
            old(self).inv(),
            old(self).live().len() >= 1,
            is_ident_byte(old(self).live()[0]),
        ensures
            final(self).inv(),
            ts@.len() == 1,
            ts@[0]@ == (TokenModel {
                value: TokenValueModel::Ident(
                    chars_of(old(self).live().take(ident_run(old(self).live()) as int)),
                ),
                pos: old(self).cursor(),
                len: ident_run(old(self).live()),
            }),
            final(self).live() == old(self).live().skip(ident_run(old(self).live()) as int),
            final(self).cursor() == old(self).cursor() + ident_run(old(self).live()),
    ;

    /// Consume one unclassifiable byte and emit it as an invalid-byte
    /// marker.
    fn read_invalid_char(&mut self) -> (ts: Vec<Token>)
        requires
            old(self).inv(),
            old(self).live().len() >= 1,
        ensures
            final(self).inv(),
            ts@.len() == 1,
            ts@[0]@ == (TokenModel {
                value: TokenValueModel::InvalidChar(seq![old(self).live()[0] as char]),
                pos: old(self).cursor(),
                len: 1,
            }),
            final(self).live() == old(self).live().skip(1),
            final(self).cursor() == old(self).cursor() + 1,
    ;

    /// Read the maximal decimal-digit run starting at the current byte.
    fn read_numeric(&mut self) -> (ts: Vec<Token>)
        requires
            old(self).inv(),
            old(self).live().len() >= 1,
            is_digit_byte(old(self).live()[0]),
        ensures
            final(self).inv(),
            ts@.len() == 1,
            ts@[0]@ == (TokenModel {
                value: TokenValueModel::Const(TokenConstModel::Numeric(
                    chars_of(old(self).live().take(digit_run(old(self).live()) as int)),
                )),
                pos: old(self).cursor(),
                len: digit_run(old(self).live()),
            }),
            final(self).live() == old(self).live().skip(digit_run(old(self).live()) as int),
            final(self).cursor() == old(self).cursor() + digit_run(old(self).live()),
    ;

    /// Emit the end-of-input token at the current position, consuming
    /// nothing: the cursor never advances over the sentinel, so repeated
    /// reads at the end of input all report the same position.
    fn read_eof(&mut self) -> (ts: Vec<Token>)
        requires
            old(self).inv(),
        ensures
            final(self).inv(),
            ts@.len() == 1,
            ts@[0]@ == (TokenModel {
                value: TokenValueModel::Eof,
                pos: old(self).cursor(),
                len: 0,
            }),
            final(self).live() == old(self).live(),
            final(self).cursor() == old(self).cursor(),
    ;

    /// Read a double-quote-delimited literal starting at the current byte.
    fn read_string(&mut self) -> (ts: Vec<Token>)
        requires
            old(self).inv(),
            old(self).live().len() >= 1,
        ensures
            final(self).inv(),
            ts@.len() == 1,
            ts@[0]@ == (TokenModel {
                value: TokenValueModel::Const(TokenConstModel::String(
                    scan_quoted(old(self).live(), old(self).live()[0], 1).0,
                )),
                pos: old(self).cursor(),
                len: scan_quoted(old(self).live(), old(self).live()[0], 1).1,
            }),
            final(self).live() == old(self).live().skip(
                scan_quoted(old(self).live(), old(self).live()[0], 1).1 as int,
            ),
            final(self).cursor() == old(self).cursor() + scan_quoted(
                old(self).live(),
                old(self).live()[0],
                1,
            ).1,
    ;

    /// The shared quoted-literal scan: decode the literal whose opening
    /// delimiter is the current byte, returning the decoded text, the
    /// literal's start offset and the count of bytes consumed.
    fn make_string(&mut self) -> (r: (String, usize, usize))
        requires
            old(self).inv(),
            old(self).live().len() >= 1,
        ensures
            final(self).inv(),
            r.0@ == scan_quoted(old(self).live(), old(self).live()[0], 1).0,
            r.1 == old(self).cursor(),
            r.2 == scan_quoted(old(self).live(), old(self).live()[0], 1).1,
            final(self).live() == old(self).live().skip(
                scan_quoted(old(self).live(), old(self).live()[0], 1).1 as int,
            ),
            final(self).cursor() == old(self).cursor() + scan_quoted(
                old(self).live(),
                old(self).live()[0],
                1,
            ).1,
    ;
}


impl ScannerRead for Scanner {
    fn read(&mut self) -> (ts: Vec<Token>) {
        let ghost s0 = self.live();
        let ghost p0 = self.cursor();
        let mut c = self.read_pos(0);
        proof {
            assert(s0.skip(0) =~= s0);
        }
        while c == 32 || c == 9 || c == 13
            invariant
                self.inv(),
                p0 <= self.cursor(),
                self.cursor() - p0 <= s0.len(),
                forall|j: int| 0 <= j < self.cursor() - p0 ==> is_space_byte(s0[j]),
                self.live() == s0.skip(self.cursor() - p0),
                c == eff_byte(self.live(), 0),
            decreases s0.len() - (self.cursor() - p0),
        {
            proof {
                assert(self.live().len() >= 1);
                assert(self.live()[0] == s0[self.cursor() - p0]);
            }
            let ghost w_before = self.cursor() - p0;
            self.forward_pos(1);
            proof {
                assert(s0.skip(w_before).skip(1) =~= s0.skip(w_before + 1));
            }
            c = self.read_pos(0);
        }
        let ghost w = self.cursor() - p0;
        proof {
            if w < s0.len() {
                assert(s0[w] == eff_byte(s0.skip(w), 0));
                assert(!is_space_byte(s0[w]));
            }
            lemma_run_len_is(s0, |b: u8| is_space_byte(b), w);
            assert(space_run(s0) == w);
        }
        let ghost r0 = self.live();
        let ts: Vec<Token>;
        if c == 0 {
            proof {
                lemma_live_prefix_props(self.pending());
                assert(r0.len() == 0);
            }
            ts = self.read_eof();
            proof {
                assert(s0.skip(w).skip(0) =~= s0.skip(w));
            }
        } else if c == 34 {
            ts = self.read_string();
        } else if c == 39 {
            ts = self.read_char();
        } else if c >= 48 && c <= 57 {
            ts = self.read_numeric();
        } else if is_ident_char(c) {
            ts = self.read_ident();
        } else {
            ts = self.read_invalid_char();
        }
        proof {
            lemma_classify_consumed(r0, (p0 + w) as nat);
            let n = classify(r0, (p0 + w) as nat).1;
            assert(s0.skip(w).skip(n as int) =~= s0.skip(w + n));
        }
        ts
    }

    fn jump_space(&mut self) -> (ts: Vec<Token>) {
        self.forward_pos(1);
        self.read()
    }

    fn read_ident(&mut self) -> (ts: Vec<Token>) {
        let ghost s0 = self.live();
        let ghost p0 = self.cursor();
        let mut ii: usize = 0;
        let pos = self.pos;
        let c = self.read_pos(0);
        let mut buf: Vec<char> = Vec::new();
        buf.push(c as char);
        proof {
            lemma_run_len_props(s0, |b: u8| is_ident_byte(b));
            assert(ident_run(s0) >= 1) by {
                if ident_run(s0) == 0 {
                    assert(!is_ident_byte(s0[0]));
                }
            }
            assert(buf@ =~= chars_of(s0.take(1)));
        }
        loop
            invariant_except_break
                self.inv(),
                self.live() == s0,
                self.cursor() == p0,
                pos == p0,
                s0.len() >= 1,
                ii + 1 <= ident_run(s0),
                ident_run(s0) <= s0.len(),
                forall|j: int| 0 <= j < ident_run(s0) ==> is_ident_byte(s0[j]),
                ident_run(s0) < s0.len() ==> !is_ident_byte(s0[ident_run(s0) as int]),
                buf@ == chars_of(s0.take(ii + 1)),
            ensures
                self.inv(),
                self.live() == s0,
                self.cursor() == p0,
                pos == p0,
                ii == ident_run(s0),
                ident_run(s0) <= s0.len(),
                buf@ == chars_of(s0.take(ii as int)),
            decreases ident_run(s0) - ii,
        {
            ii = ii + 1;
            let c2 = self.read_pos(ii);
            if is_ident_char(c2) {
                proof {
                    assert(ii < s0.len() && c2 == s0[ii as int]) by {
                        if ii >= s0.len() {
                            assert(c2 == 0);
                            assert(!is_ident_byte(0));
                        }
                    }
                    assert(ii + 1 <= ident_run(s0)) by {
                        if ident_run(s0) <= ii {
                            assert(ident_run(s0) < s0.len());
                            assert(ident_run(s0) == ii);
                        }
                    }
                }
                buf.push(c2 as char);
                proof {
                    assert(buf@ =~= chars_of(s0.take(ii + 1)));
                }
            } else {
                proof {
                    assert(ii == ident_run(s0)) by {
                        if ii < ident_run(s0) {
                            assert(is_ident_byte(s0[ii as int]));
                            assert(c2 == s0[ii as int]);
                        }
                    }
                }
                break;
            }
        }
        self.forward_pos(ii);
        let mut b = buf;
        let text = b.to_string();
        let t = Token::create_token_ident(text.as_str(), pos, ii);
        let mut ts: Vec<Token> = Vec::new();
        ts.push(t);
        ts
    }

    fn read_invalid_char(&mut self) -> (ts: Vec<Token>) {
        let c = self.read_pos(0);
        let pos = self.pos;
        let mut buf: Vec<char> = Vec::new();
        buf.push(c as char);
        let text = buf.to_string();
        self.forward_pos(1);
        let t = Token::create_invalid_char(text, pos);
        proof {
            assert(text@ =~= seq![old(self).live()[0] as char]);
        }
        let mut ts: Vec<Token> = Vec::new();
        ts.push(t);
        ts
    }

    fn read_eof(&mut self) -> (ts: Vec<Token>) {
        let t = Token::create_token_eof(self.pos);
        let mut ts: Vec<Token> = Vec::new();
        ts.push(t);
        ts
    }

    fn read_char(&mut self) -> (ts: Vec<Token>) {
        let (stuff_str, pos, ii) = self.make_string();
        let t = Token::create_token_char(stuff_str.as_str(), pos, ii);
        let mut ts: Vec<Token> = Vec::new();
        ts.push(t);
        ts
    }

    fn read_string(&mut self) -> (ts: Vec<Token>) {
        let (stuff_str, pos, ii) = self.make_string();
        let t = Token::create_token_string(stuff_str.as_str(), pos, ii);
        let mut ts: Vec<Token> = Vec::new();
        ts.push(t);
        ts
    }

    fn read_numeric(&mut self) -> (ts: Vec<Token>) {
        let ghost s0 = self.live();
        let ghost p0 = self.cursor();
        let mut ii: usize = 0;
        let pos = self.pos;
        let c = self.read_pos(0);
        let mut buf: Vec<char> = Vec::new();
        buf.push(c as char);
        proof {
            lemma_run_len_props(s0, |b: u8| is_digit_byte(b));
            assert(digit_run(s0) >= 1) by {
                if digit_run(s0) == 0 {
                    assert(!is_digit_byte(s0[0]));
                }
            }
            assert(buf@ =~= chars_of(s0.take(1)));
        }
        loop
            invariant_except_break
                self.inv(),
                self.live() == s0,
                self.cursor() == p0,
                pos == p0,
                s0.len() >= 1,
                ii + 1 <= digit_run(s0),
                digit_run(s0) <= s0.len(),
                forall|j: int| 0 <= j < digit_run(s0) ==> is_digit_byte(s0[j]),
                digit_run(s0) < s0.len() ==> !is_digit_byte(s0[digit_run(s0) as int]),
                buf@ == chars_of(s0.take(ii + 1)),
            ensures
                self.inv(),
                self.live() == s0,
                self.cursor() == p0,
                pos == p0,
                ii == digit_run(s0),
                digit_run(s0) <= s0.len(),
                buf@ == chars_of(s0.take(ii as int)),
            decreases digit_run(s0) - ii,
        {
            ii = ii + 1;
            let c2 = self.read_pos(ii);
            if c2 >= 48 && c2 <= 57 {
                proof {
                    assert(ii < s0.len() && c2 == s0[ii as int]) by {
                        if ii >= s0.len() {
                            assert(c2 == 0);
                        }
                    }
                    assert(ii + 1 <= digit_run(s0)) by {
                        if digit_run(s0) <= ii {
                            assert(digit_run(s0) < s0.len());
                            assert(digit_run(s0) == ii);
                        }
                    }
                }
                buf.push(c2 as char);
                proof {
                    assert(buf@ =~= chars_of(s0.take(ii + 1)));
                }
            } else {
                proof {
                    assert(ii == digit_run(s0)) by {
                        if ii < digit_run(s0) {
                            assert(is_digit_byte(s0[ii as int]));
                            assert(c2 == s0[ii as int]);
                        }
                    }
                }
                break;
            }
        }
        self.forward_pos(ii);
        let mut b = buf;
        let text = b.to_string();
        let t = Token::create_token_numeric(text.as_str(), pos, ii);
        let mut ts: Vec<Token> = Vec::new();
        ts.push(t);
        ts
    }

    fn make_string(&mut self) -> (r: (String, usize, usize)) {
        let ghost s0 = self.live();
        let ghost p0 = self.cursor();
        let mut ii: usize = 0;
        let pos = self.pos;
        let char_end = self.read_pos(0);
        let mut buf: Vec<char> = Vec::new();
        proof {
            assert(char_end == s0[0]);
            lemma_live_prefix_props(self.pending());
            assert(s0 == live_prefix(self.pending()));
            assert forall|j: int| 0 <= j < s0.len() implies s0[j] != 0 by {
                assert(live_prefix(self.pending())[j] == self.pending()[j]);
            }
            assert(buf@ + scan_quoted(s0, char_end, 1).0 =~= scan_quoted(s0, char_end, 1).0);
        }
        loop
            invariant_except_break
                self.inv(),
                self.live() == s0,
                self.cursor() == p0,
                pos == p0,
                s0.len() >= 1,
                char_end == s0[0],
                forall|j: int| 0 <= j < s0.len() ==> s0[j] != 0,
                1 <= ii + 1 <= s0.len(),
                scan_quoted(s0, char_end, 1).0 == buf@ + scan_quoted(
                    s0,
                    char_end,
                    (ii + 1) as nat,
                ).0,
                scan_quoted(s0, char_end, 1).1 == scan_quoted(s0, char_end, (ii + 1) as nat).1,
            ensures
                self.inv(),
                self.live() == s0,
                self.cursor() == p0,
                pos == p0,
                s0.len() >= 1,
                ii <= s0.len(),
                buf@ == scan_quoted(s0, char_end, 1).0,
                ii == scan_quoted(s0, char_end, 1).1,
            decreases s0.len() - ii,
        {
            ii = ii + 1;
            let c = self.read_pos(ii);
            if c == 0 {
                proof {
                    assert(ii == s0.len());
                    assert(buf@ + scan_quoted(s0, char_end, ii as nat).0 =~= buf@);
                }
                break;
            } else if c == 92 {
                proof {
                    assert(ii < s0.len());
                    assert(c == s0[ii as int]);
                }
                let c2 = self.read_pos(ii + 1);
                if c2 == 0 {
                    buf.push('\\');
                    proof {
                        assert(ii + 1 == s0.len());
                        let prev = buf@.take(buf@.len() - 1);
                        assert(prev + (seq!['\\'] + Seq::<char>::empty()) =~= buf@);
                        assert(scan_quoted(s0, char_end, (ii + 1) as nat).0 =~= Seq::<
                            char,
                        >::empty());
                        assert(prev + seq!['\\'] =~= buf@);
                    }
                    ii = ii + 1;
                    break;
                } else {
                    proof {
                        assert(ii + 1 < s0.len());
                        assert(c2 == s0[ii + 1]);
                    }
                    buf.push(escape_char_of(c2));
                    proof {
                        let prev = buf@.take(buf@.len() - 1);
                        assert(prev + (seq![escape_char(s0[ii + 1])] + scan_quoted(
                            s0,
                            char_end,
                            (ii + 2) as nat,
                        ).0) =~= buf@ + scan_quoted(s0, char_end, (ii + 2) as nat).0);
                    }
                    ii = ii + 1;
                }
            } else if c == char_end {
                proof {
                    assert(ii < s0.len());
                    assert(c == s0[ii as int]);
                    assert(buf@ + Seq::<char>::empty() =~= buf@);
                }
                ii = ii + 1;
                break;
            } else {
                proof {
                    assert(ii < s0.len());
                    assert(c == s0[ii as int]);
                    let prev = buf@;
                    assert(prev + (seq![s0[ii as int] as char] + scan_quoted(
                        s0,
                        char_end,
                        (ii + 1) as nat,
                    ).0) =~= (prev + seq![s0[ii as int] as char]) + scan_quoted(
                        s0,
                        char_end,
                        (ii + 1) as nat,
                    ).0);
                }
                buf.push(c as char);
                proof {
                    let prev = buf@.take(buf@.len() - 1);
                    assert(prev.push(s0[ii as int] as char) =~= prev + seq![s0[ii as int] as char]);
                }
            }
        }
        self.forward_pos(ii);
        let mut b = buf;
        let text = b.to_string();
        (text, pos, ii)
    }
}

} // verus!
