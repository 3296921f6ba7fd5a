//! The lexer: converts a file's raw text into a finite token sequence.
//!
//! Scanning is single-pass maximal munch: keyword lookup takes priority over
//! identifier classification, and `//` (a comment, consumed to the end of the
//! line) is recognized before the single operator `/`. Whitespace and
//! comments produce no tokens. The final element of a successful scan is
//! exactly one end-of-input token with an empty span at the text's end.

use vstd::prelude::*;
use crate::error::{Error, LitDefect};
use crate::loc::{Loc, Span};
use crate::token::{Token, TokenKind};

verus! {

/// True for the whitespace bytes the lexer consumes: space, tab, carriage
/// return and newline.
pub open spec fn is_ws(b: u8) -> bool {
    b == 32 || b == 9 || b == 13 || b == 10
}

/// True for a byte that may start an identifier: a letter or `_`.
pub open spec fn is_ident_start(b: u8) -> bool {
    (65 <= b && b <= 90) || (97 <= b && b <= 122) || b == 95
}

/// True for a byte that may continue an identifier.
pub open spec fn is_ident_cont(b: u8) -> bool {
    is_ident_start(b) || is_digit(b)
}

/// True for a decimal digit byte.
pub open spec fn is_digit(b: u8) -> bool {
    48 <= b && b <= 57
}

/// True for a byte that is a one-byte operator, sign or delimiter token.
pub open spec fn is_op_byte(b: u8) -> bool {
    b == 43 || b == 45 || b == 42 || b == 47 || b == 61 || b == 40 || b == 41 || b == 123
        || b == 125 || b == 44 || b == 59
}

/// True for a byte at which some token (or skipped text) may begin.
pub open spec fn byte_starts_token(b: u8) -> bool {
    is_ws(b) || is_ident_start(b) || is_digit(b) || b == 34 || is_op_byte(b)
}

/// True for a byte that may follow `\` in a string literal.
pub open spec fn valid_escape(b: u8) -> bool {
    b == 110 || b == 116 || b == 114 || b == 92 || b == 34
}

/// The identifier bytes that are keywords, and the token class of each.
pub open spec fn spec_keyword_kind(s: Seq<u8>) -> TokenKind {
    if s == seq![102u8, 110u8] {
        TokenKind::KwFn
    } else if s == seq![108u8, 101u8, 116u8] {
        TokenKind::KwLet
    } else if s == seq![114u8, 101u8, 116u8, 117u8, 114u8, 110u8] {
        TokenKind::KwReturn
    } else {
        TokenKind::Ident
    }
}

/// The numeric value of a run of decimal digit bytes, most significant
/// first.
pub open spec fn dec_value(s: Seq<u8>) -> int
    decreases s.len(),
{
    if s.len() == 0 {
        0
    } else {
        dec_value(s.drop_last()) * 10 + (s.last() - 48)
    }
}

/// True when the bytes of `s` from `a` to `b` are lexically insignificant:
/// whitespace, and comments each ending at a newline or at the text's end.
pub open spec fn skippable(s: Seq<u8>, a: int, b: int) -> bool
    decreases b - a, 0int,
{
    if a >= b {
        true
    } else if is_ws(s[a]) {
        skippable(s, a + 1, b)
    } else if s[a] == 47 && a + 1 < b && s[a + 1] == 47 {
        in_comment(s, a + 2, b)
    } else {
        false
    }
}

/// The bytes of `s` from `a` to `b`, read from inside a comment: anything up
/// to a newline, after which insignificant text continues; a comment may end
/// without a newline only at the end of the text.
pub open spec fn in_comment(s: Seq<u8>, a: int, b: int) -> bool
    decreases b - a, 1int,
{
    if a >= b {
        b == s.len()
    } else if s[a] == 10 {
        skippable(s, a, b)
    } else {
        in_comment(s, a + 1, b)
    }
}

proof fn lemma_skippable_concat(s: Seq<u8>, a: int, b: int, c: int)
    requires
        a <= b <= c <= s.len(),
        skippable(s, a, b),
        skippable(s, b, c),
    ensures
        skippable(s, a, c),
    decreases b - a, 0int,
{
    if a >= b {
    } else if is_ws(s[a]) {
        lemma_skippable_concat(s, a + 1, b, c);
    } else {
        lemma_in_comment_concat(s, a + 2, b, c);
    }
}

proof fn lemma_in_comment_concat(s: Seq<u8>, a: int, b: int, c: int)
    requires
        a <= b <= c <= s.len(),
        in_comment(s, a, b),
        skippable(s, b, c),
    ensures
        in_comment(s, a, c),
    decreases b - a, 1int,
{
    if a >= b {
        assert(b == s.len());
        assert(c == b);
    } else if s[a] == 10 {
        lemma_skippable_concat(s, a, b, c);
    } else {
        lemma_in_comment_concat(s, a + 1, b, c);
    }
}

proof fn lemma_comment_body(s: Seq<u8>, a: int, e: int)
    requires
        0 <= a <= e <= s.len(),
        forall|m: int| a <= m < e ==> s[m] != 10,
        e == s.len() || (e < s.len() && s[e] == 10),
    ensures
        e == s.len() ==> in_comment(s, a, e),
        e < s.len() ==> in_comment(s, a, e + 1),
    decreases e - a,
{
    if a >= e {
        if e < s.len() {
            assert(skippable(s, e + 1, e + 1));
            assert(skippable(s, e, e + 1));
            assert(in_comment(s, e, e + 1));
        }
    } else {
        lemma_comment_body(s, a + 1, e);
    }
}

/// The start of the text still to scan: the end of the last token emitted,
/// or the start of the text when none has been.
pub open spec fn last_token_end(toks: Seq<Token>) -> int {
    if toks.len() == 0 {
        0
    } else {
        toks[toks.len() - 1].loc.span.end as int
    }
}

/// Nothing lexically significant lies outside the tokens' spans: the text
/// before the first token and between consecutive tokens is whitespace and
/// comments only.
pub open spec fn stream_gapless(toks: Seq<Token>, s: Seq<u8>) -> bool {
    &&& toks.len() > 0 ==> skippable(s, 0, toks[0].loc.span.start as int)
    &&& forall|i: int, j: int| #![trigger toks[i], toks[j]] 0 <= i && j == i + 1 && j
        < toks.len() ==> skippable(s, toks[i].loc.span.end as int, toks[j].loc.span.start as int)
}

proof fn lemma_gapless_push(toks: Seq<Token>, t: Token, s: Seq<u8>)
    requires
        stream_gapless(toks, s),
        skippable(s, last_token_end(toks), t.loc.span.start as int),
    ensures
        stream_gapless(toks.push(t), s),
{
    let r = toks.push(t);
    if toks.len() > 0 {
        assert(r[0] == toks[0]);
    }
    assert forall|i: int, j: int| #![trigger r[i], r[j]] 0 <= i && j == i + 1 && j < r.len()
        implies skippable(s, r[i].loc.span.end as int, r[j].loc.span.start as int) by {
        assert(r[i] == toks[i]);
        if j < toks.len() {
            assert(r[j] == toks[j]);
        } else {
            assert(r[j] == t);
            assert(i == toks.len() - 1);
        }
    }
}

/// True when no identifier or numeral continues at offset `b`: the token
/// ending there was scanned by maximal munch.
pub open spec fn ident_ends_at(s: Seq<u8>, b: int) -> bool {
    b == s.len() || !is_ident_cont(s[b])
}

/// The byte an escape sequence `\x` denotes.
pub open spec fn unescape(b: u8) -> u8 {
    if b == 110 {
        10
    } else if b == 116 {
        9
    } else if b == 114 {
        13
    } else {
        b
    }
}

/// Scanning a string literal's body from offset `i` (just past a quote):
/// the decoded bytes and the offset after the closing quote, or `None` when
/// the literal is unterminated or holds an invalid escape.
pub open spec fn spec_str_scan(s: Seq<u8>, i: int) -> Option<(Seq<u8>, int)>
    decreases s.len() - i,
{
    if i < 0 || i >= s.len() {
        None
    } else if s[i] == 34 {
        Some((Seq::empty(), i + 1))
    } else if s[i] == 92 {
        if i + 1 >= s.len() || !valid_escape(s[i + 1]) {
            None
        } else {
            match spec_str_scan(s, i + 2) {
                Some(p) => Some((seq![unescape(s[i + 1])] + p.0, p.1)),
                None => None,
            }
        }
    } else {
        match spec_str_scan(s, i + 1) {
            Some(p) => Some((seq![s[i]] + p.0, p.1)),
            None => None,
        }
    }
}

/// The scan can actually stand at offset `x`: some well-formed, text-true
/// token sequence covers the text before `x`, with only whitespace and
/// comments between its tokens and between its end and `x`.
pub open spec fn scan_reaches(file: u32, s: Seq<u8>, x: int) -> bool {
    exists|pre: Seq<Token>|
        {
            &&& #[trigger] partial_stream_wf(pre, file, x)
            &&& stream_fits_text(pre, s)
            &&& stream_gapless(pre, s)
            &&& skippable(s, last_token_end(pre), x)
        }
}

proof fn lemma_scan_reaches(pre: Seq<Token>, file: u32, s: Seq<u8>, x: int)
    requires
        partial_stream_wf(pre, file, x),
        stream_fits_text(pre, s),
        stream_gapless(pre, s),
        skippable(s, last_token_end(pre), x),
    ensures
        scan_reaches(file, s, x),
{
}

/// The lexical error's position is one the scan reaches: the offending
/// lexeme begins where a token could begin, and for string defects the
/// string's body scan indeed fails.
pub open spec fn lex_error_reached(e: Error, file: u32, s: Seq<u8>) -> bool {
    match e {
        Error::UnexpectedCharacter { loc } => scan_reaches(file, s, loc.span.start as int),
        Error::MalformedLiteral { loc, defect } => match defect {
            LitDefect::UnterminatedString => scan_reaches(file, s, loc.span.start as int)
                && spec_str_scan(s, loc.span.start + 1) is None,
            LitDefect::InvalidEscape => exists|q: int|
                {
                    &&& 0 <= q < loc.span.start
                    &&& (#[trigger] s[q]) == 34
                    &&& scan_reaches(file, s, q)
                    &&& spec_str_scan(s, q + 1) is None
                },
            LitDefect::MalformedNumber => scan_reaches(file, s, loc.span.start as int),
            LitDefect::NumberTooLarge => scan_reaches(file, s, loc.span.start as int),
        },
        _ => false,
    }
}

/// What a token of each class says about the text it was scanned from:
/// its span delimits the lexeme, and its text or value is determined by
/// the bytes there.
pub open spec fn token_fits_text(t: Token, s: Seq<u8>) -> bool {
    let a = t.loc.span.start as int;
    let b = t.loc.span.end as int;
    match t.kind {
        TokenKind::KwFn => s.subrange(a, b) == seq![102u8, 110u8] && ident_ends_at(s, b),
        TokenKind::KwLet => s.subrange(a, b) == seq![108u8, 101u8, 116u8] && ident_ends_at(s, b),
        TokenKind::KwReturn => s.subrange(a, b) == seq![114u8, 101u8, 116u8, 117u8, 114u8, 110u8]
            && ident_ends_at(s, b),
        TokenKind::Ident => a < b && t.text@ == s.subrange(a, b) && is_ident_start(s[a])
            && spec_keyword_kind(t.text@) == TokenKind::Ident && ident_ends_at(s, b),
        TokenKind::Int => a < b && (forall|m: int| a <= m < b ==> is_digit(#[trigger] s[m]))
            && t.value == dec_value(s.subrange(a, b)) && ident_ends_at(s, b),
        TokenKind::Str => a + 1 < b && s[a] == 34 && s[b - 1] == 34 && spec_str_scan(s, a + 1)
            == Some((t.text@, b)),
        TokenKind::Plus => b == a + 1 && s[a] == 43,
        TokenKind::Minus => b == a + 1 && s[a] == 45,
        TokenKind::Star => b == a + 1 && s[a] == 42,
        TokenKind::Slash => b == a + 1 && s[a] == 47 && (b == s.len() || s[b] != 47),
        TokenKind::Assign => b == a + 1 && s[a] == 61,
        TokenKind::LParen => b == a + 1 && s[a] == 40,
        TokenKind::RParen => b == a + 1 && s[a] == 41,
        TokenKind::LBrace => b == a + 1 && s[a] == 123,
        TokenKind::RBrace => b == a + 1 && s[a] == 125,
        TokenKind::Comma => b == a + 1 && s[a] == 44,
        TokenKind::Semi => b == a + 1 && s[a] == 59,
        TokenKind::Eof => a == s.len() && b == s.len(),
    }
}

/// Every token of the stream fits the text it was scanned from.
pub open spec fn stream_fits_text(toks: Seq<Token>, s: Seq<u8>) -> bool {
    forall|k: int| 0 <= k < toks.len() ==> token_fits_text(#[trigger] toks[k], s)
}

proof fn lemma_fits_push(toks: Seq<Token>, t: Token, s: Seq<u8>)
    requires
        stream_fits_text(toks, s),
        token_fits_text(t, s),
    ensures
        stream_fits_text(toks.push(t), s),
{
    let r = toks.push(t);
    assert forall|k: int| 0 <= k < r.len() implies token_fits_text(#[trigger] r[k], s) by {
        if k < toks.len() {
            assert(r[k] == toks[k]);
        } else {
            assert(r[k] == t);
        }
    }
}

/// Well-formedness of the tokens emitted so far, covering the text before
/// byte offset `upto`: every token lies in `file`, spans are well formed and
/// end by `upto`, none is end-of-input, and consecutive spans do not overlap.
pub open spec fn partial_stream_wf(toks: Seq<Token>, file: u32, upto: int) -> bool {
    &&& forall|k: int| 0 <= k < toks.len() ==> {
        &&& (#[trigger] toks[k]).kind != TokenKind::Eof
        &&& toks[k].loc.file == file
        &&& toks[k].loc.span.start <= toks[k].loc.span.end
        &&& toks[k].loc.span.end <= upto
    }
    &&& forall|i: int, j: int| #![trigger toks[i], toks[j]] 0 <= i && j == i + 1 && j
        < toks.len() ==> toks[i].loc.span.end <= toks[j].loc.span.start
}

/// Well-formedness of a complete token stream over a text of `len` bytes in
/// `file`: nonempty, exactly one end-of-input token, last, with an empty span
/// at offset `len`; every span well formed, within the text and in `file`;
/// consecutive spans do not overlap.
pub open spec fn stream_wf(toks: Seq<Token>, file: u32, len: int) -> bool {
    &&& toks.len() >= 1
    &&& toks[toks.len() - 1].kind == TokenKind::Eof
    &&& toks[toks.len() - 1].loc.span.start == len
    &&& toks[toks.len() - 1].loc.span.end == len
    &&& forall|k: int| 0 <= k < toks.len() ==> {
        &&& (#[trigger] toks[k]).loc.file == file
        &&& toks[k].loc.span.start <= toks[k].loc.span.end
        &&& toks[k].loc.span.end <= len
    }
    &&& forall|k: int| 0 <= k < toks.len() - 1 ==> (#[trigger] toks[k]).kind
        != TokenKind::Eof
    &&& forall|i: int, j: int| #![trigger toks[i], toks[j]] 0 <= i && j == i + 1 && j
        < toks.len() ==> toks[i].loc.span.end <= toks[j].loc.span.start
}

/// Spans of a well-formed stream are ordered: a token ends no later than any
/// later token starts.
pub proof fn lemma_stream_spans_ordered(toks: Seq<Token>, file: u32, len: int, i: int, j: int)
    requires
        stream_wf(toks, file, len),
        0 <= i < j < toks.len(),
    ensures
        toks[i].loc.span.end <= toks[j].loc.span.start,
    decreases j - i,
{
    if j == i + 1 {
        assert(toks[i].loc.span.end <= toks[j].loc.span.start);
    } else {
        lemma_stream_spans_ordered(toks, file, len, i + 1, j);
        assert(toks[i].loc.span.end <= toks[i + 1].loc.span.start);
    }
}

/// A lexical failure is well formed for `file` over text `s`: it is one of
/// the two lexical error classes, its location lies in `file` within the
/// text, and the location points at the offending bytes.
pub open spec fn lex_error_wf(e: Error, file: u32, s: Seq<u8>) -> bool {
    match e {
        Error::UnexpectedCharacter { loc } => {
            &&& loc.file == file
            &&& loc.span.start < s.len()
            &&& loc.span.end == loc.span.start + 1
            &&& !byte_starts_token(s[loc.span.start as int])
        },
        Error::MalformedLiteral { loc, defect } => {
            &&& loc.file == file
            &&& loc.span.start < s.len()
            &&& loc.span.start <= loc.span.end <= s.len()
            &&& match defect {
                LitDefect::UnterminatedString => s[loc.span.start as int] == 34
                    && loc.span.end == s.len(),
                LitDefect::InvalidEscape => {
                    &&& s[loc.span.start as int] == 92
                    &&& loc.span.start + 1 < s.len()
                    &&& loc.span.end == loc.span.start + 2
                    &&& !valid_escape(s[loc.span.start + 1])
                },
                LitDefect::MalformedNumber => exists|j: int|
                    {
                        &&& loc.span.start < j < loc.span.end
                        &&& forall|m: int| loc.span.start <= m < j ==> is_digit(#[trigger] s[m])
                        &&& is_ident_start(#[trigger] s[j])
                    },
                LitDefect::NumberTooLarge => {
                    &&& forall|m: int| loc.span.start <= m < loc.span.end
                        ==> is_digit(#[trigger] s[m])
                    &&& dec_value(s.subrange(loc.span.start as int, loc.span.end as int))
                        > u64::MAX
                },
            }
        },
        _ => false,
    }
}

#[verifier::rlimit(60)]
proof fn lemma_partial_push(toks: Seq<Token>, t: Token, file: u32, a: int, b: int)
    requires
        partial_stream_wf(toks, file, a),
        t.kind != TokenKind::Eof,
        t.loc.file == file,
        a <= t.loc.span.start,
        t.loc.span.start <= t.loc.span.end,
        t.loc.span.end <= b,
    ensures
        partial_stream_wf(toks.push(t), file, b),
{
    let r = toks.push(t);
    assert forall|k: int| 0 <= k < r.len() implies {
        &&& (#[trigger] r[k]).kind != TokenKind::Eof
        &&& r[k].loc.file == file
        &&& r[k].loc.span.start <= r[k].loc.span.end
        &&& r[k].loc.span.end <= b
    } by {
        if k < toks.len() {
            assert(r[k] == toks[k]);
        }
    }
    assert forall|i: int, j: int| #![trigger r[i], r[j]] 0 <= i && j == i + 1 && j < r.len()
        implies r[i].loc.span.end <= r[j].loc.span.start by {
        assert(r[i] == toks[i]);
        if j < toks.len() {
            assert(r[j] == toks[j]);
        } else {
            assert(r[j] == t);
        }
    }
}

#[verifier::rlimit(100)]
proof fn lemma_finish_stream(toks: Seq<Token>, eof: Token, file: u32, len: int)
    requires
        partial_stream_wf(toks, file, len),
        eof.kind == TokenKind::Eof,
        eof.loc.file == file,
        eof.loc.span.start == len,
        eof.loc.span.end == len,
    ensures
        stream_wf(toks.push(eof), file, len),
{
    let r = toks.push(eof);
    assert(r[r.len() - 1] == eof);
    assert forall|k: int| 0 <= k < r.len() implies {
        &&& (#[trigger] r[k]).loc.file == file
        &&& r[k].loc.span.start <= r[k].loc.span.end
        &&& r[k].loc.span.end <= len
    } by {
        if k < toks.len() {
            assert(r[k] == toks[k]);
        }
    }
    assert forall|k: int| 0 <= k < r.len() - 1 implies (#[trigger] r[k]).kind
        != TokenKind::Eof by {
        assert(r[k] == toks[k]);
    }
    assert forall|i: int, j: int| #![trigger r[i], r[j]] 0 <= i && j == i + 1 && j < r.len()
        implies r[i].loc.span.end <= r[j].loc.span.start by {
        assert(r[i] == toks[i]);
        if j < toks.len() {
            assert(r[j] == toks[j]);
        } else {
            assert(r[j] == eof);
        }
    }
}

fn keyword_kind(buf: &Vec<u8>) -> (k: TokenKind)
    ensures
        k == spec_keyword_kind(buf@),
{
    if buf.len() == 2 && buf[0] == 102 && buf[1] == 110 {
        proof {
            assert(buf@ =~= seq![102u8, 110u8]);
        }
        TokenKind::KwFn
    } else if buf.len() == 3 && buf[0] == 108 && buf[1] == 101 && buf[2] == 116 {
        proof {
            assert(buf@ =~= seq![108u8, 101u8, 116u8]);
        }
        TokenKind::KwLet
    } else if buf.len() == 6 && buf[0] == 114 && buf[1] == 101 && buf[2] == 116 && buf[3] == 117
        && buf[4] == 114 && buf[5] == 110 {
        proof {
            assert(buf@ =~= seq![114u8, 101u8, 116u8, 117u8, 114u8, 110u8]);
        }
        TokenKind::KwReturn
    } else {
        proof {
            assert(buf@ != seq![102u8, 110u8] && buf@ != seq![108u8, 101u8, 116u8] && buf@
                != seq![114u8, 101u8, 116u8, 117u8, 114u8, 110u8]) by {
                if buf@.len() == 2 {
                    assert(!(buf@[0] == 102 && buf@[1] == 110));
                } else if buf@.len() == 3 {
                    assert(!(buf@[0] == 108 && buf@[1] == 101 && buf@[2] == 116));
                } else if buf@.len() == 6 {
                    assert(!(buf@[0] == 114 && buf@[1] == 101 && buf@[2] == 116 && buf@[3] == 117
                        && buf@[4] == 114 && buf@[5] == 110));
                }
            }
        }
        TokenKind::Ident
    }
}

/// Converts the raw text of `file` into its token sequence, or reports the
/// first lexical defect.
///
/// On success the stream is well formed over the text (`stream_wf`), every
/// token's class, text and value are the ones its span's bytes spell out,
/// scanned by maximal munch (`stream_fits_text`), and nothing but whitespace
/// and comments lies outside the tokens' spans (`stream_gapless`). On
/// failure the error is a lexical one whose location marks the offending
/// bytes (`lex_error_wf`), at a position the scan actually reaches: a
/// well-formed token prefix covers the text before it (`lex_error_reached`).
#[verifier::rlimit(100)]
#[verifier::loop_isolation(false)]
pub fn tokenize(file: u32, text: &Vec<u8>) -> (r: Result<Vec<Token>, Error>)
    ensures
        match r {
            Ok(toks) => {
                &&& stream_wf(toks@, file, text@.len() as int)
                &&& stream_fits_text(toks@, text@)
                &&& stream_gapless(toks@, text@)
            },
            Err(e) => lex_error_wf(e, file, text@) && lex_error_reached(e, file, text@),
        },
{
    let len = text.len();
    let mut toks: Vec<Token> = Vec::new();
    let mut i: usize = 0;
    while i < len
        invariant
            i <= len,
            len == text@.len(),
            partial_stream_wf(toks@, file, i as int),
            stream_fits_text(toks@, text@),
            stream_gapless(toks@, text@),
            skippable(text@, last_token_end(toks@), i as int),
        decreases len - i,
    {
        let b = text[i];
        if b == 32 || b == 9 || b == 13 || b == 10 {
            proof {
                assert(skippable(text@, i + 1 as int, i + 1 as int));
                assert(skippable(text@, i as int, i + 1 as int));
                lemma_skippable_concat(text@, last_token_end(toks@), i as int, i + 1 as int);
            }
            i = i + 1;
        } else if b == 47 && i + 1 < len && text[i + 1] == 47 {
            // A comment: consumed through the end of the line, producing no
            // token.
            let mut j = i + 2;
            while j < len && text[j] != 10
                invariant
                    i + 2 <= j <= len,
                    len == text@.len(),
                    forall|m: int| i + 2 <= m < j ==> text@[m] != 10,
                decreases len - j,
            {
                j = j + 1;
            }
            proof {
                lemma_comment_body(text@, i + 2, j as int);
            }
            if j < len {
                proof {
                    assert(skippable(text@, i as int, j + 1 as int));
                    lemma_skippable_concat(
                        text@,
                        last_token_end(toks@),
                        i as int,
                        j + 1 as int,
                    );
                }
                i = j + 1;
            } else {
                proof {
                    assert(skippable(text@, i as int, j as int));
                    lemma_skippable_concat(text@, last_token_end(toks@), i as int, j as int);
                }
                i = j;
            }
        } else if (65 <= b && b <= 90) || (97 <= b && b <= 122) || b == 95 {
            // An identifier or keyword: maximal munch, then keyword lookup.
            let start = i;
            let mut buf: Vec<u8> = Vec::new();
            let mut j = i;
            while j < len && ((65 <= text[j] && text[j] <= 90) || (97 <= text[j] && text[j] <= 122)
                || text[j] == 95 || (48 <= text[j] && text[j] <= 57))
                invariant
                    start <= j <= len,
                    len == text@.len(),
                    buf@ == text@.subrange(start as int, j as int),
                decreases len - j,
            {
                buf.push(text[j]);
                proof {
                    assert(buf@ =~= text@.subrange(start as int, j + 1 as int));
                }
                j = j + 1;
            }
            proof {
                assert(j > start);
            }
            let kind = keyword_kind(&buf);
            let tok_text = if kind == TokenKind::Ident {
                buf
            } else {
                Vec::new()
            };
            let t = Token {
                kind,
                text: tok_text,
                value: 0,
                loc: Loc { file, span: Span { start, end: j } },
            };
            proof {
                assert(is_ident_start(text@[start as int]));
                assert(token_fits_text(t, text@));
                lemma_fits_push(toks@, t, text@);
                lemma_gapless_push(toks@, t, text@);
                lemma_partial_push(toks@, t, file, i as int, j as int);
                assert(skippable(text@, j as int, j as int));
            }
            toks.push(t);
            i = j;
        } else if 48 <= b && b <= 57 {
            // An integer literal, validated for well-formedness.
            let start = i;
            let mut j = i;
            let mut value: u64 = 0;
            let mut overflow = false;
            while j < len && 48 <= text[j] && text[j] <= 57
                invariant
                    start <= j <= len,
                    len == text@.len(),
                    forall|m: int| start <= m < j ==> is_digit(#[trigger] text@[m]),
                    !overflow ==> value == dec_value(
                        text@.subrange(start as int, j as int),
                    ),
                    overflow ==> dec_value(text@.subrange(start as int, j as int))
                        > u64::MAX,
                decreases len - j,
            {
                let d = (text[j] - 48) as u64;
                proof {
                    assert(text@.subrange(start as int, j + 1 as int).drop_last()
                        =~= text@.subrange(start as int, j as int));
                    assert(text@.subrange(start as int, j + 1 as int).last()
                        == text@[j as int]);
                }
                match value.checked_mul(10) {
                    Some(v10) => {
                        match v10.checked_add(d) {
                            Some(v) => {
                                value = v;
                            },
                            None => {
                                overflow = true;
                            },
                        }
                    },
                    None => {
                        overflow = true;
                    },
                }
                j = j + 1;
            }
            if overflow {
                proof {
                    lemma_scan_reaches(toks@, file, text@, i as int);
                }
                return Err(Error::MalformedLiteral {
                    loc: Loc { file, span: Span { start, end: j } },
                    defect: LitDefect::NumberTooLarge,
                });
            }
            if j < len && ((65 <= text[j] && text[j] <= 90) || (97 <= text[j] && text[j] <= 122)
                || text[j] == 95) {
                // Digits running into identifier characters make a malformed
                // numeric literal; the span covers the whole blob.
                let mut k = j;
                while k < len && ((65 <= text[k] && text[k] <= 90) || (97 <= text[k] && text[k]
                    <= 122) || text[k] == 95 || (48 <= text[k] && text[k] <= 57))
                    invariant
                        j <= k <= len,
                        len == text@.len(),
                    decreases len - k,
                {
                    k = k + 1;
                }
                proof {
                    assert(j > start);
                    assert(k > j);
                    lemma_scan_reaches(toks@, file, text@, i as int);
                    let e = Error::MalformedLiteral {
                        loc: Loc { file, span: Span { start, end: k } },
                        defect: LitDefect::MalformedNumber,
                    };
                    assert(lex_error_wf(e, file, text@)) by {
                        assert(start < j < k && (forall|m: int| start <= m < j
                            ==> is_digit(#[trigger] text@[m])) && is_ident_start(
                            text@[j as int],
                        ));
                    }
                }
                return Err(Error::MalformedLiteral {
                    loc: Loc { file, span: Span { start, end: k } },
                    defect: LitDefect::MalformedNumber,
                });
            }
            proof {
                assert(j > start);
            }
            let t = Token {
                kind: TokenKind::Int,
                text: Vec::new(),
                value,
                loc: Loc { file, span: Span { start, end: j } },
            };
            proof {
                assert(token_fits_text(t, text@));
                lemma_fits_push(toks@, t, text@);
                lemma_gapless_push(toks@, t, text@);
                lemma_partial_push(toks@, t, file, i as int, j as int);
                assert(skippable(text@, j as int, j as int));
            }
            toks.push(t);
            i = j;
        } else if b == 34 {
            // A string literal with escapes, validated for well-formedness.
            let start = i;
            let mut buf: Vec<u8> = Vec::new();
            let mut j = i + 1;
            let mut closed = false;
            proof {
                match spec_str_scan(text@, start + 1) {
                    Some(p) => {
                        assert(buf@ + p.0 =~= p.0);
                    },
                    None => {},
                }
            }
            while j < len && !closed
                invariant
                    start < j <= len,
                    len == text@.len(),
                    text@[start as int] == 34,
                    closed ==> j >= start + 2 && text@[j - 1] == 34,
                    !closed ==> spec_str_scan(text@, start + 1) == (match spec_str_scan(
                        text@,
                        j as int,
                    ) {
                        Some(p) => Some::<(Seq<u8>, int)>((buf@ + p.0, p.1)),
                        None => None::<(Seq<u8>, int)>,
                    }),
                    closed ==> spec_str_scan(text@, start + 1) == Some::<(Seq<u8>, int)>(
                        (buf@, j as int),
                    ),
                decreases len - j,
            {
                let ghost obuf = buf@;
                let ghost oj = j as int;
                let c = text[j];
                if c == 34 {
                    closed = true;
                    j = j + 1;
                    proof {
                        assert(obuf + Seq::<u8>::empty() =~= obuf);
                    }
                } else if c == 92 {
                    if j + 1 >= len {
                        proof {
                            assert(spec_str_scan(text@, j as int) is None);
                            lemma_scan_reaches(toks@, file, text@, i as int);
                        }
                        return Err(Error::MalformedLiteral {
                            loc: Loc { file, span: Span { start, end: len } },
                            defect: LitDefect::UnterminatedString,
                        });
                    }
                    let e = text[j + 1];
                    if e == 110 {
                        buf.push(10);
                    } else if e == 116 {
                        buf.push(9);
                    } else if e == 114 {
                        buf.push(13);
                    } else if e == 92 {
                        buf.push(92);
                    } else if e == 34 {
                        buf.push(34);
                    } else {
                        proof {
                            assert(!valid_escape(text@[j + 1]));
                            assert(spec_str_scan(text@, j as int) is None);
                            lemma_scan_reaches(toks@, file, text@, i as int);
                            assert(0 <= start < j && text@[start as int] == 34
                                && spec_str_scan(text@, start + 1) is None);
                        }
                        return Err(Error::MalformedLiteral {
                            loc: Loc { file, span: Span { start: j, end: j + 2 } },
                            defect: LitDefect::InvalidEscape,
                        });
                    }
                    j = j + 2;
                    proof {
                        assert(valid_escape(text@[oj + 1]));
                        assert(buf@ =~= obuf.push(unescape(text@[oj + 1])));
                        match spec_str_scan(text@, j as int) {
                            Some(p) => {
                                assert(obuf + (seq![unescape(text@[oj + 1])] + p.0) =~= buf@
                                    + p.0);
                            },
                            None => {},
                        }
                    }
                } else {
                    buf.push(c);
                    j = j + 1;
                    proof {
                        match spec_str_scan(text@, j as int) {
                            Some(p) => {
                                assert(obuf + (seq![text@[oj]] + p.0) =~= buf@ + p.0);
                            },
                            None => {},
                        }
                    }
                }
            }
            if !closed {
                proof {
                    assert(spec_str_scan(text@, j as int) is None);
                    lemma_scan_reaches(toks@, file, text@, i as int);
                }
                return Err(Error::MalformedLiteral {
                    loc: Loc { file, span: Span { start, end: len } },
                    defect: LitDefect::UnterminatedString,
                });
            }
            let t = Token {
                kind: TokenKind::Str,
                text: buf,
                value: 0,
                loc: Loc { file, span: Span { start, end: j } },
            };
            proof {
                assert(token_fits_text(t, text@));
                lemma_fits_push(toks@, t, text@);
                lemma_gapless_push(toks@, t, text@);
                lemma_partial_push(toks@, t, file, i as int, j as int);
                assert(skippable(text@, j as int, j as int));
            }
            toks.push(t);
            i = j;
        } else if b == 43 || b == 45 || b == 42 || b == 47 || b == 61 || b == 40 || b == 41
            || b == 123 || b == 125 || b == 44 || b == 59 {
            let kind = if b == 43 {
                TokenKind::Plus
            } else if b == 45 {
                TokenKind::Minus
            } else if b == 42 {
                TokenKind::Star
            } else if b == 47 {
                TokenKind::Slash
            } else if b == 61 {
                TokenKind::Assign
            } else if b == 40 {
                TokenKind::LParen
            } else if b == 41 {
                TokenKind::RParen
            } else if b == 123 {
                TokenKind::LBrace
            } else if b == 125 {
                TokenKind::RBrace
            } else if b == 44 {
                TokenKind::Comma
            } else {
                TokenKind::Semi
            };
            let t = Token {
                kind,
                text: Vec::new(),
                value: 0,
                loc: Loc { file, span: Span { start: i, end: i + 1 } },
            };
            proof {
                assert(token_fits_text(t, text@));
                lemma_fits_push(toks@, t, text@);
                lemma_gapless_push(toks@, t, text@);
                lemma_partial_push(toks@, t, file, i as int, i + 1 as int);
                assert(skippable(text@, i + 1 as int, i + 1 as int));
            }
            toks.push(t);
            i = i + 1;
        } else {
            proof {
                lemma_scan_reaches(toks@, file, text@, i as int);
            }
            return Err(Error::UnexpectedCharacter {
                loc: Loc { file, span: Span { start: i, end: i + 1 } },
            });
        }
    }
    let eof = Token {
        kind: TokenKind::Eof,
        text: Vec::new(),
        value: 0,
        loc: Loc { file, span: Span { start: len, end: len } },
    };
    proof {
        assert(token_fits_text(eof, text@));
        lemma_fits_push(toks@, eof, text@);
        lemma_gapless_push(toks@, eof, text@);
        lemma_finish_stream(toks@, eof, file, len as int);
    }
    toks.push(eof);
    Ok(toks)
}

} // verus!
