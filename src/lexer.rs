use vstd::prelude::*;

use vstd::slice::slice_subrange;

use crate::error::ErrorKind;

verus! {

/// The diagnostic attached to the location of a token that could not be read.
pub const NEXT_TOKEN_MESSAGE: &'static str = "Couldn't read the next token";

/// The kind of a token, with the value of a numeric literal.
#[derive(Debug, Clone, PartialEq)]
pub enum TokenKind {
    Integer(usize),
    /// A decimal literal, held exactly: its digits and its point, as read.
    Decimal(String),
    Plus,
}

/// The mathematical value of a token kind.
pub enum TokenValue {
    Integer(nat),
    Decimal(Seq<char>),
    Plus,
}

impl View for TokenKind {
    type V = TokenValue;

    open spec fn view(&self) -> TokenValue {
        match self {
            TokenKind::Integer(n) => TokenValue::Integer(*n as nat),
            TokenKind::Decimal(s) => TokenValue::Decimal(s@),
            TokenKind::Plus => TokenValue::Plus,
        }
    }
}

/// Unicode's White_Space property.
pub open spec fn is_white_space(c: char) -> bool {
    let u = c as u32;
    (0x09 <= u && u <= 0x0d) || u == 0x20 || u == 0x85 || u == 0xa0 || u == 0x1680 || (0x2000
        <= u && u <= 0x200a) || u == 0x2028 || u == 0x2029 || u == 0x202f || u == 0x205f || u
        == 0x3000
}

pub open spec fn is_digit(c: char) -> bool {
    '0' <= c && c <= '9'
}

pub open spec fn digit_value(c: char) -> nat {
    ((c as u32) - ('0' as u32)) as nat
}

/// The number of bytes that UTF-8 spends on `c`.
pub open spec fn utf8_width(c: char) -> nat {
    if (c as u32) < 0x80 {
        1
    } else if (c as u32) < 0x800 {
        2
    } else if (c as u32) < 0x10000 {
        3
    } else {
        4
    }
}

/// The length in bytes of the UTF-8 encoding of `s`.
pub open spec fn byte_len(s: Seq<char>) -> nat
    decreases s.len(),
{
    if s.len() == 0 {
        0
    } else {
        byte_len(s.drop_last()) + utf8_width(s.last())
    }
}

/// The value of a run of decimal digits.
pub open spec fn digits_value(s: Seq<char>) -> nat
    decreases s.len(),
{
    if s.len() == 0 {
        0
    } else {
        10 * digits_value(s.drop_last()) + digit_value(s.last())
    }
}

/// The length of the whitespace that starts `s`.
pub open spec fn white_space_len(s: Seq<char>) -> nat
    decreases s.len(),
{
    if s.len() > 0 && is_white_space(s[0]) {
        1 + white_space_len(s.drop_first())
    } else {
        0
    }
}

/// The length of the comment that starts `s` at its marker: through the first
/// newline, or to the end where there is none.
pub open spec fn comment_len(s: Seq<char>) -> nat
    decreases s.len(),
{
    if s.len() == 0 {
        0
    } else if s[0] == '\n' {
        1
    } else {
        1 + comment_len(s.drop_first())
    }
}

/// How many leading chars of `s` are whitespace and comments; `in_comment` says
/// that a comment is open before `s`.
pub open spec fn blank_len(s: Seq<char>, in_comment: bool) -> nat
    decreases s.len(),
{
    if s.len() == 0 {
        0
    } else if in_comment {
        1 + blank_len(s.drop_first(), s[0] != '\n')
    } else if is_white_space(s[0]) {
        1 + blank_len(s.drop_first(), false)
    } else if s[0] == '!' {
        1 + blank_len(s.drop_first(), true)
    } else {
        0
    }
}

/// How many leading chars of `s` the tokenizer skips before a token.
pub open spec fn skip_len(s: Seq<char>) -> nat {
    blank_len(s, false)
}

/// The length of the numeric run that starts `s`: digits, and a first `.`
/// where `seen_dot` does not say that one was taken already.
pub open spec fn number_len(s: Seq<char>, seen_dot: bool) -> nat
    decreases s.len(),
{
    if s.len() > 0 && is_digit(s[0]) {
        1 + number_len(s.drop_first(), seen_dot)
    } else if s.len() > 0 && s[0] == '.' && !seen_dot {
        1 + number_len(s.drop_first(), true)
    } else {
        0
    }
}

/// The numeric literal at the start of `s`, and the chars that it takes.
pub open spec fn lex_number(s: Seq<char>) -> Result<(TokenValue, nat), ErrorKind> {
    let n = number_len(s, false);
    let lit = s.take(n as int);
    if n == 0 {
        Err(ErrorKind::NothingMatched)
    } else if lit.contains('.') {
        if n == 1 {
            Err(ErrorKind::InvalidNumber)
        } else {
            Ok((TokenValue::Decimal(lit), n))
        }
    } else if digits_value(lit) > usize::MAX {
        Err(ErrorKind::InvalidNumber)
    } else {
        Ok((TokenValue::Integer(digits_value(lit)), n))
    }
}

/// The token at the very start of `s`, and the chars that it takes.
pub open spec fn lex_one(s: Seq<char>) -> Result<(TokenValue, nat), ErrorKind> {
    if s.len() == 0 {
        Err(ErrorKind::UnexpectedEOF)
    } else if s[0] == '+' {
        Ok((TokenValue::Plus, 1))
    } else if is_digit(s[0]) {
        lex_number(s)
    } else {
        Err(ErrorKind::UnknownCharacter(s[0]))
    }
}


/// Whether `s` begins with `p`.
pub open spec fn starts_with(s: Seq<char>, p: Seq<char>) -> bool {
    p.len() <= s.len() && s.take(p.len() as int) == p
}

/// Whether `p` occurs in `s` at index `q`.
pub open spec fn occurs_at(s: Seq<char>, p: Seq<char>, q: int) -> bool {
    0 <= q <= s.len() && starts_with(s.skip(q), p)
}

proof fn lemma_white_space_run(s: Seq<char>, n: nat)
    requires
        n <= s.len(),
        forall|j: int| 0 <= j < n ==> is_white_space(#[trigger] s[j]),
        n < s.len() ==> !is_white_space(s[n as int]),
    ensures
        white_space_len(s) == n,
    decreases n,
{
    if n > 0 {
        assert forall|j: int| 0 <= j < n - 1 implies is_white_space(#[trigger] s.drop_first()[j]) by {
            assert(is_white_space(s[j + 1]));
        }
        lemma_white_space_run(s.drop_first(), (n - 1) as nat);
    }
}

proof fn lemma_white_space_blank(s: Seq<char>)
    ensures
        white_space_len(s) <= s.len(),
        blank_len(s, false) == white_space_len(s) + blank_len(
            s.skip(white_space_len(s) as int),
            false,
        ),
    decreases s.len(),
{
    if s.len() > 0 && is_white_space(s[0]) {
        let t = s.drop_first();
        lemma_white_space_blank(t);
        assert(s.skip(white_space_len(s) as int) =~= t.skip(white_space_len(t) as int));
    } else {
        assert(s.skip(0) =~= s);
    }
}

proof fn lemma_comment_blank(t: Seq<char>)
    ensures
        comment_len(t) <= t.len(),
        blank_len(t, true) == comment_len(t) + blank_len(t.skip(comment_len(t) as int), false),
    decreases t.len(),
{
    if t.len() > 0 {
        let d = t.drop_first();
        lemma_comment_blank(d);
        if t[0] == '\n' {
            assert(t.skip(1) =~= d);
        } else {
            assert(t.skip(comment_len(t) as int) =~= d.skip(comment_len(d) as int));
        }
    }
}

proof fn lemma_comment_run(s: Seq<char>, q: nat)
    requires
        q <= s.len(),
        forall|j: int| 0 <= j < q ==> #[trigger] s[j] != '\n',
        q < s.len() ==> s[q as int] == '\n',
    ensures
        comment_len(s) == if q < s.len() {
            q + 1
        } else {
            q
        },
    decreases q,
{
    if q > 0 {
        assert forall|j: int| 0 <= j < q - 1 implies #[trigger] s.drop_first()[j] != '\n' by {
            assert(s[j + 1] != '\n');
        }
        lemma_comment_run(s.drop_first(), (q - 1) as nat);
    }
}

/// Whether `c` has Unicode's White_Space property.
pub fn char_is_white_space(c: char) -> (r: bool)
    ensures
        r == is_white_space(c),
{
    let u = c as u32;
    (0x09 <= u && u <= 0x0d) || u == 0x20 || u == 0x85 || u == 0xa0 || u == 0x1680 || (0x2000
        <= u && u <= 0x200a) || u == 0x2028 || u == 0x2029 || u == 0x202f || u == 0x205f || u
        == 0x3000
}

/// Counts the leading chars of `data` that `pred` accepts; fails where it
/// accepts none.
pub fn take_while<F: Fn(char) -> bool>(data: &[char], pred: F) -> (r: Result<usize, ErrorKind>)
    requires
        forall|c: char| pred.requires((c,)),
    ensures
        match r {
            Ok(n) => {
                &&& 0 < n <= data@.len()
                &&& forall|j: int| 0 <= j < n ==> pred.ensures((#[trigger] data@[j],), true)
                &&& n < data@.len() ==> pred.ensures((data@[n as int],), false)
            },
            Err(e) => {
                &&& e == ErrorKind::NothingMatched
                &&& data@.len() == 0 || pred.ensures((data@[0],), false)
            },
        },
{
    let mut i: usize = 0;
    let mut more = true;
    while more && i < data.len()
        invariant
            i <= data@.len(),
            forall|c: char| pred.requires((c,)),
            forall|j: int| 0 <= j < i ==> pred.ensures((#[trigger] data@[j],), true),
            !more ==> i < data@.len() && pred.ensures((data@[i as int],), false),
        decreases data@.len() - i + if more {
            1int
        } else {
            0int
        },
    {
        if pred(data[i]) {
            i = i + 1;
        } else {
            more = false;
        }
    }
    if i == 0 {
        Err(ErrorKind::NothingMatched)
    } else {
        Ok(i)
    }
}

/// The number of whitespace chars at the start of `data`.
pub fn skip_whitespace(data: &[char]) -> (r: usize)
    ensures
        r == white_space_len(data@),
{
    let accept = |ch: char| -> (b: bool)
        ensures
            b == is_white_space(ch),
        { char_is_white_space(ch) };
    match take_while(data, accept) {
        Ok(n) => {
            proof {
                lemma_white_space_run(data@, n as nat);
            }
            n
        },
        Err(_) => {
            proof {
                lemma_white_space_run(data@, 0);
            }
            0
        },
    }
}

/// Whether `s` begins with `p`.
fn has_prefix(s: &[char], p: &[char]) -> (r: bool)
    ensures
        r == starts_with(s@, p@),
{
    if p.len() > s.len() {
        return false;
    }
    let mut i: usize = 0;
    while i < p.len()
        invariant
            p@.len() <= s@.len(),
            i <= p@.len(),
            forall|j: int| 0 <= j < i ==> s@[j] == p@[j],
        decreases p@.len() - i,
    {
        if s[i] != p[i] {
            assert(s@.take(p@.len() as int)[i as int] != p@[i as int]);
            return false;
        }
        i = i + 1;
    }
    assert(s@.take(p@.len() as int) =~= p@);
    true
}

/// The number of chars of `src` up to the end of the first occurrence of
/// `pattern`, or all of them where it does not occur.
pub fn skip_until(src: &[char], pattern: &[char]) -> (r: usize)
    ensures
        r <= src@.len(),
        ({
            ||| r == src@.len() && forall|q: int| 0 <= q < src@.len() ==> !occurs_at(src@, pattern@, q)
            ||| r >= pattern@.len() && occurs_at(src@, pattern@, r - pattern@.len()) && forall|q: int|
                0 <= q < r - pattern@.len() ==> !occurs_at(src@, pattern@, q)
        }),
{
    let mut i: usize = 0;
    while i < src.len() && !has_prefix(slice_subrange(src, i, src.len()), pattern)
        invariant
            i <= src@.len(),
            forall|q: int| 0 <= q < i ==> !occurs_at(src@, pattern@, q),
        decreases src@.len() - i,
    {
        i = i + 1;
    }
    if i < src.len() {
        i + pattern.len()
    } else {
        src.len()
    }
}

/// The number of chars of the comment that starts `src`, or 0 where `src`
/// does not start with the comment marker `!`.
pub fn skip_comments(src: &[char]) -> (r: usize)
    ensures
        r == if src@.len() > 0 && src@[0] == '!' {
            comment_len(src@)
        } else {
            0
        },
{
    if src.len() > 0 && src[0] == '!' {
        let terminator = vec!['\n'];
        let r = skip_until(src, terminator.as_slice());
        proof {
            let s = src@;
            let p = terminator@;
            if r == s.len() && forall|q: int| 0 <= q < s.len() ==> !occurs_at(s, p, q) {
                assert forall|j: int| 0 <= j < s.len() implies #[trigger] s[j] != '\n' by {
                    if s[j] == '\n' {
                        assert(s.skip(j).take(1) =~= p);
                        assert(occurs_at(s, p, j));
                    }
                }
                lemma_comment_run(s, s.len());
            } else {
                let q = r - 1;
                assert forall|j: int| 0 <= j < q implies #[trigger] s[j] != '\n' by {
                    if s[j] == '\n' {
                        assert(s.skip(j).take(1) =~= p);
                        assert(occurs_at(s, p, j));
                    }
                }
                assert(s.skip(q).take(1)[0] == p[0]);
                lemma_comment_run(s, q as nat);
            }
        }
        r
    } else {
        0
    }
}

/// The number of chars of whitespace and comments at the start of `src`.
pub fn skip(src: &[char]) -> (r: usize)
    ensures
        r == skip_len(src@),
{
    let mut consumed: usize = 0;
    assert(src@.skip(0) =~= src@);
    loop
        invariant
            consumed <= src@.len(),
            skip_len(src@) == consumed + skip_len(src@.skip(consumed as int)),
        decreases src@.len() - consumed,
    {
        let ws = skip_whitespace(slice_subrange(src, consumed, src.len()));
        proof {
            lemma_white_space_blank(src@.skip(consumed as int));
            assert(src@.skip(consumed as int).skip(ws as int) =~= src@.skip(consumed + ws));
        }
        consumed = consumed + ws;
        let comments = skip_comments(slice_subrange(src, consumed, src.len()));
        proof {
            let t = src@.skip(consumed as int);
            if comments > 0 {
                lemma_comment_blank(t.drop_first());
                assert(t.skip(comments as int) =~= t.drop_first().skip(
                    comment_len(t.drop_first()) as int,
                ));
            }
            assert(t.skip(comments as int) =~= src@.skip(consumed + comments));
        }
        consumed = consumed + comments;
        if ws + comments == 0 {
            return consumed;
        }
    }
}

/// The tokens of a source as values, each with its byte span `[start, end)`.
pub type TokensModel = Result<Seq<(TokenValue, nat, nat)>, (nat, ErrorKind)>;

/// Moves the spans in `toks` `base` bytes further on.
pub open spec fn shift_tokens(toks: Seq<(TokenValue, nat, nat)>, base: nat) -> Seq<(TokenValue, nat, nat)> {
    toks.map_values(|t: (TokenValue, nat, nat)| (t.0, t.1 + base, t.2 + base))
}

/// Puts `done` before the outcome `r` of a source that starts `base` bytes on.
pub open spec fn prepend_tokens(done: Seq<(TokenValue, nat, nat)>, r: TokensModel, base: nat) -> TokensModel {
    match r {
        Ok(rest) => Ok(done + shift_tokens(rest, base)),
        Err((at, cause)) => Err(((at + base) as nat, cause)),
    }
}

/// The tokens of `s`, or the byte offset at which reading failed and why.
pub open spec fn lex_tokens(s: Seq<char>) -> TokensModel
    decreases s.len(),
{
    let k = skip_len(s);
    if k >= s.len() {
        Ok(Seq::empty())
    } else {
        let start = byte_len(s.take(k as int));
        match lex_one(s.skip(k as int)) {
            Err(cause) => Err((start, cause)),
            Ok((t, n)) => {
                let e = k + n;
                // a token takes at least one char, and no more than are left
                if 0 < n && e <= s.len() {
                    let end = byte_len(s.take(e as int));
                    prepend_tokens(seq![(t, start, end)], lex_tokens(s.skip(e as int)), end)
                } else {
                    Ok(Seq::empty())
                }
            },
        }
    }
}

/// The error that the tokenizer reports for a failure at `e.0` caused by `e.1`.
pub open spec fn lex_error(e: (nat, ErrorKind)) -> (ErrorKind, ErrorKind) {
    (ErrorKind::MessageWithLocation(e.0 as usize, NEXT_TOKEN_MESSAGE), e.1)
}

pub open spec fn token_view(t: (TokenKind, usize, usize)) -> (TokenValue, nat, nat) {
    (t.0@, t.1 as nat, t.2 as nat)
}

pub open spec fn tokens_view(v: Seq<(TokenKind, usize, usize)>) -> Seq<(TokenValue, nat, nat)> {
    v.map_values(|t: (TokenKind, usize, usize)| token_view(t))
}

pub open spec fn token_result(r: Result<(TokenKind, usize), ErrorKind>) -> Result<(TokenValue, nat), ErrorKind> {
    match r {
        Ok((t, n)) => Ok((t@, n as nat)),
        Err(e) => Err(e),
    }
}

proof fn lemma_byte_len_concat(a: Seq<char>, b: Seq<char>)
    ensures
        byte_len(a + b) == byte_len(a) + byte_len(b),
    decreases b.len(),
{
    if b.len() > 0 {
        lemma_byte_len_concat(a, b.drop_last());
        assert((a + b).drop_last() =~= a + b.drop_last());
        assert((a + b).last() == b.last());
    } else {
        assert(a + b =~= a);
    }
}

proof fn lemma_byte_len_split(s: Seq<char>, m: int)
    requires
        0 <= m <= s.len(),
    ensures
        byte_len(s) == byte_len(s.take(m)) + byte_len(s.skip(m)),
{
    assert(s =~= s.take(m) + s.skip(m));
    lemma_byte_len_concat(s.take(m), s.skip(m));
}

proof fn lemma_blank_len_bound(s: Seq<char>, in_comment: bool)
    ensures
        blank_len(s, in_comment) <= s.len(),
    decreases s.len(),
{
    if s.len() > 0 {
        lemma_blank_len_bound(s.drop_first(), s[0] != '\n');
        lemma_blank_len_bound(s.drop_first(), false);
        lemma_blank_len_bound(s.drop_first(), true);
    }
}

proof fn lemma_number_len_bound(s: Seq<char>, seen_dot: bool)
    ensures
        number_len(s, seen_dot) <= s.len(),
    decreases s.len(),
{
    if s.len() > 0 {
        lemma_number_len_bound(s.drop_first(), seen_dot);
        lemma_number_len_bound(s.drop_first(), true);
    }
}

proof fn lemma_lex_one_len(s: Seq<char>)
    ensures
        lex_one(s) matches Ok((_, n)) ==> 0 < n <= s.len(),
{
    lemma_number_len_bound(s, false);
}

proof fn lemma_contains_push(s: Seq<char>, c: char, x: char)
    ensures
        s.push(c).contains(x) == (s.contains(x) || c == x),
{
    if s.push(c).contains(x) {
        let k = choose|k: int| 0 <= k < s.len() + 1 && s.push(c)[k] == x;
        if k < s.len() {
            assert(s[k] == x);
        }
    }
    if s.contains(x) {
        let k = choose|k: int| 0 <= k < s.len() && s[k] == x;
        assert(s.push(c)[k] == x);
    }
    if c == x {
        assert(s.push(c)[s.len() as int] == x);
    }
}

proof fn lemma_digits_prefix(t: Seq<char>, j: int)
    requires
        0 <= j <= t.len(),
    ensures
        digits_value(t.take(j)) <= digits_value(t),
    decreases t.len(),
{
    if j < t.len() {
        lemma_digits_prefix(t.drop_last(), j);
        assert(t.drop_last().take(j) =~= t.take(j));
    } else {
        assert(t.take(j) =~= t);
    }
}

proof fn lemma_prepend_compose(d1: Seq<(TokenValue, nat, nat)>, d2: Seq<(TokenValue, nat, nat)>, r: TokensModel, a: nat, b: nat)
    ensures
        prepend_tokens(d1, prepend_tokens(d2, r, b), a) == prepend_tokens(
            d1 + shift_tokens(d2, a),
            r,
            a + b,
        ),
{
    if let Ok(rest) = r {
        assert(d1 + shift_tokens(d2 + shift_tokens(rest, b), a) =~= d1 + shift_tokens(d2, a)
            + shift_tokens(rest, a + b));
    }
}

proof fn lemma_prepend_split(v: Seq<(TokenValue, nat, nat)>, d: Seq<(TokenValue, nat, nat)>, r: TokensModel, a: nat)
    ensures
        prepend_tokens(v + d, r, a) == match prepend_tokens(d, r, a) {
            Ok(t) => Ok(v + t),
            Err(e) => Err(e),
        },
{
    if let Ok(rest) = r {
        assert(v + d + shift_tokens(rest, a) =~= v + (d + shift_tokens(rest, a)));
    }
}

/// Relies on Iterator::collect over str::chars: the chars of `s`, in order.
/// Their UTF-8 widths add up to the byte length of `s`, which is a `usize`.
#[verifier::external_body]
fn chars_of(s: &str) -> (r: Vec<char>)
    ensures
        r@ == s@,
        byte_len(r@) <= usize::MAX,
{
    s.chars().collect()
}

/// Relies on Iterator::collect into a String: the same chars, in order.
#[verifier::external_body]
fn string_of(chars: &[char]) -> (r: String)
    ensures
        r@ == chars@,
{
    chars.iter().collect()
}

/// The number of bytes that UTF-8 spends on `c`.
pub fn char_width(c: char) -> (r: usize)
    ensures
        r == utf8_width(c),
{
    let u = c as u32;
    if u < 0x80 {
        1
    } else if u < 0x800 {
        2
    } else if u < 0x10000 {
        3
    } else {
        4
    }
}

/// The number of bytes of the first `n` chars of `data`.
fn bytes_in(data: &[char], n: usize) -> (r: usize)
    requires
        n <= data@.len(),
        byte_len(data@) <= usize::MAX,
    ensures
        r == byte_len(data@.take(n as int)),
{
    let mut total: usize = 0;
    let mut j: usize = 0;
    assert(data@.take(0) =~= Seq::<char>::empty());
    while j < n
        invariant
            j <= n <= data@.len(),
            byte_len(data@) <= usize::MAX,
            total == byte_len(data@.take(j as int)),
        decreases n - j,
    {
        proof {
            assert(data@.take(j + 1).drop_last() =~= data@.take(j as int));
            lemma_byte_len_split(data@, j + 1);
        }
        total = total + char_width(data[j]);
        j = j + 1;
    }
    total
}

/// Reads the numeric literal that starts `data`: a run of digits with at most
/// one `.`; the chars that it takes are returned with it.
pub fn tokenize_number(data: &[char]) -> (r: Result<(TokenKind, usize), ErrorKind>)
    ensures
        token_result(r) == lex_number(data@),
{
    let mut seen_dot = false;
    let mut i: usize = 0;
    let mut more = true;
    proof {
        assert(data@.skip(0) =~= data@);
    }
    while more && i < data.len()
        invariant
            i <= data@.len(),
            number_len(data@, false) == i + number_len(data@.skip(i as int), seen_dot),
            seen_dot == data@.take(i as int).contains('.'),
            forall|j: int| 0 <= j < i ==> is_digit(#[trigger] data@[j]) || data@[j] == '.',
            !more ==> number_len(data@.skip(i as int), seen_dot) == 0,
        decreases data@.len() - i + if more {
            1int
        } else {
            0int
        },
    {
        let c = data[i];
        proof {
            assert(data@.skip(i as int).drop_first() =~= data@.skip(i + 1));
            assert(data@.take(i + 1) =~= data@.take(i as int).push(c));
        }
        proof {
            lemma_contains_push(data@.take(i as int), c, '.');
        }
        if '0' <= c && c <= '9' {
            i = i + 1;
        } else if c == '.' && !seen_dot {
            seen_dot = true;
            i = i + 1;
        } else {
            more = false;
        }
    }
    proof {
        if more {
            assert(data@.skip(i as int).len() == 0);
        }
        assert(number_len(data@, false) == i);
    }
    let ghost lit = data@.take(i as int);
    if i == 0 {
        return Err(ErrorKind::NothingMatched);
    }
    if seen_dot {
        if i == 1 {
            return Err(ErrorKind::InvalidNumber);
        }
        return Ok((TokenKind::Decimal(string_of(slice_subrange(data, 0, i))), i));
    }
    let mut value: usize = 0;
    let mut j: usize = 0;
    assert(lit.take(0) =~= Seq::<char>::empty());
    while j < i
        invariant
            j <= i <= data@.len(),
            lit == data@.take(i as int),
            number_len(data@, false) == i,
            !lit.contains('.'),
            forall|k: int| 0 <= k < i ==> is_digit(#[trigger] data@[k]) || data@[k] == '.',
            value == digits_value(lit.take(j as int)),
        decreases i - j,
    {
        let c = data[j];
        proof {
            assert(lit[j as int] == c);
            if c == '.' {
                assert(lit.contains('.'));
            }
            assert(is_digit(data@[j as int]));
        }
        let d = (c as u32 - '0' as u32) as usize;
        proof {
            assert(lit.take(j + 1).drop_last() =~= lit.take(j as int));
            assert(lit.take(j + 1).last() == c);
            lemma_digits_prefix(lit, j + 1);
            assert(lit.take(i as int) =~= lit);
            assert(digits_value(lit.take(j + 1)) == 10 * value + digit_value(c));
            assert(digit_value(c) == d);
        }
        match value.checked_mul(10) {
            Some(m) => match m.checked_add(d) {
                Some(v) => {
                    value = v;
                },
                None => {
                    return Err(ErrorKind::InvalidNumber);
                },
            },
            None => {
                return Err(ErrorKind::InvalidNumber);
            },
        }
        j = j + 1;
    }
    assert(lit.take(i as int) =~= lit);
    Ok((TokenKind::Integer(value), i))
}

/// Reads the token at the very start of `data`; the chars that it takes are
/// returned with it.
pub fn read_token(data: &[char]) -> (r: Result<(TokenKind, usize), ErrorKind>)
    ensures
        token_result(r) == lex_one(data@),
{
    if data.len() == 0 {
        return Err(ErrorKind::UnexpectedEOF);
    }
    let next = data[0];
    if next == '+' {
        Ok((TokenKind::Plus, 1))
    } else if '0' <= next && next <= '9' {
        tokenize_number(data)
    } else {
        Err(ErrorKind::UnknownCharacter(next))
    }
}

/// Reads the token at the very start of `data`; the bytes that it takes are
/// returned with it.
pub fn tokenize_single_token(data: &str) -> (r: Result<(TokenKind, usize), ErrorKind>)
    ensures
        match lex_one(data@) {
            Ok((t, n)) => r matches Ok((tok, len)) && tok@ == t && len == byte_len(data@.take(n as int)),
            Err(e) => r == Err::<(TokenKind, usize), ErrorKind>(e),
        },
{
    let chars = chars_of(data);
    match read_token(chars.as_slice()) {
        Ok((tok, n)) => {
            proof {
                lemma_lex_one_len(chars@);
            }
            Ok((tok, bytes_in(chars.as_slice(), n)))
        },
        Err(e) => Err(e),
    }
}

/// Reads a source from front to back, keeping the byte offset of what is left.
pub struct Tokenizer {
    chars: Vec<char>,
    pos: usize,
    current_index: usize,
}

impl Tokenizer {
    /// The whole source.
    pub closed spec fn text(&self) -> Seq<char> {
        self.chars@
    }

    /// How many chars of the source are consumed.
    pub closed spec fn pos(&self) -> nat {
        self.pos as nat
    }

    /// How many bytes of the source are consumed.
    pub closed spec fn offset(&self) -> nat {
        self.current_index as nat
    }

    pub open spec fn remaining(&self) -> Seq<char> {
        self.text().skip(self.pos() as int)
    }

    pub closed spec fn wf(&self) -> bool {
        &&& self.pos <= self.chars@.len()
        &&& self.current_index == byte_len(self.chars@.take(self.pos as int))
        &&& byte_len(self.chars@) <= usize::MAX
    }

    pub fn new(src: &str) -> (t: Tokenizer)
        ensures
            t.wf(),
            t.pos() <= t.text().len(),
            t.text() == src@,
            t.pos() == 0,
            t.offset() == 0,
    {
        let chars = chars_of(src);
        assert(chars@.take(0) =~= Seq::<char>::empty());
        Tokenizer { chars, pos: 0, current_index: 0 }
    }

    /// Consumes the next `num_chars` chars.
    pub fn chomp(&mut self, num_chars: usize)
        requires
            old(self).wf(),
            num_chars <= old(self).remaining().len(),
        ensures
            final(self).wf(),
            final(self).pos() <= final(self).text().len(),
            final(self).text() == old(self).text(),
            final(self).pos() == old(self).pos() + num_chars,
            final(self).offset() == old(self).offset() + byte_len(
                old(self).remaining().take(num_chars as int),
            ),
    {
        let ghost s = self.chars@;
        let ghost p = self.pos as int;
        proof {
            lemma_byte_len_split(s, p);
            lemma_byte_len_split(s, p + num_chars);
            assert(s.take(p + num_chars) =~= s.take(p) + s.skip(p).take(num_chars as int));
            lemma_byte_len_concat(s.take(p), s.skip(p).take(num_chars as int));
        }
        let rest = slice_subrange(self.chars.as_slice(), self.pos, self.chars.len());
        let bytes = bytes_in(rest, num_chars);
        self.pos = self.pos + num_chars;
        self.current_index = self.current_index + bytes;
    }

    /// Consumes the whitespace and comments that come next.
    pub fn skip_whitespace(&mut self)
        requires
            old(self).wf(),
        ensures
            final(self).wf(),
            final(self).pos() <= final(self).text().len(),
            final(self).text() == old(self).text(),
            final(self).pos() == old(self).pos() + skip_len(old(self).remaining()),
            final(self).offset() == old(self).offset() + byte_len(
                old(self).remaining().take(skip_len(old(self).remaining()) as int),
            ),
    {
        let skipped = skip(slice_subrange(self.chars.as_slice(), self.pos, self.chars.len()));
        proof {
            lemma_blank_len_bound(self.remaining(), false);
        }
        self.chomp(skipped);
    }

    /// Reads the token at the current place and consumes it.
    fn next_token_kind(&mut self) -> (r: Result<TokenKind, ErrorKind>)
        requires
            old(self).wf(),
        ensures
            final(self).wf(),
            final(self).text() == old(self).text(),
            match lex_one(old(self).remaining()) {
                Ok((t, n)) => r matches Ok(tok) && tok@ == t && final(self).pos() == old(self).pos()
                    + n && final(self).offset() == old(self).offset() + byte_len(
                    old(self).remaining().take(n as int),
                ),
                Err(e) => r == Err::<TokenKind, ErrorKind>(e) && final(self).offset()
                    == old(self).offset() && final(self).pos() == old(self).pos(),
            },
    {
        let read = read_token(slice_subrange(self.chars.as_slice(), self.pos, self.chars.len()));
        match read {
            Ok((tok, bytes_read)) => {
                proof {
                    lemma_lex_one_len(self.remaining());
                }
                self.chomp(bytes_read);
                Ok(tok)
            },
            Err(e) => Err(e),
        }
    }

    /// Skips what comes before the next token and reads it with its byte span;
    /// `None` where the source is used up.
    pub fn next_token(&mut self) -> (r: Result<Option<(TokenKind, usize, usize)>, (ErrorKind, ErrorKind)>)
        requires
            old(self).wf(),
        ensures
            final(self).wf(),
            final(self).pos() <= final(self).text().len(),
            final(self).text() == old(self).text(),
            ({
                let rem = old(self).remaining();
                let k = skip_len(rem);
                let start = old(self).offset() + byte_len(rem.take(k as int));
                if k >= rem.len() {
                    r matches Ok(None)
                } else {
                    match lex_one(rem.skip(k as int)) {
                        Ok((t, n)) => {
                            &&& r matches Ok(Some((tok, s, e))) && tok@ == t && s == start && e
                                == old(self).offset() + byte_len(rem.take((k + n) as int))
                            &&& final(self).pos() == old(self).pos() + k + n
                        },
                        Err(c) => {
                            &&& r == Err::<Option<(TokenKind, usize, usize)>, (ErrorKind, ErrorKind)>(
                                (ErrorKind::MessageWithLocation(start as usize, NEXT_TOKEN_MESSAGE), c),
                            )
                            &&& final(self).pos() == old(self).pos() + k
                            &&& final(self).offset() == start
                        },
                    }
                }
            }),
            ({
                let before = prepend_tokens(
                    Seq::empty(),
                    lex_tokens(old(self).remaining()),
                    old(self).offset(),
                );
                match r {
                    Ok(None) => before == TokensModel::Ok(Seq::empty()),
                    Ok(Some(tok)) => {
                        &&& before == prepend_tokens(
                            seq![token_view(tok)],
                            lex_tokens(final(self).remaining()),
                            final(self).offset(),
                        )
                        &&& final(self).pos() > old(self).pos()
                    },
                    Err(e) => before is Err && e == lex_error(before->Err_0),
                }
            }),
    {
        let ghost rem0 = self.remaining();
        let ghost off0 = self.offset();
        self.skip_whitespace();
        let ghost k = skip_len(rem0);
        proof {
            lemma_blank_len_bound(rem0, false);
            assert(self.remaining() =~= rem0.skip(k as int));
        }
        if self.pos == self.chars.len() {
            proof {
                assert(shift_tokens(Seq::<(TokenValue, nat, nat)>::empty(), off0) =~= Seq::empty());
                assert(Seq::<(TokenValue, nat, nat)>::empty() + Seq::empty() =~= Seq::empty());
            }
            Ok(None)
        } else {
            let start = self.current_index;
            let ghost rem1 = self.remaining();
            match self.next_token_kind() {
                Ok(tok) => {
                    let end = self.current_index;
                    proof {
                        lemma_lex_one_len(rem1);
                        let t = lex_one(rem1)->Ok_0.0;
                        let m = lex_one(rem1)->Ok_0.1;
                        let e = k + m;
                        assert(rem0.take(e as int) =~= rem0.take(k as int) + rem1.take(m as int));
                        lemma_byte_len_concat(rem0.take(k as int), rem1.take(m as int));
                        let b0 = byte_len(rem0.take(k as int));
                        let b1 = byte_len(rem0.take(e as int));
                        assert(self.remaining() =~= rem0.skip(e as int));
                        lemma_prepend_compose(
                            Seq::empty(),
                            seq![(t, b0, b1)],
                            lex_tokens(rem0.skip(e as int)),
                            off0,
                            b1,
                        );
                        assert(Seq::<(TokenValue, nat, nat)>::empty() + shift_tokens(
                            seq![(t, b0, b1)],
                            off0,
                        ) =~= seq![token_view((tok, start, end))]);
                    }
                    Ok(Some((tok, start, end)))
                },
                Err(cause) => Err((ErrorKind::MessageWithLocation(self.current_index, NEXT_TOKEN_MESSAGE), cause)),
            }
        }
    }
}

/// Turns a source into its tokens, each with the half-open byte span
/// `[start, end)` that it covers; fails at the first char that starts no token.
pub fn tokenize(src: &str) -> (r: Result<Vec<(TokenKind, usize, usize)>, (ErrorKind, ErrorKind)>)
    ensures
        match r {
            Ok(v) => lex_tokens(src@) == Ok::<Seq<(TokenValue, nat, nat)>, (nat, ErrorKind)>(tokens_view(v@)),
            Err(e) => lex_tokens(src@) is Err && e == lex_error(lex_tokens(src@)->Err_0),
        },
{
    let mut tokenizer = Tokenizer::new(src);
    let mut tokens: Vec<(TokenKind, usize, usize)> = Vec::new();
    proof {
        assert(tokenizer.remaining() =~= src@);
        lemma_prepend_split(Seq::empty(), Seq::empty(), lex_tokens(src@), 0);
        if let Ok(t) = lex_tokens(src@) {
            assert(Seq::<(TokenValue, nat, nat)>::empty() + shift_tokens(t, 0) =~= t);
        }
    }
    loop
        invariant
            tokenizer.wf(),
            tokenizer.text() == src@,
            lex_tokens(src@) == prepend_tokens(
                tokens_view(tokens@),
                lex_tokens(tokenizer.remaining()),
                tokenizer.offset(),
            ),
        decreases src@.len() - tokenizer.pos(),
    {
        let ghost before = tokenizer;
        proof {
            lemma_prepend_split(tokens_view(tokens@), Seq::empty(), lex_tokens(tokenizer.remaining()), tokenizer.offset());
            assert(tokens_view(tokens@) + Seq::empty() =~= tokens_view(tokens@));
        }
        match tokenizer.next_token() {
            Ok(Some(tok)) => {
                proof {
                    lemma_prepend_split(tokens_view(tokens@), seq![token_view(tok)], lex_tokens(tokenizer.remaining()), tokenizer.offset());
                    assert(tokens_view(tokens@.push(tok)) =~= tokens_view(tokens@) + seq![token_view(tok)]);
                }
                tokens.push(tok);
            },
            Ok(None) => {
                proof {
                    assert(tokens_view(tokens@) + Seq::empty() =~= tokens_view(tokens@));
                }
                return Ok(tokens);
            },
            Err(e) => {
                return Err(e);
            },
        }
    }
}

proof fn lemma_number_len_digits(s: Seq<char>, k: nat, seen_dot: bool)
    requires
        k <= s.len(),
        forall|j: int| 0 <= j < k ==> is_digit(#[trigger] s[j]),
    ensures
        number_len(s, seen_dot) == k + number_len(s.skip(k as int), seen_dot),
    decreases k,
{
    if k == 0 {
        assert(s.skip(0) =~= s);
    } else {
        let d = s.drop_first();
        assert forall|j: int| 0 <= j < k - 1 implies is_digit(#[trigger] d[j]) by {
            assert(is_digit(s[j + 1]));
        }
        lemma_number_len_digits(d, (k - 1) as nat, seen_dot);
        assert(d.skip(k - 1) =~= s.skip(k as int));
    }
}

proof fn lemma_byte_len_at_least_len(s: Seq<char>)
    ensures
        byte_len(s) >= s.len(),
    decreases s.len(),
{
    if s.len() > 0 {
        lemma_byte_len_at_least_len(s.drop_last());
    }
}

proof fn lemma_byte_len_prefix_strict(s: Seq<char>, k: int, e: int)
    requires
        0 <= k < e <= s.len(),
    ensures
        byte_len(s.take(k)) < byte_len(s.take(e)),
{
    assert(s.take(e) =~= s.take(k) + s.subrange(k, e));
    lemma_byte_len_concat(s.take(k), s.subrange(k, e));
    lemma_byte_len_at_least_len(s.subrange(k, e));
}

/// A run of digits is read whole, as the integer that it denotes, wherever
/// that integer fits in a `usize`.
pub proof fn lemma_digits_read_as_integer(d: Seq<char>)
    requires
        d.len() > 0,
        forall|j: int| 0 <= j < d.len() ==> is_digit(#[trigger] d[j]),
        digits_value(d) <= usize::MAX,
    ensures
        lex_number(d) == Ok::<(TokenValue, nat), ErrorKind>(
            (TokenValue::Integer(digits_value(d)), d.len()),
        ),
{
    lemma_number_len_digits(d, d.len(), false);
    assert(d.take(d.len() as int) =~= d);
    if d.contains('.') {
        let j = choose|j: int| 0 <= j < d.len() && d[j] == '.';
        assert(is_digit(d[j]));
    }
}

/// Digits, a point and digits are read as one decimal literal, which ends
/// before anything that is not a digit, a second point included.
pub proof fn lemma_decimal_read_whole(d1: Seq<char>, d2: Seq<char>, rest: Seq<char>)
    requires
        d1.len() > 0,
        d2.len() > 0,
        forall|j: int| 0 <= j < d1.len() ==> is_digit(#[trigger] d1[j]),
        forall|j: int| 0 <= j < d2.len() ==> is_digit(#[trigger] d2[j]),
        rest.len() == 0 || !is_digit(rest[0]),
    ensures
        lex_number(d1 + seq!['.'] + d2 + rest) == Ok::<(TokenValue, nat), ErrorKind>(
            (TokenValue::Decimal(d1 + seq!['.'] + d2), d1.len() + 1 + d2.len()),
        ),
{
    let lit = d1 + seq!['.'] + d2;
    let s = lit + rest;
    let a = d1.len();
    assert forall|j: int| 0 <= j < a implies is_digit(#[trigger] s[j]) by {
        assert(s[j] == d1[j]);
    }
    lemma_number_len_digits(s, a, false);
    let t = s.skip(a as int);
    assert(t[0] == '.');
    let u = t.drop_first();
    assert(u =~= d2 + rest);
    assert forall|j: int| 0 <= j < d2.len() implies is_digit(#[trigger] u[j]) by {
        assert(u[j] == d2[j]);
    }
    lemma_number_len_digits(u, d2.len(), true);
    assert(u.skip(d2.len() as int) =~= rest);
    assert(s.take((a + 1 + d2.len()) as int) =~= lit);
    assert(lit[a as int] == '.');
}

/// A literal must start with a digit or a point: elsewhere reading one fails.
pub proof fn lemma_number_needs_digit(s: Seq<char>)
    requires
        s.len() == 0 || (!is_digit(s[0]) && s[0] != '.'),
    ensures
        lex_number(s) is Err,
{
}

/// A source of whitespace and comments alone has no tokens, and reading it
/// does not fail.
pub proof fn lemma_blank_source_has_no_tokens(s: Seq<char>)
    requires
        skip_len(s) == s.len(),
    ensures
        lex_tokens(s) == TokensModel::Ok(Seq::empty()),
{
}

/// Reading again from the end of any token of a source gives exactly the
/// tokens that follow it there, with their spans counted from that point.
pub proof fn lemma_retokenize_after_token(s: Seq<char>, k: int, i: int)
    requires
        lex_tokens(s) is Ok,
        0 <= i < lex_tokens(s)->Ok_0.len(),
        0 <= k <= s.len(),
        byte_len(s.take(k)) == lex_tokens(s)->Ok_0[i].2,
    ensures
        lex_tokens(s.skip(k)) is Ok,
        shift_tokens(lex_tokens(s.skip(k))->Ok_0, lex_tokens(s)->Ok_0[i].2) == lex_tokens(
            s,
        )->Ok_0.skip(i + 1),
    decreases s.len(),
{
    let toks = lex_tokens(s)->Ok_0;
    let k0 = skip_len(s);
    lemma_blank_len_bound(s, false);
    lemma_lex_one_len(s.skip(k0 as int));
    let (t, n) = lex_one(s.skip(k0 as int))->Ok_0;
    let e = k0 + n;
    let end = byte_len(s.take(e as int));
    let s2 = s.skip(e as int);
    let rest = lex_tokens(s2)->Ok_0;
    assert(toks == seq![(t, byte_len(s.take(k0 as int)), end)] + shift_tokens(rest, end));
    if k < e {
        lemma_byte_len_prefix_strict(s, k, e as int);
        if i > 0 {
            assert(toks[i] == shift_tokens(rest, end)[i - 1]);
        }
        assert(false);
    }
    if i == 0 {
        if k > e {
            lemma_byte_len_prefix_strict(s, e as int, k);
        }
        assert(k == e);
        assert(shift_tokens(rest, end) =~= toks.skip(1));
    } else {
        let k2 = k - e;
        assert(toks[i] == shift_tokens(rest, end)[i - 1]);
        assert(s.take(k) =~= s.take(e as int) + s2.take(k2));
        lemma_byte_len_concat(s.take(e as int), s2.take(k2));
        lemma_retokenize_after_token(s2, k2, i - 1);
        assert(s2.skip(k2) =~= s.skip(k));
        let x = lex_tokens(s.skip(k))->Ok_0;
        assert(shift_tokens(x, toks[i].2) =~= shift_tokens(shift_tokens(x, rest[i - 1].2), end));
        assert(shift_tokens(rest.skip(i), end) =~= toks.skip(i + 1));
    }
}

} // verus!
