use vstd::prelude::*;
use vstd::slice::slice_subrange;
use vstd::string::{StrSliceExecFns, StringExecFns, StringSliceAdditionalSpecFns};
use vstd::utf8::*;

use crate::ast::{chars_of, escape, escape_char, quoted, string_of, Operator, Order, Spanned, Term, TermModel, Value, ValueModel};
pub use crate::ast::WithPos;

verus! {

/// Characters of the Unicode `White_Space` property.
pub open spec fn is_white(c: char) -> bool {
    let v = c as u32;
    (0x9 <= v <= 0xd) || v == 0x20 || v == 0x85 || v == 0xa0 || v == 0x1680 || (0x2000 <= v
        <= 0x200a) || v == 0x2028 || v == 0x2029 || v == 0x202f || v == 0x205f || v == 0x3000
}

/// Characters that may stand in a token.
pub open spec fn is_token_char(c: char) -> bool {
    !is_white(c) && c != '<' && c != '>' && c != '=' && c != ':' && c != '~' && c != ','
}

/// Characters that may stand in a number.
pub open spec fn is_digit(c: char) -> bool {
    '0' <= c && c <= '9'
}

/// The byte offset of the character at index `i`.
pub open spec fn byte_offset(s: Seq<char>, i: int) -> int {
    encode_utf8(s.take(i)).len() as int
}

/// The first index from `p` on that is not white space.
pub open spec fn skip_white(s: Seq<char>, p: int) -> int
    decreases s.len() - p,
{
    if 0 <= p < s.len() && is_white(s[p]) {
        skip_white(s, p + 1)
    } else {
        p
    }
}

/// The end of the white space that ends at `b`, looking no further back than `a`.
pub open spec fn trim_end(s: Seq<char>, a: int, b: int) -> int
    decreases b - a,
{
    if a < b <= s.len() && is_white(s[b - 1]) {
        trim_end(s, a, b - 1)
    } else {
        b
    }
}

/// The end of the token characters that start at `p`.
pub open spec fn token_end(s: Seq<char>, p: int) -> int
    decreases s.len() - p,
{
    if 0 <= p < s.len() && is_token_char(s[p]) {
        token_end(s, p + 1)
    } else {
        p
    }
}

/// The end of the decimal digits that start at `p`.
pub open spec fn digits_end(s: Seq<char>, p: int) -> int
    decreases s.len() - p,
{
    if 0 <= p < s.len() && is_digit(s[p]) {
        digits_end(s, p + 1)
    } else {
        p
    }
}

/// How the start of a text reads as a number.
pub enum NumberScan {
    /// A number of the given length in characters.
    Found(nat),
    /// No number.
    Absent,
    /// An exponent marker without digits after it.
    Broken,
}

/// `t` starts with `lower`, up to ASCII case (`upper` is `lower` in capitals).
pub open spec fn starts_with_ci(t: Seq<char>, lower: Seq<char>, upper: Seq<char>) -> bool {
    &&& t.len() >= lower.len()
    &&& lower.len() == upper.len()
    &&& forall|i: int| 0 <= i < lower.len() ==> t[i] == lower[i] || t[i] == upper[i]
}

/// The number at the start of `t`: an optional sign, digits with an optional
/// fraction (or a fraction alone), and an optional exponent; else `nan` or
/// `inf` in any case.
pub open spec fn number_scan(t: Seq<char>) -> NumberScan {
    let a: int = if t.len() > 0 && (t[0] == '+' || t[0] == '-') {
        1
    } else {
        0
    };
    let d = digits_end(t, a);
    let m: int = if d > a {
        if d < t.len() && t[d] == '.' {
            digits_end(t, d + 1)
        } else {
            d
        }
    } else if a < t.len() && t[a] == '.' && digits_end(t, a + 1) > a + 1 {
        digits_end(t, a + 1)
    } else {
        -1
    };
    if m < 0 {
        if starts_with_ci(t, seq!['n', 'a', 'n'], seq!['N', 'A', 'N']) || starts_with_ci(
            t,
            seq!['i', 'n', 'f'],
            seq!['I', 'N', 'F'],
        ) {
            NumberScan::Found(3)
        } else {
            NumberScan::Absent
        }
    } else if m < t.len() && (t[m] == 'e' || t[m] == 'E') {
        let b = if m + 1 < t.len() && (t[m + 1] == '+' || t[m + 1] == '-') {
            m + 2
        } else {
            m + 1
        };
        let e = digits_end(t, b);
        if e > b {
            NumberScan::Found(e as nat)
        } else {
            NumberScan::Broken
        }
    } else {
        NumberScan::Found(m as nat)
    }
}

/// What the number recognizer hands back.
pub enum NumberText {
    Found(String),
    Absent,
    Broken,
}

/// Relies on `nom::number::complete::float` (under `nom::combinator::recognize`,
/// which hands back the text it consumed): an optional sign, digits with an
/// optional fraction or a fraction alone, an optional exponent whose missing
/// digits are a failure that stops the parse (`cut`), else `nan` or `inf` in any case.
#[verifier::external_body]
fn recognize_number(t: &str) -> (r: NumberText)
    ensures
        match r {
            NumberText::Found(x) => {
                &&& number_scan(t@) == NumberScan::Found(x@.len())
                &&& x@.len() <= t@.len()
                &&& x@ == t@.take(x@.len() as int)
            },
            NumberText::Absent => number_scan(t@) == NumberScan::Absent,
            NumberText::Broken => number_scan(t@) == NumberScan::Broken,
        },
{
    let scan = nom::combinator::recognize(nom::number::complete::float::<&str, nom::error::Error<&str>>)(t);
    match scan {
        Ok((_, x)) => NumberText::Found(x.to_string()),
        Err(nom::Err::Failure(_)) => NumberText::Broken,
        Err(_) => NumberText::Absent,
    }
}

/// The byte width of a character in UTF-8.
fn utf8_width(c: char) -> (w: usize)
    ensures
        w == encode_scalar(c as u32).len(),
{
    let v = c as u32;
    if v <= 0x7f {
        1
    } else if v <= 0x7ff {
        2
    } else if v <= 0xffff {
        proof {
            char_is_scalar(c);
        }
        3
    } else {
        proof {
            char_is_scalar(c);
        }
        4
    }
}

/// Encoding a concatenation encodes each part.
proof fn lemma_encode_concat(a: Seq<char>, b: Seq<char>)
    ensures
        encode_utf8(a + b) == encode_utf8(a) + encode_utf8(b),
    decreases a.len(),
{
    if a.len() == 0 {
        assert(a + b =~= b);
        assert(encode_utf8(a) =~= Seq::<u8>::empty());
        assert(encode_utf8(a) + encode_utf8(b) =~= encode_utf8(b));
    } else {
        assert((a + b).drop_first() =~= a.drop_first() + b);
        lemma_encode_concat(a.drop_first(), b);
        assert(encode_utf8(a + b) =~= encode_scalar(a[0] as u32) + encode_utf8(a.drop_first() + b));
    }
}

/// The byte offset of every character index of `s`, and of its end.
pub open spec fn offsets_of(s: Seq<char>, offs: Seq<usize>) -> bool {
    &&& offs.len() == s.len() + 1
    &&& forall|i: int| 0 <= i <= s.len() ==> offs[i] as int == #[trigger] byte_offset(s, i)
}

/// The byte offsets of the characters of `input`.
fn byte_offsets(input: &str, cs: &Vec<char>) -> (offs: Vec<usize>)
    requires
        cs@ == input@,
    ensures
        offsets_of(cs@, offs@),
{
    let n = input.as_bytes().len();
    proof {
        assert(cs@.take(cs@.len() as int) =~= cs@);
    }
    let mut offs: Vec<usize> = Vec::new();
    offs.push(0);
    assert(cs@.take(0) =~= Seq::<char>::empty());
    let mut pos: usize = 0;
    let mut i: usize = 0;
    while i < cs.len()
        invariant
            cs@ == input@,
            n == encode_utf8(cs@).len(),
            i <= cs@.len(),
            pos == byte_offset(cs@, i as int),
            offs@.len() == i + 1,
            forall|k: int| 0 <= k <= i ==> offs@[k] as int == #[trigger] byte_offset(cs@, k),
        decreases cs.len() - i,
    {
        let w = utf8_width(cs[i]);
        proof {
            let s = cs@;
            assert(s.take(i + 1) =~= s.take(i as int) + seq![s[i as int]]);
            lemma_encode_concat(s.take(i as int), seq![s[i as int]]);
            assert(encode_utf8(seq![s[i as int]]) =~= encode_scalar(s[i as int] as u32) + encode_utf8(
                seq![s[i as int]].drop_first(),
            ));
            assert(encode_utf8(seq![s[i as int]].drop_first()) =~= Seq::<u8>::empty());
            assert(s =~= s.take(i + 1) + s.subrange(i + 1, s.len() as int));
            lemma_encode_concat(s.take(i + 1), s.subrange(i + 1, s.len() as int));
        }
        pos = pos + w;
        offs.push(pos);
        i = i + 1;
    }
    offs
}

/// A spanned value read from the characters `[a, b)` of `s`.
pub open spec fn span<V>(s: Seq<char>, a: int, b: int, v: V) -> Spanned<V> {
    Spanned { value: v, start: byte_offset(s, a), end: byte_offset(s, b) }
}

/// The operator at `p`, and where it ends.
pub open spec fn operator_at(s: Seq<char>, p: int) -> Option<(Operator, int)> {
    let one = |c: char| p < s.len() && s[p] == c;
    let two = |c: char, d: char| p + 1 < s.len() && s[p] == c && s[p + 1] == d;
    if one('=') {
        Some((Operator::Eq, p + 1))
    } else if two('!', '=') {
        Some((Operator::Neq, p + 2))
    } else if one('~') {
        Some((Operator::Contains, p + 1))
    } else if two('!', '~') {
        Some((Operator::NotContains, p + 2))
    } else if two('>', '=') {
        Some((Operator::Gte, p + 2))
    } else if one('>') {
        Some((Operator::Gt, p + 1))
    } else if two('<', '=') {
        Some((Operator::Lte, p + 2))
    } else if one('<') {
        Some((Operator::Lt, p + 1))
    } else {
        None
    }
}

/// The character that an escape sequence `\c` stands for.
pub open spec fn unescape(c: char) -> char {
    if c == 'n' {
        '\n'
    } else if c == 'r' {
        '\r'
    } else if c == 't' {
        '\t'
    } else {
        c
    }
}

/// The content of a quoted string whose body starts at `i`, and the index
/// after its closing quote; none when it is not closed.
pub open spec fn quoted_body(s: Seq<char>, i: int) -> Option<(Seq<char>, int)>
    decreases s.len() - i,
{
    if i < 0 || i >= s.len() {
        None
    } else if s[i] == '"' {
        Some((Seq::empty(), i + 1))
    } else if s[i] == '\\' {
        if i + 1 >= s.len() {
            None
        } else {
            prepend(seq![unescape(s[i + 1])], quoted_body(s, i + 2))
        }
    } else {
        prepend(seq![s[i]], quoted_body(s, i + 1))
    }
}

/// `head` put in front of the content, if any.
pub open spec fn prepend(head: Seq<char>, r: Option<(Seq<char>, int)>) -> Option<(Seq<char>, int)> {
    match r {
        Some((t, e)) => Some((head + t, e)),
        None => None,
    }
}

/// The value at `p`: a quoted string, else a token, which is a number when
/// the whole token reads as one and text otherwise.
pub open spec fn value_at(s: Seq<char>, p: int) -> Option<(ValueModel, int)> {
    let e = token_end(s, p);
    if p < s.len() && s[p] == '"' && quoted_body(s, p + 1) is Some {
        let (t, q) = quoted_body(s, p + 1)->Some_0;
        Some((ValueModel::Text(t), q))
    } else if e > p {
        if number_scan(s.subrange(p, e)) == NumberScan::Found((e - p) as nat) {
            Some((ValueModel::Number(s.subrange(p, e)), e))
        } else {
            Some((ValueModel::Text(s.subrange(p, e)), e))
        }
    } else {
        None
    }
}

/// A comparison `column operator value` from `p` on.
pub open spec fn operation_at(s: Seq<char>, p: int) -> Option<(TermModel, int)> {
    let c0 = skip_white(s, p);
    let c1 = token_end(s, c0);
    let o0 = skip_white(s, c1);
    if c1 == c0 || operator_at(s, o0) is None {
        None
    } else {
        let (op, o1) = operator_at(s, o0)->Some_0;
        let v0 = skip_white(s, o1);
        match value_at(s, v0) {
            None => None,
            Some((v, v1)) => Some(
                (
                    TermModel::Operation {
                        column: span(s, c0, c1, s.subrange(c0, c1)),
                        operator: span(s, o0, o1, op),
                        value: span(s, v0, v1, v),
                    },
                    v1,
                ),
            ),
        }
    }
}

/// `t` is `lower` up to ASCII case (`upper` is `lower` in capitals).
pub open spec fn is_word_ci(t: Seq<char>, lower: Seq<char>, upper: Seq<char>) -> bool {
    t.len() == lower.len() && starts_with_ci(t, lower, upper)
}

/// The sort order that a word names.
pub open spec fn order_of(t: Seq<char>) -> Option<Order> {
    if is_word_ci(t, seq!['a', 's', 'c'], seq!['A', 'S', 'C']) {
        Some(Order::ASC)
    } else if is_word_ci(t, seq!['d', 'e', 's', 'c'], seq!['D', 'E', 'S', 'C']) {
        Some(Order::DESC)
    } else if is_word_ci(t, seq!['r', 'a', 'n', 'd'], seq!['R', 'A', 'N', 'D']) {
        Some(Order::RANDOM)
    } else {
        None
    }
}

/// The word that starts a sort directive.
pub open spec fn is_sortby(t: Seq<char>) -> bool {
    is_word_ci(t, seq!['s', 'o', 'r', 't', 'b', 'y'], seq!['S', 'O', 'R', 'T', 'B', 'Y'])
}

/// A sort directive `sortby : column [,] [order]` from `p` on; an order word
/// that is not one is left for the terms that follow.
pub open spec fn sortby_at(s: Seq<char>, p: int) -> Option<(TermModel, int)> {
    let k0 = skip_white(s, p);
    let k1 = token_end(s, k0);
    let c = skip_white(s, k1);
    let c0 = skip_white(s, c + 1);
    let c1 = token_end(s, c0);
    if k1 == k0 || !is_sortby(s.subrange(k0, k1)) || c >= s.len() || s[c] != ':' || c1 == c0 {
        None
    } else {
        let column = span(s, c0, c1, s.subrange(c0, c1));
        let q = skip_white(s, c1);
        let q2 = if q < s.len() && s[q] == ',' {
            skip_white(s, q + 1)
        } else {
            q
        };
        let o1 = token_end(s, q2);
        match order_of(s.subrange(q2, o1)) {
            Some(o) => Some((TermModel::SortBy { column, order: Some(span(s, q2, o1, o)) }, o1)),
            None => Some((TermModel::SortBy { column, order: None }, c1)),
        }
    }
}

/// A keyword: the token from `p` on.
pub open spec fn keyword_at(s: Seq<char>, p: int) -> Option<(TermModel, int)> {
    let k0 = skip_white(s, p);
    let k1 = token_end(s, k0);
    if k1 == k0 {
        None
    } else {
        Some((TermModel::Keyword { keyword: span(s, k0, k1, s.subrange(k0, k1)) }, k1))
    }
}

/// The term at `p`: a comparison, else a sort directive, else a keyword.
pub open spec fn term_at(s: Seq<char>, p: int) -> Option<(TermModel, int)> {
    match operation_at(s, p) {
        Some(x) => Some(x),
        None => match sortby_at(s, p) {
            Some(x) => Some(x),
            None => keyword_at(s, p),
        },
    }
}

/// The terms from `p` on, each with the white space around it, and where they end.
pub open spec fn terms_from(s: Seq<char>, p: int) -> (Seq<TermModel>, int)
    decreases s.len() - p,
{
    match term_at(s, skip_white(s, p)) {
        None => (Seq::empty(), p),
        Some((t, e)) => {
            let r = skip_white(s, e);
            if p < r <= s.len() {
                let (ts, f) = terms_from(s, r);
                (seq![t] + ts, f)
            } else {
                (seq![t], r)
            }
        },
    }
}

/// The terms of a query. What follows them, without the white space around
/// it, becomes one more keyword, if anything does.
pub open spec fn parse_query_spec(s: Seq<char>) -> Seq<TermModel> {
    let (ts, p) = terms_from(s, 0);
    let a = skip_white(s, p);
    let b = trim_end(s, a, s.len() as int);
    if a < b {
        ts.push(TermModel::Keyword { keyword: span(s, a, b, s.subrange(a, b)) })
    } else {
        ts
    }
}

/// Whether `c` has the Unicode `White_Space` property.
fn is_white_char(c: char) -> (r: bool)
    ensures
        r == is_white(c),
{
    let v = c as u32;
    (0x9 <= v && v <= 0xd) || v == 0x20 || v == 0x85 || v == 0xa0 || v == 0x1680 || (0x2000 <= v
        && v <= 0x200a) || v == 0x2028 || v == 0x2029 || v == 0x202f || v == 0x205f || v == 0x3000
}

/// Whether `c` may stand in a token.
fn is_token_character(c: char) -> (r: bool)
    ensures
        r == is_token_char(c),
{
    !is_white_char(c) && c != '<' && c != '>' && c != '=' && c != ':' && c != '~' && c != ','
}

/// The first index from `p` on that is not white space.
fn skip_white_from(s: &Vec<char>, p: usize) -> (r: usize)
    requires
        p <= s@.len(),
    ensures
        r == skip_white(s@, p as int),
        p <= r <= s@.len(),
{
    let mut i = p;
    while i < s.len() && is_white_char(s[i])
        invariant
            p <= i <= s@.len(),
            skip_white(s@, p as int) == skip_white(s@, i as int),
        decreases s.len() - i,
    {
        i = i + 1;
    }
    i
}

/// `b` moved back over the white space that ends there, no further than `a`.
fn trim_end_at(s: &Vec<char>, a: usize, b: usize) -> (r: usize)
    requires
        a <= b <= s@.len(),
    ensures
        r == trim_end(s@, a as int, b as int),
        a <= r <= b,
{
    let mut j = b;
    while j > a && is_white_char(s[j - 1])
        invariant
            a <= j <= b,
            b <= s@.len(),
            trim_end(s@, a as int, b as int) == trim_end(s@, a as int, j as int),
        decreases j,
    {
        j = j - 1;
    }
    j
}

/// The end of the token that starts at `p`.
fn token_end_from(s: &Vec<char>, p: usize) -> (r: usize)
    requires
        p <= s@.len(),
    ensures
        r == token_end(s@, p as int),
        p <= r <= s@.len(),
{
    let mut i = p;
    while i < s.len() && is_token_character(s[i])
        invariant
            p <= i <= s@.len(),
            token_end(s@, p as int) == token_end(s@, i as int),
        decreases s.len() - i,
    {
        i = i + 1;
    }
    i
}

/// The characters `[a, b)` of `s` as a string.
fn text_of(s: &Vec<char>, a: usize, b: usize) -> (r: String)
    requires
        a <= b <= s@.len(),
    ensures
        r@ == s@.subrange(a as int, b as int),
{
    string_of(slice_subrange(s.as_slice(), a, b))
}

/// A spanned text read from the characters `[a, b)` of `s`.
fn text_span(s: &Vec<char>, offs: &Vec<usize>, a: usize, b: usize) -> (r: WithPos<String>)
    requires
        a <= b <= s@.len(),
        offsets_of(s@, offs@),
    ensures
        r@ == span(s@, a as int, b as int, s@.subrange(a as int, b as int)),
{
    WithPos { value: text_of(s, a, b), start: offs[a], end: offs[b] }
}

/// The operator at `p`, and where it ends.
fn operator_from(s: &Vec<char>, p: usize) -> (r: Option<(Operator, usize)>)
    requires
        p <= s@.len(),
    ensures
        match r {
            Some((op, e)) => operator_at(s@, p as int) == Some((op, e as int)) && e <= s@.len(),
            None => operator_at(s@, p as int) is None,
        },
{
    let n = s.len();
    let c = if p < n { s[p] } else { ' ' };
    let two = n - p >= 2;
    let d = if two { s[p + 1] } else { ' ' };
    if p < n && c == '=' {
        Some((Operator::Eq, p + 1))
    } else if two && c == '!' && d == '=' {
        Some((Operator::Neq, p + 2))
    } else if p < n && c == '~' {
        Some((Operator::Contains, p + 1))
    } else if two && c == '!' && d == '~' {
        Some((Operator::NotContains, p + 2))
    } else if two && c == '>' && d == '=' {
        Some((Operator::Gte, p + 2))
    } else if p < n && c == '>' {
        Some((Operator::Gt, p + 1))
    } else if two && c == '<' && d == '=' {
        Some((Operator::Lte, p + 2))
    } else if p < n && c == '<' {
        Some((Operator::Lt, p + 1))
    } else {
        None
    }
}

/// The content of a quoted string whose body starts at `start`.
fn quoted_from(s: &Vec<char>, start: usize) -> (r: Option<(String, usize)>)
    requires
        start <= s@.len(),
    ensures
        match r {
            Some((t, e)) => quoted_body(s@, start as int) == Some((t@, e as int)) && start < e <= s@.len(),
            None => quoted_body(s@, start as int) is None,
        },
{
    let mut acc: Vec<char> = Vec::new();
    let mut i = start;
    assert(acc@ + Seq::<char>::empty() =~= Seq::<char>::empty());
    proof {
        match quoted_body(s@, start as int) {
            Some((t, e)) => assert(acc@ + t =~= t),
            None => {},
        }
    }
    loop
        invariant
            start <= i <= s@.len(),
            quoted_body(s@, start as int) == prepend(acc@, quoted_body(s@, i as int)),
        decreases s@.len() - i,
    {
        if i >= s.len() {
            return None;
        }
        let c = s[i];
        if c == '"' {
            assert(acc@ + Seq::<char>::empty() =~= acc@);
            return Some((string_of(acc.as_slice()), i + 1));
        }
        let ghost before = acc@;
        let step: usize;
        if c == '\\' {
            if i + 1 >= s.len() {
                return None;
            }
            let d = s[i + 1];
            let u = if d == 'n' {
                '\n'
            } else if d == 'r' {
                '\r'
            } else if d == 't' {
                '\t'
            } else {
                d
            };
            acc.push(u);
            step = 2;
        } else {
            acc.push(c);
            step = 1;
        }
        proof {
            let head = acc@.subrange(before.len() as int, acc@.len() as int);
            assert(acc@ =~= before + head);
            assert(quoted_body(s@, i as int) == prepend(head, quoted_body(s@, i + step)));
            match quoted_body(s@, i + step) {
                Some((t, e)) => {
                    assert(before + (head + t) =~= acc@ + t);
                },
                None => {},
            }
        }
        i = i + step;
    }
}

/// The value at `p`.
fn value_from(s: &Vec<char>, p: usize) -> (r: Option<(Value, usize)>)
    requires
        p <= s@.len(),
    ensures
        match r {
            None => value_at(s@, p as int) is None,
            Some((v, e)) => value_at(s@, p as int) == Some((v@, e as int)) && p < e <= s@.len(),
        },
{
    if p < s.len() && s[p] == '"' {
        match quoted_from(s, p + 1) {
            Some((t, e)) => {
                return Some((Value::String(t), e));
            },
            None => {},
        }
    }
    let e = token_end_from(s, p);
    if e == p {
        return None;
    }
    let token = text_of(s, p, e);
    let whole = match recognize_number(token.as_str()) {
        NumberText::Found(x) => x.as_str().unicode_len() == e - p,
        _ => false,
    };
    if whole {
        Some((Value::Number(token), e))
    } else {
        Some((Value::String(token), e))
    }
}

/// The model of a term found by a parser, with where it ends.
pub open spec fn found_view(r: Option<(Term, usize)>) -> Option<(TermModel, int)> {
    match r {
        Some((t, e)) => Some((t@, e as int)),
        None => None,
    }
}

/// A term found between `p` (excluded) and the end of `s`, if any.
pub open spec fn ends_within(r: Option<(Term, usize)>, p: int, n: int) -> bool {
    r matches Some((_, e)) ==> p < e <= n
}

/// A comparison from `p` on.
fn operation_from(s: &Vec<char>, offs: &Vec<usize>, p: usize) -> (r: Option<(Term, usize)>)
    requires
        p <= s@.len(),
        offsets_of(s@, offs@),
    ensures
        operation_at(s@, p as int) == found_view(r),
        ends_within(r, p as int, s@.len() as int),
{
    let c0 = skip_white_from(s, p);
    let c1 = token_end_from(s, c0);
    if c1 == c0 {
        return None;
    }
    let o0 = skip_white_from(s, c1);
    let (op, o1) = match operator_from(s, o0) {
        Some(x) => x,
        None => {
            return None;
        },
    };
    let v0 = skip_white_from(s, o1);
    match value_from(s, v0) {
        None => None,
        Some((v, v1)) => {
            let t = Term::Operation {
                column: text_span(s, offs, c0, c1),
                operator: WithPos { value: op, start: offs[o0], end: offs[o1] },
                value: WithPos { value: v, start: offs[v0], end: offs[v1] },
            };
            Some((t, v1))
        },
    }
}

/// Whether `s[i]` is `lower` or `upper`.
fn char_ci(s: &Vec<char>, i: usize, lower: char, upper: char) -> (r: bool)
    requires
        i < s@.len(),
    ensures
        r == (s@[i as int] == lower || s@[i as int] == upper),
{
    s[i] == lower || s[i] == upper
}

/// Whether `s[a..b]` is `sortby` up to ASCII case.
fn sortby_word(s: &Vec<char>, a: usize, b: usize) -> (r: bool)
    requires
        a <= b <= s@.len(),
    ensures
        r == is_sortby(s@.subrange(a as int, b as int)),
{
    let r = b - a == 6 && char_ci(s, a, 's', 'S') && char_ci(s, a + 1, 'o', 'O') && char_ci(s, a + 2, 'r', 'R')
        && char_ci(s, a + 3, 't', 'T') && char_ci(s, a + 4, 'b', 'B') && char_ci(s, a + 5, 'y', 'Y');
    proof {
        let t = s@.subrange(a as int, b as int);
        let lo = seq!['s', 'o', 'r', 't', 'b', 'y'];
        let up = seq!['S', 'O', 'R', 'T', 'B', 'Y'];
        if is_sortby(t) {
            assert(t[0] == lo[0] || t[0] == up[0]);
            assert(t[1] == lo[1] || t[1] == up[1]);
            assert(t[2] == lo[2] || t[2] == up[2]);
            assert(t[3] == lo[3] || t[3] == up[3]);
            assert(t[4] == lo[4] || t[4] == up[4]);
            assert(t[5] == lo[5] || t[5] == up[5]);
        }
        if r {
            assert forall|i: int| 0 <= i < lo.len() implies t[i] == lo[i] || t[i] == up[i] by {
                assert(t[i] == s@[a + i]);
            }
        }
    }
    r
}

/// The sort order that `s[a..b]` names.
fn order_word(s: &Vec<char>, a: usize, b: usize) -> (r: Option<Order>)
    requires
        a <= b <= s@.len(),
    ensures
        r == order_of(s@.subrange(a as int, b as int)),
{
    let t = Ghost(s@.subrange(a as int, b as int));
    let asc = b - a == 3 && char_ci(s, a, 'a', 'A') && char_ci(s, a + 1, 's', 'S') && char_ci(s, a + 2, 'c', 'C');
    let desc = b - a == 4 && char_ci(s, a, 'd', 'D') && char_ci(s, a + 1, 'e', 'E') && char_ci(s, a + 2, 's', 'S')
        && char_ci(s, a + 3, 'c', 'C');
    let rand = b - a == 4 && char_ci(s, a, 'r', 'R') && char_ci(s, a + 1, 'a', 'A') && char_ci(s, a + 2, 'n', 'N')
        && char_ci(s, a + 3, 'd', 'D');
    proof {
        let t = t@;
        let (l1, u1) = (seq!['a', 's', 'c'], seq!['A', 'S', 'C']);
        let (l2, u2) = (seq!['d', 'e', 's', 'c'], seq!['D', 'E', 'S', 'C']);
        let (l3, u3) = (seq!['r', 'a', 'n', 'd'], seq!['R', 'A', 'N', 'D']);
        if is_word_ci(t, l1, u1) {
            assert(t[0] == l1[0] || t[0] == u1[0]);
            assert(t[1] == l1[1] || t[1] == u1[1]);
            assert(t[2] == l1[2] || t[2] == u1[2]);
        }
        if asc {
            assert forall|i: int| 0 <= i < l1.len() implies t[i] == l1[i] || t[i] == u1[i] by {
                assert(t[i] == s@[a + i]);
            }
        }
        if is_word_ci(t, l2, u2) {
            assert(t[0] == l2[0] || t[0] == u2[0]);
            assert(t[1] == l2[1] || t[1] == u2[1]);
            assert(t[2] == l2[2] || t[2] == u2[2]);
            assert(t[3] == l2[3] || t[3] == u2[3]);
        }
        if desc {
            assert forall|i: int| 0 <= i < l2.len() implies t[i] == l2[i] || t[i] == u2[i] by {
                assert(t[i] == s@[a + i]);
            }
        }
        if is_word_ci(t, l3, u3) {
            assert(t[0] == l3[0] || t[0] == u3[0]);
            assert(t[1] == l3[1] || t[1] == u3[1]);
            assert(t[2] == l3[2] || t[2] == u3[2]);
            assert(t[3] == l3[3] || t[3] == u3[3]);
        }
        if rand {
            assert forall|i: int| 0 <= i < l3.len() implies t[i] == l3[i] || t[i] == u3[i] by {
                assert(t[i] == s@[a + i]);
            }
        }
    }
    if asc {
        Some(Order::ASC)
    } else if desc {
        Some(Order::DESC)
    } else if rand {
        Some(Order::RANDOM)
    } else {
        None
    }
}

/// A sort directive from `p` on.
fn sortby_from(s: &Vec<char>, offs: &Vec<usize>, p: usize) -> (r: Option<(Term, usize)>)
    requires
        p <= s@.len(),
        offsets_of(s@, offs@),
    ensures
        sortby_at(s@, p as int) == found_view(r),
        ends_within(r, p as int, s@.len() as int),
{
    let k0 = skip_white_from(s, p);
    let k1 = token_end_from(s, k0);
    if k1 == k0 || !sortby_word(s, k0, k1) {
        return None;
    }
    let c = skip_white_from(s, k1);
    if c >= s.len() || s[c] != ':' {
        return None;
    }
    let c0 = skip_white_from(s, c + 1);
    let c1 = token_end_from(s, c0);
    if c1 == c0 {
        return None;
    }
    let column = text_span(s, offs, c0, c1);
    let q = skip_white_from(s, c1);
    let q2 = if q < s.len() && s[q] == ',' {
        skip_white_from(s, q + 1)
    } else {
        q
    };
    let o1 = token_end_from(s, q2);
    match order_word(s, q2, o1) {
        Some(o) => Some((Term::SortBy { column, order: Some(WithPos { value: o, start: offs[q2], end: offs[o1] }) }, o1)),
        None => Some((Term::SortBy { column, order: None }, c1)),
    }
}

/// A keyword from `p` on.
fn keyword_from(s: &Vec<char>, offs: &Vec<usize>, p: usize) -> (r: Option<(Term, usize)>)
    requires
        p <= s@.len(),
        offsets_of(s@, offs@),
    ensures
        keyword_at(s@, p as int) == found_view(r),
        ends_within(r, p as int, s@.len() as int),
{
    let k0 = skip_white_from(s, p);
    let k1 = token_end_from(s, k0);
    if k1 == k0 {
        None
    } else {
        Some((Term::Keyword { keyword: text_span(s, offs, k0, k1) }, k1))
    }
}

/// The term at `p`.
fn term_from(s: &Vec<char>, offs: &Vec<usize>, p: usize) -> (r: Option<(Term, usize)>)
    requires
        p <= s@.len(),
        offsets_of(s@, offs@),
    ensures
        term_at(s@, p as int) == found_view(r),
        ends_within(r, p as int, s@.len() as int),
{
    match operation_from(s, offs, p) {
        Some(x) => Some(x),
        None => match sortby_from(s, offs, p) {
            Some(x) => Some(x),
            None => keyword_from(s, offs, p),
        },
    }
}

/// The terms with the white space around them, and where they end.
fn terms_from_start(s: &Vec<char>, offs: &Vec<usize>) -> (r: (Vec<Term>, usize))
    requires
        offsets_of(s@, offs@),
    ensures
        terms_from(s@, 0) == (crate::ast::terms_view(r.0@), r.1 as int),
        r.1 <= s@.len(),
{
    let mut acc: Vec<Term> = Vec::new();
    let mut p: usize = 0;
    assert(crate::ast::terms_view(acc@) + terms_from(s@, 0).0 =~= terms_from(s@, 0).0);
    loop
        invariant
            p <= s@.len(),
            offsets_of(s@, offs@),
            terms_from(s@, 0) == (crate::ast::terms_view(acc@) + terms_from(s@, p as int).0, terms_from(
                s@,
                p as int,
            ).1),
        decreases s@.len() - p,
    {
        let q = skip_white_from(s, p);
        match term_from(s, offs, q) {
            None => {
                assert(crate::ast::terms_view(acc@) + Seq::<TermModel>::empty() =~= crate::ast::terms_view(acc@));
                return (acc, p);
            },
            Some((t, e)) => {
                let r = skip_white_from(s, e);
                let ghost before = crate::ast::terms_view(acc@);
                let ghost tv = t@;
                acc.push(t);
                proof {
                    assert(crate::ast::terms_view(acc@) =~= before.push(tv));
                    let ts = terms_from(s@, r as int).0;
                    assert(before + (seq![tv] + ts) =~= crate::ast::terms_view(acc@) + ts);
                }
                p = r;
            },
        }
    }
}

/// Parses a query into its terms; it never fails. Text after the last term
/// that no term can start with, without the white space around it, becomes
/// a final keyword.
pub fn parse_query(input: &str) -> (r: Result<Vec<Term>, String>)
    ensures
        r matches Ok(ts) && parse_query_spec(input@) == crate::ast::terms_view(ts@),
{
    let s = chars_of(input);
    let offs = byte_offsets(input, &s);
    let (terms, p) = terms_from_start(&s, &offs);
    let mut terms = terms;
    let a = skip_white_from(&s, p);
    let b = trim_end_at(&s, a, s.len());
    if a < b {
        let ghost before = crate::ast::terms_view(terms@);
        let k = Term::Keyword { keyword: text_span(&s, &offs, a, b) };
        let ghost kv = k@;
        terms.push(k);
        assert(crate::ast::terms_view(terms@) =~= before.push(kv));
    }
    Ok(terms)
}

/// Every query parses: into the terms that can be read from its start, and
/// at most one more, a keyword holding the text after them.
pub proof fn law_parse_total(s: Seq<char>)
    ensures
        ({
            let (ts, p) = terms_from(s, 0);
            let r = parse_query_spec(s);
            r == ts || (r.drop_last() == ts && r.last() is Keyword)
        }),
{
    let (ts, p) = terms_from(s, 0);
    let r = parse_query_spec(s);
    if r != ts {
        assert(r.drop_last() =~= ts);
    }
}

/// Escaping a concatenation escapes each part.
proof fn lemma_escape_concat(a: Seq<char>, b: Seq<char>)
    ensures
        escape(a + b) == escape(a) + escape(b),
    decreases b.len(),
{
    if b.len() == 0 {
        assert(a + b =~= a);
        assert(escape(a) + escape(b) =~= escape(a));
    } else {
        assert((a + b).drop_last() =~= a + b.drop_last());
        lemma_escape_concat(a, b.drop_last());
        assert(escape(a) + escape(b) =~= escape(a) + escape(b.drop_last()) + escape_char(b.last()));
    }
}

/// The quoted form of any text reads back as that text, whatever follows it.
pub proof fn law_quoted_round_trip(t: Seq<char>, rest: Seq<char>)
    ensures
        quoted_body(quoted(t) + rest, 1) == Some((t, quoted(t).len() as int)),
    decreases t.len(),
{
    let s = quoted(t) + rest;
    if t.len() == 0 {
        assert(escape(t) =~= Seq::<char>::empty());
        assert(s[1] == '"');
        assert(t =~= Seq::<char>::empty());
    } else {
        let c = t[0];
        let u = t.drop_first();
        assert(t =~= seq![c] + u);
        lemma_escape_concat(seq![c], u);
        assert(seq![c].drop_last() =~= Seq::<char>::empty());
        assert(escape(Seq::<char>::empty()) == Seq::<char>::empty());
        assert(seq![c].last() == c);
        assert(escape(seq![c]) =~= escape_char(c));
        let e = escape_char(c);
        // the rest of the text, quoted, after the escape of its first character
        let s2 = quoted(u) + rest;
        law_quoted_round_trip(u, rest);
        assert(s =~= seq!['"'] + e + escape(u) + seq!['"'] + rest);
        assert forall|j: int| 1 <= j < s2.len() implies s[j + e.len()] == s2[j] by {
            assert(s =~= seq!['"'] + e + s2.drop_first());
        }
        lemma_quoted_body_shift(s, s2, e.len() as int, 1);
        if e.len() == 1 {
            assert(s[1] == c);
            assert(c != '"' && c != '\\');
        } else {
            assert(s[1] == '\\');
            assert(unescape(s[2]) == c);
        }
        assert(seq![c] + u =~= t);
    }
}

/// Reading a quoted body does not depend on what comes before it.
proof fn lemma_quoted_body_shift(s: Seq<char>, s2: Seq<char>, k: int, i: int)
    requires
        0 <= k,
        1 <= i,
        s.len() == s2.len() + k,
        forall|j: int| 1 <= j < s2.len() ==> s[j + k] == s2[j],
    ensures
        quoted_body(s, i + k) == match quoted_body(s2, i) {
            Some((t, e)) => Some((t, e + k)),
            None => None,
        },
    decreases s2.len() - i,
{
    if i < s2.len() {
        assert(s[i + k] == s2[i]);
        if i + 1 < s2.len() {
            assert(s[i + k + 1] == s2[i + 1]);
        }
        if s2[i] == '\\' && i + 1 < s2.len() {
            lemma_quoted_body_shift(s, s2, k, i + 2);
        } else if s2[i] != '"' && s2[i] != '\\' {
            lemma_quoted_body_shift(s, s2, k, i + 1);
        }
    }
}

} // verus!
