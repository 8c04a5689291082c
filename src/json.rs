//! JSON text as characters: whitespace, tokens, string literals, unsigned
//! integers, booleans and arrays of strings, read and written, with the
//! lemmas that reading back what was written gives the same value.

use vstd::prelude::*;

use crate::task::strs_view;

verus! {

/// JSON whitespace.
pub open spec fn is_ws(c: char) -> bool {
    c == ' ' || c == '\n' || c == '\r' || c == '\t'
}

pub open spec fn is_digit(c: char) -> bool {
    48 <= (c as u32) && (c as u32) <= 57
}

/// The first position at or after `i` that does not hold whitespace.
pub open spec fn skip_ws(s: Seq<char>, i: int) -> int
    decreases s.len() - i,
{
    if 0 <= i < s.len() && is_ws(s[i]) {
        skip_ws(s, i + 1)
    } else {
        i
    }
}

/// After optional whitespace, the exact characters `t`; the position after them.
pub open spec fn token(s: Seq<char>, i: int, t: Seq<char>) -> Option<int> {
    let a = skip_ws(s, i);
    if 0 <= a && a + t.len() <= s.len() && s.subrange(a, a + t.len()) == t {
        Some(a + t.len())
    } else {
        None
    }
}

/// The value of a hexadecimal digit.
pub open spec fn hex_val(c: char) -> Option<u32> {
    let v = c as u32;
    if 48 <= v && v <= 57 {
        Some((v - 48) as u32)
    } else if 97 <= v && v <= 102 {
        Some((v - 87) as u32)
    } else if 65 <= v && v <= 70 {
        Some((v - 55) as u32)
    } else {
        None
    }
}

/// Four hexadecimal digits at `i`.
pub open spec fn hex4(s: Seq<char>, i: int) -> Option<u32> {
    if 0 <= i && i + 4 <= s.len() && hex_val(s[i]) is Some && hex_val(s[i + 1]) is Some && hex_val(
        s[i + 2],
    ) is Some && hex_val(s[i + 3]) is Some {
        Some(
            (hex_val(s[i])->0 * 4096 + hex_val(s[i + 1])->0 * 256 + hex_val(s[i + 2])->0 * 16
                + hex_val(s[i + 3])->0) as u32,
        )
    } else {
        None
    }
}

/// The character named by a one-letter escape.
pub open spec fn simple_escape(c: char) -> Option<char> {
    if c == '"' {
        Some('"')
    } else if c == '\\' {
        Some('\\')
    } else if c == '/' {
        Some('/')
    } else if c == 'b' {
        Some('\x08')
    } else if c == 'f' {
        Some('\x0c')
    } else if c == 'n' {
        Some('\n')
    } else if c == 'r' {
        Some('\r')
    } else if c == 't' {
        Some('\t')
    } else {
        None
    }
}

/// A code point that is a character (no surrogate).
pub open spec fn valid_code(v: u32) -> bool {
    v < 0xD800 || (0xE000 <= v && v <= 0x10FFFF)
}

pub open spec fn is_high_surrogate(v: u32) -> bool {
    0xD800 <= v && v <= 0xDBFF
}

pub open spec fn is_low_surrogate(v: u32) -> bool {
    0xDC00 <= v && v <= 0xDFFF
}

/// The code point that a high and a low surrogate stand for together.
pub open spec fn pair_code(hi: u32, lo: u32) -> u32 {
    ((hi - 0xD800) * 1024 + (lo - 0xDC00) + 0x10000) as u32
}

/// The character with code point `v`.
pub open spec fn char_of(v: u32) -> char {
    choose|c: char| #[trigger] (c as u32) == v
}

/// One character of string content at `i`, plain or escaped (a character
/// beyond the basic plane may be escaped as a surrogate pair), and the
/// position after it.
pub open spec fn str_unit(s: Seq<char>, i: int) -> Option<(char, int)> {
    if !(0 <= i < s.len()) {
        None
    } else if s[i] == '\\' {
        if i + 1 < s.len() {
            match simple_escape(s[i + 1]) {
                Some(d) => Some((d, i + 2)),
                None => if s[i + 1] == 'u' {
                    match hex4(s, i + 2) {
                        Some(v) => if is_high_surrogate(v) {
                            if i + 7 < s.len() && s[i + 6] == '\\' && s[i + 7] == 'u' {
                                match hex4(s, i + 8) {
                                    Some(w) => if is_low_surrogate(w) {
                                        Some((char_of(pair_code(v, w)), i + 12))
                                    } else {
                                        None
                                    },
                                    None => None,
                                }
                            } else {
                                None
                            }
                        } else if valid_code(v) {
                            Some((char_of(v), i + 6))
                        } else {
                            None
                        },
                        None => None,
                    }
                } else {
                    None
                },
            }
        } else {
            None
        }
    } else if s[i] == '"' || (s[i] as u32) < 32 {
        None
    } else {
        Some((s[i], i + 1))
    }
}

/// Puts `pre` in front of a parsed sequence.
pub open spec fn prepend<T>(pre: Seq<T>, o: Option<(Seq<T>, int)>) -> Option<(Seq<T>, int)> {
    match o {
        Some((r, e)) => Some((pre + r, e)),
        None => None,
    }
}

/// The content of a string literal from `i` (just after its opening quote)
/// through its closing quote; the position after that quote.
pub open spec fn str_body(s: Seq<char>, i: int) -> Option<(Seq<char>, int)>
    decreases s.len() - i,
{
    if !(0 <= i < s.len()) {
        None
    } else if s[i] == '"' {
        Some((Seq::empty(), i + 1))
    } else {
        match str_unit(s, i) {
            Some((c, j)) => if i < j <= s.len() {
                prepend(seq![c], str_body(s, j))
            } else {
                None
            },
            None => None,
        }
    }
}

/// After optional whitespace, a string literal.
pub open spec fn quoted_at(s: Seq<char>, i: int) -> Option<(Seq<char>, int)> {
    let a = skip_ws(s, i);
    if 0 <= a < s.len() && s[a] == '"' {
        str_body(s, a + 1)
    } else {
        None
    }
}

pub open spec fn digit_val(c: char) -> nat {
    ((c as u32) - 48) as nat
}

/// The number that a run of decimal digits writes.
pub open spec fn digits_value(t: Seq<char>) -> nat
    decreases t.len(),
{
    if t.len() == 0 {
        0
    } else {
        digits_value(t.drop_last()) * 10 + digit_val(t.last())
    }
}

/// The end of the run of digits that starts at `i`.
pub open spec fn digit_end(s: Seq<char>, i: int) -> int
    decreases s.len() - i,
{
    if 0 <= i < s.len() && is_digit(s[i]) {
        digit_end(s, i + 1)
    } else {
        i
    }
}

/// After optional whitespace, an unsigned integer that fits in a `u32`,
/// written without leading zeros.
pub open spec fn number_at(s: Seq<char>, i: int) -> Option<(u32, int)> {
    let a = skip_ws(s, i);
    let e = digit_end(s, a);
    if e == a || (e - a > 1 && s[a] == '0') {
        None
    } else if digits_value(s.subrange(a, e)) <= u32::MAX {
        Some((digits_value(s.subrange(a, e)) as u32, e))
    } else {
        None
    }
}

pub open spec fn true_text() -> Seq<char> {
    seq!['t', 'r', 'u', 'e']
}

pub open spec fn false_text() -> Seq<char> {
    seq!['f', 'a', 'l', 's', 'e']
}

/// After optional whitespace, `true` or `false`.
pub open spec fn bool_at(s: Seq<char>, i: int) -> Option<(bool, int)> {
    match token(s, i, true_text()) {
        Some(j) => Some((true, j)),
        None => match token(s, i, false_text()) {
            Some(j) => Some((false, j)),
            None => None,
        },
    }
}

/// The items of a non-empty array of strings, from `i` (after `[`) through `]`.
pub open spec fn str_items_at(s: Seq<char>, i: int) -> Option<(Seq<Seq<char>>, int)>
    decreases s.len() - i,
{
    match quoted_at(s, i) {
        None => None,
        Some((x, b)) => match token(s, b, seq![',']) {
            Some(c) => if i < c <= s.len() {
                prepend(seq![x], str_items_at(s, c))
            } else {
                None
            },
            None => match token(s, b, seq![']']) {
                Some(c) => Some((seq![x], c)),
                None => None,
            },
        },
    }
}

/// After optional whitespace, an array of strings.
pub open spec fn str_array_at(s: Seq<char>, i: int) -> Option<(Seq<Seq<char>>, int)> {
    match token(s, i, seq!['[']) {
        None => None,
        Some(a) => match token(s, a, seq![']']) {
            Some(b) => Some((Seq::empty(), b)),
            None => str_items_at(s, a),
        },
    }
}

pub open spec fn null_text() -> Seq<char> {
    seq!['n', 'u', 'l', 'l']
}

/// After optional whitespace, a JSON number: an optional minus sign, an
/// integer part without leading zeros, an optional fraction and an optional
/// exponent; the position after it.
pub open spec fn number_end(s: Seq<char>, i: int) -> Option<int> {
    let a = skip_ws(s, i);
    let b = if 0 <= a < s.len() && s[a] == '-' {
        a + 1
    } else {
        a
    };
    let c = digit_end(s, b);
    if c == b || (c - b > 1 && s[b] == '0') {
        None
    } else {
        let d = if 0 <= c < s.len() && s[c] == '.' {
            if digit_end(s, c + 1) == c + 1 {
                -1
            } else {
                digit_end(s, c + 1)
            }
        } else {
            c
        };
        if d < 0 {
            None
        } else if 0 <= d < s.len() && (s[d] == 'e' || s[d] == 'E') {
            let g = if d + 1 < s.len() && (s[d + 1] == '+' || s[d + 1] == '-') {
                d + 2
            } else {
                d + 1
            };
            if digit_end(s, g) == g {
                None
            } else {
                Some(digit_end(s, g))
            }
        } else {
            Some(d)
        }
    }
}

/// After optional whitespace, any JSON value; the position after it.
pub open spec fn value_end(s: Seq<char>, i: int) -> Option<int>
    decreases s.len() - i, 0int,
{
    let a = skip_ws(s, i);
    if !(0 <= i <= a < s.len()) {
        None
    } else if s[a] == '"' {
        match str_body(s, a + 1) {
            Some((_x, e)) => Some(e),
            None => None,
        }
    } else if s[a] == '[' {
        match token(s, a + 1, seq![']']) {
            Some(e) => Some(e),
            None => elements_end(s, a + 1),
        }
    } else if s[a] == '{' {
        match token(s, a + 1, seq!['}']) {
            Some(e) => Some(e),
            None => members_end(s, a + 1),
        }
    } else if s[a] == 't' {
        token(s, a, true_text())
    } else if s[a] == 'f' {
        token(s, a, false_text())
    } else if s[a] == 'n' {
        token(s, a, null_text())
    } else {
        number_end(s, a)
    }
}

/// The elements of a non-empty array from `i` (after `[`) through `]`.
pub open spec fn elements_end(s: Seq<char>, i: int) -> Option<int>
    decreases s.len() - i, 1int,
{
    if !(0 <= i <= s.len()) {
        None
    } else {
        match value_end(s, i) {
            None => None,
            Some(b) => match token(s, b, seq![',']) {
                Some(c) => if i < c <= s.len() {
                    elements_end(s, c)
                } else {
                    None
                },
                None => token(s, b, seq![']']),
            },
        }
    }
}

/// The members of a non-empty object from `i` (after `{`) through `}`.
pub open spec fn members_end(s: Seq<char>, i: int) -> Option<int>
    decreases s.len() - i, 1int,
{
    if !(0 <= i <= s.len()) {
        None
    } else {
        match quoted_at(s, i) {
            None => None,
            Some((_k, p)) => match token(s, p, seq![':']) {
                None => None,
                Some(c) => if i < c <= s.len() {
                    match value_end(s, c) {
                        None => None,
                        Some(b) => match token(s, b, seq![',']) {
                            Some(d) => if i < d <= s.len() {
                                members_end(s, d)
                            } else {
                                None
                            },
                            None => token(s, b, seq!['}']),
                        },
                    }
                } else {
                    None
                },
            },
        }
    }
}

/// Relies on `char::from_u32`: the character with that code point, if the
/// code point names one.
#[verifier::external_body]
fn char_from_code(v: u32) -> (r: Option<char>)
    ensures
        r is Some <==> valid_code(v),
        r matches Some(c) ==> c as u32 == v,
{
    char::from_u32(v)
}

/// The characters of `s` in order.
pub(crate) fn chars_of(s: &str) -> (r: Vec<char>)
    ensures
        r@ == s@,
{
    let mut r: Vec<char> = Vec::new();
    for c in it: s.chars()
        invariant
            r@ == it.seq().take(it.index() as int),
            it.seq() == s@,
    {
        r.push(c);
    }
    r
}

/// Relies on collecting chars into a `String`: the string of those characters.
#[verifier::external_body]
pub(crate) fn text_of(cs: &[char]) -> (r: String)
    ensures
        r@ == cs@,
{
    cs.iter().collect()
}

pub fn skip_ws_exec(s: &[char], i: usize) -> (r: usize)
    requires
        i <= s@.len(),
    ensures
        r as int == skip_ws(s@, i as int),
        i <= r <= s@.len(),
{
    let mut p = i;
    while p < s.len() && (s[p] == ' ' || s[p] == '\n' || s[p] == '\r' || s[p] == '\t')
        invariant
            i <= p <= s@.len(),
            skip_ws(s@, i as int) == skip_ws(s@, p as int),
        decreases s@.len() - p,
    {
        p += 1;
    }
    p
}

pub fn token_exec(s: &[char], i: usize, t: &[char]) -> (r: Option<usize>)
    requires
        i <= s@.len(),
    ensures
        match r {
            Some(j) => token(s@, i as int, t@) == Some(j as int) && j <= s@.len(),
            None => token(s@, i as int, t@) is None,
        },
{
    let a = skip_ws_exec(s, i);
    if t.len() > s.len() - a {
        return None;
    }
    let mut k: usize = 0;
    while k < t.len()
        invariant
            i <= a <= s@.len(),
            s@.len() <= usize::MAX,
            a == skip_ws(s@, i as int),
            a + t@.len() <= s@.len(),
            k <= t@.len(),
            forall|m: int| 0 <= m < k ==> s@[a + m] == t@[m],
        decreases t@.len() - k,
    {
        if s[a + k] != t[k] {
            assert(s@.subrange(a as int, a + t@.len())[k as int] != t@[k as int]);
            return None;
        }
        k += 1;
    }
    assert(s@.subrange(a as int, a + t@.len()) =~= t@);
    Some(a + t.len())
}

fn hex_exec(c: char) -> (r: Option<u32>)
    ensures
        r == hex_val(c),
{
    let v = c as u32;
    if 48 <= v && v <= 57 {
        Some(v - 48)
    } else if 97 <= v && v <= 102 {
        Some(v - 87)
    } else if 65 <= v && v <= 70 {
        Some(v - 55)
    } else {
        None
    }
}

fn hex4_exec(s: &[char], i: usize) -> (r: Option<u32>)
    ensures
        r == hex4(s@, i as int),
{
    if i > s.len() || s.len() - i < 4 {
        return None;
    }
    match (hex_exec(s[i]), hex_exec(s[i + 1]), hex_exec(s[i + 2]), hex_exec(s[i + 3])) {
        (Some(a), Some(b), Some(c), Some(d)) => Some(a * 4096 + b * 256 + c * 16 + d),
        _ => None,
    }
}

fn simple_escape_exec(c: char) -> (r: Option<char>)
    ensures
        r == simple_escape(c),
{
    if c == '"' {
        Some('"')
    } else if c == '\\' {
        Some('\\')
    } else if c == '/' {
        Some('/')
    } else if c == 'b' {
        Some('\x08')
    } else if c == 'f' {
        Some('\x0c')
    } else if c == 'n' {
        Some('\n')
    } else if c == 'r' {
        Some('\r')
    } else if c == 't' {
        Some('\t')
    } else {
        None
    }
}

fn str_unit_exec(s: &[char], i: usize) -> (r: Option<(char, usize)>)
    requires
        i <= s@.len(),
    ensures
        match r {
            Some((c, j)) => str_unit(s@, i as int) == Some((c, j as int)),
            None => str_unit(s@, i as int) is None,
        },
{
    if i >= s.len() {
        return None;
    }
    let c = s[i];
    if c == '\\' {
        if i + 1 < s.len() {
            match simple_escape_exec(s[i + 1]) {
                Some(d) => Some((d, i + 2)),
                None => {
                    if s[i + 1] == 'u' {
                        match hex4_exec(s, i + 2) {
                            Some(v) => {
                                if 0xD800 <= v && v <= 0xDBFF {
                                    if s.len() - i > 7 && s[i + 6] == '\\' && s[i + 7] == 'u' {
                                        match hex4_exec(s, i + 8) {
                                            Some(w) => {
                                                if 0xDC00 <= w && w <= 0xDFFF {
                                                    let code = (v - 0xD800) * 1024 + (w - 0xDC00)
                                                        + 0x10000;
                                                    assert(code == pair_code(v, w));
                                                    match char_from_code(code) {
                                                        Some(ch) => {
                                                            proof {
                                                                lemma_char_of(ch);
                                                            }
                                                            Some((ch, i + 12))
                                                        },
                                                        None => None,
                                                    }
                                                } else {
                                                    None
                                                }
                                            },
                                            None => None,
                                        }
                                    } else {
                                        None
                                    }
                                } else {
                                    match char_from_code(v) {
                                        Some(ch) => {
                                            proof {
                                                lemma_char_of(ch);
                                            }
                                            Some((ch, i + 6))
                                        },
                                        None => None,
                                    }
                                }
                            },
                            None => None,
                        }
                    } else {
                        None
                    }
                },
            }
        } else {
            None
        }
    } else if c == '"' || (c as u32) < 32 {
        None
    } else {
        Some((c, i + 1))
    }
}

proof fn lemma_code_injective(a: char, b: char)
    requires
        (a as u32) == (b as u32),
    ensures
        a == b,
{
}

pub(crate) proof fn lemma_prepend_push<T>(pre: Seq<T>, c: T, o: Option<(Seq<T>, int)>)
    ensures
        prepend(pre, prepend(seq![c], o)) == prepend(pre.push(c), o),
{
    if let Some((r, e)) = o {
        assert(pre + (seq![c] + r) =~= pre.push(c) + r);
    }
}

/// The string literal content at `i` (after the opening quote).
pub fn str_body_exec(s: &[char], i: usize) -> (r: Option<(Vec<char>, usize)>)
    requires
        i <= s@.len(),
    ensures
        match r {
            Some((v, e)) => str_body(s@, i as int) == Some((v@, e as int)) && e <= s@.len(),
            None => str_body(s@, i as int) is None,
        },
{
    let mut out: Vec<char> = Vec::new();
    let mut p = i;
    loop
        invariant
            i <= p <= s@.len(),
            str_body(s@, i as int) == prepend(out@, str_body(s@, p as int)),
        decreases s@.len() - p,
    {
        if p >= s.len() {
            return None;
        }
        if s[p] == '"' {
            assert(out@ + Seq::<char>::empty() =~= out@);
            return Some((out, p + 1));
        }
        match str_unit_exec(s, p) {
            Some((c, j)) => {
                if !(p < j && j <= s.len()) {
                    return None;
                }
                proof {
                    lemma_prepend_push(out@, c, str_body(s@, j as int));
                }
                out.push(c);
                p = j;
            },
            None => {
                return None;
            },
        }
    }
}

pub fn quoted_exec(s: &[char], i: usize) -> (r: Option<(Vec<char>, usize)>)
    requires
        i <= s@.len(),
    ensures
        match r {
            Some((v, e)) => quoted_at(s@, i as int) == Some((v@, e as int)) && e <= s@.len(),
            None => quoted_at(s@, i as int) is None,
        },
{
    let a = skip_ws_exec(s, i);
    if a < s.len() && s[a] == '"' {
        str_body_exec(s, a + 1)
    } else {
        None
    }
}

pub fn number_exec(s: &[char], i: usize) -> (r: Option<(u32, usize)>)
    requires
        i <= s@.len(),
    ensures
        match r {
            Some((v, e)) => number_at(s@, i as int) == Some((v, e as int)) && e <= s@.len(),
            None => number_at(s@, i as int) is None,
        },
{
    let a = skip_ws_exec(s, i);
    let mut p = a;
    let mut acc: u64 = 0;
    let mut too_big = false;
    while p < s.len() && 48 <= (s[p] as u32) && (s[p] as u32) <= 57
        invariant
            a <= p <= s@.len(),
            a == skip_ws(s@, i as int),
            digit_end(s@, a as int) == digit_end(s@, p as int),
            too_big == (digits_value(s@.subrange(a as int, p as int)) > u32::MAX),
            !too_big ==> acc == digits_value(s@.subrange(a as int, p as int)),
        decreases s@.len() - p,
    {
        assert(s@.subrange(a as int, p + 1).drop_last() =~= s@.subrange(a as int, p as int));
        let d = (s[p] as u32 - 48) as u64;
        if !too_big {
            acc = acc * 10 + d;
            if acc > u32::MAX as u64 {
                too_big = true;
            }
        }
        p += 1;
    }
    if p == a || (p - a > 1 && s[a] == '0') || too_big {
        None
    } else {
        Some((acc as u32, p))
    }
}

pub fn bool_exec(s: &[char], i: usize) -> (r: Option<(bool, usize)>)
    requires
        i <= s@.len(),
    ensures
        match r {
            Some((v, e)) => bool_at(s@, i as int) == Some((v, e as int)) && e <= s@.len(),
            None => bool_at(s@, i as int) is None,
        },
{
    let t: [char; 4] = ['t', 'r', 'u', 'e'];
    let f: [char; 5] = ['f', 'a', 'l', 's', 'e'];
    assert(t@ == true_text());
    assert(f@ == false_text());
    match token_exec(s, i, &t) {
        Some(j) => Some((true, j)),
        None => match token_exec(s, i, &f) {
            Some(j) => Some((false, j)),
            None => None,
        },
    }
}

/// After optional whitespace, the character `c`.
pub fn token_char_exec(s: &[char], i: usize, c: char) -> (r: Option<usize>)
    requires
        i <= s@.len(),
    ensures
        match r {
            Some(j) => token(s@, i as int, seq![c]) == Some(j as int) && j <= s@.len(),
            None => token(s@, i as int, seq![c]) is None,
        },
{
    let t: [char; 1] = [c];
    let ts: &[char] = &t;
    assert(ts@ == seq![c]);
    token_exec(s, i, ts)
}

/// An array of strings at `i`.
pub fn str_array_exec(s: &[char], i: usize) -> (r: Option<(Vec<String>, usize)>)
    requires
        i <= s@.len(),
    ensures
        match r {
            Some((v, e)) => str_array_at(s@, i as int) == Some((strs_view(v@), e as int)) && e
                <= s@.len(),
            None => str_array_at(s@, i as int) is None,
        },
{
    let a = match token_char_exec(s, i, '[') {
        Some(a) => a,
        None => {
            return None;
        },
    };
    let mut out: Vec<String> = Vec::new();
    if let Some(b) = token_char_exec(s, a, ']') {
        assert(strs_view(out@) =~= Seq::<Seq<char>>::empty());
        return Some((out, b));
    }
    let mut p = a;
    assert(prepend(strs_view(out@), str_items_at(s@, p as int)) == str_items_at(s@, p as int)) by {
        if let Some((r, e)) = str_items_at(s@, p as int) {
            assert(strs_view(out@) + r =~= r);
        }
    }
    loop
        invariant
            p <= s@.len(),
            str_array_at(s@, i as int) == prepend(strs_view(out@), str_items_at(s@, p as int)),
        decreases s@.len() - p,
    {
        let (x, b) = match quoted_exec(s, p) {
            Some(q) => q,
            None => {
                return None;
            },
        };
        let xs = text_of(x.as_slice());
        let ghost o0 = out@;
        out.push(xs);
        assert(strs_view(out@) =~= strs_view(o0).push(x@));
        match token_char_exec(s, b, ',') {
            Some(c) => {
                if !(p < c) {
                    return None;
                }
                proof {
                    lemma_prepend_push(strs_view(o0), x@, str_items_at(s@, c as int));
                }
                p = c;
            },
            None => match token_char_exec(s, b, ']') {
                Some(c) => {
                    assert(strs_view(o0) + seq![x@] =~= strs_view(out@));
                    return Some((out, c));
                },
                None => {
                    return None;
                },
            },
        }
    }
}

/// A line break followed by `n` spaces.
pub open spec fn nl(n: nat) -> Seq<char> {
    seq!['\n'] + Seq::new(n, |_k: int| ' ')
}

pub open spec fn hex_char(d: nat) -> char {
    if d == 0 { '0' } else if d == 1 { '1' } else if d == 2 { '2' } else if d == 3 { '3' }
    else if d == 4 { '4' } else if d == 5 { '5' } else if d == 6 { '6' } else if d == 7 { '7' }
    else if d == 8 { '8' } else if d == 9 { '9' } else if d == 10 { 'a' } else if d == 11 { 'b' }
    else if d == 12 { 'c' } else if d == 13 { 'd' } else if d == 14 { 'e' } else { 'f' }
}

/// How one character is written inside a string literal.
pub open spec fn esc_char(c: char) -> Seq<char> {
    if c == '"' {
        seq!['\\', '"']
    } else if c == '\\' {
        seq!['\\', '\\']
    } else if c == '\n' {
        seq!['\\', 'n']
    } else if c == '\r' {
        seq!['\\', 'r']
    } else if c == '\t' {
        seq!['\\', 't']
    } else if c == '\x08' {
        seq!['\\', 'b']
    } else if c == '\x0c' {
        seq!['\\', 'f']
    } else if (c as u32) < 32 {
        seq!['\\', 'u', '0', '0', hex_char((c as u32 / 16) as nat), hex_char((c as u32 % 16) as nat)]
    } else {
        seq![c]
    }
}

/// The escaped content of a string literal.
pub open spec fn esc(s: Seq<char>) -> Seq<char>
    decreases s.len(),
{
    if s.len() == 0 {
        s
    } else {
        esc_char(s[0]) + esc(s.drop_first())
    }
}

/// A string literal.
pub open spec fn quoted(s: Seq<char>) -> Seq<char> {
    seq!['"'] + esc(s) + seq!['"']
}

/// The decimal digits of `n`.
pub open spec fn digits(n: nat) -> Seq<char>
    decreases n,
{
    if n < 10 {
        seq![hex_char(n)]
    } else {
        digits(n / 10).push(hex_char(n % 10))
    }
}

/// The items of a non-empty array of strings, one per line at indent `d + 2`.
pub open spec fn str_items(items: Seq<Seq<char>>, d: nat) -> Seq<char>
    decreases items.len(),
{
    if items.len() <= 1 {
        nl(d + 2) + quoted(items[0])
    } else {
        nl(d + 2) + quoted(items[0]) + seq![','] + str_items(items.drop_first(), d)
    }
}

/// An array of strings whose closing bracket stands at indent `d`.
pub open spec fn str_array(items: Seq<Seq<char>>, d: nat) -> Seq<char> {
    if items.len() == 0 {
        seq!['[', ']']
    } else {
        seq!['['] + str_items(items, d) + nl(d) + seq![']']
    }
}

pub fn push_all(out: &mut Vec<char>, t: &[char])
    ensures
        final(out)@ == old(out)@ + t@,
{
    let mut k: usize = 0;
    while k < t.len()
        invariant
            k <= t@.len(),
            out@ == old(out)@ + t@.take(k as int),
        decreases t@.len() - k,
    {
        out.push(t[k]);
        assert(t@.take(k as int + 1) =~= t@.take(k as int).push(t@[k as int]));
        assert(out@ =~= old(out)@ + t@.take(k as int + 1));
        k += 1;
    }
    assert(t@.take(k as int) =~= t@);
}

pub fn write_nl(out: &mut Vec<char>, n: usize)
    ensures
        final(out)@ == old(out)@ + nl(n as nat),
{
    out.push('\n');
    let mut k: usize = 0;
    while k < n
        invariant
            k <= n,
            out@ == old(out)@ + seq!['\n'] + Seq::new(k as nat, |_k: int| ' '),
        decreases n - k,
    {
        out.push(' ');
        assert(out@ =~= old(out)@ + seq!['\n'] + Seq::new(k as nat + 1, |_k: int| ' '));
        k += 1;
    }
    assert(old(out)@ + seq!['\n'] + Seq::new(n as nat, |_k: int| ' ') =~= old(out)@ + nl(n as nat));
}

fn hex_char_exec(d: u32) -> (c: char)
    requires
        d < 16,
    ensures
        c == hex_char(d as nat),
{
    let t: [char; 16] = ['0', '1', '2', '3', '4', '5', '6', '7', '8', '9', 'a', 'b', 'c', 'd', 'e', 'f'];
    assert(t@ == seq!['0', '1', '2', '3', '4', '5', '6', '7', '8', '9', 'a', 'b', 'c', 'd', 'e', 'f']);
    t[d as usize]
}

pub fn write_esc_char(out: &mut Vec<char>, c: char)
    ensures
        final(out)@ == old(out)@ + esc_char(c),
{
    if c == '"' {
        push_all(out, &['\\', '"']);
    } else if c == '\\' {
        push_all(out, &['\\', '\\']);
    } else if c == '\n' {
        push_all(out, &['\\', 'n']);
    } else if c == '\r' {
        push_all(out, &['\\', 'r']);
    } else if c == '\t' {
        push_all(out, &['\\', 't']);
    } else if c == '\x08' {
        push_all(out, &['\\', 'b']);
    } else if c == '\x0c' {
        push_all(out, &['\\', 'f']);
    } else if (c as u32) < 32 {
        let h = hex_char_exec(c as u32 / 16);
        let l = hex_char_exec(c as u32 % 16);
        push_all(out, &['\\', 'u', '0', '0', h, l]);
    } else {
        out.push(c);
        assert(out@ =~= old(out)@ + seq![c]);
    }
}

proof fn lemma_esc_push(a: Seq<char>, c: char)
    ensures
        esc(a.push(c)) == esc(a) + esc_char(c),
    decreases a.len(),
{
    let e = Seq::<char>::empty();
    assert(esc(e) == e);
    assert(a.push(c)[0] == if a.len() == 0 { c } else { a[0] });
    if a.len() == 0 {
        assert(a.push(c).drop_first() =~= e);
        assert(esc(a.push(c)) == esc_char(c) + esc(e));
        assert(esc(a.push(c)) =~= esc(a) + esc_char(c));
    } else {
        assert(a.push(c).drop_first() =~= a.drop_first().push(c));
        lemma_esc_push(a.drop_first(), c);
        assert(esc(a.push(c)) == esc_char(a[0]) + esc(a.drop_first().push(c)));
        assert(esc(a.push(c)) =~= esc(a) + esc_char(c));
    }
}

pub fn write_quoted(out: &mut Vec<char>, s: &str)
    ensures
        final(out)@ == old(out)@ + quoted(s@),
{
    let cs = chars_of(s);
    out.push('"');
    let mut k: usize = 0;
    while k < cs.len()
        invariant
            k <= cs@.len(),
            cs@ == s@,
            out@ == old(out)@ + seq!['"'] + esc(cs@.take(k as int)),
        decreases cs@.len() - k,
    {
        write_esc_char(out, cs[k]);
        proof {
            assert(cs@.take(k as int + 1) =~= cs@.take(k as int).push(cs@[k as int]));
            lemma_esc_push(cs@.take(k as int), cs@[k as int]);
            assert(out@ =~= old(out)@ + seq!['"'] + esc(cs@.take(k as int + 1)));
        }
        k += 1;
    }
    out.push('"');
    assert(cs@.take(k as int) =~= s@);
    assert(out@ =~= old(out)@ + quoted(s@));
}

pub fn write_digits(out: &mut Vec<char>, n: u32)
    ensures
        final(out)@ == old(out)@ + digits(n as nat),
    decreases n,
{
    if n >= 10 {
        write_digits(out, n / 10);
    }
    let c = hex_char_exec(n % 10);
    out.push(c);
    assert(out@ =~= old(out)@ + digits(n as nat));
}

proof fn lemma_str_items_push(items: Seq<Seq<char>>, x: Seq<char>, d: nat)
    requires
        items.len() >= 1,
    ensures
        str_items(items.push(x), d) == str_items(items, d) + seq![','] + nl(d + 2) + quoted(x),
    decreases items.len(),
{
    assert(items.push(x)[0] == items[0]);
    if items.len() == 1 {
        assert(items.push(x).drop_first() =~= seq![x]);
        assert(str_items(seq![x], d) == nl(d + 2) + quoted(seq![x][0]));
        assert(str_items(items.push(x), d) =~= str_items(items, d) + seq![','] + nl(d + 2) + quoted(x));
    } else {
        assert(items.push(x).drop_first() =~= items.drop_first().push(x));
        lemma_str_items_push(items.drop_first(), x, d);
        assert(str_items(items.push(x), d) =~= str_items(items, d) + seq![','] + nl(d + 2) + quoted(x));
    }
}

/// Writes an array of strings whose closing bracket stands at indent `d`.
pub fn write_str_array(out: &mut Vec<char>, items: &Vec<String>, d: usize)
    requires
        d <= usize::MAX - 2,
    ensures
        final(out)@ == old(out)@ + str_array(strs_view(items@), d as nat),
{
    let ghost v = strs_view(items@);
    if items.len() == 0 {
        push_all(out, &['[', ']']);
        return;
    }
    out.push('[');
    write_nl(out, d + 2);
    write_quoted(out, items[0].as_str());
    assert(v.take(1) =~= seq![v[0]]);
    assert(str_items(v.take(1), d as nat) =~= nl(d as nat + 2) + quoted(v[0]));
    assert(out@ =~= old(out)@ + seq!['['] + str_items(v.take(1), d as nat));
    let mut k: usize = 1;
    while k < items.len()
        invariant
            1 <= k <= items@.len(),
            d <= usize::MAX - 2,
            v == strs_view(items@),
            out@ == old(out)@ + seq!['['] + str_items(v.take(k as int), d as nat),
        decreases items@.len() - k,
    {
        out.push(',');
        write_nl(out, d + 2);
        write_quoted(out, items[k].as_str());
        proof {
            assert(v.take(k as int + 1) =~= v.take(k as int).push(v[k as int]));
            lemma_str_items_push(v.take(k as int), v[k as int], d as nat);
            assert(out@ =~= old(out)@ + seq!['['] + str_items(v.take(k as int + 1), d as nat));
        }
        k += 1;
    }
    write_nl(out, d);
    out.push(']');
    assert(v.take(k as int) =~= v);
    assert(out@ =~= old(out)@ + str_array(v, d as nat));
}

/// The text `e` stands in `s` from position `i`.
pub open spec fn at(s: Seq<char>, i: int, e: Seq<char>) -> bool {
    0 <= i && i + e.len() <= s.len() && forall|k: int| 0 <= k < e.len() ==> s[i + k] == #[trigger] e[k]
}

/// Every character of `w` is whitespace.
pub open spec fn all_ws(w: Seq<char>) -> bool {
    forall|k: int| 0 <= k < w.len() ==> is_ws(#[trigger] w[k])
}

pub open spec fn bool_text(b: bool) -> Seq<char> {
    if b {
        true_text()
    } else {
        false_text()
    }
}

pub proof fn lemma_split(s: Seq<char>, i: int, a: Seq<char>, b: Seq<char>)
    requires
        at(s, i, a + b),
    ensures
        at(s, i, a),
        at(s, i + a.len(), b),
{
    assert forall|k: int| 0 <= k < a.len() implies s[i + k] == #[trigger] a[k] by {
        assert((a + b)[k] == a[k]);
    }
    assert forall|k: int| 0 <= k < b.len() implies s[i + a.len() + k] == #[trigger] b[k] by {
        assert((a + b)[a.len() + k] == b[k]);
    }
}

pub proof fn lemma_nl_ws(n: nat)
    ensures
        all_ws(nl(n)),
        nl(n).len() == n + 1,
        nl(n)[0] == '\n',
{
}

proof fn lemma_skip_run(s: Seq<char>, i: int, j: int)
    requires
        0 <= i <= j <= s.len(),
        forall|k: int| i <= k < j ==> is_ws(#[trigger] s[k]),
        j < s.len() ==> !is_ws(s[j]),
    ensures
        skip_ws(s, i) == j,
    decreases j - i,
{
    if i < j {
        lemma_skip_run(s, i + 1, j);
    }
}

/// Whitespace `w` in front of a text that starts with something else is skipped.
pub proof fn lemma_skip_to(s: Seq<char>, i: int, w: Seq<char>, rest: Seq<char>)
    requires
        at(s, i, w + rest),
        all_ws(w),
        rest.len() > 0,
        !is_ws(rest[0]),
    ensures
        skip_ws(s, i) == i + w.len(),
        at(s, i + w.len(), rest),
        s[i + w.len()] == rest[0],
{
    lemma_split(s, i, w, rest);
    assert forall|k: int| i <= k < i + w.len() implies is_ws(#[trigger] s[k]) by {
        assert(s[i + (k - i)] == w[k - i]);
    }
    assert(s[i + w.len() + 0] == rest[0]);
    lemma_skip_run(s, i, i + w.len());
}

pub proof fn lemma_token(s: Seq<char>, i: int, w: Seq<char>, t: Seq<char>)
    requires
        at(s, i, w + t),
        all_ws(w),
        t.len() > 0,
        !is_ws(t[0]),
    ensures
        token(s, i, t) == Some(i + w.len() + t.len()),
{
    lemma_skip_to(s, i, w, t);
    let a = i + w.len();
    assert(s.subrange(a, a + t.len()) =~= t);
}

pub proof fn lemma_token_not(s: Seq<char>, i: int, w: Seq<char>, rest: Seq<char>, t: Seq<char>)
    requires
        at(s, i, w + rest),
        all_ws(w),
        rest.len() > 0,
        !is_ws(rest[0]),
        t.len() > 0,
        t[0] != rest[0],
    ensures
        token(s, i, t) is None,
{
    lemma_skip_to(s, i, w, rest);
    let a = i + w.len();
    if a + t.len() <= s.len() {
        assert(s.subrange(a, a + t.len())[0] != t[0]);
    }
}

/// A token whose text differs from what stands there is not read.
pub proof fn lemma_token_differs(
    s: Seq<char>,
    i: int,
    w: Seq<char>,
    rest: Seq<char>,
    t: Seq<char>,
    k: int,
)
    requires
        at(s, i, w + rest),
        all_ws(w),
        0 <= k < rest.len(),
        !is_ws(rest[0]),
        k < t.len(),
        t[k] != rest[k],
    ensures
        token(s, i, t) is None,
{
    lemma_skip_to(s, i, w, rest);
    let a = i + w.len();
    assert(s[a + k] == rest[k]);
    if a + t.len() <= s.len() {
        assert(s.subrange(a, a + t.len())[k] != t[k]);
    }
}

proof fn lemma_hex(d: nat)
    requires
        d < 16,
    ensures
        hex_val(hex_char(d)) == Some(d as u32),
        d < 10 ==> is_digit(hex_char(d)) && digit_val(hex_char(d)) == d,
        !is_ws(hex_char(d)),
{
}

proof fn lemma_char_of(c: char)
    ensures
        char_of(c as u32) == c,
{
    let v = c as u32;
    assert((c as u32) == v);
    let c2 = char_of(v);
    assert((c2 as u32) == v);
    lemma_code_injective(c2, c);
}

proof fn lemma_unit(s: Seq<char>, i: int, c: char)
    requires
        at(s, i, esc_char(c)),
    ensures
        str_unit(s, i) == Some((c, i + esc_char(c).len())),
        s[i] != '"',
        esc_char(c).len() >= 1,
{
    let e = esc_char(c);
    assert(s[i + 0] == e[0]);
    if e.len() >= 2 {
        assert(s[i + 1] == e[1]);
    }
    if e.len() == 6 {
        assert(s[i + 2] == e[2]);
        assert(s[i + 3] == e[3]);
        assert(s[i + 4] == e[4]);
        assert(s[i + 5] == e[5]);
        let v = c as u32;
        lemma_hex((v / 16) as nat);
        lemma_hex((v % 16) as nat);
        lemma_hex(0);
        assert(hex4(s, i + 2) == Some(v));
        lemma_char_of(c);
    }
}

pub proof fn lemma_str_body(s: Seq<char>, i: int, x: Seq<char>)
    requires
        at(s, i, esc(x) + seq!['"']),
    ensures
        str_body(s, i) == Some((x, i + esc(x).len() + 1)),
    decreases x.len(),
{
    if x.len() == 0 {
        assert(s[i + 0] == (esc(x) + seq!['"'])[0]);
        assert(x =~= Seq::<char>::empty());
    } else {
        let c = x[0];
        let rest = x.drop_first();
        assert(esc(x) + seq!['"'] =~= esc_char(c) + (esc(rest) + seq!['"']));
        lemma_split(s, i, esc_char(c), esc(rest) + seq!['"']);
        lemma_unit(s, i, c);
        let j = i + esc_char(c).len();
        lemma_str_body(s, j, rest);
        assert(seq![c] + rest =~= x);
    }
}

pub proof fn lemma_quoted(s: Seq<char>, i: int, w: Seq<char>, x: Seq<char>)
    requires
        at(s, i, w + quoted(x)),
        all_ws(w),
    ensures
        quoted_at(s, i) == Some((x, i + w.len() + quoted(x).len())),
{
    lemma_skip_to(s, i, w, quoted(x));
    assert(quoted(x) =~= seq!['"'] + (esc(x) + seq!['"']));
    lemma_split(s, i + w.len(), seq!['"'], esc(x) + seq!['"']);
    lemma_str_body(s, i + w.len() + 1, x);
}

proof fn lemma_digits(n: nat)
    ensures
        digits(n).len() >= 1,
        forall|k: int| 0 <= k < digits(n).len() ==> is_digit(#[trigger] digits(n)[k]),
        digits_value(digits(n)) == n,
        digits(n).len() > 1 ==> digits(n)[0] != '0',
        n >= 10 ==> digits(n).len() >= 2,
    decreases n,
{
    lemma_hex(n % 10);
    if n < 10 {
        assert(digits(n).len() == 1);
        assert(digits(n).drop_last() =~= Seq::<char>::empty());
        assert(digits_value(Seq::<char>::empty()) == 0);
        assert(digits(n).last() == hex_char(n));
    } else {
        lemma_digits(n / 10);
        assert(digits(n).drop_last() =~= digits(n / 10));
        assert(digits(n).last() == hex_char(n % 10));
        assert(digits(n)[0] == digits(n / 10)[0]);
        if n / 10 < 10 {
            assert(digits(n / 10) == seq![hex_char(n / 10)]);
            lemma_hex(n / 10);
            assert(hex_char(n / 10) != '0');
        }
        assert(digits_value(digits(n)) == digits_value(digits(n / 10)) * 10 + digit_val(
            hex_char(n % 10),
        ));
        assert forall|k: int| 0 <= k < digits(n).len() implies is_digit(#[trigger] digits(n)[k]) by {
            if k < digits(n / 10).len() {
                assert(digits(n)[k] == digits(n / 10)[k]);
            }
        }
    }
}

proof fn lemma_digit_run(s: Seq<char>, i: int, j: int)
    requires
        0 <= i <= j <= s.len(),
        forall|k: int| i <= k < j ==> is_digit(#[trigger] s[k]),
        j < s.len() ==> !is_digit(s[j]),
    ensures
        digit_end(s, i) == j,
    decreases j - i,
{
    if i < j {
        lemma_digit_run(s, i + 1, j);
    }
}

pub proof fn lemma_number(s: Seq<char>, i: int, w: Seq<char>, n: u32)
    requires
        at(s, i, w + digits(n as nat)),
        all_ws(w),
        i + w.len() + digits(n as nat).len() < s.len(),
        !is_digit(s[i + w.len() + digits(n as nat).len()]),
    ensures
        number_at(s, i) == Some((n, i + w.len() + digits(n as nat).len())),
{
    let t = digits(n as nat);
    lemma_digits(n as nat);
    lemma_hex(0);
    assert(is_digit(t[0]));
    lemma_skip_to(s, i, w, t);
    let a = i + w.len();
    assert forall|k: int| a <= k < a + t.len() implies is_digit(#[trigger] s[k]) by {
        assert(s[a + (k - a)] == t[k - a]);
    }
    lemma_digit_run(s, a, a + t.len());
    assert(s.subrange(a, a + t.len()) =~= t);
}

pub proof fn lemma_bool(s: Seq<char>, i: int, w: Seq<char>, b: bool)
    requires
        at(s, i, w + bool_text(b)),
        all_ws(w),
    ensures
        bool_at(s, i) == Some((b, i + w.len() + bool_text(b).len())),
{
    if b {
        lemma_token(s, i, w, true_text());
    } else {
        lemma_token_not(s, i, w, false_text(), true_text());
        lemma_token(s, i, w, false_text());
    }
}

proof fn lemma_str_items(s: Seq<char>, i: int, items: Seq<Seq<char>>, d: nat)
    requires
        items.len() >= 1,
        at(s, i, str_items(items, d) + nl(d) + seq![']']),
    ensures
        str_items_at(s, i) == Some((items, i + str_items(items, d).len() + d + 2)),
    decreases items.len(),
{
    let x = items[0];
    let w = nl(d + 2);
    let q = quoted(x);
    lemma_nl_ws(d);
    lemma_nl_ws(d + 2);
    let b = i + w.len() + q.len();
    if items.len() == 1 {
        assert(str_items(items, d) + nl(d) + seq![']'] =~= (w + q) + (nl(d) + seq![']']));
        lemma_split(s, i, w + q, nl(d) + seq![']']);
        lemma_quoted(s, i, w, x);
        lemma_token_not(s, b, nl(d), seq![']'], seq![',']);
        lemma_token(s, b, nl(d), seq![']']);
        assert(seq![x] =~= items);
    } else {
        let rest = items.drop_first();
        let tail = str_items(rest, d) + nl(d) + seq![']'];
        assert(str_items(items, d) + nl(d) + seq![']'] =~= (w + q) + (seq![','] + tail));
        lemma_split(s, i, w + q, seq![','] + tail);
        lemma_quoted(s, i, w, x);
        lemma_split(s, b, seq![','], tail);
        assert(Seq::<char>::empty() + seq![','] =~= seq![',']);
        lemma_token(s, b, Seq::<char>::empty(), seq![',']);
        lemma_str_items(s, b + 1, rest, d);
        assert(seq![x] + rest =~= items);
    }
}

/// An array of strings written at indent `d` reads back as the same strings.
pub proof fn lemma_str_array(s: Seq<char>, i: int, w: Seq<char>, items: Seq<Seq<char>>, d: nat)
    requires
        at(s, i, w + str_array(items, d)),
        all_ws(w),
    ensures
        str_array_at(s, i) == Some((items, i + w.len() + str_array(items, d).len())),
{
    let a = i + w.len() + 1;
    let e = Seq::<char>::empty();
    assert(e + seq![']'] =~= seq![']']);
    if items.len() == 0 {
        assert(w + str_array(items, d) =~= (w + seq!['[']) + seq![']']);
        lemma_split(s, i, w + seq!['['], seq![']']);
        lemma_token(s, i, w, seq!['[']);
        assert(at(s, a, e + seq![']']));
        lemma_token(s, a, e, seq![']']);
        assert(items =~= Seq::<Seq<char>>::empty());
    } else {
        let body = str_items(items, d) + nl(d) + seq![']'];
        assert(w + str_array(items, d) =~= (w + seq!['[']) + body);
        lemma_split(s, i, w + seq!['['], body);
        assert(at(s, i, w + seq!['['] + e)) by {
            assert(w + seq!['['] + e =~= w + seq!['[']);
        }
        lemma_token(s, i, w, seq!['[']);
        lemma_nl_ws(d + 2);
        let x = items[0];
        let r = body.subrange((d + 3) as int, body.len() as int);
        if items.len() == 1 {
            assert(body =~= nl(d + 2) + (quoted(x) + nl(d) + seq![']']));
        } else {
            assert(body =~= nl(d + 2) + (quoted(x) + seq![','] + str_items(items.drop_first(), d)
                + nl(d) + seq![']']));
        }
        assert(body =~= nl(d + 2) + r);
        assert(r[0] == '"');
        lemma_token_not(s, a, nl(d + 2), r, seq![']']);
        lemma_str_items(s, a, items, d);
    }
}

fn digit_end_exec(s: &[char], i: usize) -> (r: usize)
    requires
        i <= s@.len(),
    ensures
        r as int == digit_end(s@, i as int),
        i <= r <= s@.len(),
{
    let mut p = i;
    while p < s.len() && 48 <= (s[p] as u32) && (s[p] as u32) <= 57
        invariant
            i <= p <= s@.len(),
            digit_end(s@, i as int) == digit_end(s@, p as int),
        decreases s@.len() - p,
    {
        p += 1;
    }
    p
}

fn number_end_exec(s: &[char], i: usize) -> (r: Option<usize>)
    requires
        i <= s@.len(),
    ensures
        match r {
            Some(e) => number_end(s@, i as int) == Some(e as int) && e <= s@.len(),
            None => number_end(s@, i as int) is None,
        },
{
    let a = skip_ws_exec(s, i);
    let b = if a < s.len() && s[a] == '-' {
        a + 1
    } else {
        a
    };
    let c = digit_end_exec(s, b);
    if c == b || (c - b > 1 && s[b] == '0') {
        return None;
    }
    let d = if c < s.len() && s[c] == '.' {
        let f = digit_end_exec(s, c + 1);
        if f == c + 1 {
            return None;
        }
        f
    } else {
        c
    };
    if d < s.len() && (s[d] == 'e' || s[d] == 'E') {
        let g = if d + 1 < s.len() && (s[d + 1] == '+' || s[d + 1] == '-') {
            d + 2
        } else {
            d + 1
        };
        let h = digit_end_exec(s, g);
        if h == g {
            None
        } else {
            Some(h)
        }
    } else {
        Some(d)
    }
}

/// After optional whitespace, any JSON value; the position after it.
pub fn value_end_exec(s: &[char], i: usize) -> (r: Option<usize>)
    requires
        i <= s@.len(),
    ensures
        match r {
            Some(e) => value_end(s@, i as int) == Some(e as int) && e <= s@.len(),
            None => value_end(s@, i as int) is None,
        },
    decreases s@.len() - i, 0int,
{
    let a = skip_ws_exec(s, i);
    if a >= s.len() {
        return None;
    }
    let c = s[a];
    if c == '"' {
        match str_body_exec(s, a + 1) {
            Some((_x, e)) => Some(e),
            None => None,
        }
    } else if c == '[' {
        match token_char_exec(s, a + 1, ']') {
            Some(e) => Some(e),
            None => elements_end_exec(s, a + 1),
        }
    } else if c == '{' {
        match token_char_exec(s, a + 1, '}') {
            Some(e) => Some(e),
            None => members_end_exec(s, a + 1),
        }
    } else if c == 't' {
        let t: [char; 4] = ['t', 'r', 'u', 'e'];
        assert(t@ == true_text());
        token_exec(s, a, &t)
    } else if c == 'f' {
        let t: [char; 5] = ['f', 'a', 'l', 's', 'e'];
        assert(t@ == false_text());
        token_exec(s, a, &t)
    } else if c == 'n' {
        let t: [char; 4] = ['n', 'u', 'l', 'l'];
        assert(t@ == null_text());
        token_exec(s, a, &t)
    } else {
        number_end_exec(s, a)
    }
}

fn elements_end_exec(s: &[char], i: usize) -> (r: Option<usize>)
    requires
        i <= s@.len(),
    ensures
        match r {
            Some(e) => elements_end(s@, i as int) == Some(e as int) && e <= s@.len(),
            None => elements_end(s@, i as int) is None,
        },
    decreases s@.len() - i, 1int,
{
    let mut p = i;
    loop
        invariant
            i <= p <= s@.len(),
            elements_end(s@, i as int) == elements_end(s@, p as int),
        decreases s@.len() - p,
    {
        let b = match value_end_exec(s, p) {
            Some(b) => b,
            None => {
                return None;
            },
        };
        match token_char_exec(s, b, ',') {
            Some(c) => {
                if !(p < c) {
                    return None;
                }
                p = c;
            },
            None => {
                return token_char_exec(s, b, ']');
            },
        }
    }
}

fn members_end_exec(s: &[char], i: usize) -> (r: Option<usize>)
    requires
        i <= s@.len(),
    ensures
        match r {
            Some(e) => members_end(s@, i as int) == Some(e as int) && e <= s@.len(),
            None => members_end(s@, i as int) is None,
        },
    decreases s@.len() - i, 1int,
{
    let mut p = i;
    loop
        invariant
            i <= p <= s@.len(),
            members_end(s@, i as int) == members_end(s@, p as int),
        decreases s@.len() - p,
    {
        let q = match quoted_exec(s, p) {
            Some((_k, q)) => q,
            None => {
                return None;
            },
        };
        let c = match token_char_exec(s, q, ':') {
            Some(c) => c,
            None => {
                return None;
            },
        };
        if !(p < c) {
            return None;
        }
        let b = match value_end_exec(s, c) {
            Some(b) => b,
            None => {
                return None;
            },
        };
        match token_char_exec(s, b, ',') {
            Some(d) => {
                if !(p < d) {
                    return None;
                }
                p = d;
            },
            None => {
                return token_char_exec(s, b, '}');
            },
        }
    }
}

} // verus!
