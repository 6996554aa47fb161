//! The stylesheet parser and serializer.
//!
//! The file format is a flat brace-delimited map, one entry per line in
//! serialized form, whitespace-tolerant when read back:
//!
//! ```text
//! {
//!     "accent": Color(10, 20, 30, 255),
//!     "scale": Float(1.5),
//!     "font_name": Text("Menlo"),
//! }
//! ```
//!
//! `sp_sheet` is the grammar, written as recursive spec functions; the
//! executable parser returns exactly what the grammar denotes, and the
//! serializer emits bytes the grammar accepts, so a serialized sheet
//! parses back to itself.

use vstd::prelude::*;

use crate::style::entries_view;
use crate::style::is_digit;
use crate::style::is_text_byte;
use crate::style::wf_entries;
use crate::style::wf_key;
use crate::style::FloatLit;
use crate::style::SpecFloat;
use crate::style::SpecValue;
use crate::style::StyleEntry;
use crate::style::StyleValue;
use crate::style::Stylesheet;
use crate::style::BACKSLASH;
use crate::style::QUOTE;

verus! {

pub const LBRACE: u8 = 123;

pub const RBRACE: u8 = 125;

pub const LPAREN: u8 = 40;

pub const RPAREN: u8 = 41;

pub const COMMA: u8 = 44;

pub const COLON: u8 = 58;

pub const SPACE: u8 = 32;

pub const NEWLINE: u8 = 10;

pub const MINUS: u8 = 45;

pub const DOT: u8 = 46;

/// The whitespace bytes the parser skips between tokens.
pub open spec fn is_ws(b: u8) -> bool {
    b == 32 || b == 10 || b == 13 || b == 9
}

/// The position of the first non-whitespace byte at or after `i`.
pub open spec fn skip_ws(s: Seq<u8>, i: int) -> int
    decreases s.len() - i,
{
    if 0 <= i < s.len() && is_ws(s[i]) {
        skip_ws(s, i + 1)
    } else {
        i
    }
}

/// The bytes of a string body up to its closing quote, from inside the
/// quotes, with the bytes read so far in `acc`.
pub open spec fn sp_str_body(s: Seq<u8>, j: int, acc: Seq<u8>) -> Option<(Seq<u8>, int)>
    decreases s.len() - j,
{
    if 0 <= j < s.len() {
        if s[j] == QUOTE {
            Some((acc, j + 1))
        } else if is_text_byte(s[j]) {
            sp_str_body(s, j + 1, acc.push(s[j]))
        } else {
            None
        }
    } else {
        None
    }
}

/// A quoted string at `i`: its bytes and the position after the closing
/// quote.
pub open spec fn sp_string(s: Seq<u8>, i: int) -> Option<(Seq<u8>, int)> {
    if 0 <= i < s.len() && s[i] == QUOTE {
        sp_str_body(s, i + 1, Seq::empty())
    } else {
        None
    }
}

/// The rest of a decimal byte: digits already worth `v`, more digits
/// ahead; fails once the value would pass 255.
pub open spec fn sp_u8_body(s: Seq<u8>, j: int, v: int) -> Option<(u8, int)>
    decreases s.len() - j,
{
    if 0 <= j < s.len() && is_digit(s[j]) {
        let v2 = v * 10 + (s[j] - 48);
        if v2 > 255 {
            None
        } else {
            sp_u8_body(s, j + 1, v2)
        }
    } else {
        Some((v as u8, j))
    }
}

/// A decimal byte at `i`: one or more digits, value at most 255.
pub open spec fn sp_u8(s: Seq<u8>, i: int) -> Option<(u8, int)> {
    if 0 <= i < s.len() && is_digit(s[i]) {
        sp_u8_body(s, i + 1, s[i] - 48)
    } else {
        None
    }
}

/// The maximal run of digits from `j`, appended to `acc`, and the
/// position after it.
pub open spec fn sp_digits(s: Seq<u8>, j: int, acc: Seq<u8>) -> (Seq<u8>, int)
    decreases s.len() - j,
{
    if 0 <= j < s.len() && is_digit(s[j]) {
        sp_digits(s, j + 1, acc.push(s[j]))
    } else {
        (acc, j)
    }
}

/// A decimal scalar literal at `i`: an optional minus, digits, a point,
/// digits.
pub open spec fn sp_float(s: Seq<u8>, i: int) -> Option<(SpecFloat, int)> {
    let neg = 0 <= i < s.len() && s[i] == MINUS;
    let j0 = if neg {
        i + 1
    } else {
        i
    };
    let ints = sp_digits(s, j0, Seq::empty());
    if ints.0.len() == 0 {
        None
    } else if ints.1 < s.len() && s[ints.1] == DOT {
        let fracs = sp_digits(s, ints.1 + 1, Seq::empty());
        if fracs.0.len() == 0 {
            None
        } else {
            Some((SpecFloat { neg, int_digits: ints.0, frac_digits: fracs.0 }, fracs.1))
        }
    } else {
        None
    }
}

/// Whether the bytes of `lit` stand verbatim at `i`.
pub open spec fn match_at(s: Seq<u8>, i: int, lit: Seq<u8>) -> bool {
    0 <= i && i + lit.len() <= s.len() && s.subrange(i, i + lit.len()) == lit
}

/// The keyword introducing a color value.
pub open spec fn lit_color() -> Seq<u8> {
    seq![67u8, 111u8, 108u8, 111u8, 114u8]
}

/// The keyword introducing a scalar value.
pub open spec fn lit_float() -> Seq<u8> {
    seq![70u8, 108u8, 111u8, 97u8, 116u8]
}

/// The keyword introducing a text value.
pub open spec fn lit_text() -> Seq<u8> {
    seq![84u8, 101u8, 120u8, 116u8]
}

/// One punctuation byte after optional whitespace; the position after it.
pub open spec fn sp_sym(s: Seq<u8>, i: int, c: u8) -> Option<int> {
    let j = skip_ws(s, i);
    if j < s.len() && s[j] == c {
        Some(j + 1)
    } else {
        None
    }
}

/// The argument list of a color value, after its keyword: four decimal
/// bytes between parentheses.
pub open spec fn sp_color_args(s: Seq<u8>, i: int) -> Option<(SpecValue, int)> {
    match sp_sym(s, i, LPAREN) {
        None => None,
        Some(j0) => match sp_u8(s, skip_ws(s, j0)) {
            None => None,
            Some((r, j1)) => match sp_sym(s, j1, COMMA) {
                None => None,
                Some(j2) => match sp_u8(s, skip_ws(s, j2)) {
                    None => None,
                    Some((g, j3)) => match sp_sym(s, j3, COMMA) {
                        None => None,
                        Some(j4) => match sp_u8(s, skip_ws(s, j4)) {
                            None => None,
                            Some((b, j5)) => match sp_sym(s, j5, COMMA) {
                                None => None,
                                Some(j6) => match sp_u8(s, skip_ws(s, j6)) {
                                    None => None,
                                    Some((a, j7)) => match sp_sym(s, j7, RPAREN) {
                                        None => None,
                                        Some(j8) => Some((SpecValue::Color(r, g, b, a), j8)),
                                    },
                                },
                            },
                        },
                    },
                },
            },
        },
    }
}

/// The argument of a scalar value, after its keyword.
pub open spec fn sp_float_args(s: Seq<u8>, i: int) -> Option<(SpecValue, int)> {
    match sp_sym(s, i, LPAREN) {
        None => None,
        Some(j0) => match sp_float(s, skip_ws(s, j0)) {
            None => None,
            Some((f, j1)) => match sp_sym(s, j1, RPAREN) {
                None => None,
                Some(j2) => Some((SpecValue::Float(f), j2)),
            },
        },
    }
}

/// The argument of a text value, after its keyword.
pub open spec fn sp_text_args(s: Seq<u8>, i: int) -> Option<(SpecValue, int)> {
    match sp_sym(s, i, LPAREN) {
        None => None,
        Some(j0) => match sp_string(s, skip_ws(s, j0)) {
            None => None,
            Some((t, j1)) => match sp_sym(s, j1, RPAREN) {
                None => None,
                Some(j2) => Some((SpecValue::Text(t), j2)),
            },
        },
    }
}

/// A tagged value at `i`: one of the three keywords with its arguments.
pub open spec fn sp_value(s: Seq<u8>, i: int) -> Option<(SpecValue, int)> {
    if match_at(s, i, lit_color()) {
        sp_color_args(s, i + 5)
    } else if match_at(s, i, lit_float()) {
        sp_float_args(s, i + 5)
    } else if match_at(s, i, lit_text()) {
        sp_text_args(s, i + 4)
    } else {
        None
    }
}

/// One entry: a quoted key, a colon, a value, a comma, whitespace allowed
/// between the tokens.
pub open spec fn sp_entry(s: Seq<u8>, i: int) -> Option<((Seq<u8>, SpecValue), int)> {
    let j = skip_ws(s, i);
    match sp_string(s, j) {
        None => None,
        Some((k, j1)) => match sp_sym(s, j1, COLON) {
            None => None,
            Some(j2) => match sp_value(s, skip_ws(s, j2)) {
                None => None,
                Some((v, j3)) => match sp_sym(s, j3, COMMA) {
                    None => None,
                    Some(j4) => Some(((k, v), j4)),
                },
            },
        },
    }
}

/// The entries up to and including the closing brace. `fuel` bounds the
/// recursion; one byte is consumed per entry at least, so the input
/// length plus one always suffices.
pub open spec fn sp_entries(s: Seq<u8>, i: int, fuel: nat) -> Option<
    (Seq<(Seq<u8>, SpecValue)>, int),
>
    decreases fuel,
{
    if fuel == 0 {
        None
    } else {
        let j = skip_ws(s, i);
        if j < s.len() && s[j] == RBRACE {
            Some((Seq::empty(), j + 1))
        } else {
            match sp_entry(s, i) {
                None => None,
                Some((e, j1)) => match sp_entries(s, j1, (fuel - 1) as nat) {
                    None => None,
                    Some((es, j2)) => Some((seq![e] + es, j2)),
                },
            }
        }
    }
}

/// Whether no two entries carry the same key.
pub open spec fn unique_keys(es: Seq<(Seq<u8>, SpecValue)>) -> bool {
    forall|p: int, q: int| 0 <= p < q < es.len() ==> es[p].0 != es[q].0
}

/// The whole input as a sheet, before the duplicate-key check: an opening
/// brace, the entries, the closing brace, trailing whitespace, and
/// nothing further.
pub open spec fn sp_sheet_raw(s: Seq<u8>) -> Option<Seq<(Seq<u8>, SpecValue)>> {
    match sp_sym(s, 0, LBRACE) {
        None => None,
        Some(j) => match sp_entries(s, j, (s.len() + 1) as nat) {
            None => None,
            Some((es, j2)) => if skip_ws(s, j2) == s.len() {
                Some(es)
            } else {
                None
            },
        },
    }
}

/// What the grammar accepts: a raw sheet whose keys are unique.
pub open spec fn sp_sheet(s: Seq<u8>) -> Option<Seq<(Seq<u8>, SpecValue)>> {
    match sp_sheet_raw(s) {
        None => None,
        Some(es) => if unique_keys(es) {
            Some(es)
        } else {
            None
        },
    }
}

/// Why a parse failed: the offending position, or a duplicated key.
#[derive(Clone, Copy, PartialEq, Eq, Structural, Debug)]
pub enum ParseError {
    /// The input ended inside a token or before the sheet was closed.
    UnexpectedEnd,
    /// The byte at this position fits no token of the grammar.
    UnexpectedByte { at: usize },
    /// A decimal byte whose value passes 255, at this position.
    ByteRange { at: usize },
    /// Two entries carry the same key; the position is the entry's index.
    DuplicateKey { entry: usize },
}

/// The first non-whitespace position at or after `i`.
fn skip_whitespace(s: &Vec<u8>, i: usize) -> (j: usize)
    requires
        i <= s@.len(),
    ensures
        j == skip_ws(s@, i as int),
        i <= j <= s@.len(),
{
    let mut j = i;
    loop
        invariant
            i <= j <= s@.len(),
            skip_ws(s@, i as int) == skip_ws(s@, j as int),
        decreases s@.len() - j,
    {
        if j == s.len() {
            return j;
        }
        let b = s[j];
        if !(b == 32 || b == 10 || b == 13 || b == 9) {
            return j;
        }
        j += 1;
    }
}

/// A quoted string starting at `i`; also says its bytes can stand
/// verbatim between quotes.
fn parse_string(s: &Vec<u8>, i: usize) -> (r: Result<(Vec<u8>, usize), ParseError>)
    requires
        i <= s@.len(),
    ensures
        (r is Ok) == (sp_string(s@, i as int) is Some),
        r matches Ok(p) ==> sp_string(s@, i as int) == Some((p.0@, p.1 as int)) && i < p.1
            <= s@.len() && wf_key(p.0@),
{
    if i == s.len() {
        return Err(ParseError::UnexpectedEnd);
    }
    if s[i] != QUOTE {
        return Err(ParseError::UnexpectedByte { at: i });
    }
    let mut acc: Vec<u8> = Vec::new();
    let mut j = i + 1;
    proof {
        assert(acc@ =~= Seq::<u8>::empty());
    }
    loop
        invariant
            i + 1 <= j <= s@.len(),
            sp_string(s@, i as int) == sp_str_body(s@, j as int, acc@),
            wf_key(acc@),
        decreases s@.len() - j,
    {
        if j == s.len() {
            return Err(ParseError::UnexpectedEnd);
        }
        let b = s[j];
        if b == QUOTE {
            return Ok((acc, j + 1));
        }
        if b >= 32 && b != BACKSLASH {
            acc.push(b);
            j += 1;
        } else {
            return Err(ParseError::UnexpectedByte { at: j });
        }
    }
}

/// A decimal byte starting at `i`.
fn parse_u8(s: &Vec<u8>, i: usize) -> (r: Result<(u8, usize), ParseError>)
    requires
        i <= s@.len(),
    ensures
        (r is Ok) == (sp_u8(s@, i as int) is Some),
        r matches Ok(p) ==> sp_u8(s@, i as int) == Some((p.0, p.1 as int)) && i < p.1 <= s@.len(),
{
    if i == s.len() || s[i] < 48 || s[i] > 57 {
        return Err(ParseError::UnexpectedByte { at: i });
    }
    let mut v: u32 = (s[i] - 48) as u32;
    let mut j = i + 1;
    loop
        invariant
            i + 1 <= j <= s@.len(),
            v <= 255,
            sp_u8(s@, i as int) == sp_u8_body(s@, j as int, v as int),
        decreases s@.len() - j,
    {
        if j == s.len() || s[j] < 48 || s[j] > 57 {
            return Ok((v as u8, j));
        }
        let v2: u32 = v * 10 + (s[j] - 48) as u32;
        if v2 > 255 {
            return Err(ParseError::ByteRange { at: j });
        }
        v = v2;
        j += 1;
    }
}

/// The maximal digit run from `i`; all returned bytes are digits.
fn parse_digits(s: &Vec<u8>, i: usize) -> (r: (Vec<u8>, usize))
    requires
        i <= s@.len(),
    ensures
        (r.0@, r.1 as int) == sp_digits(s@, i as int, Seq::empty()),
        i <= r.1 <= s@.len(),
        forall|k: int| 0 <= k < r.0@.len() ==> is_digit(#[trigger] r.0@[k]),
{
    let mut acc: Vec<u8> = Vec::new();
    let mut j = i;
    proof {
        assert(acc@ =~= Seq::<u8>::empty());
    }
    loop
        invariant
            i <= j <= s@.len(),
            sp_digits(s@, i as int, Seq::empty()) == sp_digits(s@, j as int, acc@),
            forall|k: int| 0 <= k < acc@.len() ==> is_digit(#[trigger] acc@[k]),
        decreases s@.len() - j,
    {
        if j == s.len() || s[j] < 48 || s[j] > 57 {
            return (acc, j);
        }
        acc.push(s[j]);
        j += 1;
    }
}

/// A scalar literal starting at `i`; the result is well-formed.
fn parse_float(s: &Vec<u8>, i: usize) -> (r: Result<(FloatLit, usize), ParseError>)
    requires
        i <= s@.len(),
    ensures
        (r is Ok) == (sp_float(s@, i as int) is Some),
        r matches Ok(p) ==> sp_float(s@, i as int) == Some((p.0@, p.1 as int)) && i < p.1
            <= s@.len() && p.0@.wf(),
{
    let neg = i < s.len() && s[i] == MINUS;
    let j0 = if neg {
        i + 1
    } else {
        i
    };
    let (ints, j1) = parse_digits(s, j0);
    if ints.len() == 0 {
        return Err(ParseError::UnexpectedByte { at: j1 });
    }
    if j1 == s.len() || s[j1] != DOT {
        return Err(ParseError::UnexpectedByte { at: j1 });
    }
    let (fracs, j2) = parse_digits(s, j1 + 1);
    if fracs.len() == 0 {
        return Err(ParseError::UnexpectedByte { at: j2 });
    }
    Ok((FloatLit { neg, int_digits: ints, frac_digits: fracs }, j2))
}

/// One punctuation byte after optional whitespace.
fn parse_sym(s: &Vec<u8>, i: usize, c: u8) -> (r: Result<usize, ParseError>)
    requires
        i <= s@.len(),
    ensures
        (r is Ok) == (sp_sym(s@, i as int, c) is Some),
        r matches Ok(j) ==> sp_sym(s@, i as int, c) == Some(j as int) && i < j <= s@.len(),
{
    let j = skip_whitespace(s, i);
    if j < s.len() && s[j] == c {
        Ok(j + 1)
    } else if j == s.len() {
        Err(ParseError::UnexpectedEnd)
    } else {
        Err(ParseError::UnexpectedByte { at: j })
    }
}

/// Whether the color keyword stands at `i`.
fn kw_color(s: &Vec<u8>, i: usize) -> (r: bool)
    requires
        i <= s@.len(),
    ensures
        r == match_at(s@, i as int, lit_color()),
        r ==> i + 5 <= s@.len() && s@.len() <= usize::MAX,
{
    if s.len() - i < 5 {
        return false;
    }
    let r = s[i] == 67 && s[i + 1] == 111 && s[i + 2] == 108 && s[i + 3] == 111 && s[i + 4] == 114;
    proof {
        let sub = s@.subrange(i as int, i + 5);
        if r {
            assert(sub =~= lit_color());
        } else if match_at(s@, i as int, lit_color()) {
            assert(s@[i as int] == sub[0]);
            assert(s@[i + 1] == sub[1]);
            assert(s@[i + 2] == sub[2]);
            assert(s@[i + 3] == sub[3]);
            assert(s@[i + 4] == sub[4]);
        }
    }
    r
}

/// Whether the scalar keyword stands at `i`.
fn kw_float(s: &Vec<u8>, i: usize) -> (r: bool)
    requires
        i <= s@.len(),
    ensures
        r == match_at(s@, i as int, lit_float()),
        r ==> i + 5 <= s@.len() && s@.len() <= usize::MAX,
{
    if s.len() - i < 5 {
        return false;
    }
    let r = s[i] == 70 && s[i + 1] == 108 && s[i + 2] == 111 && s[i + 3] == 97 && s[i + 4] == 116;
    proof {
        let sub = s@.subrange(i as int, i + 5);
        if r {
            assert(sub =~= lit_float());
        } else if match_at(s@, i as int, lit_float()) {
            assert(s@[i as int] == sub[0]);
            assert(s@[i + 1] == sub[1]);
            assert(s@[i + 2] == sub[2]);
            assert(s@[i + 3] == sub[3]);
            assert(s@[i + 4] == sub[4]);
        }
    }
    r
}

/// Whether the text keyword stands at `i`.
fn kw_text(s: &Vec<u8>, i: usize) -> (r: bool)
    requires
        i <= s@.len(),
    ensures
        r == match_at(s@, i as int, lit_text()),
        r ==> i + 4 <= s@.len() && s@.len() <= usize::MAX,
{
    if s.len() - i < 4 {
        return false;
    }
    let r = s[i] == 84 && s[i + 1] == 101 && s[i + 2] == 120 && s[i + 3] == 116;
    proof {
        let sub = s@.subrange(i as int, i + 4);
        if r {
            assert(sub =~= lit_text());
        } else if match_at(s@, i as int, lit_text()) {
            assert(s@[i as int] == sub[0]);
            assert(s@[i + 1] == sub[1]);
            assert(s@[i + 2] == sub[2]);
            assert(s@[i + 3] == sub[3]);
        }
    }
    r
}

/// A tagged value starting at `i`; the result is well-formed.
fn parse_value(s: &Vec<u8>, i: usize) -> (r: Result<(StyleValue, usize), ParseError>)
    requires
        i <= s@.len(),
    ensures
        (r is Ok) == (sp_value(s@, i as int) is Some),
        r matches Ok(p) ==> sp_value(s@, i as int) == Some((p.0@, p.1 as int)) && i < p.1
            <= s@.len() && p.0@.wf(),
{
    if kw_color(s, i) {
        proof {
            assert(lit_color().len() == 5);
            assert(i + 5 <= s@.len());
        }
        let j0 = match parse_sym(s, i + 5, LPAREN) {
            Ok(j) => j,
            Err(e) => {
                return Err(e);
            },
        };
        let (red, j1) = match parse_u8(s, skip_whitespace(s, j0)) {
            Ok(p) => p,
            Err(e) => {
                return Err(e);
            },
        };
        let j2 = match parse_sym(s, j1, COMMA) {
            Ok(j) => j,
            Err(e) => {
                return Err(e);
            },
        };
        let (green, j3) = match parse_u8(s, skip_whitespace(s, j2)) {
            Ok(p) => p,
            Err(e) => {
                return Err(e);
            },
        };
        let j4 = match parse_sym(s, j3, COMMA) {
            Ok(j) => j,
            Err(e) => {
                return Err(e);
            },
        };
        let (blue, j5) = match parse_u8(s, skip_whitespace(s, j4)) {
            Ok(p) => p,
            Err(e) => {
                return Err(e);
            },
        };
        let j6 = match parse_sym(s, j5, COMMA) {
            Ok(j) => j,
            Err(e) => {
                return Err(e);
            },
        };
        let (alpha, j7) = match parse_u8(s, skip_whitespace(s, j6)) {
            Ok(p) => p,
            Err(e) => {
                return Err(e);
            },
        };
        let j8 = match parse_sym(s, j7, RPAREN) {
            Ok(j) => j,
            Err(e) => {
                return Err(e);
            },
        };
        Ok((StyleValue::Color(red, green, blue, alpha), j8))
    } else if kw_float(s, i) {
        proof {
            assert(lit_float().len() == 5);
            assert(i + 5 <= s@.len());
        }
        let j0 = match parse_sym(s, i + 5, LPAREN) {
            Ok(j) => j,
            Err(e) => {
                return Err(e);
            },
        };
        let (f, j1) = match parse_float(s, skip_whitespace(s, j0)) {
            Ok(p) => p,
            Err(e) => {
                return Err(e);
            },
        };
        let j2 = match parse_sym(s, j1, RPAREN) {
            Ok(j) => j,
            Err(e) => {
                return Err(e);
            },
        };
        Ok((StyleValue::Float(f), j2))
    } else if kw_text(s, i) {
        proof {
            assert(lit_text().len() == 4);
            assert(i + 4 <= s@.len());
        }
        let j0 = match parse_sym(s, i + 4, LPAREN) {
            Ok(j) => j,
            Err(e) => {
                return Err(e);
            },
        };
        let (t, j1) = match parse_string(s, skip_whitespace(s, j0)) {
            Ok(p) => p,
            Err(e) => {
                return Err(e);
            },
        };
        let j2 = match parse_sym(s, j1, RPAREN) {
            Ok(j) => j,
            Err(e) => {
                return Err(e);
            },
        };
        Ok((StyleValue::Text(t), j2))
    } else {
        Err(ParseError::UnexpectedByte { at: i })
    }
}

/// One entry starting at `i`; key and value are well-formed and the
/// parser moved forward.
fn parse_entry(s: &Vec<u8>, i: usize) -> (r: Result<(StyleEntry, usize), ParseError>)
    requires
        i <= s@.len(),
    ensures
        (r is Ok) == (sp_entry(s@, i as int) is Some),
        r matches Ok(p) ==> sp_entry(s@, i as int) == Some((p.0@, p.1 as int)) && i < p.1
            <= s@.len() && wf_key(p.0@.0) && p.0@.1.wf(),
{
    let j = skip_whitespace(s, i);
    let (key, j1) = match parse_string(s, j) {
        Ok(p) => p,
        Err(e) => {
            return Err(e);
        },
    };
    let j2 = match parse_sym(s, j1, COLON) {
        Ok(j) => j,
        Err(e) => {
            return Err(e);
        },
    };
    let (value, j3) = match parse_value(s, skip_whitespace(s, j2)) {
        Ok(p) => p,
        Err(e) => {
            return Err(e);
        },
    };
    let j4 = match parse_sym(s, j3, COMMA) {
        Ok(j) => j,
        Err(e) => {
            return Err(e);
        },
    };
    Ok((StyleEntry { key, value }, j4))
}

/// The entries up to and including the closing brace, recursively, with
/// `fuel` bounding the depth as in the grammar.
fn parse_entries(s: &Vec<u8>, i: usize, fuel: usize) -> (r: Result<
    (Vec<StyleEntry>, usize),
    ParseError,
>)
    requires
        i <= s@.len(),
    ensures
        (r is Ok) == (sp_entries(s@, i as int, fuel as nat) is Some),
        r matches Ok(p) ==> sp_entries(s@, i as int, fuel as nat) == Some(
            (entries_view(p.0@), p.1 as int),
        ) && p.1 <= s@.len() && forall|k: int|
            0 <= k < p.0@.len() ==> wf_key((#[trigger] entries_view(p.0@)[k]).0) && entries_view(
                p.0@,
            )[k].1.wf(),
    decreases fuel,
{
    if fuel == 0 {
        return Err(ParseError::UnexpectedEnd);
    }
    let j = skip_whitespace(s, i);
    if j < s.len() && s[j] == RBRACE {
        let empty: Vec<StyleEntry> = Vec::new();
        proof {
            assert(entries_view(empty@) =~= Seq::<(Seq<u8>, SpecValue)>::empty());
        }
        return Ok((empty, j + 1));
    }
    let (entry, j1) = match parse_entry(s, i) {
        Ok(p) => p,
        Err(e) => {
            return Err(e);
        },
    };
    let (mut rest, j2) = match parse_entries(s, j1, fuel - 1) {
        Ok(p) => p,
        Err(e) => {
            return Err(e);
        },
    };
    let ghost rest_view = entries_view(rest@);
    let ghost entry_view = entry@;
    rest.insert(0, entry);
    proof {
        assert(entries_view(rest@) =~= seq![entry_view] + rest_view);
    }
    Ok((rest, j2))
}

/// Whether the keys of the parsed entries are pairwise distinct; when two
/// collide, the index of the later entry.
fn find_duplicate(es: &Vec<StyleEntry>) -> (r: Option<usize>)
    ensures
        match r {
            None => unique_keys(entries_view(es@)),
            Some(_) => !unique_keys(entries_view(es@)),
        },
{
    let n = es.len();
    let mut i: usize = 0;
    while i < n
        invariant
            n == es@.len(),
            0 <= i <= n,
            forall|p: int, q: int| 0 <= p < q < n && p < i ==> entries_view(es@)[p].0
                != entries_view(es@)[q].0,
        decreases n - i,
    {
        let mut j = i + 1;
        while j < n
            invariant
                n == es@.len(),
                0 <= i < j <= n,
                forall|q: int| i < q < j ==> entries_view(es@)[i as int].0 != entries_view(
                    es@,
                )[q].0,
            decreases n - j,
        {
            if crate::style::bytes_eq(&es[i].key, &es[j].key) {
                assert(entries_view(es@)[i as int].0 == entries_view(es@)[j as int].0);
                return Some(j);
            }
            j += 1;
        }
        i += 1;
    }
    None
}

/// Read a stylesheet from bytes. Succeeds exactly on the inputs the
/// grammar accepts, and returns exactly the entries the grammar denotes;
/// a duplicated key is reported as such.
pub fn parse(bytes: &Vec<u8>) -> (r: Result<Stylesheet, ParseError>)
    requires
        bytes@.len() < usize::MAX,
    ensures
        (r is Ok) == (sp_sheet(bytes@) is Some),
        r matches Ok(sheet) ==> sp_sheet(bytes@) == Some(sheet@) && sheet.wf(),
        sp_sheet_raw(bytes@) is Some && !unique_keys(sp_sheet_raw(bytes@).unwrap()) ==> (r
            matches Err(e) && e is DuplicateKey),
{
    let j = match parse_sym(bytes, 0, LBRACE) {
        Ok(j) => j,
        Err(e) => {
            return Err(e);
        },
    };
    let (es, j2) = match parse_entries(bytes, j, bytes.len() + 1) {
        Ok(p) => p,
        Err(e) => {
            return Err(e);
        },
    };
    let j3 = skip_whitespace(bytes, j2);
    if j3 != bytes.len() {
        return Err(ParseError::UnexpectedByte { at: j3 });
    }
    match find_duplicate(&es) {
        Some(at) => Err(ParseError::DuplicateKey { entry: at }),
        None => Ok(Stylesheet::from_entries(es)),
    }
}

/// The decimal digits of a byte value, no leading zeros.
pub open spec fn ser_u8(n: u8) -> Seq<u8> {
    if n < 10 {
        seq![(48 + n) as u8]
    } else if n < 100 {
        seq![(48 + n / 10) as u8, (48 + n % 10) as u8]
    } else {
        seq![(48 + n / 100) as u8, (48 + (n / 10) % 10) as u8, (48 + n % 10) as u8]
    }
}

/// A scalar literal, exactly as held: minus sign, digits, point, digits.
pub open spec fn ser_float(f: SpecFloat) -> Seq<u8> {
    (if f.neg {
        seq![MINUS]
    } else {
        Seq::<u8>::empty()
    }) + f.int_digits + seq![DOT] + f.frac_digits
}

/// A tagged value: its keyword and its parenthesized arguments.
pub open spec fn ser_value(v: SpecValue) -> Seq<u8> {
    match v {
        SpecValue::Color(r, g, b, a) => lit_color() + seq![LPAREN] + ser_u8(r) + seq![
            COMMA,
            SPACE,
        ] + ser_u8(g) + seq![COMMA, SPACE] + ser_u8(b) + seq![COMMA, SPACE] + ser_u8(a) + seq![
            RPAREN,
        ],
        SpecValue::Float(f) => lit_float() + seq![LPAREN] + ser_float(f) + seq![RPAREN],
        SpecValue::Text(t) => lit_text() + seq![LPAREN, QUOTE] + t + seq![QUOTE, RPAREN],
    }
}

/// One entry on its own indented line, ending with a comma.
pub open spec fn ser_entry(e: (Seq<u8>, SpecValue)) -> Seq<u8> {
    seq![NEWLINE, SPACE, SPACE, SPACE, SPACE, QUOTE] + e.0 + seq![QUOTE, COLON, SPACE]
        + ser_value(e.1) + seq![COMMA]
}

/// All entries, first to last.
pub open spec fn ser_entries(es: Seq<(Seq<u8>, SpecValue)>) -> Seq<u8>
    decreases es.len(),
{
    if es.len() == 0 {
        Seq::empty()
    } else {
        ser_entry(es[0]) + ser_entries(es.drop_first())
    }
}

/// The whole sheet: brace, entries, closing brace on its own line.
pub open spec fn ser_sheet(es: Seq<(Seq<u8>, SpecValue)>) -> Seq<u8> {
    seq![LBRACE] + ser_entries(es) + seq![NEWLINE, RBRACE]
}

/// Serializing entries one more entry at a time.
pub proof fn lemma_ser_entries_snoc(es: Seq<(Seq<u8>, SpecValue)>, e: (Seq<u8>, SpecValue))
    ensures
        ser_entries(es.push(e)) == ser_entries(es) + ser_entry(e),
    decreases es.len(),
{
    reveal_with_fuel(ser_entries, 3);
    if es.len() == 0 {
        assert(es.push(e).drop_first() =~= Seq::<(Seq<u8>, SpecValue)>::empty());
        assert(ser_entries(es.push(e)) =~= ser_entries(es) + ser_entry(e));
    } else {
        assert(es.push(e).drop_first() =~= es.drop_first().push(e));
        lemma_ser_entries_snoc(es.drop_first(), e);
        assert(es.push(e)[0] == es[0]);
        assert(ser_entries(es.push(e)) =~= ser_entries(es) + ser_entry(e));
    }
}

/// Append the bytes of a vector.
fn push_all(out: &mut Vec<u8>, v: &Vec<u8>)
    ensures
        final(out)@ == old(out)@ + v@,
{
    let ghost base = out@;
    let n = v.len();
    let mut i: usize = 0;
    while i < n
        invariant
            n == v@.len(),
            0 <= i <= n,
            out@ == base + v@.take(i as int),
        decreases n - i,
    {
        out.push(v[i]);
        proof {
            assert(base + v@.take(i + 1) =~= (base + v@.take(i as int)).push(v@[i as int]));
        }
        i += 1;
    }
    proof {
        assert(base + v@.take(n as int) =~= base + v@);
    }
}

/// Append the decimal digits of a byte value.
fn push_u8_digits(out: &mut Vec<u8>, n: u8)
    ensures
        final(out)@ == old(out)@ + ser_u8(n),
{
    let ghost base = out@;
    if n < 10 {
        out.push(48 + n);
        proof {
            assert(out@ =~= base + ser_u8(n));
        }
    } else if n < 100 {
        out.push(48 + n / 10);
        out.push(48 + n % 10);
        proof {
            assert(out@ =~= base + ser_u8(n));
        }
    } else {
        out.push(48 + n / 100);
        out.push(48 + (n / 10) % 10);
        out.push(48 + n % 10);
        proof {
            assert(out@ =~= base + ser_u8(n));
        }
    }
}

/// Append a serialized tagged value.
fn push_value(out: &mut Vec<u8>, v: &StyleValue)
    ensures
        final(out)@ == old(out)@ + ser_value(v@),
{
    let ghost base = out@;
    match v {
        StyleValue::Color(r, g, b, a) => {
            out.push(67);
            out.push(111);
            out.push(108);
            out.push(111);
            out.push(114);
            out.push(LPAREN);
            push_u8_digits(out, *r);
            out.push(COMMA);
            out.push(SPACE);
            push_u8_digits(out, *g);
            out.push(COMMA);
            out.push(SPACE);
            push_u8_digits(out, *b);
            out.push(COMMA);
            out.push(SPACE);
            push_u8_digits(out, *a);
            out.push(RPAREN);
            proof {
                assert(out@ =~= base + ser_value(v@));
            }
        },
        StyleValue::Float(f) => {
            out.push(70);
            out.push(108);
            out.push(111);
            out.push(97);
            out.push(116);
            out.push(LPAREN);
            if f.neg {
                out.push(MINUS);
            }
            push_all(out, &f.int_digits);
            out.push(DOT);
            push_all(out, &f.frac_digits);
            out.push(RPAREN);
            proof {
                assert(out@ =~= base + ser_value(v@));
            }
        },
        StyleValue::Text(t) => {
            out.push(84);
            out.push(101);
            out.push(120);
            out.push(116);
            out.push(LPAREN);
            out.push(QUOTE);
            push_all(out, t);
            out.push(QUOTE);
            out.push(RPAREN);
            proof {
                assert(out@ =~= base + ser_value(v@));
            }
        },
    }
}

/// Append one serialized entry line.
fn push_entry(out: &mut Vec<u8>, e: &StyleEntry)
    ensures
        final(out)@ == old(out)@ + ser_entry(e@),
{
    let ghost base = out@;
    out.push(NEWLINE);
    out.push(SPACE);
    out.push(SPACE);
    out.push(SPACE);
    out.push(SPACE);
    out.push(QUOTE);
    push_all(out, &e.key);
    out.push(QUOTE);
    out.push(COLON);
    out.push(SPACE);
    push_value(out, &e.value);
    out.push(COMMA);
    proof {
        assert(out@ =~= base + ser_entry(e@));
    }
}

/// Write a stylesheet out, pretty-printed, one entry per line, in the
/// sheet's own order. The result is exactly the grammar's serialized
/// form of the sheet's entries.
pub fn serialize(sheet: &Stylesheet) -> (out: Vec<u8>)
    ensures
        out@ == ser_sheet(sheet@),
{
    let mut out: Vec<u8> = Vec::new();
    out.push(LBRACE);
    proof {
        assert(out@ =~= seq![LBRACE] + ser_entries(sheet@.take(0)));
    }
    let n = sheet.len();
    let mut i: usize = 0;
    while i < n
        invariant
            n == sheet@.len(),
            0 <= i <= n,
            out@ == seq![LBRACE] + ser_entries(sheet@.take(i as int)),
        decreases n - i,
    {
        push_entry(&mut out, sheet.entry_at(i));
        proof {
            assert(sheet@.take(i + 1) =~= sheet@.take(i as int).push(sheet@[i as int]));
            lemma_ser_entries_snoc(sheet@.take(i as int), sheet@[i as int]);
            assert(out@ =~= seq![LBRACE] + ser_entries(sheet@.take(i + 1)));
        }
        i += 1;
    }
    out.push(NEWLINE);
    out.push(RBRACE);
    proof {
        assert(sheet@.take(n as int) =~= sheet@);
        assert(out@ =~= ser_sheet(sheet@));
    }
    out
}

/// A byte inside a matched segment.
proof fn lemma_match_at_byte(s: Seq<u8>, i: int, w: Seq<u8>, p: int)
    requires
        match_at(s, i, w),
        0 <= p < w.len(),
    ensures
        s[i + p] == w[p],
{
    assert(s.subrange(i, i + w.len())[p] == w[p]);
}

/// A sub-segment of a matched segment is matched at its offset.
proof fn lemma_match_at_sub(s: Seq<u8>, i: int, w: Seq<u8>, p: int, q: int, x: Seq<u8>)
    requires
        match_at(s, i, w),
        0 <= p <= q <= w.len(),
        w.subrange(p, q) == x,
    ensures
        match_at(s, i + p, x),
{
    assert forall|m: int| 0 <= m < q - p implies s.subrange(i + p, i + q)[m] == x[m] by {
        assert(s.subrange(i, i + w.len())[p + m] == w[p + m]);
    }
    assert(s.subrange(i + p, i + q) =~= x);
}

/// Whitespace skipping runs over exactly a known whitespace segment.
proof fn lemma_skip_ws_exact(s: Seq<u8>, i: int, j: int)
    requires
        0 <= i <= j <= s.len(),
        forall|q: int| i <= q < j ==> is_ws(#[trigger] s[q]),
        j == s.len() || !is_ws(s[j]),
    ensures
        skip_ws(s, i) == j,
    decreases j - i,
{
    if i < j {
        lemma_skip_ws_exact(s, i + 1, j);
    }
}

/// The string-body parser reads back exactly a written key or text.
proof fn lemma_sp_str_body_exact(s: Seq<u8>, j: int, k: Seq<u8>, acc: Seq<u8>)
    requires
        wf_key(k),
        match_at(s, j, k),
        j + k.len() < s.len(),
        s[j + k.len()] == QUOTE,
    ensures
        sp_str_body(s, j, acc) == Some((acc + k, j + k.len() + 1)),
    decreases k.len(),
{
    if k.len() == 0 {
        assert(acc + k =~= acc);
    } else {
        lemma_match_at_byte(s, j, k, 0);
        assert(is_text_byte(k[0]));
        let k2 = k.drop_first();
        lemma_match_at_sub(s, j, k, 1, k.len() as int, k2);
        assert(s[j + 1 + k2.len()] == QUOTE);
        lemma_sp_str_body_exact(s, j + 1, k2, acc.push(k[0]));
        assert(acc.push(k[0]) + k2 =~= acc + k);
    }
}

/// The string parser reads back exactly a written quoted string.
proof fn lemma_sp_string_exact(s: Seq<u8>, i: int, k: Seq<u8>)
    requires
        wf_key(k),
        0 <= i,
        i + k.len() + 2 <= s.len(),
        s[i] == QUOTE,
        match_at(s, i + 1, k),
        s[i + 1 + k.len()] == QUOTE,
    ensures
        sp_string(s, i) == Some((k, i + k.len() + 2)),
{
    lemma_sp_str_body_exact(s, i + 1, k, Seq::empty());
    assert(Seq::<u8>::empty() + k =~= k);
}

/// The decimal-byte parser reads back exactly a written byte value.
proof fn lemma_sp_u8_exact(s: Seq<u8>, i: int, n: u8)
    requires
        match_at(s, i, ser_u8(n)),
        i + ser_u8(n).len() == s.len() || !is_digit(s[i + ser_u8(n).len()]),
    ensures
        sp_u8(s, i) == Some((n, i + ser_u8(n).len())),
{
    let w = ser_u8(n);
    if n < 10 {
        lemma_match_at_byte(s, i, w, 0);
        assert(sp_u8(s, i) == sp_u8_body(s, i + 1, n as int));
    } else if n < 100 {
        assert((n / 10) * 10 + n % 10 == n && n / 10 <= 9 && n % 10 <= 9) by (bit_vector)
            requires
                10 <= n < 100,
        ;
        lemma_match_at_byte(s, i, w, 0);
        lemma_match_at_byte(s, i, w, 1);
        assert(sp_u8(s, i) == sp_u8_body(s, i + 1, (n / 10) as int));
        assert(sp_u8_body(s, i + 1, (n / 10) as int) == sp_u8_body(s, i + 2, n as int));
    } else {
        assert((n / 100) * 100 + ((n / 10) % 10) * 10 + n % 10 == n && n / 100 <= 2 && (n / 10)
            % 10 <= 9 && n % 10 <= 9) by (bit_vector)
            requires
                100 <= n,
        ;
        lemma_match_at_byte(s, i, w, 0);
        lemma_match_at_byte(s, i, w, 1);
        lemma_match_at_byte(s, i, w, 2);
        let v1 = (n / 100) as int * 10 + ((n / 10) % 10) as int;
        assert(sp_u8(s, i) == sp_u8_body(s, i + 1, (n / 100) as int));
        assert(sp_u8_body(s, i + 1, (n / 100) as int) == sp_u8_body(s, i + 2, v1));
        assert(v1 * 10 + (n % 10) as int == n as int);
        assert(sp_u8_body(s, i + 2, v1) == sp_u8_body(s, i + 3, n as int));
    }
}

/// The digit-run parser reads back exactly a written digit run.
proof fn lemma_sp_digits_exact(s: Seq<u8>, i: int, d: Seq<u8>, acc: Seq<u8>)
    requires
        forall|q: int| 0 <= q < d.len() ==> is_digit(#[trigger] d[q]),
        match_at(s, i, d),
        i + d.len() == s.len() || !is_digit(s[i + d.len()]),
    ensures
        sp_digits(s, i, acc) == (acc + d, i + d.len()),
    decreases d.len(),
{
    if d.len() == 0 {
        assert(acc + d =~= acc);
    } else {
        lemma_match_at_byte(s, i, d, 0);
        let d2 = d.drop_first();
        lemma_match_at_sub(s, i, d, 1, d.len() as int, d2);
        lemma_sp_digits_exact(s, i + 1, d2, acc.push(d[0]));
        assert(acc.push(d[0]) + d2 =~= acc + d);
    }
}

/// The scalar parser reads back exactly a written scalar literal.
proof fn lemma_sp_float_exact(s: Seq<u8>, i: int, f: SpecFloat)
    requires
        f.wf(),
        match_at(s, i, ser_float(f)),
        i + ser_float(f).len() == s.len() || !is_digit(s[i + ser_float(f).len()]),
    ensures
        sp_float(s, i) == Some((f, i + ser_float(f).len())),
{
    let w = ser_float(f);
    let sign: int = if f.neg {
        1int
    } else {
        0int
    };
    let m1 = f.int_digits.len() as int;
    let m2 = f.frac_digits.len() as int;
    if f.neg {
        lemma_match_at_byte(s, i, w, 0);
    } else {
        lemma_match_at_byte(s, i, w, 0);
        assert(w[0] == f.int_digits[0]);
        assert(is_digit(f.int_digits[0]));
        assert(s[i] != MINUS);
    }
    let j0 = i + sign;
    assert(w.subrange(sign, sign + m1) =~= f.int_digits);
    lemma_match_at_sub(s, i, w, sign, sign + m1, f.int_digits);
    lemma_match_at_byte(s, i, w, sign + m1);
    assert(s[j0 + m1] == DOT);
    lemma_sp_digits_exact(s, j0, f.int_digits, Seq::empty());
    assert(Seq::<u8>::empty() + f.int_digits =~= f.int_digits);
    assert(w.subrange(sign + m1 + 1, sign + m1 + 1 + m2) =~= f.frac_digits);
    lemma_match_at_sub(s, i, w, sign + m1 + 1, sign + m1 + 1 + m2, f.frac_digits);
    lemma_sp_digits_exact(s, j0 + m1 + 1, f.frac_digits, Seq::empty());
    assert(Seq::<u8>::empty() + f.frac_digits =~= f.frac_digits);
    assert(sp_float(s, i) == Some(
        (SpecFloat { neg: f.neg, int_digits: f.int_digits, frac_digits: f.frac_digits }, i
            + w.len()),
    ));
    assert(SpecFloat { neg: f.neg, int_digits: f.int_digits, frac_digits: f.frac_digits } == f);
}

/// The value parser reads back exactly a written color value.
#[verifier::rlimit(100)]
#[verifier::spinoff_prover]
proof fn lemma_sp_value_exact_color(s: Seq<u8>, i: int, v: SpecValue)
    requires
        v matches SpecValue::Color(r, g, b, a),
        match_at(s, i, ser_value(v)),
    ensures
        sp_value(s, i) == Some((v, i + ser_value(v).len())),
{
    let w = ser_value(v);
    match v {
        SpecValue::Color(r, g, b, a) => {
            let m1 = ser_u8(r).len() as int;
            let m2 = ser_u8(g).len() as int;
            let m3 = ser_u8(b).len() as int;
            let m4 = ser_u8(a).len() as int;
            assert(w.subrange(0, 5) =~= lit_color());
            lemma_match_at_sub(s, i, w, 0, 5, lit_color());
            lemma_match_at_byte(s, i, w, 5);
            assert(s[i + 5] == LPAREN);
            lemma_skip_ws_exact(s, i + 5, i + 5);
            assert(w.subrange(6, 6 + m1) =~= ser_u8(r));
            lemma_match_at_sub(s, i, w, 6, 6 + m1, ser_u8(r));
            lemma_match_at_byte(s, i + 6, ser_u8(r), 0);
            assert(is_digit(ser_u8(r)[0]));
            lemma_skip_ws_exact(s, i + 6, i + 6);
            lemma_match_at_byte(s, i, w, 6 + m1);
            assert(s[i + 6 + m1] == COMMA);
            lemma_sp_u8_exact(s, i + 6, r);
            lemma_skip_ws_exact(s, i + 6 + m1, i + 6 + m1);
            lemma_match_at_byte(s, i, w, 7 + m1);
            assert(s[i + 7 + m1] == SPACE);
            assert(w.subrange(8 + m1, 8 + m1 + m2) =~= ser_u8(g));
            lemma_match_at_sub(s, i, w, 8 + m1, 8 + m1 + m2, ser_u8(g));
            lemma_match_at_byte(s, i + 8 + m1, ser_u8(g), 0);
            assert(is_digit(ser_u8(g)[0]));
            lemma_skip_ws_exact(s, i + 7 + m1, i + 8 + m1);
            lemma_match_at_byte(s, i, w, 8 + m1 + m2);
            assert(s[i + 8 + m1 + m2] == COMMA);
            lemma_sp_u8_exact(s, i + 8 + m1, g);
            lemma_skip_ws_exact(s, i + 8 + m1 + m2, i + 8 + m1 + m2);
            lemma_match_at_byte(s, i, w, 9 + m1 + m2);
            assert(s[i + 9 + m1 + m2] == SPACE);
            assert(w.subrange(10 + m1 + m2, 10 + m1 + m2 + m3) =~= ser_u8(b));
            lemma_match_at_sub(s, i, w, 10 + m1 + m2, 10 + m1 + m2 + m3, ser_u8(b));
            lemma_match_at_byte(s, i + 10 + m1 + m2, ser_u8(b), 0);
            assert(is_digit(ser_u8(b)[0]));
            lemma_skip_ws_exact(s, i + 9 + m1 + m2, i + 10 + m1 + m2);
            lemma_match_at_byte(s, i, w, 10 + m1 + m2 + m3);
            assert(s[i + 10 + m1 + m2 + m3] == COMMA);
            lemma_sp_u8_exact(s, i + 10 + m1 + m2, b);
            lemma_skip_ws_exact(s, i + 10 + m1 + m2 + m3, i + 10 + m1 + m2 + m3);
            lemma_match_at_byte(s, i, w, 11 + m1 + m2 + m3);
            assert(s[i + 11 + m1 + m2 + m3] == SPACE);
            assert(w.subrange(12 + m1 + m2 + m3, 12 + m1 + m2 + m3 + m4) =~= ser_u8(a));
            lemma_match_at_sub(s, i, w, 12 + m1 + m2 + m3, 12 + m1 + m2 + m3 + m4, ser_u8(a));
            lemma_match_at_byte(s, i + 12 + m1 + m2 + m3, ser_u8(a), 0);
            assert(is_digit(ser_u8(a)[0]));
            lemma_skip_ws_exact(s, i + 11 + m1 + m2 + m3, i + 12 + m1 + m2 + m3);
            lemma_match_at_byte(s, i, w, 12 + m1 + m2 + m3 + m4);
            assert(s[i + 12 + m1 + m2 + m3 + m4] == RPAREN);
            lemma_sp_u8_exact(s, i + 12 + m1 + m2 + m3, a);
            lemma_skip_ws_exact(s, i + 12 + m1 + m2 + m3 + m4, i + 12 + m1 + m2 + m3 + m4);
            assert(w.len() == 13 + m1 + m2 + m3 + m4);
        },
        SpecValue::Float(_) => {
        },
        SpecValue::Text(_) => {
        },
    }
}

/// The value parser reads back exactly a written scalar value.
#[verifier::rlimit(100)]
#[verifier::spinoff_prover]
proof fn lemma_sp_value_exact_float(s: Seq<u8>, i: int, v: SpecValue)
    requires
        v.wf(),
        v matches SpecValue::Float(f),
        match_at(s, i, ser_value(v)),
    ensures
        sp_value(s, i) == Some((v, i + ser_value(v).len())),
{
    let w = ser_value(v);
    match v {
        SpecValue::Color(_, _, _, _) => {
        },
        SpecValue::Float(f) => {
            let mf = ser_float(f).len() as int;
            assert(w.subrange(0, 5) =~= lit_float());
            lemma_match_at_sub(s, i, w, 0, 5, lit_float());
            lemma_match_at_byte(s, i, w, 0);
            if match_at(s, i, lit_color()) {
                lemma_match_at_byte(s, i, lit_color(), 0);
            }
            lemma_match_at_byte(s, i, w, 5);
            assert(s[i + 5] == LPAREN);
            lemma_skip_ws_exact(s, i + 5, i + 5);
            assert(w.subrange(6, 6 + mf) =~= ser_float(f));
            lemma_match_at_sub(s, i, w, 6, 6 + mf, ser_float(f));
            lemma_match_at_byte(s, i + 6, ser_float(f), 0);
            assert(!is_ws(ser_float(f)[0]));
            lemma_skip_ws_exact(s, i + 6, i + 6);
            lemma_match_at_byte(s, i, w, 6 + mf);
            assert(s[i + 6 + mf] == RPAREN);
            lemma_sp_float_exact(s, i + 6, f);
            lemma_skip_ws_exact(s, i + 6 + mf, i + 6 + mf);
            assert(w.len() == 7 + mf);
        },
        SpecValue::Text(_) => {
        },
    }
}

/// The value parser reads back exactly a written text value.
#[verifier::rlimit(100)]
#[verifier::spinoff_prover]
proof fn lemma_sp_value_exact_text(s: Seq<u8>, i: int, v: SpecValue)
    requires
        v.wf(),
        v matches SpecValue::Text(t),
        match_at(s, i, ser_value(v)),
    ensures
        sp_value(s, i) == Some((v, i + ser_value(v).len())),
{
    let w = ser_value(v);
    match v {
        SpecValue::Color(_, _, _, _) => {
        },
        SpecValue::Float(_) => {
        },
        SpecValue::Text(t) => {
            let mt = t.len() as int;
            assert(w.subrange(0, 4) =~= lit_text());
            lemma_match_at_sub(s, i, w, 0, 4, lit_text());
            lemma_match_at_byte(s, i, w, 0);
            if match_at(s, i, lit_color()) {
                lemma_match_at_byte(s, i, lit_color(), 0);
            }
            if match_at(s, i, lit_float()) {
                lemma_match_at_byte(s, i, lit_float(), 0);
            }
            lemma_match_at_byte(s, i, w, 4);
            assert(s[i + 4] == LPAREN);
            lemma_skip_ws_exact(s, i + 4, i + 4);
            lemma_match_at_byte(s, i, w, 5);
            assert(s[i + 5] == QUOTE);
            lemma_skip_ws_exact(s, i + 5, i + 5);
            assert(w.subrange(6, 6 + mt) =~= t);
            lemma_match_at_sub(s, i, w, 6, 6 + mt, t);
            lemma_match_at_byte(s, i, w, 6 + mt);
            assert(s[i + 6 + mt] == QUOTE);
            lemma_sp_string_exact(s, i + 5, t);
            lemma_match_at_byte(s, i, w, 7 + mt);
            assert(s[i + 7 + mt] == RPAREN);
            lemma_skip_ws_exact(s, i + 7 + mt, i + 7 + mt);
            assert(w.len() == 8 + mt);
        },
    }
}

/// The value parser reads back exactly a written tagged value.
proof fn lemma_sp_value_exact(s: Seq<u8>, i: int, v: SpecValue)
    requires
        v.wf(),
        match_at(s, i, ser_value(v)),
    ensures
        sp_value(s, i) == Some((v, i + ser_value(v).len())),
{
    match v {
        SpecValue::Color(_, _, _, _) => lemma_sp_value_exact_color(s, i, v),
        SpecValue::Float(_) => lemma_sp_value_exact_float(s, i, v),
        SpecValue::Text(_) => lemma_sp_value_exact_text(s, i, v),
    }
}

/// The entry parser reads back exactly a written entry line.
#[verifier::rlimit(100)]
#[verifier::spinoff_prover]
proof fn lemma_sp_entry_exact(s: Seq<u8>, i: int, e: (Seq<u8>, SpecValue))
    requires
        wf_key(e.0),
        e.1.wf(),
        match_at(s, i, ser_entry(e)),
    ensures
        sp_entry(s, i) == Some((e, i + ser_entry(e).len())),
{
    let w = ser_entry(e);
    let mk = e.0.len() as int;
    let mv = ser_value(e.1).len() as int;
    assert forall|q: int| i <= q < i + 5 implies is_ws(#[trigger] s[q]) by {
        lemma_match_at_byte(s, i, w, q - i);
    }
    lemma_match_at_byte(s, i, w, 5);
    assert(s[i + 5] == QUOTE);
    lemma_skip_ws_exact(s, i, i + 5);
    assert(w.subrange(6, 6 + mk) =~= e.0);
    lemma_match_at_sub(s, i, w, 6, 6 + mk, e.0);
    lemma_match_at_byte(s, i, w, 6 + mk);
    assert(s[i + 6 + mk] == QUOTE);
    lemma_sp_string_exact(s, i + 5, e.0);
    lemma_match_at_byte(s, i, w, 7 + mk);
    assert(s[i + 7 + mk] == COLON);
    lemma_skip_ws_exact(s, i + 7 + mk, i + 7 + mk);
    lemma_match_at_byte(s, i, w, 8 + mk);
    assert(s[i + 8 + mk] == SPACE);
    assert(w.subrange(9 + mk, 9 + mk + mv) =~= ser_value(e.1));
    lemma_match_at_sub(s, i, w, 9 + mk, 9 + mk + mv, ser_value(e.1));
    lemma_match_at_byte(s, i + 9 + mk, ser_value(e.1), 0);
    assert(!is_ws(ser_value(e.1)[0])) by {
        match e.1 {
            SpecValue::Color(_, _, _, _) => {
                assert(ser_value(e.1)[0] == 67);
            },
            SpecValue::Float(_) => {
                assert(ser_value(e.1)[0] == 70);
            },
            SpecValue::Text(_) => {
                assert(ser_value(e.1)[0] == 84);
            },
        }
    }
    lemma_skip_ws_exact(s, i + 8 + mk, i + 9 + mk);
    lemma_sp_value_exact(s, i + 9 + mk, e.1);
    lemma_match_at_byte(s, i, w, 9 + mk + mv);
    assert(s[i + 9 + mk + mv] == COMMA);
    lemma_skip_ws_exact(s, i + 9 + mk + mv, i + 9 + mk + mv);
    assert(w.len() == 10 + mk + mv);
}

/// Serialized entries are at least one byte each.
proof fn lemma_ser_entries_len(es: Seq<(Seq<u8>, SpecValue)>)
    ensures
        ser_entries(es).len() >= es.len(),
    decreases es.len(),
{
    if es.len() > 0 {
        lemma_ser_entries_len(es.drop_first());
    }
}

/// The entries parser reads back exactly a written run of entries, up to
/// the closing brace that follows them.
proof fn lemma_sp_entries_exact(s: Seq<u8>, i: int, es: Seq<(Seq<u8>, SpecValue)>, fuel: nat)
    requires
        forall|k: int| 0 <= k < es.len() ==> wf_key((#[trigger] es[k]).0) && es[k].1.wf(),
        match_at(s, i, ser_entries(es)),
        fuel > es.len(),
        skip_ws(s, i + ser_entries(es).len()) < s.len(),
        s[skip_ws(s, i + ser_entries(es).len())] == RBRACE,
    ensures
        sp_entries(s, i, fuel) == Some((es, skip_ws(s, i + ser_entries(es).len()) + 1)),
    decreases es.len(),
{
    if es.len() == 0 {
        assert(ser_entries(es).len() == 0);
        assert(es =~= Seq::<(Seq<u8>, SpecValue)>::empty());
    } else {
        let block = ser_entry(es[0]);
        let rest = es.drop_first();
        let w = ser_entries(es);
        assert(w == block + ser_entries(rest));
        assert(w.subrange(0, block.len() as int) =~= block);
        lemma_match_at_sub(s, i, w, 0, block.len() as int, block);
        assert forall|q: int| i <= q < i + 5 implies is_ws(#[trigger] s[q]) by {
            lemma_match_at_byte(s, i, block, q - i);
        }
        lemma_match_at_byte(s, i, block, 5);
        assert(s[i + 5] == QUOTE);
        lemma_skip_ws_exact(s, i, i + 5);
        assert(skip_ws(s, i) == i + 5 && s[i + 5] != RBRACE);
        lemma_sp_entry_exact(s, i, es[0]);
        let i2 = i + block.len();
        assert(w.subrange(block.len() as int, w.len() as int) =~= ser_entries(rest));
        lemma_match_at_sub(s, i, w, block.len() as int, w.len() as int, ser_entries(rest));
        assert forall|k: int| 0 <= k < rest.len() implies wf_key((#[trigger] rest[k]).0)
            && rest[k].1.wf() by {
            assert(rest[k] == es[k + 1]);
        }
        assert(i2 + ser_entries(rest).len() == i + w.len());
        lemma_sp_entries_exact(s, i2, rest, (fuel - 1) as nat);
        assert(seq![es[0]] + rest =~= es);
    }
}

/// Round trip: parsing a serialized stylesheet yields exactly that
/// stylesheet, for every well-formed stylesheet.
pub proof fn lemma_round_trip(es: Seq<(Seq<u8>, SpecValue)>)
    requires
        wf_entries(es),
    ensures
        sp_sheet(ser_sheet(es)) == Some(es),
{
    let body = ser_entries(es);
    let s = ser_sheet(es);
    assert(s =~= seq![LBRACE] + body + seq![NEWLINE, RBRACE]);
    assert(s[0] == LBRACE);
    lemma_skip_ws_exact(s, 0, 0);
    assert(sp_sym(s, 0, LBRACE) == Some(1int));
    assert(s.subrange(1, 1 + body.len() as int) =~= body);
    assert(match_at(s, 1, body));
    let e: int = 1 + body.len() as int;
    assert(s[e] == NEWLINE);
    assert(s[e + 1] == RBRACE);
    lemma_skip_ws_exact(s, e, e + 1);
    lemma_ser_entries_len(es);
    lemma_sp_entries_exact(s, 1, es, (s.len() + 1) as nat);
    assert(sp_entries(s, 1, (s.len() + 1) as nat) == Some((es, e + 2)));
    assert(skip_ws(s, e + 2) == e + 2);
    assert(e + 2 == s.len());
    assert(sp_sheet_raw(s) == Some(es));
    assert(unique_keys(es));
}

} // verus!
