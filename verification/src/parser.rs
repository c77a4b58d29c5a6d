//! Tokenizer for chemical formula text.
//!
//! A `TokenIterator` scans a byte slice one token per call: element symbols
//! with optional quantities, parenthesized or hydrate groups, ionic charge
//! annotations, separators, whitespace runs, and error markers.  The exact
//! token produced at every position is pinned down by the specification
//! function `spec_next`.

use vstd::prelude::*;

verus! {

use vstd::slice::slice_subrange;
use vstd::slice::slice_to_vec;
use crate::rat::Rat;
use crate::rat::norm_frac;
use crate::rat::q_neg;
use crate::rat::opt_rat_view;
use crate::rat::max_mag;

/// ASCII decimal digit.
pub open spec fn is_digit(c: u8) -> bool {
    48 <= c <= 57
}

/// ASCII full stop, the decimal point.
pub open spec fn is_dot(c: u8) -> bool {
    c == 46
}

/// A byte that may appear in a numeric run: a digit or a decimal point.
pub open spec fn is_numch(c: u8) -> bool {
    is_digit(c) || is_dot(c)
}

/// ASCII uppercase letter, the start of an element symbol.
pub open spec fn is_upper(c: u8) -> bool {
    65 <= c <= 90
}

/// ASCII lowercase letter.
pub open spec fn is_lower(c: u8) -> bool {
    97 <= c <= 122
}

/// Tab, newline, carriage return or space.
pub open spec fn is_space(c: u8) -> bool {
    c == 9 || c == 10 || c == 13 || c == 32
}

/// A separator byte: `+` joins terms, `=` divides the equation's sides.
pub open spec fn is_sep(c: u8) -> bool {
    c == 43 || c == 61
}

/// A byte that continues an element-symbol token.
pub open spec fn is_symch(c: u8) -> bool {
    is_lower(c) || is_numch(c)
}

/// First position at or after `i` that does not continue a symbol token.
pub open spec fn sym_end(f: Seq<u8>, i: int) -> int
    decreases f.len() - i,
        when 0 <= i <= f.len()
{
    if i >= f.len() || !is_symch(f[i]) {
        i
    } else {
        sym_end(f, i + 1)
    }
}

/// First position at or after `i` that is not whitespace.
pub open spec fn ws_end(f: Seq<u8>, i: int) -> int
    decreases f.len() - i,
        when 0 <= i <= f.len()
{
    if i >= f.len() || !is_space(f[i]) {
        i
    } else {
        ws_end(f, i + 1)
    }
}

/// First position at or after `i` that is not a separator byte.
pub open spec fn sep_end(f: Seq<u8>, i: int) -> int
    decreases f.len() - i,
        when 0 <= i <= f.len()
{
    if i >= f.len() || !is_sep(f[i]) {
        i
    } else {
        sep_end(f, i + 1)
    }
}

/// First position at or after `i` holding a separator byte, where a hydrate
/// group ends.
pub open spec fn hyd_end(f: Seq<u8>, i: int) -> int
    decreases f.len() - i,
        when 0 <= i <= f.len()
{
    if i >= f.len() || is_sep(f[i]) {
        i
    } else {
        hyd_end(f, i + 1)
    }
}

/// First position at or after `i` holding a closing brace.
pub open spec fn brace_end(f: Seq<u8>, i: int) -> int
    decreases f.len() - i,
        when 0 <= i <= f.len()
{
    if i >= f.len() || f[i] == 125 {
        i
    } else {
        brace_end(f, i + 1)
    }
}

/// First position in `[i, e)` holding a numeric byte, or `e`.
pub open spec fn nonnum_end(f: Seq<u8>, i: int, e: int) -> int
    decreases e - i,
        when 0 <= i <= e
{
    if i >= e || is_numch(f[i]) {
        i
    } else {
        nonnum_end(f, i + 1, e)
    }
}

/// First position in `[i, e)` past the numeric run starting at `i`.
pub open spec fn num_end(f: Seq<u8>, i: int, e: int) -> int
    decreases e - i,
        when 0 <= i <= e
{
    if i >= e || !is_numch(f[i]) {
        i
    } else {
        num_end(f, i + 1, e)
    }
}

/// Position of the parenthesis that closes the group open at depth `depth`,
/// or the length of the input when the group never closes.
pub open spec fn scan_paren(f: Seq<u8>, i: int, depth: int) -> int
    decreases f.len() - i,
        when 0 <= i <= f.len()
{
    if i >= f.len() {
        i
    } else if f[i] == 41 && depth == 1 {
        i
    } else {
        scan_paren(
            f,
            i + 1,
            if f[i] == 40 {
                depth + 1
            } else if f[i] == 41 {
                depth - 1
            } else {
                depth
            },
        )
    }
}

/// Whether every byte in `[i, e)` is a `+` or a `-` sign.
pub open spec fn all_sign(f: Seq<u8>, i: int, e: int) -> bool
    decreases e - i,
        when 0 <= i <= e
{
    if i >= e {
        true
    } else {
        (f[i] == 43 || f[i] == 45) && all_sign(f, i + 1, e)
    }
}

/// Number of `-` bytes in `[i, e)`.
pub open spec fn minus_count(f: Seq<u8>, i: int, e: int) -> int
    decreases e - i,
        when 0 <= i <= e
{
    if i >= e {
        0
    } else {
        (if f[i] == 45 {
            1int
        } else {
            0int
        }) + minus_count(f, i + 1, e)
    }
}

/// The element name that carries an ionic charge annotation.
pub open spec fn charge_name() -> Seq<u8> {
    seq![99u8, 104u8, 97u8, 114u8, 103u8, 101u8]
}

/// Exact rational value of a numeric run: `acc` is the integer read so far,
/// `den` the power of ten accumulated for fractional digits, `dot` whether a
/// decimal point was seen, `dig` whether any digit was seen.  `None` marks a
/// malformed literal or one whose value cannot be held on `i64` fields.
pub open spec fn parse_digits(s: Seq<u8>, i: int, acc: int, den: int, dot: bool, dig: bool) -> Option<
    (int, int),
>
    decreases s.len() - i,
        when 0 <= i <= s.len()
{
    if i >= s.len() {
        if dig {
            Some(norm_frac(acc, den))
        } else {
            None
        }
    } else if is_digit(s[i]) {
        let acc2 = acc * 10 + (s[i] - 48);
        let den2 = if dot {
            den * 10
        } else {
            den
        };
        if acc2 > max_mag() || den2 > max_mag() {
            None
        } else {
            parse_digits(s, i + 1, acc2, den2, dot, true)
        }
    } else if is_dot(s[i]) {
        if dot {
            None
        } else {
            parse_digits(s, i + 1, acc, den, true, dig)
        }
    } else {
        None
    }
}

/// The exact rational denoted by a quantity literal: the empty literal means
/// one, otherwise digits with at most one decimal point, reduced to canonical
/// form.  `None` marks a malformed or overflowing literal.
pub open spec fn spec_parse_num(s: Seq<u8>) -> Option<(int, int)> {
    if s.len() == 0 {
        Some((1int, 1int))
    } else {
        parse_digits(s, 0, 0, 1, false, false)
    }
}

/// Mathematical model of one token, over sequences and unbounded integers.
pub enum TokenModel {
    /// An element name with its exact quantity; `[lo, hi)` is the source span.
    Symbol { name: Seq<u8>, lo: int, hi: int, qty: (int, int) },
    /// A group to be expanded recursively: inner span `[ilo, ihi)`, source
    /// span `[lo, hi)`, and the group's quantity multiplier.
    Group { ilo: int, ihi: int, lo: int, hi: int, qty: (int, int) },
    /// A run of separator bytes, represented by its first byte.
    Separator { byte: u8 },
    /// A run of whitespace bytes.
    Whitespace,
    /// A malformed charge annotation over the span `[lo, hi)`.
    BadCharge { lo: int, hi: int },
    /// A byte that matches no lexical rule.
    Invalid { lo: int, hi: int },
    /// A numeric literal that failed to parse.
    Error { lo: int, hi: int },
}

/// One token of formula text.  Spans are byte ranges into the tokenized
/// slice; quantities are exact rationals.
pub enum TokenType {
    /// An element name with its exact quantity (1 when no digits follow).
    Symbol { name: Vec<u8>, lo: usize, hi: usize, qty: Rat },
    /// A parenthesized or hydrate group with its quantity multiplier.
    Group { ilo: usize, ihi: usize, lo: usize, hi: usize, qty: Rat },
    /// A run of separator bytes: `+` joins terms, `=` divides sides.
    Separator { byte: u8 },
    /// A run of whitespace bytes.
    Whitespace,
    /// A malformed charge annotation.
    BadCharge { lo: usize, hi: usize },
    /// A byte that matches no lexical rule.
    Invalid { lo: usize, hi: usize },
    /// A numeric literal that failed to parse.
    Error { lo: usize, hi: usize },
}

impl View for TokenType {
    type V = TokenModel;

    open spec fn view(&self) -> TokenModel {
        match self {
            TokenType::Symbol { name, lo, hi, qty } => TokenModel::Symbol {
                name: name@,
                lo: *lo as int,
                hi: *hi as int,
                qty: qty@,
            },
            TokenType::Group { ilo, ihi, lo, hi, qty } => TokenModel::Group {
                ilo: *ilo as int,
                ihi: *ihi as int,
                lo: *lo as int,
                hi: *hi as int,
                qty: qty@,
            },
            TokenType::Separator { byte } => TokenModel::Separator { byte: *byte },
            TokenType::Whitespace => TokenModel::Whitespace,
            TokenType::BadCharge { lo, hi } => TokenModel::BadCharge {
                lo: *lo as int,
                hi: *hi as int,
            },
            TokenType::Invalid { lo, hi } => TokenModel::Invalid { lo: *lo as int, hi: *hi as int },
            TokenType::Error { lo, hi } => TokenModel::Error { lo: *lo as int, hi: *hi as int },
        }
    }
}

/// The token denoted by a charge annotation whose content is `[lo, hi)` and
/// whose opening brace sits at `tlo`: a numeric run gives the magnitude
/// (default one), the remaining bytes must form a sign run standing entirely
/// before (one byte) or after it, and each `-` negates the quantity.
pub open spec fn spec_charge(f: Seq<u8>, tlo: int, lo: int, hi: int) -> TokenModel
    recommends
        0 <= tlo,
        tlo + 1 == lo,
        lo <= hi <= f.len(),
{
    let ns = nonnum_end(f, lo, hi);
    let ne = num_end(f, ns, hi);
    match spec_parse_num(f.subrange(ns, ne)) {
        None => TokenModel::Error { lo: tlo, hi: hi },
        Some(q) => {
            if ns != lo && ne - ns != hi - lo - 1 {
                TokenModel::BadCharge { lo: tlo, hi: hi }
            } else {
                let slo = if ns == lo {
                    ne
                } else {
                    lo
                };
                let shi = if ns == lo {
                    hi
                } else {
                    ns
                };
                if all_sign(f, slo, shi) {
                    let qty = if minus_count(f, slo, shi) % 2 == 1 {
                        q_neg(q)
                    } else {
                        q
                    };
                    TokenModel::Symbol { name: charge_name(), lo: tlo, hi: hi, qty: qty }
                } else {
                    TokenModel::BadCharge { lo: tlo, hi: hi }
                }
            }
        },
    }
}

/// The token starting at position `i` of `f`, and the position where scanning
/// resumes afterwards.
pub open spec fn spec_next(f: Seq<u8>, i: int) -> (TokenModel, int)
    recommends
        0 <= i < f.len(),
{
    let c = f[i];
    if c == 40 {
        let j = scan_paren(f, i + 1, 1);
        if j >= f.len() {
            (TokenModel::Invalid { lo: i, hi: i + 1 }, i + 1)
        } else {
            let k = num_end(f, j + 1, f.len() as int);
            match spec_parse_num(f.subrange(j + 1, k)) {
                Some(q) => (TokenModel::Group { ilo: i + 1, ihi: j, lo: i, hi: k, qty: q }, k),
                None => (TokenModel::Error { lo: j + 1, hi: k }, k),
            }
        }
    } else if is_upper(c) {
        let e = sym_end(f, i + 1);
        let ns = nonnum_end(f, i + 1, e);
        let ne = num_end(f, ns, e);
        match spec_parse_num(f.subrange(ns, ne)) {
            Some(q) => (TokenModel::Symbol { name: f.subrange(i, ns), lo: i, hi: e, qty: q }, e),
            None => (TokenModel::Error { lo: i, hi: e }, e),
        }
    } else if is_space(c) {
        (TokenModel::Whitespace, ws_end(f, i + 1))
    } else if is_sep(c) {
        (TokenModel::Separator { byte: c }, sep_end(f, i + 1))
    } else if c == 42 {
        let e = hyd_end(f, i + 1);
        let k0 = num_end(f, i + 1, e);
        match spec_parse_num(f.subrange(i + 1, k0)) {
            Some(q) => (TokenModel::Group { ilo: k0, ihi: e, lo: i, hi: e, qty: q }, e),
            None => (TokenModel::Error { lo: i, hi: e }, e),
        }
    } else if c == 123 {
        let e = brace_end(f, i + 1);
        if e >= f.len() {
            (TokenModel::BadCharge { lo: i, hi: e }, e)
        } else {
            (spec_charge(f, i, i + 1, e), e + 1)
        }
    } else {
        (TokenModel::Invalid { lo: i, hi: i + 1 }, i + 1)
    }
}

/// Every scan function stays inside its bounds.
pub proof fn lemma_sym_end(f: Seq<u8>, i: int)
    requires
        0 <= i <= f.len(),
    ensures
        i <= sym_end(f, i) <= f.len(),
    decreases f.len() - i,
{
    if i < f.len() && is_symch(f[i]) {
        lemma_sym_end(f, i + 1);
    }
}

pub proof fn lemma_ws_end(f: Seq<u8>, i: int)
    requires
        0 <= i <= f.len(),
    ensures
        i <= ws_end(f, i) <= f.len(),
    decreases f.len() - i,
{
    if i < f.len() && is_space(f[i]) {
        lemma_ws_end(f, i + 1);
    }
}

pub proof fn lemma_sep_end(f: Seq<u8>, i: int)
    requires
        0 <= i <= f.len(),
    ensures
        i <= sep_end(f, i) <= f.len(),
    decreases f.len() - i,
{
    if i < f.len() && is_sep(f[i]) {
        lemma_sep_end(f, i + 1);
    }
}

pub proof fn lemma_hyd_end(f: Seq<u8>, i: int)
    requires
        0 <= i <= f.len(),
    ensures
        i <= hyd_end(f, i) <= f.len(),
    decreases f.len() - i,
{
    if i < f.len() && !is_sep(f[i]) {
        lemma_hyd_end(f, i + 1);
    }
}

pub proof fn lemma_brace_end(f: Seq<u8>, i: int)
    requires
        0 <= i <= f.len(),
    ensures
        i <= brace_end(f, i) <= f.len(),
    decreases f.len() - i,
{
    if i < f.len() && f[i] != 125 {
        lemma_brace_end(f, i + 1);
    }
}

pub proof fn lemma_nonnum_end(f: Seq<u8>, i: int, e: int)
    requires
        0 <= i <= e,
    ensures
        i <= nonnum_end(f, i, e) <= e,
    decreases e - i,
{
    if i < e && !is_numch(f[i]) {
        lemma_nonnum_end(f, i + 1, e);
    }
}

pub proof fn lemma_num_end(f: Seq<u8>, i: int, e: int)
    requires
        0 <= i <= e,
    ensures
        i <= num_end(f, i, e) <= e,
    decreases e - i,
{
    if i < e && is_numch(f[i]) {
        lemma_num_end(f, i + 1, e);
    }
}

pub proof fn lemma_scan_paren(f: Seq<u8>, i: int, depth: int)
    requires
        0 <= i <= f.len(),
    ensures
        i <= scan_paren(f, i, depth) <= f.len(),
    decreases f.len() - i,
{
    if i < f.len() && !(f[i] == 41 && depth == 1) {
        lemma_scan_paren(
            f,
            i + 1,
            if f[i] == 40 {
                depth + 1
            } else if f[i] == 41 {
                depth - 1
            } else {
                depth
            },
        );
    }
}

/// Each call of `spec_next` advances, stays inside the input, and hands out
/// group spans that are strictly shorter than the input.
pub proof fn lemma_next_bounds(f: Seq<u8>, i: int)
    requires
        0 <= i < f.len(),
    ensures
        i < spec_next(f, i).1 <= f.len(),
        spec_next(f, i).0 matches TokenModel::Group { ilo, ihi, .. } ==> 0 <= ilo <= ihi
            <= f.len() && ihi - ilo < f.len(),
{
    let c = f[i];
    if c == 40 {
        lemma_scan_paren(f, i + 1, 1);
        let j = scan_paren(f, i + 1, 1);
        if j < f.len() {
            lemma_num_end(f, j + 1, f.len() as int);
        }
    } else if is_upper(c) {
        lemma_sym_end(f, i + 1);
    } else if is_space(c) {
        lemma_ws_end(f, i + 1);
    } else if is_sep(c) {
        lemma_sep_end(f, i + 1);
    } else if c == 42 {
        lemma_hyd_end(f, i + 1);
        let e = hyd_end(f, i + 1);
        lemma_num_end(f, i + 1, e);
    } else if c == 123 {
        lemma_brace_end(f, i + 1);
    }
}

fn sym_end_exec(f: &[u8], i: usize) -> (r: usize)
    requires
        i <= f@.len(),
    ensures
        r as int == sym_end(f@, i as int),
        i <= r <= f@.len(),
    decreases f@.len() - i,
{
    if i < f.len() {
        let c = f[i];
        if (97 <= c && c <= 122) || (48 <= c && c <= 57) || c == 46 {
            return sym_end_exec(f, i + 1);
        }
    }
    i
}

fn ws_end_exec(f: &[u8], i: usize) -> (r: usize)
    requires
        i <= f@.len(),
    ensures
        r as int == ws_end(f@, i as int),
        i <= r <= f@.len(),
    decreases f@.len() - i,
{
    if i < f.len() {
        let c = f[i];
        if c == 9 || c == 10 || c == 13 || c == 32 {
            return ws_end_exec(f, i + 1);
        }
    }
    i
}

fn sep_end_exec(f: &[u8], i: usize) -> (r: usize)
    requires
        i <= f@.len(),
    ensures
        r as int == sep_end(f@, i as int),
        i <= r <= f@.len(),
    decreases f@.len() - i,
{
    if i < f.len() {
        let c = f[i];
        if c == 43 || c == 61 {
            return sep_end_exec(f, i + 1);
        }
    }
    i
}

fn hyd_end_exec(f: &[u8], i: usize) -> (r: usize)
    requires
        i <= f@.len(),
    ensures
        r as int == hyd_end(f@, i as int),
        i <= r <= f@.len(),
    decreases f@.len() - i,
{
    if i < f.len() {
        let c = f[i];
        if !(c == 43 || c == 61) {
            return hyd_end_exec(f, i + 1);
        }
    }
    i
}

fn brace_end_exec(f: &[u8], i: usize) -> (r: usize)
    requires
        i <= f@.len(),
    ensures
        r as int == brace_end(f@, i as int),
        i <= r <= f@.len(),
    decreases f@.len() - i,
{
    if i < f.len() {
        if f[i] != 125 {
            return brace_end_exec(f, i + 1);
        }
    }
    i
}

fn nonnum_end_exec(f: &[u8], i: usize, e: usize) -> (r: usize)
    requires
        i <= e <= f@.len(),
    ensures
        r as int == nonnum_end(f@, i as int, e as int),
        i <= r <= e,
    decreases e - i,
{
    if i < e {
        let c = f[i];
        if !((48 <= c && c <= 57) || c == 46) {
            return nonnum_end_exec(f, i + 1, e);
        }
    }
    i
}

fn num_end_exec(f: &[u8], i: usize, e: usize) -> (r: usize)
    requires
        i <= e <= f@.len(),
    ensures
        r as int == num_end(f@, i as int, e as int),
        i <= r <= e,
    decreases e - i,
{
    if i < e {
        let c = f[i];
        if (48 <= c && c <= 57) || c == 46 {
            return num_end_exec(f, i + 1, e);
        }
    }
    i
}

fn scan_paren_exec(f: &[u8], i: usize, depth: u128) -> (r: usize)
    requires
        i <= f@.len(),
        1 <= depth,
        depth as int <= i as int + 1,
    ensures
        r as int == scan_paren(f@, i as int, depth as int),
        i <= r <= f@.len(),
    decreases f@.len() - i,
{
    if i >= f.len() {
        i
    } else if f[i] == 41 && depth == 1 {
        i
    } else {
        let c = f[i];
        let d2: u128 = if c == 40 {
            depth + 1
        } else if c == 41 {
            depth - 1
        } else {
            depth
        };
        scan_paren_exec(f, i + 1, d2)
    }
}

fn all_sign_exec(f: &[u8], i: usize, e: usize) -> (b: bool)
    requires
        i <= e <= f@.len(),
    ensures
        b == all_sign(f@, i as int, e as int),
    decreases e - i,
{
    if i >= e {
        true
    } else if f[i] == 43 || f[i] == 45 {
        all_sign_exec(f, i + 1, e)
    } else {
        false
    }
}

fn minus_parity_exec(f: &[u8], i: usize, e: usize) -> (b: bool)
    requires
        i <= e <= f@.len(),
    ensures
        b == (minus_count(f@, i as int, e as int) % 2 == 1),
    decreases e - i,
{
    if i >= e {
        false
    } else {
        let rest = minus_parity_exec(f, i + 1, e);
        proof {
            lemma_minus_count_nonneg(f@, i as int + 1, e as int);
        }
        if f[i] == 45 {
            !rest
        } else {
            rest
        }
    }
}

proof fn lemma_minus_count_nonneg(f: Seq<u8>, i: int, e: int)
    requires
        0 <= i <= e,
    ensures
        0 <= minus_count(f, i, e),
    decreases e - i,
{
    if i < e {
        lemma_minus_count_nonneg(f, i + 1, e);
    }
}

fn charge_name_exec() -> (v: Vec<u8>)
    ensures
        v@ == charge_name(),
{
    let mut v: Vec<u8> = Vec::new();
    v.push(99);
    v.push(104);
    v.push(97);
    v.push(114);
    v.push(103);
    v.push(101);
    proof {
        assert(v@ =~= charge_name());
    }
    v
}

fn parse_digits_exec(s: &[u8], i: usize, acc: i64, den: i64, dot: bool, dig: bool) -> (r: Option<
    Rat,
>)
    requires
        i <= s@.len(),
        0 <= acc as int <= max_mag(),
        1 <= den as int <= max_mag(),
    ensures
        opt_rat_view(r) == parse_digits(s@, i as int, acc as int, den as int, dot, dig),
        r matches Some(c) ==> c.wf(),
    decreases s@.len() - i,
{
    if i >= s.len() {
        if dig {
            Rat::new(acc, den)
        } else {
            None
        }
    } else {
        let c = s[i];
        if 48 <= c && c <= 57 {
            let a2: i128 = acc as i128 * 10 + (c - 48) as i128;
            let d2: i128 = if dot {
                den as i128 * 10
            } else {
                den as i128
            };
            if a2 > 0x7fff_ffff_ffff_ffff || d2 > 0x7fff_ffff_ffff_ffff {
                None
            } else {
                parse_digits_exec(s, i + 1, a2 as i64, d2 as i64, dot, true)
            }
        } else if c == 46 {
            if dot {
                None
            } else {
                parse_digits_exec(s, i + 1, acc, den, true, dig)
            }
        } else {
            None
        }
    }
}

/// Parses a quantity literal (digits with at most one decimal point; the
/// empty literal means one) into an exact canonical rational.
pub fn parse_num(s: &[u8]) -> (r: Option<Rat>)
    ensures
        opt_rat_view(r) == spec_parse_num(s@),
        r matches Some(c) ==> c.wf(),
{
    if s.len() == 0 {
        Some(Rat::one())
    } else {
        parse_digits_exec(s, 0, 0, 1, false, false)
    }
}

fn charge_token(f: &[u8], tlo: usize, lo: usize, hi: usize) -> (t: TokenType)
    requires
        tlo + 1 == lo,
        lo <= hi <= f@.len(),
    ensures
        t@ == spec_charge(f@, tlo as int, lo as int, hi as int),
        token_wf(&t),
{
    let ns = nonnum_end_exec(f, lo, hi);
    let ne = num_end_exec(f, ns, hi);
    match parse_num(slice_subrange(f, ns, ne)) {
        None => TokenType::Error { lo: tlo, hi },
        Some(q) => {
            if ns != lo && ne - ns != hi - lo - 1 {
                TokenType::BadCharge { lo: tlo, hi }
            } else {
                let slo = if ns == lo {
                    ne
                } else {
                    lo
                };
                let shi = if ns == lo {
                    hi
                } else {
                    ns
                };
                if all_sign_exec(f, slo, shi) {
                    let qty = if minus_parity_exec(f, slo, shi) {
                        q.neg()
                    } else {
                        q
                    };
                    TokenType::Symbol { name: charge_name_exec(), lo: tlo, hi, qty }
                } else {
                    TokenType::BadCharge { lo: tlo, hi }
                }
            }
        },
    }
}

/// Quantities carried by a token are representable rationals.
pub open spec fn token_wf(t: &TokenType) -> bool {
    match t {
        TokenType::Symbol { qty, .. } => qty.wf(),
        TokenType::Group { qty, .. } => qty.wf(),
        _ => true,
    }
}

/// A restartable, lazy token scanner over a borrowed formula slice.
pub struct TokenIterator<'a> {
    formula: &'a [u8],
    index: usize,
}

impl<'a> TokenIterator<'a> {
    /// The bytes being tokenized.
    pub closed spec fn formula_view(&self) -> Seq<u8> {
        self.formula@
    }

    /// The cursor: the position the next token starts at.
    pub closed spec fn pos(&self) -> int {
        self.index as int
    }

    /// The cursor never leaves the input.
    pub open spec fn inv(&self) -> bool {
        0 <= self.pos() <= self.formula_view().len()
    }

    /// A fresh scanner over `st`, positioned at its start.
    pub fn new(st: &'a [u8]) -> (r: Self)
        ensures
            r.formula_view() == st@,
            r.pos() == 0,
            r.inv(),
    {
        TokenIterator { formula: st, index: 0 }
    }

    /// The cursor as a number.
    pub fn position(&self) -> (r: usize)
        ensures
            r as int == self.pos(),
    {
        self.index
    }

    /// Produces the token at the cursor, exactly as `spec_next` describes it,
    /// and advances the cursor; `None` once the input is exhausted.
    pub fn next(&mut self) -> (r: Option<TokenType>)
        requires
            old(self).inv(),
        ensures
            final(self).inv(),
            final(self).formula_view() == old(self).formula_view(),
            old(self).pos() == old(self).formula_view().len() ==> r is None && final(self).pos()
                == old(self).pos(),
            old(self).pos() < old(self).formula_view().len() ==> {
                &&& r matches Some(t) && t@ == spec_next(
                    old(self).formula_view(),
                    old(self).pos(),
                ).0
                &&& final(self).pos() == spec_next(old(self).formula_view(), old(self).pos()).1
                &&& old(self).pos() < final(self).pos()
            },
            match r {
                Some(t) => token_wf(&t) && match t {
                    TokenType::Group { ilo, ihi, .. } => ilo <= ihi && ihi as int
                        <= old(self).formula_view().len() && ihi - ilo
                        < old(self).formula_view().len(),
                    _ => true,
                },
                None => true,
            },
    {
        let f = self.formula;
        let i = self.index;
        if i == f.len() {
            return None;
        }
        let c = f[i];
        if c == 40 {
            let j = scan_paren_exec(f, i + 1, 1);
            if j == f.len() {
                self.index = i + 1;
                Some(TokenType::Invalid { lo: i, hi: i + 1 })
            } else {
                let k = num_end_exec(f, j + 1, f.len());
                let q = parse_num(slice_subrange(f, j + 1, k));
                self.index = k;
                match q {
                    Some(qty) => Some(TokenType::Group { ilo: i + 1, ihi: j, lo: i, hi: k, qty }),
                    None => Some(TokenType::Error { lo: j + 1, hi: k }),
                }
            }
        } else if 65 <= c && c <= 90 {
            let e = sym_end_exec(f, i + 1);
            let ns = nonnum_end_exec(f, i + 1, e);
            let ne = num_end_exec(f, ns, e);
            let q = parse_num(slice_subrange(f, ns, ne));
            self.index = e;
            match q {
                Some(qty) => Some(
                    TokenType::Symbol { name: slice_to_vec(slice_subrange(f, i, ns)), lo: i, hi: e, qty },
                ),
                None => Some(TokenType::Error { lo: i, hi: e }),
            }
        } else if c == 9 || c == 10 || c == 13 || c == 32 {
            self.index = ws_end_exec(f, i + 1);
            Some(TokenType::Whitespace)
        } else if c == 43 || c == 61 {
            self.index = sep_end_exec(f, i + 1);
            Some(TokenType::Separator { byte: c })
        } else if c == 42 {
            let e = hyd_end_exec(f, i + 1);
            let k0 = num_end_exec(f, i + 1, e);
            let q = parse_num(slice_subrange(f, i + 1, k0));
            self.index = e;
            match q {
                Some(qty) => Some(TokenType::Group { ilo: k0, ihi: e, lo: i, hi: e, qty }),
                None => Some(TokenType::Error { lo: i, hi: e }),
            }
        } else if c == 123 {
            let e = brace_end_exec(f, i + 1);
            if e == f.len() {
                self.index = e;
                Some(TokenType::BadCharge { lo: i, hi: e })
            } else {
                let t = charge_token(f, i, i + 1, e);
                self.index = e + 1;
                Some(t)
            }
        } else {
            self.index = i + 1;
            Some(TokenType::Invalid { lo: i, hi: i + 1 })
        }
    }
}

} // verus!
