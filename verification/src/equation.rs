//! Equation assembly: group expansion, symbol discovery, and the per-molecule
//! accumulation pass that yields the columns of the stoichiometric matrix.

use vstd::prelude::*;

verus! {

use vstd::slice::slice_subrange;
use crate::rat::Rat;
use crate::rat::q_mul;
use crate::parser::TokenIterator;
use crate::parser::TokenType;
use crate::parser::TokenModel;
use crate::parser::spec_next;
use crate::parser::lemma_next_bounds;
use crate::parser::is_space;
use crate::solve::Augmented;
use crate::solve::spec_rref;
use crate::solve::spec_solve;
use crate::solve::ints_model;
use crate::solve::MatModel;
use crate::table::SymTable;
use crate::table::tbl_reg;
use crate::table::tbl_add;

/// Which precondition on the raw equation bytes was violated.
#[derive(Clone, Copy, Debug, PartialEq, Eq, Structural)]
pub enum PrecondKind {
    /// A byte outside the 7-bit ASCII range.
    NonAscii,
    /// Not exactly one side-divider (`=`) byte.
    DividerCount,
    /// The side divider stands at the first or the last byte.
    DividerPosition,
}

/// Why an equation could not be balanced.  Spans are byte ranges naming the
/// offending text, relative to the fragment in which it was found.
#[derive(Clone, Copy, Debug, PartialEq, Eq, Structural)]
pub enum EqError {
    /// A numeric literal could not be parsed as an integer or finite decimal.
    NumberFormat { lo: usize, hi: usize },
    /// A byte or span matched no lexical rule.
    InvalidToken { lo: usize, hi: usize },
    /// A separator inside a group, or a malformed charge annotation.
    Structure { lo: usize, hi: usize },
    /// The raw input violated a precondition.
    Precondition { kind: PrecondKind },
    /// The only mathematically valid balance is the zero vector.
    TrivialSolution,
    /// An exact intermediate value left the representable range.
    Overflow,
}

/// A symbol table model: keys and quantities, aligned.
pub type TblModel = (Seq<Seq<u8>>, Seq<(int, int)>);

/// The result of expanding the token stream of `f` from position `i` into
/// the table `(ks, vs)`, every quantity scaled by `sc`: symbols accumulate
/// `quantity * sc`, nested groups recurse with `sc * quantity`, separators
/// are illegal inside a group, and malformed tokens abort the expansion.
pub open spec fn spec_expand(
    f: Seq<u8>,
    i: int,
    ks: Seq<Seq<u8>>,
    vs: Seq<(int, int)>,
    sc: (int, int),
) -> Result<TblModel, EqError>
    decreases f.len(), f.len() - i,
        when 0 <= i <= f.len()
        via spec_expand_dec
{
    if i >= f.len() {
        Ok((ks, vs))
    } else {
        let t = spec_next(f, i).0;
        let j = spec_next(f, i).1;
        match t {
            TokenModel::Symbol { name, qty, .. } => match q_mul(qty, sc) {
                None => Err(EqError::Overflow),
                Some(p) => match tbl_add(ks, vs, name, p) {
                    None => Err(EqError::Overflow),
                    Some(kv) => spec_expand(f, j, kv.0, kv.1, sc),
                },
            },
            TokenModel::Group { ilo, ihi, qty, .. } => match q_mul(sc, qty) {
                None => Err(EqError::Overflow),
                Some(s2) => match spec_expand(f.subrange(ilo, ihi), 0, ks, vs, s2) {
                    Err(e) => Err(e),
                    Ok(kv) => spec_expand(f, j, kv.0, kv.1, sc),
                },
            },
            TokenModel::Separator { .. } => Err(
                EqError::Structure { lo: i as usize, hi: j as usize },
            ),
            TokenModel::Whitespace => spec_expand(f, j, ks, vs, sc),
            TokenModel::BadCharge { lo, hi } => Err(
                EqError::Structure { lo: lo as usize, hi: hi as usize },
            ),
            TokenModel::Invalid { lo, hi } => Err(
                EqError::InvalidToken { lo: lo as usize, hi: hi as usize },
            ),
            TokenModel::Error { lo, hi } => Err(
                EqError::NumberFormat { lo: lo as usize, hi: hi as usize },
            ),
        }
    }
}

#[via_fn]
proof fn spec_expand_dec(f: Seq<u8>, i: int, ks: Seq<Seq<u8>>, vs: Seq<(int, int)>, sc: (int, int)) {
    if i < f.len() {
        lemma_next_bounds(f, i);
    }
}

/// Recursively expands the tokens of a group into the caller's table, every
/// quantity scaled by `sc`, exactly as `spec_expand` describes.  On failure
/// the table may hold a partial accumulation; the failure is reported as is.
#[verifier::loop_isolation(false)]
pub fn parse_group(f: &[u8], table: &mut SymTable, sc: Rat) -> (r: Result<(), EqError>)
    requires
        old(table).wf(),
        sc.wf(),
    ensures
        final(table).wf(),
        final(table).keys().len() >= old(table).keys().len(),
        match r {
            Ok(()) => spec_expand(f@, 0, old(table).keys(), old(table).quantities(), sc@) == Ok::<
                TblModel,
                EqError,
            >((final(table).keys(), final(table).quantities())),
            Err(e) => spec_expand(f@, 0, old(table).keys(), old(table).quantities(), sc@) == Err::<
                TblModel,
                EqError,
            >(e),
        },
    decreases f@.len(),
{
    let ghost k0 = old(table).keys();
    let ghost v0 = old(table).quantities();
    let mut it = TokenIterator::new(f);
    loop
        invariant
            it.inv(),
            it.formula_view() == f@,
            table.wf(),
            sc.wf(),
            table.keys().len() >= k0.len(),
            spec_expand(f@, 0, k0, v0, sc@) == spec_expand(
                f@,
                it.pos(),
                table.keys(),
                table.quantities(),
                sc@,
            ),
        decreases f@.len() - it.pos(),
    {
        let ip = it.position();
        match it.next() {
            None => {
                return Ok(());
            },
            Some(tok) => {
                let jp = it.position();
                match tok {
                    TokenType::Symbol { name, qty, .. } => {
                        let p = match qty.mul(sc) {
                            Some(p) => p,
                            None => {
                                return Err(EqError::Overflow);
                            },
                        };
                        if !table.accumulate(name, p) {
                            return Err(EqError::Overflow);
                        }
                    },
                    TokenType::Group { ilo, ihi, qty, .. } => {
                        let s2 = match sc.mul(qty) {
                            Some(p) => p,
                            None => {
                                return Err(EqError::Overflow);
                            },
                        };
                        let inner = slice_subrange(f, ilo, ihi);
                        match parse_group(inner, table, s2) {
                            Ok(()) => {},
                            Err(e) => {
                                return Err(e);
                            },
                        }
                    },
                    TokenType::Separator { .. } => {
                        return Err(EqError::Structure { lo: ip, hi: jp });
                    },
                    TokenType::Whitespace => {},
                    TokenType::BadCharge { lo, hi } => {
                        return Err(EqError::Structure { lo, hi });
                    },
                    TokenType::Invalid { lo, hi } => {
                        return Err(EqError::InvalidToken { lo, hi });
                    },
                    TokenType::Error { lo, hi } => {
                        return Err(EqError::NumberFormat { lo, hi });
                    },
                }
            },
        }
    }
}

/// The master table after the discovery pass over `f` from position `i`:
/// every element name appearing at the top level or inside a group is
/// registered, in first-appearance order, with quantity zero.
pub open spec fn spec_pass1(f: Seq<u8>, i: int, ks: Seq<Seq<u8>>, vs: Seq<(int, int)>) -> Result<
    TblModel,
    EqError,
>
    decreases f.len() - i,
        when 0 <= i <= f.len()
        via spec_pass1_dec
{
    if i >= f.len() {
        Ok((ks, vs))
    } else {
        let t = spec_next(f, i).0;
        let j = spec_next(f, i).1;
        match t {
            TokenModel::Symbol { name, .. } => spec_pass1(
                f,
                j,
                tbl_reg(ks, vs, name).0,
                tbl_reg(ks, vs, name).1,
            ),
            TokenModel::Group { ilo, ihi, .. } => match spec_expand(
                f.subrange(ilo, ihi),
                0,
                ks,
                vs,
                (0int, 1int),
            ) {
                Err(e) => Err(e),
                Ok(kv) => spec_pass1(f, j, kv.0, kv.1),
            },
            TokenModel::Separator { .. } => spec_pass1(f, j, ks, vs),
            TokenModel::Whitespace => spec_pass1(f, j, ks, vs),
            TokenModel::BadCharge { lo, hi } => Err(
                EqError::Structure { lo: lo as usize, hi: hi as usize },
            ),
            TokenModel::Invalid { lo, hi } => Err(
                EqError::InvalidToken { lo: lo as usize, hi: hi as usize },
            ),
            TokenModel::Error { lo, hi } => Err(
                EqError::NumberFormat { lo: lo as usize, hi: hi as usize },
            ),
        }
    }
}

#[via_fn]
proof fn spec_pass1_dec(f: Seq<u8>, i: int, ks: Seq<Seq<u8>>, vs: Seq<(int, int)>) {
    if i < f.len() {
        lemma_next_bounds(f, i);
    }
}

/// Discovery pass: registers every element name of the equation into the
/// master table, exactly as `spec_pass1` describes.
#[verifier::loop_isolation(false)]
pub fn discover_symbols(f: &[u8], table: &mut SymTable) -> (r: Result<(), EqError>)
    requires
        old(table).wf(),
    ensures
        final(table).wf(),
        match r {
            Ok(()) => spec_pass1(f@, 0, old(table).keys(), old(table).quantities()) == Ok::<
                TblModel,
                EqError,
            >((final(table).keys(), final(table).quantities())),
            Err(e) => spec_pass1(f@, 0, old(table).keys(), old(table).quantities()) == Err::<
                TblModel,
                EqError,
            >(e),
        },
{
    let ghost k0 = old(table).keys();
    let ghost v0 = old(table).quantities();
    let mut it = TokenIterator::new(f);
    loop
        invariant
            it.inv(),
            it.formula_view() == f@,
            table.wf(),
            spec_pass1(f@, 0, k0, v0) == spec_pass1(
                f@,
                it.pos(),
                table.keys(),
                table.quantities(),
            ),
        decreases f@.len() - it.pos(),
    {
        match it.next() {
            None => {
                return Ok(());
            },
            Some(tok) => {
                match tok {
                    TokenType::Symbol { name, .. } => {
                        table.register(name);
                    },
                    TokenType::Group { ilo, ihi, .. } => {
                        let inner = slice_subrange(f, ilo, ihi);
                        match parse_group(inner, table, Rat::zero()) {
                            Ok(()) => {},
                            Err(e) => {
                                return Err(e);
                            },
                        }
                    },
                    TokenType::Separator { .. } => {},
                    TokenType::Whitespace => {},
                    TokenType::BadCharge { lo, hi } => {
                        return Err(EqError::Structure { lo, hi });
                    },
                    TokenType::Invalid { lo, hi } => {
                        return Err(EqError::InvalidToken { lo, hi });
                    },
                    TokenType::Error { lo, hi } => {
                        return Err(EqError::NumberFormat { lo, hi });
                    },
                }
            },
        }
    }
}

/// A sequence of `n` zero quantities.
pub open spec fn zero_vals(n: int) -> Seq<(int, int)> {
    Seq::new(n as nat, |i: int| (0int, 1int))
}

/// The matrix columns gathered by the accumulation pass over `f` from
/// position `i`: each separator flushes the working table `(ks, vs)` as one
/// column and resets it to a zeroed copy of the master keys `mk`; the side
/// divider flips the sign applied to every later quantity; the last molecule
/// is flushed when the input ends.
pub open spec fn spec_pass2(
    f: Seq<u8>,
    i: int,
    mk: Seq<Seq<u8>>,
    ks: Seq<Seq<u8>>,
    vs: Seq<(int, int)>,
    sign: (int, int),
    cols: Seq<Seq<(int, int)>>,
) -> Result<Seq<Seq<(int, int)>>, EqError>
    decreases f.len() - i,
        when 0 <= i <= f.len()
        via spec_pass2_dec
{
    if i >= f.len() {
        Ok(cols.push(vs))
    } else {
        let t = spec_next(f, i).0;
        let j = spec_next(f, i).1;
        match t {
            TokenModel::Symbol { name, qty, .. } => match q_mul(qty, sign) {
                None => Err(EqError::Overflow),
                Some(p) => match tbl_add(ks, vs, name, p) {
                    None => Err(EqError::Overflow),
                    Some(kv) => spec_pass2(f, j, mk, kv.0, kv.1, sign, cols),
                },
            },
            TokenModel::Group { ilo, ihi, qty, .. } => match q_mul(qty, sign) {
                None => Err(EqError::Overflow),
                Some(s2) => match spec_expand(f.subrange(ilo, ihi), 0, ks, vs, s2) {
                    Err(e) => Err(e),
                    Ok(kv) => spec_pass2(f, j, mk, kv.0, kv.1, sign, cols),
                },
            },
            TokenModel::Separator { byte } => spec_pass2(
                f,
                j,
                mk,
                mk,
                zero_vals(mk.len() as int),
                if byte == 61 {
                    (-1int, 1int)
                } else {
                    sign
                },
                cols.push(vs),
            ),
            TokenModel::Whitespace => spec_pass2(f, j, mk, ks, vs, sign, cols),
            TokenModel::BadCharge { lo, hi } => Err(
                EqError::Structure { lo: lo as usize, hi: hi as usize },
            ),
            TokenModel::Invalid { lo, hi } => Err(
                EqError::InvalidToken { lo: lo as usize, hi: hi as usize },
            ),
            TokenModel::Error { lo, hi } => Err(
                EqError::NumberFormat { lo: lo as usize, hi: hi as usize },
            ),
        }
    }
}

#[via_fn]
proof fn spec_pass2_dec(
    f: Seq<u8>,
    i: int,
    mk: Seq<Seq<u8>>,
    ks: Seq<Seq<u8>>,
    vs: Seq<(int, int)>,
    sign: (int, int),
    cols: Seq<Seq<(int, int)>>,
) {
    if i < f.len() {
        lemma_next_bounds(f, i);
    }
}

/// The pair model of a sequence of columns.
pub open spec fn cols_model(c: Seq<Vec<Rat>>) -> Seq<Seq<(int, int)>> {
    c.map_values(|col: Vec<Rat>| col@.map_values(|x: Rat| x@))
}

/// Accumulation pass: walks the full equation, building one column of exact
/// signed quantities per molecule, exactly as `spec_pass2` describes.  Every
/// returned column is at least as long as the master table and holds only
/// representable values.
#[verifier::loop_isolation(false)]
pub fn collect_columns(f: &[u8], master: &SymTable) -> (r: Result<Vec<Vec<Rat>>, EqError>)
    requires
        master.wf(),
    ensures
        ({
            let m = spec_pass2(
                f@,
                0,
                master.keys(),
                master.keys(),
                zero_vals(master.keys().len() as int),
                (1int, 1int),
                Seq::empty(),
            );
            match r {
                Ok(cols) => m == Ok::<Seq<Seq<(int, int)>>, EqError>(cols_model(cols@)) && forall|
                    c: int,
                |
                    0 <= c < cols@.len() ==> (#[trigger] cols@[c])@.len()
                        >= master.keys().len() && forall|e: int|
                        0 <= e < cols@[c]@.len() ==> (#[trigger] cols@[c]@[e]).wf(),
                Err(e) => m == Err::<Seq<Seq<(int, int)>>, EqError>(e),
            }
        }),
        r matches Ok(cols) ==> cols@.len() >= 1,
{
    let mut table = master.zero_clone();
    let mut sign = Rat::one();
    let mut cols: Vec<Vec<Rat>> = Vec::new();
    let mut it = TokenIterator::new(f);
    proof {
        assert(cols_model(cols@) =~= Seq::<Seq<(int, int)>>::empty());
    }
    loop
        invariant
            it.inv(),
            it.formula_view() == f@,
            master.wf(),
            table.wf(),
            sign.wf(),
            table.keys().len() >= master.keys().len(),
            forall|c: int|
                0 <= c < cols@.len() ==> (#[trigger] cols@[c])@.len() >= master.keys().len()
                    && forall|e: int| 0 <= e < cols@[c]@.len() ==> (#[trigger] cols@[c]@[e]).wf(),
            spec_pass2(
                f@,
                0,
                master.keys(),
                master.keys(),
                zero_vals(master.keys().len() as int),
                (1int, 1int),
                Seq::empty(),
            ) == spec_pass2(
                f@,
                it.pos(),
                master.keys(),
                table.keys(),
                table.quantities(),
                sign@,
                cols_model(cols@),
            ),
        decreases f@.len() - it.pos(),
    {
        match it.next() {
            None => {
                let ghost before = cols_model(cols@);
                let col = table.values();
                cols.push(col);
                proof {
                    assert(cols_model(cols@) =~= before.push(table.quantities()));
                }
                return Ok(cols);
            },
            Some(tok) => {
                match tok {
                    TokenType::Symbol { name, qty, .. } => {
                        let p = match qty.mul(sign) {
                            Some(p) => p,
                            None => {
                                return Err(EqError::Overflow);
                            },
                        };
                        if !table.accumulate(name, p) {
                            return Err(EqError::Overflow);
                        }
                    },
                    TokenType::Group { ilo, ihi, qty, .. } => {
                        let s2 = match qty.mul(sign) {
                            Some(p) => p,
                            None => {
                                return Err(EqError::Overflow);
                            },
                        };
                        let inner = slice_subrange(f, ilo, ihi);
                        match parse_group(inner, &mut table, s2) {
                            Ok(()) => {},
                            Err(e) => {
                                return Err(e);
                            },
                        }
                    },
                    TokenType::Separator { byte } => {
                        let ghost before = cols_model(cols@);
                        let col = table.values();
                        cols.push(col);
                        proof {
                            assert(cols_model(cols@) =~= before.push(table.quantities()));
                        }
                        table = master.zero_clone();
                        if byte == 61 {
                            sign = Rat::one().neg();
                        }
                    },
                    TokenType::Whitespace => {},
                    TokenType::BadCharge { lo, hi } => {
                        return Err(EqError::Structure { lo, hi });
                    },
                    TokenType::Invalid { lo, hi } => {
                        return Err(EqError::InvalidToken { lo, hi });
                    },
                    TokenType::Error { lo, hi } => {
                        return Err(EqError::NumberFormat { lo, hi });
                    },
                }
            },
        }
    }
}

/// The input with every whitespace byte removed, scanning from `i`.
pub open spec fn strip_ws(s: Seq<u8>, i: int) -> Seq<u8>
    decreases s.len() - i,
        when 0 <= i <= s.len()
{
    if i >= s.len() {
        Seq::empty()
    } else if is_space(s[i]) {
        strip_ws(s, i + 1)
    } else {
        seq![s[i]] + strip_ws(s, i + 1)
    }
}

/// Removes every tab, newline, carriage return and space byte, keeping all
/// other bytes in order.
#[verifier::loop_isolation(false)]
pub fn remove_whitespace(s: &[u8]) -> (r: Vec<u8>)
    ensures
        r@ == strip_ws(s@, 0),
{
    let mut r: Vec<u8> = Vec::new();
    let n = s.len();
    let mut k: usize = 0;
    proof {
        assert(Seq::<u8>::empty() + strip_ws(s@, 0) =~= strip_ws(s@, 0));
    }
    while k < n
        invariant
            k <= n,
            n == s@.len(),
            strip_ws(s@, 0) == r@ + strip_ws(s@, k as int),
        decreases n - k,
    {
        let ghost rold = r@;
        let c = s[k];
        if !(c == 9 || c == 10 || c == 13 || c == 32) {
            r.push(c);
            proof {
                assert(rold + strip_ws(s@, k as int) =~= r@ + strip_ws(s@, k as int + 1));
            }
        }
        k = k + 1;
    }
    proof {
        assert(r@ + strip_ws(s@, n as int) =~= r@);
    }
    r
}

/// Whether any byte from position `i` on lies outside 7-bit ASCII.
pub open spec fn has_non_ascii(s: Seq<u8>, i: int) -> bool
    decreases s.len() - i,
        when 0 <= i <= s.len()
{
    if i >= s.len() {
        false
    } else {
        s[i] > 127 || has_non_ascii(s, i + 1)
    }
}

/// Number of side-divider (`=`) bytes from position `i` on.
pub open spec fn count_divider(s: Seq<u8>, i: int) -> int
    decreases s.len() - i,
        when 0 <= i <= s.len()
{
    if i >= s.len() {
        0
    } else {
        (if s[i] == 61 {
            1int
        } else {
            0int
        }) + count_divider(s, i + 1)
    }
}

/// Position of the first side-divider byte at or after `i`, or the length.
pub open spec fn first_divider(s: Seq<u8>, i: int) -> int
    decreases s.len() - i,
        when 0 <= i <= s.len()
{
    if i >= s.len() || s[i] == 61 {
        i
    } else {
        first_divider(s, i + 1)
    }
}

/// The precondition violated by the raw equation bytes, when any: the bytes
/// must be pure ASCII, hold exactly one side divider, and that divider may
/// stand at neither end.
pub open spec fn spec_precheck(s: Seq<u8>) -> Option<EqError> {
    if has_non_ascii(s, 0) {
        Some(EqError::Precondition { kind: PrecondKind::NonAscii })
    } else if count_divider(s, 0) != 1 {
        Some(EqError::Precondition { kind: PrecondKind::DividerCount })
    } else if first_divider(s, 0) == 0 || first_divider(s, 0) == s.len() - 1 {
        Some(EqError::Precondition { kind: PrecondKind::DividerPosition })
    } else {
        None
    }
}

fn has_non_ascii_exec(s: &[u8], i: usize) -> (r: bool)
    requires
        i <= s@.len(),
    ensures
        r == has_non_ascii(s@, i as int),
    decreases s@.len() - i,
{
    if i >= s.len() {
        false
    } else if s[i] > 127 {
        true
    } else {
        has_non_ascii_exec(s, i + 1)
    }
}

fn count_divider_exec(s: &[u8], i: usize) -> (r: usize)
    requires
        i <= s@.len(),
    ensures
        r as int == count_divider(s@, i as int),
        r as int <= s@.len() - i,
    decreases s@.len() - i,
{
    if i >= s.len() {
        0
    } else {
        let rest = count_divider_exec(s, i + 1);
        if s[i] == 61 {
            rest + 1
        } else {
            rest
        }
    }
}

fn first_divider_exec(s: &[u8], i: usize) -> (r: usize)
    requires
        i <= s@.len(),
    ensures
        r as int == first_divider(s@, i as int),
        i <= r <= s@.len(),
    decreases s@.len() - i,
{
    if i >= s.len() {
        i
    } else if s[i] == 61 {
        i
    } else {
        first_divider_exec(s, i + 1)
    }
}

/// Checks the raw-input preconditions, exactly as `spec_precheck` says.
pub fn precheck(s: &[u8]) -> (r: Option<EqError>)
    ensures
        r == spec_precheck(s@),
{
    if has_non_ascii_exec(s, 0) {
        Some(EqError::Precondition { kind: PrecondKind::NonAscii })
    } else if count_divider_exec(s, 0) != 1 {
        Some(EqError::Precondition { kind: PrecondKind::DividerCount })
    } else {
        let fd = first_divider_exec(s, 0);
        if fd == 0 || fd == s.len() - 1 {
            Some(EqError::Precondition { kind: PrecondKind::DividerPosition })
        } else {
            None
        }
    }
}

/// The stoichiometric matrix built from the first `c` molecule columns:
/// one row per element, entries in term order.
pub open spec fn build_cols(cols: Seq<Seq<(int, int)>>, n: int, c: int) -> MatModel {
    Seq::new(n as nat, |r: int| Seq::new(c as nat, |cc: int| cols[cc][r]))
}

/// The full augmented matrix: every molecule column plus the all-zero
/// augmentation column.
pub open spec fn build_aug(cols: Seq<Seq<(int, int)>>, n: int) -> MatModel {
    Seq::new(n as nat, |r: int| Seq::new(cols.len(), |cc: int| cols[cc][r]).push((0int, 1int)))
}

/// The balance of one whitespace-free equation: after the raw-input
/// preconditions, the element symbols are discovered, the signed quantities
/// of each molecule are accumulated into matrix columns, and the augmented
/// system is reduced and solved into one integer coefficient per molecule,
/// in term order.  An equation whose atoms cancel everywhere has no element
/// rows and is reported as having only the trivial balance.
pub open spec fn spec_solve_equation(s: Seq<u8>) -> Result<Seq<int>, EqError> {
    match spec_precheck(s) {
        Some(e) => Err(e),
        None => match spec_pass1(s, 0, Seq::empty(), Seq::empty()) {
            Err(e) => Err(e),
            Ok(master) => {
                if master.0.len() == 0 {
                    Err(EqError::TrivialSolution)
                } else {
                    match spec_pass2(
                        s,
                        0,
                        master.0,
                        master.0,
                        zero_vals(master.0.len() as int),
                        (1int, 1int),
                        Seq::empty(),
                    ) {
                        Err(e) => Err(e),
                        Ok(cols) => {
                            let m = build_aug(cols, master.0.len() as int);
                            match spec_rref(m) {
                                None => Err(EqError::Overflow),
                                Some(m2) => match spec_solve(m2) {
                                    Err(e) => Err(e),
                                    Ok(p) => Ok(p.0),
                                },
                            }
                        },
                    }
                }
            }
        },
    }
}

/// Balances one equation, exactly as `spec_solve_equation` describes.  The
/// result is deterministic: it is a function of the input bytes alone.  The
/// precondition failures are also stated directly: non-ASCII input, a
/// side-divider count other than one, and a side divider at either end are
/// each rejected with the corresponding error.
/// Solving is deterministic: the balance is a function of the input bytes
/// alone, so two runs over the same equation yield identical results.
pub proof fn lemma_solve_deterministic(
    eq: Seq<u8>,
    r1: Result<Seq<int>, EqError>,
    r2: Result<Seq<int>, EqError>,
)
    requires
        r1 == spec_solve_equation(eq),
        r2 == spec_solve_equation(eq),
    ensures
        r1 == r2,
{
}

#[verifier::loop_isolation(false)]
pub fn solve_equation(eq: &[u8]) -> (r: Result<Vec<i64>, EqError>)
    ensures
        match r {
            Ok(v) => spec_solve_equation(eq@) == Ok::<Seq<int>, EqError>(ints_model(v@)),
            Err(e) => spec_solve_equation(eq@) == Err::<Seq<int>, EqError>(e),
        },
        has_non_ascii(eq@, 0) ==> r == Err::<Vec<i64>, EqError>(
            EqError::Precondition { kind: PrecondKind::NonAscii },
        ),
        !has_non_ascii(eq@, 0) && count_divider(eq@, 0) != 1 ==> r == Err::<Vec<i64>, EqError>(
            EqError::Precondition { kind: PrecondKind::DividerCount },
        ),
        !has_non_ascii(eq@, 0) && count_divider(eq@, 0) == 1 && (first_divider(eq@, 0) == 0
            || first_divider(eq@, 0) == eq@.len() - 1) ==> r == Err::<Vec<i64>, EqError>(
            EqError::Precondition { kind: PrecondKind::DividerPosition },
        ),
{
    match precheck(eq) {
        Some(e) => {
            return Err(e);
        },
        None => {},
    }
    let mut master = SymTable::new();
    match discover_symbols(eq, &mut master) {
        Ok(()) => {},
        Err(e) => {
            return Err(e);
        },
    }
    let n = master.len();
    if n == 0 {
        return Err(EqError::TrivialSolution);
    }
    let cols = match collect_columns(eq, &master) {
        Ok(c) => c,
        Err(e) => {
            return Err(e);
        },
    };
    let ghost colsm = cols_model(cols@);
    let mut mat = Augmented::new(n);
    proof {
        assert(mat.model() =~~= build_cols(colsm, n as int, 0));
    }
    let mut c: usize = 0;
    while c < cols.len()
        invariant
            c as int <= colsm.len(),
            mat.rows() == n as int,
            mat.width() == c as int,
            mat.dims_ok(),
            mat.fits(),
            mat.model() == build_cols(colsm, n as int, c as int),
        decreases colsm.len() - c,
    {
        let ghost mbefore = mat.model();
        let col = &cols[c];
        proof {
            assert(colsm[c as int] == cols_model(cols@)[c as int]);
            assert forall|rr: int| 0 <= rr < col@.len() implies (#[trigger] col@[rr])@
                == colsm[c as int][rr] by {
                assert(colsm[c as int][rr] == cols@[c as int]@[rr]@);
            }
        }
        mat.add_column(col);
        proof {
            assert forall|rr: int| 0 <= rr < n as int implies #[trigger] mat.model()[rr]
                == build_cols(colsm, n as int, c as int + 1)[rr] by {
                assert(mat.model()[rr] == mbefore[rr].push(col@[rr]@));
                assert(build_cols(colsm, n as int, c as int + 1)[rr] =~= build_cols(
                    colsm,
                    n as int,
                    c as int,
                )[rr].push(colsm[c as int][rr]));
            }
            assert(mat.model() =~= build_cols(colsm, n as int, c as int + 1));
        }
        c = c + 1;
    }
    let ghost mcols = mat.model();
    mat.augment();
    proof {
        assert forall|rr: int| 0 <= rr < n as int implies #[trigger] mat.model()[rr] == build_aug(
            colsm,
            n as int,
        )[rr] by {
            assert(mat.model()[rr] == mcols[rr].push((0int, 1int)));
            assert(build_aug(colsm, n as int)[rr] =~= build_cols(
                colsm,
                n as int,
                colsm.len() as int,
            )[rr].push((0int, 1int)));
        }
        assert(mat.model() =~= build_aug(colsm, n as int));
    }
    if !mat.row_reduce() {
        return Err(EqError::Overflow);
    }
    match mat.solve() {
        Ok(v) => Ok(v),
        Err(e) => Err(e),
    }
}

} // verus!
