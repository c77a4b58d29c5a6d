use balancer::equation::{parse_group, remove_whitespace, solve_equation, EqError, PrecondKind};
use balancer::parser::{parse_num, TokenIterator, TokenType};
use balancer::rat::Rat;
use balancer::solve::Augmented;
use balancer::table::SymTable;

fn solve_str(s: &str) -> Result<Vec<i64>, EqError> {
    solve_equation(s.as_bytes())
}

#[test]
fn balanced_as_written_round_trip() {
    // A reaction whose written coefficients already include the needed 2.
    assert_eq!(solve_str("H2+Cl2=HCl"), Ok(vec![1, 1, 2]));
}

#[test]
fn water_formation() {
    assert_eq!(solve_str("H2+O2=H2O"), Ok(vec![2, 1, 2]));
}

#[test]
fn phosphoric_acid() {
    assert_eq!(solve_str("P4O10+H2O=H3PO4"), Ok(vec![1, 6, 4]));
}

#[test]
fn calcium_phosphate() {
    assert_eq!(solve_str("Ca(OH)2+H3PO4=Ca3(PO4)2+H2O"), Ok(vec![3, 2, 1, 6]));
}

#[test]
fn solving_twice_gives_identical_vectors() {
    let a = solve_str("C3H8+O2=CO2+H2O");
    let b = solve_str("C3H8+O2=CO2+H2O");
    assert_eq!(a, b);
    assert_eq!(a, Ok(vec![1, 5, 3, 4]));
}

#[test]
fn decimal_quantity_parses_to_exact_fraction() {
    let q = parse_num(b"2.5").unwrap();
    assert_eq!(q.numer(), 5);
    assert_eq!(q.denom(), 2);
}

#[test]
fn rational_constructor_reduces() {
    let q = Rat::new(25, 10).unwrap();
    assert_eq!(q.numer(), 5);
    assert_eq!(q.denom(), 2);
}

#[test]
fn empty_quantity_literal_means_one() {
    let q = parse_num(b"").unwrap();
    assert_eq!(q.numer(), 1);
    assert_eq!(q.denom(), 1);
}

#[test]
fn leading_dot_and_trailing_zeros_are_exact() {
    let q = parse_num(b".50").unwrap();
    assert_eq!(q.numer(), 1);
    assert_eq!(q.denom(), 2);
}

#[test]
fn lone_dot_is_rejected() {
    assert!(parse_num(b".").is_none());
    assert!(parse_num(b"1.2.3").is_none());
}

#[test]
fn nested_group_expands_into_per_element_quantities() {
    let mut t = SymTable::new();
    assert!(parse_group(b"Ca(OH)2", &mut t, Rat::one()).is_ok());
    let ca = t.get(&b"Ca".to_vec()).unwrap();
    let o = t.get(&b"O".to_vec()).unwrap();
    let h = t.get(&b"H".to_vec()).unwrap();
    assert_eq!((ca.numer(), ca.denom()), (1, 1));
    assert_eq!((o.numer(), o.denom()), (2, 1));
    assert_eq!((h.numer(), h.denom()), (2, 1));
}

#[test]
fn hydrate_group_scales_by_leading_quantity() {
    let mut t = SymTable::new();
    assert!(parse_group(b"CuSO4*5H2O", &mut t, Rat::one()).is_ok());
    let cu = t.get(&b"Cu".to_vec()).unwrap();
    let s = t.get(&b"S".to_vec()).unwrap();
    let o = t.get(&b"O".to_vec()).unwrap();
    let h = t.get(&b"H".to_vec()).unwrap();
    assert_eq!(cu.numer(), 1);
    assert_eq!(s.numer(), 1);
    assert_eq!((o.numer(), o.denom()), (9, 1));
    assert_eq!((h.numer(), h.denom()), (10, 1));
}

#[test]
fn charge_with_trailing_plus_is_positive() {
    let mut it = TokenIterator::new(b"{2+}");
    match it.next() {
        Some(TokenType::Symbol { name, qty, .. }) => {
            assert_eq!(name, b"charge".to_vec());
            assert_eq!((qty.numer(), qty.denom()), (2, 1));
        }
        other => panic!("expected a charge symbol, got {:?}", kind_of(&other)),
    }
}

#[test]
fn bare_minus_charge_is_negative_one() {
    let mut it = TokenIterator::new(b"{-}");
    match it.next() {
        Some(TokenType::Symbol { name, qty, .. }) => {
            assert_eq!(name, b"charge".to_vec());
            assert_eq!((qty.numer(), qty.denom()), (-1, 1));
        }
        other => panic!("expected a charge symbol, got {:?}", kind_of(&other)),
    }
}

#[test]
fn mixed_sign_run_without_digits_is_malformed() {
    let mut it = TokenIterator::new(b"{+-}");
    assert!(matches!(it.next(), Some(TokenType::BadCharge { .. })));
}

#[test]
fn malformed_charge_in_equation_is_a_structure_error() {
    assert!(matches!(solve_str("H{+-}+O=HO"), Err(EqError::Structure { .. })));
}

#[test]
fn charges_balance_like_atoms() {
    assert_eq!(solve_str("H{+}+OH{-}=H2O"), Ok(vec![1, 1, 1]));
}

#[test]
fn separator_inside_group_is_a_structure_error() {
    assert!(matches!(solve_str("(H+O)=HO"), Err(EqError::Structure { .. })));
}

#[test]
fn unbalanceable_equation_has_only_the_trivial_solution() {
    assert_eq!(solve_str("Na=Cl"), Err(EqError::TrivialSolution));
}

#[test]
fn equation_without_atoms_has_only_the_trivial_solution() {
    assert_eq!(solve_str("+=+"), Err(EqError::TrivialSolution));
}

#[test]
fn two_side_dividers_violate_the_preconditions() {
    assert_eq!(
        solve_str("H2+O2=H2O=O2"),
        Err(EqError::Precondition { kind: PrecondKind::DividerCount })
    );
}

#[test]
fn divider_at_the_first_byte_violates_the_preconditions() {
    assert_eq!(
        solve_str("=H2O"),
        Err(EqError::Precondition { kind: PrecondKind::DividerPosition })
    );
}

#[test]
fn divider_at_the_last_byte_violates_the_preconditions() {
    assert_eq!(
        solve_str("H2O="),
        Err(EqError::Precondition { kind: PrecondKind::DividerPosition })
    );
}

#[test]
fn non_ascii_input_violates_the_preconditions() {
    let input: Vec<u8> = vec![72, 50, 0xff, 61, 72, 50];
    assert_eq!(
        solve_equation(&input),
        Err(EqError::Precondition { kind: PrecondKind::NonAscii })
    );
}

#[test]
fn malformed_decimal_is_a_number_format_error() {
    assert!(matches!(solve_str("H1.2.3+O=O"), Err(EqError::NumberFormat { .. })));
}

#[test]
fn unknown_byte_is_an_invalid_token_error() {
    assert!(matches!(solve_str("H2+&=O"), Err(EqError::InvalidToken { .. })));
}

#[test]
fn quantity_sum_past_the_integer_range_overflows() {
    assert_eq!(solve_str("H9223372036854775807H2=H"), Err(EqError::Overflow));
}

#[test]
fn fractional_hydrate_quantities_are_exact() {
    assert_eq!(solve_str("O*0.5O2=O2"), Ok(vec![1, 1]));
}

#[test]
fn whitespace_is_stripped_before_solving() {
    let cleaned = remove_whitespace(b" H 2\tO\r\n");
    assert_eq!(cleaned, b"H2O".to_vec());
}

#[test]
fn tokenizer_splits_symbols_and_quantities() {
    let mut it = TokenIterator::new(b"H2O");
    match it.next() {
        Some(TokenType::Symbol { name, qty, .. }) => {
            assert_eq!(name, b"H".to_vec());
            assert_eq!((qty.numer(), qty.denom()), (2, 1));
        }
        other => panic!("expected a symbol, got {:?}", kind_of(&other)),
    }
    match it.next() {
        Some(TokenType::Symbol { name, qty, .. }) => {
            assert_eq!(name, b"O".to_vec());
            assert_eq!((qty.numer(), qty.denom()), (1, 1));
        }
        other => panic!("expected a symbol, got {:?}", kind_of(&other)),
    }
    assert!(it.next().is_none());
}

#[test]
fn tokenizer_reports_group_spans_and_quantities() {
    let mut it = TokenIterator::new(b"(OH)2");
    match it.next() {
        Some(TokenType::Group { ilo, ihi, lo, hi, qty }) => {
            assert_eq!((ilo, ihi), (1, 3));
            assert_eq!((lo, hi), (0, 5));
            assert_eq!((qty.numer(), qty.denom()), (2, 1));
        }
        other => panic!("expected a group, got {:?}", kind_of(&other)),
    }
}

#[test]
fn tokenizer_is_restartable() {
    let text = b"H2+O2=H2O";
    let mut a = TokenIterator::new(text);
    let mut b = TokenIterator::new(text);
    loop {
        match (a.next(), b.next()) {
            (None, None) => break,
            (Some(TokenType::Symbol { name: n1, .. }), Some(TokenType::Symbol { name: n2, .. })) => {
                assert_eq!(n1, n2)
            }
            (Some(TokenType::Separator { byte: s1 }), Some(TokenType::Separator { byte: s2 })) => {
                assert_eq!(s1, s2)
            }
            _ => panic!("the two scans disagree"),
        }
    }
}

#[test]
fn merged_separator_run_keeps_its_first_byte() {
    let mut it = TokenIterator::new(b"+=");
    match it.next() {
        Some(TokenType::Separator { byte }) => assert_eq!(byte, b'+'),
        other => panic!("expected a separator, got {:?}", kind_of(&other)),
    }
    assert!(it.next().is_none());
}

#[test]
fn matrix_solves_a_concrete_system() {
    // The water system: rows H and O, columns H2, O2, H2O.
    let two = Rat::new(2, 1).unwrap();
    let zero = Rat::zero();
    let mut mat = Augmented::new(2);
    mat.add_column(&vec![two, zero]);
    mat.add_column(&vec![zero, two]);
    mat.add_column(&vec![two.neg(), Rat::one().neg()]);
    mat.augment();
    assert!(mat.row_reduce());
    assert_eq!(mat.solve(), Ok(vec![2, 1, 2]));
}

fn kind_of(t: &Option<TokenType>) -> &'static str {
    match t {
        None => "end of input",
        Some(TokenType::Symbol { .. }) => "symbol",
        Some(TokenType::Group { .. }) => "group",
        Some(TokenType::Separator { .. }) => "separator",
        Some(TokenType::Whitespace) => "whitespace",
        Some(TokenType::BadCharge { .. }) => "malformed charge",
        Some(TokenType::Invalid { .. }) => "invalid",
        Some(TokenType::Error { .. }) => "number error",
    }
}
