use precyzja::dec::Dec;
use precyzja::helpers::split_strings_by_list;
use precyzja::{
    dzialanie, ile_cyfr_znaczacych, liczba, najmniej_dokladna_liczba, oblicz, oper, potegowanie,
    potegowanie_str_wrapper, stworz_dzial, zaokraglij, Blad,
};

fn d(mantysa: i128, skala: u32) -> Dec {
    Dec { mantysa, skala }
}

#[test]
fn lib_small_tworzenie_dzialania() {
    let dzial = dzialanie {
        liczby: vec![
            liczba::new(d(232, 3), false),
            liczba::new(d(5538, 3), false),
            liczba::new(d(432, 1), false),
        ],
        operacje: vec![oper::plus, oper::plus],
    };
    assert_eq!(stworz_dzial("0,232+5,538+43,2").unwrap(), dzial)
}

#[test]
fn lib_small_najmniej_dokladna_liczba_1() {
    assert_eq!(
        najmniej_dokladna_liczba(stworz_dzial("0,232+5,538+43,2").unwrap()),
        1
    );
}

#[test]
fn lib_small_najmniej_dokladna_liczba_2() {
    assert_eq!(
        najmniej_dokladna_liczba(stworz_dzial("0,00335+10,689-10").unwrap()),
        0
    );
}

// obliczanie_zaokraglanie
#[test]
fn oz1() {
    let dz = stworz_dzial("0,232+5,538+43,2").unwrap();
    let o = oblicz(dz.clone()).unwrap();
    assert_eq!(o.to_string(), "49.0");
}

#[test]
fn oz2() {
    let dz = stworz_dzial("0,00335 + 10,689 - 10").unwrap();
    let o = oblicz(dz.clone()).unwrap();
    assert_eq!(o.to_string(), "1");
}

#[test]
fn oz3() {
    let dz = stworz_dzial("66,45 + 1,05 - 2,225").unwrap();
    let o = oblicz(dz.clone()).unwrap();
    assert_eq!(o.to_string(), "65.28");
}

#[test]
fn oz4() {
    let dz = stworz_dzial("6,70002 + 11,00 + 2,295").unwrap();
    let o = oblicz(dz.clone()).unwrap();
    assert_eq!(o.to_string(), "20.00");
}

#[test]
fn oz5() {
    let dz = stworz_dzial("2,25 + 0,0073 + 0,0655").unwrap();
    let o = oblicz(dz.clone()).unwrap();
    assert_eq!(o.to_string(), "2.32");
}

#[test]
fn oz6() {
    let dz = stworz_dzial("12,56 / 4,2").unwrap();
    let o = oblicz(dz.clone()).unwrap();
    assert_eq!(o.to_string(), "3.0");
}

#[test]
fn oz7() {
    let dz = stworz_dzial("5,001 / d5").unwrap();
    let o = oblicz(dz.clone()).unwrap();
    assert_eq!(o.to_string(), "1.000");
}

#[test]
fn oz8() {
    let dz = stworz_dzial("2,2 * 9,337 / 0,0836").unwrap();
    let o = oblicz(dz.clone()).unwrap();
    assert_eq!(o.to_string(), "250");
}

#[test]
fn oz9() {
    let d1 = stworz_dzial("d15 * 0,526").unwrap();
    let o1 = oblicz(d1.clone()).unwrap();
    assert_eq!(o1.to_string(), "7.89");

    let d2 = stworz_dzial("d0,33 * 12,429").unwrap();
    let o2 = oblicz(d2.clone()).unwrap();
    assert_eq!(o2.to_string(), "4.1016");

    let d3 = stworz_dzial(&format!("{} / {}", o1.to_string(), o2.to_string())).unwrap();
    let o3 = oblicz(d3.clone()).unwrap();
    assert_eq!(o3.to_string(), "1.92");
}

#[test]
fn oz10() {
    assert_eq!(potegowanie(d(1002, 2), d(2, 0)).unwrap().to_string(), "100.4");
}

#[test]
fn oz11() {
    assert_eq!(potegowanie(d(1002, 2), d(5, 1)).unwrap().to_string(), "3.165");
}

#[test]
fn oz12() {
    assert_eq!(potegowanie(d(947, 3), d(3, 0)).unwrap().to_string(), "0.849");
}

#[test]
fn oz13() {
    assert_eq!(
        potegowanie(d(947, 3), d(333333, 6)).unwrap().to_string(),
        "0.982"
    );
}

#[test]
fn oz13_str() {
    assert_eq!(
        potegowanie_str_wrapper("0.947^0.333333".to_string())
            .unwrap()
            .to_string(),
        "0.982"
    );
}

// A single operand evaluates to its own value, unrounded.
#[test]
fn pojedynczy_operand_bez_zaokraglenia() {
    let dz = stworz_dzial("5,001").unwrap();
    assert_eq!(oblicz(dz).unwrap(), d(5001, 3));
}

// Mixing additive and multiplicative operators is rejected.
#[test]
fn mieszane_operatory() {
    let dz = stworz_dzial("1+2*3").unwrap();
    assert_eq!(oblicz(dz), Err(Blad::MixedOperatorKinds));
}

// An additive expression whose operands are all exact has no decimal-place
// bound.
#[test]
fn wszystkie_dokladne_bez_ograniczenia() {
    let dz = stworz_dzial("d1+d2").unwrap();
    assert_eq!(oblicz(dz), Err(Blad::UnboundedPrecisionRequested));
}

#[test]
fn dzielenie_przez_zero() {
    let dz = stworz_dzial("1/0").unwrap();
    assert_eq!(oblicz(dz), Err(Blad::DivisionByZero));
}

#[test]
fn puste_dzialanie() {
    let dz = dzialanie { liczby: vec![], operacje: vec![] };
    assert_eq!(oblicz(dz), Err(Blad::EmptyExpression));
}

#[test]
fn zly_operand() {
    assert_eq!(stworz_dzial("abc+1"), Err(Blad::InvalidNumber));
}

#[test]
fn zly_operator() {
    assert_eq!(oper::from_str("%"), Err(Blad::InvalidOperator));
    assert_eq!(oper::from_str("*"), Ok(oper::razy));
}

#[test]
fn potega_poza_zakresem() {
    assert_eq!(potegowanie(d(10, 0), d(50, 0)), Err(Blad::Overflow));
}

// A multiplicative expression whose operands are all exact has no
// significant-figure bound, just as an all-exact additive expression has no
// decimal-place bound.
#[test]
fn wszystkie_dokladne_multiplikatywne() {
    let dz = stworz_dzial("d2*d3").unwrap();
    assert_eq!(oblicz(dz), Err(Blad::UnboundedPrecisionRequested));
}

// Rounding a tiny base to its counted significant characters would need a
// scale beyond what a decimal can carry: the sign plus the leading
// fractional zeros push the count past the mantissa's digits.
#[test]
fn potega_skala_poza_zakresem() {
    assert_eq!(potegowanie(d(-5, 28), d(1, 0)), Err(Blad::Overflow));
}

// A fraction longer than the scale cap is rounded at the first digit that
// cannot be taken, not rejected.
#[test]
fn dluga_czesc_ulamkowa() {
    let dz = stworz_dzial("0,12345678901234567890123456789").unwrap();
    let o = oblicz(dz).unwrap();
    assert_eq!(o, d(1234567890123456789012345679, 28));
}

// The mantissa can also fill up before the scale cap is reached; rounding
// then happens at the digit that no longer fits.
#[test]
fn pelna_mantysa_ulamka() {
    let dz = stworz_dzial("1234567890123456789012345678,95").unwrap();
    let o = oblicz(dz).unwrap();
    assert_eq!(o.to_string(), "1234567890123456789012345679.0");
}

// Parsing, re-rendering each operand and operator and re-parsing gives an
// equal expression.
#[test]
fn obustronnosc_parsowania() {
    let dz = stworz_dzial("0,232+5,538*d43,2").unwrap();
    let mut tekst = String::new();
    for (i, l) in dz.liczby.iter().enumerate() {
        if i > 0 {
            tekst += &dz.operacje[i - 1].to_string();
        }
        if l.dokladna {
            tekst += "d";
        }
        tekst += &l.liczba.to_string();
    }
    assert_eq!(stworz_dzial(&tekst).unwrap(), dz);
}

#[test]
fn tokenizacja() {
    let (czesci, uzyte) = split_strings_by_list("ab+cd*e", oper::return_list());
    assert_eq!(czesci, vec!["ab".to_string(), "cd".to_string(), "e".to_string()]);
    assert_eq!(uzyte, vec!["+".to_string(), "*".to_string()]);
}

// The tokenizer silently drops empty fragments: a leading operator leaves
// one operand and one operator, a known quirk of the tokenizer rather than
// an error.
#[test]
fn pusty_fragment_pomijany() {
    let dz = stworz_dzial("+5").unwrap();
    assert_eq!(dz.liczby.len(), 1);
    assert_eq!(dz.operacje, vec![oper::plus]);
    assert_eq!(oblicz(dz).unwrap().to_string(), "5");
}

#[test]
fn znaczace_cyfry() {
    assert_eq!(ile_cyfr_znaczacych(d(1002, 2)), 4);
    assert_eq!(ile_cyfr_znaczacych(d(335, 5)), 3);
    assert_eq!(ile_cyfr_znaczacych(d(1100, 2)), 4);
    // Zero strips to nothing: counted as zero digits.
    assert_eq!(ile_cyfr_znaczacych(d(0, 2)), 0);
    // A negative number keeps its sign and every rendered digit.
    assert_eq!(ile_cyfr_znaczacych(d(-5, 1)), 3);
}

#[test]
fn tekst_dziesietnej() {
    assert_eq!(d(2000, 2).to_string(), "20.00");
    assert_eq!(d(1, 0).to_string(), "1");
    assert_eq!(d(335, 5).to_string(), "0.00335");
    assert_eq!(d(-5, 1).to_string(), "-0.5");
}

// Rounding a computed value by an expression with no operators selects no
// rule.
#[test]
fn zaokraglenie_bez_operatorow() {
    let dz = stworz_dzial("5").unwrap();
    assert_eq!(
        zaokraglij(liczba::new(d(5, 0), false), dz),
        Err(Blad::EmptyExpression)
    );
}

// The additive rounding of an already computed value over the full operand
// set, as the evaluator applies it at the end of the chain.
#[test]
fn zaokraglenie_addytywne() {
    let dz = stworz_dzial("0,232+5,538+43,2").unwrap();
    let wynik = zaokraglij(liczba::new(d(48970, 3), false), dz).unwrap();
    assert_eq!(wynik.liczba.to_string(), "49.0");
}

#[test]
fn normalizacja_bialych_znakow() {
    let a = stworz_dzial(" 1,5 + 2,5 ").unwrap();
    let b = stworz_dzial("1.5+2.5").unwrap();
    assert_eq!(a, b);
}

#[test]
fn lista_operatorow() {
    assert_eq!(
        oper::return_list(),
        vec!["+".to_string(), "-".to_string(), "*".to_string(), "/".to_string()]
    );
}
