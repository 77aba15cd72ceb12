use precyzja::dec::Dec;
use precyzja::prosty::{dzialanie, najmniej_dokladna_liczba, oblicz, oper, stworz_dzial, zaokraglij};

fn d(mantysa: i128, skala: u32) -> Dec {
    Dec { mantysa, skala }
}

#[test]
fn main_small_tworzenie_dzialania() {
    let dzial = dzialanie {
        liczby: vec![d(232, 3), d(5538, 3), d(432, 1)],
        operacje: vec![oper::plus, oper::plus],
    };
    assert_eq!(stworz_dzial("0,232+5,538+43,2").unwrap(), dzial)
}

#[test]
fn small_obliczanie_dodawanie() {
    assert_eq!(
        oblicz(stworz_dzial("0,232+5,538+43,2").unwrap()).unwrap(),
        d(48970, 3)
    );
}

#[test]
fn small_obliczanie_odejmowanie() {
    assert_eq!(
        oblicz(stworz_dzial("0,00335+10,689-10").unwrap()).unwrap(),
        d(69235, 5)
    );
}

#[test]
fn main_small_najmniej_dokladna_liczba_1() {
    assert_eq!(
        najmniej_dokladna_liczba(stworz_dzial("0,232+5,538+43,2").unwrap()),
        1
    );
}

#[test]
fn main_small_najmniej_dokladna_liczba_2() {
    assert_eq!(
        najmniej_dokladna_liczba(stworz_dzial("0,00335+10,689-10").unwrap()),
        0
    );
}

// obliczanie_dodawanie_zaokraglanie
#[test]
fn odz1() {
    let dz = stworz_dzial("0,232+5,538+43,2").unwrap();
    let o = oblicz(dz.clone()).unwrap();
    assert_eq!(zaokraglij(o, dz).unwrap().to_string(), "49.0");
}

#[test]
fn odz2() {
    let dz = stworz_dzial("0,00335 + 10,689 - 10").unwrap();
    let o = oblicz(dz.clone()).unwrap();
    assert_eq!(zaokraglij(o, dz).unwrap().to_string(), "1");
}

#[test]
fn odz3() {
    let dz = stworz_dzial("66,45 + 1,05 - 2,225").unwrap();
    let o = oblicz(dz.clone()).unwrap();
    assert_eq!(zaokraglij(o, dz).unwrap().to_string(), "65.28");
}

#[test]
fn odz4() {
    let dz = stworz_dzial("6,70002 + 11,00 + 2,295").unwrap();
    let o = oblicz(dz.clone()).unwrap();
    assert_eq!(zaokraglij(o, dz).unwrap().to_string(), "20.00");
}

#[test]
fn odz5() {
    let dz = stworz_dzial("2,25 + 0,0073 + 0,0655").unwrap();
    let o = oblicz(dz.clone()).unwrap();
    assert_eq!(zaokraglij(o, dz).unwrap().to_string(), "2.32");
}

// The reduced calculator accepts no exactness marks and no multiplicative
// symbols: `d` and `*` are not recognized there.
#[test]
fn prosty_odrzuca_znaczniki() {
    assert!(stworz_dzial("d15+1").is_err());
    assert!(stworz_dzial("2*3").is_err());
}

// Rounding with no operands at all has no decimal-place bound.
#[test]
fn prosty_zaokraglenie_bez_operandow() {
    let dz = dzialanie { liczby: vec![], operacje: vec![] };
    assert!(zaokraglij(d(5, 0), dz).is_err());
}
