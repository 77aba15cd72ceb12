//! Text handling for decimal operands: normalization of the input (comma to
//! period, whitespace dropped), parsing of a plain decimal literal into a
//! mantissa and scale, and rendering a number back to its canonical text.

use vstd::prelude::*;

use crate::dec::{dv, pow10, Dec, DecV, MAKS_MANTYSA, MAKS_SKALA};
use crate::dec::{lemma_pow10_dodatnia, lemma_pow10_rosnie, widok_opt};
use crate::helpers::dopisz_znak;

verus! {

pub open spec fn czy_cyfra(c: char) -> bool {
    '0' <= c && c <= '9'
}

pub open spec fn wartosc_cyfry(c: char) -> int {
    c as int - '0' as int
}

pub open spec fn same_cyfry(s: Seq<char>) -> bool {
    forall|i: int| 0 <= i < s.len() ==> czy_cyfra(#[trigger] s[i])
}

/// The number written by a digit string, most significant digit first.
pub open spec fn wartosc_cyfr(s: Seq<char>) -> int
    decreases s.len(),
{
    if s.len() == 0 {
        0
    } else {
        10 * wartosc_cyfr(s.drop_last()) + wartosc_cyfry(s.last())
    }
}

pub proof fn lemma_wartosc_nieujemna(s: Seq<char>)
    requires
        same_cyfry(s),
    ensures
        wartosc_cyfr(s) >= 0,
    decreases s.len(),
{
    if s.len() > 0 {
        assert(same_cyfry(s.drop_last()));
        lemma_wartosc_nieujemna(s.drop_last());
    }
}

pub proof fn lemma_wartosc_prefiksu(s: Seq<char>, t: int)
    requires
        same_cyfry(s),
        0 <= t <= s.len(),
    ensures
        wartosc_cyfr(s.take(t)) <= wartosc_cyfr(s),
    decreases s.len() - t,
{
    if t < s.len() {
        assert(s.take(t + 1).drop_last() =~= s.take(t));
        assert(same_cyfry(s.take(t + 1)));
        lemma_wartosc_nieujemna(s.take(t));
        assert(wartosc_cyfr(s.take(t)) <= wartosc_cyfr(s.take(t + 1)));
        lemma_wartosc_prefiksu(s, t + 1);
    } else {
        assert(s.take(t) =~= s);
    }
}

/// The position of the first decimal point at or after `k`.
pub open spec fn indeks_kropki(s: Seq<char>, k: int) -> Option<int>
    decreases s.len() - k,
{
    if k < 0 || k >= s.len() {
        None
    } else if s[k] == '.' {
        Some(k)
    } else {
        indeks_kropki(s, k + 1)
    }
}

proof fn lemma_indeks_kropki_z(s: Seq<char>, k: int, j: int)
    requires
        0 <= k <= j <= s.len(),
        forall|t: int| k <= t < j ==> #[trigger] s[t] != '.',
        j < s.len() ==> s[j] == '.',
    ensures
        j < s.len() ==> indeks_kropki(s, k) == Some(j),
        j == s.len() ==> indeks_kropki(s, k) is None,
    decreases j - k,
{
    if k < j {
        lemma_indeks_kropki_z(s, k + 1, j);
    }
}

pub proof fn lemma_indeks_kropki_bez(s: Seq<char>)
    requires
        forall|t: int| 0 <= t < s.len() ==> #[trigger] s[t] != '.',
    ensures
        indeks_kropki(s, 0) is None,
{
    lemma_indeks_kropki_z(s, 0, s.len() as int);
}

pub proof fn lemma_indeks_kropki_pierwsza(s: Seq<char>, i: int)
    requires
        0 <= i < s.len(),
        s[i] == '.',
        forall|t: int| 0 <= t < i ==> #[trigger] s[t] != '.',
    ensures
        indeks_kropki(s, 0) == Some(i),
{
    lemma_indeks_kropki_z(s, 0, i);
}

/// The literal grammar: digits, with at most one decimal point that has a
/// digit on each side.
pub open spec fn ksztalt_literalu(s: Seq<char>) -> bool {
    match indeks_kropki(s, 0) {
        None => s.len() >= 1 && same_cyfry(s),
        Some(i) => 1 <= i && i + 1 < s.len() && same_cyfry(s.take(i)) && same_cyfry(s.skip(i + 1)),
    }
}

/// The digits before the decimal point (the whole text when there is none).
pub open spec fn czesc_calkowita(s: Seq<char>) -> Seq<char> {
    match indeks_kropki(s, 0) {
        None => s,
        Some(i) => s.take(i),
    }
}

/// The digits after the decimal point, if any.
pub open spec fn czesc_ulamkowa(s: Seq<char>) -> Seq<char> {
    match indeks_kropki(s, 0) {
        None => Seq::empty(),
        Some(i) => s.skip(i + 1),
    }
}

/// Rounding at the first fractional digit that cannot be taken: the
/// magnitude goes up when that digit is five or more, and a carry that
/// leaves the mantissa range drops one more place (impossible at scale
/// zero).
pub open spec fn zaokraglona_resztka(m: int, nastepna: int, skala: nat) -> Option<DecV> {
    if nastepna >= 5 {
        if m + 1 > MAKS_MANTYSA as int {
            if skala == 0 {
                None
            } else {
                Some(dv((m + 5) / 10, (skala - 1) as nat))
            }
        } else {
            Some(dv(m + 1, skala))
        }
    } else {
        Some(dv(m, skala))
    }
}

/// Consuming the fractional digits onto the mantissa `m`: the scan stops
/// with a rounding step when the next digit would push the mantissa past
/// the representable range, or when the scale cap is reached with digits
/// left over.
pub open spec fn przytnij(m: int, frakcja: Seq<char>, skala: nat) -> Option<DecV>
    decreases frakcja.len(),
{
    if frakcja.len() == 0 {
        Some(dv(m, skala))
    } else {
        let d = wartosc_cyfry(frakcja[0]);
        if m * 10 + d > MAKS_MANTYSA as int {
            zaokraglona_resztka(m, d, skala)
        } else if skala + 1 == MAKS_SKALA as nat && frakcja.len() > 1 {
            zaokraglona_resztka(m * 10 + d, wartosc_cyfry(frakcja[1]), MAKS_SKALA as nat)
        } else {
            przytnij(m * 10 + d, frakcja.skip(1), skala + 1)
        }
    }
}

/// The number a literal denotes: the text must follow the grammar and its
/// integer part must stay representable; an overlong fraction is rounded at
/// the first digit that cannot be taken.
pub open spec fn parsuj_literal(s: Seq<char>) -> Option<DecV> {
    if !ksztalt_literalu(s) {
        None
    } else if wartosc_cyfr(czesc_calkowita(s)) > MAKS_MANTYSA as int {
        None
    } else {
        przytnij(wartosc_cyfr(czesc_calkowita(s)), czesc_ulamkowa(s), 0)
    }
}

pub proof fn lemma_przytnij_wf(m: int, frakcja: Seq<char>, skala: nat)
    requires
        0 <= m <= MAKS_MANTYSA as int,
        same_cyfry(frakcja),
        skala <= MAKS_SKALA as nat,
        skala == MAKS_SKALA as nat ==> frakcja.len() == 0,
    ensures
        przytnij(m, frakcja, skala) matches Some(w) ==> w.wf() && w.m >= 0,
    decreases frakcja.len(),
{
    if frakcja.len() > 0 {
        let d = wartosc_cyfry(frakcja[0]);
        assert(czy_cyfra(frakcja[0]));
        if m * 10 + d > MAKS_MANTYSA as int {
        } else if skala + 1 == MAKS_SKALA as nat && frakcja.len() > 1 {
        } else {
            assert(same_cyfry(frakcja.skip(1)));
            lemma_przytnij_wf(m * 10 + d, frakcja.skip(1), skala + 1);
        }
    }
}

pub proof fn lemma_parsuj_literal_wf(s: Seq<char>)
    ensures
        parsuj_literal(s) matches Some(w) ==> w.wf() && w.m >= 0,
{
    if parsuj_literal(s) is Some {
        lemma_wartosc_nieujemna(czesc_calkowita(s));
        lemma_przytnij_wf(wartosc_cyfr(czesc_calkowita(s)), czesc_ulamkowa(s), 0);
    }
}

/// The first decimal point of `s`, if any.
fn znajdz_kropke(s: &str, n: usize) -> (r: Option<usize>)
    requires
        n == s@.len(),
    ensures
        match r {
            Some(j) => j < n && indeks_kropki(s@, 0) == Some(j as int),
            None => indeks_kropki(s@, 0) is None,
        },
{
    let mut k: usize = 0;
    while k < n
        invariant
            0 <= k <= n,
            n == s@.len(),
            forall|t: int| 0 <= t < k ==> #[trigger] s@[t] != '.',
        decreases n - k,
    {
        if s.get_char(k) == '.' {
            proof {
                lemma_indeks_kropki_z(s@, 0, k as int);
            }
            return Some(k);
        }
        k += 1;
    }
    proof {
        lemma_indeks_kropki_z(s@, 0, n as int);
    }
    None
}

/// Are the characters of `s` in `[od, do_)` all digits?
fn same_cyfry_od(s: &str, od: usize, do_: usize, n: usize) -> (r: bool)
    requires
        n == s@.len(),
        od <= do_ <= n,
    ensures
        r == forall|t: int| od <= t < do_ ==> czy_cyfra(#[trigger] s@[t]),
{
    let mut k: usize = od;
    while k < do_
        invariant
            od <= k <= do_ <= n,
            n == s@.len(),
            forall|t: int| od <= t < k ==> czy_cyfra(#[trigger] s@[t]),
        decreases do_ - k,
    {
        let c = s.get_char(k);
        if !(c >= '0' && c <= '9') {
            return false;
        }
        k += 1;
    }
    true
}

/// Rounds at the first fractional digit that could not be taken.
fn zaokraglij_resztke_exec(m: u128, nastepna: u128, skala: u32) -> (r: Option<Dec>)
    requires
        m <= MAKS_MANTYSA as u128,
        nastepna < 10,
        skala <= MAKS_SKALA,
    ensures
        widok_opt(r) == zaokraglona_resztka(m as int, nastepna as int, skala as nat),
{
    if nastepna >= 5 {
        if m == MAKS_MANTYSA as u128 {
            if skala == 0 {
                None
            } else {
                Some(Dec { mantysa: ((m + 5) / 10) as i128, skala: skala - 1 })
            }
        } else {
            Some(Dec { mantysa: (m + 1) as i128, skala })
        }
    } else {
        Some(Dec { mantysa: m as i128, skala })
    }
}

/// Parses a plain decimal literal, rounding an overlong fraction.
pub(crate) fn parsuj_literal_exec(s: &str) -> (r: Option<Dec>)
    ensures
        widok_opt(r) == parsuj_literal(s@),
{
    let n = s.unicode_len();
    let kropka = znajdz_kropke(s, n);
    match kropka {
        None => {
            if n < 1 || !same_cyfry_od(s, 0, n, n) {
                return None;
            }
        },
        Some(i) => {
            if !(1 <= i && i + 1 < n) {
                return None;
            }
            if !same_cyfry_od(s, 0, i, n) {
                proof {
                    let z = choose|z: int| 0 <= z < i && !czy_cyfra(s@[z]);
                    assert(!czy_cyfra(s@.take(i as int)[z]));
                    assert(!same_cyfry(s@.take(i as int)));
                }
                return None;
            }
            if !same_cyfry_od(s, i + 1, n, n) {
                proof {
                    let z = choose|z: int| i + 1 <= z < n && !czy_cyfra(s@[z]);
                    assert(!czy_cyfra(s@.skip(i + 1)[z - i - 1]));
                    assert(!same_cyfry(s@.skip(i + 1)));
                }
                return None;
            }
            proof {
                assert(same_cyfry(s@.take(i as int)));
                assert(same_cyfry(s@.skip(i + 1)));
            }
        },
    }
    proof {
        assert(ksztalt_literalu(s@));
    }
    let granica: usize = match kropka {
        None => n,
        Some(i) => i,
    };
    let ghost calk = czesc_calkowita(s@);
    let ghost frak = czesc_ulamkowa(s@);
    proof {
        assert(calk =~= s@.take(granica as int));
        assert(same_cyfry(calk));
        assert(same_cyfry(frak));
    }
    let mut m: u128 = 0;
    let mut k: usize = 0;
    while k < granica
        invariant
            0 <= k <= granica <= n,
            n == s@.len(),
            calk == czesc_calkowita(s@),
            calk == s@.take(granica as int),
            same_cyfry(calk),
            m == wartosc_cyfr(calk.take(k as int)),
            m <= MAKS_MANTYSA as u128,
        decreases granica - k,
    {
        let c = s.get_char(k);
        proof {
            assert(calk[k as int] == s@[k as int]);
            assert(czy_cyfra(c));
            assert(calk.take(k + 1).drop_last() =~= calk.take(k as int));
            assert(calk.take(k + 1).last() == calk[k as int]);
        }
        let d: u128 = (c as u32 as u128) - 48;
        m = m * 10 + d;
        k += 1;
        if m > MAKS_MANTYSA as u128 {
            proof {
                lemma_wartosc_prefiksu(calk, k as int);
            }
            return None;
        }
    }
    proof {
        assert(calk.take(granica as int) =~= calk);
    }
    let poczatek: usize = match kropka {
        None => {
            proof {
                assert(frak =~= Seq::<char>::empty());
                assert(frak.skip(0) =~= frak);
            }
            n
        },
        Some(i) => {
            proof {
                assert(frak.skip(0) =~= frak);
            }
            i + 1
        },
    };
    let mut skala: u32 = 0;
    let mut k2: usize = poczatek;
    while k2 < n
        invariant
            poczatek <= k2 <= n,
            n == s@.len(),
            ksztalt_literalu(s@),
            wartosc_cyfr(czesc_calkowita(s@)) <= MAKS_MANTYSA as int,
            frak == czesc_ulamkowa(s@),
            frak.len() == n - poczatek,
            same_cyfry(frak),
            skala == k2 - poczatek,
            skala <= MAKS_SKALA,
            skala == MAKS_SKALA ==> k2 == n,
            m <= MAKS_MANTYSA as u128,
            forall|t: int| poczatek <= t < n ==> frak[t - poczatek] == s@[t],
            przytnij(wartosc_cyfr(czesc_calkowita(s@)), frak, 0) == przytnij(
                m as int,
                frak.skip(skala as int),
                skala as nat,
            ),
        decreases n - k2,
    {
        let ghost resztka = frak.skip(skala as int);
        let ghost m_stare = m as int;
        let ghost skala_stara = skala as nat;
        let c = s.get_char(k2);
        proof {
            assert(resztka[0] == frak[skala as int]);
            assert(frak[skala as int] == s@[k2 as int]);
            assert(czy_cyfra(c));
            assert(resztka.skip(1) =~= frak.skip(skala + 1));
        }
        let d: u128 = (c as u32 as u128) - 48;
        proof {
            assert(wartosc_cyfry(resztka[0]) == d as int);
            assert(d < 10);
        }
        if m * 10 + d > MAKS_MANTYSA as u128 {
            proof {
                assert(przytnij(m_stare, resztka, skala_stara) == zaokraglona_resztka(
                    m_stare,
                    d as int,
                    skala_stara,
                ));
            }
            return zaokraglij_resztke_exec(m, d, skala);
        }
        m = m * 10 + d;
        skala += 1;
        k2 += 1;
        if skala == MAKS_SKALA && k2 < n {
            let c2 = s.get_char(k2);
            proof {
                assert(resztka.len() > 1);
                assert(resztka[1] == frak[skala as int]);
                assert(frak[skala as int] == s@[k2 as int]);
                assert(czy_cyfra(c2));
            }
            let d2: u128 = (c2 as u32 as u128) - 48;
            proof {
                assert(wartosc_cyfry(resztka[1]) == d2 as int);
                assert(d2 < 10);
                assert(przytnij(m_stare, resztka, skala_stara) == zaokraglona_resztka(
                    m as int,
                    d2 as int,
                    MAKS_SKALA as nat,
                ));
            }
            return zaokraglij_resztke_exec(m, d2, MAKS_SKALA);
        }
    }
    proof {
        assert(frak.skip(skala as int) =~= Seq::<char>::empty());
    }
    Some(Dec { mantysa: m as i128, skala })
}

pub open spec fn czy_bialy(c: char) -> bool {
    c == ' ' || c == '\t' || c == '\n' || c == '\r'
}

pub open spec fn zamien_znak(c: char) -> char {
    if c == ',' {
        '.'
    } else {
        c
    }
}

/// The normalized input text: whitespace dropped and each comma replaced by
/// a period.
pub open spec fn normalizuj(s: Seq<char>) -> Seq<char>
    decreases s.len(),
{
    if s.len() == 0 {
        Seq::empty()
    } else {
        let r = normalizuj(s.drop_last());
        if czy_bialy(s.last()) {
            r
        } else {
            r.push(zamien_znak(s.last()))
        }
    }
}

/// Normalizes the raw input text.
pub(crate) fn normalizuj_exec(s: &str) -> (r: String)
    ensures
        r@ == normalizuj(s@),
{
    let n = s.unicode_len();
    let mut w = String::new();
    let mut k: usize = 0;
    while k < n
        invariant
            0 <= k <= n,
            n == s@.len(),
            w@ == normalizuj(s@.take(k as int)),
        decreases n - k,
    {
        let c = s.get_char(k);
        proof {
            assert(s@.take(k + 1).drop_last() =~= s@.take(k as int));
            assert(s@.take(k + 1).last() == s@[k as int]);
        }
        if c == ' ' || c == '\t' || c == '\n' || c == '\r' {
        } else if c == ',' {
            dopisz_znak(&mut w, '.');
        } else {
            dopisz_znak(&mut w, c);
        }
        k += 1;
    }
    proof {
        assert(s@.take(n as int) =~= s@);
    }
    w
}

/// The character of a single digit.
pub open spec fn cyfra_znak(d: int) -> char {
    if d == 0 {
        '0'
    } else if d == 1 {
        '1'
    } else if d == 2 {
        '2'
    } else if d == 3 {
        '3'
    } else if d == 4 {
        '4'
    } else if d == 5 {
        '5'
    } else if d == 6 {
        '6'
    } else if d == 7 {
        '7'
    } else if d == 8 {
        '8'
    } else {
        '9'
    }
}

/// The digits of `n`, most significant first, with no leading zeros (zero
/// itself is a single digit).
pub open spec fn cyfry_liczby(n: nat) -> Seq<char>
    decreases n,
{
    if n < 10 {
        seq![cyfra_znak(n as int)]
    } else {
        cyfry_liczby(n / 10).push(cyfra_znak((n % 10) as int))
    }
}

/// The digits of `n` written with exactly `w` places, padded with leading
/// zeros.
pub open spec fn cyfry_dopelnione(n: nat, w: nat) -> Seq<char>
    decreases w,
{
    if w == 0 {
        Seq::empty()
    } else {
        cyfry_dopelnione(n / 10, (w - 1) as nat).push(cyfra_znak((n % 10) as int))
    }
}

/// The canonical rendering of a decimal: optional sign, the integer part,
/// and, for a positive scale, a point followed by exactly `s` fractional
/// digits.
pub open spec fn napis_dec(d: DecV) -> Seq<char> {
    let a = (if d.m >= 0 {
        d.m
    } else {
        -d.m
    }) as nat;
    let p = pow10(d.s) as nat;
    let znak = if d.m < 0 {
        seq!['-']
    } else {
        Seq::<char>::empty()
    };
    if d.s == 0 {
        znak + cyfry_liczby(a)
    } else {
        znak + cyfry_liczby(a / p) + seq!['.'] + cyfry_dopelnione(a % p, d.s)
    }
}

fn znak_cyfry(d: u128) -> (r: char)
    requires
        d < 10,
    ensures
        r == cyfra_znak(d as int),
{
    if d == 0 {
        '0'
    } else if d == 1 {
        '1'
    } else if d == 2 {
        '2'
    } else if d == 3 {
        '3'
    } else if d == 4 {
        '4'
    } else if d == 5 {
        '5'
    } else if d == 6 {
        '6'
    } else if d == 7 {
        '7'
    } else if d == 8 {
        '8'
    } else {
        '9'
    }
}

proof fn lemma_pow10_28()
    ensures
        pow10(28) == 10000000000000000000000000000,
{
    reveal_with_fuel(pow10, 29);
}

pub proof fn lemma_pow10_29()
    ensures
        pow10(29) == 100000000000000000000000000000,
{
    reveal_with_fuel(pow10, 30);
}

/// `10^k`, computed for the scale range.
pub(crate) fn pow10_exec(k: u32) -> (r: u128)
    requires
        k <= MAKS_SKALA,
    ensures
        r == pow10(k as nat),
{
    proof {
        lemma_pow10_28();
    }
    let mut r: u128 = 1;
    let mut i: u32 = 0;
    while i < k
        invariant
            0 <= i <= k <= 28,
            r == pow10(i as nat),
        decreases k - i,
    {
        proof {
            lemma_pow10_28();
            lemma_pow10_rosnie(i as nat + 1, 28);
            lemma_pow10_dodatnia(i as nat);
            assert(pow10(i as nat + 1) == 10 * pow10(i as nat));
        }
        r = r * 10;
        i += 1;
    }
    r
}

fn cyfry_liczby_do(n: u128, w: &mut String)
    ensures
        final(w)@ == old(w)@ + cyfry_liczby(n as nat),
    decreases n,
{
    if n < 10 {
        dopisz_znak(w, znak_cyfry(n));
        proof {
            assert(old(w)@.push(cyfra_znak(n as int)) =~= old(w)@ + cyfry_liczby(n as nat));
        }
    } else {
        cyfry_liczby_do(n / 10, w);
        dopisz_znak(w, znak_cyfry(n % 10));
        proof {
            assert((old(w)@ + cyfry_liczby(n as nat / 10)).push(cyfra_znak((n % 10) as int))
                =~= old(w)@ + cyfry_liczby(n as nat));
        }
    }
}

fn cyfry_dopelnione_do(n: u128, w: u32, wynik: &mut String)
    ensures
        final(wynik)@ == old(wynik)@ + cyfry_dopelnione(n as nat, w as nat),
    decreases w,
{
    if w == 0 {
        proof {
            assert(old(wynik)@ + cyfry_dopelnione(n as nat, 0) =~= old(wynik)@);
        }
    } else {
        cyfry_dopelnione_do(n / 10, w - 1, wynik);
        dopisz_znak(wynik, znak_cyfry(n % 10));
        proof {
            assert((old(wynik)@ + cyfry_dopelnione(n as nat / 10, (w - 1) as nat)).push(
                cyfra_znak((n % 10) as int),
            ) =~= old(wynik)@ + cyfry_dopelnione(n as nat, w as nat));
        }
    }
}

impl Dec {
    /// The canonical text of the number, as `rust_decimal` would print it:
    /// the scale fixes the count of fractional digits, trailing zeros
    /// included.
    pub fn to_string(&self) -> (r: String)
        requires
            self@.wf(),
        ensures
            r@ == napis_dec(self@),
    {
        let mut w = String::new();
        if self.mantysa < 0 {
            dopisz_znak(&mut w, '-');
        }
        let a: u128 = if self.mantysa < 0 {
            (-self.mantysa) as u128
        } else {
            self.mantysa as u128
        };
        let ghost poczatek = w@;
        if self.skala == 0 {
            proof {
                lemma_pow10_dodatnia(self@.s);
            }
            cyfry_liczby_do(a, &mut w);
            proof {
                assert(poczatek + cyfry_liczby(a as nat) =~= napis_dec(self@));
            }
        } else {
            let p = pow10_exec(self.skala);
            proof {
                lemma_pow10_dodatnia(self@.s);
            }
            cyfry_liczby_do(a / p, &mut w);
            dopisz_znak(&mut w, '.');
            cyfry_dopelnione_do(a % p, self.skala, &mut w);
            proof {
                assert(((poczatek + cyfry_liczby((a / p) as nat)).push('.')) + cyfry_dopelnione(
                    (a % p) as nat,
                    self@.s,
                ) =~= napis_dec(self@));
            }
        }
        w
    }
}

} // verus!
