//! The round-trip law: rendering every operand and operator of a parsed
//! expression back to text and parsing that text again yields the same
//! expression.

use vstd::prelude::*;

use vstd::arithmetic::div_mod::{lemma_fundamental_div_mod, lemma_mod_bound};

use crate::dec::{dv, lemma_pow10_dodatnia, pow10, DecV, MAKS_MANTYSA, MAKS_SKALA};
use crate::helpers::{pierwszy_separator, spec_podzial};
use crate::tekst::{cyfra_znak, cyfry_dopelnione, cyfry_liczby, czy_bialy, czy_cyfra, indeks_kropki};
use crate::tekst::{ksztalt_literalu, napis_dec, normalizuj, parsuj_literal, przytnij, same_cyfry};
use crate::tekst::{czesc_calkowita, czesc_ulamkowa, lemma_wartosc_nieujemna};
use crate::tekst::{wartosc_cyfr, wartosc_cyfry, zamien_znak};
use crate::{czy_addytywne, czy_multiplikatywne, oper, oper_z_tekstu, parsuj_skladnik, spec_parsuj};
use crate::{symbol, symbole_operatorow, Blad, DzialV, LiczbaV};

verus! {

/// The text of one operand: the exactness mark, then the canonical number.
pub open spec fn napis_skladnika(l: LiczbaV) -> Seq<char> {
    if l.dokladna {
        seq!['d'] + napis_dec(l.liczba)
    } else {
        napis_dec(l.liczba)
    }
}

/// The text of the expression from operand `j` on: operands and operator
/// symbols interleaved.
pub open spec fn napis_od(d: DzialV, j: int) -> Seq<char>
    decreases d.liczby.len() - j,
{
    if j < 0 || j >= d.liczby.len() {
        Seq::empty()
    } else if j < d.operacje.len() && j + 1 < d.liczby.len() {
        napis_skladnika(d.liczby[j]) + symbol(d.operacje[j]) + napis_od(d, j + 1)
    } else {
        napis_skladnika(d.liczby[j])
    }
}

/// The whole expression rendered back to text.
pub open spec fn napis_dzialania(d: DzialV) -> Seq<char> {
    napis_od(d, 0)
}

/// The canonical form that parsing produces when the input neither starts
/// nor ends with an operator: one more operand than operators, each operand
/// representable and non-negative.
pub open spec fn kanoniczne(d: DzialV) -> bool {
    &&& d.liczby.len() == d.operacje.len() + 1
    &&& forall|i: int|
        0 <= i < d.liczby.len() ==> (#[trigger] d.liczby[i]).liczba.wf()
            && d.liczby[i].liczba.m >= 0
}

/// No whitespace and no comma: text that normalization leaves unchanged.
pub open spec fn bez_specjalnych(s: Seq<char>) -> bool {
    forall|i: int| 0 <= i < s.len() ==> !czy_bialy(#[trigger] s[i]) && s[i] != ','
}

/// No operator symbol: text the tokenizer passes through.
pub open spec fn bez_symboli(s: Seq<char>) -> bool {
    forall|i: int|
        0 <= i < s.len() ==> #[trigger] s[i] != '+' && s[i] != '-' && s[i] != '*' && s[i] != '/'
}

proof fn lemma_normalizuj_tozsamosc(s: Seq<char>)
    requires
        bez_specjalnych(s),
    ensures
        normalizuj(s) == s,
    decreases s.len(),
{
    if s.len() > 0 {
        assert(bez_specjalnych(s.drop_last()));
        lemma_normalizuj_tozsamosc(s.drop_last());
        assert(zamien_znak(s.last()) == s.last());
        assert(s.drop_last().push(s.last()) =~= s);
    } else {
        assert(normalizuj(s) =~= s);
    }
}

proof fn lemma_cyfra_znaku(d: int)
    requires
        0 <= d < 10,
    ensures
        czy_cyfra(cyfra_znak(d)),
        wartosc_cyfry(cyfra_znak(d)) == d,
{
}

/// The minimal digit rendering: all digits, at least one, writing back the
/// number itself.
proof fn lemma_cyfry_liczby(n: nat)
    ensures
        same_cyfry(cyfry_liczby(n)),
        cyfry_liczby(n).len() >= 1,
        wartosc_cyfr(cyfry_liczby(n)) == n,
    decreases n,
{
    if n < 10 {
        lemma_cyfra_znaku(n as int);
        let c = seq![cyfra_znak(n as int)];
        assert(cyfry_liczby(n) == c);
        assert(c.drop_last() =~= Seq::<char>::empty());
        assert(wartosc_cyfr(Seq::<char>::empty()) == 0);
        assert(c.last() == cyfra_znak(n as int));
        assert(wartosc_cyfr(c) == 10 * wartosc_cyfr(c.drop_last()) + wartosc_cyfry(c.last()));
    } else {
        lemma_fundamental_div_mod(n as int, 10);
        lemma_cyfry_liczby(n / 10);
        lemma_cyfra_znaku((n % 10) as int);
        let c = cyfry_liczby(n / 10).push(cyfra_znak((n % 10) as int));
        assert(c.drop_last() =~= cyfry_liczby(n / 10));
        assert(same_cyfry(c));
        assert(c.last() == cyfra_znak((n % 10) as int));
        assert(cyfry_liczby(n) == c);
        assert(wartosc_cyfr(c) == 10 * wartosc_cyfr(c.drop_last()) + wartosc_cyfry(c.last()));
        assert(wartosc_cyfr(c) == 10 * (n / 10) + (n % 10));
    }
}

/// The padded digit rendering: exactly `w` digits, writing back a number
/// below `10^w`.
proof fn lemma_cyfry_dopelnione(n: nat, w: nat)
    requires
        n < pow10(w),
    ensures
        same_cyfry(cyfry_dopelnione(n, w)),
        cyfry_dopelnione(n, w).len() == w,
        wartosc_cyfr(cyfry_dopelnione(n, w)) == n,
    decreases w,
{
    if w == 0 {
        assert(pow10(0) == 1);
    } else {
        assert(pow10(w) == 10 * pow10((w - 1) as nat));
        assert(n / 10 < pow10((w - 1) as nat)) by (nonlinear_arith)
            requires
                n < 10 * pow10((w - 1) as nat),
                pow10((w - 1) as nat) >= 1,
        {
        }
        lemma_pow10_dodatnia((w - 1) as nat);
        lemma_cyfry_dopelnione(n / 10, (w - 1) as nat);
        lemma_cyfra_znaku((n % 10) as int);
        let c = cyfry_dopelnione(n / 10, (w - 1) as nat).push(cyfra_znak((n % 10) as int));
        assert(c.drop_last() =~= cyfry_dopelnione(n / 10, (w - 1) as nat));
        assert(same_cyfry(c));
    }
}

/// Digit-string values compose: the left block is shifted by the length of
/// the right one.
proof fn lemma_wartosc_konkat(a: Seq<char>, b: Seq<char>)
    ensures
        wartosc_cyfr(a + b) == wartosc_cyfr(a) * pow10(b.len()) + wartosc_cyfr(b),
    decreases b.len(),
{
    if b.len() == 0 {
        assert(a + b =~= a);
    } else {
        lemma_wartosc_konkat(a, b.drop_last());
        assert((a + b).drop_last() =~= a + b.drop_last());
        assert((a + b).last() == b.last());
        let p = pow10((b.len() - 1) as nat);
        assert(pow10(b.len()) == 10 * p);
        assert(10 * (wartosc_cyfr(a) * p) == wartosc_cyfr(a) * (10 * p)) by (nonlinear_arith) {
        }
    }
}

/// Consuming a fraction that fits both caps takes every digit and rounds
/// nothing.
proof fn lemma_przytnij_dokladnie(m: int, frakcja: Seq<char>, skala: nat)
    requires
        same_cyfry(frakcja),
        m >= 0,
        skala + frakcja.len() <= MAKS_SKALA as nat,
        m * pow10(frakcja.len()) + wartosc_cyfr(frakcja) <= MAKS_MANTYSA as int,
    ensures
        przytnij(m, frakcja, skala) == Some(
            dv(m * pow10(frakcja.len()) + wartosc_cyfr(frakcja), (skala + frakcja.len()) as nat),
        ),
    decreases frakcja.len(),
{
    if frakcja.len() == 0 {
        assert(pow10(0) == 1);
    } else {
        let d = wartosc_cyfry(frakcja[0]);
        let resz = frakcja.skip(1);
        let pp = pow10(resz.len());
        lemma_pow10_dodatnia(resz.len());
        assert(frakcja =~= seq![frakcja[0]] + resz);
        lemma_wartosc_konkat(seq![frakcja[0]], resz);
        assert(seq![frakcja[0]].drop_last() =~= Seq::<char>::empty());
        assert(wartosc_cyfr(Seq::<char>::empty()) == 0);
        assert(seq![frakcja[0]].last() == frakcja[0]);
        assert(wartosc_cyfr(seq![frakcja[0]]) == 10 * wartosc_cyfr(seq![frakcja[0]].drop_last())
            + wartosc_cyfry(seq![frakcja[0]].last()));
        assert(wartosc_cyfr(seq![frakcja[0]]) == d);
        assert(same_cyfry(resz));
        lemma_wartosc_nieujemna(resz);
        assert(wartosc_cyfr(frakcja) == d * pp + wartosc_cyfr(resz));
        assert(pow10(frakcja.len()) == 10 * pp);
        assert((m * 10 + d) * pp == m * (10 * pp) + d * pp) by (nonlinear_arith) {
        }
        assert((m * 10 + d) * pp + wartosc_cyfr(resz) == m * pow10(frakcja.len()) + wartosc_cyfr(
            frakcja,
        ));
        assert(m * 10 + d <= MAKS_MANTYSA as int) by (nonlinear_arith)
            requires
                (m * 10 + d) * pp <= MAKS_MANTYSA as int,
                pp >= 1,
                m * 10 + d >= 0,
        {
        }
        lemma_przytnij_dokladnie(m * 10 + d, resz, skala + 1);
    }
}

/// A rendered number parses back to itself.
pub proof fn lemma_literal_obustronny(w: DecV)
    requires
        w.wf(),
        w.m >= 0,
    ensures
        parsuj_literal(napis_dec(w)) == Some(w),
{
    let a = w.m as nat;
    let s = napis_dec(w);
    if w.s == 0 {
        lemma_cyfry_liczby(a);
        assert(s =~= cyfry_liczby(a));
        crate::tekst::lemma_indeks_kropki_bez(s);
        assert(czesc_calkowita(s) == s);
        assert(czesc_ulamkowa(s) =~= Seq::<char>::empty());
        assert(przytnij(a as int, czesc_ulamkowa(s), 0) == Some(dv(w.m, 0)));
        assert(dv(w.m, 0) == w);
    } else {
        let p = pow10(w.s) as nat;
        lemma_pow10_dodatnia(w.s);
        lemma_mod_bound(a as int, p as int);
        lemma_fundamental_div_mod(a as int, p as int);
        let calk = cyfry_liczby(a / p);
        let ulam = cyfry_dopelnione(a % p, w.s);
        lemma_cyfry_liczby(a / p);
        lemma_cyfry_dopelnione(a % p, w.s);
        assert(s =~= calk + seq!['.'] + ulam);
        let i = calk.len() as int;
        assert(forall|t: int| 0 <= t < i ==> #[trigger] s[t] != '.');
        assert(s[i] == '.');
        crate::tekst::lemma_indeks_kropki_pierwsza(s, i);
        assert(indeks_kropki(s, 0) == Some(i));
        assert(s.take(i) =~= calk);
        assert(s.skip(i + 1) =~= ulam);
        assert(ksztalt_literalu(s));
        assert(czesc_calkowita(s) == calk);
        assert(czesc_ulamkowa(s) == ulam);
        assert(ulam.len() == w.s);
        assert(wartosc_cyfr(calk) == a / p);
        assert(wartosc_cyfr(ulam) == a % p);
        assert(pow10(ulam.len()) == p);
        assert(a / p <= a);
        lemma_przytnij_dokladnie((a / p) as int, ulam, 0);
        assert((a / p) * p + a % p == a);
        assert(przytnij((a / p) as int, ulam, 0) == Some(dv(w.m, w.s)));
        assert(dv(w.m, w.s) == w);
    }
}

/// A rendered number holds only digits and at most one point: nothing the
/// normalizer or the tokenizer would touch, and it never starts with the
/// exactness mark.
proof fn lemma_napis_dec_znaki(w: DecV)
    requires
        w.wf(),
        w.m >= 0,
    ensures
        napis_dec(w).len() >= 1,
        bez_specjalnych(napis_dec(w)),
        bez_symboli(napis_dec(w)),
        czy_cyfra(napis_dec(w)[0]),
{
    let a = w.m as nat;
    let s = napis_dec(w);
    if w.s == 0 {
        lemma_cyfry_liczby(a);
        assert(s =~= cyfry_liczby(a));
    } else {
        let p = pow10(w.s) as nat;
        lemma_pow10_dodatnia(w.s);
        lemma_mod_bound(a as int, p as int);
        let calk = cyfry_liczby(a / p);
        let ulam = cyfry_dopelnione(a % p, w.s);
        lemma_cyfry_liczby(a / p);
        lemma_cyfry_dopelnione(a % p, w.s);
        assert(s =~= calk + seq!['.'] + ulam);
        assert(forall|t: int|
            0 <= t < s.len() ==> #[trigger] s[t] == '.' || czy_cyfra(s[t]));
        assert(s[0] == calk[0]);
    }
}

/// The text of one operand: non-empty, free of anything the normalizer or
/// tokenizer would touch, and it parses back to the operand.
/// The text of one operand is non-empty and free of anything the normalizer
/// or the tokenizer would touch.
proof fn lemma_skladnik_znaki(l: LiczbaV)
    requires
        l.liczba.wf(),
        l.liczba.m >= 0,
    ensures
        napis_skladnika(l).len() >= 1,
        bez_specjalnych(napis_skladnika(l)),
        bez_symboli(napis_skladnika(l)),
{
    lemma_napis_dec_znaki(l.liczba);
}

proof fn lemma_skladnik_obustronny(l: LiczbaV)
    requires
        l.liczba.wf(),
        l.liczba.m >= 0,
    ensures
        napis_skladnika(l).len() >= 1,
        bez_specjalnych(napis_skladnika(l)),
        bez_symboli(napis_skladnika(l)),
        parsuj_skladnik(napis_skladnika(l)) == Some(l),
{
    lemma_napis_dec_znaki(l.liczba);
    lemma_literal_obustronny(l.liczba);
    let s = napis_skladnika(l);
    if l.dokladna {
        assert(s =~= seq!['d'] + napis_dec(l.liczba));
        assert(s[0] == 'd');
        assert(s.skip(1) =~= napis_dec(l.liczba));
        assert(parsuj_skladnik(s) == Some(LiczbaV { liczba: l.liczba, dokladna: true }));
        assert(LiczbaV { liczba: l.liczba, dokladna: true } == l);
    } else {
        assert(s == napis_dec(l.liczba));
        assert(s[0] != 'd');
        assert(parsuj_skladnik(s) == Some(LiczbaV { liczba: l.liczba, dokladna: false }));
        assert(LiczbaV { liczba: l.liczba, dokladna: false } == l);
    }
}

/// What the delimiter scan finds at the head of a text, for the operator
/// symbol list.
proof fn lemma_separator_naglowek(s: Seq<char>)
    requires
        s.len() >= 1,
    ensures
        pierwszy_separator(s, symbole_operatorow(), 0) == (if s[0] == '+' {
            Some(0int)
        } else if s[0] == '-' {
            Some(1int)
        } else if s[0] == '*' {
            Some(2int)
        } else if s[0] == '/' {
            Some(3int)
        } else {
            None::<int>
        }),
{
    reveal_with_fuel(pierwszy_separator, 6);
    let syms = symbole_operatorow();
    assert(s.subrange(0, 1) =~= seq![s[0]]);
    if s[0] == '+' {
        assert(s.subrange(0, 1) =~= syms[0]);
    } else {
        assert(s.subrange(0, 1) != syms[0]) by {
            assert(seq![s[0]][0] != seq!['+'][0]);
        }
        if s[0] == '-' {
            assert(s.subrange(0, 1) =~= syms[1]);
        } else {
            assert(s.subrange(0, 1) != syms[1]) by {
                assert(seq![s[0]][0] != seq!['-'][0]);
            }
            if s[0] == '*' {
                assert(s.subrange(0, 1) =~= syms[2]);
            } else {
                assert(s.subrange(0, 1) != syms[2]) by {
                    assert(seq![s[0]][0] != seq!['*'][0]);
                }
                if s[0] == '/' {
                    assert(s.subrange(0, 1) =~= syms[3]);
                } else {
                    assert(s.subrange(0, 1) != syms[3]) by {
                        assert(seq![s[0]][0] != seq!['/'][0]);
                    }
                }
            }
        }
    }
}

/// The tokenizer carries a delimiter-free block into the accumulator.
proof fn lemma_podzial_fragmentu(frag: Seq<char>, rest: Seq<char>, cur: Seq<char>)
    requires
        bez_symboli(frag),
    ensures
        spec_podzial(frag + rest, symbole_operatorow(), cur) == spec_podzial(
            rest,
            symbole_operatorow(),
            cur + frag,
        ),
    decreases frag.len(),
{
    if frag.len() == 0 {
        assert(frag + rest =~= rest);
        assert(cur + frag =~= cur);
    } else {
        let c = frag[0];
        assert((frag + rest)[0] == c);
        lemma_separator_naglowek(frag + rest);
        assert((frag + rest).skip(1) =~= frag.skip(1) + rest);
        assert(bez_symboli(frag.skip(1)));
        lemma_podzial_fragmentu(frag.skip(1), rest, cur.push(c));
        assert(cur.push(c) + frag.skip(1) =~= cur + frag);
    }
}

/// The tokenizer flushes the accumulated operand and records the operator
/// symbol standing at the head.
proof fn lemma_podzial_symbolu(op: oper, rest: Seq<char>, cur: Seq<char>)
    requires
        cur.len() >= 1,
    ensures
        spec_podzial(symbol(op) + rest, symbole_operatorow(), cur).0 == seq![cur] + spec_podzial(
            rest,
            symbole_operatorow(),
            Seq::empty(),
        ).0,
        spec_podzial(symbol(op) + rest, symbole_operatorow(), cur).1 == seq![symbol(op)]
            + spec_podzial(rest, symbole_operatorow(), Seq::empty()).1,
{
    let syms = symbole_operatorow();
    let s = symbol(op) + rest;
    assert(s.len() >= 1);
    assert(s[0] == symbol(op)[0]);
    lemma_separator_naglowek(s);
    match op {
        oper::plus => {
            assert(pierwszy_separator(s, syms, 0) == Some(0int));
            assert(syms[0] == symbol(op));
        },
        oper::minus => {
            assert(pierwszy_separator(s, syms, 0) == Some(1int));
            assert(syms[1] == symbol(op));
        },
        oper::razy => {
            assert(pierwszy_separator(s, syms, 0) == Some(2int));
            assert(syms[2] == symbol(op));
        },
        oper::dzielenie => {
            assert(pierwszy_separator(s, syms, 0) == Some(3int));
            assert(syms[3] == symbol(op));
        },
    }
    assert(s.skip(1) =~= rest);
}

/// The tokenization of the rendered tail from operand `j` on: exactly the
/// remaining operand texts and operator symbols.
#[verifier::rlimit(100)]
#[verifier::spinoff_prover]
proof fn lemma_podzial_od(d: DzialV, j: int)
    requires
        kanoniczne(d),
        0 <= j < d.liczby.len(),
    ensures
        spec_podzial(napis_od(d, j), symbole_operatorow(), Seq::empty()).0 == Seq::new(
            (d.liczby.len() - j) as nat,
            |t: int| napis_skladnika(d.liczby[j + t]),
        ),
        spec_podzial(napis_od(d, j), symbole_operatorow(), Seq::empty()).1 == Seq::new(
            (d.operacje.len() - j) as nat,
            |t: int| symbol(d.operacje[j + t]),
        ),
    decreases d.liczby.len() - j,
{
    let syms = symbole_operatorow();
    let skl = napis_skladnika(d.liczby[j]);
    let cel0 = Seq::new((d.liczby.len() - j) as nat, |t: int| napis_skladnika(d.liczby[j + t]));
    let cel1 = Seq::new((d.operacje.len() - j) as nat, |t: int| symbol(d.operacje[j + t]));
    lemma_skladnik_znaki(d.liczby[j]);
    if j + 1 < d.liczby.len() {
        let rest = symbol(d.operacje[j]) + napis_od(d, j + 1);
        assert(napis_od(d, j) == skl + rest);
        lemma_podzial_fragmentu(skl, rest, Seq::empty());
        assert(Seq::<char>::empty() + skl =~= skl);
        lemma_podzial_symbolu(d.operacje[j], napis_od(d, j + 1), skl);
        lemma_podzial_od(d, j + 1);
        let dalszy = spec_podzial(napis_od(d, j + 1), syms, Seq::empty());
        assert(spec_podzial(napis_od(d, j), syms, Seq::empty()).0 == seq![skl] + dalszy.0);
        assert(spec_podzial(napis_od(d, j), syms, Seq::empty()).1 == seq![symbol(d.operacje[j])]
            + dalszy.1);
        assert forall|t: int| 0 <= t < cel0.len() implies (seq![skl] + dalszy.0)[t] == cel0[t] by {
            if t > 0 {
                assert((seq![skl] + dalszy.0)[t] == dalszy.0[t - 1]);
                assert(dalszy.0[t - 1] == napis_skladnika(d.liczby[j + 1 + (t - 1)]));
            }
        }
        assert(seq![skl] + dalszy.0 =~= cel0);
        assert forall|t: int|
            0 <= t < cel1.len() implies (seq![symbol(d.operacje[j])] + dalszy.1)[t] == cel1[t] by {
            if t > 0 {
                assert((seq![symbol(d.operacje[j])] + dalszy.1)[t] == dalszy.1[t - 1]);
                assert(dalszy.1[t - 1] == symbol(d.operacje[j + 1 + (t - 1)]));
            }
        }
        assert(seq![symbol(d.operacje[j])] + dalszy.1 =~= cel1);
    } else {
        assert(napis_od(d, j) == skl);
        assert(skl =~= skl + Seq::<char>::empty());
        lemma_podzial_fragmentu(skl, Seq::empty(), Seq::empty());
        assert(Seq::<char>::empty() + skl =~= skl);
        assert(spec_podzial(Seq::empty(), syms, skl).0 =~= seq![skl]);
        assert(spec_podzial(napis_od(d, j), syms, Seq::empty()).0 =~= Seq::new(
            (d.liczby.len() - j) as nat,
            |t: int| napis_skladnika(d.liczby[j + t]),
        ));
        assert(spec_podzial(napis_od(d, j), syms, Seq::empty()).1 =~= Seq::new(
            (d.operacje.len() - j) as nat,
            |t: int| symbol(d.operacje[j + t]),
        ));
    }
}

proof fn lemma_symbol_obustronny(op: oper)
    ensures
        oper_z_tekstu(symbol(op)) == Some(op),
{
    assert(symbol(oper::plus) != symbol(oper::minus)) by {
        assert(symbol(oper::plus)[0] != symbol(oper::minus)[0]);
    }
    assert(symbol(oper::plus) != symbol(oper::razy)) by {
        assert(symbol(oper::plus)[0] != symbol(oper::razy)[0]);
    }
    assert(symbol(oper::plus) != symbol(oper::dzielenie)) by {
        assert(symbol(oper::plus)[0] != symbol(oper::dzielenie)[0]);
    }
    assert(symbol(oper::minus) != symbol(oper::razy)) by {
        assert(symbol(oper::minus)[0] != symbol(oper::razy)[0]);
    }
    assert(symbol(oper::minus) != symbol(oper::dzielenie)) by {
        assert(symbol(oper::minus)[0] != symbol(oper::dzielenie)[0]);
    }
    assert(symbol(oper::razy) != symbol(oper::dzielenie)) by {
        assert(symbol(oper::razy)[0] != symbol(oper::dzielenie)[0]);
    }
}

/// The rendered text of a canonical expression normalizes to itself.
proof fn lemma_napis_od_specjalne(d: DzialV, j: int)
    requires
        kanoniczne(d),
        0 <= j < d.liczby.len(),
    ensures
        bez_specjalnych(napis_od(d, j)),
    decreases d.liczby.len() - j,
{
    lemma_skladnik_znaki(d.liczby[j]);
    if j + 1 < d.liczby.len() {
        lemma_napis_od_specjalne(d, j + 1);
        assert(bez_specjalnych(symbol(d.operacje[j])));
        assert(bez_specjalnych(napis_od(d, j)));
    }
}

/// Re-rendering each operand and operator of a canonical expression and
/// parsing the joined text again yields an equal expression.
pub proof fn lemma_parsowanie_obustronne(d: DzialV)
    requires
        kanoniczne(d),
    ensures
        spec_parsuj(napis_dzialania(d)) == Ok::<DzialV, Blad>(d),
{
    let t = napis_dzialania(d);
    lemma_napis_od_specjalne(d, 0);
    lemma_normalizuj_tozsamosc(t);
    lemma_podzial_od(d, 0);
    let podzial = spec_podzial(normalizuj(t), symbole_operatorow(), Seq::empty());
    assert(forall|i: int|
        0 <= i < podzial.0.len() ==> parsuj_skladnik(#[trigger] podzial.0[i]) is Some) by {
        assert(forall|i: int| 0 <= i < podzial.0.len() ==> podzial.0[i] == napis_skladnika(
            d.liczby[i],
        ));
        assert forall|i: int| 0 <= i < podzial.0.len() implies parsuj_skladnik(
            #[trigger] podzial.0[i],
        ) is Some by {
            lemma_skladnik_obustronny(d.liczby[i]);
        }
    }
    assert forall|i: int| 0 <= i < podzial.1.len() implies oper_z_tekstu(
        #[trigger] podzial.1[i],
    ) is Some by {
        lemma_symbol_obustronny(d.operacje[i]);
    }
    let wynik = spec_parsuj(t)->Ok_0;
    assert forall|i: int| 0 <= i < podzial.0.len() implies parsuj_skladnik(#[trigger] podzial.0[i])
        == Some(d.liczby[i]) by {
        lemma_skladnik_obustronny(d.liczby[i]);
    }
    assert forall|i: int| 0 <= i < podzial.1.len() implies oper_z_tekstu(#[trigger] podzial.1[i])
        == Some(d.operacje[i]) by {
        lemma_symbol_obustronny(d.operacje[i]);
    }
    assert(wynik.liczby =~= d.liczby);
    assert(wynik.operacje =~= d.operacje);
    assert(wynik == d);
}

/// Every expression that parsing yields has representable, non-negative
/// operands; with one more operand than operators it is canonical and the
/// round trip applies to it.
pub proof fn lemma_wynik_parsowania_kanoniczny(t: Seq<char>)
    ensures
        spec_parsuj(t) matches Ok(d) ==> (forall|i: int|
            0 <= i < d.liczby.len() ==> (#[trigger] d.liczby[i]).liczba.wf()
                && d.liczby[i].liczba.m >= 0),
        spec_parsuj(t) matches Ok(d) ==> (d.liczby.len() == d.operacje.len() + 1 ==> kanoniczne(
            d,
        )),
{
    if spec_parsuj(t) is Ok {
        let d = spec_parsuj(t)->Ok_0;
        let podzial = spec_podzial(normalizuj(t), symbole_operatorow(), Seq::empty());
        assert forall|i: int| 0 <= i < d.liczby.len() implies (#[trigger] d.liczby[i]).liczba.wf()
            && d.liczby[i].liczba.m >= 0 by {
            crate::tekst::lemma_parsuj_literal_wf(podzial.0[i]);
            crate::tekst::lemma_parsuj_literal_wf(podzial.0[i].skip(1));
        }
    }
}

/// The multiplicative pairwise law: in a multiplicative reduction the value
/// produced by a step is rounded to the fewest significant figures among the
/// inexact members of the local pair just combined — the running operand and
/// the operand just consumed — not of the whole chain.  A rounded value whose
/// scale leaves the representable range is an `Overflow`; a pair with both
/// members exact gives no bound at all.
pub proof fn lemma_krok_multiplikatywny(acc: LiczbaV, liczby: Seq<LiczbaV>, operacje: Seq<oper>)
    requires
        liczby.len() >= 1,
        operacje.len() >= 1,
        operacje[0] == oper::razy || operacje[0] == oper::dzielenie,
        !(operacje[0] == oper::dzielenie && liczby[0].liczba.m == 0),
        !(acc.dokladna && liczby[0].dokladna),
        crate::krok_operacji(acc.liczba, operacje[0], liczby[0].liczba) is Some,
    ensures
        crate::spec_kroki(acc, liczby, operacje, true) == ({
            let v = crate::krok_operacji(acc.liczba, operacje[0], liczby[0].liczba)->Some_0;
            let n = crate::min_znaczacych(seq![acc, liczby[0]], 0, u32::MAX as nat);
            match crate::dec::znaczace_z(v, n) {
                None => Err::<LiczbaV, Blad>(Blad::Overflow),
                Some(w) => if w.wf() {
                    crate::spec_kroki(
                        LiczbaV { liczba: w, dokladna: acc.dokladna },
                        liczby.skip(1),
                        operacje.skip(1),
                        true,
                    )
                } else {
                    Err::<LiczbaV, Blad>(Blad::Overflow)
                },
            }
        }),
{
    let op = operacje[0];
    let para = DzialV { liczby: seq![acc, liczby[0]], operacje: seq![op] };
    assert(!para.operacje.contains(oper::plus));
    assert(!para.operacje.contains(oper::minus));
    assert(para.operacje.contains(op)) by {
        assert(para.operacje[0] == op);
    }
    assert(czy_multiplikatywne(para.operacje));
    assert(!czy_addytywne(para.operacje));
}

} // verus!
