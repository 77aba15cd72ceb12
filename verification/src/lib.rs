//! Evaluation of plain-text arithmetic expressions under measurement-precision
//! rules: results of addition and subtraction are rounded to the least precise
//! decimal place among the operands, results of multiplication and division to
//! the fewest significant figures; operands marked exact (a `d` prefix) never
//! constrain the rounding.  A separate operation raises a number to a power
//! and rounds to the base's significant figures.
#![allow(non_camel_case_types)]

pub mod dec;
pub mod prawa;
pub mod prosty;
pub mod helpers;
pub mod tekst;

use vstd::prelude::*;

use crate::dec::{dodaj, odejmij, podziel, pomnoz, poteguj, przeskaluj, zaokraglij_znaczaco};
use crate::dec::{ile_cyfr, pow10, widok_opt, Dec, DecV, MAKS_MANTYSA, MAKS_SKALA};
use crate::dec::{cyfry_znaczace, iloczyn_z, iloraz_z, potega_z, przeskalowana_z, roznica_z, suma_z, znaczace_z};
use crate::dec::lemma_pow10_dodatnia;
use crate::helpers::{spec_podzial, split_strings_by_list};
use crate::tekst::{normalizuj, normalizuj_exec, parsuj_literal, parsuj_literal_exec};

verus! {

/// The failures of parsing and evaluation.  Every one is a recoverable
/// value returned to the caller: the library never terminates the process
/// and never panics, not even on a zero divisor or on arithmetic leaving
/// the representable range.
#[derive(PartialEq, Eq, Structural, Debug, Clone, Copy)]
pub enum Blad {
    InvalidNumber,
    InvalidOperator,
    MixedOperatorKinds,
    EmptyExpression,
    DivisionByZero,
    UnboundedPrecisionRequested,
    Overflow,
}

/// The four operators, in the order in which their symbols are tried by the
/// tokenizer.
#[derive(PartialEq, Eq, Structural, Debug, Copy, Clone)]
pub enum oper {
    plus,
    minus,
    razy,
    dzielenie,
}

/// The canonical one-character text of an operator.
pub open spec fn symbol(op: oper) -> Seq<char> {
    match op {
        oper::plus => seq!['+'],
        oper::minus => seq!['-'],
        oper::razy => seq!['*'],
        oper::dzielenie => seq!['/'],
    }
}

/// The operator written by a text, if any.
pub open spec fn oper_z_tekstu(s: Seq<char>) -> Option<oper> {
    if s == symbol(oper::plus) {
        Some(oper::plus)
    } else if s == symbol(oper::minus) {
        Some(oper::minus)
    } else if s == symbol(oper::razy) {
        Some(oper::razy)
    } else if s == symbol(oper::dzielenie) {
        Some(oper::dzielenie)
    } else {
        None
    }
}

/// The operator symbols in declaration order: the tokenizer's delimiters.
pub open spec fn symbole_operatorow() -> Seq<Seq<char>> {
    seq![symbol(oper::plus), symbol(oper::minus), symbol(oper::razy), symbol(oper::dzielenie)]
}

impl oper {
    /// The canonical text of the operator.
    pub fn to_string(&self) -> (r: String)
        ensures
            r@ == symbol(*self),
    {
        let r = match self {
            oper::plus => String::from_str("+"),
            oper::minus => String::from_str("-"),
            oper::razy => String::from_str("*"),
            oper::dzielenie => String::from_str("/"),
        };
        proof {
            reveal_strlit("+");
            reveal_strlit("-");
            reveal_strlit("*");
            reveal_strlit("/");
            assert(r@ =~= symbol(*self));
        }
        r
    }

    /// The operator symbols in declaration order.
    pub fn return_list() -> (r: Vec<String>)
        ensures
            r.deep_view() == symbole_operatorow(),
    {
        let mut r: Vec<String> = Vec::new();
        r.push(oper::plus.to_string());
        r.push(oper::minus.to_string());
        r.push(oper::razy.to_string());
        r.push(oper::dzielenie.to_string());
        proof {
            assert(r.deep_view() =~= symbole_operatorow());
        }
        r
    }

    /// The operator written by a text; an unrecognized symbol is reported
    /// as `InvalidOperator`.
    pub fn from_str(tekst: &str) -> (r: Result<oper, Blad>)
        ensures
            r == match oper_z_tekstu(tekst@) {
                Some(op) => Ok::<oper, Blad>(op),
                None => Err::<oper, Blad>(Blad::InvalidOperator),
            },
    {
        let n = tekst.unicode_len();
        if n == 1 {
            let c = tekst.get_char(0);
            proof {
                assert(tekst@ =~= seq![tekst@[0]]);
            }
            if c == '+' {
                return Ok(oper::plus);
            }
            if c == '-' {
                return Ok(oper::minus);
            }
            if c == '*' {
                return Ok(oper::razy);
            }
            if c == '/' {
                return Ok(oper::dzielenie);
            }
        }
        Err(Blad::InvalidOperator)
    }
}

/// An operand: a decimal value together with its exactness mark.
#[derive(PartialEq, Eq, Structural, Debug, Clone, Copy)]
pub struct liczba {
    pub liczba: Dec,
    pub dokladna: bool,
}

/// The mathematical view of an operand.
pub struct LiczbaV {
    pub liczba: DecV,
    pub dokladna: bool,
}

impl View for liczba {
    type V = LiczbaV;

    open spec fn view(&self) -> LiczbaV {
        LiczbaV { liczba: self.liczba@, dokladna: self.dokladna }
    }
}

impl DeepView for liczba {
    type V = LiczbaV;

    open spec fn deep_view(&self) -> LiczbaV {
        self.view()
    }
}

impl liczba {
    pub fn new(licz: Dec, dokl: bool) -> (r: liczba)
        ensures
            r@.liczba == licz@,
            r@.dokladna == dokl,
    {
        liczba { liczba: licz, dokladna: dokl }
    }
}

/// An expression: its operands and its operators, in source order.
#[derive(PartialEq, Debug, Clone)]
pub struct dzialanie {
    pub liczby: Vec<liczba>,
    pub operacje: Vec<oper>,
}

/// The mathematical view of an expression.
pub struct DzialV {
    pub liczby: Seq<LiczbaV>,
    pub operacje: Seq<oper>,
}

impl View for dzialanie {
    type V = DzialV;

    open spec fn view(&self) -> DzialV {
        DzialV { liczby: self.liczby.deep_view(), operacje: self.operacje@ }
    }
}

impl DzialV {
    /// Every operand is representable.
    pub open spec fn wf(self) -> bool {
        forall|i: int| 0 <= i < self.liczby.len() ==> (#[trigger] self.liczby[i]).liczba.wf()
    }
}

pub open spec fn czy_addytywne(ops: Seq<oper>) -> bool {
    ops.contains(oper::plus) || ops.contains(oper::minus)
}

pub open spec fn czy_multiplikatywne(ops: Seq<oper>) -> bool {
    ops.contains(oper::razy) || ops.contains(oper::dzielenie)
}

pub open spec fn wszystkie_dokladne(liczby: Seq<LiczbaV>) -> bool {
    forall|i: int| 0 <= i < liczby.len() ==> (#[trigger] liczby[i]).dokladna
}

/// The fold of the least decimal-place count over the inexact operands,
/// starting from the sentinel `dotad`.
pub open spec fn min_miejsc(liczby: Seq<LiczbaV>, k: int, dotad: int) -> int
    decreases liczby.len() - k,
{
    if k < 0 || k >= liczby.len() {
        dotad
    } else {
        let nast = if liczby[k].dokladna {
            dotad
        } else if (liczby[k].liczba.s as int) < dotad {
            liczby[k].liczba.s as int
        } else {
            dotad
        };
        min_miejsc(liczby, k + 1, nast)
    }
}

/// The fold of the least significant-figure count over the inexact operands,
/// starting from the sentinel `dotad`.
pub open spec fn min_znaczacych(liczby: Seq<LiczbaV>, k: int, dotad: nat) -> nat
    decreases liczby.len() - k,
{
    if k < 0 || k >= liczby.len() {
        dotad
    } else {
        let nast = if liczby[k].dokladna {
            dotad
        } else if cyfry_znaczace(liczby[k].liczba) < dotad {
            cyfry_znaczace(liczby[k].liczba)
        } else {
            dotad
        };
        min_znaczacych(liczby, k + 1, nast)
    }
}

proof fn lemma_min_miejsc(liczby: Seq<LiczbaV>, k: int, dotad: int)
    requires
        0 <= k <= liczby.len(),
        0 <= dotad,
        forall|i: int| 0 <= i < liczby.len() ==> (#[trigger] liczby[i]).liczba.wf(),
    ensures
        0 <= min_miejsc(liczby, k, dotad) <= dotad,
        (forall|t: int| k <= t < liczby.len() ==> (#[trigger] liczby[t]).dokladna) ==> min_miejsc(
            liczby,
            k,
            dotad,
        ) == dotad,
        (exists|t: int| k <= t < liczby.len() && !(#[trigger] liczby[t]).dokladna) ==> min_miejsc(
            liczby,
            k,
            dotad,
        ) <= MAKS_SKALA as int,
    decreases liczby.len() - k,
{
    if k < liczby.len() {
        let nast = if liczby[k].dokladna {
            dotad
        } else if (liczby[k].liczba.s as int) < dotad {
            liczby[k].liczba.s as int
        } else {
            dotad
        };
        lemma_min_miejsc(liczby, k + 1, nast);
    }
}

/// A representable number shows at most 58 counted characters: at most 29
/// mantissa digits, and for a negative number the sign plus at most 28
/// leading fractional zeros besides.
proof fn lemma_cyfry_znaczace_ograniczenie(d: DecV)
    requires
        d.wf(),
    ensures
        cyfry_znaczace(d) <= 58,
{
    crate::tekst::lemma_pow10_29();
    if d.m > 0 {
        lemma_ile_cyfr_ponizej(d.m as nat, 29);
    } else if d.m < 0 {
        let a = (-d.m) as nat;
        let p = pow10(d.s) as nat;
        lemma_pow10_dodatnia(d.s);
        assert(a / p <= a);
        lemma_ile_cyfr_ponizej(a / p, 29);
    }
}

proof fn lemma_min_znaczacych(liczby: Seq<LiczbaV>, k: int, dotad: nat)
    requires
        0 <= k <= liczby.len(),
        forall|i: int| 0 <= i < liczby.len() ==> (#[trigger] liczby[i]).liczba.wf(),
    ensures
        min_znaczacych(liczby, k, dotad) <= dotad,
        (forall|t: int| k <= t < liczby.len() ==> (#[trigger] liczby[t]).dokladna)
            ==> min_znaczacych(liczby, k, dotad) == dotad,
        (exists|t: int| k <= t < liczby.len() && !(#[trigger] liczby[t]).dokladna)
            ==> min_znaczacych(liczby, k, dotad) <= 58,
    decreases liczby.len() - k,
{
    if k < liczby.len() {
        lemma_cyfry_znaczace_ograniczenie(liczby[k].liczba);
        let nast = if liczby[k].dokladna {
            dotad
        } else if cyfry_znaczace(liczby[k].liczba) < dotad {
            cyfry_znaczace(liczby[k].liczba)
        } else {
            dotad
        };
        lemma_min_znaczacych(liczby, k + 1, nast);
    }
}

fn zawiera_addytywne(ops: &Vec<oper>) -> (r: bool)
    ensures
        r == czy_addytywne(ops@),
{
    let mut i: usize = 0;
    while i < ops.len()
        invariant
            0 <= i <= ops@.len(),
            forall|t: int| 0 <= t < i ==> #[trigger] ops@[t] != oper::plus && ops@[t] != oper::minus,
        decreases ops@.len() - i,
    {
        let o = ops[i];
        if o == oper::plus || o == oper::minus {
            return true;
        }
        i += 1;
    }
    false
}

fn zawiera_multiplikatywne(ops: &Vec<oper>) -> (r: bool)
    ensures
        r == czy_multiplikatywne(ops@),
{
    let mut i: usize = 0;
    while i < ops.len()
        invariant
            0 <= i <= ops@.len(),
            forall|t: int| 0 <= t < i ==> #[trigger] ops@[t] != oper::razy && ops@[t]
                != oper::dzielenie,
        decreases ops@.len() - i,
    {
        let o = ops[i];
        if o == oper::razy || o == oper::dzielenie {
            return true;
        }
        i += 1;
    }
    false
}

/// The count of decimal digits of `n`, for the representable range.
fn ile_cyfr_exec(n: u128) -> (r: usize)
    requires
        n <= MAKS_MANTYSA as u128,
    ensures
        r == ile_cyfr(n as nat),
        r <= 29,
    decreases n,
{
    let r: usize = if n < 10 {
        1
    } else {
        1 + ile_cyfr_exec(n / 10)
    };
    proof {
        crate::tekst::lemma_pow10_29();
        lemma_ile_cyfr_ponizej(n as nat, 29);
    }
    r
}

pub proof fn lemma_ile_cyfr_ponizej(n: nat, k: nat)
    requires
        n < pow10(k),
        k >= 1,
    ensures
        ile_cyfr(n) <= k,
    decreases k,
{
    if n >= 10 {
        assert(pow10(k) == 10 * pow10((k - 1) as nat));
        assert(n / 10 < pow10((k - 1) as nat)) by (nonlinear_arith)
            requires
                n < 10 * pow10((k - 1) as nat),
                n >= 10,
        ;
        lemma_ile_cyfr_ponizej(n / 10, (k - 1) as nat);
    }
}

/// The significant-figure count of a decimal: the rendered characters that
/// survive dropping the point and stripping leading zeros.  Zero has none;
/// a negative number's leading minus shields its digits, so all of them
/// (and the sign) are counted.
pub fn ile_cyfr_znaczacych(dec: Dec) -> (r: usize)
    requires
        dec@.wf(),
    ensures
        r == cyfry_znaczace(dec@),
        r <= 58,
{
    if dec.mantysa == 0 {
        return 0;
    }
    if dec.mantysa > 0 {
        ile_cyfr_exec(dec.mantysa as u128)
    } else {
        let a: u128 = (-dec.mantysa) as u128;
        let p = crate::tekst::pow10_exec(dec.skala);
        proof {
            lemma_pow10_dodatnia(dec@.s);
        }
        1 + ile_cyfr_exec(a / p) + (dec.skala as usize)
    }
}

fn min_miejsc_exec(liczby: &Vec<liczba>) -> (r: i32)
    requires
        forall|i: int| 0 <= i < liczby.deep_view().len() ==> (#[trigger] liczby.deep_view()[i]).liczba.wf(),
    ensures
        r == min_miejsc(liczby.deep_view(), 0, i32::MAX as int),
{
    let mut najmniejsza: i32 = i32::MAX;
    let mut k: usize = 0;
    while k < liczby.len()
        invariant
            0 <= k <= liczby@.len(),
            liczby@.len() == liczby.deep_view().len(),
            forall|i: int| 0 <= i < liczby.deep_view().len() ==> (#[trigger] liczby.deep_view()[i]).liczba.wf(),
            0 <= najmniejsza,
            min_miejsc(liczby.deep_view(), 0, i32::MAX as int) == min_miejsc(
                liczby.deep_view(),
                k as int,
                najmniejsza as int,
            ),
        decreases liczby@.len() - k,
    {
        let l = liczby[k];
        proof {
            assert(liczby.deep_view()[k as int] == liczby@[k as int]@);
        }
        if !l.dokladna {
            let po_przecinku: i32 = l.liczba.skala as i32;
            if po_przecinku < najmniejsza {
                najmniejsza = po_przecinku;
            }
        }
        k += 1;
    }
    najmniejsza
}

fn min_znaczacych_exec(liczby: &Vec<liczba>) -> (r: u32)
    requires
        forall|i: int| 0 <= i < liczby.deep_view().len() ==> (#[trigger] liczby.deep_view()[i]).liczba.wf(),
    ensures
        r == min_znaczacych(liczby.deep_view(), 0, u32::MAX as nat),
{
    let mut najmniejsza: u32 = u32::MAX;
    let mut k: usize = 0;
    while k < liczby.len()
        invariant
            0 <= k <= liczby@.len(),
            liczby@.len() == liczby.deep_view().len(),
            forall|i: int| 0 <= i < liczby.deep_view().len() ==> (#[trigger] liczby.deep_view()[i]).liczba.wf(),
            min_znaczacych(liczby.deep_view(), 0, u32::MAX as nat) == min_znaczacych(
                liczby.deep_view(),
                k as int,
                najmniejsza as nat,
            ),
        decreases liczby@.len() - k,
    {
        let l = liczby[k];
        proof {
            assert(liczby.deep_view()[k as int] == liczby@[k as int]@);
        }
        if !l.dokladna {
            let x = ile_cyfr_znaczacych(l.liczba);
            if x < (najmniejsza as usize) {
                najmniejsza = x as u32;
            }
        }
        k += 1;
    }
    najmniejsza
}

/// Least decimal places among the inexact operands; `i32::MAX` when every
/// operand is exact.
pub fn najmniej_dokladna_liczba(dzial: dzialanie) -> (r: i32)
    requires
        dzial@.wf(),
    ensures
        r == min_miejsc(dzial@.liczby, 0, i32::MAX as int),
{
    proof {
        assert(dzial@.liczby == dzial.liczby.deep_view());
        assert(forall|i: int|
            0 <= i < dzial.liczby.deep_view().len() ==> (#[trigger] dzial.liczby.deep_view()[i]).liczba.wf()) by {
            assert(forall|i: int|
                0 <= i < dzial@.liczby.len() ==> (#[trigger] dzial@.liczby[i]).liczba.wf());
        }
    }
    min_miejsc_exec(&dzial.liczby)
}

pub open spec fn widok_wyniku(r: Result<liczba, Blad>) -> Result<LiczbaV, Blad> {
    match r {
        Ok(w) => Ok(w@),
        Err(e) => Err(e),
    }
}

pub open spec fn widok_wyniku_dec(r: Result<Dec, Blad>) -> Result<DecV, Blad> {
    match r {
        Ok(w) => Ok(w@),
        Err(e) => Err(e),
    }
}

pub open spec fn widok_wyniku_dzial(r: Result<dzialanie, Blad>) -> Result<DzialV, Blad> {
    match r {
        Ok(w) => Ok(w@),
        Err(e) => Err(e),
    }
}

/// The rounding rule, selected by the operator kind present in `d`: the
/// additive rule rescales to the least decimal-place count among the inexact
/// operands, the multiplicative rule rounds to the least significant-figure
/// count.  Mixing both kinds is an error; so is either rule with every
/// operand exact (no precision bound exists then), and an expression without
/// operators selects no rule.  A multiplicative result whose rounded form
/// leaves the representable scales is an `Overflow`.
pub open spec fn spec_zaokraglij(l: LiczbaV, d: DzialV) -> Result<LiczbaV, Blad> {
    if czy_addytywne(d.operacje) && czy_multiplikatywne(d.operacje) {
        Err(Blad::MixedOperatorKinds)
    } else if czy_addytywne(d.operacje) {
        if wszystkie_dokladne(d.liczby) {
            Err(Blad::UnboundedPrecisionRequested)
        } else {
            Ok(
                LiczbaV {
                    liczba: przeskalowana_z(l.liczba, min_miejsc(d.liczby, 0, i32::MAX as int) as nat),
                    dokladna: l.dokladna,
                },
            )
        }
    } else if czy_multiplikatywne(d.operacje) {
        if wszystkie_dokladne(d.liczby) {
            Err(Blad::UnboundedPrecisionRequested)
        } else {
            match znaczace_z(l.liczba, min_znaczacych(d.liczby, 0, u32::MAX as nat)) {
                None => Err(Blad::Overflow),
                Some(w) => if w.wf() {
                    Ok(LiczbaV { liczba: w, dokladna: l.dokladna })
                } else {
                    Err(Blad::Overflow)
                },
            }
        }
    } else {
        Err(Blad::EmptyExpression)
    }
}

/// The additive result carries exactly the least decimal-place count among
/// the inexact operands, unless even one more digit of scale would leave the
/// representable mantissa range.
pub open spec fn miejsca_wyniku_zgodne(r: Result<liczba, Blad>, d: DzialV) -> bool {
    match r {
        Ok(w) => w@.liczba.s == min_miejsc(d.liczby, 0, i32::MAX as int) as nat || !(-(
        MAKS_MANTYSA as int) <= 10 * w@.liczba.m <= MAKS_MANTYSA as int),
        Err(_) => false,
    }
}

/// Rounds an already computed value by the rule that `dzial`'s operators
/// select.
pub fn zaokraglij(obliczona_licz: liczba, dzial: dzialanie) -> (r: Result<liczba, Blad>)
    requires
        obliczona_licz@.liczba.wf(),
        dzial@.wf(),
    ensures
        widok_wyniku(r) == spec_zaokraglij(obliczona_licz@, dzial@),
        r matches Ok(w) ==> w@.liczba.wf() && w@.dokladna == obliczona_licz@.dokladna,
        (czy_addytywne(dzial@.operacje) && !czy_multiplikatywne(dzial@.operacje)
            && !wszystkie_dokladne(dzial@.liczby)) ==> miejsca_wyniku_zgodne(r, dzial@),
{
    let dod = zawiera_addytywne(&dzial.operacje);
    let mul = zawiera_multiplikatywne(&dzial.operacje);
    if dod && mul {
        return Err(Blad::MixedOperatorKinds);
    }
    if dod {
        let n = min_miejsc_exec(&dzial.liczby);
        proof {
            lemma_min_miejsc(dzial@.liczby, 0, i32::MAX as int);
        }
        if n == i32::MAX {
            proof {
                if !wszystkie_dokladne(dzial@.liczby) {
                    let t = choose|t: int|
                        0 <= t < dzial@.liczby.len() && !(#[trigger] dzial@.liczby[t]).dokladna;
                    assert(min_miejsc(dzial@.liczby, 0, i32::MAX as int) <= MAKS_SKALA as int);
                }
            }
            return Err(Blad::UnboundedPrecisionRequested);
        }
        proof {
            if wszystkie_dokladne(dzial@.liczby) {
                assert(min_miejsc(dzial@.liczby, 0, i32::MAX as int) == i32::MAX as int);
            }
        }
        let w = przeskaluj(&obliczona_licz.liczba, n as u32);
        return Ok(liczba { liczba: w, dokladna: obliczona_licz.dokladna });
    }
    if mul {
        proof {
            assert(forall|i: int|
                0 <= i < dzial@.liczby.len() ==> (#[trigger] dzial@.liczby[i]).liczba.wf());
            lemma_min_znaczacych(dzial@.liczby, 0, u32::MAX as nat);
        }
        let n = min_znaczacych_exec(&dzial.liczby);
        if n == u32::MAX {
            proof {
                if !wszystkie_dokladne(dzial@.liczby) {
                    let t = choose|t: int|
                        0 <= t < dzial@.liczby.len() && !(#[trigger] dzial@.liczby[t]).dokladna;
                    assert(min_znaczacych(dzial@.liczby, 0, u32::MAX as nat) <= 58);
                }
            }
            return Err(Blad::UnboundedPrecisionRequested);
        }
        proof {
            if wszystkie_dokladne(dzial@.liczby) {
                assert(min_znaczacych(dzial@.liczby, 0, u32::MAX as nat) == u32::MAX as nat);
            }
        }
        match zaokraglij_znaczaco(&obliczona_licz.liczba, n) {
            Some(w) => {
                if w.skala <= MAKS_SKALA && -MAKS_MANTYSA <= w.mantysa && w.mantysa
                    <= MAKS_MANTYSA {
                    return Ok(liczba { liczba: w, dokladna: obliczona_licz.dokladna });
                }
                return Err(Blad::Overflow);
            },
            None => {
                return Err(Blad::Overflow);
            },
        }
    }
    Err(Blad::EmptyExpression)
}

/// One arithmetic step of the evaluator, as `rust_decimal` computes it.
pub open spec fn krok_operacji(a: DecV, op: oper, b: DecV) -> Option<DecV> {
    match op {
        oper::plus => suma_z(a, b),
        oper::minus => roznica_z(a, b),
        oper::razy => iloczyn_z(a, b),
        oper::dzielenie => iloraz_z(a, b),
    }
}

/// The left-to-right reduction of the evaluator: each step combines the
/// running operand with the next one; in a multiplicative expression the new
/// value is then rounded by the rule of the local pair just combined.  The
/// running operand keeps the exactness mark of the first operand.
pub open spec fn spec_kroki(
    acc: LiczbaV,
    liczby: Seq<LiczbaV>,
    operacje: Seq<oper>,
    mnozenie: bool,
) -> Result<LiczbaV, Blad>
    decreases liczby.len(),
{
    if liczby.len() == 0 || operacje.len() == 0 {
        Ok(acc)
    } else {
        let b = liczby[0];
        let op = operacje[0];
        if op == oper::dzielenie && b.liczba.m == 0 {
            Err(Blad::DivisionByZero)
        } else {
            match krok_operacji(acc.liczba, op, b.liczba) {
                None => Err(Blad::Overflow),
                Some(v) => {
                    let nowa = LiczbaV { liczba: v, dokladna: acc.dokladna };
                    if mnozenie {
                        let para = DzialV { liczby: seq![acc, b], operacje: seq![op] };
                        match spec_zaokraglij(nowa, para) {
                            Err(e) => Err(e),
                            Ok(w) => spec_kroki(w, liczby.skip(1), operacje.skip(1), mnozenie),
                        }
                    } else {
                        spec_kroki(nowa, liczby.skip(1), operacje.skip(1), mnozenie)
                    }
                },
            }
        }
    }
}

/// The whole evaluation: seed with the first operand, reduce left to right,
/// and close an additive expression with one rescale over the entire operand
/// set.
pub open spec fn spec_oblicz(d: DzialV) -> Result<DecV, Blad> {
    if d.liczby.len() == 0 {
        Err(Blad::EmptyExpression)
    } else if czy_addytywne(d.operacje) && czy_multiplikatywne(d.operacje) {
        Err(Blad::MixedOperatorKinds)
    } else {
        match spec_kroki(
            d.liczby[0],
            d.liczby.skip(1),
            d.operacje,
            czy_multiplikatywne(d.operacje),
        ) {
            Err(e) => Err(e),
            Ok(fin) => if czy_addytywne(d.operacje) {
                match spec_zaokraglij(fin, d) {
                    Err(e) => Err(e),
                    Ok(w) => Ok(w.liczba),
                }
            } else {
                Ok(fin.liczba)
            },
        }
    }
}

/// Evaluates an expression left to right under the precision rules.  A
/// single-operand expression returns that operand's value unrounded; mixing
/// additive and multiplicative operators is an error; an additive expression
/// whose operands are all exact has no rounding bound and is an error.
pub fn oblicz(dzial: dzialanie) -> (r: Result<Dec, Blad>)
    requires
        dzial@.wf(),
    ensures
        widok_wyniku_dec(r) == spec_oblicz(dzial@),
        r matches Ok(w) ==> w@.wf(),
        (dzial@.operacje.len() == 0 && dzial@.liczby.len() >= 1) ==> widok_wyniku_dec(r)
            == Ok::<DecV, Blad>(dzial@.liczby[0].liczba),
        (dzial@.liczby.len() >= 1 && czy_addytywne(dzial@.operacje) && czy_multiplikatywne(
            dzial@.operacje,
        )) ==> r == Err::<Dec, Blad>(Blad::MixedOperatorKinds),
        r matches Ok(w) ==> ((czy_addytywne(dzial@.operacje) && !czy_multiplikatywne(
            dzial@.operacje,
        ) && !wszystkie_dokladne(dzial@.liczby)) ==> (w@.s == min_miejsc(
            dzial@.liczby,
            0,
            i32::MAX as int,
        ) as nat || !(-(MAKS_MANTYSA as int) <= 10 * w@.m <= MAKS_MANTYSA as int))),
{
    if dzial.liczby.len() == 0 {
        return Err(Blad::EmptyExpression);
    }
    let dod = zawiera_addytywne(&dzial.operacje);
    let mul = zawiera_multiplikatywne(&dzial.operacje);
    if dod && mul {
        return Err(Blad::MixedOperatorKinds);
    }
    let mut fin: liczba = dzial.liczby[0];
    let mut k: usize = 1;
    proof {
        assert(dzial@.operacje.skip(0) =~= dzial@.operacje);
        assert(dzial@.liczby[0] == dzial.liczby@[0]@);
    }
    while k < dzial.liczby.len() && k <= dzial.operacje.len()
        invariant
            1 <= k,
            k <= dzial@.liczby.len(),
            k - 1 <= dzial@.operacje.len(),
            dzial@.wf(),
            fin@.liczba.wf(),
            mul == czy_multiplikatywne(dzial@.operacje),
            dod == czy_addytywne(dzial@.operacje),
            !(dod && mul),
            dzial@.liczby.len() >= 1,
            spec_kroki(dzial@.liczby[0], dzial@.liczby.skip(1), dzial@.operacje, mul) == spec_kroki(
                fin@,
                dzial@.liczby.skip(k as int),
                dzial@.operacje.skip(k - 1),
                mul,
            ),
        decreases dzial@.liczby.len() - k,
    {
        let ghost reszta_l = dzial@.liczby.skip(k as int);
        let ghost reszta_o = dzial@.operacje.skip(k - 1);
        let b = dzial.liczby[k];
        let op = dzial.operacje[k - 1];
        proof {
            assert(reszta_l[0] == dzial@.liczby[k as int]);
            assert(reszta_o[0] == dzial@.operacje[k - 1]);
            assert(b@ == dzial@.liczby[k as int]);
            assert(reszta_l.skip(1) =~= dzial@.liczby.skip(k + 1));
            assert(reszta_o.skip(1) =~= dzial@.operacje.skip(k as int));
        }
        if op == oper::dzielenie && b.liczba.mantysa == 0 {
            return Err(Blad::DivisionByZero);
        }
        let wynik = match op {
            oper::plus => dodaj(&fin.liczba, &b.liczba),
            oper::minus => odejmij(&fin.liczba, &b.liczba),
            oper::razy => pomnoz(&fin.liczba, &b.liczba),
            oper::dzielenie => podziel(&fin.liczba, &b.liczba),
        };
        let v = match wynik {
            Some(v) => v,
            None => {
                return Err(Blad::Overflow);
            },
        };
        let zapamietana = fin;
        fin = liczba { liczba: v, dokladna: fin.dokladna };
        if mul {
            let mut para_liczby: Vec<liczba> = Vec::new();
            para_liczby.push(zapamietana);
            para_liczby.push(b);
            let mut para_operacje: Vec<oper> = Vec::new();
            para_operacje.push(op);
            let para = dzialanie { liczby: para_liczby, operacje: para_operacje };
            proof {
                assert(para@.liczby =~= seq![zapamietana@, b@]);
                assert(para@.operacje =~= seq![op]);
            }
            match zaokraglij(fin, para) {
                Ok(w) => {
                    fin = w;
                },
                Err(e) => {
                    return Err(e);
                },
            }
        }
        k += 1;
    }
    proof {
        assert(dzial@.liczby.skip(k as int).len() == 0 || dzial@.operacje.skip(k - 1).len() == 0);
    }
    if dod {
        match zaokraglij(fin, dzial) {
            Ok(w) => Ok(w.liczba),
            Err(e) => Err(e),
        }
    } else {
        Ok(fin.liczba)
    }
}

/// An operand text: an optional exactness mark `d` followed by a plain
/// decimal literal.
pub open spec fn parsuj_skladnik(s: Seq<char>) -> Option<LiczbaV> {
    if s.len() >= 1 && s[0] == 'd' {
        match parsuj_literal(s.skip(1)) {
            Some(w) => Some(LiczbaV { liczba: w, dokladna: true }),
            None => None,
        }
    } else {
        match parsuj_literal(s) {
            Some(w) => Some(LiczbaV { liczba: w, dokladna: false }),
            None => None,
        }
    }
}

/// The whole parse: normalize, tokenize on the operator symbols, then map
/// every fragment to an operand and every delimiter to an operator.  A bad
/// operand is reported before a bad operator.
pub open spec fn spec_parsuj(t: Seq<char>) -> Result<DzialV, Blad> {
    let podzial = spec_podzial(normalizuj(t), symbole_operatorow(), Seq::empty());
    if exists|i: int| 0 <= i < podzial.0.len() && parsuj_skladnik(#[trigger] podzial.0[i]) is None {
        Err(Blad::InvalidNumber)
    } else if exists|i: int|
        0 <= i < podzial.1.len() && oper_z_tekstu(#[trigger] podzial.1[i]) is None {
        Err(Blad::InvalidOperator)
    } else {
        Ok(
            DzialV {
                liczby: Seq::new(podzial.0.len(), |i: int| parsuj_skladnik(podzial.0[i])->Some_0),
                operacje: Seq::new(podzial.1.len(), |i: int| oper_z_tekstu(podzial.1[i])->Some_0),
            },
        )
    }
}

/// One operand text, parsed: a leading `d` marks the value exact and is
/// stripped before the literal is read.
fn parsuj_skladnik_exec(s: &str) -> (r: Option<liczba>)
    ensures
        match r {
            Some(l) => parsuj_skladnik(s@) == Some(l@) && l@.liczba.wf(),
            None => parsuj_skladnik(s@) is None,
        },
{
    let n = s.unicode_len();
    if n >= 1 && s.get_char(0) == 'd' {
        let resztka = s.substring_char(1, n);
        proof {
            assert(resztka@ =~= s@.skip(1));
            crate::tekst::lemma_parsuj_literal_wf(s@.skip(1));
        }
        match parsuj_literal_exec(resztka) {
            Some(d) => Some(liczba { liczba: d, dokladna: true }),
            None => None,
        }
    } else {
        proof {
            crate::tekst::lemma_parsuj_literal_wf(s@);
        }
        match parsuj_literal_exec(s) {
            Some(d) => Some(liczba { liczba: d, dokladna: false }),
            None => None,
        }
    }
}

/// Builds an expression from its text.  Commas are accepted as decimal
/// separators and whitespace is ignored; a `d` immediately before a literal
/// marks the operand exact; a fraction longer than the representable
/// precision is rounded at the first digit that cannot be taken.  A
/// malformed operand is `InvalidNumber`; an unrecognized delimiter is
/// `InvalidOperator`.
pub fn stworz_dzial(tekst: &str) -> (r: Result<dzialanie, Blad>)
    ensures
        widok_wyniku_dzial(r) == spec_parsuj(tekst@),
        r matches Ok(d) ==> d@.wf() && d@.liczby.len() <= d@.operacje.len() + 1,
{
    let znorm = normalizuj_exec(tekst);
    let separatory = oper::return_list();
    proof {
        assert(symbole_operatorow()[0].len() == 1);
        assert(symbole_operatorow()[1].len() == 1);
        assert(symbole_operatorow()[2].len() == 1);
        assert(symbole_operatorow()[3].len() == 1);
        assert(forall|t: int|
            0 <= t < separatory@.len() ==> (#[trigger] separatory@[t])@.len() >= 1) by {
            assert(forall|t: int|
                0 <= t < separatory.deep_view().len() ==> (#[trigger] separatory.deep_view()[t]).len()
                    >= 1);
        }
    }
    let (podciagi, operatory) = split_strings_by_list(znorm.as_str(), separatory);
    let ghost podzial = spec_podzial(normalizuj(tekst@), symbole_operatorow(), Seq::empty());
    proof {
        assert(podciagi.deep_view() == podzial.0);
        assert(operatory.deep_view() == podzial.1);
    }
    let mut liczby: Vec<liczba> = Vec::new();
    let mut i: usize = 0;
    while i < podciagi.len()
        invariant
            0 <= i <= podciagi@.len(),
            podzial == spec_podzial(normalizuj(tekst@), symbole_operatorow(), Seq::<char>::empty()),
            podciagi.deep_view() == podzial.0,
            liczby@.len() == i,
            forall|t: int| 0 <= t < i ==> parsuj_skladnik(#[trigger] podzial.0[t]) is Some,
            forall|t: int| 0 <= t < i ==> #[trigger] liczby.deep_view()[t] == parsuj_skladnik(
                podzial.0[t],
            )->Some_0,
            forall|t: int| 0 <= t < i ==> (#[trigger] liczby.deep_view()[t]).liczba.wf(),
        decreases podciagi@.len() - i,
    {
        let ghost fragment = podzial.0[i as int];
        let s = &podciagi[i];
        proof {
            assert(s@ == fragment);
        }
        match parsuj_skladnik_exec(s.as_str()) {
            Some(l) => {
                let ghost przed = liczby.deep_view();
                liczby.push(l);
                proof {
                    assert(liczby.deep_view() =~= przed.push(l@));
                }
            },
            None => {
                proof {
                    assert((i as int) < podzial.0.len());
                    assert(parsuj_skladnik(podzial.0[i as int]) is None);
                    assert(exists|t: int|
                        0 <= t < podzial.0.len() && parsuj_skladnik(#[trigger] podzial.0[t]) is None);
                }
                return Err(Blad::InvalidNumber);
            },
        }
        i += 1;
    }
    let mut operacje: Vec<oper> = Vec::new();
    let mut j: usize = 0;
    while j < operatory.len()
        invariant
            0 <= j <= operatory@.len(),
            podzial == spec_podzial(normalizuj(tekst@), symbole_operatorow(), Seq::<char>::empty()),
            operatory.deep_view() == podzial.1,
            podciagi.deep_view() == podzial.0,
            operacje@.len() == j,
            forall|t: int| 0 <= t < podzial.0.len() ==> parsuj_skladnik(#[trigger] podzial.0[t]) is Some,
            forall|t: int| 0 <= t < j ==> oper_z_tekstu(#[trigger] podzial.1[t]) is Some,
            forall|t: int| 0 <= t < j ==> #[trigger] operacje@[t] == oper_z_tekstu(
                podzial.1[t],
            )->Some_0,
        decreases operatory@.len() - j,
    {
        let o = &operatory[j];
        proof {
            assert(o@ == podzial.1[j as int]);
        }
        match oper::from_str(o.as_str()) {
            Ok(op) => {
                operacje.push(op);
            },
            Err(_) => {
                proof {
                    assert((j as int) < podzial.1.len());
                    assert(oper_z_tekstu(podzial.1[j as int]) is None);
                    assert(exists|t: int|
                        0 <= t < podzial.1.len() && oper_z_tekstu(#[trigger] podzial.1[t]) is None);
                    assert(!(exists|t: int|
                        0 <= t < podzial.0.len() && parsuj_skladnik(#[trigger] podzial.0[t]) is None));
                }
                return Err(Blad::InvalidOperator);
            },
        }
        j += 1;
    }
    let wynik = dzialanie { liczby, operacje };
    proof {
        crate::helpers::lemma_podzial_liczebnosc(
            normalizuj(tekst@),
            symbole_operatorow(),
            Seq::empty(),
        );
        assert(wynik@.liczby =~= Seq::new(
            podzial.0.len(),
            |i: int| parsuj_skladnik(podzial.0[i])->Some_0,
        ));
        assert(wynik@.operacje =~= Seq::new(
            podzial.1.len(),
            |i: int| oper_z_tekstu(podzial.1[i])->Some_0,
        ));
    }
    Ok(wynik)
}

/// The power operation: `base ^ exponent`, rounded to the significant-figure
/// count of the base alone.
pub open spec fn spec_potegowanie(a: DecV, b: DecV) -> Result<DecV, Blad> {
    match potega_z(a, b) {
        None => Err(Blad::Overflow),
        Some(v) => match znaczace_z(v, cyfry_znaczace(a)) {
            None => Err(Blad::Overflow),
            Some(w) => if w.wf() {
                Ok(w)
            } else {
                Err(Blad::Overflow)
            },
        },
    }
}

/// Raises `licz` to the power `do_potegi` and rounds the result to the
/// significant-figure count of `licz` alone; the exponent's precision never
/// constrains the result.  A value outside the representable range is an
/// `Overflow` error.
pub fn potegowanie(licz: Dec, do_potegi: Dec) -> (r: Result<Dec, Blad>)
    requires
        licz@.wf(),
        do_potegi@.wf(),
    ensures
        widok_wyniku_dec(r) == spec_potegowanie(licz@, do_potegi@),
        r matches Ok(w) ==> w@.wf(),
{
    let cyfry = ile_cyfr_znaczacych(licz);
    match poteguj(&licz, &do_potegi) {
        None => Err(Blad::Overflow),
        Some(v) => match zaokraglij_znaczaco(&v, cyfry as u32) {
            None => Err(Blad::Overflow),
            Some(w) => {
                if w.skala <= MAKS_SKALA && -MAKS_MANTYSA <= w.mantysa && w.mantysa
                    <= MAKS_MANTYSA {
                    Ok(w)
                } else {
                    Err(Blad::Overflow)
                }
            },
        },
    }
}

/// The position of the first `^` at or after `k`.
pub open spec fn pierwszy_daszek(s: Seq<char>, k: int) -> Option<int>
    decreases s.len() - k,
{
    if k < 0 || k >= s.len() {
        None
    } else if s[k] == '^' {
        Some(k)
    } else {
        pierwszy_daszek(s, k + 1)
    }
}

/// The position of the last `^` at or before `k`.
pub open spec fn ostatni_daszek(s: Seq<char>, k: int) -> Option<int>
    decreases k + 1,
{
    if k < 0 || k >= s.len() {
        None
    } else if s[k] == '^' {
        Some(k)
    } else {
        ostatni_daszek(s, k - 1)
    }
}

/// The text form of the power operation: the base is everything before the
/// first `^`, the exponent everything after the last one (with no `^` the
/// whole text serves as both), each parsed as a plain literal.
pub open spec fn spec_potegowanie_tekst(t: Seq<char>) -> Result<DecV, Blad> {
    let koniec = match pierwszy_daszek(t, 0) {
        None => t.len() as int,
        Some(i) => i,
    };
    let start = match ostatni_daszek(t, t.len() - 1) {
        None => 0,
        Some(j) => j + 1,
    };
    match (parsuj_literal(t.take(koniec)), parsuj_literal(t.skip(start))) {
        (Some(a), Some(b)) => spec_potegowanie(a, b),
        _ => Err(Blad::InvalidNumber),
    }
}

proof fn lemma_pierwszy_daszek_z(s: Seq<char>, k: int, j: int)
    requires
        0 <= k <= j <= s.len(),
        forall|t: int| k <= t < j ==> #[trigger] s[t] != '^',
        j < s.len() ==> s[j] == '^',
    ensures
        j < s.len() ==> pierwszy_daszek(s, k) == Some(j),
        j == s.len() ==> pierwszy_daszek(s, k) is None,
    decreases j - k,
{
    if k < j {
        lemma_pierwszy_daszek_z(s, k + 1, j);
    }
}

proof fn lemma_ostatni_daszek_z(s: Seq<char>, k: int, j: int)
    requires
        -1 <= j <= k < s.len(),
        forall|t: int| j < t <= k ==> #[trigger] s[t] != '^',
        j >= 0 ==> s[j] == '^',
    ensures
        j >= 0 ==> ostatni_daszek(s, k) == Some(j),
        j < 0 ==> ostatni_daszek(s, k) is None,
    decreases k - j,
{
    if j < k {
        lemma_ostatni_daszek_z(s, k - 1, j);
    }
}

fn pierwszy_daszek_exec(s: &str, n: usize) -> (r: Option<usize>)
    requires
        n == s@.len(),
    ensures
        match r {
            Some(i) => i < n && pierwszy_daszek(s@, 0) == Some(i as int),
            None => pierwszy_daszek(s@, 0) is None,
        },
{
    let mut k: usize = 0;
    while k < n
        invariant
            0 <= k <= n,
            n == s@.len(),
            forall|t: int| 0 <= t < k ==> #[trigger] s@[t] != '^',
        decreases n - k,
    {
        if s.get_char(k) == '^' {
            proof {
                lemma_pierwszy_daszek_z(s@, 0, k as int);
            }
            return Some(k);
        }
        k += 1;
    }
    proof {
        lemma_pierwszy_daszek_z(s@, 0, n as int);
    }
    None
}

fn ostatni_daszek_exec(s: &str, n: usize) -> (r: Option<usize>)
    requires
        n == s@.len(),
    ensures
        match r {
            Some(j) => j < n && ostatni_daszek(s@, n - 1) == Some(j as int),
            None => ostatni_daszek(s@, n - 1) is None,
        },
{
    let mut k: usize = n;
    while k > 0
        invariant
            0 <= k <= n,
            n == s@.len(),
            forall|t: int| k <= t < n ==> #[trigger] s@[t] != '^',
        decreases k,
    {
        k -= 1;
        if s.get_char(k) == '^' {
            proof {
                lemma_ostatni_daszek_z(s@, n - 1, k as int);
            }
            return Some(k);
        }
    }
    proof {
        if n > 0 {
            lemma_ostatni_daszek_z(s@, n - 1, -1);
        }
    }
    None
}

/// The text wrapper of the power operation: splits `"<base>^<exponent>"` on
/// `^`, taking the first and the last segment (extra segments between them
/// are silently ignored), and delegates to `potegowanie`.
pub fn potegowanie_str_wrapper(tekst: String) -> (r: Result<Dec, Blad>)
    ensures
        widok_wyniku_dec(r) == spec_potegowanie_tekst(tekst@),
{
    let s = tekst.as_str();
    let n = s.unicode_len();
    let koniec: usize = match pierwszy_daszek_exec(s, n) {
        None => n,
        Some(i) => i,
    };
    let start: usize = match ostatni_daszek_exec(s, n) {
        None => 0,
        Some(j) => j + 1,
    };
    let baza_txt = s.substring_char(0, koniec);
    let wyk_txt = s.substring_char(start, n);
    proof {
        assert(baza_txt@ =~= tekst@.take(koniec as int));
        assert(wyk_txt@ =~= tekst@.skip(start as int));
        crate::tekst::lemma_parsuj_literal_wf(tekst@.take(koniec as int));
        crate::tekst::lemma_parsuj_literal_wf(tekst@.skip(start as int));
    }
    let baza = parsuj_literal_exec(baza_txt);
    let wyk = parsuj_literal_exec(wyk_txt);
    match (baza, wyk) {
        (Some(a), Some(b)) => potegowanie(a, b),
        _ => Err(Blad::InvalidNumber),
    }
}

} // verus!
