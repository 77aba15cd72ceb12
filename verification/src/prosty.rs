//! The reduced calculator: additive expressions only, with plain operands
//! (no exactness marks).  Evaluation folds the chain without any rounding;
//! rounding to the least decimal-place count of the whole operand set is a
//! separate step.

use vstd::prelude::*;

use crate::dec::{dodaj, odejmij, przeskalowana_z, przeskaluj, roznica_z, suma_z};
use crate::dec::{Dec, DecV, MAKS_MANTYSA, MAKS_SKALA};
use crate::helpers::{spec_podzial, split_strings_by_list};
use crate::tekst::{normalizuj, normalizuj_exec, parsuj_literal, parsuj_literal_exec};
use crate::Blad;

verus! {

/// The two operators of the reduced calculator, in the order in which their
/// symbols are tried by the tokenizer.
#[derive(PartialEq, Eq, Structural, Debug, Copy, Clone)]
pub enum oper {
    plus,
    minus,
}

pub open spec fn symbol(op: oper) -> Seq<char> {
    match op {
        oper::plus => seq!['+'],
        oper::minus => seq!['-'],
    }
}

pub open spec fn oper_z_tekstu(s: Seq<char>) -> Option<oper> {
    if s == symbol(oper::plus) {
        Some(oper::plus)
    } else if s == symbol(oper::minus) {
        Some(oper::minus)
    } else {
        None
    }
}

pub open spec fn symbole_operatorow() -> Seq<Seq<char>> {
    seq![symbol(oper::plus), symbol(oper::minus)]
}

impl oper {
    /// The canonical text of the operator.
    pub fn to_string(&self) -> (r: String)
        ensures
            r@ == symbol(*self),
    {
        let r = match self {
            oper::plus => String::from_str("+"),
            oper::minus => String::from_str("-"),
        };
        proof {
            reveal_strlit("+");
            reveal_strlit("-");
            assert(r@ =~= symbol(*self));
        }
        r
    }

    /// The operator symbols in declaration order.
    pub fn return_list() -> (r: Vec<String>)
        ensures
            r.deep_view() == symbole_operatorow(),
    {
        let mut r: Vec<String> = Vec::new();
        r.push(oper::plus.to_string());
        r.push(oper::minus.to_string());
        proof {
            assert(r.deep_view() =~= symbole_operatorow());
        }
        r
    }

    /// The operator written by a text; an unrecognized symbol is reported
    /// as `InvalidOperator`.
    pub fn from_str(tekst: &str) -> (r: Result<oper, Blad>)
        ensures
            r == match oper_z_tekstu(tekst@) {
                Some(op) => Ok::<oper, Blad>(op),
                None => Err::<oper, Blad>(Blad::InvalidOperator),
            },
    {
        let n = tekst.unicode_len();
        if n == 1 {
            let c = tekst.get_char(0);
            proof {
                assert(tekst@ =~= seq![tekst@[0]]);
            }
            if c == '+' {
                return Ok(oper::plus);
            }
            if c == '-' {
                return Ok(oper::minus);
            }
        }
        Err(Blad::InvalidOperator)
    }
}

/// An expression of the reduced calculator: plain operands and operators.
#[derive(PartialEq, Debug, Clone)]
pub struct dzialanie {
    pub liczby: Vec<Dec>,
    pub operacje: Vec<oper>,
}

/// The mathematical view of a reduced expression.
pub struct DzialV {
    pub liczby: Seq<DecV>,
    pub operacje: Seq<oper>,
}

impl View for dzialanie {
    type V = DzialV;

    open spec fn view(&self) -> DzialV {
        DzialV { liczby: self.liczby.deep_view(), operacje: self.operacje@ }
    }
}

impl DzialV {
    /// Every operand is representable.
    pub open spec fn wf(self) -> bool {
        forall|i: int| 0 <= i < self.liczby.len() ==> (#[trigger] self.liczby[i]).wf()
    }
}

pub open spec fn widok_wyniku_dzial(r: Result<dzialanie, Blad>) -> Result<DzialV, Blad> {
    match r {
        Ok(w) => Ok(w@),
        Err(e) => Err(e),
    }
}

pub open spec fn widok_wyniku_dec(r: Result<Dec, Blad>) -> Result<DecV, Blad> {
    match r {
        Ok(w) => Ok(w@),
        Err(e) => Err(e),
    }
}

/// The whole parse of the reduced calculator: normalize, tokenize on `+` and
/// `-`, then read every fragment as a plain literal (no exactness mark).
pub open spec fn spec_parsuj(t: Seq<char>) -> Result<DzialV, Blad> {
    let podzial = spec_podzial(normalizuj(t), symbole_operatorow(), Seq::empty());
    if exists|i: int| 0 <= i < podzial.0.len() && parsuj_literal(#[trigger] podzial.0[i]) is None {
        Err(Blad::InvalidNumber)
    } else if exists|i: int|
        0 <= i < podzial.1.len() && oper_z_tekstu(#[trigger] podzial.1[i]) is None {
        Err(Blad::InvalidOperator)
    } else {
        Ok(
            DzialV {
                liczby: Seq::new(podzial.0.len(), |i: int| parsuj_literal(podzial.0[i])->Some_0),
                operacje: Seq::new(podzial.1.len(), |i: int| oper_z_tekstu(podzial.1[i])->Some_0),
            },
        )
    }
}

/// Builds a reduced expression from its text.
pub fn stworz_dzial(tekst: &str) -> (r: Result<dzialanie, Blad>)
    ensures
        widok_wyniku_dzial(r) == spec_parsuj(tekst@),
        r matches Ok(d) ==> d@.wf() && d@.liczby.len() <= d@.operacje.len() + 1,
{
    let znorm = normalizuj_exec(tekst);
    let separatory = oper::return_list();
    proof {
        assert(symbole_operatorow()[0].len() == 1);
        assert(symbole_operatorow()[1].len() == 1);
        assert(forall|t: int|
            0 <= t < separatory@.len() ==> (#[trigger] separatory@[t])@.len() >= 1) by {
            assert(forall|t: int|
                0 <= t < separatory.deep_view().len() ==> (#[trigger] separatory.deep_view()[t]).len()
                    >= 1);
        }
    }
    let (podciagi, operatory) = split_strings_by_list(znorm.as_str(), separatory);
    let ghost podzial = spec_podzial(normalizuj(tekst@), symbole_operatorow(), Seq::empty());
    proof {
        assert(podciagi.deep_view() == podzial.0);
        assert(operatory.deep_view() == podzial.1);
    }
    let mut liczby: Vec<Dec> = Vec::new();
    let mut i: usize = 0;
    while i < podciagi.len()
        invariant
            0 <= i <= podciagi@.len(),
            podzial == spec_podzial(normalizuj(tekst@), symbole_operatorow(), Seq::<char>::empty()),
            podciagi.deep_view() == podzial.0,
            liczby@.len() == i,
            forall|t: int| 0 <= t < i ==> parsuj_literal(#[trigger] podzial.0[t]) is Some,
            forall|t: int| 0 <= t < i ==> #[trigger] liczby.deep_view()[t] == parsuj_literal(
                podzial.0[t],
            )->Some_0,
            forall|t: int| 0 <= t < i ==> (#[trigger] liczby.deep_view()[t]).wf(),
        decreases podciagi@.len() - i,
    {
        let ghost fragment = podzial.0[i as int];
        let s = &podciagi[i];
        proof {
            assert(s@ == fragment);
            crate::tekst::lemma_parsuj_literal_wf(fragment);
        }
        match parsuj_literal_exec(s.as_str()) {
            Some(w) => {
                let ghost przed = liczby.deep_view();
                liczby.push(w);
                proof {
                    assert(liczby.deep_view() =~= przed.push(w@));
                }
            },
            None => {
                proof {
                    assert((i as int) < podzial.0.len());
                    assert(parsuj_literal(podzial.0[i as int]) is None);
                    assert(exists|t: int|
                        0 <= t < podzial.0.len() && parsuj_literal(#[trigger] podzial.0[t]) is None);
                }
                return Err(Blad::InvalidNumber);
            },
        }
        i += 1;
    }
    let mut operacje: Vec<oper> = Vec::new();
    let mut j: usize = 0;
    while j < operatory.len()
        invariant
            0 <= j <= operatory@.len(),
            podzial == spec_podzial(normalizuj(tekst@), symbole_operatorow(), Seq::<char>::empty()),
            operatory.deep_view() == podzial.1,
            podciagi.deep_view() == podzial.0,
            operacje@.len() == j,
            forall|t: int| 0 <= t < podzial.0.len() ==> parsuj_literal(#[trigger] podzial.0[t]) is Some,
            forall|t: int| 0 <= t < j ==> oper_z_tekstu(#[trigger] podzial.1[t]) is Some,
            forall|t: int| 0 <= t < j ==> #[trigger] operacje@[t] == oper_z_tekstu(
                podzial.1[t],
            )->Some_0,
        decreases operatory@.len() - j,
    {
        let o = &operatory[j];
        proof {
            assert(o@ == podzial.1[j as int]);
        }
        match oper::from_str(o.as_str()) {
            Ok(op) => {
                operacje.push(op);
            },
            Err(_) => {
                proof {
                    assert((j as int) < podzial.1.len());
                    assert(oper_z_tekstu(podzial.1[j as int]) is None);
                    assert(exists|t: int|
                        0 <= t < podzial.1.len() && oper_z_tekstu(#[trigger] podzial.1[t]) is None);
                    assert(!(exists|t: int|
                        0 <= t < podzial.0.len() && parsuj_literal(#[trigger] podzial.0[t]) is None));
                }
                return Err(Blad::InvalidOperator);
            },
        }
        j += 1;
    }
    let wynik = dzialanie { liczby, operacje };
    proof {
        crate::helpers::lemma_podzial_liczebnosc(
            normalizuj(tekst@),
            symbole_operatorow(),
            Seq::empty(),
        );
        assert(wynik@.liczby =~= Seq::new(
            podzial.0.len(),
            |i: int| parsuj_literal(podzial.0[i])->Some_0,
        ));
        assert(wynik@.operacje =~= Seq::new(
            podzial.1.len(),
            |i: int| oper_z_tekstu(podzial.1[i])->Some_0,
        ));
    }
    Ok(wynik)
}

/// The fold of the least decimal-place count over all operands, starting
/// from the sentinel `dotad`.
pub open spec fn min_miejsc(liczby: Seq<DecV>, k: int, dotad: int) -> int
    decreases liczby.len() - k,
{
    if k < 0 || k >= liczby.len() {
        dotad
    } else {
        let nast = if (liczby[k].s as int) < dotad {
            liczby[k].s as int
        } else {
            dotad
        };
        min_miejsc(liczby, k + 1, nast)
    }
}

proof fn lemma_min_miejsc(liczby: Seq<DecV>, k: int, dotad: int)
    requires
        0 <= k <= liczby.len(),
        0 <= dotad,
        forall|i: int| 0 <= i < liczby.len() ==> (#[trigger] liczby[i]).wf(),
    ensures
        0 <= min_miejsc(liczby, k, dotad) <= dotad,
        k < liczby.len() ==> min_miejsc(liczby, k, dotad) <= MAKS_SKALA as int,
        k == liczby.len() ==> min_miejsc(liczby, k, dotad) == dotad,
    decreases liczby.len() - k,
{
    if k < liczby.len() {
        let nast = if (liczby[k].s as int) < dotad {
            liczby[k].s as int
        } else {
            dotad
        };
        lemma_min_miejsc(liczby, k + 1, nast);
    }
}

fn min_miejsc_exec(liczby: &Vec<Dec>) -> (r: i32)
    requires
        forall|i: int| 0 <= i < liczby.deep_view().len() ==> (#[trigger] liczby.deep_view()[i]).wf(),
    ensures
        r == min_miejsc(liczby.deep_view(), 0, i32::MAX as int),
{
    let mut najmniejsza: i32 = i32::MAX;
    let mut k: usize = 0;
    while k < liczby.len()
        invariant
            0 <= k <= liczby@.len(),
            liczby@.len() == liczby.deep_view().len(),
            forall|i: int| 0 <= i < liczby.deep_view().len() ==> (#[trigger] liczby.deep_view()[i]).wf(),
            0 <= najmniejsza,
            min_miejsc(liczby.deep_view(), 0, i32::MAX as int) == min_miejsc(
                liczby.deep_view(),
                k as int,
                najmniejsza as int,
            ),
        decreases liczby@.len() - k,
    {
        let l = liczby[k];
        proof {
            assert(liczby.deep_view()[k as int] == liczby@[k as int]@);
        }
        let po_przecinku: i32 = l.skala as i32;
        if po_przecinku < najmniejsza {
            najmniejsza = po_przecinku;
        }
        k += 1;
    }
    najmniejsza
}

/// Least decimal places among all operands; `i32::MAX` when there are none.
pub fn najmniej_dokladna_liczba(dzial: dzialanie) -> (r: i32)
    requires
        dzial@.wf(),
    ensures
        r == min_miejsc(dzial@.liczby, 0, i32::MAX as int),
{
    proof {
        assert(dzial@.liczby == dzial.liczby.deep_view());
        assert(forall|i: int|
            0 <= i < dzial.liczby.deep_view().len() ==> (#[trigger] dzial.liczby.deep_view()[i]).wf()) by {
            assert(forall|i: int|
                0 <= i < dzial@.liczby.len() ==> (#[trigger] dzial@.liczby[i]).wf());
        }
    }
    min_miejsc_exec(&dzial.liczby)
}

/// The left-to-right reduction of the reduced calculator: plain addition and
/// subtraction, no rounding.
pub open spec fn spec_kroki(acc: DecV, liczby: Seq<DecV>, operacje: Seq<oper>) -> Result<
    DecV,
    Blad,
>
    decreases liczby.len(),
{
    if liczby.len() == 0 || operacje.len() == 0 {
        Ok(acc)
    } else {
        let c = match operacje[0] {
            oper::plus => suma_z(acc, liczby[0]),
            oper::minus => roznica_z(acc, liczby[0]),
        };
        match c {
            None => Err(Blad::Overflow),
            Some(v) => spec_kroki(v, liczby.skip(1), operacje.skip(1)),
        }
    }
}

/// The whole evaluation of the reduced calculator: seed with the first
/// operand and fold, leaving the result unrounded.
pub open spec fn spec_oblicz(d: DzialV) -> Result<DecV, Blad> {
    if d.liczby.len() == 0 {
        Err(Blad::EmptyExpression)
    } else {
        spec_kroki(d.liczby[0], d.liczby.skip(1), d.operacje)
    }
}

/// Evaluates a reduced expression left to right, without rounding.
pub fn oblicz(dzial: dzialanie) -> (r: Result<Dec, Blad>)
    requires
        dzial@.wf(),
    ensures
        widok_wyniku_dec(r) == spec_oblicz(dzial@),
        r matches Ok(w) ==> w@.wf(),
{
    if dzial.liczby.len() == 0 {
        return Err(Blad::EmptyExpression);
    }
    let mut fin: Dec = dzial.liczby[0];
    let mut k: usize = 1;
    proof {
        assert(dzial@.operacje.skip(0) =~= dzial@.operacje);
        assert(dzial@.liczby[0] == dzial.liczby@[0]@);
    }
    while k < dzial.liczby.len() && k <= dzial.operacje.len()
        invariant
            1 <= k,
            k <= dzial@.liczby.len(),
            k - 1 <= dzial@.operacje.len(),
            dzial@.wf(),
            fin@.wf(),
            dzial@.liczby.len() >= 1,
            spec_kroki(dzial@.liczby[0], dzial@.liczby.skip(1), dzial@.operacje) == spec_kroki(
                fin@,
                dzial@.liczby.skip(k as int),
                dzial@.operacje.skip(k - 1),
            ),
        decreases dzial@.liczby.len() - k,
    {
        let ghost reszta_l = dzial@.liczby.skip(k as int);
        let ghost reszta_o = dzial@.operacje.skip(k - 1);
        let b = dzial.liczby[k];
        let op = dzial.operacje[k - 1];
        proof {
            assert(reszta_l[0] == dzial@.liczby[k as int]);
            assert(reszta_o[0] == dzial@.operacje[k - 1]);
            assert(b@ == dzial@.liczby[k as int]);
            assert(reszta_l.skip(1) =~= dzial@.liczby.skip(k + 1));
            assert(reszta_o.skip(1) =~= dzial@.operacje.skip(k as int));
        }
        let wynik = match op {
            oper::plus => dodaj(&fin, &b),
            oper::minus => odejmij(&fin, &b),
        };
        match wynik {
            Some(v) => {
                fin = v;
            },
            None => {
                return Err(Blad::Overflow);
            },
        }
        k += 1;
    }
    proof {
        assert(dzial@.liczby.skip(k as int).len() == 0 || dzial@.operacje.skip(k - 1).len() == 0);
    }
    Ok(fin)
}

/// The additive rounding of the reduced calculator: rescale to the least
/// decimal-place count of the whole operand set; with no operands there is
/// no bound.
pub open spec fn spec_zaokraglij(w: DecV, d: DzialV) -> Result<DecV, Blad> {
    let n = min_miejsc(d.liczby, 0, i32::MAX as int);
    if n == i32::MAX as int {
        Err(Blad::UnboundedPrecisionRequested)
    } else {
        Ok(przeskalowana_z(w, n as nat))
    }
}

/// Rounds an already computed value to the least decimal-place count among
/// the expression's operands.  The result carries exactly that count unless
/// even one more digit of scale would leave the representable mantissa
/// range.
pub fn zaokraglij(obliczona_licz: Dec, dzial: dzialanie) -> (r: Result<Dec, Blad>)
    requires
        obliczona_licz@.wf(),
        dzial@.wf(),
    ensures
        widok_wyniku_dec(r) == spec_zaokraglij(obliczona_licz@, dzial@),
        r matches Ok(w) ==> w@.wf() && (w@.s == min_miejsc(dzial@.liczby, 0, i32::MAX as int)
            as nat || !(-(MAKS_MANTYSA as int) <= 10 * w@.m <= MAKS_MANTYSA as int)),
{
    proof {
        assert(dzial@.liczby == dzial.liczby.deep_view());
        assert(forall|i: int|
            0 <= i < dzial.liczby.deep_view().len() ==> (#[trigger] dzial.liczby.deep_view()[i]).wf()) by {
            assert(forall|i: int|
                0 <= i < dzial@.liczby.len() ==> (#[trigger] dzial@.liczby[i]).wf());
        }
        lemma_min_miejsc(dzial@.liczby, 0, i32::MAX as int);
    }
    let n = min_miejsc_exec(&dzial.liczby);
    if n == i32::MAX {
        return Err(Blad::UnboundedPrecisionRequested);
    }
    Ok(przeskaluj(&obliczona_licz, n as u32))
}

} // verus!
