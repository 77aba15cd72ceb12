//! The numeric model: a decimal number held as an integer mantissa together
//! with a scale (the count of digits after the decimal point), exactly the
//! representation that `rust_decimal::Decimal` uses.  All arithmetic on such
//! numbers is performed by `rust_decimal` behind the trusted wrappers below;
//! everything that merely reads the representation (precision counts,
//! rendering, parsing) is verified in the other modules.

use vstd::prelude::*;

use rust_decimal::Decimal;
use rust_decimal::MathematicalOps;

verus! {

/// The largest mantissa a `rust_decimal::Decimal` can hold: `2^96 - 1`.
pub const MAKS_MANTYSA: i128 = 79228162514264337593543950335;

/// The largest scale a `rust_decimal::Decimal` can hold.
pub const MAKS_SKALA: u32 = 28;

/// A decimal number: the value `mantysa * 10^(-skala)`.
#[derive(PartialEq, Eq, Structural, Debug, Clone, Copy)]
pub struct Dec {
    pub mantysa: i128,
    pub skala: u32,
}

/// The mathematical view of a `Dec`: an unbounded mantissa and scale.
pub struct DecV {
    pub m: int,
    pub s: nat,
}

impl View for Dec {
    type V = DecV;

    open spec fn view(&self) -> DecV {
        DecV { m: self.mantysa as int, s: self.skala as nat }
    }
}

impl DeepView for Dec {
    type V = DecV;

    open spec fn deep_view(&self) -> DecV {
        self.view()
    }
}

pub open spec fn dv(m: int, s: nat) -> DecV {
    DecV { m: m, s: s }
}

impl DecV {
    /// The representation invariant: the scale and mantissa fit what
    /// `rust_decimal::Decimal` can represent.
    pub open spec fn wf(self) -> bool {
        self.s <= MAKS_SKALA as nat && -(MAKS_MANTYSA as int) <= self.m <= MAKS_MANTYSA as int
    }
}

pub open spec fn pow10(n: nat) -> int
    decreases n,
{
    if n == 0 {
        1
    } else {
        10 * pow10((n - 1) as nat)
    }
}

pub proof fn lemma_pow10_dodatnia(n: nat)
    ensures
        pow10(n) >= 1,
    decreases n,
{
    if n > 0 {
        lemma_pow10_dodatnia((n - 1) as nat);
    }
}

pub proof fn lemma_pow10_rosnie(a: nat, b: nat)
    requires
        a <= b,
    ensures
        pow10(a) <= pow10(b),
    decreases b,
{
    if a < b {
        lemma_pow10_rosnie(a, (b - 1) as nat);
        lemma_pow10_dodatnia((b - 1) as nat);
    }
}

/// The value of a decimal scaled to a common denominator of `10^MAKS_SKALA`,
/// so that values of different scales compare exactly.
pub open spec fn val28(d: DecV) -> int {
    if d.s <= MAKS_SKALA as nat {
        d.m * pow10((MAKS_SKALA as nat - d.s) as nat)
    } else {
        d.m
    }
}

/// The count of decimal digits of `n`, where zero has one digit.
pub open spec fn ile_cyfr(n: nat) -> nat
    decreases n,
{
    if n < 10 {
        1
    } else {
        1 + ile_cyfr(n / 10)
    }
}

/// The count of characters that survive the significant-figure scan of the
/// rendered number: the decimal point is dropped, then leading zeros are
/// stripped and what remains is counted.  A negative number starts with the
/// minus sign, so nothing is stripped from it and every rendered digit (plus
/// the sign itself) is counted.  Zero, whose rendering is all zeros, counts
/// as zero digits.
pub open spec fn cyfry_znaczace(d: DecV) -> nat {
    if d.m == 0 {
        0
    } else if d.m > 0 {
        ile_cyfr(d.m as nat)
    } else {
        1 + ile_cyfr(((-d.m) as nat) / (pow10(d.s) as nat)) + d.s
    }
}

pub open spec fn widok_opt(r: Option<Dec>) -> Option<DecV> {
    match r {
        Some(d) => Some(d@),
        None => None,
    }
}

/// The larger of the two scales: the scale at which the operands of an
/// addition are aligned.
pub open spec fn maks_skala(a: DecV, b: DecV) -> nat {
    if a.s >= b.s {
        a.s
    } else {
        b.s
    }
}

/// The mantissa of `a` aligned to the common scale of `a` and `b`.
pub open spec fn wyrownana(a: DecV, b: DecV) -> int {
    a.m * pow10((maks_skala(a, b) - a.s) as nat)
}

/// Both aligned mantissas stay representable.
pub open spec fn wyrownanie_miesci_sie(a: DecV, b: DecV) -> bool {
    &&& -(MAKS_MANTYSA as int) <= wyrownana(a, b) <= MAKS_MANTYSA as int
    &&& -(MAKS_MANTYSA as int) <= wyrownana(b, a) <= MAKS_MANTYSA as int
}

/// Rounding half away from zero: `m` divided by `10^k`, with ties in the
/// discarded half rounding the magnitude up.
pub open spec fn zaokr_pol(m: int, k: nat) -> int {
    let p = pow10(k);
    if m >= 0 {
        (m + p / 2) / p
    } else {
        -((-m + p / 2) / p)
    }
}

/// The result holds a value equal to `a`, rendered at the same or a finer
/// scale.
pub open spec fn ta_sama_wartosc(a: DecV, r: Option<Dec>) -> bool {
    match r {
        Some(v) => val28(v@) == val28(a) && v@.s >= a.s,
        None => false,
    }
}

/// A present result is representable.
pub open spec fn wynik_uformowany(r: Option<Dec>) -> bool {
    match r {
        Some(v) => v@.wf(),
        None => true,
    }
}

pub uninterp spec fn suma_z(a: DecV, b: DecV) -> Option<DecV>;

pub uninterp spec fn roznica_z(a: DecV, b: DecV) -> Option<DecV>;

pub uninterp spec fn iloczyn_z(a: DecV, b: DecV) -> Option<DecV>;

pub uninterp spec fn iloraz_z(a: DecV, b: DecV) -> Option<DecV>;

pub uninterp spec fn przeskalowana_z(a: DecV, n: nat) -> DecV;

pub uninterp spec fn znaczace_z(a: DecV, n: nat) -> Option<DecV>;

pub uninterp spec fn potega_z(a: DecV, b: DecV) -> Option<DecV>;

/// Relies on `rust_decimal::Decimal::checked_add`: `None` on overflow, and
/// the exact sum at the common scale whenever both operands are non-zero and
/// the aligned mantissas and their sum stay representable.
#[verifier::external_body]
pub(crate) fn dodaj(a: &Dec, b: &Dec) -> (r: Option<Dec>)
    requires
        a@.wf(),
        b@.wf(),
    ensures
        widok_opt(r) == suma_z(a@, b@),
        r matches Some(v) ==> v@.wf(),
        (a@.m != 0 && b@.m != 0 && wyrownanie_miesci_sie(a@, b@) && -(MAKS_MANTYSA as int)
            <= wyrownana(a@, b@) + wyrownana(b@, a@) <= MAKS_MANTYSA as int) ==> widok_opt(r)
            == Some(dv(wyrownana(a@, b@) + wyrownana(b@, a@), maks_skala(a@, b@))),
{
    let x = Decimal::from_i128_with_scale(a.mantysa, a.skala);
    let y = Decimal::from_i128_with_scale(b.mantysa, b.skala);
    x.checked_add(y).map(|v| Dec { mantysa: v.mantissa(), skala: v.scale() })
}

/// Relies on `rust_decimal::Decimal::checked_sub`: `None` on overflow, and
/// the exact difference at the common scale whenever both operands are
/// non-zero and the aligned mantissas and their difference stay representable.
#[verifier::external_body]
pub(crate) fn odejmij(a: &Dec, b: &Dec) -> (r: Option<Dec>)
    requires
        a@.wf(),
        b@.wf(),
    ensures
        widok_opt(r) == roznica_z(a@, b@),
        r matches Some(v) ==> v@.wf(),
        (a@.m != 0 && b@.m != 0 && wyrownanie_miesci_sie(a@, b@) && -(MAKS_MANTYSA as int)
            <= wyrownana(a@, b@) - wyrownana(b@, a@) <= MAKS_MANTYSA as int) ==> widok_opt(r)
            == Some(dv(wyrownana(a@, b@) - wyrownana(b@, a@), maks_skala(a@, b@))),
{
    let x = Decimal::from_i128_with_scale(a.mantysa, a.skala);
    let y = Decimal::from_i128_with_scale(b.mantysa, b.skala);
    x.checked_sub(y).map(|v| Dec { mantysa: v.mantissa(), skala: v.scale() })
}

/// Relies on `rust_decimal::Decimal::checked_mul`: `None` on overflow, zero
/// (at scale zero) when either factor is zero, and the exact product when the
/// product of the mantissas and the sum of the scales stay representable.
#[verifier::external_body]
pub(crate) fn pomnoz(a: &Dec, b: &Dec) -> (r: Option<Dec>)
    requires
        a@.wf(),
        b@.wf(),
    ensures
        widok_opt(r) == iloczyn_z(a@, b@),
        r matches Some(v) ==> v@.wf(),
        (a@.m == 0 || b@.m == 0) ==> widok_opt(r) == Some(dv(0, 0)),
        (a@.m != 0 && b@.m != 0 && -(MAKS_MANTYSA as int) <= a@.m * b@.m <= MAKS_MANTYSA as int
            && a@.s + b@.s <= MAKS_SKALA as nat) ==> widok_opt(r) == Some(
            dv(a@.m * b@.m, a@.s + b@.s),
        ),
{
    let x = Decimal::from_i128_with_scale(a.mantysa, a.skala);
    let y = Decimal::from_i128_with_scale(b.mantysa, b.skala);
    x.checked_mul(y).map(|v| Dec { mantysa: v.mantissa(), skala: v.scale() })
}

/// Relies on `rust_decimal::Decimal::checked_div`: the quotient rounded to
/// the representable precision, or `None` on overflow.  The divisor must not
/// be zero.
#[verifier::external_body]
pub(crate) fn podziel(a: &Dec, b: &Dec) -> (r: Option<Dec>)
    requires
        a@.wf(),
        b@.wf(),
        b@.m != 0,
    ensures
        widok_opt(r) == iloraz_z(a@, b@),
        r matches Some(v) ==> v@.wf(),
{
    let x = Decimal::from_i128_with_scale(a.mantysa, a.skala);
    let y = Decimal::from_i128_with_scale(b.mantysa, b.skala);
    x.checked_div(y).map(|v| Dec { mantysa: v.mantissa(), skala: v.scale() })
}

/// Relies on `rust_decimal::Decimal::rescale`: scaling down rounds half away
/// from zero at the requested scale; scaling up preserves the value and
/// reaches the requested scale unless the mantissa would leave the
/// representable range, in which case it stops at the largest scale that
/// still fits.
#[verifier::external_body]
pub(crate) fn przeskaluj(a: &Dec, n: u32) -> (r: Dec)
    requires
        a@.wf(),
        n <= MAKS_SKALA,
    ensures
        r@ == przeskalowana_z(a@, n as nat),
        r@.wf(),
        n as nat <= a@.s ==> r@.s == n as nat && r@.m == zaokr_pol(a@.m, (a@.s - n as nat) as nat),
        a@.s < n as nat ==> {
            &&& val28(r@) == val28(a@)
            &&& a@.s <= r@.s <= n as nat
            &&& (r@.s == n as nat || !(-(MAKS_MANTYSA as int) <= 10 * r@.m <= MAKS_MANTYSA as int))
        },
{
    let mut x = Decimal::from_i128_with_scale(a.mantysa, a.skala);
    x.rescale(n);
    Dec { mantysa: x.mantissa(), skala: x.scale() }
}

/// Relies on `rust_decimal::Decimal::round_sf`: rounding to a number of
/// significant figures, `None` on overflow.  Zero input or zero requested
/// digits give zero; a request equal to the mantissa's digit count returns
/// the number unchanged; a smaller request rounds down within the
/// representable scales; a larger request pads with trailing zeros without
/// changing the value.  The padding stops only at the 96-bit mantissa limit,
/// not at the scale cap, so the result's scale is known to be representable
/// only when the padded scale itself is: callers must test the result
/// otherwise.
#[verifier::external_body]
pub(crate) fn zaokraglij_znaczaco(a: &Dec, cyfry: u32) -> (r: Option<Dec>)
    requires
        a@.wf(),
    ensures
        widok_opt(r) == znaczace_z(a@, cyfry as nat),
        r matches Some(v) ==> -(MAKS_MANTYSA as int) <= v@.m <= MAKS_MANTYSA as int,
        cyfry == 0 ==> widok_opt(r) == Some(dv(0, 0)),
        a@.m == 0 ==> widok_opt(r) == Some(dv(0, 0)),
        (a@.m != 0 && cyfry as nat == ile_cyfr((if a@.m > 0 { a@.m } else { -a@.m }) as nat))
            ==> widok_opt(r) == Some(a@),
        (a@.m != 0 && (cyfry as nat) < ile_cyfr((if a@.m > 0 { a@.m } else { -a@.m }) as nat))
            ==> wynik_uformowany(r),
        (a@.m != 0 && cyfry as nat > ile_cyfr((if a@.m > 0 { a@.m } else { -a@.m }) as nat)
            && a@.s + cyfry as nat <= MAKS_SKALA as nat + ile_cyfr(
            (if a@.m > 0 { a@.m } else { -a@.m }) as nat,
        )) ==> wynik_uformowany(r) && ta_sama_wartosc(a@, r),
{
    let x = Decimal::from_i128_with_scale(a.mantysa, a.skala);
    x.round_sf(cyfry).map(|v| Dec { mantysa: v.mantissa(), skala: v.scale() })
}

/// Relies on `rust_decimal::MathematicalOps::checked_powd`: real-valued
/// exponentiation, `None` on overflow.  An exponent of zero gives one; a zero
/// base with a non-zero exponent gives zero.  The non-trivial cases go
/// through `ln` and `exp` series internally, still a function of the two
/// arguments alone.
#[verifier::external_body]
pub(crate) fn poteguj(a: &Dec, b: &Dec) -> (r: Option<Dec>)
    requires
        a@.wf(),
        b@.wf(),
    ensures
        widok_opt(r) == potega_z(a@, b@),
        r matches Some(v) ==> v@.wf(),
        b@.m == 0 ==> widok_opt(r) == Some(dv(1, 0)),
        (a@.m == 0 && b@.m != 0) ==> widok_opt(r) == Some(dv(0, 0)),
{
    let x = Decimal::from_i128_with_scale(a.mantysa, a.skala);
    let y = Decimal::from_i128_with_scale(b.mantysa, b.skala);
    x.checked_powd(y).map(|v| Dec { mantysa: v.mantissa(), skala: v.scale() })
}

} // verus!
