//! The tokenizer: splits a text into the fragments that stand between
//! delimiter occurrences and the list of delimiters encountered, scanning
//! left to right and testing the delimiter list in its given order at every
//! position.  Empty fragments (from leading, trailing or consecutive
//! delimiters) are silently dropped.

use vstd::prelude::*;

verus! {

/// `d` is a usable delimiter text lying at the start of `s`.
pub open spec fn czy_prefiks(s: Seq<char>, d: Seq<char>) -> bool {
    1 <= d.len() <= s.len() && s.subrange(0, d.len() as int) == d
}

/// The first delimiter, in list order starting at position `k`, whose text
/// lies at the start of `s`; empty delimiter texts never match.
pub open spec fn pierwszy_separator(s: Seq<char>, separatory: Seq<Seq<char>>, k: int) -> Option<
    int,
>
    decreases separatory.len() - k,
{
    if k < 0 || k >= separatory.len() {
        None
    } else if czy_prefiks(s, separatory[k]) {
        Some(k)
    } else {
        pierwszy_separator(s, separatory, k + 1)
    }
}

proof fn lemma_pierwszy_separator_granice(s: Seq<char>, separatory: Seq<Seq<char>>, k: int)
    ensures
        pierwszy_separator(s, separatory, k) matches Some(j) ==> 0 <= j < separatory.len()
            && czy_prefiks(s, separatory[j]),
    decreases separatory.len() - k,
{
    if 0 <= k < separatory.len() && !czy_prefiks(s, separatory[k]) {
        lemma_pierwszy_separator_granice(s, separatory, k + 1);
    }
}

proof fn lemma_pierwszy_separator_z(s: Seq<char>, separatory: Seq<Seq<char>>, k: int, j: int)
    requires
        0 <= k <= j <= separatory.len(),
        forall|t: int| k <= t < j ==> !czy_prefiks(s, #[trigger] separatory[t]),
        j < separatory.len() ==> czy_prefiks(s, separatory[j]),
    ensures
        j < separatory.len() ==> pierwszy_separator(s, separatory, k) == Some(j),
        j == separatory.len() ==> pierwszy_separator(s, separatory, k) is None,
    decreases j - k,
{
    if k < j {
        lemma_pierwszy_separator_z(s, separatory, k + 1, j);
    }
}

/// The split of `s`, with `biezacy` the fragment text accumulated before `s`
/// begins: first the fragments, then the delimiters, each in scan order.
pub open spec fn spec_podzial(s: Seq<char>, separatory: Seq<Seq<char>>, biezacy: Seq<char>) -> (
    Seq<Seq<char>>,
    Seq<Seq<char>>,
)
    decreases s.len(),
    via spec_podzial_dec
{
    if s.len() == 0 {
        (
            if biezacy.len() == 0 {
                Seq::<Seq<char>>::empty()
            } else {
                seq![biezacy]
            },
            Seq::<Seq<char>>::empty(),
        )
    } else {
        match pierwszy_separator(s, separatory, 0) {
            Some(k) => {
                let d = separatory[k];
                let reszta = spec_podzial(s.skip(d.len() as int), separatory, Seq::empty());
                (
                    if biezacy.len() == 0 {
                        reszta.0
                    } else {
                        seq![biezacy] + reszta.0
                    },
                    seq![d] + reszta.1,
                )
            },
            None => spec_podzial(s.skip(1), separatory, biezacy.push(s[0])),
        }
    }
}

#[via_fn]
proof fn spec_podzial_dec(s: Seq<char>, separatory: Seq<Seq<char>>, biezacy: Seq<char>) {
    if s.len() > 0 {
        lemma_pierwszy_separator_granice(s, separatory, 0);
    }
}

/// The split never yields more fragments than one past the count of
/// delimiters found: dropped empty fragments can only lower the left count.
pub proof fn lemma_podzial_liczebnosc(s: Seq<char>, separatory: Seq<Seq<char>>, biezacy: Seq<char>)
    ensures
        spec_podzial(s, separatory, biezacy).0.len() <= spec_podzial(s, separatory, biezacy).1.len()
            + 1,
    decreases s.len(),
{
    if s.len() > 0 {
        match pierwszy_separator(s, separatory, 0) {
            Some(k) => {
                lemma_pierwszy_separator_granice(s, separatory, 0);
                lemma_podzial_liczebnosc(s.skip(separatory[k].len() as int), separatory, Seq::empty());
            },
            None => {
                lemma_podzial_liczebnosc(s.skip(1), separatory, biezacy.push(s[0]));
            },
        }
    }
}

/// Relies on `String::push`: appends one character.
#[verifier::external_body]
pub(crate) fn dopisz_znak(s: &mut String, c: char)
    ensures
        final(s)@ == old(s)@.push(c),
{
    s.push(c);
}

/// Does a usable (non-empty) prefix of `input` starting at character `i`
/// equal `d`?
fn prefiks_od(input: &str, i: usize, n: usize, d: &str) -> (r: bool)
    requires
        n == input@.len(),
        i <= n,
    ensures
        r == czy_prefiks(input@.skip(i as int), d@),
{
    let dl = d.unicode_len();
    if dl < 1 || dl > n - i {
        return false;
    }
    let mut c: usize = 0;
    while c < dl
        invariant
            0 <= c <= dl,
            dl == d@.len(),
            n == input@.len(),
            i + dl <= n,
            1 <= dl,
            forall|t: int| 0 <= t < c ==> input@.skip(i as int)[t] == d@[t],
        decreases dl - c,
    {
        let zi = input.get_char(i + c);
        let zd = d.get_char(c);
        if zi != zd {
            proof {
                assert(input@.skip(i as int).subrange(0, dl as int)[c as int] != d@[c as int]);
            }
            return false;
        }
        c += 1;
    }
    proof {
        assert(input@.skip(i as int).subrange(0, dl as int) =~= d@);
    }
    true
}

/// The first delimiter of the list lying at character position `i` of
/// `input`, if any.
fn znajdz_separator(input: &str, i: usize, n: usize, separatory: &Vec<String>) -> (r: Option<
    usize,
>)
    requires
        n == input@.len(),
        i <= n,
    ensures
        match r {
            Some(j) => 0 <= j < separatory@.len() && pierwszy_separator(
                input@.skip(i as int),
                separatory.deep_view(),
                0,
            ) == Some(j as int),
            None => pierwszy_separator(input@.skip(i as int), separatory.deep_view(), 0) is None,
        },
{
    let mut j: usize = 0;
    while j < separatory.len()
        invariant
            0 <= j <= separatory@.len(),
            n == input@.len(),
            i <= n,
            forall|t: int|
                0 <= t < j ==> !czy_prefiks(input@.skip(i as int), #[trigger] separatory.deep_view()[t]),
        decreases separatory@.len() - j,
    {
        if prefiks_od(input, i, n, separatory[j].as_str()) {
            proof {
                lemma_pierwszy_separator_z(
                    input@.skip(i as int),
                    separatory.deep_view(),
                    0,
                    j as int,
                );
            }
            return Some(j);
        }
        j += 1;
    }
    proof {
        lemma_pierwszy_separator_z(input@.skip(i as int), separatory.deep_view(), 0, j as int);
    }
    None
}

/// Splits `input` into the fragments standing between delimiter occurrences,
/// together with the delimiters encountered, each in scan order.  At every
/// position the delimiter list is tested in its given order; empty fragments
/// are silently dropped.  Empty delimiter texts never match and would make
/// the scan meaningless, so they are excluded.
pub fn split_strings_by_list(input: &str, delimiters: Vec<String>) -> (r: (Vec<String>, Vec<
    String,
>))
    requires
        forall|t: int| 0 <= t < delimiters@.len() ==> (#[trigger] delimiters@[t])@.len() >= 1,
    ensures
        r.0.deep_view() == spec_podzial(input@, delimiters.deep_view(), Seq::empty()).0,
        r.1.deep_view() == spec_podzial(input@, delimiters.deep_view(), Seq::empty()).1,
{
    let ghost calosc = input@;
    let ghost seps = delimiters.deep_view();
    let n = input.unicode_len();
    let mut podciagi: Vec<String> = Vec::new();
    let mut uzyte: Vec<String> = Vec::new();
    let mut biezacy: String = String::new();
    let mut i: usize = 0;
    proof {
        assert(calosc.skip(0) =~= calosc);
        assert(podciagi.deep_view() + spec_podzial(calosc, seps, biezacy@).0 =~= spec_podzial(
            calosc,
            seps,
            Seq::empty(),
        ).0);
        assert(uzyte.deep_view() + spec_podzial(calosc, seps, biezacy@).1 =~= spec_podzial(
            calosc,
            seps,
            Seq::empty(),
        ).1);
    }
    while i < n
        invariant
            i <= n,
            n == calosc.len(),
            calosc == input@,
            seps == delimiters.deep_view(),
            forall|t: int| 0 <= t < delimiters@.len() ==> (#[trigger] delimiters@[t])@.len() >= 1,
            spec_podzial(calosc, seps, Seq::empty()).0 == podciagi.deep_view() + spec_podzial(
                calosc.skip(i as int),
                seps,
                biezacy@,
            ).0,
            spec_podzial(calosc, seps, Seq::empty()).1 == uzyte.deep_view() + spec_podzial(
                calosc.skip(i as int),
                seps,
                biezacy@,
            ).1,
        decreases n - i,
    {
        let ghost reszta = calosc.skip(i as int);
        match znajdz_separator(input, i, n, &delimiters) {
            Some(j) => {
                proof {
                    lemma_pierwszy_separator_granice(reszta, seps, 0);
                    assert(seps[j as int] == delimiters@[j as int]@);
                }
                let d = delimiters[j].clone();
                let dl = d.as_str().unicode_len();
                let ghost stary = biezacy@;
                let ghost przed_pod = podciagi.deep_view();
                let ghost przed_uzy = uzyte.deep_view();
                let ghost resz = spec_podzial(
                    reszta.skip(seps[j as int].len() as int),
                    seps,
                    Seq::empty(),
                );
                if !biezacy.as_str().is_empty() {
                    podciagi.push(biezacy);
                    biezacy = String::new();
                    proof {
                        assert(podciagi.deep_view() =~= przed_pod.push(stary));
                    }
                } else {
                    proof {
                        assert(stary =~= Seq::<char>::empty());
                    }
                }
                uzyte.push(d);
                proof {
                    assert(uzyte.deep_view() =~= przed_uzy.push(seps[j as int]));
                    assert(reszta.skip(seps[j as int].len() as int) =~= calosc.skip(
                        i + seps[j as int].len(),
                    ));
                }
                i = i + dl;
                proof {
                    assert(spec_podzial(reszta, seps, stary).1 == seq![seps[j as int]] + resz.1);
                    if stary.len() == 0 {
                        assert(spec_podzial(reszta, seps, stary).0 == resz.0);
                        assert(przed_pod + spec_podzial(reszta, seps, stary).0 =~= podciagi.deep_view()
                            + spec_podzial(calosc.skip(i as int), seps, biezacy@).0);
                    } else {
                        assert(spec_podzial(reszta, seps, stary).0 == seq![stary] + resz.0);
                        assert(przed_pod + spec_podzial(reszta, seps, stary).0 =~= podciagi.deep_view()
                            + spec_podzial(calosc.skip(i as int), seps, biezacy@).0);
                    }
                    assert(przed_uzy + spec_podzial(reszta, seps, stary).1 =~= uzyte.deep_view()
                        + spec_podzial(calosc.skip(i as int), seps, biezacy@).1);
                }
            },
            None => {
                let z = input.get_char(i);
                proof {
                    assert(reszta[0] == calosc[i as int]);
                    assert(reszta.skip(1) =~= calosc.skip(i + 1));
                }
                dopisz_znak(&mut biezacy, z);
                i = i + 1;
            },
        }
    }
    proof {
        assert(calosc.skip(n as int) =~= Seq::<char>::empty());
    }
    if !biezacy.as_str().is_empty() {
        podciagi.push(biezacy);
    }
    proof {
        assert(podciagi.deep_view() =~= spec_podzial(calosc, seps, Seq::empty()).0);
        assert(uzyte.deep_view() =~= spec_podzial(calosc, seps, Seq::empty()).1);
    }
    (podciagi, uzyte)
}

} // verus!
