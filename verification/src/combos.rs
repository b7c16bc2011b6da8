use vstd::prelude::*;
use vstd::arithmetic::power::pow;
use crate::strutil::push_char;

verus! {

/// Every string formed by extending `built` with `count` further characters
/// drawn from `alphabet`, in odometer order: the leftmost open position
/// varies slowest, and each position runs through the alphabet in its stored
/// order.
pub open spec fn combos_from(alphabet: Seq<char>, count: nat, built: Seq<char>) -> Seq<Seq<char>>
    decreases count, alphabet.len() + 1,
{
    if count == 0 {
        seq![built]
    } else {
        combos_over(alphabet, 0, count, built)
    }
}

/// The tail of one odometer sweep: everything emitted once the first of the
/// `count` open positions is restricted to `alphabet[i..]`.
pub open spec fn combos_over(alphabet: Seq<char>, i: int, count: nat, built: Seq<char>) -> Seq<
    Seq<char>,
>
    decreases count, alphabet.len() - i,
{
    if count == 0 || i < 0 || i >= alphabet.len() {
        Seq::empty()
    } else {
        combos_from(alphabet, (count - 1) as nat, built.push(alphabet[i])) + combos_over(
            alphabet,
            i + 1,
            count,
            built,
        )
    }
}

/// Emits every string of length `count` over `chars`, appended to `built`, in
/// odometer order. A zero `count` emits the accumulator itself, once; an
/// empty alphabet with a positive `count` emits nothing.
pub fn all_combos(chars: &Vec<char>, count: usize, built: String) -> (out: Vec<String>)
    ensures
        out.deep_view() == combos_from(chars@, count as nat, built@),
    decreases count,
{
    let ghost built_view = built@;
    let mut out: Vec<String> = Vec::new();
    if count == 0 {
        out.push(built);
        proof {
            assert(out.deep_view() =~= combos_from(chars@, 0, built_view));
        }
        return out;
    }
    let n = chars.len();
    proof {
        assert(out.deep_view() =~= Seq::<Seq<char>>::empty());
        assert(Seq::<Seq<char>>::empty() + combos_over(chars@, 0, count as nat, built_view)
            =~= combos_over(chars@, 0, count as nat, built_view));
    }
    let mut i: usize = 0;
    while i < n
        invariant
            i <= n,
            n == chars@.len(),
            count >= 1,
            built@ == built_view,
            out.deep_view() + combos_over(chars@, i as int, count as nat, built_view)
                == combos_from(chars@, count as nat, built_view),
        decreases n - i,
    {
        let mut new_built = built.clone();
        push_char(&mut new_built, chars[i]);
        let ghost out_before = out.deep_view();
        let mut sub = all_combos(chars, count - 1, new_built);
        let ghost sub_view = sub.deep_view();
        out.append(&mut sub);
        proof {
            assert(sub_view == combos_from(chars@, (count - 1) as nat, built_view.push(
                chars@[i as int],
            )));
            assert(out.deep_view() =~= out_before + sub_view);
            assert(combos_over(chars@, i as int, count as nat, built_view) == sub_view
                + combos_over(chars@, i + 1, count as nat, built_view));
            assert((out_before + sub_view) + combos_over(chars@, i + 1, count as nat, built_view)
                =~= out_before + (sub_view + combos_over(chars@, i + 1, count as nat, built_view)));
        }
        i += 1;
    }
    proof {
        assert(combos_over(chars@, n as int, count as nat, built_view) =~= Seq::<Seq<char>>::empty());
        assert(out.deep_view() + Seq::<Seq<char>>::empty() =~= out.deep_view());
    }
    out
}

proof fn lemma_combos_from_shape(alphabet: Seq<char>, count: nat, built: Seq<char>)
    ensures
        forall|k: int|
            0 <= k < combos_from(alphabet, count, built).len() ==> {
                let s = #[trigger] combos_from(alphabet, count, built)[k];
                s.len() == built.len() + count && s.subrange(0, built.len() as int) == built
                    && (forall|j: int|
                    built.len() <= j < s.len() ==> alphabet.contains(#[trigger] s[j]))
            },
    decreases count, alphabet.len() + 1,
{
    if count == 0 {
        assert forall|k: int|
            #![trigger combos_from(alphabet, count, built)[k]]
            0 <= k < combos_from(alphabet, count, built).len() implies {
            let s = combos_from(alphabet, count, built)[k];
            s.len() == built.len() + count && s.subrange(0, built.len() as int) == built && (
            forall|j: int| built.len() <= j < s.len() ==> alphabet.contains(#[trigger] s[j]))
        } by {
            assert(combos_from(alphabet, count, built)[k] == built);
            assert(built.subrange(0, built.len() as int) =~= built);
        }
    } else {
        lemma_combos_over_shape(alphabet, 0, count, built);
        assert forall|k: int|
            #![trigger combos_from(alphabet, count, built)[k]]
            0 <= k < combos_from(alphabet, count, built).len() implies {
            let s = combos_from(alphabet, count, built)[k];
            s.len() == built.len() + count && s.subrange(0, built.len() as int) == built && (
            forall|j: int| built.len() <= j < s.len() ==> alphabet.contains(#[trigger] s[j]))
        } by {
            assert(combos_from(alphabet, count, built)[k] == combos_over(
                alphabet,
                0,
                count,
                built,
            )[k]);
        }
    }
}

proof fn lemma_combos_over_shape(alphabet: Seq<char>, i: int, count: nat, built: Seq<char>)
    requires
        0 <= i,
        count >= 1,
    ensures
        forall|k: int|
            0 <= k < combos_over(alphabet, i, count, built).len() ==> {
                let s = #[trigger] combos_over(alphabet, i, count, built)[k];
                s.len() == built.len() + count && s.subrange(0, built.len() as int) == built && (
                exists|m: int|
                    i <= m < alphabet.len() && s[built.len() as int] == alphabet[m]) && (forall|
                    j: int,
                |
                    built.len() <= j < s.len() ==> alphabet.contains(#[trigger] s[j]))
            },
    decreases count, alphabet.len() - i,
{
    if i < alphabet.len() {
        let stretched = built.push(alphabet[i]);
        let part1 = combos_from(alphabet, (count - 1) as nat, stretched);
        let part2 = combos_over(alphabet, i + 1, count, built);
        lemma_combos_from_shape(alphabet, (count - 1) as nat, stretched);
        lemma_combos_over_shape(alphabet, i + 1, count, built);
        assert(alphabet.contains(alphabet[i]));
        assert forall|k: int|
            #![trigger combos_over(alphabet, i, count, built)[k]]
            0 <= k < combos_over(alphabet, i, count, built).len() implies {
            let s = combos_over(alphabet, i, count, built)[k];
            s.len() == built.len() + count && s.subrange(0, built.len() as int) == built && (
            exists|m: int| i <= m < alphabet.len() && s[built.len() as int] == alphabet[m]) && (
            forall|j: int| built.len() <= j < s.len() ==> alphabet.contains(#[trigger] s[j]))
        } by {
            let s = combos_over(alphabet, i, count, built)[k];
            if k < part1.len() {
                assert(s == part1[k]);
                assert(s.subrange(0, stretched.len() as int) == stretched);
                assert(s.subrange(0, built.len() as int) =~= stretched.subrange(
                    0,
                    built.len() as int,
                ));
                assert(stretched.subrange(0, built.len() as int) =~= built);
                assert(s[built.len() as int] == stretched[built.len() as int]);
                assert(s[built.len() as int] == alphabet[i]);
                assert forall|j: int| built.len() <= j < s.len() implies alphabet.contains(
                    #[trigger] s[j],
                ) by {
                    if j == built.len() {
                        assert(s[j] == alphabet[i]);
                    } else {
                        assert(stretched.len() <= j < s.len());
                    }
                }
            } else {
                assert(s == part2[k - part1.len()]);
            }
        }
    }
}

proof fn lemma_combos_from_unique(alphabet: Seq<char>, count: nat, built: Seq<char>)
    requires
        alphabet.no_duplicates(),
    ensures
        combos_from(alphabet, count, built).no_duplicates(),
    decreases count, alphabet.len() + 1,
{
    if count > 0 {
        lemma_combos_over_unique(alphabet, 0, count, built);
    }
}

proof fn lemma_combos_over_unique(alphabet: Seq<char>, i: int, count: nat, built: Seq<char>)
    requires
        alphabet.no_duplicates(),
        0 <= i,
        count >= 1,
    ensures
        combos_over(alphabet, i, count, built).no_duplicates(),
    decreases count, alphabet.len() - i,
{
    if i < alphabet.len() {
        let stretched = built.push(alphabet[i]);
        let part1 = combos_from(alphabet, (count - 1) as nat, stretched);
        let part2 = combos_over(alphabet, i + 1, count, built);
        let whole = combos_over(alphabet, i, count, built);
        lemma_combos_from_unique(alphabet, (count - 1) as nat, stretched);
        lemma_combos_over_unique(alphabet, i + 1, count, built);
        lemma_combos_from_shape(alphabet, (count - 1) as nat, stretched);
        lemma_combos_over_shape(alphabet, i + 1, count, built);
        assert forall|k1: int, k2: int| 0 <= k1 < k2 < whole.len() implies whole[k1] != whole[k2] by {
            if k1 < part1.len() && k2 >= part1.len() {
                let s1 = part1[k1];
                let s2 = part2[k2 - part1.len()];
                assert(s1.subrange(0, stretched.len() as int) == stretched);
                assert(s1[built.len() as int] == stretched[built.len() as int]);
                assert(s1[built.len() as int] == alphabet[i]);
                let m = choose|m: int|
                    i + 1 <= m < alphabet.len() && s2[built.len() as int] == alphabet[m];
                assert(alphabet[m] != alphabet[i]);
                assert(s1[built.len() as int] != s2[built.len() as int]);
            }
        }
    }
}

proof fn lemma_combos_from_complete(alphabet: Seq<char>, count: nat, built: Seq<char>, s: Seq<char>)
    requires
        s.len() == built.len() + count,
        s.subrange(0, built.len() as int) == built,
        forall|j: int| built.len() <= j < s.len() ==> alphabet.contains(#[trigger] s[j]),
    ensures
        combos_from(alphabet, count, built).contains(s),
    decreases count, alphabet.len() + 1,
{
    if count == 0 {
        assert(s =~= built);
        assert(combos_from(alphabet, 0, built)[0] == built);
    } else {
        assert(alphabet.contains(s[built.len() as int]));
        let m = choose|m: int|
            0 <= m < alphabet.len() && alphabet[m] == s[built.len() as int];
        lemma_combos_over_complete(alphabet, 0, m, count, built, s);
    }
}

proof fn lemma_combos_over_complete(
    alphabet: Seq<char>,
    i: int,
    m: int,
    count: nat,
    built: Seq<char>,
    s: Seq<char>,
)
    requires
        count >= 1,
        0 <= i <= m < alphabet.len(),
        s.len() == built.len() + count,
        s.subrange(0, built.len() as int) == built,
        s[built.len() as int] == alphabet[m],
        forall|j: int| built.len() <= j < s.len() ==> alphabet.contains(#[trigger] s[j]),
    ensures
        combos_over(alphabet, i, count, built).contains(s),
    decreases count, m - i,
{
    let stretched = built.push(alphabet[i]);
    let part1 = combos_from(alphabet, (count - 1) as nat, stretched);
    let part2 = combos_over(alphabet, i + 1, count, built);
    let whole = combos_over(alphabet, i, count, built);
    if i == m {
        assert(s.subrange(0, stretched.len() as int) =~= stretched);
        lemma_combos_from_complete(alphabet, (count - 1) as nat, stretched, s);
        let k = choose|k: int| 0 <= k < part1.len() && part1[k] == s;
        assert(whole[k] == s);
    } else {
        lemma_combos_over_complete(alphabet, i + 1, m, count, built, s);
        let k = choose|k: int| 0 <= k < part2.len() && part2[k] == s;
        assert(whole[part1.len() + k] == s);
    }
}

proof fn lemma_combos_from_len(alphabet: Seq<char>, count: nat, built: Seq<char>)
    ensures
        combos_from(alphabet, count, built).len() == pow(alphabet.len() as int, count),
    decreases count, alphabet.len() + 1,
{
    reveal(pow);
    if count == 0 {
        assert(pow(alphabet.len() as int, 0) == 1);
    } else if alphabet.len() == 0 {
        assert(pow(0, count) == 0 * pow(0, (count - 1) as nat));
        assert(combos_over(alphabet, 0, count, built) =~= Seq::<Seq<char>>::empty());
    } else {
        lemma_combos_over_len(alphabet, 0, count, built);
        assert(pow(alphabet.len() as int, count) == (alphabet.len() as int) * pow(
            alphabet.len() as int,
            (count - 1) as nat,
        ));
    }
}

proof fn lemma_combos_over_len(alphabet: Seq<char>, i: int, count: nat, built: Seq<char>)
    requires
        count >= 1,
        0 <= i <= alphabet.len(),
    ensures
        combos_over(alphabet, i, count, built).len() == (alphabet.len() - i) * pow(
            alphabet.len() as int,
            (count - 1) as nat,
        ),
    decreases count, alphabet.len() - i,
{
    let p = pow(alphabet.len() as int, (count - 1) as nat);
    let n = alphabet.len() as int;
    if i == n {
        assert((n - i) * p == 0) by (nonlinear_arith)
            requires
                i == n,
        ;
    } else {
        lemma_combos_from_len(alphabet, (count - 1) as nat, built.push(alphabet[i]));
        lemma_combos_over_len(alphabet, i + 1, count, built);
        assert((n - i) * p == p + (n - i - 1) * p) by (nonlinear_arith);
    }
}

/// The combination generator's enumeration over any duplicate-free alphabet:
/// it emits `pow(|alphabet|, count)` strings, each of length `count`, each
/// drawn entirely from the alphabet, none twice, and none missing.
pub proof fn lemma_combos_cartesian(alphabet: Seq<char>, count: nat)
    requires
        alphabet.no_duplicates(),
    ensures
        combos_from(alphabet, count, Seq::empty()).len() == pow(alphabet.len() as int, count),
        combos_from(alphabet, count, Seq::empty()).no_duplicates(),
        forall|k: int|
            0 <= k < combos_from(alphabet, count, Seq::empty()).len() ==> {
                let s = #[trigger] combos_from(alphabet, count, Seq::empty())[k];
                s.len() == count && (forall|j: int|
                    0 <= j < s.len() ==> alphabet.contains(#[trigger] s[j]))
            },
        forall|s: Seq<char>|
            (#[trigger] s.len() == count && (forall|j: int|
                0 <= j < s.len() ==> alphabet.contains(#[trigger] s[j])))
                ==> combos_from(alphabet, count, Seq::empty()).contains(s),
{
    lemma_combos_from_len(alphabet, count, Seq::empty());
    lemma_combos_from_unique(alphabet, count, Seq::empty());
    lemma_combos_from_shape(alphabet, count, Seq::empty());
    assert forall|s: Seq<char>|
        s.len() == count && (forall|j: int|
            0 <= j < s.len() ==> alphabet.contains(#[trigger] s[j])) implies combos_from(
        alphabet,
        count,
        Seq::empty(),
    ).contains(s) by {
        assert(s.subrange(0, 0) =~= Seq::<char>::empty());
        lemma_combos_from_complete(alphabet, count, Seq::empty(), s);
    }
}

/// A zero-length request emits exactly one string, the empty one, whatever
/// the alphabet.
pub proof fn lemma_zero_count(alphabet: Seq<char>)
    ensures
        combos_from(alphabet, 0, Seq::empty()) == seq![Seq::<char>::empty()],
{
}

/// An empty alphabet emits nothing for any positive length.
pub proof fn lemma_empty_alphabet(count: nat)
    requires
        count >= 1,
    ensures
        combos_from(Seq::<char>::empty(), count, Seq::empty()) == Seq::<Seq<char>>::empty(),
{
    assert(combos_over(Seq::<char>::empty(), 0, count, Seq::empty()) =~= Seq::<Seq<char>>::empty());
}

} // verus!
