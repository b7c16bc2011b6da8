use vstd::prelude::*;
use crate::strutil::push_char;
use crate::trtable::TrTable;

verus! {

/// A table entry drives a substitution only when it is present and lists at
/// least one alternative; an empty list is treated like a missing entry.
pub open spec fn applicable(table: Map<char, Seq<Seq<char>>>, c: char) -> bool {
    table.contains_key(c) && table[c].len() > 0
}

/// Every string reachable from position `i` of `term` onward, appended to
/// `built`: a character without a usable table entry passes through
/// unchanged, one with alternatives branches once per alternative, in the
/// list's stored order, depth first.
pub open spec fn permute_from(
    term: Seq<char>,
    i: int,
    built: Seq<char>,
    table: Map<char, Seq<Seq<char>>>,
) -> Seq<Seq<char>>
    decreases term.len() - i + 1, 0int,
{
    if i < 0 || i >= term.len() {
        seq![built]
    } else if !applicable(table, term[i]) {
        permute_from(term, i + 1, built.push(term[i]), table)
    } else {
        permute_alts(term, i, table[term[i]], 0, built, table)
    }
}

/// The branches of position `i` that remain once the first `j` alternatives
/// have been taken.
pub open spec fn permute_alts(
    term: Seq<char>,
    i: int,
    alts: Seq<Seq<char>>,
    j: int,
    built: Seq<char>,
    table: Map<char, Seq<Seq<char>>>,
) -> Seq<Seq<char>>
    decreases term.len() - i, alts.len() - j,
{
    if i < 0 || i >= term.len() || j < 0 || j >= alts.len() {
        Seq::empty()
    } else {
        permute_from(term, i + 1, built + alts[j], table) + permute_alts(
            term,
            i,
            alts,
            j + 1,
            built,
            table,
        )
    }
}

/// Emits every substitution of `term` from position `index` on, appended to
/// `built`, in depth-first order over the term's positions.
pub fn permute(index: usize, term: &str, built: String, trtab: &TrTable) -> (out: Vec<String>)
    requires
        index <= term@.len(),
        trtab.wf(),
    ensures
        out.deep_view() == permute_from(term@, index as int, built@, trtab@),
    decreases term@.len() - index,
{
    let len = term.unicode_len();
    if index == len {
        let ghost built_view = built@;
        let mut out: Vec<String> = Vec::new();
        out.push(built);
        proof {
            assert(out.deep_view() =~= seq![built_view]);
        }
        return out;
    }
    let c = term.get_char(index);
    let list = trtab.get(c);
    match list {
        Some(alternatives) if alternatives.len() > 0 => {
            let ghost alts = trtab@[c];
            let ghost built_view = built@;
            let mut out: Vec<String> = Vec::new();
            let m = alternatives.len();
            proof {
                assert(alternatives.deep_view().len() == m);
                assert(out.deep_view() =~= Seq::<Seq<char>>::empty());
                assert(Seq::<Seq<char>>::empty() + permute_alts(
                    term@,
                    index as int,
                    alts,
                    0,
                    built_view,
                    trtab@,
                ) =~= permute_alts(term@, index as int, alts, 0, built_view, trtab@));
            }
            let mut j: usize = 0;
            while j < m
                invariant
                    j <= m,
                    index < term@.len(),
                    term@.len() <= usize::MAX,
                    trtab.wf(),
                    trtab@.contains_key(c),
                    c == term@[index as int],
                    alts == trtab@[c],
                    alternatives.deep_view() == alts,
                    m == alts.len(),
                    m == alternatives@.len(),
                    built@ == built_view,
                    applicable(trtab@, c),
                    out.deep_view() + permute_alts(term@, index as int, alts, j as int, built_view, trtab@)
                        == permute_alts(term@, index as int, alts, 0, built_view, trtab@),
                decreases m - j,
            {
                let mut new_built = built.clone();
                new_built.append(alternatives[j].as_str());
                let ghost out_before = out.deep_view();
                let mut sub = permute(index + 1, term, new_built, trtab);
                let ghost sub_view = sub.deep_view();
                out.append(&mut sub);
                proof {
                    assert(sub_view == permute_from(
                        term@,
                        index + 1,
                        built_view + alts[j as int],
                        trtab@,
                    ));
                    assert(out.deep_view() =~= out_before + sub_view);
                    assert(permute_alts(term@, index as int, alts, j as int, built_view, trtab@)
                        == sub_view + permute_alts(
                        term@,
                        index as int,
                        alts,
                        j + 1,
                        built_view,
                        trtab@,
                    ));
                    assert((out_before + sub_view) + permute_alts(
                        term@,
                        index as int,
                        alts,
                        j + 1,
                        built_view,
                        trtab@,
                    ) =~= out_before + (sub_view + permute_alts(
                        term@,
                        index as int,
                        alts,
                        j + 1,
                        built_view,
                        trtab@,
                    )));
                }
                j += 1;
            }
            proof {
                assert(permute_alts(term@, index as int, alts, m as int, built_view, trtab@)
                    =~= Seq::<Seq<char>>::empty());
                assert(out.deep_view() + Seq::<Seq<char>>::empty() =~= out.deep_view());
            }
            out
        },
        _ => {
            let mut new_built = built;
            push_char(&mut new_built, c);
            permute(index + 1, term, new_built, trtab)
        },
    }
}

/// How many strings position `i` of the term owes onward: the product, over
/// the remaining characters, of the number of usable alternatives each one
/// has, a pass-through character counting one.
pub open spec fn branch_product(term: Seq<char>, table: Map<char, Seq<Seq<char>>>, i: int) -> int
    decreases term.len() - i,
{
    if i < 0 || i >= term.len() {
        1
    } else if !applicable(table, term[i]) {
        branch_product(term, table, i + 1)
    } else {
        table[term[i]].len() * branch_product(term, table, i + 1)
    }
}

proof fn lemma_permute_count(term: Seq<char>, i: int, built: Seq<char>, table: Map<char, Seq<Seq<char>>>)
    requires
        0 <= i <= term.len(),
    ensures
        permute_from(term, i, built, table).len() == branch_product(term, table, i),
    decreases term.len() - i + 1, 0int,
{
    if i < term.len() && applicable(table, term[i]) {
        lemma_permute_alts_count(term, i, table[term[i]], 0, built, table);
    } else if i < term.len() {
        lemma_permute_count(term, i + 1, built.push(term[i]), table);
    }
}

proof fn lemma_permute_alts_count(
    term: Seq<char>,
    i: int,
    alts: Seq<Seq<char>>,
    j: int,
    built: Seq<char>,
    table: Map<char, Seq<Seq<char>>>,
)
    requires
        0 <= i < term.len(),
        0 <= j <= alts.len(),
    ensures
        permute_alts(term, i, alts, j, built, table).len() == (alts.len() - j) * branch_product(
            term,
            table,
            i + 1,
        ),
    decreases term.len() - i, alts.len() - j,
{
    let p = branch_product(term, table, i + 1);
    if j == alts.len() {
        assert((alts.len() - j) * p == 0) by (nonlinear_arith)
            requires
                j == alts.len(),
        ;
    } else {
        lemma_permute_count(term, i + 1, built + alts[j], table);
        lemma_permute_alts_count(term, i, alts, j + 1, built, table);
        assert((alts.len() - j) * p == p + (alts.len() - j - 1) * p) by (nonlinear_arith);
    }
}

/// The permutation generator emits exactly the product, over the term's
/// characters, of the number of usable alternatives each character has (one
/// where it passes through unchanged).
pub proof fn lemma_permutation_count(term: Seq<char>, table: Map<char, Seq<Seq<char>>>)
    ensures
        permute_from(term, 0, Seq::empty(), table).len() == branch_product(term, table, 0),
{
    lemma_permute_count(term, 0, Seq::empty(), table);
}

proof fn lemma_permute_passthrough(
    term: Seq<char>,
    i: int,
    built: Seq<char>,
    table: Map<char, Seq<Seq<char>>>,
)
    requires
        0 <= i <= term.len(),
        forall|j: int| i <= j < term.len() ==> !applicable(table, #[trigger] term[j]),
    ensures
        permute_from(term, i, built, table) == seq![built + term.skip(i)],
    decreases term.len() - i,
{
    if i == term.len() {
        assert(built + term.skip(i) =~= built);
    } else {
        lemma_permute_passthrough(term, i + 1, built.push(term[i]), table);
        assert(built.push(term[i]) + term.skip(i + 1) =~= built + term.skip(i));
    }
}

/// Permuting a term against a table with no usable entry for any of its
/// characters emits exactly the term itself, once.
pub proof fn lemma_permute_identity(term: Seq<char>, table: Map<char, Seq<Seq<char>>>)
    requires
        forall|j: int| 0 <= j < term.len() ==> !applicable(table, #[trigger] term[j]),
    ensures
        permute_from(term, 0, Seq::empty(), table) == seq![term],
{
    lemma_permute_passthrough(term, 0, Seq::empty(), table);
    assert(Seq::<char>::empty() + term.skip(0) =~= term);
}

} // verus!
