use vstd::prelude::*;
use crate::combos::{all_combos, combos_from, combos_over};
use crate::strutil::push_char;

verus! {

/// One dispatched unit of work: the worker seeds its enumeration with the
/// alphabet letter at `letter_index` and descends `remaining` further
/// positions.
#[derive(Clone, Copy)]
pub struct Task {
    pub letter_index: usize,
    pub remaining: usize,
}

/// The worker tasks for one requested length `count`: one per letter
/// position of an alphabet of length `alen`, from position `m` on, in
/// alphabet order, each owed `count - 1` further positions.
pub open spec fn tasks_for_len(count: usize, alen: int, m: int) -> Seq<Task>
    decreases alen - m,
{
    if count == 0 || m < 0 || m >= alen {
        Seq::empty()
    } else {
        seq![Task { letter_index: m as usize, remaining: (count - 1) as usize }] + tasks_for_len(
            count,
            alen,
            m + 1,
        )
    }
}

/// The dispatch plan from requested length `q` on: lengths are drained one
/// after the other, one task per alphabet letter within each.
pub open spec fn plan_spec(counts: Seq<usize>, alen: int, q: int) -> Seq<Task>
    decreases counts.len() - q,
{
    if q < 0 || q >= counts.len() {
        Seq::empty()
    } else {
        tasks_for_len(counts[q], alen, 0) + plan_spec(counts, alen, q + 1)
    }
}

/// What a list of workers emits, concatenated in dispatch order.
pub open spec fn outputs_of(tasks: Seq<Task>, alphabet: Seq<char>) -> Seq<Seq<char>>
    decreases tasks.len(),
{
    if tasks.len() == 0 {
        Seq::empty()
    } else {
        combos_from(
            alphabet,
            tasks.first().remaining as nat,
            seq![alphabet[tasks.first().letter_index as int]],
        ) + outputs_of(tasks.drop_first(), alphabet)
    }
}

/// What sequential generation emits for the lengths `counts[q..]`, in order.
pub open spec fn sequential_output(counts: Seq<usize>, alphabet: Seq<char>, q: int) -> Seq<
    Seq<char>,
>
    decreases counts.len() - q,
{
    if q < 0 || q >= counts.len() {
        Seq::empty()
    } else {
        combos_from(alphabet, counts[q] as nat, Seq::empty()) + sequential_output(
            counts,
            alphabet,
            q + 1,
        )
    }
}

/// Lays out the dispatch order: for each requested length in turn, one task
/// per alphabet letter. Lengths must be at least one, since each worker owns
/// the first position and descends one fewer.
pub fn plan_tasks(counts: &Vec<usize>, alphabet: &Vec<char>) -> (tasks: Vec<Task>)
    requires
        forall|q: int| 0 <= q < counts@.len() ==> #[trigger] counts@[q] >= 1,
    ensures
        tasks@ == plan_spec(counts@, alphabet@.len() as int, 0),
{
    let ghost alen = alphabet@.len() as int;
    let mut tasks: Vec<Task> = Vec::new();
    let n = counts.len();
    let len = alphabet.len();
    proof {
        assert(tasks@ =~= Seq::<Task>::empty());
        assert(Seq::<Task>::empty() + plan_spec(counts@, alen, 0) =~= plan_spec(counts@, alen, 0));
    }
    let mut q: usize = 0;
    while q < n
        invariant
            q <= n,
            n == counts@.len(),
            len == alphabet@.len(),
            alen == alphabet@.len() as int,
            forall|r: int| 0 <= r < counts@.len() ==> #[trigger] counts@[r] >= 1,
            tasks@ + plan_spec(counts@, alen, q as int) == plan_spec(counts@, alen, 0),
        decreases n - q,
    {
        let count = counts[q];
        proof {
            assert(plan_spec(counts@, alen, q as int) == tasks_for_len(count, alen, 0)
                + plan_spec(counts@, alen, q + 1));
            assert((tasks@ + tasks_for_len(count, alen, 0)) + plan_spec(counts@, alen, q + 1)
                =~= tasks@ + (tasks_for_len(count, alen, 0) + plan_spec(counts@, alen, q + 1)));
        }
        let mut m: usize = 0;
        while m < len
            invariant
                m <= len,
                q < n,
                n == counts@.len(),
                len == alphabet@.len(),
                alen == alphabet@.len() as int,
                count == counts@[q as int],
                count >= 1,
                (tasks@ + tasks_for_len(count, alen, m as int)) + plan_spec(counts@, alen, q + 1)
                    == plan_spec(counts@, alen, 0),
            decreases len - m,
        {
            let task = Task { letter_index: m, remaining: count - 1 };
            let ghost tasks_before = tasks@;
            tasks.push(task);
            proof {
                assert(tasks_for_len(count, alen, m as int) == seq![task] + tasks_for_len(
                    count,
                    alen,
                    m + 1,
                ));
                assert(tasks@ =~= tasks_before + seq![task]);
                assert((tasks_before + (seq![task] + tasks_for_len(count, alen, m + 1))) =~= ((
                tasks_before + seq![task]) + tasks_for_len(count, alen, m + 1)));
            }
            m += 1;
        }
        proof {
            assert(tasks_for_len(count, alen, len as int) =~= Seq::<Task>::empty());
            assert(tasks@ + Seq::<Task>::empty() =~= tasks@);
        }
        q += 1;
    }
    proof {
        assert(plan_spec(counts@, alen, n as int) =~= Seq::<Task>::empty());
        assert(tasks@ + Seq::<Task>::empty() =~= tasks@);
    }
    tasks
}

/// Runs one worker's share: every combination that starts with `letter` and
/// continues with `remaining` further characters drawn from `chars`.
pub fn worker_combos(chars: &Vec<char>, letter: char, remaining: usize) -> (out: Vec<String>)
    ensures
        out.deep_view() == combos_from(chars@, remaining as nat, seq![letter]),
{
    let mut seed = String::new();
    push_char(&mut seed, letter);
    proof {
        assert(seed@ =~= seq![letter]);
    }
    all_combos(chars, remaining, seed)
}

proof fn lemma_tasks_for_len_len(count: usize, alen: int, m: int)
    requires
        count >= 1,
        0 <= m <= alen,
    ensures
        tasks_for_len(count, alen, m).len() == alen - m,
    decreases alen - m,
{
    if m < alen {
        lemma_tasks_for_len_len(count, alen, m + 1);
    }
}

proof fn lemma_plan_len(counts: Seq<usize>, alen: int, q: int)
    requires
        forall|r: int| 0 <= r < counts.len() ==> #[trigger] counts[r] >= 1,
        0 <= q <= counts.len(),
        0 <= alen,
    ensures
        plan_spec(counts, alen, q).len() == (counts.len() - q) * alen,
    decreases counts.len() - q,
{
    if q == counts.len() {
        assert((counts.len() - q) * alen == 0) by (nonlinear_arith)
            requires
                q == counts.len(),
        ;
    } else {
        lemma_tasks_for_len_len(counts[q], alen, 0);
        lemma_plan_len(counts, alen, q + 1);
        assert((counts.len() - q) * alen == alen + (counts.len() - q - 1) * alen)
            by (nonlinear_arith);
    }
}

proof fn lemma_outputs_concat(t1: Seq<Task>, t2: Seq<Task>, alphabet: Seq<char>)
    ensures
        outputs_of(t1 + t2, alphabet) == outputs_of(t1, alphabet) + outputs_of(t2, alphabet),
    decreases t1.len(),
{
    if t1.len() == 0 {
        assert(t1 + t2 =~= t2);
        assert(outputs_of(t1, alphabet) + outputs_of(t2, alphabet) =~= outputs_of(t2, alphabet));
    } else {
        lemma_outputs_concat(t1.drop_first(), t2, alphabet);
        assert((t1 + t2).first() == t1.first());
        assert((t1 + t2).drop_first() =~= t1.drop_first() + t2);
        let head = combos_from(
            alphabet,
            t1.first().remaining as nat,
            seq![alphabet[t1.first().letter_index as int]],
        );
        assert(head + (outputs_of(t1.drop_first(), alphabet) + outputs_of(t2, alphabet)) =~= (head
            + outputs_of(t1.drop_first(), alphabet)) + outputs_of(t2, alphabet));
    }
}

proof fn lemma_outputs_match(alphabet: Seq<char>, count: usize, m: int)
    requires
        count >= 1,
        0 <= m,
        alphabet.len() <= usize::MAX,
    ensures
        outputs_of(tasks_for_len(count, alphabet.len() as int, m), alphabet) == combos_over(
            alphabet,
            m,
            count as nat,
            Seq::empty(),
        ),
    decreases alphabet.len() - m,
{
    let alen = alphabet.len() as int;
    if m < alen {
        lemma_outputs_match(alphabet, count, m + 1);
        let task = Task { letter_index: m as usize, remaining: (count - 1) as usize };
        let rest = tasks_for_len(count, alen, m + 1);
        assert((seq![task] + rest).first() == task);
        assert((seq![task] + rest).drop_first() =~= rest);
        assert(Seq::<char>::empty().push(alphabet[m]) =~= seq![alphabet[m]]);
    }
}

/// One requested length's workers, taken together, emit exactly what the
/// sequential generator emits for that length: one worker per first-letter
/// branch, and concatenated in dispatch order they are the sequential
/// enumeration itself, so however the running workers interleave, the
/// emitted multiset is unchanged.
pub proof fn lemma_workers_cover(alphabet: Seq<char>, count: usize)
    requires
        count >= 1,
        alphabet.len() <= usize::MAX,
    ensures
        tasks_for_len(count, alphabet.len() as int, 0).len() == alphabet.len(),
        outputs_of(tasks_for_len(count, alphabet.len() as int, 0), alphabet) == combos_from(
            alphabet,
            count as nat,
            Seq::empty(),
        ),
        outputs_of(tasks_for_len(count, alphabet.len() as int, 0), alphabet).to_multiset()
            == combos_from(alphabet, count as nat, Seq::empty()).to_multiset(),
{
    lemma_tasks_for_len_len(count, alphabet.len() as int, 0);
    lemma_outputs_match(alphabet, count, 0);
}

/// The whole dispatch plan emits exactly the sequential output of all the
/// requested lengths, in length order: the plan holds one task per length
/// and first-letter branch, so none is dropped or doubled, however many
/// worker slots the run is granted.
pub proof fn lemma_dispatch_complete(counts: Seq<usize>, alphabet: Seq<char>)
    requires
        forall|q: int| 0 <= q < counts.len() ==> #[trigger] counts[q] >= 1,
        alphabet.len() <= usize::MAX,
    ensures
        plan_spec(counts, alphabet.len() as int, 0).len() == counts.len() * alphabet.len(),
        outputs_of(plan_spec(counts, alphabet.len() as int, 0), alphabet) == sequential_output(
            counts,
            alphabet,
            0,
        ),
        outputs_of(plan_spec(counts, alphabet.len() as int, 0), alphabet).to_multiset()
            == sequential_output(counts, alphabet, 0).to_multiset(),
{
    lemma_plan_len(counts, alphabet.len() as int, 0);
    lemma_dispatch_from(counts, alphabet, 0);
}

proof fn lemma_dispatch_from(counts: Seq<usize>, alphabet: Seq<char>, q: int)
    requires
        forall|r: int| 0 <= r < counts.len() ==> #[trigger] counts[r] >= 1,
        0 <= q,
        alphabet.len() <= usize::MAX,
    ensures
        outputs_of(plan_spec(counts, alphabet.len() as int, q), alphabet) == sequential_output(
            counts,
            alphabet,
            q,
        ),
    decreases counts.len() - q,
{
    if q < counts.len() {
        lemma_dispatch_from(counts, alphabet, q + 1);
        lemma_outputs_match(alphabet, counts[q], 0);
        lemma_outputs_concat(
            tasks_for_len(counts[q], alphabet.len() as int, 0),
            plan_spec(counts, alphabet.len() as int, q + 1),
            alphabet,
        );
    }
}

} // verus!
