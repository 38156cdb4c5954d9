use vstd::prelude::*;
use crate::digits::{digits_value, DigitSequence};
use crate::oracle::{is_probably_prime, probably_prime_of};

verus! {

/// One digit substitution of a trial.
#[derive(Clone, Copy, Debug, PartialEq, Eq, Structural)]
pub struct Change {
    pub position: usize,
    pub digit: u8,
}

#[derive(Clone, Copy, Debug, PartialEq, Eq, Structural)]
pub enum SearchError {
    /// Every trial allowed was rejected.
    SearchExhausted,
}

/// `s` with the changes of `cs` applied in order.
pub open spec fn apply_changes(s: Seq<u8>, cs: Seq<Change>) -> Seq<u8>
    decreases cs.len(),
{
    if cs.len() == 0 {
        s
    } else {
        apply_changes(s, cs.drop_last()).update(cs.last().position as int, cs.last().digit)
    }
}

/// Each change writes a decimal digit at a position in `first..len`.
pub open spec fn valid_changes(cs: Seq<Change>, len: nat, first: nat) -> bool {
    forall|i: int|
        0 <= i < cs.len() ==> first <= (#[trigger] cs[i]).position < len && cs[i].digit < 10
}

/// The oracle accepts the value of `s`.
pub open spec fn accepts(s: Seq<u8>, rounds: nat) -> bool {
    probably_prime_of(digits_value(s), rounds)
}

/// The first of `trials[i..]` whose result the oracle accepts, applied to `s`.
pub open spec fn first_prime_from(s: Seq<u8>, trials: Seq<Seq<Change>>, rounds: nat, i: int) -> Option<
    Seq<u8>,
>
    decreases trials.len() - i,
{
    if 0 <= i < trials.len() {
        if accepts(apply_changes(s, trials[i]), rounds) {
            Some(apply_changes(s, trials[i]))
        } else {
            first_prime_from(s, trials, rounds, i + 1)
        }
    } else {
        None
    }
}

/// Valid changes keep the length, write only digits, and leave positions below `first` alone.
pub proof fn lemma_apply_changes(s: Seq<u8>, cs: Seq<Change>, first: nat)
    requires
        valid_changes(cs, s.len(), first),
    ensures
        apply_changes(s, cs).len() == s.len(),
        forall|k: int| 0 <= k < first && k < s.len() ==> #[trigger] apply_changes(s, cs)[k] == s[k],
        (forall|k: int| 0 <= k < s.len() ==> #[trigger] s[k] < 10) ==> (forall|k: int|
            0 <= k < s.len() ==> #[trigger] apply_changes(s, cs)[k] < 10),
    decreases cs.len(),
{
    if cs.len() > 0 {
        let p = cs.drop_last();
        assert(valid_changes(p, s.len(), first)) by {
            assert forall|i: int| 0 <= i < p.len() implies first <= (#[trigger] p[i]).position
                < s.len() && p[i].digit < 10 by {
                assert(p[i] == cs[i]);
            }
        }
        lemma_apply_changes(s, p, first);
        assert(first <= cs[cs.len() - 1].position < s.len());
    }
}

/// Applies `trial` to `seq` and asks the oracle about the result; when the oracle
/// rejects it, every changed position is restored from the digits recorded before it
/// was overwritten, so that `seq` is exactly as it was.
pub fn try_trial(seq: &mut DigitSequence, trial: &Vec<Change>, rounds: usize) -> (accepted: bool)
    requires
        old(seq).wf(),
        valid_changes(trial@, old(seq)@.len(), 0),
        rounds < usize::MAX,
    ensures
        final(seq).wf(),
        accepted == accepts(apply_changes(old(seq)@, trial@), rounds as nat),
        accepted ==> final(seq)@ == apply_changes(old(seq)@, trial@),
        !accepted ==> final(seq)@ == old(seq)@,
{
    let ghost start = seq@;
    let mut saved: Vec<u8> = Vec::new();
    let mut i: usize = 0;
    while i < trial.len()
        invariant
            i <= trial.len(),
            seq.wf(),
            seq@.len() == start.len(),
            valid_changes(trial@, start.len(), 0),
            seq@ == apply_changes(start, trial@.take(i as int)),
            saved@.len() == i,
            forall|j: int|
                0 <= j < i ==> #[trigger] saved@[j] == apply_changes(start, trial@.take(j))[trial@[j].position as int]
                    && saved@[j] < 10,
        decreases trial.len() - i,
    {
        let c = trial[i];
        assert(0 <= c.position < start.len() && c.digit < 10) by {
            assert(trial@[i as int] == c);
        }
        saved.push(seq.get(c.position));
        seq.substitute(c.position, c.digit);
        assert(trial@.take(i + 1).drop_last() =~= trial@.take(i as int));
        i = i + 1;
    }
    assert(trial@.take(i as int) =~= trial@);
    let value = seq.to_integer();
    let accepted = is_probably_prime(&value, rounds);
    if !accepted {
        while i > 0
            invariant
                i <= trial.len(),
                seq.wf(),
                seq@.len() == start.len(),
                valid_changes(trial@, start.len(), 0),
                seq@ == apply_changes(start, trial@.take(i as int)),
                saved@.len() == trial.len(),
                forall|j: int|
                    0 <= j < trial.len() ==> #[trigger] saved@[j] == apply_changes(start, trial@.take(j))[trial@[j].position as int]
                        && saved@[j] < 10,
            decreases i,
        {
            i = i - 1;
            let c = trial[i];
            assert(0 <= c.position < start.len()) by {
                assert(trial@[i as int] == c);
            }
            let before = Ghost(apply_changes(start, trial@.take(i as int)));
            assert(trial@.take(i + 1).drop_last() =~= trial@.take(i as int));
            proof {
                let t = trial@.take(i as int);
                assert(valid_changes(t, start.len(), 0)) by {
                    assert forall|j: int| 0 <= j < t.len() implies 0 <= (#[trigger] t[j]).position
                        < start.len() && t[j].digit < 10 by {
                        assert(t[j] == trial@[j]);
                    }
                }
                lemma_apply_changes(start, t, 0);
            }
            seq.substitute(c.position, saved[i]);
            assert(seq@ =~= before@);
        }
        assert(trial@.take(0) =~= Seq::<Change>::empty());
    }
    accepted
}

/// The trials seen as sequences of changes.
pub open spec fn trials_view(trials: Seq<Vec<Change>>) -> Seq<Seq<Change>> {
    trials.map_values(|t: Vec<Change>| t@)
}

/// The search over trials given in advance: the start itself when the oracle accepts
/// it, else the first trial, applied to the start, that the oracle accepts, else `None`.
/// No trial builds on another: each starts from the unchanged sequence.
pub fn search_with_trials(seq: &DigitSequence, trials: &Vec<Vec<Change>>, rounds: usize) -> (r:
    Option<DigitSequence>)
    requires
        seq.wf(),
        forall|i: int| 0 <= i < trials@.len() ==> valid_changes(#[trigger] trials@[i]@, seq@.len(), 0),
        rounds < usize::MAX,
    ensures
        accepts(seq@, rounds as nat) ==> r is Some && r->Some_0@ == seq@,
        !accepts(seq@, rounds as nat) ==> (match r {
            Some(found) => first_prime_from(seq@, trials_view(trials@), rounds as nat, 0) == Some(found@),
            None => first_prime_from(seq@, trials_view(trials@), rounds as nat, 0) is None,
        }),
        r is Some ==> r->Some_0.wf() && r->Some_0@.len() == seq@.len() && accepts(r->Some_0@, rounds as nat),
{
    let ghost s = seq@;
    let ghost tv = trials_view(trials@);
    let start = seq.to_integer();
    if is_probably_prime(&start, rounds) {
        return Some(seq.duplicate());
    }
    let mut work = seq.duplicate();
    let mut i: usize = 0;
    while i < trials.len()
        invariant
            i <= trials.len(),
            tv == trials_view(trials@),
            work.wf(),
            work@ == s,
            s == seq@,
            rounds < usize::MAX,
            !accepts(s, rounds as nat),
            forall|k: int| 0 <= k < trials@.len() ==> valid_changes(#[trigger] trials@[k]@, s.len(), 0),
            first_prime_from(s, tv, rounds as nat, 0) == first_prime_from(s, tv, rounds as nat, i as int),
        decreases trials.len() - i,
    {
        let trial = &trials[i];
        assert(tv[i as int] == trial@);
        if try_trial(&mut work, trial, rounds) {
            proof {
                lemma_apply_changes(s, trial@, 0);
            }
            return Some(work);
        }
        i = i + 1;
    }
    None
}

/// Relies on rand's thread_rng and Rng::gen_range: a number drawn from `0..bound`.
#[verifier::external_body]
fn random_below(bound: usize) -> (r: usize)
    requires
        bound > 0,
    ensures
        r < bound,
{
    rand::Rng::gen_range(&mut rand::thread_rng(), 0..bound)
}

/// The first position that a trial may change.
pub open spec fn first_free(keep_leading: bool) -> nat {
    if keep_leading {
        1
    } else {
        0
    }
}

/// Number of trials drawn before they are handed to `search_with_trials`.
const TRIAL_BATCH: u64 = 256;

/// Each trial of `trials` has `k` changes, each writing a digit at a position in `first..len`.
pub open spec fn drawn_trials(trials: Seq<Seq<Change>>, len: nat, first: nat, k: nat) -> bool {
    forall|i: int|
        0 <= i < trials.len() ==> (#[trigger] trials[i]).len() == k && valid_changes(
            trials[i],
            len,
            first,
        )
}

/// Past trials that the oracle all rejected do not change which later trial comes first.
pub proof fn lemma_first_prime_concat(
    s: Seq<u8>,
    a: Seq<Seq<Change>>,
    b: Seq<Seq<Change>>,
    rounds: nat,
    i: int,
)
    requires
        0 <= i <= a.len(),
        first_prime_from(s, a, rounds, i) is None,
    ensures
        first_prime_from(s, a + b, rounds, i) == first_prime_from(s, b, rounds, 0),
    decreases a.len() - i,
{
    if i < a.len() {
        assert((a + b)[i] == a[i]);
        lemma_first_prime_concat(s, a, b, rounds, i + 1);
    } else {
        lemma_first_prime_shift(s, a, b, rounds, 0);
    }
}

proof fn lemma_first_prime_shift(
    s: Seq<u8>,
    a: Seq<Seq<Change>>,
    b: Seq<Seq<Change>>,
    rounds: nat,
    j: int,
)
    requires
        0 <= j <= b.len(),
    ensures
        first_prime_from(s, a + b, rounds, a.len() + j) == first_prime_from(s, b, rounds, j),
    decreases b.len() - j,
{
    if j < b.len() {
        assert((a + b)[a.len() + j] == b[j]);
        lemma_first_prime_shift(s, a, b, rounds, j + 1);
    }
}

/// What `first_prime_from` finds is one of the trials applied to the start.
pub proof fn lemma_first_prime_is_a_trial(s: Seq<u8>, t: Seq<Seq<Change>>, rounds: nat, i: int)
    requires
        0 <= i,
        first_prime_from(s, t, rounds, i) is Some,
    ensures
        exists|j: int|
            i <= j < t.len() && first_prime_from(s, t, rounds, i) == Some(
                apply_changes(s, #[trigger] t[j]),
            ),
    decreases t.len() - i,
{
    if !accepts(apply_changes(s, t[i]), rounds) {
        lemma_first_prime_is_a_trial(s, t, rounds, i + 1);
    }
}

/// Draws one trial: `k` random positions in `first..len`, each with a random digit.
fn draw_trial(len: usize, first: usize, k: usize) -> (trial: Vec<Change>)
    requires
        first < len,
    ensures
        trial@.len() == k,
        valid_changes(trial@, len as nat, first as nat),
{
    let mut trial: Vec<Change> = Vec::new();
    let mut j: usize = 0;
    while j < k
        invariant
            j <= k,
            trial@.len() == j,
            first < len,
            valid_changes(trial@, len as nat, first as nat),
        decreases k - j,
    {
        let position = first + random_below(len - first);
        let digit = random_below(10) as u8;
        trial.push(Change { position, digit });
        assert(trial@.last() == Change { position, digit });
        j = j + 1;
    }
    trial
}

/// Randomized local search for a prime of the same length near `seq`. The start is
/// tested first and returned unchanged when the oracle accepts it. Otherwise up to
/// `max_trials` trials are drawn, each overwriting `changes_per_trial` random positions
/// (never the first one with `keep_leading`) with random digits, and the result is the
/// first trial, applied to the start, that the oracle accepts; each rejected trial is
/// rolled back before the next. With no position free to change, or when all
/// `max_trials` trials are rejected, the search is exhausted.
pub fn prime_proximity_search(
    seq: &DigitSequence,
    rounds: usize,
    keep_leading: bool,
    changes_per_trial: usize,
    max_trials: u64,
) -> (r: Result<DigitSequence, SearchError>)
    requires
        seq.wf(),
        rounds < usize::MAX,
    ensures
        accepts(seq@, rounds as nat) ==> r is Ok && r->Ok_0@ == seq@,
        r is Err ==> r->Err_0 == SearchError::SearchExhausted && !accepts(seq@, rounds as nat),
        max_trials == 0 && !accepts(seq@, rounds as nat) ==> r is Err,
        first_free(keep_leading) >= seq@.len() ==> (r is Ok <==> accepts(
            seq@,
            rounds as nat,
        )),
        first_free(keep_leading) < seq@.len() && !accepts(seq@, rounds as nat)
            ==> exists|t: Seq<Seq<Change>>|
            t.len() <= max_trials && #[trigger] drawn_trials(
                t,
                seq@.len(),
                first_free(keep_leading),
                changes_per_trial as nat,
            ) && match first_prime_from(seq@, t, rounds as nat, 0) {
                Some(found) => r is Ok && r->Ok_0@ == found,
                None => r is Err && t.len() == max_trials,
            },
        r is Ok ==> {
            let found = r->Ok_0@;
            &&& r->Ok_0.wf()
            &&& found.len() == seq@.len()
            &&& accepts(found, rounds as nat)
            &&& keep_leading && seq@.len() > 0 ==> found[0] == seq@[0]
            &&& exists|t: Seq<Change>|
                t.len() <= changes_per_trial && valid_changes(t, seq@.len(), first_free(keep_leading))
                    && found == apply_changes(seq@, t)
        },
{
    let ghost s = seq@;
    let n = seq.len();
    let start = seq.to_integer();
    if is_probably_prime(&start, rounds) {
        let same = seq.duplicate();
        assert(valid_changes(Seq::<Change>::empty(), s.len(), first_free(keep_leading)));
        assert(same@ == apply_changes(s, Seq::<Change>::empty()));
        return Ok(same);
    }
    let first: usize = if keep_leading { 1 } else { 0 };
    if first >= n {
        return Err(SearchError::SearchExhausted);
    }
    let ghost k = changes_per_trial as nat;
    let ghost mut all: Seq<Seq<Change>> = Seq::empty();
    let mut remaining: u64 = max_trials;
    while remaining > 0
        invariant
            s == seq@,
            seq.wf(),
            n == s.len(),
            first < n,
            first == (if keep_leading { 1usize } else { 0usize }),
            rounds < usize::MAX,
            !accepts(s, rounds as nat),
            remaining <= max_trials,
            all.len() == max_trials - remaining,
            k == changes_per_trial as nat,
            drawn_trials(all, n as nat, first as nat, k),
            first_prime_from(s, all, rounds as nat, 0) is None,
        decreases remaining,
    {
        let size: u64 = if remaining < TRIAL_BATCH { remaining } else { TRIAL_BATCH };
        let mut batch: Vec<Vec<Change>> = Vec::new();
        let mut b: u64 = 0;
        while b < size
            invariant
                b <= size,
                batch@.len() == b,
                first < n,
                drawn_trials(trials_view(batch@), n as nat, first as nat, k),
                k == changes_per_trial as nat,
            decreases size - b,
        {
            let trial = draw_trial(n, first, changes_per_trial);
            let ghost before = batch@;
            let ghost drawn = trial@;
            batch.push(trial);
            proof {
                let bv = trials_view(batch@);
                assert forall|i: int| 0 <= i < bv.len() implies (#[trigger] bv[i]).len() == k
                    && valid_changes(bv[i], n as nat, first as nat) by {
                    if i < b {
                        assert(batch@[i] == before[i]);
                        assert(trials_view(before)[i] == before[i]@);
                    } else {
                        assert(bv[i] == drawn);
                    }
                }
            }
            b = b + 1;
        }
        let ghost bv = trials_view(batch@);
        assert forall|i: int| 0 <= i < batch@.len() implies valid_changes(
            #[trigger] batch@[i]@,
            seq@.len(),
            0,
        ) by {
            assert(bv[i] == batch@[i]@);
        }
        let found = search_with_trials(seq, &batch, rounds);
        proof {
            lemma_first_prime_concat(s, all, bv, rounds as nat, 0);
        }
        match found {
            Some(x) => {
                proof {
                    let t = all + bv;
                    lemma_first_prime_is_a_trial(s, t, rounds as nat, 0);
                    let j = choose|j: int|
                        0 <= j < t.len() && first_prime_from(s, t, rounds as nat, 0) == Some(
                            apply_changes(s, #[trigger] t[j]),
                        );
                    if j < all.len() {
                        assert(t[j] == all[j]);
                    } else {
                        assert(t[j] == bv[j - all.len()]);
                    }
                    lemma_apply_changes(s, t[j], first as nat);
                    assert(drawn_trials(t, n as nat, first as nat, k)) by {
                        assert forall|i: int| 0 <= i < t.len() implies (#[trigger] t[i]).len() == k
                            && valid_changes(t[i], n as nat, first as nat) by {
                            if i < all.len() {
                                assert(t[i] == all[i]);
                            } else {
                                assert(t[i] == bv[i - all.len()]);
                            }
                        }
                    }
                    assert(first_prime_from(s, t, rounds as nat, 0) == Some(x@));
                    assert(t.len() <= max_trials);
                }
                return Ok(x);
            },
            None => {
                proof {
                    let t = all + bv;
                    assert(drawn_trials(t, n as nat, first as nat, k)) by {
                        assert forall|i: int| 0 <= i < t.len() implies (#[trigger] t[i]).len() == k
                            && valid_changes(t[i], n as nat, first as nat) by {
                            if i < all.len() {
                                assert(t[i] == all[i]);
                            } else {
                                assert(t[i] == bv[i - all.len()]);
                            }
                        }
                    }
                    all = t;
                }
                remaining = remaining - size;
            },
        }
    }
    assert(all.len() == max_trials);
    assert(drawn_trials(all, seq@.len(), first as nat, changes_per_trial as nat));
    Err(SearchError::SearchExhausted)
}

} // verus!
