//! Random linearizations of partially ordered steps.
use vstd::prelude::*;

verus! {

/// What a SplitMix64 generator draws at a state.
pub open spec fn scrambled(s: u64) -> u64 {
    let a = (s ^ (s >> 30)).wrapping_mul(0xBF58_476D_1CE4_E5B9);
    let b = (a ^ (a >> 27)).wrapping_mul(0x94D0_49BB_1331_11EB);
    b ^ (b >> 31)
}

/// The next state of a SplitMix64 generator.
pub open spec fn stepped(s: u64) -> u64 {
    s.wrapping_add(0x9E37_79B9_7F4A_7C15)
}

/// The first state for a plan with the given numbers of steps and open conditions and the
/// given serial number.
pub open spec fn seed_of(num_steps: usize, num_open_conds: usize, serial_no: usize) -> u64 {
    0x9E37_79B9_7F4A_7C15u64 ^ (num_steps as u64) ^ ((num_open_conds as u64) << 17u64) ^ ((serial_no as u64) << 33u64)
}

/// A small deterministic SplitMix64 PRNG. Sampling needs randomized
/// linearizations but reproducible runs/tests, so the seed is derived from the
/// plan's shape rather than wall-clock entropy.
#[derive(Debug)]
pub struct Rng {
    state: u64,
}

impl Rng {
    pub closed spec fn view(&self) -> u64 {
        self.state
    }

    /// A generator for a plan with the given numbers of steps and open conditions
    /// and the given serial number.
    pub fn seed(num_steps: usize, num_open_conds: usize, serial_no: usize) -> (res: Rng)
        ensures
            res@ == seed_of(num_steps, num_open_conds, serial_no),
    {
        Rng {
            state: 0x9E37_79B9_7F4A_7C15u64 ^ (num_steps as u64) ^ ((num_open_conds as u64) << 17u64) ^ ((serial_no as u64) << 33u64),
        }
    }

    /// The next number.
    pub fn next_u64(&mut self) -> (res: u64)
        ensures
            final(self)@ == stepped(old(self)@),
            res == scrambled(final(self)@),
    {
        self.state = self.state.wrapping_add(0x9E37_79B9_7F4A_7C15);
        let s = self.state;
        let a = (s ^ (s >> 30)).wrapping_mul(0xBF58_476D_1CE4_E5B9);
        let b = (a ^ (a >> 27)).wrapping_mul(0x94D0_49BB_1331_11EB);
        b ^ (b >> 31)
    }

    /// The next number, below `n`.
    pub fn below(&mut self, n: usize) -> (res: usize)
        requires
            n > 0,
        ensures
            final(self)@ == stepped(old(self)@),
            res == scrambled(final(self)@) % (n as u64),
            res < n,
    {
        let x = self.next_u64();
        (x % n as u64) as usize
    }
}

/// Whether `before` is a strict partial order on the first `n` numbers.
pub open spec fn is_strict(before: spec_fn(int, int) -> bool, n: nat) -> bool {
    &&& forall|a: int| 0 <= a < n ==> !#[trigger] before(a, a)
    &&& forall|a: int, b: int, c: int|
        0 <= a < n && 0 <= b < n && 0 <= c < n && #[trigger] before(a, b) && #[trigger] before(b, c) ==> before(a, c)
}

/// Whether a list is a linearization: it has the first `n` numbers, each once, none
/// behind one that it comes before.
pub open spec fn is_linearization(before: spec_fn(int, int) -> bool, n: nat, list: Seq<usize>) -> bool {
    &&& list.len() == n
    &&& list.no_duplicates()
    &&& forall|i: int| 0 <= i < list.len() ==> #[trigger] list[i] < n
    &&& forall|i: int, j: int| 0 <= i < j < list.len() ==> !before(#[trigger] list[j] as int, #[trigger] list[i] as int)
}

/// Whether all that come before `j` are in a list.
pub open spec fn is_free(before: spec_fn(int, int) -> bool, n: nat, out: Seq<usize>, j: int) -> bool {
    forall|a: int| 0 <= a < n && #[trigger] before(a, j) ==> out.contains(a as usize)
}

/// Those of the first `k` numbers that nothing comes before, in ascending order.
pub open spec fn first_ready(before: spec_fn(int, int) -> bool, n: nat, k: nat) -> Seq<usize>
    decreases k,
{
    if k == 0 {
        Seq::empty()
    } else {
        let rest = first_ready(before, n, (k - 1) as nat);
        if is_free(before, n, Seq::empty(), k - 1) {
            rest.push((k - 1) as usize)
        } else {
            rest
        }
    }
}

/// Those of the first `k` numbers that `chosen` comes before and that wait for nothing
/// once `out` is drawn, in ascending order.
pub open spec fn released(before: spec_fn(int, int) -> bool, n: nat, out: Seq<usize>, chosen: usize, k: nat) -> Seq<usize>
    decreases k,
{
    if k == 0 {
        Seq::empty()
    } else {
        let rest = released(before, n, out, chosen, (k - 1) as nat);
        if before(chosen as int, k - 1) && is_free(before, n, out, k - 1) {
            rest.push((k - 1) as usize)
        } else {
            rest
        }
    }
}

/// A list without its entry at `at`, the last put in its place.
pub open spec fn swapped_out(list: Seq<usize>, at: int) -> Seq<usize> {
    list.update(at, list.last()).drop_last()
}

/// What is drawn behind `out` from what is ready, and the state of the generator behind
/// it. Each draw takes one of the ready numbers out and puts those that it releases at
/// the end.
pub open spec fn drawn_from(before: spec_fn(int, int) -> bool, n: nat, ready: Seq<usize>, out: Seq<usize>, state: u64) -> (Seq<usize>, u64)
    decreases n - out.len(),
{
    if ready.len() == 0 || out.len() >= n {
        (out, state)
    } else {
        let next = stepped(state);
        let pick = (scrambled(next) % (ready.len() as u64)) as int;
        let more = out.push(ready[pick]);
        drawn_from(before, n, swapped_out(ready, pick) + released(before, n, more, ready[pick], n), more, next)
    }
}

/// The linearization of the first `n` numbers that is drawn at a state, and the state
/// behind it.
pub open spec fn drawn(before: spec_fn(int, int) -> bool, n: nat, state: u64) -> (Seq<usize>, u64) {
    drawn_from(before, n, first_ready(before, n, n), Seq::empty(), state)
}

/// The first `k` linearizations that are drawn one after the other, and the state behind
/// them.
pub open spec fn all_drawn(before: spec_fn(int, int) -> bool, n: nat, state: u64, k: nat) -> (Seq<Seq<usize>>, u64)
    decreases k,
{
    if k == 0 {
        (Seq::empty(), state)
    } else {
        let (lins, mid) = all_drawn(before, n, state, (k - 1) as nat);
        let (lin, next) = drawn(before, n, mid);
        (lins.push(lin), next)
    }
}

/// The number of the first `k` that come before `j` and are not among those taken.
spec fn waiting_for(before: spec_fn(int, int) -> bool, taken: Seq<bool>, j: int, k: nat) -> nat
    decreases k,
{
    if k == 0 {
        0
    } else {
        waiting_for(before, taken, j, (k - 1) as nat) + if before(k - 1, j) && !taken[k - 1] {
            1nat
        } else {
            0nat
        }
    }
}

proof fn lemma_take_one(before: spec_fn(int, int) -> bool, taken: Seq<bool>, i: int, j: int, k: nat)
    requires
        0 <= i < taken.len(),
        k <= taken.len(),
        !taken[i],
    ensures
        waiting_for(before, taken.update(i, true), j, k) + (if i < k && before(i, j) {
            1nat
        } else {
            0nat
        }) == waiting_for(before, taken, j, k),
    decreases k,
{
    if k > 0 {
        lemma_take_one(before, taken, i, j, (k - 1) as nat);
    }
}

proof fn lemma_waiting_zero(before: spec_fn(int, int) -> bool, taken: Seq<bool>, j: int, k: nat)
    requires
        k <= taken.len(),
    ensures
        (waiting_for(before, taken, j, k) == 0) == (forall|a: int| 0 <= a < k && #[trigger] before(a, j) ==> taken[a]),
        waiting_for(before, taken, j, k) <= k,
    decreases k,
{
    if k > 0 {
        lemma_waiting_zero(before, taken, j, (k - 1) as nat);
        if before(k - 1, j) && !taken[k - 1] {
            assert(!(forall|a: int| 0 <= a < k && #[trigger] before(a, j) ==> taken[a]));
        }
    }
}

proof fn lemma_fewer(before: spec_fn(int, int) -> bool, taken: Seq<bool>, b: int, j: int, k: nat)
    requires
        is_strict(before, taken.len()),
        k <= taken.len(),
        0 <= b < taken.len(),
        0 <= j < taken.len(),
        before(b, j),
        !taken[b],
    ensures
        waiting_for(before, taken, b, k) <= waiting_for(before, taken, j, k),
        b < k ==> waiting_for(before, taken, b, k) < waiting_for(before, taken, j, k),
    decreases k,
{
    if k > 0 {
        lemma_fewer(before, taken, b, j, (k - 1) as nat);
        if before(k - 1, b) {
            assert(before(k - 1, j));
        }
    }
}

/// Something that is not taken waits for nothing.
proof fn lemma_some_ready(before: spec_fn(int, int) -> bool, taken: Seq<bool>, j: int) -> (r: int)
    requires
        is_strict(before, taken.len()),
        0 <= j < taken.len(),
        !taken[j],
    ensures
        0 <= r < taken.len(),
        !taken[r],
        waiting_for(before, taken, r, taken.len()) == 0,
    decreases waiting_for(before, taken, j, taken.len()),
{
    let n = taken.len();
    lemma_waiting_zero(before, taken, j, n);
    if waiting_for(before, taken, j, n) == 0 {
        j
    } else {
        let b = choose|b: int| 0 <= b < n && #[trigger] before(b, j) && !taken[b];
        lemma_fewer(before, taken, b, j, n);
        lemma_some_ready(before, taken, b)
    }
}

/// The number of the first `k` that are not taken.
spec fn untaken(taken: Seq<bool>, k: nat) -> nat
    decreases k,
{
    if k == 0 {
        0
    } else {
        untaken(taken, (k - 1) as nat) + if taken[k - 1] {
            0nat
        } else {
            1nat
        }
    }
}

proof fn lemma_untaken(taken: Seq<bool>, i: int, k: nat)
    requires
        0 <= i < taken.len(),
        k <= taken.len(),
        !taken[i],
    ensures
        untaken(taken.update(i, true), k) + (if i < k {
            1nat
        } else {
            0nat
        }) == untaken(taken, k),
    decreases k,
{
    if k > 0 {
        lemma_untaken(taken, i, (k - 1) as nat);
    }
}

proof fn lemma_some_untaken(taken: Seq<bool>, k: nat) -> (j: int)
    requires
        k <= taken.len(),
        untaken(taken, k) > 0,
    ensures
        0 <= j < k,
        !taken[j],
    decreases k,
{
    if taken[k - 1] {
        lemma_some_untaken(taken, (k - 1) as nat)
    } else {
        k - 1
    }
}

proof fn lemma_none_taken(taken: Seq<bool>, k: nat)
    requires
        k <= taken.len(),
        forall|i: int| 0 <= i < k ==> !#[trigger] taken[i],
    ensures
        untaken(taken, k) == k,
    decreases k,
{
    if k > 0 {
        lemma_none_taken(taken, (k - 1) as nat);
    }
}

/// A list without one entry, the last put in its place.
proof fn lemma_swapped(before: Seq<usize>, at: int, after: Seq<usize>)
    requires
        0 <= at < before.len(),
        before.no_duplicates(),
        after == before.update(at, before.last()).drop_last(),
    ensures
        after.no_duplicates(),
        forall|k: int| 0 <= k < after.len() ==> before.contains(#[trigger] after[k]) && after[k] != before[at],
        forall|x: usize| before.contains(x) && x != before[at] ==> #[trigger] after.contains(x),
{
    assert forall|k: int| 0 <= k < after.len() implies before.contains(#[trigger] after[k]) && after[k] != before[at] by {
        if k == at {
            assert(after[k] == before[before.len() - 1]);
        } else {
            assert(after[k] == before[k]);
        }
    }
    assert forall|x: usize| before.contains(x) && x != before[at] implies #[trigger] after.contains(x) by {
        let k = choose|k: int| 0 <= k < before.len() && before[k] == x;
        if k == before.len() - 1 {
            assert(after[at] == x);
        } else {
            assert(after[k] == x);
        }
    }
}

/// Whether the table says what comes before what.
pub open spec fn is_table(table: Seq<Vec<bool>>, before: spec_fn(int, int) -> bool) -> bool {
    &&& forall|a: int| 0 <= a < table.len() ==> (#[trigger] table[a])@.len() == table.len()
    &&& forall|a: int, b: int| 0 <= a < table.len() && 0 <= b < table.len() ==> (#[trigger] table[a]@[b] == before(a, b))
}

/// The numbers of those that each has to wait for.
fn count_earlier(table: &Vec<Vec<bool>>, before: Ghost<spec_fn(int, int) -> bool>, taken: Ghost<Seq<bool>>) -> (res: Vec<usize>)
    requires
        is_table(table@, before@),
        taken@.len() == table@.len(),
        forall|i: int| 0 <= i < taken@.len() ==> !#[trigger] taken@[i],
    ensures
        res@.len() == table@.len(),
        forall|j: int| 0 <= j < table@.len() ==> #[trigger] res@[j] == waiting_for(before@, taken@, j, table@.len()),
{
    let n = table.len();
    let mut res: Vec<usize> = Vec::new();
    let mut j: usize = 0;
    while j < n
        invariant
            n == table@.len(),
            is_table(table@, before@),
            taken@.len() == n,
            forall|i: int| 0 <= i < n ==> !#[trigger] taken@[i],
            j <= n,
            res@.len() == j,
            forall|k: int| 0 <= k < j ==> #[trigger] res@[k] == waiting_for(before@, taken@, k, n as nat),
        decreases n - j,
    {
        let mut count: usize = 0;
        let mut a: usize = 0;
        while a < n
            invariant
                n == table@.len(),
                is_table(table@, before@),
                taken@.len() == n,
                forall|i: int| 0 <= i < n ==> !#[trigger] taken@[i],
                j < n,
                a <= n,
                count <= a,
                count == waiting_for(before@, taken@, j as int, a as nat),
            decreases n - a,
        {
            assert(table@[a as int]@.len() == n);
            assert(table@[a as int]@[j as int] == before@(a as int, j as int));
            if table[a][j] {
                count = count + 1;
            }
            a = a + 1;
        }
        res.push(count);
        j = j + 1;
    }
    res
}

/// What waits for nothing is free.
proof fn lemma_free(before: spec_fn(int, int) -> bool, taken: Seq<bool>, out: Seq<usize>, j: int)
    requires
        taken.len() <= usize::MAX,
        forall|k: int| 0 <= k < out.len() ==> #[trigger] out[k] < taken.len() && taken[out[k] as int],
        forall|k: usize| k < taken.len() && taken[k as int] ==> #[trigger] out.contains(k),
    ensures
        is_free(before, taken.len(), out, j) == (forall|a: int| 0 <= a < taken.len() && #[trigger] before(a, j) ==> taken[a]),
{
    assert forall|a: int| 0 <= a < taken.len() implies #[trigger] out.contains(a as usize) == taken[a] by {
        if out.contains(a as usize) {
            let k = choose|k: int| 0 <= k < out.len() && out[k] == a as usize;
            assert(out[k] < taken.len());
        }
    }
}

/// Samples a single linearization of the first `table.len()` numbers: a
/// randomized topological sort.
pub(crate) fn sample_linearization(table: &Vec<Vec<bool>>, rng: &mut Rng, before: Ghost<spec_fn(int, int) -> bool>) -> (res: Vec<usize>)
    requires
        is_table(table@, before@),
        is_strict(before@, table@.len()),
    ensures
        is_linearization(before@, table@.len(), res@),
        (res@, final(rng)@) == drawn(before@, table@.len(), old(rng)@),
{
    let n = table.len();
    let ghost rel = before@;
    let ghost start = rng@;
    let ghost mut taken: Seq<bool> = Seq::new(n as nat, |i: int| false);
    let mut earlier = count_earlier(table, before, Ghost(taken));
    let mut ready: Vec<usize> = Vec::new();
    let mut i: usize = 0;
    while i < n
        invariant
            n == earlier@.len(),
            i <= n,
            taken.len() == n,
            forall|k: int| 0 <= k < n ==> !#[trigger] taken[k],
            forall|k: int| 0 <= k < n ==> #[trigger] earlier@[k] == waiting_for(rel, taken, k, n as nat),
            ready@ == first_ready(rel, n as nat, i as nat),
            forall|k: int| 0 <= k < ready@.len() ==> #[trigger] ready@[k] < i && earlier@[ready@[k] as int] == 0,
            forall|k: usize| k < i && earlier@[k as int] == 0 ==> #[trigger] ready@.contains(k),
            ready@.no_duplicates(),
        decreases n - i,
    {
        proof {
            lemma_waiting_zero(rel, taken, i as int, n as nat);
            lemma_free(rel, taken, Seq::empty(), i as int);
        }
        if earlier[i] == 0 {
            let ghost old_ready = ready@;
            ready.push(i);
            proof {
                assert(ready@[old_ready.len() as int] == i);
                assert forall|k: usize| k < i + 1 && earlier@[k as int] == 0 implies #[trigger] ready@.contains(k) by {
                    if k < i {
                        assert(old_ready.contains(k));
                        let m = choose|m: int| 0 <= m < old_ready.len() && old_ready[m] == k;
                        assert(ready@[m] == k);
                    }
                }
            }
        }
        i = i + 1;
    }
    let mut out: Vec<usize> = Vec::new();
    proof {
        lemma_none_taken(taken, n as nat);
    }
    while ready.len() > 0
        invariant
            n == table@.len(),
            rel == before@,
            is_table(table@, rel),
            is_strict(rel, n as nat),
            taken.len() == n,
            earlier@.len() == n,
            forall|j: int| 0 <= j < n ==> #[trigger] earlier@[j] == waiting_for(rel, taken, j, n as nat),
            forall|k: int| 0 <= k < ready@.len() ==> #[trigger] ready@[k] < n && earlier@[ready@[k] as int] == 0 && !taken[ready@[k] as int],
            forall|k: usize| k < n && earlier@[k as int] == 0 && !taken[k as int] ==> #[trigger] ready@.contains(k),
            ready@.no_duplicates(),
            out@.len() <= n,
            out@.no_duplicates(),
            forall|k: int| 0 <= k < out@.len() ==> #[trigger] out@[k] < n && taken[out@[k] as int],
            forall|k: usize| k < n && taken[k as int] ==> #[trigger] out@.contains(k),
            forall|x: int, y: int| 0 <= x < y < out@.len() ==> !rel(#[trigger] out@[y] as int, #[trigger] out@[x] as int),
            forall|a: int, b: int| 0 <= a < n && 0 <= b < n && taken[b] && #[trigger] rel(a, b) ==> taken[a],
            untaken(taken, n as nat) + out@.len() == n,
            drawn_from(rel, n as nat, ready@, out@, rng@) == drawn(rel, n as nat, start),
        decreases untaken(taken, n as nat),
    {
        let pick = rng.below(ready.len());
        let ghost old_ready = ready@;
        let chosen = ready.swap_remove(pick);
        proof {
            assert(chosen == old_ready[pick as int]);
            assert(chosen < n && earlier@[chosen as int] == 0 && !taken[chosen as int]);
            lemma_swapped(old_ready, pick as int, ready@);
            lemma_untaken(taken, chosen as int, n as nat);
            lemma_waiting_zero(rel, taken, chosen as int, n as nat);
        }
        let ghost out_before = out@;
        let ghost taken_before = taken;
        out.push(chosen);
        proof {
            taken = taken.update(chosen as int, true);
            assert(out@[out_before.len() as int] == chosen);
            assert forall|k: usize| k < n && taken[k as int] implies #[trigger] out@.contains(k) by {
                if k != chosen {
                    assert(out_before.contains(k));
                    let m = choose|m: int| 0 <= m < out_before.len() && out_before[m] == k;
                    assert(out@[m] == k);
                }
            }
            assert forall|k: int| 0 <= k < ready@.len() implies #[trigger] ready@[k] < n && !taken[ready@[k] as int] && earlier@[ready@[k] as int] == 0 by {
                assert(old_ready.contains(ready@[k]));
                let m = choose|m: int| 0 <= m < old_ready.len() && old_ready[m] == ready@[k];
                assert(old_ready[m] < n);
            }
            assert forall|k: usize| k < n && !taken[k as int] && earlier@[k as int] == 0 implies #[trigger] ready@.contains(k) by {
                assert(old_ready.contains(k));
            }
        }
        let ghost mid = earlier@;
        let ghost left = ready@;
        assert(left == swapped_out(old_ready, pick as int));
        assert(left + released(rel, n as nat, out@, chosen, 0) =~= left);
        let mut j: usize = 0;
        while j < n
            invariant
                n == table@.len(),
                rel == before@,
                is_table(table@, rel),
                is_strict(rel, n as nat),
                chosen < n,
                taken_before.len() == n,
                !taken_before[chosen as int],
                forall|a: int, b: int| 0 <= a < n && 0 <= b < n && taken_before[b] && #[trigger] rel(a, b) ==> taken_before[a],
                taken == taken_before.update(chosen as int, true),
                forall|k: int| 0 <= k < out@.len() ==> #[trigger] out@[k] < n && taken[out@[k] as int],
                forall|k: usize| k < n && taken[k as int] ==> #[trigger] out@.contains(k),
                ready@ == left + released(rel, n as nat, out@, chosen, j as nat),
                j <= n,
                mid.len() == n,
                earlier@.len() == n,
                forall|k: int| 0 <= k < n ==> #[trigger] mid[k] == waiting_for(rel, taken_before, k, n as nat),
                forall|k: int| 0 <= k < j ==> #[trigger] earlier@[k] == waiting_for(rel, taken, k, n as nat),
                forall|k: int| j <= k < n ==> #[trigger] earlier@[k] == mid[k],
                forall|k: int| 0 <= k < ready@.len() ==> #[trigger] ready@[k] < n && !taken[ready@[k] as int] && earlier@[ready@[k] as int] == 0,
                forall|k: usize| k < n && !taken[k as int] && (mid[k as int] == 0 || (k < j && earlier@[k as int] == 0)) ==> #[trigger] ready@.contains(k),
                ready@.no_duplicates(),
                forall|k: int| 0 <= k < ready@.len() ==> mid[#[trigger] ready@[k] as int] == 0 || ready@[k] < j,
            decreases n - j,
        {
            proof {
                lemma_take_one(rel, taken_before, chosen as int, j as int, n as nat);
                assert(table@[chosen as int]@.len() == n);
                assert(table@[chosen as int]@[j as int] == rel(chosen as int, j as int));
                assert(earlier@[j as int] == mid[j as int]);
                lemma_waiting_zero(rel, taken, j as int, n as nat);
                lemma_free(rel, taken, out@, j as int);
            }
            if table[chosen][j] {
                let ghost was = earlier@;
                earlier.set(j, earlier[j] - 1);
                proof {
                    assert forall|k: int| 0 <= k < ready@.len() implies #[trigger] ready@[k] < n && !taken[ready@[k] as int] && earlier@[ready@[k] as int] == 0 by {
                        assert(was[ready@[k] as int] == 0);
                    }
                }
                if earlier[j] == 0 {
                    let ghost r0 = ready@;
                    proof {
                        if r0.contains(j) {
                            let m = choose|m: int| 0 <= m < r0.len() && r0[m] == j;
                            assert(was[r0[m] as int] == 0);
                        }
                        if taken[j as int] && j != chosen {
                            assert(taken_before[j as int]);
                            assert(rel(chosen as int, j as int));
                        }
                        assert(!rel(chosen as int, chosen as int));
                    }
                    ready.push(j);
                    proof {
                        assert(ready@ =~= left + released(rel, n as nat, out@, chosen, (j + 1) as nat));
                        assert(ready@[r0.len() as int] == j);
                        assert forall|k: usize| k < n && !taken[k as int] && (mid[k as int] == 0 || (k < j + 1 && earlier@[k as int] == 0)) implies #[trigger] ready@.contains(k) by {
                            if k != j {
                                assert(r0.contains(k));
                                let m = choose|m: int| 0 <= m < r0.len() && r0[m] == k;
                                assert(ready@[m] == k);
                            }
                        }
                    }
                }
            }
            j = j + 1;
        }
    }
    proof {
        if out@.len() < n {
            let j = lemma_some_untaken(taken, n as nat);
            let r = lemma_some_ready(rel, taken, j);
            assert(earlier@[r] == 0);
            assert(ready@.contains(r as usize));
        }
    }
    out
}

/// Which of the first `n` numbers are in a list.
spec fn taken_by(out: Seq<usize>, n: nat) -> Seq<bool> {
    Seq::new(n, |i: int| out.contains(i as usize))
}

/// Whether a list is the front of a linearization and what is ready is what may follow.
spec fn is_partial(before: spec_fn(int, int) -> bool, n: nat, ready: Seq<usize>, out: Seq<usize>) -> bool {
    &&& n <= usize::MAX
    &&& out.no_duplicates()
    &&& forall|i: int| 0 <= i < out.len() ==> #[trigger] out[i] < n
    &&& forall|i: int, j: int| 0 <= i < j < out.len() ==> !before(#[trigger] out[j] as int, #[trigger] out[i] as int)
    &&& forall|x: usize| #[trigger] out.contains(x) ==> is_free(before, n, out, x as int)
    &&& untaken(taken_by(out, n), n) + out.len() == n
    &&& ready.no_duplicates()
    &&& forall|x: usize| #[trigger] ready.contains(x) <==> may_follow(before, n, out, x)
}

/// Whether a number may follow a list.
spec fn may_follow(before: spec_fn(int, int) -> bool, n: nat, out: Seq<usize>, x: usize) -> bool {
    x < n && !out.contains(x) && is_free(before, n, out, x as int)
}

proof fn lemma_push_has(list: Seq<usize>, y: usize, x: usize)
    ensures
        list.push(y).contains(x) <==> list.contains(x) || x == y,
{
    let more = list.push(y);
    assert(more[list.len() as int] == y);
    if list.contains(x) {
        let k = choose|k: int| 0 <= k < list.len() && list[k] == x;
        assert(more[k] == x);
    }
}

/// A list of different numbers below `n` has as many as it takes.
proof fn lemma_taken_count(list: Seq<usize>, n: nat)
    requires
        n <= usize::MAX,
        list.no_duplicates(),
        forall|x: usize| #[trigger] list.contains(x) ==> x < n,
    ensures
        untaken(taken_by(list, n), n) + list.len() == n,
    decreases list.len(),
{
    if list.len() == 0 {
        lemma_none_taken(taken_by(list, n), n);
    } else {
        let front = list.drop_last();
        let c = list.last();
        assert(list =~= front.push(c));
        assert forall|x: usize| #[trigger] list.contains(x) <==> front.contains(x) || x == c by {
            lemma_push_has(front, c, x);
        }
        assert forall|x: usize| #[trigger] front.contains(x) implies x < n by {
            assert(list.contains(x));
        }
        lemma_taken_count(front, n);
        assert(list.contains(c));
        assert(!front.contains(c)) by {
            if front.contains(c) {
                let k = choose|k: int| 0 <= k < front.len() && front[k] == c;
                assert(list[k] == list[list.len() - 1]);
            }
        }
        lemma_untaken(taken_by(front, n), c as int, n);
        assert(taken_by(list, n) =~= taken_by(front, n).update(c as int, true)) by {
            assert forall|i: int| 0 <= i < n implies #[trigger] list.contains(i as usize) == (front.contains(i as usize) || i == c) by {}
        }
    }
}

proof fn lemma_first_ready(before: spec_fn(int, int) -> bool, n: nat, k: nat)
    requires
        k <= usize::MAX,
    ensures
        first_ready(before, n, k).no_duplicates(),
        forall|x: usize| #[trigger]
            first_ready(before, n, k).contains(x) <==> x < k && is_free(before, n, Seq::empty(), x as int),
    decreases k,
{
    if k > 0 {
        let rest = first_ready(before, n, (k - 1) as nat);
        lemma_first_ready(before, n, (k - 1) as nat);
        let y = (k - 1) as usize;
        assert(!rest.contains(y));
        assert forall|x: usize| #[trigger]
            first_ready(before, n, k).contains(x) <==> x < k && is_free(before, n, Seq::empty(), x as int) by {
            lemma_push_has(rest, y, x);
            assert(rest.contains(x) <==> x < k - 1 && is_free(before, n, Seq::empty(), x as int));
        }
    }
}

proof fn lemma_released(before: spec_fn(int, int) -> bool, n: nat, out: Seq<usize>, chosen: usize, k: nat)
    requires
        k <= usize::MAX,
    ensures
        released(before, n, out, chosen, k).no_duplicates(),
        forall|x: usize| #[trigger]
            released(before, n, out, chosen, k).contains(x) <==> x < k && before(chosen as int, x as int) && is_free(before, n, out, x as int),
    decreases k,
{
    if k > 0 {
        let rest = released(before, n, out, chosen, (k - 1) as nat);
        lemma_released(before, n, out, chosen, (k - 1) as nat);
        let y = (k - 1) as usize;
        assert(!rest.contains(y));
        assert forall|x: usize| #[trigger]
            released(before, n, out, chosen, k).contains(x) <==> x < k && before(chosen as int, x as int) && is_free(
                before,
                n,
                out,
                x as int,
            ) by {
            lemma_push_has(rest, y, x);
            assert(rest.contains(x) <==> x < k - 1 && before(chosen as int, x as int) && is_free(before, n, out, x as int));
        }
    }
}

/// Drawing one of the ready numbers goes on with the linearization.
proof fn lemma_draw_one(before: spec_fn(int, int) -> bool, n: nat, ready: Seq<usize>, out: Seq<usize>, pick: int)
    requires
        is_strict(before, n),
        is_partial(before, n, ready, out),
        0 <= pick < ready.len(),
    ensures
        is_partial(
            before,
            n,
            swapped_out(ready, pick) + released(before, n, out.push(ready[pick]), ready[pick], n),
            out.push(ready[pick]),
        ),
{
    let c = ready[pick];
    let more = out.push(c);
    let left = swapped_out(ready, pick);
    let new = released(before, n, more, c, n);
    let next = left + new;
    assert(ready.contains(c));
    assert(may_follow(before, n, out, c));
    lemma_swapped(ready, pick, left);
    lemma_released(before, n, more, c, n);
    assert forall|x: usize| #[trigger] more.contains(x) <==> out.contains(x) || x == c by {
        lemma_push_has(out, c, x);
    }
    assert forall|x: int| is_free(before, n, out, x) implies #[trigger] is_free(before, n, more, x) by {
        assert forall|a: int| 0 <= a < n && #[trigger] before(a, x) implies more.contains(a as usize) by {
            assert(out.contains(a as usize));
        }
    }
    assert forall|x: usize| #[trigger] more.contains(x) implies is_free(before, n, more, x as int) by {
        if x != c {
            assert(out.contains(x));
        }
    }
    assert forall|i: int, j: int| 0 <= i < j < more.len() implies !before(#[trigger] more[j] as int, #[trigger] more[i] as int) by {
        if j == out.len() {
            assert(out.contains(out[i]));
            if before(c as int, out[i] as int) {
                assert(out.contains(c as int as usize));
            }
        }
    }
    assert(!out.contains(c));
    lemma_untaken(taken_by(out, n), c as int, n);
    assert(taken_by(more, n) =~= taken_by(out, n).update(c as int, true)) by {
        assert forall|i: int| 0 <= i < n implies #[trigger] more.contains(i as usize) == (out.contains(i as usize) || i == c) by {}
    }
    assert forall|x: usize| #[trigger] next.contains(x) <==> left.contains(x) || new.contains(x) by {
        if left.contains(x) {
            let k = choose|k: int| 0 <= k < left.len() && left[k] == x;
            assert(next[k] == x);
        }
        if new.contains(x) {
            let k = choose|k: int| 0 <= k < new.len() && new[k] == x;
            assert(next[left.len() + k] == x);
        }
        if next.contains(x) {
            let k = choose|k: int| 0 <= k < next.len() && next[k] == x;
            if k < left.len() {
                assert(left[k] == x);
            } else {
                assert(new[k - left.len()] == x);
            }
        }
    }
    assert forall|x: usize| left.contains(x) implies ready.contains(x) && x != c && !before(c as int, x as int) by {
        let k = choose|k: int| 0 <= k < left.len() && left[k] == x;
        assert(ready.contains(left[k]));
        assert(may_follow(before, n, out, x));
        if before(c as int, x as int) {
            assert(out.contains(c as int as usize));
        }
    }
    assert(next.no_duplicates()) by {
        assert forall|i: int, j: int| 0 <= i < next.len() && 0 <= j < next.len() && i != j implies next[i] != next[j] by {
            if i < left.len() && j >= left.len() {
                assert(left.contains(next[i]));
                assert(new[j - left.len()] == next[j]);
                assert(new.contains(next[j]));
            } else if j < left.len() && i >= left.len() {
                assert(left.contains(next[j]));
                assert(new[i - left.len()] == next[i]);
                assert(new.contains(next[i]));
            } else if i >= left.len() {
                assert(new[i - left.len()] == next[i] && new[j - left.len()] == next[j]);
            } else {
                assert(left[i] == next[i] && left[j] == next[j]);
            }
        }
    }
    assert forall|x: usize| #[trigger] next.contains(x) <==> may_follow(before, n, more, x) by {
        if left.contains(x) {
            assert(may_follow(before, n, out, x));
        }
        if new.contains(x) {
            if x == c {
                assert(!before(c as int, c as int));
            } else if out.contains(x) {
                assert(is_free(before, n, out, x as int));
                assert(out.contains(c as int as usize));
            }
        }
        if may_follow(before, n, more, x) && !before(c as int, x as int) {
            assert forall|a: int| 0 <= a < n && #[trigger] before(a, x as int) implies out.contains(a as usize) by {
                assert(more.contains(a as usize));
            }
            assert(may_follow(before, n, out, x));
            assert(ready.contains(x));
            assert(left.contains(x));
        }
    }
}

proof fn lemma_drawn_from(before: spec_fn(int, int) -> bool, n: nat, ready: Seq<usize>, out: Seq<usize>, state: u64)
    requires
        is_strict(before, n),
        is_partial(before, n, ready, out),
    ensures
        is_linearization(before, n, drawn_from(before, n, ready, out, state).0),
    decreases n - out.len(),
{
    if out.len() < n {
        if ready.len() == 0 {
            let taken = taken_by(out, n);
            let j = lemma_some_untaken(taken, n);
            let r = lemma_some_ready(before, taken, j);
            lemma_waiting_zero(before, taken, r, n);
            assert(is_free(before, n, out, r));
            assert(may_follow(before, n, out, r as usize));
            assert(ready.contains(r as usize));
        } else {
            let next = stepped(state);
            let size = ready.len() as u64;
            lemma_taken_count(ready, n);
            let pick = (scrambled(next) % size) as int;
            lemma_draw_one(before, n, ready, out, pick);
            lemma_drawn_from(
                before,
                n,
                swapped_out(ready, pick) + released(before, n, out.push(ready[pick]), ready[pick], n),
                out.push(ready[pick]),
                next,
            );
        }
    }
}

/// What is drawn is a linearization, whatever the state of the generator.
pub proof fn draws_are_linearizations(before: spec_fn(int, int) -> bool, n: nat, state: u64)
    requires
        is_strict(before, n),
        n <= usize::MAX,
    ensures
        is_linearization(before, n, drawn(before, n, state).0),
{
    let ready = first_ready(before, n, n);
    let none = Seq::<usize>::empty();
    lemma_first_ready(before, n, n);
    lemma_taken_count(none, n);
    assert forall|x: usize| #[trigger] ready.contains(x) <==> may_follow(before, n, none, x) by {}
    lemma_drawn_from(before, n, ready, none, state);
}

/// All that are drawn one after the other are linearizations.
pub proof fn all_draws_are_linearizations(before: spec_fn(int, int) -> bool, n: nat, state: u64, k: nat)
    requires
        is_strict(before, n),
        n <= usize::MAX,
    ensures
        all_drawn(before, n, state, k).0.len() == k,
        forall|i: int| 0 <= i < k ==> is_linearization(before, n, #[trigger] all_drawn(before, n, state, k).0[i]),
    decreases k,
{
    if k > 0 {
        let before_last = all_drawn(before, n, state, (k - 1) as nat);
        all_draws_are_linearizations(before, n, state, (k - 1) as nat);
        draws_are_linearizations(before, n, before_last.1);
        assert forall|i: int| 0 <= i < k implies is_linearization(before, n, #[trigger] all_drawn(before, n, state, k).0[i]) by {
            if i < k - 1 {
                assert(all_drawn(before, n, state, k).0[i] == before_last.0[i]);
            }
        }
    }
}

} // verus!
