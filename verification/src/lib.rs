//! Generation of all permutations of a sequence, one at a time, by the
//! Steinhaus–Johnson–Trotter algorithm with Even's speedup.
//!
//! Each permutation in the generated order differs from the one before it by a
//! swap of two adjacent elements.  Even's improvement keeps, for every element
//! label, its current position and a direction of travel (negative, zero, or
//! positive), so that producing the next permutation costs O(1) amortized work
//! instead of a full scan.

use vstd::prelude::*;

verus! {

/// A stateful generator that yields, on each call of [`Permutation::next`],
/// the next permutation of its input sequence in Steinhaus–Johnson–Trotter
/// order, until all orderings have been produced.
///
/// Internally the generator labels the input elements `0..n` by their initial
/// index and does all bookkeeping on those labels: `numbers[i]` is the label
/// at position `i`, `positions[l]` is the position of label `l` (always the
/// exact inverse of `numbers`), and `directions[l]` is the way label `l` is
/// currently permitted to move.  The swap of the input elements themselves is
/// recorded in `must_swap` and applied at the start of the following call.
pub struct Permutation<T> {
    input: Vec<T>,
    numbers: Vec<usize>,
    directions: Vec<isize>,
    positions: Vec<usize>,
    terminated: bool,
    must_swap: Option<(usize, usize)>,
    initial: Ghost<Seq<T>>,
}

impl<T> Permutation<T> {
    /// The current arrangement of the caller's elements, as last returned.
    pub closed spec fn elems(self) -> Seq<T> {
        self.input@
    }

    /// The label occupying each position.
    pub closed spec fn nums(self) -> Seq<usize> {
        self.numbers@
    }

    /// The direction each label is permitted to move: -1, 0, or 1.
    pub closed spec fn dirs(self) -> Seq<isize> {
        self.directions@
    }

    /// The position occupied by each label; the inverse of `nums`.
    pub closed spec fn poss(self) -> Seq<usize> {
        self.positions@
    }

    /// The adjacent swap recorded for the start of the next call, if any.
    pub closed spec fn pending(self) -> Option<(usize, usize)> {
        self.must_swap
    }

    /// Whether every ordering has already been produced.
    pub closed spec fn exhausted(self) -> bool {
        self.terminated
    }

    /// The elements in the order given at construction.
    pub closed spec fn first_order(self) -> Seq<T> {
        self.initial@
    }

    /// The number of elements being permuted.
    pub open spec fn n(self) -> int {
        self.nums().len() as int
    }

    /// The arrangement the next successful call will return: the current
    /// elements with the pending adjacent swap (if any) applied.
    pub open spec fn current(self) -> Seq<T> {
        match self.pending() {
            None => self.elems(),
            Some((a, b)) => self.elems().update(a as int, self.elems()[b as int]).update(
                b as int,
                self.elems()[a as int],
            ),
        }
    }

    /// Structural invariant: all four per-element tables have length `n`,
    /// `numbers` and `positions` are mutually inverse permutations of the
    /// labels `0..n`, every direction is -1, 0 or 1, label 0 never moves, a
    /// pending swap is a swap of two adjacent in-range positions, and the
    /// arrangement about to be returned is exactly the initial elements
    /// rearranged according to `numbers`.
    pub open spec fn wf(self) -> bool {
        &&& self.elems().len() == self.n()
        &&& self.poss().len() == self.n()
        &&& self.dirs().len() == self.n()
        &&& self.first_order().len() == self.n()
        &&& forall|i: int| 0 <= i < self.n() ==> (#[trigger] self.nums()[i]) < self.n()
        &&& forall|i: int|
            0 <= i < self.n() ==> self.poss()[#[trigger] self.nums()[i] as int] == i
        &&& forall|l: int| 0 <= l < self.n() ==> (#[trigger] self.poss()[l]) < self.n()
        &&& forall|l: int|
            0 <= l < self.n() ==> self.nums()[#[trigger] self.poss()[l] as int] == l
        &&& forall|l: int| 0 <= l < self.n() ==> -1 <= #[trigger] self.dirs()[l] <= 1
        &&& self.n() > 0 ==> self.dirs()[0] == 0
        &&& match self.pending() {
            None => true,
            Some((a, b)) => a < self.n() && b < self.n() && (a == b + 1 || b == a + 1),
        }
        &&& forall|i: int|
            0 <= i < self.n() ==> self.current()[i] == self.first_order()[#[trigger] self.nums()[i] as int]
    }

    /// The state as built by `new`: identity labelling, label 0 stationary,
    /// every other label moving toward lower positions, nothing pending.
    pub open spec fn fresh(self) -> bool {
        &&& !self.exhausted()
        &&& self.pending() is None
        &&& forall|i: int| 0 <= i < self.n() ==> (#[trigger] self.nums()[i]) as int == i
        &&& forall|l: int| 0 <= l < self.n() ==> (#[trigger] self.poss()[l]) as int == l
        &&& forall|l: int| 1 <= l < self.n() ==> (#[trigger] self.dirs()[l]) == -1
    }

    /// Label `l` may take a step: its direction is nonzero and one step in
    /// that direction stays inside the sequence.  In every state this
    /// generator builds, the second condition follows from the first, but
    /// carrying it here keeps every index derived from a direction in range
    /// by construction.
    pub open spec fn movable(self, l: int) -> bool {
        &&& 0 <= l < self.n()
        &&& self.dirs()[l] != 0
        &&& 0 <= self.poss()[l] + self.dirs()[l] < self.n()
    }

    /// No label may move: the next call will report exhaustion.
    pub open spec fn stuck(self) -> bool {
        forall|l: int| !self.movable(l)
    }

    /// `m` is the label an advancing step moves: the largest movable one.
    pub open spec fn is_largest_movable(self, m: int) -> bool {
        &&& self.movable(m)
        &&& forall|k: int| m < k < self.n() ==> !self.movable(k)
    }

    /// The position label `m` moves to when it takes a step.
    pub open spec fn step_target(self, m: int) -> int {
        self.poss()[m] + self.dirs()[m]
    }

    /// The labels by position after label `m` has taken its step: `m` and
    /// its neighbour in the direction of travel trade places.
    pub open spec fn step_nums(self, m: int) -> Seq<usize> {
        let idx = self.poss()[m] as int;
        let t = self.step_target(m);
        self.nums().update(idx, self.nums()[t]).update(t, self.nums()[idx])
    }

    /// The positions by label after label `m` has taken its step.
    pub open spec fn step_poss(self, m: int) -> Seq<usize> {
        let idx = self.poss()[m] as int;
        let t = self.step_target(m);
        self.poss().update(m, t as usize).update(self.nums()[t] as int, idx as usize)
    }

    /// After its step, label `m` comes to rest: it reaches a boundary of the
    /// sequence, or the next label in its direction of travel is larger.
    pub open spec fn step_blocked(self, m: int) -> bool {
        let t = self.step_target(m);
        ||| t == 0
        ||| t == self.n() - 1
        ||| m < self.nums()[t + self.dirs()[m]] as int
    }

    /// The directions by label after label `m` has taken its step: `m` keeps its
    /// direction unless it is now blocked; every label larger than `m` is
    /// pointed back toward `m`'s new position; labels smaller than `m` are
    /// left untouched (the heart of Even's speedup).
    pub open spec fn step_dirs(self, m: int) -> Seq<isize> {
        let t = self.step_target(m);
        Seq::new(
            self.dirs().len(),
            |l: int|
                if l == m {
                    if self.step_blocked(m) {
                        0isize
                    } else {
                        self.dirs()[m]
                    }
                } else if l > m {
                    if self.step_poss(m)[l] < t {
                        1isize
                    } else {
                        -1isize
                    }
                } else {
                    self.dirs()[l]
                },
        )
    }

    /// Builds a generator over `input`, which may be empty.  Labels the
    /// elements `0..n` by their initial index; the first call of `next` will
    /// return `input` itself unchanged.
    pub fn new(input: Vec<T>) -> (r: Self)
        ensures
            r.wf(),
            r.fresh(),
            r.n() == input@.len(),
            r.elems() == input@,
            r.first_order() == input@,
    {
        let ghost given = input@;
        let n = input.len();
        let mut numbers: Vec<usize> = Vec::new();
        let mut directions: Vec<isize> = Vec::new();
        let mut positions: Vec<usize> = Vec::new();
        // Initially the direction of label 0 is zero and every other label
        // points toward lower positions.
        let mut i: usize = 0;
        while i < n
            invariant
                i <= n,
                numbers@.len() == i,
                directions@.len() == i,
                positions@.len() == i,
                forall|k: int| 0 <= k < i ==> (#[trigger] numbers@[k]) as int == k,
                forall|k: int| 0 <= k < i ==> (#[trigger] positions@[k]) as int == k,
                forall|k: int|
                    0 <= k < i ==> (#[trigger] directions@[k]) == if k == 0 { 0isize } else {
                        -1isize
                    },
            decreases n - i,
        {
            numbers.push(i);
            positions.push(i);
            if i == 0 {
                directions.push(0);
            } else {
                directions.push(-1);
            }
            i += 1;
        }
        Self {
            input,
            numbers,
            directions,
            positions,
            terminated: false,
            must_swap: None,
            initial: Ghost(given),
        }
    }

    /// Scans the labels from largest to smallest and returns the largest one
    /// that may take a step, if any.
    #[verifier::loop_isolation(false)]
    fn find_largest_movable(&self) -> (r: Option<usize>)
        requires
            self.wf(),
        ensures
            match r {
                Some(l) => self.is_largest_movable(l as int),
                None => self.stuck(),
            },
    {
        let n = self.directions.len();
        let mut l = n;
        while l > 0
            invariant
                l <= n,
                forall|k: int| l <= k < n ==> !self.movable(k),
            decreases l,
        {
            l -= 1;
            let d = self.directions[l];
            if d != 0 {
                let p = self.positions[l];
                proof {
                    assert(self.poss()[l as int] < n);
                }
                if d < 0 {
                    if p >= 1 {
                        return Some(l);
                    }
                } else {
                    if p + 1 < n {
                        return Some(l);
                    }
                }
            }
        }
        None
    }

    /// Returns the next permutation in Steinhaus–Johnson–Trotter order, or
    /// `None` once all orderings have been produced.
    ///
    /// The first call returns the elements in their construction order; each
    /// later successful call returns the previous arrangement with one pair
    /// of adjacent elements swapped.  The call that finds no movable label
    /// returns the final arrangement and marks the generator exhausted; every
    /// call after that returns `None` and leaves the state untouched.  The
    /// returned borrow points into the generator and must be consumed or
    /// copied before the next call, which rearranges the storage in place.
    pub fn next(&mut self) -> (r: Option<&Vec<T>>)
        requires
            old(self).wf(),
        ensures
            final(self).wf(),
            final(self).n() == old(self).n(),
            final(self).first_order() == old(self).first_order(),
            // Exhaustion is stable: a terminated generator stays terminated
            // and untouched, and signals it.
            old(self).exhausted() ==> r is None && *final(self) == *old(self),
            // Every other call returns the arrangement promised by the
            // previous one: the elements with the pending swap applied.
            !old(self).exhausted() ==> (r matches Some(v) && v@ == final(self).elems()),
            !old(self).exhausted() ==> final(self).elems() == old(self).current(),
            // Each output is an arrangement of the same multiset of
            // elements as the one before it.
            !old(self).exhausted() ==> final(self).elems().to_multiset() == old(
                self,
            ).elems().to_multiset(),
            // What is returned is the initial elements rearranged according
            // to the labels, so it is an ordering of the same elements.
            !old(self).exhausted() ==> forall|i: int|
                0 <= i < old(self).n() ==> final(self).elems()[i] == old(self).first_order()[
                    #[trigger] old(self).nums()[i] as int
                ],
            // A call that finds no movable label reports the last ordering
            // and exhausts the generator without moving any label.
            !old(self).exhausted() && old(self).stuck() ==> final(self).exhausted()
                && final(self).pending() is None && final(self).nums() == old(self).nums()
                && final(self).poss() == old(self).poss() && final(self).dirs() == old(
                self,
            ).dirs(),
            // Otherwise the largest movable label takes one step and the
            // bookkeeping advances exactly as `step_nums`/`step_poss`/
            // `step_dirs` describe, with the element swap left pending.
            forall|m: int|
                !old(self).exhausted() && old(self).is_largest_movable(m) ==> {
                    &&& !final(self).exhausted()
                    &&& final(self).nums() == old(self).step_nums(m)
                    &&& final(self).poss() == old(self).step_poss(m)
                    &&& final(self).dirs() == old(self).step_dirs(m)
                    &&& final(self).pending() == Some(
                        (
                            old(self).step_target(m) as usize,
                            old(self).poss()[m] as usize,
                        ),
                    )
                },
    {
        if self.terminated {
            return None;
        }
        let ghost entry = *self;
        if let Some((a, b)) = self.must_swap {
            self.must_swap = None;
            // Swap the two adjacent elements by taking the lower one out and
            // putting it back one place further on.
            let lo = if a < b {
                a
            } else {
                b
            };
            let moved = self.input.remove(lo);
            self.input.insert(lo + 1, moved);
            proof {
                assert(self.input@ =~= entry.current());
                lemma_swap_preserves_multiset(entry.elems(), a as int, b as int);
            }
        }
        let ghost mid = *self;
        proof {
            assert(mid.wf());
            assert(mid.nums() == entry.nums() && mid.poss() == entry.poss() && mid.dirs()
                == entry.dirs());
            assert forall|k: int| #[trigger] mid.movable(k) == entry.movable(k) by {}
        }

        match self.find_largest_movable() {
            Some(l) => {
                let index = self.positions[l];
                proof {
                    assert(mid.nums()[mid.poss()[l as int] as int] == l);
                    assert(entry.movable(l as int));
                    assert(!entry.stuck());
                }
                self.swap_inner_elements(index);
                proof {
                    let li = l as int;
                    assert(mid.step_target(li) == entry.step_target(li));
                    assert(mid.step_blocked(li) == entry.step_blocked(li));
                    assert(mid.step_nums(li) =~= entry.step_nums(li));
                    assert(mid.step_poss(li) =~= entry.step_poss(li));
                    assert(mid.step_dirs(li) =~= entry.step_dirs(li));
                    assert forall|m: int| entry.is_largest_movable(m) implies m == li by {
                        assert(entry.movable(m));
                        if m > li {
                            assert(!mid.movable(m));
                        }
                        if m < li {
                            assert(entry.movable(li));
                        }
                    }
                }
            },
            None => {
                self.terminated = true;
                proof {
                    assert forall|m: int| !entry.is_largest_movable(m) by {
                        assert(!mid.movable(m));
                    }
                }
            },
        }
        Some(&self.input)
    }

    /// Moves the label at position `index` one step in its direction: swaps
    /// the two labels in `numbers` and `positions`, records the element swap
    /// for the next call, rests the moved label if it is now blocked, and
    /// points every larger label back toward it.
    #[verifier::loop_isolation(false)]
    fn swap_inner_elements(&mut self, index: usize)
        requires
            old(self).wf(),
            old(self).pending() is None,
            index < old(self).n(),
            old(self).movable(old(self).nums()[index as int] as int),
        ensures
            final(self).wf(),
            ({
                let m = old(self).nums()[index as int] as int;
                &&& final(self).nums() == old(self).step_nums(m)
                &&& final(self).poss() == old(self).step_poss(m)
                &&& final(self).dirs() == old(self).step_dirs(m)
                &&& final(self).pending() == Some(
                    (old(self).step_target(m) as usize, index),
                )
                &&& final(self).elems() == old(self).elems()
                &&& final(self).first_order() == old(self).first_order()
                &&& final(self).exhausted() == old(self).exhausted()
            }),
    {
        let ghost pre = *self;
        let ghost mm = pre.nums()[index as int] as int;
        let n = self.numbers.len();
        let number = self.numbers[index];
        proof {
            assert(pre.poss()[mm] == index);
            assert(pre.movable(mm));
            assert(-1 <= pre.dirs()[mm] <= 1);
        }
        let d = self.directions[number];
        let new_index = if d < 0 {
            index - 1
        } else {
            index + 1
        };
        let ghost t = pre.step_target(mm);
        let other_number = self.numbers[new_index];
        proof {
            assert(t == new_index);
            assert(pre.poss()[pre.nums()[new_index as int] as int] == new_index);
            assert(other_number != number);
        }
        self.positions[number] = new_index;
        self.positions[other_number] = index;
        self.numbers[new_index] = number;
        self.numbers[index] = other_number;
        self.must_swap = Some((new_index, index));
        let ghost nn = pre.step_nums(mm);
        let ghost pp = pre.step_poss(mm);
        proof {
            assert(self.nums() =~= nn);
            assert(self.poss() =~= pp);
            // The swapped tables are again mutually inverse permutations.
            assert forall|j: int| 0 <= j < n implies (#[trigger] nn[j]) < n
                && pp[nn[j] as int] == j by {
                if j != index && j != t {
                    assert(nn[j] == pre.nums()[j]);
                    assert(pre.poss()[pre.nums()[j] as int] == j);
                }
            }
            assert forall|l: int| 0 <= l < n implies (#[trigger] pp[l]) < n
                && nn[pp[l] as int] == l by {
                if l != mm && l != other_number as int {
                    assert(pp[l] == pre.poss()[l]);
                    assert(pre.nums()[pre.poss()[l] as int] == l);
                    assert(pre.poss()[l] != index && pre.poss()[l] != t);
                }
            }
        }

        // If the step brought the moved label to the first or last position,
        // or the next label in the same direction is larger, the moved label
        // comes to rest.
        if new_index == 0 || new_index == n - 1 {
            self.directions[number] = 0;
        } else {
            let ahead = if d < 0 {
                new_index - 1
            } else {
                new_index + 1
            };
            if self.numbers[new_index] < self.numbers[ahead] {
                self.directions[number] = 0;
            }
        }
        proof {
            assert(self.dirs()[mm] == if pre.step_blocked(mm) {
                0isize
            } else {
                pre.dirs()[mm]
            });
        }

        // Every label larger than the moved one is pointed back toward the
        // moved label's new position.
        let ghost mid = *self;
        let mut i: usize = 0;
        while i < n
            invariant
                i <= n,
                self.numbers@ == nn,
                self.positions@ == pp,
                self.input@ == mid.input@,
                self.must_swap == mid.must_swap,
                self.terminated == mid.terminated,
                self.initial@ == mid.initial@,
                self.directions@.len() == n,
                forall|l: int|
                    0 <= l < n ==> (#[trigger] self.dirs()[l]) == (if l > mm && (pp[l] as int)
                        < i {
                        if (pp[l] as int) < new_index {
                            1isize
                        } else {
                            -1isize
                        }
                    } else {
                        mid.dirs()[l]
                    }),
            decreases n - i,
        {
            let ghost dirs0 = self.dirs();
            let lab = self.numbers[i];
            proof {
                assert(pp[lab as int] == i);
                assert(self.numbers@[new_index as int] == number);
            }
            if i != new_index {
                if lab > number {
                    if i < new_index {
                        self.directions[lab] = 1;
                    } else {
                        self.directions[lab] = -1;
                    }
                }
            }
            proof {
                assert forall|l: int| 0 <= l < n implies (#[trigger] self.dirs()[l]) == (if l
                    > mm && (pp[l] as int) < i + 1 {
                    if (pp[l] as int) < new_index {
                        1isize
                    } else {
                        -1isize
                    }
                } else {
                    mid.dirs()[l]
                }) by {
                    assert(dirs0[l] == (if l > mm && (pp[l] as int) < i {
                        if (pp[l] as int) < new_index {
                            1isize
                        } else {
                            -1isize
                        }
                    } else {
                        mid.dirs()[l]
                    }));
                    if pp[l] as int == i {
                        assert(nn[pp[l] as int] == l);
                        assert(l == lab as int);
                    } else {
                        assert(self.dirs()[l] == dirs0[l]);
                    }
                }
            }
            i += 1;
        }
        proof {
            assert forall|l: int| 0 <= l < n implies (#[trigger] self.dirs()[l])
                == pre.step_dirs(mm)[l] by {
                if l > mm {
                    assert(pp[l] < n);
                }
            }
            assert(self.dirs() =~= pre.step_dirs(mm));
            assert forall|i2: int| 0 <= i2 < self.n() implies self.current()[i2]
                == self.first_order()[#[trigger] self.nums()[i2] as int] by {
                assert(pre.current() == pre.elems());
            }
        }
    }
}

/// Swapping two in-range entries of a sequence does not change the multiset
/// of its elements.
pub proof fn lemma_swap_preserves_multiset<T>(s: Seq<T>, a: int, b: int)
    requires
        0 <= a < s.len(),
        0 <= b < s.len(),
    ensures
        s.update(a, s[b]).update(b, s[a]).to_multiset() == s.to_multiset(),
{
    broadcast use vstd::seq_lib::group_to_multiset_ensures;

    if a == b {
        assert(s.update(a, s[b]).update(b, s[a]) =~= s);
    } else {
        let s1 = s.update(a, s[b]);
        assert(s.contains(s[a]));
        assert(s.contains(s[b]));
        assert(s1.to_multiset() == s.to_multiset().insert(s[b]).remove(s[a]));
        assert(s1.update(b, s[a]).to_multiset() == s1.to_multiset().insert(s[a]).remove(
            s1[b],
        ));
        assert(s.to_multiset().insert(s[b]).remove(s[a]).insert(s[a]).remove(s[b])
            =~= s.to_multiset());
    }
}

/// A sequence obtained by rearranging another through a pair of mutually
/// inverse index maps holds exactly the same multiset of elements.
/// `fwd` gives, for each position of `q`, the position of `s` the element
/// came from; `bwd` is its inverse.
pub proof fn lemma_rearrangement_preserves_multiset<T>(
    s: Seq<T>,
    q: Seq<T>,
    fwd: Seq<usize>,
    bwd: Seq<usize>,
)
    requires
        q.len() == s.len(),
        fwd.len() == s.len(),
        bwd.len() == s.len(),
        forall|i: int| 0 <= i < s.len() ==> (#[trigger] fwd[i]) < s.len(),
        forall|l: int| 0 <= l < s.len() ==> (#[trigger] bwd[l]) < s.len(),
        forall|i: int| 0 <= i < s.len() ==> bwd[#[trigger] fwd[i] as int] as int == i,
        forall|l: int| 0 <= l < s.len() ==> fwd[#[trigger] bwd[l] as int] as int == l,
        forall|i: int| 0 <= i < s.len() ==> #[trigger] q[i] == s[fwd[i] as int],
    ensures
        q.to_multiset() == s.to_multiset(),
    decreases s.len(),
{
    broadcast use vstd::seq_lib::group_to_multiset_ensures;

    let n = s.len() as int;
    if n == 0 {
        assert(q =~= s);
    } else {
        // Take out the last element of `s` and the position of `q` holding
        // it; what is left is a rearrangement of the shorter sequences.
        let k = bwd[n - 1] as int;
        assert(fwd[k] as int == n - 1);
        let s1 = s.drop_last();
        let q1 = q.remove(k);
        let fwd1 = Seq::new((n - 1) as nat, |i: int| if i < k { fwd[i] } else { fwd[i + 1] });
        let bwd1 = Seq::new(
            (n - 1) as nat,
            |l: int| if (bwd[l] as int) < k { bwd[l] } else { (bwd[l] - 1) as usize },
        );
        assert forall|i: int| 0 <= i < n - 1 implies (#[trigger] fwd1[i]) < n - 1
            && bwd1[fwd1[i] as int] as int == i && q1[i] == s1[fwd1[i] as int] by {
            let j = if i < k { i } else { i + 1 };
            assert(fwd[j] < n);
            assert(bwd[fwd[j] as int] as int == j);
            assert(fwd[j] as int != n - 1);
            assert(q1[i] == q[j]);
        }
        assert forall|l: int| 0 <= l < n - 1 implies (#[trigger] bwd1[l]) < n - 1 && fwd1[bwd1[
            l
        ] as int] as int == l by {
            assert(fwd[bwd[l] as int] as int == l);
            assert(bwd[l] as int != k);
            if (bwd[l] as int) < k {
                assert(fwd1[bwd1[l] as int] == fwd[bwd[l] as int]);
            } else {
                assert(bwd1[l] as int == bwd[l] - 1);
                assert(fwd1[bwd[l] - 1] == fwd[bwd[l] as int]);
            }
        }
        lemma_rearrangement_preserves_multiset(s1, q1, fwd1, bwd1);
        assert(s.remove(n - 1) =~= s1);
        assert(s1.to_multiset() == s.to_multiset().remove(s[n - 1]));
        assert(q1.to_multiset() == q.to_multiset().remove(q[k]));
        assert(q[k] == s[n - 1]);
        assert(s.contains(s[n - 1]));
        assert(q.contains(q[k]));
        assert(q.to_multiset().remove(q[k]).insert(q[k]) =~= q.to_multiset());
        assert(s.to_multiset().remove(s[n - 1]).insert(s[n - 1]) =~= s.to_multiset());
    }
}

/// Every arrangement the generator returns is an ordering of exactly the
/// multiset of elements it was built over.
pub proof fn lemma_output_is_ordering_of_first_order<T>(p: Permutation<T>)
    requires
        p.wf(),
    ensures
        p.current().to_multiset() == p.first_order().to_multiset(),
{
    lemma_rearrangement_preserves_multiset(p.first_order(), p.current(), p.nums(), p.poss());
}

/// Bookkeeping invariant: in every well-formed state — after construction
/// and after every advance — `positions` is the exact inverse of `numbers`.
pub proof fn lemma_positions_inverse_of_numbers<T>(p: Permutation<T>)
    requires
        p.wf(),
    ensures
        forall|i: int| 0 <= i < p.n() ==> p.poss()[#[trigger] p.nums()[i] as int] == i,
        forall|l: int| 0 <= l < p.n() ==> p.nums()[#[trigger] p.poss()[l] as int] == l,
{
}

/// Adjacent-transposition property: in a well-formed generator with a swap
/// pending, the arrangement the next call returns differs from the one last
/// returned at exactly two neighbouring positions, whose elements it
/// exchanges, and carries the same multiset of elements.
pub proof fn lemma_consecutive_outputs_adjacent_swap<T>(p: Permutation<T>, a: usize, b: usize)
    requires
        p.wf(),
        p.pending() == Some((a, b)),
    ensures
        a == b + 1 || b == a + 1,
        p.current().len() == p.elems().len(),
        p.current()[a as int] == p.elems()[b as int],
        p.current()[b as int] == p.elems()[a as int],
        forall|i: int|
            0 <= i < p.elems().len() && i != a && i != b ==> p.current()[i] == p.elems()[i],
        p.current().to_multiset() == p.elems().to_multiset(),
{
    lemma_swap_preserves_multiset(p.elems(), a as int, b as int);
}

/// Wherever some label can still move, a largest movable label exists, so
/// the advancing case of [`Permutation::next`]'s contract always applies to
/// a generator that is not stuck.
pub proof fn lemma_not_stuck_has_largest_movable<T>(p: Permutation<T>)
    requires
        p.wf(),
        !p.stuck(),
    ensures
        exists|m: int| p.is_largest_movable(m),
{
    let l = choose|l: int| p.movable(l);
    lemma_largest_movable_at_or_above(p, l);
}

proof fn lemma_largest_movable_at_or_above<T>(p: Permutation<T>, l: int)
    requires
        p.wf(),
        p.movable(l),
    ensures
        exists|m: int| p.is_largest_movable(m),
    decreases p.n() - l,
{
    if forall|k: int| l < k < p.n() ==> !p.movable(k) {
        assert(p.is_largest_movable(l));
    } else {
        let k = choose|k: int| l < k < p.n() && p.movable(k);
        lemma_largest_movable_at_or_above(p, k);
    }
}

/// Boundary law: a generator freshly built over no elements or a single
/// element has no movable label, so its first call returns the input itself
/// and exhausts it.
pub proof fn lemma_at_most_one_element_starts_stuck<T>(p: Permutation<T>)
    requires
        p.wf(),
        p.fresh(),
        p.n() <= 1,
    ensures
        p.stuck(),
{
    assert forall|l: int| !p.movable(l) by {
        if 0 <= l < p.n() {
            assert(p.dirs()[0] == 0);
        }
    }
}

/// Counterpart of the boundary law: with two or more elements the largest
/// label can move at construction, so the first call does not exhaust the
/// generator.
pub proof fn lemma_two_or_more_elements_start_movable<T>(p: Permutation<T>)
    requires
        p.wf(),
        p.fresh(),
        p.n() >= 2,
    ensures
        !p.stuck(),
        p.is_largest_movable(p.n() - 1),
{
    assert(p.dirs()[p.n() - 1] == -1);
    assert(p.poss()[p.n() - 1] as int == p.n() - 1);
    assert(p.movable(p.n() - 1));
}

} // verus!
