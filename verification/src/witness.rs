//! Witnesses: blinded partial sums of a signed problem.
//!
//! For a problem `p` and signs `a` whose signed sum vanishes, a witness is
//! the sequence `shift + sign * (p[0]*a[0] + ... + p[k-1]*a[k-1])` for
//! `k = 0, ..., n`. Neighbouring entries differ by one problem entry in
//! magnitude, and the last entry equals the first; the random `sign` and
//! `shift` hide which way each step went.

use vstd::prelude::*;
use crate::random::{draw_shift, draw_sign};

verus! {

/// The sum of the first `k` problem entries, each taken with its sign.
pub open spec fn signed_sum(problem: Seq<i32>, assignment: Seq<i32>, k: int) -> int
    decreases k,
{
    if k <= 0 {
        0
    } else {
        signed_sum(problem, assignment, k - 1) + problem[k - 1] * assignment[k - 1]
    }
}

/// The largest of the first `k` problem entries, or `0` if none is positive.
pub open spec fn largest(problem: Seq<i32>, k: int) -> int
    decreases k,
{
    if k <= 0 {
        0
    } else if problem[k - 1] > largest(problem, k - 1) {
        problem[k - 1] as int
    } else {
        largest(problem, k - 1)
    }
}

/// The largest shift that a witness for `problem` may be blinded with.
pub open spec fn max_shift(problem: Seq<i32>) -> int {
    largest(problem, problem.len() as int)
}

/// `s` is `1` or `-1`.
pub open spec fn is_sign(s: int) -> bool {
    s == 1 || s == -1
}

/// The absolute value of `x`.
pub open spec fn magnitude(x: int) -> int {
    if x < 0 {
        -x
    } else {
        x
    }
}

/// Every entry of `assignment` is `1` or `-1`.
pub open spec fn all_signs(assignment: Seq<i32>) -> bool {
    forall|i: int| 0 <= i < assignment.len() ==> is_sign(#[trigger] assignment[i] as int)
}

/// `assignment` solves `problem`: one sign per entry, and the signed sum of
/// all entries is zero.
pub open spec fn satisfies(problem: Seq<i32>, assignment: Seq<i32>) -> bool {
    &&& problem.len() == assignment.len()
    &&& all_signs(assignment)
    &&& signed_sum(problem, assignment, problem.len() as int) == 0
}

/// Every witness entry fits in an `i32`, whichever sign and shift are drawn.
pub open spec fn blinding_fits(problem: Seq<i32>, assignment: Seq<i32>) -> bool {
    forall|k: int|
        0 <= k <= problem.len() ==> magnitude(#[trigger] signed_sum(problem, assignment, k))
            + max_shift(problem) <= i32::MAX
}

/// `w` is the witness for `problem` and `assignment` blinded by `sign` and
/// `shift`.
pub open spec fn is_witness(
    w: Seq<i32>,
    problem: Seq<i32>,
    assignment: Seq<i32>,
    sign: int,
    shift: int,
) -> bool {
    &&& w.len() == problem.len() + 1
    &&& forall|k: int|
        0 <= k <= problem.len() ==> #[trigger] w[k] == shift + sign * signed_sum(
            problem,
            assignment,
            k,
        )
}

/// `w` is a witness for `problem` and `assignment` under some blinding that
/// may be drawn.
pub open spec fn is_some_witness(w: Seq<i32>, problem: Seq<i32>, assignment: Seq<i32>) -> bool {
    exists|sign: int, shift: int|
        is_sign(sign) && 0 <= shift <= max_shift(problem) && #[trigger] is_witness(
            w,
            problem,
            assignment,
            sign,
            shift,
        )
}

/// What a verifier may check of two neighbouring entries: each step of `w`
/// has the magnitude of the problem entry it crosses, and `w` ends where it
/// began.
pub open spec fn steps_match(w: Seq<i32>, problem: Seq<i32>) -> bool {
    &&& w.len() == problem.len() + 1
    &&& w[problem.len() as int] == w[0]
    &&& forall|i: int|
        0 <= i < problem.len() ==> magnitude(#[trigger] w[i + 1] - w[i]) == magnitude(
            problem[i] as int,
        )
}

/// Why a problem and an assignment cannot be proved.
#[derive(Clone, Copy, Debug, PartialEq, Eq, Structural)]
pub enum InstanceError {
    /// The assignment does not have one entry per problem entry.
    LengthMismatch,
    /// An assignment entry is neither `1` nor `-1`.
    BadSign,
    /// A blinded partial sum may not fit in an `i32`.
    TooLarge,
    /// The signed sum of the problem is not zero.
    NotSatisfied,
}

/// Multiplying by a sign keeps a number or negates it.
pub proof fn lemma_times_sign(sign: int, x: int)
    requires
        is_sign(sign),
    ensures
        sign * x == x * sign,
        sign == 1 ==> sign * x == x,
        sign == -1 ==> sign * x == -x,
{
    assert(sign * x == x * sign) by (nonlinear_arith);
    assert(sign == 1 ==> sign * x == x) by (nonlinear_arith);
    assert(sign == -1 ==> sign * x == -x) by (nonlinear_arith);
}

/// `largest` never falls below zero, is no less than any entry it ranges
/// over, and where it is positive some entry attains it.
pub proof fn lemma_largest(problem: Seq<i32>, k: int)
    requires
        0 <= k <= problem.len(),
    ensures
        0 <= largest(problem, k) <= i32::MAX,
        forall|i: int| 0 <= i < k ==> problem[i] <= largest(problem, k),
        largest(problem, k) > 0 ==> exists|i: int| 0 <= i < k && problem[i] == largest(problem, k),
    decreases k,
{
    if k > 0 {
        lemma_largest(problem, k - 1);
        if problem[k - 1] > largest(problem, k - 1) {
            assert(problem[k - 1] == largest(problem, k));
        } else if largest(problem, k) > 0 {
            let i = choose|i: int| 0 <= i < k - 1 && problem[i] == largest(problem, k - 1);
            assert(problem[i] == largest(problem, k));
        }
    }
}

/// One more entry changes the signed sum by that entry, up or down.
pub proof fn lemma_signed_step(problem: Seq<i32>, assignment: Seq<i32>, k: int)
    requires
        problem.len() == assignment.len(),
        all_signs(assignment),
        0 <= k < problem.len(),
    ensures
        assignment[k] == 1 ==> signed_sum(problem, assignment, k + 1) == signed_sum(
            problem,
            assignment,
            k,
        ) + problem[k],
        assignment[k] == -1 ==> signed_sum(problem, assignment, k + 1) == signed_sum(
            problem,
            assignment,
            k,
        ) - problem[k],
        assignment[k] == 1 || assignment[k] == -1,
{
    assert(is_sign(assignment[k] as int));
    lemma_times_sign(assignment[k] as int, problem[k] as int);
}

/// Where every blinding fits, the largest shift is below `i32::MAX`: the
/// partial sums before and after a largest entry cannot both leave room
/// for it.
pub proof fn lemma_shift_bound(problem: Seq<i32>, assignment: Seq<i32>)
    requires
        problem.len() == assignment.len(),
        all_signs(assignment),
        blinding_fits(problem, assignment),
    ensures
        0 <= max_shift(problem) < i32::MAX,
{
    let n = problem.len() as int;
    lemma_largest(problem, n);
    if max_shift(problem) > 0 {
        let i = choose|i: int| 0 <= i < n && problem[i] == largest(problem, n);
        lemma_signed_step(problem, assignment, i);
        assert(magnitude(signed_sum(problem, assignment, i)) + max_shift(problem) <= i32::MAX);
        assert(magnitude(signed_sum(problem, assignment, i + 1)) + max_shift(problem)
            <= i32::MAX);
    }
}

/// A witness takes steps of the problem's magnitudes and, where the
/// assignment solves the problem, returns to its start.
pub proof fn lemma_witness_steps(
    w: Seq<i32>,
    problem: Seq<i32>,
    assignment: Seq<i32>,
    sign: int,
    shift: int,
)
    requires
        satisfies(problem, assignment),
        is_sign(sign),
        is_witness(w, problem, assignment, sign, shift),
    ensures
        steps_match(w, problem),
{
    let n = problem.len() as int;
    assert(w[n] == w[0]) by {
        lemma_times_sign(sign, signed_sum(problem, assignment, n));
        lemma_times_sign(sign, signed_sum(problem, assignment, 0));
    }
    assert forall|i: int| 0 <= i < n implies magnitude(#[trigger] w[i + 1] - w[i]) == magnitude(
        problem[i] as int,
    ) by {
        lemma_signed_step(problem, assignment, i);
        lemma_times_sign(sign, signed_sum(problem, assignment, i));
        lemma_times_sign(sign, signed_sum(problem, assignment, i + 1));
    }
}

/// Over a problem without negative entries, each step of a witness is as
/// large as the problem entry it crosses.
pub proof fn lemma_steps_equal_entries(w: Seq<i32>, problem: Seq<i32>)
    requires
        steps_match(w, problem),
        forall|i: int| 0 <= i < problem.len() ==> problem[i] >= 0,
    ensures
        w[problem.len() as int] == w[0],
        forall|i: int|
            0 <= i < problem.len() ==> magnitude(#[trigger] w[i + 1] - w[i]) == problem[i],
{
}

/// The largest problem entry, or `0` if none is positive.
pub fn largest_entry(problem: &Vec<i32>) -> (mx: i32)
    ensures
        mx == max_shift(problem@),
{
    let mut mx: i32 = 0;
    let mut i: usize = 0;
    while i < problem.len()
        invariant
            i <= problem.len(),
            mx == largest(problem@, i as int),
        decreases problem.len() - i,
    {
        if problem[i] > mx {
            mx = problem[i];
        }
        i = i + 1;
    }
    mx
}

/// Tells whether `assignment` solves `problem` with partial sums small
/// enough to blind, and if not, what is wrong first: the lengths, then the
/// signs, then the size, then the sum.
pub fn check_instance(problem: &Vec<i32>, assignment: &Vec<i32>) -> (r: Result<(), InstanceError>)
    ensures
        r is Ok <==> satisfies(problem@, assignment@) && blinding_fits(problem@, assignment@),
        r == Err::<(), InstanceError>(InstanceError::LengthMismatch) <==> problem@.len()
            != assignment@.len(),
        r == Err::<(), InstanceError>(InstanceError::BadSign) <==> problem@.len()
            == assignment@.len() && !all_signs(assignment@),
        r == Err::<(), InstanceError>(InstanceError::TooLarge) <==> problem@.len()
            == assignment@.len() && all_signs(assignment@) && !blinding_fits(
            problem@,
            assignment@,
        ),
        r == Err::<(), InstanceError>(InstanceError::NotSatisfied) <==> problem@.len()
            == assignment@.len() && all_signs(assignment@) && blinding_fits(problem@, assignment@)
            && signed_sum(problem@, assignment@, problem@.len() as int) != 0,
{
    let n = problem.len();
    if assignment.len() != n {
        return Err(InstanceError::LengthMismatch);
    }
    let mut i: usize = 0;
    while i < n
        invariant
            i <= n,
            n == problem.len(),
            n == assignment.len(),
            forall|k: int| 0 <= k < i ==> is_sign(#[trigger] assignment@[k] as int),
        decreases n - i,
    {
        if assignment[i] != 1 && assignment[i] != -1 {
            assert(!is_sign(assignment@[i as int] as int));
            return Err(InstanceError::BadSign);
        }
        i = i + 1;
    }
    let mx: i32 = largest_entry(problem);
    let limit: i64 = i32::MAX as i64 - mx as i64;
    proof {
        lemma_largest(problem@, n as int);
    }
    let mut sum: i64 = 0;
    let mut k: usize = 0;
    while k < n
        invariant
            k <= n,
            n == problem.len(),
            n == assignment.len(),
            all_signs(assignment@),
            mx == max_shift(problem@),
            0 <= mx,
            limit == i32::MAX - mx,
            sum == signed_sum(problem@, assignment@, k as int),
            forall|j: int|
                0 <= j <= k ==> magnitude(#[trigger] signed_sum(problem@, assignment@, j)) + mx
                    <= i32::MAX,
        decreases n - k,
    {
        proof {
            lemma_signed_step(problem@, assignment@, k as int);
        }
        if assignment[k] == 1 {
            sum = sum + problem[k] as i64;
        } else {
            sum = sum - problem[k] as i64;
        }
        k = k + 1;
        if sum > limit || sum < -limit {
            assert(magnitude(signed_sum(problem@, assignment@, k as int)) + mx > i32::MAX);
            return Err(InstanceError::TooLarge);
        }
    }
    if sum != 0 {
        return Err(InstanceError::NotSatisfied);
    }
    Ok(())
}

/// The witness for `problem` and `assignment` blinded by `sign` and `shift`.
pub fn witness_from(problem: &Vec<i32>, assignment: &Vec<i32>, sign: i32, shift: i32) -> (w: Vec<
    i32,
>)
    requires
        satisfies(problem@, assignment@),
        blinding_fits(problem@, assignment@),
        is_sign(sign as int),
        0 <= shift <= max_shift(problem@),
    ensures
        is_witness(w@, problem@, assignment@, sign as int, shift as int),
{
    let n = problem.len();
    let mut w: Vec<i32> = Vec::new();
    let mut sum: i64 = 0;
    proof {
        lemma_times_sign(sign as int, 0);
    }
    w.push(shift);
    let mut k: usize = 0;
    while k < n
        invariant
            k <= n,
            n == problem.len(),
            n == assignment.len(),
            all_signs(assignment@),
            blinding_fits(problem@, assignment@),
            is_sign(sign as int),
            0 <= shift <= max_shift(problem@),
            sum == sign * signed_sum(problem@, assignment@, k as int),
            w@.len() == k + 1,
            forall|j: int|
                0 <= j <= k ==> #[trigger] w@[j] == shift + sign * signed_sum(
                    problem@,
                    assignment@,
                    j,
                ),
        decreases n - k,
    {
        proof {
            lemma_signed_step(problem@, assignment@, k as int);
            lemma_times_sign(sign as int, signed_sum(problem@, assignment@, k as int));
            lemma_times_sign(sign as int, signed_sum(problem@, assignment@, k + 1));
        }
        let entry: i64 = problem[k] as i64;
        if (assignment[k] == 1) == (sign == 1) {
            sum = sum + entry;
        } else {
            sum = sum - entry;
        }
        k = k + 1;
        w.push((sum + shift as i64) as i32);
    }
    w
}

/// A witness for `problem` and `assignment`, freshly blinded.
///
/// Which sign and shift were drawn is not told: the result is the witness
/// under one of the blindings that may be drawn.
pub fn get_witness(problem: &Vec<i32>, assignment: &Vec<i32>) -> (w: Vec<i32>)
    requires
        satisfies(problem@, assignment@),
        blinding_fits(problem@, assignment@),
    ensures
        is_some_witness(w@, problem@, assignment@),
        steps_match(w@, problem@),
{
    let mx: i32 = largest_entry(problem);
    proof {
        lemma_shift_bound(problem@, assignment@);
    }
    let sign: i32 = draw_sign();
    let shift: i32 = draw_shift(mx);
    let w = witness_from(problem, assignment, sign, shift);
    proof {
        lemma_witness_steps(w@, problem@, assignment@, sign as int, shift as int);
    }
    w
}

} // verus!
