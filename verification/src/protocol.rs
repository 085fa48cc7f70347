//! The non-interactive proof: rounds of commit, challenge and opening.
//!
//! Prover and verifier each keep a transcript: the problem, then the root and
//! the challenge of every round so far. The challenge of a round is a byte of
//! the digest of the transcript before that round, so both sides derive it
//! alike and nobody has to send it.

use vstd::prelude::*;
use vstd::arithmetic::div_mod::{
    lemma_mod_bound, lemma_mod_decreases, lemma_mod_self_0, lemma_small_mod,
};
use crate::encoding::{decimal, digits, hex, push_decimal, push_digits, push_hex};
use crate::hash::{blake2b_digest, collision_exists, digest_views, Digest};
use crate::merkle::{
    auth_path, commits_to, leaf_node, leaf_node_of, lemma_climb_binds_sibling, lemma_next_pow2,
    lemma_opening_verifies, lemma_path_binds_value, leaf_digest, merkle_root, next_pow2,
    path_accepts, ZkMerkleTree,
};
use crate::witness::{
    blinding_fits, get_witness, is_some_witness, is_witness, lemma_witness_steps, magnitude,
    satisfies,
};

verus! {

/// What the transcript holds before the first round: the decimal notations
/// of the problem's entries, one after another.
pub open spec fn seed(problem: Seq<i32>) -> Seq<u8>
    decreases problem.len(),
{
    if problem.len() == 0 {
        Seq::empty()
    } else {
        seed(problem.drop_last()) + decimal(problem.last() as int)
    }
}

/// The challenge that `transcript` gives for a problem of `n` entries: the
/// first byte of its digest, reduced to an index into a witness.
pub open spec fn challenge(transcript: Seq<u8>, n: nat) -> nat {
    (blake2b_digest(transcript)[0] as nat) % (n + 1)
}

/// The transcript after a round with the given root and challenge.
pub open spec fn absorb(transcript: Seq<u8>, root: Seq<u8>, index: nat) -> Seq<u8> {
    transcript + hex(root) + digits(index)
}

/// The witness index opened together with `index`: the next one, or the
/// first after the last.
pub open spec fn successor(index: nat, n: nat) -> nat {
    (index + 1) % (n + 1)
}

/// A challenge is a witness index and fits in a byte.
pub proof fn lemma_challenge_bounds(transcript: Seq<u8>, n: nat)
    ensures
        challenge(transcript, n) <= n,
        challenge(transcript, n) <= u8::MAX,
{
    let byte = blake2b_digest(transcript)[0] as nat;
    lemma_mod_decreases(byte, n + 1);
    lemma_mod_bound(byte as int, n as int + 1);
}

/// The successor of an index is the next index, or the first after the
/// last.
pub proof fn lemma_successor(index: nat, n: nat)
    requires
        index <= n,
    ensures
        index < n ==> successor(index, n) == index + 1,
        index == n ==> successor(index, n) == 0,
        successor(index, n) <= n,
{
    if index < n {
        lemma_small_mod(index + 1, n + 1);
    } else {
        lemma_mod_self_0(n as int + 1);
    }
}

/// The running transcript of a proof.
pub struct Transcript {
    bytes: Vec<u8>,
}

impl View for Transcript {
    type V = Seq<u8>;

    closed spec fn view(&self) -> Seq<u8> {
        self.bytes@
    }
}

impl Transcript {
    /// The challenge for the next round of a proof about `n` entries.
    pub fn challenge(&self, n: usize) -> (index: u8)
        ensures
            index == challenge(self@, n as nat),
            index <= n,
    {
        let digest = Digest::of(&self.bytes);
        let byte: u8 = digest.bytes[0];
        let reduced: u128 = byte as u128 % (n as u128 + 1);
        proof {
            lemma_challenge_bounds(self@, n as nat);
        }
        reduced as u8
    }

    /// Records a round: its root in hexadecimal, then its challenge in
    /// decimal.
    pub fn absorb(&mut self, root: &Digest, index: u8)
        ensures
            final(self)@ == absorb(old(self)@, root@, index as nat),
    {
        push_hex(&root.bytes, &mut self.bytes);
        push_digits(index as u64, &mut self.bytes);
    }

    /// The bytes recorded so far.
    pub fn as_bytes(&self) -> (bytes: &Vec<u8>)
        ensures
            bytes@ == self@,
    {
        &self.bytes
    }
}

/// One round of a proof: a commitment, the challenge it answers, and two
/// neighbouring witness entries with their authentication paths.
#[derive(Clone, Debug, PartialEq, Eq)]
pub struct Round {
    pub root: Digest,
    pub index: u8,
    pub value_a: i32,
    pub value_b: i32,
    pub path_a: Vec<Digest>,
    pub path_b: Vec<Digest>,
}

/// A round as plain values.
pub struct RoundView {
    pub root: Seq<u8>,
    pub index: nat,
    pub value_a: int,
    pub value_b: int,
    pub path_a: Seq<Seq<u8>>,
    pub path_b: Seq<Seq<u8>>,
}

impl View for Round {
    type V = RoundView;

    open spec fn view(&self) -> RoundView {
        RoundView {
            root: self.root@,
            index: self.index as nat,
            value_a: self.value_a as int,
            value_b: self.value_b as int,
            path_a: digest_views(self.path_a@),
            path_b: digest_views(self.path_b@),
        }
    }
}

/// A proof: its rounds, in the order in which they were made.
#[derive(Clone, Debug, PartialEq, Eq)]
pub struct Proof {
    pub rounds: Vec<Round>,
}

/// The views of a list of rounds, in order.
pub open spec fn round_views(rounds: Seq<Round>) -> Seq<RoundView> {
    Seq::new(rounds.len(), |i: int| rounds[i]@)
}

impl View for Proof {
    type V = Seq<RoundView>;

    open spec fn view(&self) -> Seq<RoundView> {
        round_views(self.rounds@)
    }
}

/// The transcript before round `k` of `rounds`. It holds the roots of the
/// earlier rounds with the challenges that the transcript itself gave, not
/// those that the rounds claim.
pub open spec fn transcript_before(problem: Seq<i32>, rounds: Seq<RoundView>, k: int) -> Seq<u8>
    decreases k,
{
    if k <= 0 {
        seed(problem)
    } else {
        let earlier = transcript_before(problem, rounds, k - 1);
        absorb(earlier, rounds[k - 1].root, challenge(earlier, problem.len()))
    }
}

/// The two opened values are as far apart as the problem entry between
/// them, or equal where the second is the first entry again.
pub open spec fn neighbours_match(problem: Seq<i32>, index: nat, a: int, b: int) -> bool {
    if index < problem.len() {
        magnitude(a - b) == magnitude(problem[index as int] as int)
    } else {
        a == b
    }
}

/// What the verifier checks of one round, given the challenge `index` that
/// the round has to answer: that the round names this challenge, that the
/// two opened values are neighbours in a witness, and that both are
/// committed to by the round's root, at `index` and at its successor.
pub open spec fn round_answers(problem: Seq<i32>, round: RoundView, index: nat) -> bool {
    let n = problem.len();
    &&& round.index == index
    &&& neighbours_match(problem, index, round.value_a, round.value_b)
    &&& path_accepts(round.root, n + 1, index, round.value_a, round.path_a)
    &&& path_accepts(round.root, n + 1, successor(index, n), round.value_b, round.path_b)
}

/// What the verifier checks of one round, given the transcript before it.
pub open spec fn round_accepts(problem: Seq<i32>, round: RoundView, transcript: Seq<u8>) -> bool {
    round_answers(problem, round, challenge(transcript, problem.len()))
}

/// The verifier accepts `rounds` as a proof for `problem`: it accepts every
/// round.
pub open spec fn accepts(problem: Seq<i32>, rounds: Seq<RoundView>) -> bool {
    forall|k: int|
        #![trigger rounds[k]]
        0 <= k < rounds.len() ==> round_accepts(
            problem,
            rounds[k],
            transcript_before(problem, rounds, k),
        )
}

/// `round` opens the entries `index` and `next` of the values that `leaves`
/// commit to.
pub open spec fn opens(round: RoundView, leaves: Seq<i32>, index: nat, next: nat) -> bool {
    &&& round.root == merkle_root(leaves)
    &&& round.index == index
    &&& round.value_a == leaves[2 * (index as int)]
    &&& round.value_b == leaves[2 * (next as int)]
    &&& round.path_a == auth_path(leaves, 2 * index + leaves.len())
    &&& round.path_b == auth_path(leaves, 2 * next + leaves.len())
}

/// `round` is what an honest prover answers to `transcript`: it commits to
/// some witness for `problem` and `assignment` and opens the challenged
/// entry and its successor.
pub open spec fn round_honest(
    problem: Seq<i32>,
    assignment: Seq<i32>,
    round: RoundView,
    transcript: Seq<u8>,
) -> bool {
    let n = problem.len();
    let index = challenge(transcript, n);
    exists|w: Seq<i32>, leaves: Seq<i32>|
        is_some_witness(w, problem, assignment) && #[trigger] commits_to(leaves, w) && opens(
            round,
            leaves,
            index,
            successor(index, n),
        )
}

/// Every round of `rounds` is an honest prover's.
pub open spec fn honest(problem: Seq<i32>, assignment: Seq<i32>, rounds: Seq<RoundView>) -> bool {
    forall|k: int|
        #![trigger rounds[k]]
        0 <= k < rounds.len() ==> round_honest(
            problem,
            assignment,
            rounds[k],
            transcript_before(problem, rounds, k),
        )
}

/// The transcript before round `k` depends only on the problem and on the
/// roots of the rounds before `k`.
pub proof fn lemma_transcript_prefix(
    problem: Seq<i32>,
    first: Seq<RoundView>,
    second: Seq<RoundView>,
    k: int,
)
    requires
        k <= first.len(),
        k <= second.len(),
        forall|j: int| 0 <= j < k ==> first[j].root == second[j].root,
    ensures
        transcript_before(problem, first, k) == transcript_before(problem, second, k),
    decreases k,
{
    if k > 0 {
        lemma_transcript_prefix(problem, first, second, k - 1);
    }
}

/// The verifier accepts the round that an honest prover answers with.
pub proof fn lemma_honest_round_accepted(
    problem: Seq<i32>,
    assignment: Seq<i32>,
    round: RoundView,
    transcript: Seq<u8>,
)
    requires
        satisfies(problem, assignment),
        round_honest(problem, assignment, round, transcript),
    ensures
        round_accepts(problem, round, transcript),
{
    let n = problem.len();
    let index = challenge(transcript, n);
    let next = successor(index, n);
    let (w, leaves) = choose|w: Seq<i32>, leaves: Seq<i32>|
        is_some_witness(w, problem, assignment) && #[trigger] commits_to(leaves, w) && opens(
            round,
            leaves,
            index,
            next,
        );
    let (sign, shift) = choose|sign: int, shift: int|
        (sign == 1 || sign == -1) && 0 <= shift && #[trigger] is_witness(
            w,
            problem,
            assignment,
            sign,
            shift,
        );
    // Both opened places hold witness entries, `next` the one after `index`
    // or, past the last, the first.
    lemma_challenge_bounds(transcript, n);
    lemma_successor(index, n);
    lemma_next_pow2(n + 1);
    // So the values are a step of the witness apart, or its two equal ends.
    lemma_witness_steps(w, problem, assignment, sign, shift);
    // And the paths are the tree's own.
    lemma_opening_verifies(leaves, n + 1, index);
    lemma_opening_verifies(leaves, n + 1, next);
}

/// Completeness: the verifier accepts every proof whose rounds are an
/// honest prover's, for an assignment that solves the problem.
pub proof fn lemma_honest_proof_accepted(
    problem: Seq<i32>,
    assignment: Seq<i32>,
    rounds: Seq<RoundView>,
)
    requires
        satisfies(problem, assignment),
        honest(problem, assignment, rounds),
    ensures
        accepts(problem, rounds),
{
    assert forall|k: int| #![trigger rounds[k]] 0 <= k < rounds.len() implies round_accepts(
        problem,
        rounds[k],
        transcript_before(problem, rounds, k),
    ) by {
        lemma_honest_round_accepted(
            problem,
            assignment,
            rounds[k],
            transcript_before(problem, rounds, k),
        );
    }
}

/// An accepted proof does not survive a change of a round's root.
pub proof fn lemma_changed_root_rejected(
    problem: Seq<i32>,
    rounds: Seq<RoundView>,
    k: int,
    root: Seq<u8>,
)
    requires
        accepts(problem, rounds),
        0 <= k < rounds.len(),
        root != rounds[k].root,
    ensures
        !accepts(problem, rounds.update(k, RoundView { root, ..rounds[k] })),
{
    let changed = rounds.update(k, RoundView { root, ..rounds[k] });
    lemma_transcript_prefix(problem, rounds, changed, k);
    assert(changed[k].root == root);
}

/// An accepted proof does not survive a change of a round's challenge
/// index.
pub proof fn lemma_changed_index_rejected(
    problem: Seq<i32>,
    rounds: Seq<RoundView>,
    k: int,
    index: nat,
)
    requires
        accepts(problem, rounds),
        0 <= k < rounds.len(),
        index != rounds[k].index,
    ensures
        !accepts(problem, rounds.update(k, RoundView { index, ..rounds[k] })),
{
    let changed = rounds.update(k, RoundView { index, ..rounds[k] });
    lemma_transcript_prefix(problem, rounds, changed, k);
    assert(changed[k].index == index);
}

/// An accepted proof does not survive a change of a round's first opened
/// value, unless the hash function collides.
pub proof fn lemma_changed_first_value_rejected(
    problem: Seq<i32>,
    rounds: Seq<RoundView>,
    k: int,
    value: int,
)
    requires
        accepts(problem, rounds),
        0 <= k < rounds.len(),
        value != rounds[k].value_a,
    ensures
        !accepts(problem, rounds.update(k, RoundView { value_a: value, ..rounds[k] }))
            || collision_exists(),
{
    let changed = rounds.update(k, RoundView { value_a: value, ..rounds[k] });
    lemma_transcript_prefix(problem, rounds, changed, k);
    let asked = transcript_before(problem, rounds, k);
    if accepts(problem, changed) {
        assert(round_accepts(problem, changed[k], asked));
        lemma_path_binds_value(
            rounds[k].root,
            problem.len() + 1,
            challenge(asked, problem.len()),
            rounds[k].value_a,
            value,
            rounds[k].path_a,
        );
    }
}

/// An accepted proof does not survive a change of a round's second opened
/// value, unless the hash function collides.
pub proof fn lemma_changed_second_value_rejected(
    problem: Seq<i32>,
    rounds: Seq<RoundView>,
    k: int,
    value: int,
)
    requires
        accepts(problem, rounds),
        0 <= k < rounds.len(),
        value != rounds[k].value_b,
    ensures
        !accepts(problem, rounds.update(k, RoundView { value_b: value, ..rounds[k] }))
            || collision_exists(),
{
    let changed = rounds.update(k, RoundView { value_b: value, ..rounds[k] });
    lemma_transcript_prefix(problem, rounds, changed, k);
    let asked = transcript_before(problem, rounds, k);
    if accepts(problem, changed) {
        assert(round_accepts(problem, changed[k], asked));
        let n = problem.len();
        lemma_path_binds_value(
            rounds[k].root,
            n + 1,
            successor(challenge(asked, n), n),
            rounds[k].value_b,
            value,
            rounds[k].path_b,
        );
    }
}

/// An accepted proof does not survive a change of a sibling digest on a
/// round's first path, unless the hash function collides.
pub proof fn lemma_changed_first_sibling_rejected(
    problem: Seq<i32>,
    rounds: Seq<RoundView>,
    k: int,
    level: int,
    sibling: Seq<u8>,
)
    requires
        accepts(problem, rounds),
        0 <= k < rounds.len(),
        0 <= level < rounds[k].path_a.len(),
        sibling != rounds[k].path_a[level],
    ensures
        !accepts(
            problem,
            rounds.update(
                k,
                RoundView { path_a: rounds[k].path_a.update(level, sibling), ..rounds[k] },
            ),
        ) || collision_exists(),
{
    let path = rounds[k].path_a.update(level, sibling);
    let changed = rounds.update(k, RoundView { path_a: path, ..rounds[k] });
    lemma_transcript_prefix(problem, rounds, changed, k);
    let asked = transcript_before(problem, rounds, k);
    let n = problem.len();
    if accepts(problem, changed) {
        assert(round_accepts(problem, changed[k], asked));
        lemma_climb_binds_sibling(
            leaf_digest(rounds[k].value_a),
            leaf_node(n + 1, challenge(asked, n)),
            rounds[k].path_a,
            level,
            sibling,
        );
    }
}

/// An accepted proof does not survive a change of a sibling digest on a
/// round's second path, unless the hash function collides.
pub proof fn lemma_changed_second_sibling_rejected(
    problem: Seq<i32>,
    rounds: Seq<RoundView>,
    k: int,
    level: int,
    sibling: Seq<u8>,
)
    requires
        accepts(problem, rounds),
        0 <= k < rounds.len(),
        0 <= level < rounds[k].path_b.len(),
        sibling != rounds[k].path_b[level],
    ensures
        !accepts(
            problem,
            rounds.update(
                k,
                RoundView { path_b: rounds[k].path_b.update(level, sibling), ..rounds[k] },
            ),
        ) || collision_exists(),
{
    let path = rounds[k].path_b.update(level, sibling);
    let changed = rounds.update(k, RoundView { path_b: path, ..rounds[k] });
    lemma_transcript_prefix(problem, rounds, changed, k);
    let asked = transcript_before(problem, rounds, k);
    let n = problem.len();
    if accepts(problem, changed) {
        assert(round_accepts(problem, changed[k], asked));
        lemma_climb_binds_sibling(
            leaf_digest(rounds[k].value_b),
            leaf_node(n + 1, successor(challenge(asked, n), n)),
            rounds[k].path_b,
            level,
            sibling,
        );
    }
}

/// Opens the entries `index` and its successor of the `n + 1` values that
/// `tree` commits to.
pub fn open_round(tree: &ZkMerkleTree, n: usize, index: u8) -> (round: Round)
    requires
        index <= n,
        2 * (n + 1) <= tree@.len(),
    ensures
        opens(round@, tree@, index as nat, successor(index as nat, n as nat)),
{
    let first: usize = index as usize;
    let second: usize = if first < n {
        first + 1
    } else {
        0
    };
    proof {
        lemma_successor(index as nat, n as nat);
    }
    let (value_a, path_a) = tree.get_val_and_path(first);
    let (value_b, path_b) = tree.get_val_and_path(second);
    Round { root: tree.get_root(), index, value_a, value_b, path_a, path_b }
}

/// Whether `a` and `b` are as far apart as the entry `index` of `problem`,
/// or equal where there is no such entry.
pub fn check_neighbours(problem: &Vec<i32>, index: usize, a: i32, b: i32) -> (ok: bool)
    ensures
        ok == neighbours_match(problem@, index as nat, a as int, b as int),
{
    if index < problem.len() {
        let step: i64 = a as i64 - b as i64;
        let entry: i64 = problem[index] as i64;
        let step_size: i64 = if step < 0 {
            -step
        } else {
            step
        };
        let entry_size: i64 = if entry < 0 {
            -entry
        } else {
            entry
        };
        step_size == entry_size
    } else {
        a == b
    }
}

/// What the verifier checks of one round, given the challenge that the
/// round has to answer. Every check is made, whatever the earlier ones
/// gave.
pub fn check_round(problem: &Vec<i32>, round: &Round, index: u8) -> (ok: bool)
    ensures
        ok == round_answers(problem@, round@, index as nat),
{
    let n: usize = problem.len();
    let size: u128 = n as u128 + 1;
    let first: u128 = index as u128;
    let second: u128 = (first + 1) % size;
    let named: bool = index == round.index;
    let stepped: bool = check_neighbours(problem, index as usize, round.value_a, round.value_b);
    let opened_a: bool = ZkMerkleTree::climbs_to(
        &round.root,
        leaf_node_of(size, first),
        round.value_a,
        &round.path_a,
    );
    let opened_b: bool = ZkMerkleTree::climbs_to(
        &round.root,
        leaf_node_of(size, second),
        round.value_b,
        &round.path_b,
    );
    named && stepped && opened_a && opened_b
}

impl Proof {
    /// A proof without rounds.
    pub fn new() -> (empty: Proof)
        ensures
            empty@.len() == 0,
    {
        Proof { rounds: Vec::new() }
    }

    /// The transcript before the first round of a proof for `problem`.
    pub fn get_seed(problem: &Vec<i32>) -> (transcript: Transcript)
        ensures
            transcript@ == seed(problem@),
    {
        let mut bytes: Vec<u8> = Vec::new();
        let mut i: usize = 0;
        while i < problem.len()
            invariant
                i <= problem.len(),
                bytes@ == seed(problem@.take(i as int)),
            decreases problem.len() - i,
        {
            push_decimal(problem[i], &mut bytes);
            assert(problem@.take(i + 1).drop_last() =~= problem@.take(i as int));
            i = i + 1;
        }
        assert(problem@.take(i as int) =~= problem@);
        Transcript { bytes }
    }

    /// Proves knowledge of `assignment` in `num_queries` rounds, each with a
    /// fresh witness and a fresh commitment.
    pub fn generate(problem: &Vec<i32>, assignment: &Vec<i32>, num_queries: usize) -> (made: Proof)
        requires
            satisfies(problem@, assignment@),
            blinding_fits(problem@, assignment@),
            4 * next_pow2(problem@.len() + 1) <= usize::MAX,
        ensures
            made@.len() == num_queries,
            honest(problem@, assignment@, made@),
            accepts(problem@, made@),
    {
        let n: usize = problem.len();
        let mut rounds: Vec<Round> = Vec::new();
        let mut transcript = Proof::get_seed(problem);
        let mut i: usize = 0;
        while i < num_queries
            invariant
                i <= num_queries,
                n == problem@.len(),
                satisfies(problem@, assignment@),
                blinding_fits(problem@, assignment@),
                4 * next_pow2(problem@.len() + 1) <= usize::MAX,
                rounds@.len() == i,
                transcript@ == transcript_before(problem@, round_views(rounds@), i as int),
                honest(problem@, assignment@, round_views(rounds@)),
            decreases num_queries - i,
        {
            let ghost before = round_views(rounds@);
            let witness = get_witness(problem, assignment);
            let tree = ZkMerkleTree::new(&witness);
            let index: u8 = transcript.challenge(n);
            proof {
                lemma_next_pow2((n + 1) as nat);
            }
            let round = open_round(&tree, n, index);
            let ghost answer = round@;
            let ghost asked = transcript@;
            transcript.absorb(&round.root, index);
            rounds.push(round);
            i = i + 1;
            proof {
                let after = round_views(rounds@);
                assert(after =~= before.push(answer));
                assert(round_honest(problem@, assignment@, answer, asked));
                assert forall|k: int| 0 <= k < i implies transcript_before(problem@, after, k)
                    == transcript_before(problem@, before, k) by {
                    lemma_transcript_prefix(problem@, after, before, k);
                }
            }
        }
        let made = Proof { rounds };
        proof {
            lemma_honest_proof_accepted(problem@, assignment@, made@);
        }
        made
    }

    /// Checks `given` against `problem`. Every round is checked, also after
    /// one has failed.
    pub fn verify(problem: &Vec<i32>, given: &Proof) -> (valid: bool)
        ensures
            valid == accepts(problem@, given@),
    {
        let mut valid: bool = true;
        let mut transcript = Proof::get_seed(problem);
        let n: usize = problem.len();
        let mut i: usize = 0;
        while i < given.rounds.len()
            invariant
                i <= given.rounds.len(),
                n == problem@.len(),
                transcript@ == transcript_before(problem@, given@, i as int),
                valid == forall|k: int|
                    #![trigger given@[k]]
                    0 <= k < i ==> round_accepts(
                        problem@,
                        given@[k],
                        transcript_before(problem@, given@, k),
                    ),
            decreases given.rounds.len() - i,
        {
            let round = &given.rounds[i];
            assert(round@ == given@[i as int]);
            let index: u8 = transcript.challenge(n);
            let ok = check_round(problem, round, index);
            valid = valid && ok;
            transcript.absorb(&round.root, index);
            i = i + 1;
        }
        valid
    }
}

} // verus!
