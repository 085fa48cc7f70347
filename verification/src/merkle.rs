//! Salted Merkle commitments to a list of integers.
//!
//! The committed values are padded with zeros to a power of two and each is
//! followed by a random salt. The digests of these leaves fill the upper
//! half of an array; below them every node is the digest of its two
//! children, down to the root at index 1. Node `i` has children `2i` and
//! `2i + 1`, parent `i / 2` and sibling `i ^ 1`.

use vstd::prelude::*;
use crate::encoding::{decimal, lemma_decimal_injective, push_decimal};
use crate::hash::{
    blake2b_digest, collision_exists, digest_views, lemma_same_beginning, lemma_same_digest,
    lemma_same_ending, pair_digest, Digest,
};
use crate::random::draw_salts;

verus! {

/// The least power of two that is at least `n`.
pub open spec fn next_pow2(n: nat) -> nat
    decreases n,
{
    if n <= 1 {
        1
    } else {
        2 * next_pow2((n + 1) / 2)
    }
}

/// `n` is a power of two.
pub open spec fn is_pow2(n: nat) -> bool
    decreases n,
{
    n == 1 || (n > 1 && n % 2 == 0 && is_pow2(n / 2))
}

/// The number of halvings that take `n` down to one.
pub open spec fn log2(n: nat) -> nat
    decreases n,
{
    if n <= 1 {
        0
    } else {
        1 + log2(n / 2)
    }
}

/// The digest of the leaf that holds `value`: that of its decimal notation.
pub open spec fn leaf_digest(value: int) -> Seq<u8> {
    blake2b_digest(decimal(value))
}

/// The digest at node `i` of the tree over `leaves`. The leaves stand at
/// the nodes from `leaves.len()` on; node 0 is no part of the tree and holds
/// the digest of nothing.
pub open spec fn node_digest(leaves: Seq<i32>, i: nat) -> Seq<u8>
    decreases 2 * leaves.len() - i,
{
    if i >= leaves.len() {
        leaf_digest(leaves[i - leaves.len()] as int)
    } else if i == 0 {
        blake2b_digest(Seq::empty())
    } else {
        pair_digest(node_digest(leaves, 2 * i), node_digest(leaves, 2 * i + 1))
    }
}

/// The commitment to `leaves`.
pub open spec fn merkle_root(leaves: Seq<i32>) -> Seq<u8> {
    node_digest(leaves, 1)
}

/// The other child of the parent of `node`.
pub open spec fn sibling(node: nat) -> nat {
    if node % 2 == 0 {
        node + 1
    } else {
        (node - 1) as nat
    }
}

/// The digests of the siblings met on the way from `node` up to the root,
/// the root itself excluded.
pub open spec fn auth_path(leaves: Seq<i32>, node: nat) -> Seq<Seq<u8>>
    decreases node,
{
    if node <= 1 {
        Seq::empty()
    } else {
        seq![node_digest(leaves, sibling(node))] + auth_path(leaves, node / 2)
    }
}

/// The node of the `id`-th value in a tree that commits to `size` values.
pub open spec fn leaf_node(size: nat, id: nat) -> nat {
    2 * (id + next_pow2(size))
}

/// The digest reached by climbing from `node`, which holds `cur`, along
/// `path`: at each step the node's digest and the next sibling's are hashed,
/// the even node on the left. `None` unless the path ends exactly at the
/// root.
pub open spec fn climb(cur: Seq<u8>, node: nat, path: Seq<Seq<u8>>) -> Option<Seq<u8>>
    decreases path.len(),
{
    if path.len() == 0 {
        if node == 1 {
            Some(cur)
        } else {
            None
        }
    } else if node <= 1 {
        None
    } else if node % 2 == 0 {
        climb(pair_digest(cur, path[0]), node / 2, path.drop_first())
    } else {
        climb(pair_digest(path[0], cur), node / 2, path.drop_first())
    }
}

/// `path` shows that `value` is the `id`-th of `size` values committed to
/// by `root`.
pub open spec fn path_accepts(
    root: Seq<u8>,
    size: nat,
    id: nat,
    value: int,
    path: Seq<Seq<u8>>,
) -> bool {
    climb(leaf_digest(value), leaf_node(size, id), path) == Some(root)
}

/// The leaves that commit to `values` with `salts`: each value, or zero
/// past the last of them, followed by its salt.
pub open spec fn committed(values: Seq<i32>, salts: Seq<i32>) -> Seq<i32> {
    Seq::new(
        2 * next_pow2(values.len()),
        |j: int|
            if j % 2 == 1 {
                salts[j / 2]
            } else if j / 2 < values.len() {
                values[j / 2]
            } else {
                0i32
            },
    )
}

/// `leaves` commit to `values` with some salts, none of them negative.
pub open spec fn commits_to(leaves: Seq<i32>, values: Seq<i32>) -> bool {
    &&& leaves.len() == 2 * next_pow2(values.len())
    &&& forall|i: int| 0 <= i < values.len() ==> #[trigger] leaves[2 * i] == values[i]
    &&& forall|i: int|
        values.len() <= i < next_pow2(values.len()) ==> #[trigger] leaves[2 * i] == 0
    &&& forall|i: int| 0 <= i < next_pow2(values.len()) ==> #[trigger] leaves[2 * i + 1] >= 0
}

/// `next_pow2(n)` is a power of two, at least `n`, and less than twice `n`.
pub proof fn lemma_next_pow2(n: nat)
    ensures
        is_pow2(next_pow2(n)),
        next_pow2(n) >= n,
        next_pow2(n) >= 1,
        n >= 1 ==> next_pow2(n) < 2 * n,
    decreases n,
{
    if n > 1 {
        lemma_next_pow2((n + 1) / 2);
    }
}

/// No power of two that is at least `n` is less than `next_pow2(n)`.
pub proof fn lemma_next_pow2_least(n: nat, p: nat)
    requires
        is_pow2(p),
        p >= n,
    ensures
        next_pow2(n) <= p,
    decreases n,
{
    if n > 1 {
        lemma_next_pow2_least((n + 1) / 2, p / 2);
    }
}

/// An authentication path has one digest for each level between its node
/// and the root.
pub proof fn lemma_auth_path_len(leaves: Seq<i32>, node: nat)
    ensures
        auth_path(leaves, node).len() == log2(node),
    decreases node,
{
    if node > 1 {
        lemma_auth_path_len(leaves, node / 2);
    }
}

/// All leaves of a tree with `m` leaves, a power of two, stand `log2(m)`
/// levels above the root.
pub proof fn lemma_leaf_level(m: nat, node: nat)
    requires
        is_pow2(m),
        m <= node < 2 * m,
    ensures
        log2(node) == log2(m),
    decreases m,
{
    if m > 1 {
        lemma_leaf_level(m / 2, node / 2);
    }
}

/// Climbing from any node of a tree along its own authentication path ends
/// at the tree's root.
pub proof fn lemma_climb_reaches_root(leaves: Seq<i32>, node: nat)
    requires
        1 <= node < 2 * leaves.len(),
    ensures
        climb(node_digest(leaves, node), node, auth_path(leaves, node)) == Some(
            merkle_root(leaves),
        ),
    decreases node,
{
    if node > 1 {
        assert(auth_path(leaves, node).drop_first() =~= auth_path(leaves, node / 2));
        lemma_climb_reaches_root(leaves, node / 2);
    }
}

/// Every value of a tree verifies against the tree's root with the path
/// that the tree hands out for it.
pub proof fn lemma_opening_verifies(leaves: Seq<i32>, size: nat, id: nat)
    requires
        leaves.len() == 2 * next_pow2(size),
        id < next_pow2(size),
    ensures
        path_accepts(
            merkle_root(leaves),
            size,
            id,
            leaves[2 * (id as int)] as int,
            auth_path(leaves, leaf_node(size, id)),
        ),
{
    lemma_climb_reaches_root(leaves, leaf_node(size, id));
}

/// A path binds the digest it starts from: two climbs from the same node
/// along the same path that end at the same root started from the same
/// digest, unless the hash function collides.
pub proof fn lemma_climb_binds_start(
    first: Seq<u8>,
    second: Seq<u8>,
    node: nat,
    path: Seq<Seq<u8>>,
)
    requires
        climb(first, node, path) is Some,
        climb(first, node, path) == climb(second, node, path),
    ensures
        first == second || collision_exists(),
    decreases path.len(),
{
    if path.len() > 0 {
        let beside = path[0];
        if node % 2 == 0 {
            lemma_climb_binds_start(
                pair_digest(first, beside),
                pair_digest(second, beside),
                node / 2,
                path.drop_first(),
            );
            if !collision_exists() {
                lemma_same_digest(first + beside, second + beside);
                lemma_same_ending(first, second, beside);
            }
        } else {
            lemma_climb_binds_start(
                pair_digest(beside, first),
                pair_digest(beside, second),
                node / 2,
                path.drop_first(),
            );
            if !collision_exists() {
                lemma_same_digest(beside + first, beside + second);
                lemma_same_beginning(beside, first, second);
            }
        }
    }
}

/// A path binds the value it opens: the same path does not show two
/// different values at the same place under the same root, unless the hash
/// function collides.
pub proof fn lemma_path_binds_value(
    root: Seq<u8>,
    size: nat,
    id: nat,
    first: int,
    second: int,
    path: Seq<Seq<u8>>,
)
    requires
        path_accepts(root, size, id, first, path),
        path_accepts(root, size, id, second, path),
    ensures
        first == second || collision_exists(),
{
    lemma_climb_binds_start(leaf_digest(first), leaf_digest(second), leaf_node(size, id), path);
    if !collision_exists() {
        lemma_same_digest(decimal(first), decimal(second));
        lemma_decimal_injective(first, second);
    }
}

/// A climb binds every sibling on its path: with one sibling replaced by
/// another digest it does not end at the same root, unless the hash
/// function collides.
pub proof fn lemma_climb_binds_sibling(
    cur: Seq<u8>,
    node: nat,
    path: Seq<Seq<u8>>,
    level: int,
    other: Seq<u8>,
)
    requires
        0 <= level < path.len(),
        other != path[level],
        climb(cur, node, path) is Some,
        climb(cur, node, path) == climb(cur, node, path.update(level, other)),
    ensures
        collision_exists(),
    decreases path.len(),
{
    let changed = path.update(level, other);
    if level == 0 {
        assert(changed.drop_first() =~= path.drop_first());
        if node % 2 == 0 {
            lemma_climb_binds_start(
                pair_digest(cur, path[0]),
                pair_digest(cur, other),
                node / 2,
                path.drop_first(),
            );
            if !collision_exists() {
                lemma_same_digest(cur + path[0], cur + other);
                lemma_same_beginning(cur, path[0], other);
            }
        } else {
            lemma_climb_binds_start(
                pair_digest(path[0], cur),
                pair_digest(other, cur),
                node / 2,
                path.drop_first(),
            );
            if !collision_exists() {
                lemma_same_digest(path[0] + cur, other + cur);
                lemma_same_ending(path[0], other, cur);
            }
        }
    } else {
        assert(changed.drop_first() =~= path.drop_first().update(level - 1, other));
        let above = if node % 2 == 0 {
            pair_digest(cur, path[0])
        } else {
            pair_digest(path[0], cur)
        };
        lemma_climb_binds_sibling(above, node / 2, path.drop_first(), level - 1, other);
    }
}

/// The leaves made from `values` and enough salts commit to `values`.
pub proof fn lemma_committed(values: Seq<i32>, salts: Seq<i32>)
    requires
        salts.len() == next_pow2(values.len()),
        forall|i: int| 0 <= i < salts.len() ==> salts[i] >= 0,
    ensures
        commits_to(committed(values, salts), values),
{
    lemma_next_pow2(values.len());
}

/// The least power of two that is at least `n`.
pub fn next_power_of_two(n: u128) -> (p: u128)
    requires
        n <= u128::MAX / 4,
    ensures
        p == next_pow2(n as nat),
        p < 2 * n || p == 1,
    decreases n,
{
    proof {
        lemma_next_pow2(n as nat);
    }
    if n <= 1 {
        1
    } else {
        let half: u128 = (n + 1) / 2;
        2 * next_power_of_two(half)
    }
}

/// The node of the `id`-th value in a tree that commits to `size` values.
pub fn leaf_node_of(size: u128, id: u128) -> (node: u128)
    requires
        size <= u128::MAX / 16,
        id <= u128::MAX / 16,
    ensures
        node == leaf_node(size as nat, id as nat),
{
    2 * (id + next_power_of_two(size))
}

/// Hashes the decimal notation of `value`.
pub fn hash_value(value: i32) -> (d: Digest)
    ensures
        d@ == leaf_digest(value as int),
{
    let mut text: Vec<u8> = Vec::new();
    push_decimal(value, &mut text);
    Digest::of(&text)
}

/// A commitment tree: the leaves it commits to and the digest at each node.
pub struct ZkMerkleTree {
    data: Vec<i32>,
    tree: Vec<Digest>,
}

impl View for ZkMerkleTree {
    type V = Seq<i32>;

    /// The leaves: values at the even places, salts at the odd ones.
    closed spec fn view(&self) -> Seq<i32> {
        self.data@
    }
}

impl ZkMerkleTree {
    #[verifier::type_invariant]
    spec fn well_formed(self) -> bool {
        &&& self.data@.len() >= 2
        &&& is_pow2(self.data@.len())
        &&& self.tree@.len() == 2 * self.data@.len()
        &&& forall|i: int|
            0 <= i < self.tree@.len() ==> (#[trigger] self.tree@[i])@ == node_digest(
                self.data@,
                i as nat,
            )
    }

    /// The tree over `values`, padded and salted with `salts`.
    pub fn with_salts(values: &Vec<i32>, salts: &Vec<i32>) -> (t: ZkMerkleTree)
        requires
            4 * next_pow2(values@.len()) <= usize::MAX,
            salts@.len() == next_pow2(values@.len()),
        ensures
            t@ == committed(values@, salts@),
    {
        let slots: usize = next_power_of_two(values.len() as u128) as usize;
        let ghost leaves = committed(values@, salts@);
        let mut data: Vec<i32> = Vec::new();
        let mut i: usize = 0;
        while i < slots
            invariant
                i <= slots,
                slots == next_pow2(values@.len()),
                slots == salts@.len(),
                4 * slots <= usize::MAX,
                leaves == committed(values@, salts@),
                data@.len() == 2 * i,
                forall|j: int| 0 <= j < 2 * i ==> data@[j] == leaves[j],
            decreases slots - i,
        {
            let value: i32 = if i < values.len() {
                values[i]
            } else {
                0
            };
            data.push(value);
            data.push(salts[i]);
            i = i + 1;
        }
        let m: usize = data.len();
        assert(m >= 2 && is_pow2(m as nat)) by {
            lemma_next_pow2(values@.len());
        }
        let nothing: Vec<u8> = Vec::new();
        let unused: Digest = Digest::of(&nothing);
        let mut tree: Vec<Digest> = Vec::new();
        let mut j: usize = 0;
        while j < m
            invariant
                j <= m,
                tree@.len() == j,
                unused@ == blake2b_digest(Seq::empty()),
                forall|k: int| 0 <= k < j ==> (#[trigger] tree@[k])@ == unused@,
            decreases m - j,
        {
            tree.push(unused.duplicate());
            j = j + 1;
        }
        let mut j: usize = 0;
        while j < m
            invariant
                j <= m,
                1 <= m == data@.len(),
                2 * m <= usize::MAX,
                tree@.len() == m + j,
                tree@[0]@ == blake2b_digest(Seq::empty()),
                forall|k: int|
                    m <= k < m + j ==> (#[trigger] tree@[k])@ == node_digest(data@, k as nat),
            decreases m - j,
        {
            tree.push(hash_value(data[j]));
            j = j + 1;
        }
        let mut i: usize = m - 1;
        while i >= 1
            invariant
                i < m,
                m == data@.len(),
                2 * m <= usize::MAX,
                tree@.len() == 2 * m,
                tree@[0]@ == blake2b_digest(Seq::empty()),
                forall|k: int|
                    i < k < 2 * m ==> (#[trigger] tree@[k])@ == node_digest(data@, k as nat),
            decreases i,
        {
            let parent = Digest::of_pair(&tree[2 * i], &tree[2 * i + 1]);
            tree.set(i, parent);
            i = i - 1;
        }
        ZkMerkleTree { data, tree }
    }

    /// The tree over `values`, padded and freshly salted.
    pub fn new(values: &Vec<i32>) -> (t: ZkMerkleTree)
        requires
            4 * next_pow2(values@.len()) <= usize::MAX,
        ensures
            commits_to(t@, values@),
    {
        let slots: usize = next_power_of_two(values.len() as u128) as usize;
        let salts = draw_salts(slots);
        proof {
            lemma_committed(values@, salts@);
        }
        ZkMerkleTree::with_salts(values, &salts)
    }

    /// The commitment: the digest at the root.
    pub fn get_root(&self) -> (root: Digest)
        ensures
            root@ == merkle_root(self@),
    {
        proof {
            use_type_invariant(self);
        }
        self.tree[1].duplicate()
    }

    /// The `id`-th committed value and the digests that authenticate it.
    pub fn get_val_and_path(&self, id: usize) -> (opened: (i32, Vec<Digest>))
        requires
            2 * id < self@.len(),
        ensures
            opened.0 == self@[2 * id],
            digest_views(opened.1@) == auth_path(self@, (2 * id + self@.len()) as nat),
            opened.1@.len() == log2(self@.len()),
    {
        proof {
            use_type_invariant(self);
            lemma_auth_path_len(self.data@, (2 * id + self.data@.len()) as nat);
            lemma_leaf_level(self.data@.len(), (2 * id + self.data@.len()) as nat);
        }
        let m: usize = self.data.len();
        let nodes: usize = self.tree.len();
        let mut node: usize = id * 2;
        let value: i32 = self.data[node];
        node = node + m;
        let ghost start = node as nat;
        let mut path: Vec<Digest> = Vec::new();
        while node > 1
            invariant
                node < nodes,
                nodes == self.tree@.len(),
                self.tree@.len() == 2 * self.data@.len(),
                forall|i: int|
                    0 <= i < self.tree@.len() ==> (#[trigger] self.tree@[i])@ == node_digest(
                        self.data@,
                        i as nat,
                    ),
                digest_views(path@) + auth_path(self.data@, node as nat) == auth_path(
                    self.data@,
                    start,
                ),
            decreases node,
        {
            let beside: usize = node ^ 1;
            assert(beside == sibling(node as nat)) by {
                assert(node % 2 == 0 ==> node ^ 1 == node + 1) by (bit_vector);
                assert(node % 2 == 1 ==> node ^ 1 == node - 1) by (bit_vector);
            }
            path.push(self.tree[beside].duplicate());
            node = node / 2;
        }
        (value, path)
    }

    /// Whether climbing from `node`, taken to hold `value`, along `path`
    /// ends at `root`.
    pub fn climbs_to(root: &Digest, node: u128, value: i32, path: &Vec<Digest>) -> (ok: bool)
        ensures
            ok == (climb(leaf_digest(value as int), node as nat, digest_views(path@)) == Some(
                root@,
            )),
    {
        let ghost whole = digest_views(path@);
        let mut cur: Digest = hash_value(value);
        let mut at: u128 = node;
        let mut i: usize = 0;
        assert(whole.skip(0) =~= whole);
        while i < path.len()
            invariant
                i <= path.len(),
                whole == digest_views(path@),
                climb(leaf_digest(value as int), node as nat, whole) == climb(
                    cur@,
                    at as nat,
                    whole.skip(i as int),
                ),
            decreases path.len() - i,
        {
            assert(whole.skip(i as int).drop_first() =~= whole.skip(i + 1));
            if at <= 1 {
                return false;
            }
            if at % 2 == 0 {
                cur = Digest::of_pair(&cur, &path[i]);
            } else {
                cur = Digest::of_pair(&path[i], &cur);
            }
            at = at / 2;
            i = i + 1;
        }
        at == 1 && root.same_as(&cur)
    }

    /// Whether `path` shows that `value` is the `value_id`-th of `data_size`
    /// values committed to by `root`. A path that does not end exactly at
    /// the root is refused like any other that fails.
    pub fn verify_merkle_path(
        root: &Digest,
        data_size: usize,
        value_id: usize,
        value: i32,
        path: &Vec<Digest>,
    ) -> (ok: bool)
        ensures
            ok == path_accepts(
                root@,
                data_size as nat,
                value_id as nat,
                value as int,
                digest_views(path@),
            ),
    {
        let node: u128 = leaf_node_of(data_size as u128, value_id as u128);
        ZkMerkleTree::climbs_to(root, node, value, path)
    }
}

} // verus!
