//! Binary Merkle tree commitments over SHA3-256.
//!
//! Leaves are field elements. The leaf vector is padded with zeros up to
//! the next power of two, every leaf is hashed as
//! `SHA3-256(0x00 || le64(x))` and every internal node as
//! `SHA3-256(0x01 || left || right)`.
//!
//! The model: `hash_layer(leaves, k)` is the `k`-th layer of digests of
//! the (already padded) leaf sequence, `merkle_root(leaves)` the root of
//! the tree committed to `leaves`, and `path_root` the root recomputed by
//! a verifier walking an authentication path.
use crate::bytes::{le_bytes, u64_to_le_bytes};
use crate::field::{lemma_from_val, Fp};
use sha3::{Digest, Sha3_256};
use vstd::arithmetic::div_mod::lemma_div_denominator;
use vstd::arithmetic::power2::{lemma_pow2, lemma_pow2_pos, pow2};
use vstd::prelude::*;

verus! {

/// Domain-separation tag prefixed to leaf preimages.
pub const LEAF_TAG: u8 = 0;

/// Domain-separation tag prefixed to internal-node preimages.
pub const NODE_TAG: u8 = 1;

/// The SHA3-256 digest of a byte string.
pub uninterp spec fn sha3_digest(input: Seq<u8>) -> Seq<u8>;

/// The preimage hashed for a leaf: the tag, then the 8 little-endian bytes.
pub open spec fn leaf_preimage(x: Fp) -> Seq<u8> {
    seq![LEAF_TAG] + le_bytes(x.val(), 8)
}

/// The digest of a leaf.
pub open spec fn leaf_hash(x: Fp) -> Seq<u8> {
    sha3_digest(leaf_preimage(x))
}

/// The digest of an internal node with children `l` and `r`.
pub open spec fn node_hash(l: Seq<u8>, r: Seq<u8>) -> Seq<u8> {
    sha3_digest(seq![NODE_TAG] + l + r)
}

/// `ceil(log2(n))`, with `0` for `n <= 1`.
pub open spec fn ceil_log2(n: nat) -> nat
    decreases n,
{
    if n <= 1 {
        0
    } else {
        1 + ceil_log2(((n + 1) / 2) as nat)
    }
}

/// The smallest power of two that is at least `n` (and at least `1`).
pub open spec fn next_pow2(n: nat) -> nat {
    pow2(ceil_log2(n))
}

/// `leaves` followed by zeros up to length `m`.
pub open spec fn pad_leaves(leaves: Seq<Fp>, m: nat) -> Seq<Fp> {
    leaves + Seq::new((m - leaves.len()) as nat, |i: int| Fp::from_val(0))
}

/// Layer `k` of the tree over the (padded) leaves: layer `0` holds the
/// leaf digests, layer `k + 1` the digests of adjacent pairs of layer `k`.
pub open spec fn hash_layer(leaves: Seq<Fp>, k: nat) -> Seq<Seq<u8>>
    decreases k,
{
    if k == 0 {
        Seq::new(leaves.len(), |i: int| leaf_hash(leaves[i]))
    } else {
        let prev = hash_layer(leaves, (k - 1) as nat);
        Seq::new(prev.len() / 2, |j: int| node_hash(prev[2 * j], prev[2 * j + 1]))
    }
}

/// The root of the tree that commits to `leaves`.
pub open spec fn merkle_root(leaves: Seq<Fp>) -> Seq<u8> {
    hash_layer(pad_leaves(leaves, next_pow2(leaves.len())), ceil_log2(leaves.len()))[0]
}

/// The position of the other child of the same parent.
pub open spec fn sibling_index(j: nat) -> nat {
    if j % 2 == 0 {
        j + 1
    } else {
        (j - 1) as nat
    }
}

/// The authentication path of leaf `i` in a tree of height `h`.
pub open spec fn auth_path(leaves: Seq<Fp>, i: nat, h: nat) -> Seq<Seq<u8>> {
    Seq::new(h, |k: int| hash_layer(leaves, k as nat)[sibling_index(i / pow2(k as nat)) as int])
}

/// The root recomputed from the digest `current` at position `index`
/// by folding in `siblings` from the bottom up.
pub open spec fn path_root(current: Seq<u8>, index: nat, siblings: Seq<Seq<u8>>) -> Seq<u8>
    decreases siblings.len(),
{
    if siblings.len() == 0 {
        current
    } else {
        let next = if index % 2 == 0 {
            node_hash(current, siblings[0])
        } else {
            node_hash(siblings[0], current)
        };
        path_root(next, index / 2, siblings.drop_first())
    }
}

/// The digests held by a vector of 32-byte arrays.
pub open spec fn digest_seq(v: Seq<[u8; 32]>) -> Seq<Seq<u8>> {
    Seq::new(v.len(), |i: int| v[i]@)
}

/// A 32-byte Merkle root.
#[derive(Clone, Copy, Debug, PartialEq, Eq, Hash)]
pub struct MerkleRoot(pub [u8; 32]);

/// An authentication path opening a single leaf.
#[derive(Clone, Debug)]
pub struct MerklePath {
    /// Sibling hashes from the leaf level up to one level below the root.
    pub siblings: Vec<[u8; 32]>,
    /// The position of the opened leaf.
    pub leaf_index: usize,
}

/// A fully materialised Merkle tree.
pub struct MerkleTree {
    /// The padded leaves.
    pub leaves: Vec<Fp>,
    /// The leaf-level digests; equal to `layers[0]`.
    pub leaves_hashed: Vec<[u8; 32]>,
    /// All layers of the tree, bottom up; the last holds only the root.
    pub layers: Vec<Vec<[u8; 32]>>,
}

/// SHA3-256 of a byte string.
#[verifier::external_body]
fn sha3_256(input: &[u8]) -> (r: [u8; 32])
    ensures
        r@ == sha3_digest(input@),
{
    Sha3_256::new().chain_update(input).finalize().into()
}

/// The tagged leaf digest `SHA3-256(0x00 || le64(x))`.
fn sha3_leaf(x: Fp) -> (r: [u8; 32])
    ensures
        r@ == leaf_hash(x),
{
    let mut pre: Vec<u8> = Vec::new();
    pre.push(LEAF_TAG);
    let mut bytes = u64_to_le_bytes(x.as_u64());
    pre.append(&mut bytes);
    assert(pre@ =~= leaf_preimage(x));
    sha3_256(pre.as_slice())
}

/// The tagged node digest `SHA3-256(0x01 || left || right)`.
fn sha3_node(left: &[u8; 32], right: &[u8; 32]) -> (r: [u8; 32])
    ensures
        r@ == node_hash(left@, right@),
{
    let mut pre: Vec<u8> = Vec::new();
    pre.push(NODE_TAG);
    let mut i: usize = 0;
    while i < 32
        invariant
            i <= 32,
            left@.len() == 32,
            pre@ == seq![NODE_TAG] + left@.subrange(0, i as int),
        decreases 32 - i,
    {
        pre.push(left[i]);
        i = i + 1;
        assert(pre@ =~= seq![NODE_TAG] + left@.subrange(0, i as int));
    }
    let mut j: usize = 0;
    while j < 32
        invariant
            j <= 32,
            left@.len() == 32,
            right@.len() == 32,
            pre@ == seq![NODE_TAG] + left@ + right@.subrange(0, j as int),
        decreases 32 - j,
    {
        pre.push(right[j]);
        j = j + 1;
        assert(pre@ =~= seq![NODE_TAG] + left@ + right@.subrange(0, j as int));
    }
    assert(left@.subrange(0, 32) =~= left@);
    assert(right@.subrange(0, 32) =~= right@);
    sha3_256(pre.as_slice())
}

/// Byte-wise equality of two digests.
fn digest_eq(a: &[u8; 32], b: &[u8; 32]) -> (r: bool)
    ensures
        r == (a@ == b@),
{
    let mut i: usize = 0;
    while i < 32
        invariant
            i <= 32,
            a@.len() == 32,
            b@.len() == 32,
            forall|k: int| 0 <= k < i ==> a@[k] == b@[k],
        decreases 32 - i,
    {
        if a[i] != b[i] {
            return false;
        }
        i = i + 1;
    }
    assert(a@ =~= b@);
    true
}

/// The next power of two together with its exponent.
fn pow2_ceil(n: usize) -> (r: (usize, usize))
    requires
        n <= usize::MAX / 2 + 1,
    ensures
        r.0 == pow2(r.1 as nat),
        r.1 == ceil_log2(n as nat),
{
    let mut p: usize = 1;
    let mut h: usize = 0;
    proof {
        vstd::arithmetic::power2::lemma2_to64();
    }
    while p < n
        invariant
            n <= usize::MAX / 2 + 1,
            p == pow2(h as nat),
            h == 0 || pow2((h - 1) as nat) < n,
            h < usize::BITS,
        decreases usize::BITS - h,
    {
        proof {
            lemma_pow2_double(h as nat);
            lemma_pow2_bits(h as nat);
        }
        p = p * 2;
        h = h + 1;
    }
    proof {
        lemma_ceil_log2_char(n as nat, h as nat);
    }
    (p, h)
}

/// Round up to the next power of two (`1` for `n == 0`).
fn next_power_of_two(n: usize) -> (r: usize)
    requires
        n <= usize::MAX / 2 + 1,
    ensures
        r == next_pow2(n as nat),
{
    let (p, _h) = pow2_ceil(n);
    p
}

/// `2^(h+1) = 2 * 2^h`.
proof fn lemma_pow2_double(h: nat)
    ensures
        pow2(h + 1) == 2 * pow2(h),
        pow2(h) > 0,
{
    lemma_pow2(h);
    lemma_pow2(h + 1);
    vstd::arithmetic::power::lemma_pow_adds(2, h, 1);
    vstd::arithmetic::power::lemma_pow1(2);
    lemma_pow2_pos(h);
}

/// A power of two that is at most `usize::MAX / 2` has exponent at most the word size minus two.
proof fn lemma_pow2_bits(h: nat)
    requires
        pow2(h) <= usize::MAX / 2,
    ensures
        h + 1 < usize::BITS,
{
    if h + 1 >= usize::BITS {
        let b = (usize::BITS - 1) as nat;
        if h > b {
            vstd::arithmetic::power2::lemma_pow2_strictly_increases(b, h);
        }
        vstd::arithmetic::power2::lemma2_to64();
        vstd::arithmetic::power2::lemma2_to64_rest();
        assert(usize::BITS == 32 || usize::BITS == 64);
        assert(pow2(b) > usize::MAX / 2);
    }
}

/// A power of two `2^h` with `2^h >= n > 2^(h-1)` has exponent `ceil_log2(n)`.
pub proof fn lemma_ceil_log2_char(n: nat, h: nat)
    requires
        pow2(h) >= n,
        h == 0 || pow2((h - 1) as nat) < n,
    ensures
        ceil_log2(n) == h,
    decreases h,
{
    vstd::arithmetic::power2::lemma2_to64();
    if n <= 1 {
        if h > 0 {
            lemma_pow2_pos((h - 1) as nat);
        }
    } else {
        assert(h > 0);
        let m = ((n + 1) / 2) as nat;
        lemma_pow2_double((h - 1) as nat);
        if h >= 2 {
            lemma_pow2_double((h - 2) as nat);
        }
        lemma_ceil_log2_char(m, (h - 1) as nat);
    }
}

/// The layers of a tree over `pow2(h)` leaves halve in length.
pub proof fn lemma_hash_layer_len(leaves: Seq<Fp>, h: nat, k: nat)
    requires
        leaves.len() == pow2(h),
        k <= h,
    ensures
        hash_layer(leaves, k).len() == pow2((h - k) as nat),
    decreases k,
{
    if k > 0 {
        lemma_hash_layer_len(leaves, h, (k - 1) as nat);
        lemma_pow2_double((h - k) as nat);
        assert((h - (k - 1)) as nat == (h - k) as nat + 1);
    }
}

impl MerkleTree {
    /// The tree is well formed: `leaves` has `2^h` entries, every layer has
    /// the length and the digests `hash_layer` gives it, and the leaf-digest
    /// copy equals layer `0`.
    pub open spec fn wf(self) -> bool {
        let h = (self.layers@.len() - 1) as nat;
        &&& self.layers@.len() >= 1
        &&& self.leaves@.len() == pow2(h)
        &&& self.leaves_hashed@ == self.layers@[0]@
        &&& forall|k: int|
            0 <= k <= h ==> (#[trigger] self.layers@[k])@.len() == pow2((h - k) as nat)
        &&& forall|k: int, j: int|
            0 <= k <= h && 0 <= j < self.layers@[k]@.len() ==> (#[trigger] self.layers@[k]@[j])@
                == hash_layer(self.leaves@, k as nat)[j]
    }

    /// The height of the tree (number of layers above the leaves).
    pub open spec fn height(self) -> nat {
        (self.layers@.len() - 1) as nat
    }

    /// Commit to a vector of field elements: pad with zeros to the next
    /// power of two and build every layer of the tree.
    pub fn commit(leaves: &[Fp]) -> (t: MerkleTree)
        requires
            leaves@.len() <= usize::MAX / 2 + 1,
        ensures
            t.wf(),
            t.height() == ceil_log2(leaves@.len()),
            t.leaves@ == pad_leaves(leaves@, next_pow2(leaves@.len())),
            hash_layer(t.leaves@, t.height())[0] == merkle_root(leaves@),
    {
        let n = leaves.len();
        let (m, h) = pow2_ceil(n);
        proof {
            lemma_pow2_pos(h as nat);
        }
        let ghost padded = pad_leaves(leaves@, m as nat);
        assert(m >= n) by {
            if n > 1 {
                lemma_next_pow2_ge(n as nat);
            }
        }
        // Padded leaves and their digests.
        let mut padded_leaves: Vec<Fp> = Vec::new();
        let mut leaves_hashed: Vec<[u8; 32]> = Vec::new();
        let mut layer0: Vec<[u8; 32]> = Vec::new();
        let mut i: usize = 0;
        while i < m
            invariant
                i <= m,
                n == leaves@.len(),
                n <= m,
                padded == pad_leaves(leaves@, m as nat),
                padded_leaves@ == padded.subrange(0, i as int),
                leaves_hashed@.len() == i,
                layer0@ == leaves_hashed@,
                forall|j: int| 0 <= j < i ==> (#[trigger] leaves_hashed@[j])@ == leaf_hash(padded[j]),
            decreases m - i,
        {
            let x = if i < n {
                leaves[i]
            } else {
                Fp::zero()
            };
            proof {
                if i >= n {
                    lemma_from_val(0);
                    crate::field::lemma_val_eq(x, Fp::from_val(0));
                }
            }
            assert(x == padded[i as int]);
            let d = sha3_leaf(x);
            padded_leaves.push(x);
            leaves_hashed.push(d);
            layer0.push(d);
            i = i + 1;
            assert(padded_leaves@ =~= padded.subrange(0, i as int));
        }
        assert(padded_leaves@ =~= padded);
        let ghost hl0 = hash_layer(padded, 0);
        assert(forall|j: int| 0 <= j < m ==> (#[trigger] layer0@[j])@ == hl0[j]);
        // Layers, bottom up.
        let mut layers: Vec<Vec<[u8; 32]>> = Vec::new();
        layers.push(layer0);
        let mut k: usize = 0;
        let mut len: usize = m;
        while len > 1
            invariant
                k <= h,
                m == pow2(h as nat),
                padded.len() == m,
                len == pow2((h - k) as nat),
                layers@.len() == k + 1,
                layers@[0]@ == leaves_hashed@,
                forall|kk: int| 0 <= kk <= k ==> (#[trigger] layers@[kk])@.len() == pow2((h - kk) as nat),
                forall|kk: int, j: int|
                    0 <= kk <= k && 0 <= j < layers@[kk]@.len() ==> (#[trigger] layers@[kk]@[j])@
                        == hash_layer(padded, kk as nat)[j],
            decreases len,
        {
            proof {
                if k == h {
                    vstd::arithmetic::power2::lemma2_to64();
                }
                assert(k < h);
                lemma_pow2_double((h - k - 1) as nat);
                assert((h - k) as nat == (h - k - 1) as nat + 1);
                lemma_hash_layer_len(padded, h as nat, k as nat);
                lemma_hash_layer_len(padded, h as nat, (k + 1) as nat);
            }
            let half = len / 2;
            let mut parent: Vec<[u8; 32]> = Vec::new();
            let mut j: usize = 0;
            while j < half
                invariant
                    j <= half,
                    half * 2 == len,
                    layers@.len() == k + 1,
                    layers@[k as int]@.len() == len,
                    parent@.len() == j,
                    hash_layer(padded, k as nat).len() == len,
                    forall|jj: int|
                        0 <= jj < len ==> (#[trigger] layers@[k as int]@[jj])@ == hash_layer(
                            padded,
                            k as nat,
                        )[jj],
                    forall|jj: int|
                        0 <= jj < j ==> (#[trigger] parent@[jj])@ == hash_layer(
                            padded,
                            (k + 1) as nat,
                        )[jj],
                decreases half - j,
            {
                let l = layers[k][2 * j];
                let r = layers[k][2 * j + 1];
                let d = sha3_node(&l, &r);
                parent.push(d);
                j = j + 1;
            }
            layers.push(parent);
            k = k + 1;
            len = half;
        }
        proof {
            if k < h {
                lemma_pow2_pos((h - k - 1) as nat);
                lemma_pow2_double((h - k - 1) as nat);
                assert((h - k) as nat == (h - k - 1) as nat + 1);
            }
            assert(k == h);
            vstd::arithmetic::power2::lemma2_to64();
        }
        let t = MerkleTree { leaves: padded_leaves, leaves_hashed, layers };
        assert(t.leaves_hashed@ =~= t.layers@[0]@);
        t
    }

    /// The root of the tree: the single digest of the top layer.
    pub fn root(&self) -> (r: MerkleRoot)
        requires
            self.wf(),
        ensures
            r.0@ == hash_layer(self.leaves@, self.height())[0],
    {
        let top = self.layers.len() - 1;
        proof {
            vstd::arithmetic::power2::lemma2_to64();
        }
        MerkleRoot(self.layers[top][0])
    }

    /// The leaf at `index` together with its authentication path.
    pub fn open(&self, index: usize) -> (r: (Fp, MerklePath))
        requires
            self.wf(),
            index < self.leaves_hashed@.len(),
        ensures
            r.0 == self.leaves@[index as int],
            r.1.leaf_index == index,
            digest_seq(r.1.siblings@) == auth_path(self.leaves@, index as nat, self.height()),
    {
        let n_levels = self.layers.len() - 1;
        let ghost h = n_levels as nat;
        let mut siblings: Vec<[u8; 32]> = Vec::new();
        let mut current_index: usize = index;
        let mut k: usize = 0;
        proof {
            vstd::arithmetic::power2::lemma2_to64();
        }
        while k < n_levels
            invariant
                self.wf(),
                n_levels == self.layers@.len() - 1,
                h == n_levels,
                k <= n_levels,
                index < pow2(h),
                current_index == index as nat / pow2(k as nat),
                current_index < pow2((h - k) as nat),
                siblings@.len() == k,
                forall|kk: int|
                    0 <= kk < k ==> (#[trigger] siblings@[kk])@ == auth_path(
                        self.leaves@,
                        index as nat,
                        h,
                    )[kk],
            decreases n_levels - k,
        {
            proof {
                lemma_pow2_double((h - k - 1) as nat);
                assert((h - k) as nat == (h - k - 1) as nat + 1);
                lemma_pow2_pos(k as nat);
            }
            let sibling = if current_index % 2 == 0 {
                current_index + 1
            } else {
                current_index - 1
            };
            assert(sibling < pow2((h - k) as nat));
            let d = self.layers[k][sibling];
            siblings.push(d);
            proof {
                lemma_div_denominator(index as int, pow2(k as nat) as int, 2);
                lemma_pow2_double(k as nat);
                assert(pow2(k as nat) * 2 == pow2((k + 1) as nat));
            }
            current_index = current_index / 2;
            k = k + 1;
        }
        assert(digest_seq(siblings@) =~= auth_path(self.leaves@, index as nat, h));
        (self.leaves[index], MerklePath { siblings, leaf_index: index })
    }

    /// Check that `leaf` at `index` is consistent with `root` given `path`,
    /// for a tree of `tree_size` leaves.
    pub fn verify(
        root: MerkleRoot,
        index: usize,
        leaf: Fp,
        path: &MerklePath,
        tree_size: usize,
    ) -> (r: bool)
        requires
            tree_size <= usize::MAX / 2 + 1,
        ensures
            r == (path.siblings@.len() == ceil_log2(tree_size as nat) && index == path.leaf_index
                && index < tree_size && path_root(leaf_hash(leaf), index as nat, digest_seq(path.siblings@))
                == root.0@),
    {
        let (_padded, expected_path_len) = pow2_ceil(tree_size);
        if path.siblings.len() != expected_path_len {
            return false;
        }
        if index != path.leaf_index {
            return false;
        }
        if index >= tree_size {
            return false;
        }
        let ghost sibs = digest_seq(path.siblings@);
        let mut current = sha3_leaf(leaf);
        let mut idx: usize = index;
        let mut k: usize = 0;
        assert(sibs.skip(0) =~= sibs);
        while k < expected_path_len
            invariant
                k <= expected_path_len,
                expected_path_len == path.siblings@.len(),
                sibs == digest_seq(path.siblings@),
                path_root(current@, idx as nat, sibs.skip(k as int)) == path_root(
                    leaf_hash(leaf),
                    index as nat,
                    sibs,
                ),
            decreases expected_path_len - k,
        {
            let ghost before = current@;
            let ghost rest = sibs.skip(k as int);
            assert(rest.drop_first() =~= sibs.skip(k + 1));
            assert(rest[0] == path.siblings@[k as int]@);
            let bit = idx % 2;
            current = if bit == 0 {
                sha3_node(&current, &path.siblings[k])
            } else {
                sha3_node(&path.siblings[k], &current)
            };
            idx = idx / 2;
            k = k + 1;
        }
        assert(sibs.skip(k as int) =~= Seq::<Seq<u8>>::empty());
        digest_eq(&current, &root.0)
    }
}

/// `next_pow2(n) >= n`.
pub proof fn lemma_next_pow2_ge(n: nat)
    ensures
        next_pow2(n) >= n,
        next_pow2(n) >= 1,
    decreases n,
{
    vstd::arithmetic::power2::lemma2_to64();
    lemma_pow2_pos(ceil_log2(n));
    if n > 1 {
        let m = ((n + 1) / 2) as nat;
        lemma_next_pow2_ge(m);
        lemma_pow2_double(ceil_log2(m));
    }
}

/// Walking the authentication path of leaf `i` upward from layer `k`
/// reaches the root.
proof fn lemma_path_from_layer(leaves: Seq<Fp>, h: nat, i: nat, k: nat)
    requires
        leaves.len() == pow2(h),
        i < pow2(h),
        k <= h,
    ensures
        path_root(
            hash_layer(leaves, k)[(i / pow2(k)) as int],
            i / pow2(k),
            auth_path(leaves, i, h).skip(k as int),
        ) == hash_layer(leaves, h)[0],
    decreases h - k,
{
    let path = auth_path(leaves, i, h);
    lemma_pow2_pos(k);
    if k == h {
        assert(path.skip(k as int) =~= Seq::<Seq<u8>>::empty());
        vstd::arithmetic::div_mod::lemma_basic_div(i as int, pow2(h) as int);
    } else {
        let c = i / pow2(k);
        lemma_pow2_double(k);
        lemma_pow2_double((h - k - 1) as nat);
        assert((h - k) as nat == (h - k - 1) as nat + 1);
        lemma_hash_layer_len(leaves, h, k);
        lemma_hash_layer_len(leaves, h, k + 1);
        vstd::arithmetic::power2::lemma_pow2_adds(k, (h - k) as nat);
        assert(k + (h - k) as nat == h);
        lemma_quotient_bound(i, pow2(k), pow2((h - k) as nat));
        assert(c < pow2((h - k) as nat));
        lemma_div_denominator(i as int, pow2(k) as int, 2);
        assert(path.skip(k as int).drop_first() =~= path.skip(k + 1 as int));
        assert(path.skip(k as int)[0] == hash_layer(leaves, k)[sibling_index(c) as int]);
        let layer = hash_layer(leaves, k);
        let up = hash_layer(leaves, k + 1);
        let p = c / 2;
        assert(up[p as int] == node_hash(layer[2 * p as int], layer[2 * p as int + 1]));
        lemma_path_from_layer(leaves, h, i, k + 1);
    }
}

/// `i < a * b` implies `i / a < b`.
proof fn lemma_quotient_bound(i: nat, a: nat, b: nat)
    requires
        a > 0,
        i < a * b,
    ensures
        i / a < b,
{
    vstd::arithmetic::div_mod::lemma_multiply_divide_lt(i as int, a as int, b as int);
}

/// Round trip: the path that `open` gives for a committed leaf leads a
/// verifier from that leaf's digest to the root that `commit` computed.
pub proof fn lemma_commit_open_verify(leaves: Seq<Fp>, i: nat)
    requires
        i < leaves.len(),
    ensures
        ({
            let padded = pad_leaves(leaves, next_pow2(leaves.len()));
            let path = auth_path(padded, i, ceil_log2(leaves.len()));
            &&& path.len() == ceil_log2(leaves.len())
            &&& path_root(leaf_hash(leaves[i as int]), i, path) == merkle_root(leaves)
        }),
{
    let h = ceil_log2(leaves.len());
    let padded = pad_leaves(leaves, next_pow2(leaves.len()));
    lemma_next_pow2_ge(leaves.len());
    assert(padded.len() == pow2(h));
    vstd::arithmetic::power2::lemma2_to64();
    lemma_path_from_layer(padded, h, i, 0);
    assert(auth_path(padded, i, h).skip(0) =~= auth_path(padded, i, h));
    assert(padded[i as int] == leaves[i as int]);
    assert(i / pow2(0) == i);
}

} // verus!
