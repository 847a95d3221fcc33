//! The compact binary format of a forest (one posterior draw of trees).
//!
//! Layout, little-endian throughout:
//! - u32: number of trees
//! - for each tree:
//!   - u32: node count
//!   - u32[node_count]: feature
//!   - f64[node_count]: threshold
//!   - f64[node_count]: value
//!   - i32[node_count]: left_child, right_child, parent, n_left, n_right, leaf_id (each in turn)
//!   - i32: next_leaf_id
use crate::codec::{
    lemma_concat_cancel, lemma_i32s_bytes_injective, lemma_u64s_bytes_injective,
    lemma_usizes_as_u32_bytes_injective,
    lemma_i32_bytes, lemma_i32s_bytes_len, lemma_u32_bytes, lemma_u64s_bytes_len,
    lemma_usizes_as_u32_bytes_len,
    i32_bytes, i32s_bytes, read_f64_bits, read_i32, read_i32_vec, read_u32, u32_bytes,
    u64s_bytes, unexpected_end_message, usizes_as_u32_bytes, write_f64_bits, write_i32,
    write_i32_slice, write_u32,
};
use crate::tree::{DecisionTree, TreeModel};
use vstd::bytes::*;
use vstd::prelude::*;

verus! {

broadcast use vstd::string::group_string_axioms;

/// The message of a buffer that holds more bytes than the forest it starts with.
pub open spec fn trailing_bytes_message() -> Seq<char> {
    "Trailing bytes after decoding forest."@
}

/// The encoding of one tree.
pub open spec fn tree_bytes(t: TreeModel) -> Seq<u8> {
    u32_bytes(t.value.len() as u32) + usizes_as_u32_bytes(t.feature) + u64s_bytes(t.threshold)
        + u64s_bytes(t.value) + i32s_bytes(t.left_child) + i32s_bytes(t.right_child) + i32s_bytes(
        t.parent,
    ) + i32s_bytes(t.n_left) + i32s_bytes(t.n_right) + i32s_bytes(t.leaf_id) + i32_bytes(
        t.next_leaf_id,
    )
}

/// The concatenated encodings of a sequence of trees.
pub open spec fn trees_bytes(ts: Seq<TreeModel>) -> Seq<u8>
    decreases ts.len(),
{
    if ts.len() == 0 {
        Seq::empty()
    } else {
        trees_bytes(ts.drop_last()) + tree_bytes(ts.last())
    }
}

/// The encoding of a forest: its tree count, then each tree.
pub open spec fn forest_bytes(ts: Seq<TreeModel>) -> Seq<u8> {
    u32_bytes(ts.len() as u32) + trees_bytes(ts)
}

/// A tree that the format represents exactly: arrays of one length that fits in a
/// `u32`, and features that fit in a `u32`.
pub open spec fn encodable(t: TreeModel) -> bool {
    &&& t.same_shape()
    &&& t.num_nodes() <= u32::MAX
    &&& forall|i: int| 0 <= i < t.feature.len() ==> #[trigger] t.feature[i] <= u32::MAX
}

/// A forest that the format represents exactly.
pub open spec fn encodable_forest(ts: Seq<TreeModel>) -> bool {
    &&& ts.len() <= u32::MAX
    &&& forall|k: int| 0 <= k < ts.len() ==> #[trigger] encodable(ts[k])
}

/// The abstract contents of a sequence of trees.
pub open spec fn models(trees: Seq<DecisionTree>) -> Seq<TreeModel> {
    trees.map_values(|t: DecisionTree| t@)
}

/// `a` is a prefix of `b`.
pub open spec fn is_prefix(a: Seq<u8>, b: Seq<u8>) -> bool {
    a.len() <= b.len() && b.subrange(0, a.len() as int) == a
}

/// The length of the tree encoding that starts at `p`, by the node count stored there.
pub open spec fn tree_len_at(bytes: Seq<u8>, p: int) -> int {
    8 + 44 * spec_u32_from_le_bytes(bytes.subrange(p, p + 4))
}

/// Where decoding a tree that starts at `p` stops when the buffer ends inside it:
/// after the last whole value that fits. The node count and features are 4-byte
/// values, thresholds and values 8-byte values, and the rest 4-byte values again.
pub open spec fn tree_failure_offset(bytes: Seq<u8>, p: int) -> int {
    let len = bytes.len() as int;
    if p + 4 > len {
        p
    } else {
        let c = spec_u32_from_le_bytes(bytes.subrange(p, p + 4)) as int;
        let s8 = p + 4 + 4 * c;
        let s4 = s8 + 16 * c;
        if len < s8 {
            p + 4 * ((len - p) / 4)
        } else if len < s4 {
            s8 + 8 * ((len - s8) / 8)
        } else {
            s4 + 4 * ((len - s4) / 4)
        }
    }
}

/// Stepping over 4-byte values from `a` towards `b`: starting `k` values later
/// stops at the same place.
proof fn lemma_steps4_shift(a: int, b: int, k: int)
    requires
        k >= 0,
        a + 4 * k <= b,
    ensures
        a + 4 * k + 4 * ((b - (a + 4 * k)) / 4) == a + 4 * ((b - a) / 4),
{
}

/// Stepping over 8-byte values from `a` towards `b`: starting `k` values later
/// stops at the same place.
proof fn lemma_steps8_shift(a: int, b: int, k: int)
    requires
        k >= 0,
        a + 8 * k <= b,
    ensures
        a + 8 * k + 8 * ((b - (a + 8 * k)) / 8) == a + 8 * ((b - a) / 8),
{
}

/// A whole tree encoding fits in `bytes` from position `p` on.
pub open spec fn tree_fits(bytes: Seq<u8>, p: int) -> bool {
    &&& 0 <= p
    &&& p + 4 <= bytes.len()
    &&& p + tree_len_at(bytes, p) <= bytes.len()
}

/// A tree encoding is eight bytes plus 44 per node, and starts with the node count.
pub proof fn lemma_tree_bytes_shape(t: TreeModel)
    requires
        encodable(t),
    ensures
        tree_bytes(t).len() == 8 + 44 * t.num_nodes(),
        tree_bytes(t).subrange(0, 4) == u32_bytes(t.num_nodes() as u32),
{
    lemma_u32_bytes(t.value.len() as u32);
    lemma_i32_bytes(t.next_leaf_id);
    lemma_usizes_as_u32_bytes_len(t.feature);
    lemma_u64s_bytes_len(t.threshold);
    lemma_u64s_bytes_len(t.value);
    lemma_i32s_bytes_len(t.left_child);
    lemma_i32s_bytes_len(t.right_child);
    lemma_i32s_bytes_len(t.parent);
    lemma_i32s_bytes_len(t.n_left);
    lemma_i32s_bytes_len(t.n_right);
    lemma_i32s_bytes_len(t.leaf_id);
    let rest = usizes_as_u32_bytes(t.feature) + u64s_bytes(t.threshold) + u64s_bytes(t.value)
        + i32s_bytes(t.left_child) + i32s_bytes(t.right_child) + i32s_bytes(t.parent)
        + i32s_bytes(t.n_left) + i32s_bytes(t.n_right) + i32s_bytes(t.leaf_id) + i32_bytes(
        t.next_leaf_id,
    );
    assert(tree_bytes(t) =~= u32_bytes(t.value.len() as u32) + rest);
    assert(tree_bytes(t).subrange(0, 4) =~= u32_bytes(t.num_nodes() as u32));
}

/// Two encodable trees with the same encoding are the same tree.
pub proof fn lemma_tree_bytes_injective(t1: TreeModel, t2: TreeModel)
    requires
        encodable(t1),
        encodable(t2),
        tree_bytes(t1) == tree_bytes(t2),
    ensures
        t1 == t2,
{
    lemma_tree_bytes_shape(t1);
    lemma_tree_bytes_shape(t2);
    assert(t1.num_nodes() == t2.num_nodes());
    let n = t1.num_nodes();
    lemma_u32_bytes(n as u32);
    lemma_i32_bytes(t1.next_leaf_id);
    lemma_i32_bytes(t2.next_leaf_id);
    lemma_usizes_as_u32_bytes_len(t1.feature);
    lemma_usizes_as_u32_bytes_len(t2.feature);
    lemma_u64s_bytes_len(t1.threshold);
    lemma_u64s_bytes_len(t2.threshold);
    lemma_u64s_bytes_len(t1.value);
    lemma_u64s_bytes_len(t2.value);
    lemma_i32s_bytes_len(t1.left_child);
    lemma_i32s_bytes_len(t2.left_child);
    lemma_i32s_bytes_len(t1.right_child);
    lemma_i32s_bytes_len(t2.right_child);
    lemma_i32s_bytes_len(t1.parent);
    lemma_i32s_bytes_len(t2.parent);
    lemma_i32s_bytes_len(t1.n_left);
    lemma_i32s_bytes_len(t2.n_left);
    lemma_i32s_bytes_len(t1.n_right);
    lemma_i32s_bytes_len(t2.n_right);
    lemma_i32s_bytes_len(t1.leaf_id);
    lemma_i32s_bytes_len(t2.leaf_id);
    let a0 = u32_bytes(t1.value.len() as u32);
    let b0 = u32_bytes(t2.value.len() as u32);
    let a1 = a0 + usizes_as_u32_bytes(t1.feature);
    let b1 = b0 + usizes_as_u32_bytes(t2.feature);
    let a2 = a1 + u64s_bytes(t1.threshold);
    let b2 = b1 + u64s_bytes(t2.threshold);
    let a3 = a2 + u64s_bytes(t1.value);
    let b3 = b2 + u64s_bytes(t2.value);
    let a4 = a3 + i32s_bytes(t1.left_child);
    let b4 = b3 + i32s_bytes(t2.left_child);
    let a5 = a4 + i32s_bytes(t1.right_child);
    let b5 = b4 + i32s_bytes(t2.right_child);
    let a6 = a5 + i32s_bytes(t1.parent);
    let b6 = b5 + i32s_bytes(t2.parent);
    let a7 = a6 + i32s_bytes(t1.n_left);
    let b7 = b6 + i32s_bytes(t2.n_left);
    let a8 = a7 + i32s_bytes(t1.n_right);
    let b8 = b7 + i32s_bytes(t2.n_right);
    let a9 = a8 + i32s_bytes(t1.leaf_id);
    let b9 = b8 + i32s_bytes(t2.leaf_id);
    assert(tree_bytes(t1) == a9 + i32_bytes(t1.next_leaf_id));
    assert(tree_bytes(t2) == b9 + i32_bytes(t2.next_leaf_id));
    lemma_concat_cancel(a9, i32_bytes(t1.next_leaf_id), b9, i32_bytes(t2.next_leaf_id));
    lemma_concat_cancel(a8, i32s_bytes(t1.leaf_id), b8, i32s_bytes(t2.leaf_id));
    lemma_concat_cancel(a7, i32s_bytes(t1.n_right), b7, i32s_bytes(t2.n_right));
    lemma_concat_cancel(a6, i32s_bytes(t1.n_left), b6, i32s_bytes(t2.n_left));
    lemma_concat_cancel(a5, i32s_bytes(t1.parent), b5, i32s_bytes(t2.parent));
    lemma_concat_cancel(a4, i32s_bytes(t1.right_child), b4, i32s_bytes(t2.right_child));
    lemma_concat_cancel(a3, i32s_bytes(t1.left_child), b3, i32s_bytes(t2.left_child));
    lemma_concat_cancel(a2, u64s_bytes(t1.value), b2, u64s_bytes(t2.value));
    lemma_concat_cancel(a1, u64s_bytes(t1.threshold), b1, u64s_bytes(t2.threshold));
    lemma_concat_cancel(a0, usizes_as_u32_bytes(t1.feature), b0, usizes_as_u32_bytes(t2.feature));
    lemma_i32s_bytes_injective(t1.leaf_id, t2.leaf_id);
    lemma_i32s_bytes_injective(t1.n_right, t2.n_right);
    lemma_i32s_bytes_injective(t1.n_left, t2.n_left);
    lemma_i32s_bytes_injective(t1.parent, t2.parent);
    lemma_i32s_bytes_injective(t1.right_child, t2.right_child);
    lemma_i32s_bytes_injective(t1.left_child, t2.left_child);
    lemma_u64s_bytes_injective(t1.value, t2.value);
    lemma_u64s_bytes_injective(t1.threshold, t2.threshold);
    lemma_usizes_as_u32_bytes_injective(t1.feature, t2.feature);
    assert(t1 =~= t2);
}

/// Reads `len` little-endian `u32` indices at `*offset` and advances past them.
fn read_features(bytes: &[u8], offset: &mut usize, len: usize) -> (r: Result<Vec<usize>, String>)
    requires
        *old(offset) <= bytes@.len(),
        bytes@.len() + 8 <= usize::MAX,
    ensures
        match r {
            Ok(values) => {
                &&& *old(offset) + 4 * len <= bytes@.len()
                &&& values@.len() == len
                &&& forall|i: int| 0 <= i < len ==> #[trigger] values@[i] <= u32::MAX
                &&& usizes_as_u32_bytes(values@) == bytes@.subrange(
                    *old(offset) as int,
                    *old(offset) + 4 * len,
                )
                &&& *final(offset) == *old(offset) + 4 * len
            },
            Err(e) => {
                &&& *old(offset) + 4 * len > bytes@.len()
                &&& e@ == unexpected_end_message()
                &&& *final(offset) == *old(offset) + 4 * ((bytes@.len() - *old(offset)) / 4)
            },
        },
{
    let start = *offset;
    let mut values: Vec<usize> = Vec::new();
    let mut i: usize = 0;
    while i < len
        invariant
            i <= len,
            bytes@.len() + 8 <= usize::MAX,
            start == *old(offset),
            start <= bytes@.len(),
            values@.len() == i,
            *offset == start + 4 * i,
            *offset <= bytes@.len(),
            forall|k: int| 0 <= k < i ==> #[trigger] values@[k] <= u32::MAX,
            usizes_as_u32_bytes(values@) == bytes@.subrange(start as int, *offset as int),
        decreases len - i,
    {
        let ghost before = *offset;
        let v = match read_u32(bytes, offset) {
            Ok(v) => v,
            Err(e) => {
                return Err(e);
            },
        };
        proof {
            let s = values@.push(v as usize);
            assert(s.drop_last() == values@);
            assert((v as usize) as u32 == v);
            assert(bytes@.subrange(start as int, *offset as int) =~= bytes@.subrange(
                start as int,
                before as int,
            ) + bytes@.subrange(before as int, *offset as int));
        }
        values.push(v as usize);
        i += 1;
    }
    Ok(values)
}

/// Reads `len` doubles' bit patterns at `*offset` and advances past them.
fn read_f64_bits_vec(bytes: &[u8], offset: &mut usize, len: usize) -> (r: Result<Vec<u64>, String>)
    requires
        *old(offset) <= bytes@.len(),
        bytes@.len() + 8 <= usize::MAX,
    ensures
        match r {
            Ok(values) => {
                &&& *old(offset) + 8 * len <= bytes@.len()
                &&& values@.len() == len
                &&& u64s_bytes(values@) == bytes@.subrange(*old(offset) as int, *old(offset) + 8 * len)
                &&& *final(offset) == *old(offset) + 8 * len
            },
            Err(e) => {
                &&& *old(offset) + 8 * len > bytes@.len()
                &&& e@ == unexpected_end_message()
                &&& *final(offset) == *old(offset) + 8 * ((bytes@.len() - *old(offset)) / 8)
            },
        },
{
    let start = *offset;
    let mut values: Vec<u64> = Vec::new();
    let mut i: usize = 0;
    while i < len
        invariant
            i <= len,
            bytes@.len() + 8 <= usize::MAX,
            start == *old(offset),
            start <= bytes@.len(),
            values@.len() == i,
            *offset == start + 8 * i,
            *offset <= bytes@.len(),
            u64s_bytes(values@) == bytes@.subrange(start as int, *offset as int),
        decreases len - i,
    {
        let ghost before = *offset;
        let v = match read_f64_bits(bytes, offset) {
            Ok(v) => v,
            Err(e) => {
                return Err(e);
            },
        };
        proof {
            let s = values@.push(v);
            assert(s.drop_last() == values@);
            assert(bytes@.subrange(start as int, *offset as int) =~= bytes@.subrange(
                start as int,
                before as int,
            ) + bytes@.subrange(before as int, *offset as int));
        }
        values.push(v);
        i += 1;
    }
    Ok(values)
}

/// Reads `len` `i32` values at `*offset`, which stands inside the buffer.
fn read_i32_run(bytes: &[u8], offset: &mut usize, len: usize) -> (r: Result<Vec<i32>, String>)
    requires
        *old(offset) <= bytes@.len(),
        bytes@.len() + 8 <= usize::MAX,
    ensures
        match r {
            Ok(values) => {
                &&& *old(offset) + 4 * len <= bytes@.len()
                &&& values@.len() == len
                &&& i32s_bytes(values@) == bytes@.subrange(*old(offset) as int, *old(offset) + 4 * len)
                &&& *final(offset) == *old(offset) + 4 * len
            },
            Err(e) => {
                &&& *old(offset) + 4 * len > bytes@.len()
                &&& e@ == unexpected_end_message()
                &&& *final(offset) == *old(offset) + 4 * ((bytes@.len() - *old(offset)) / 4)
            },
        },
{
    let ghost start = *offset;
    let r = read_i32_vec(bytes, offset, len);
    proof {
        if len == 0 {
            if r is Ok {
                assert(r->Ok_0@ =~= Seq::<i32>::empty());
                assert(bytes@.subrange(start as int, start as int) =~= Seq::<u8>::empty());
            }
        }
    }
    r
}

/// Decodes one tree at `*offset` and advances past it.
#[verifier::rlimit(60)]
fn deserialize_from(bytes: &[u8], offset: &mut usize) -> (r: Result<DecisionTree, String>)
    requires
        *old(offset) <= bytes@.len(),
        bytes@.len() + 8 <= usize::MAX,
    ensures
        r is Ok <==> tree_fits(bytes@, *old(offset) as int),
        r matches Ok(t) ==> {
            &&& encodable(t@)
            &&& *final(offset) == *old(offset) + tree_len_at(bytes@, *old(offset) as int)
            &&& *final(offset) <= bytes@.len()
            &&& *final(offset) == *old(offset) + tree_bytes(t@).len()
            &&& bytes@.subrange(*old(offset) as int, *final(offset) as int) == tree_bytes(t@)
        },
        r matches Err(e) ==> {
            &&& e@ == unexpected_end_message()
            &&& *final(offset) == tree_failure_offset(bytes@, *old(offset) as int)
            &&& *old(offset) <= *final(offset) <= bytes@.len()
        },
{
    let ghost p0 = *offset as int;
    let c = match read_u32(bytes, offset) {
        Ok(c) => c,
        Err(e) => return Err(e),
    };
    proof {
        lemma_u32_bytes(c);
        assert(spec_u32_from_le_bytes(bytes@.subrange(p0, p0 + 4)) == c);
    }
    let ghost len = bytes@.len() as int;
    let ghost s8 = p0 + 4 + 4 * c;
    let ghost s4 = s8 + 16 * c;
    let node_count = c as usize;
    let ghost p1 = *offset as int;
    let feature = match read_features(bytes, offset, node_count) {
        Ok(v) => v,
        Err(e) => {
            proof {
                lemma_steps4_shift(p0, len, 1);
                assert(*offset as int == tree_failure_offset(bytes@, p0));
            }
            return Err(e);
        },
    };
    let ghost p2 = *offset as int;
    let threshold = match read_f64_bits_vec(bytes, offset, node_count) {
        Ok(v) => v,
        Err(e) => {
            proof {
                assert(*offset as int == tree_failure_offset(bytes@, p0));
            }
            return Err(e);
        },
    };
    let ghost p3 = *offset as int;
    let value = match read_f64_bits_vec(bytes, offset, node_count) {
        Ok(v) => v,
        Err(e) => {
            proof {
                lemma_steps8_shift(s8, len, c as int);
                assert(*offset as int == tree_failure_offset(bytes@, p0));
            }
            return Err(e);
        },
    };
    let ghost p4 = *offset as int;
    let left_child = match read_i32_run(bytes, offset, node_count) {
        Ok(v) => v,
        Err(e) => {
            proof {
                assert(*offset as int == tree_failure_offset(bytes@, p0));
            }
            return Err(e);
        },
    };
    let ghost p5 = *offset as int;
    let right_child = match read_i32_run(bytes, offset, node_count) {
        Ok(v) => v,
        Err(e) => {
            proof {
                lemma_steps4_shift(s4, len, c as int);
                assert(*offset as int == tree_failure_offset(bytes@, p0));
            }
            return Err(e);
        },
    };
    let ghost p6 = *offset as int;
    let parent = match read_i32_run(bytes, offset, node_count) {
        Ok(v) => v,
        Err(e) => {
            proof {
                lemma_steps4_shift(s4, len, 2 * c);
                assert(*offset as int == tree_failure_offset(bytes@, p0));
            }
            return Err(e);
        },
    };
    let ghost p7 = *offset as int;
    let n_left = match read_i32_run(bytes, offset, node_count) {
        Ok(v) => v,
        Err(e) => {
            proof {
                lemma_steps4_shift(s4, len, 3 * c);
                assert(*offset as int == tree_failure_offset(bytes@, p0));
            }
            return Err(e);
        },
    };
    let ghost p8 = *offset as int;
    let n_right = match read_i32_run(bytes, offset, node_count) {
        Ok(v) => v,
        Err(e) => {
            proof {
                lemma_steps4_shift(s4, len, 4 * c);
                assert(*offset as int == tree_failure_offset(bytes@, p0));
            }
            return Err(e);
        },
    };
    let ghost p9 = *offset as int;
    let leaf_id = match read_i32_run(bytes, offset, node_count) {
        Ok(v) => v,
        Err(e) => {
            proof {
                lemma_steps4_shift(s4, len, 5 * c);
                assert(*offset as int == tree_failure_offset(bytes@, p0));
            }
            return Err(e);
        },
    };
    let ghost p10 = *offset as int;
    let next_leaf_id = match read_i32(bytes, offset) {
        Ok(v) => v,
        Err(e) => {
            proof {
                lemma_steps4_shift(s4, len, 6 * c);
                assert(*offset as int == tree_failure_offset(bytes@, p0));
            }
            return Err(e);
        },
    };
    let ghost p11 = *offset as int;
    let t = DecisionTree {
        feature,
        threshold,
        value,
        left_child,
        right_child,
        parent,
        n_left,
        n_right,
        leaf_id,
        next_leaf_id,
    };
    proof {
        let b = bytes@;
        assert(b.subrange(p0, p11) =~= b.subrange(p0, p1) + b.subrange(p1, p2) + b.subrange(p2, p3)
            + b.subrange(p3, p4) + b.subrange(p4, p5) + b.subrange(p5, p6) + b.subrange(p6, p7)
            + b.subrange(p7, p8) + b.subrange(p8, p9) + b.subrange(p9, p10) + b.subrange(
            p10,
            p11,
        ));
        assert((t@.value.len() as u32) == c);
        assert(b.subrange(p0, p11) == tree_bytes(t@));
        lemma_tree_bytes_shape(t@);
    }
    Ok(t)
}

/// Appends the encoding of `tree`.
#[verifier::rlimit(50)]
fn serialize_into(tree: &DecisionTree, buf: &mut Vec<u8>)
    ensures
        final(buf)@ == old(buf)@ + tree_bytes(tree@),
{
    let node_count = tree.value.len();
    write_u32(buf, node_count as u32);
    let ghost after_count = buf@;
    let mut i: usize = 0;
    while i < tree.feature.len()
        invariant
            i <= tree.feature@.len(),
            buf@ == after_count + usizes_as_u32_bytes(tree.feature@.take(i as int)),
        decreases tree.feature@.len() - i,
    {
        write_u32(buf, tree.feature[i] as u32);
        proof {
            let t = tree.feature@.take(i + 1);
            assert(t.drop_last() == tree.feature@.take(i as int));
        }
        i += 1;
    }
    assert(tree.feature@.take(i as int) == tree.feature@);
    let ghost after_feature = buf@;
    let mut i: usize = 0;
    while i < tree.threshold.len()
        invariant
            i <= tree.threshold@.len(),
            buf@ == after_feature + u64s_bytes(tree.threshold@.take(i as int)),
        decreases tree.threshold@.len() - i,
    {
        write_f64_bits(buf, tree.threshold[i]);
        proof {
            let t = tree.threshold@.take(i + 1);
            assert(t.drop_last() == tree.threshold@.take(i as int));
        }
        i += 1;
    }
    assert(tree.threshold@.take(i as int) == tree.threshold@);
    let ghost after_threshold = buf@;
    let mut i: usize = 0;
    while i < tree.value.len()
        invariant
            i <= tree.value@.len(),
            buf@ == after_threshold + u64s_bytes(tree.value@.take(i as int)),
        decreases tree.value@.len() - i,
    {
        write_f64_bits(buf, tree.value[i]);
        proof {
            let t = tree.value@.take(i + 1);
            assert(t.drop_last() == tree.value@.take(i as int));
        }
        i += 1;
    }
    assert(tree.value@.take(i as int) == tree.value@);
    write_i32_slice(buf, tree.left_child.as_slice());
    write_i32_slice(buf, tree.right_child.as_slice());
    write_i32_slice(buf, tree.parent.as_slice());
    write_i32_slice(buf, tree.n_left.as_slice());
    write_i32_slice(buf, tree.n_right.as_slice());
    write_i32_slice(buf, tree.leaf_id.as_slice());
    write_i32(buf, tree.next_leaf_id);
    assert(buf@ =~= old(buf)@ + tree_bytes(tree@));
}

/// Serializes an entire forest (one draw) into the compact binary format.
pub fn serialize_forest(trees: &[DecisionTree]) -> (bytes: Vec<u8>)
    ensures
        bytes@ == forest_bytes(models(trees@)),
{
    let mut buf: Vec<u8> = Vec::new();
    write_u32(&mut buf, trees.len() as u32);
    let ghost after_count = buf@;
    let mut i: usize = 0;
    while i < trees.len()
        invariant
            i <= trees@.len(),
            buf@ == after_count + trees_bytes(models(trees@).take(i as int)),
        decreases trees@.len() - i,
    {
        serialize_into(&trees[i], &mut buf);
        proof {
            let t = models(trees@).take(i + 1);
            assert(t.drop_last() == models(trees@).take(i as int));
            assert(t.last() == trees@[i as int]@);
        }
        i += 1;
    }
    assert(models(trees@).take(i as int) == models(trees@));
    assert(models(trees@).len() == trees@.len());
    buf
}

/// The position after `k` consecutive tree encodings that start at `p`, each as
/// long as the node count at its start says.
pub open spec fn walk(bytes: Seq<u8>, p: int, k: nat) -> int
    decreases k,
{
    if k == 0 {
        p
    } else {
        let q = walk(bytes, p, (k - 1) as nat);
        q + tree_len_at(bytes, q)
    }
}

/// The first `k` tree encodings from `p` on all fit in `bytes`.
pub open spec fn trees_fit(bytes: Seq<u8>, p: int, k: nat) -> bool {
    forall|j: nat| j < k ==> #[trigger] tree_fits(bytes, walk(bytes, p, j))
}

/// The encodings of the first `j` trees of a sequence begin the encoding of all of them.
proof fn lemma_trees_take_prefix(g: Seq<TreeModel>, j: int)
    requires
        0 <= j <= g.len(),
    ensures
        is_prefix(trees_bytes(g.take(j)), trees_bytes(g)),
    decreases g.len() - j,
{
    if j == g.len() {
        assert(g.take(j) =~= g);
        assert(trees_bytes(g).subrange(0, trees_bytes(g).len() as int) =~= trees_bytes(g));
    } else {
        lemma_trees_take_prefix(g, j + 1);
        let t = g.take(j + 1);
        assert(t.drop_last() =~= g.take(j));
        let a = trees_bytes(g.take(j));
        let b = trees_bytes(t);
        let c = trees_bytes(g);
        assert(b == a + tree_bytes(g[j]));
        let cb = c.subrange(0, b.len() as int);
        assert(cb == b);
        assert(c.subrange(0, a.len() as int) =~= cb.subrange(0, a.len() as int));
        assert(b.subrange(0, a.len() as int) =~= a);
    }
}

/// When the encoding of an encodable forest begins `bytes`, the tree count stands
/// in the first four bytes, every tree encoding found by walking the node counts
/// fits, and the walk ends where the forest encoding ends.
proof fn lemma_prefix_walk(g: Seq<TreeModel>, bytes: Seq<u8>, j: nat)
    requires
        encodable_forest(g),
        is_prefix(forest_bytes(g), bytes),
        j <= g.len(),
    ensures
        bytes.len() >= 4,
        spec_u32_from_le_bytes(bytes.subrange(0, 4)) == g.len(),
        walk(bytes, 4, j) == 4 + trees_bytes(g.take(j as int)).len(),
        trees_fit(bytes, 4, j),
        forall|k: nat|
            #![trigger g[k as int]]
            k < j ==> bytes.subrange(walk(bytes, 4, k), walk(bytes, 4, k + 1)) == tree_bytes(
                g[k as int],
            ),
    decreases j,
{
    let f = forest_bytes(g);
    lemma_u32_bytes(g.len() as u32);
    assert(bytes.subrange(0, 4) =~= f.subrange(0, 4));
    assert(f.subrange(0, 4) =~= u32_bytes(g.len() as u32));
    if j == 0 {
        assert(g.take(0) =~= Seq::<TreeModel>::empty());
    } else {
        let i = (j - 1) as nat;
        lemma_prefix_walk(g, bytes, i);
        lemma_trees_take_prefix(g, j as int);
        let a = trees_bytes(g.take(i as int));
        let t = tree_bytes(g[i as int]);
        assert(g.take(j as int).drop_last() =~= g.take(i as int));
        assert(trees_bytes(g.take(j as int)) == a + t);
        assert(encodable(g[i as int]));
        lemma_tree_bytes_shape(g[i as int]);
        let q: int = 4 + a.len() as int;
        assert(walk(bytes, 4, i) == q);
        let whole = trees_bytes(g);
        assert(whole.subrange(0, (a + t).len() as int) == a + t);
        assert(f.subrange(q, q + 4) =~= (a + t).subrange(a.len() as int, a.len() as int + 4));
        assert((a + t).subrange(a.len() as int, a.len() as int + 4) =~= t.subrange(0, 4));
        assert(bytes.subrange(q, q + 4) =~= f.subrange(q, q + 4));
        lemma_u32_bytes(g[i as int].num_nodes() as u32);
        assert(tree_len_at(bytes, q) == t.len());
        assert forall|k: nat| k < j implies #[trigger] tree_fits(bytes, walk(bytes, 4, k)) by {
            if k < i {
                assert(tree_fits(bytes, walk(bytes, 4, k)));
            }
        }
        assert(f.subrange(q, q + t.len()) =~= (a + t).subrange(a.len() as int, (a.len() + t.len()) as int));
        assert(bytes.subrange(q, q + t.len()) =~= f.subrange(q, q + t.len()));
        assert(bytes.subrange(q, q + t.len()) =~= t);
        assert forall|k: nat|
            #![trigger g[k as int]]
            k < j implies bytes.subrange(walk(bytes, 4, k), walk(bytes, 4, k + 1)) == tree_bytes(
                g[k as int],
            ) by {
            if k < i {
                assert(bytes.subrange(walk(bytes, 4, k), walk(bytes, 4, k + 1)) == tree_bytes(
                    g[k as int],
                ));
            }
        }
    }
}

/// Two encodable forests with the same encoding are the same forest: decoding gives
/// back exactly what encoding wrote.
pub proof fn lemma_forest_bytes_injective(g1: Seq<TreeModel>, g2: Seq<TreeModel>)
    requires
        encodable_forest(g1),
        encodable_forest(g2),
        forest_bytes(g1) == forest_bytes(g2),
    ensures
        g1 == g2,
{
    let b = forest_bytes(g1);
    assert(b.subrange(0, b.len() as int) =~= b);
    lemma_prefix_walk(g1, b, g1.len());
    lemma_prefix_walk(g2, b, g2.len());
    assert(g1.len() == g2.len());
    assert forall|k: int| 0 <= k < g1.len() implies g1[k] == g2[k] by {
        let kk = k as nat;
        assert(b.subrange(walk(b, 4, kk), walk(b, 4, kk + 1)) == tree_bytes(g1[kk as int]));
        assert(b.subrange(walk(b, 4, kk), walk(b, 4, kk + 1)) == tree_bytes(g2[kk as int]));
        assert(encodable(g1[k]));
        assert(encodable(g2[k]));
        lemma_tree_bytes_injective(g1[k], g2[k]);
    }
    assert(g1 =~= g2);
}

/// A buffer whose walk over tree encodings fails before the stored tree count is
/// reached does not begin with the encoding of any encodable forest.
proof fn lemma_no_forest_prefix(bytes: Seq<u8>, i: nat)
    requires
        bytes.len() >= 4,
        i < spec_u32_from_le_bytes(bytes.subrange(0, 4)),
        !tree_fits(bytes, walk(bytes, 4, i)),
    ensures
        forall|g: Seq<TreeModel>| encodable_forest(g) ==> !is_prefix(#[trigger] forest_bytes(g), bytes),
{
    assert forall|g: Seq<TreeModel>| encodable_forest(g) implies !is_prefix(
        #[trigger] forest_bytes(g),
        bytes,
    ) by {
        if is_prefix(forest_bytes(g), bytes) {
            lemma_prefix_walk(g, bytes, g.len());
            assert(tree_fits(bytes, walk(bytes, 4, i)));
        }
    }
}

/// The two failure messages differ.
proof fn lemma_messages_differ()
    ensures
        unexpected_end_message() != trailing_bytes_message(),
{
    reveal_strlit("Unexpected end of buffer while decoding.");
    reveal_strlit("Trailing bytes after decoding forest.");
    assert(unexpected_end_message().len() != trailing_bytes_message().len());
}

/// Every forest encoding has at least four bytes.
proof fn lemma_forest_bytes_len(g: Seq<TreeModel>)
    ensures
        forest_bytes(g).len() >= 4,
{
    lemma_u32_bytes(g.len() as u32);
}

/// Deserializes a forest (one draw) from the compact binary format.
///
/// Succeeds exactly when the bytes are the encoding of some encodable forest, and
/// then returns that forest. Otherwise fails with the "trailing bytes" message when
/// the bytes begin with such an encoding and continue past it, and with the
/// "unexpected end" message when they do not begin with one.
pub fn deserialize_forest(bytes: &[u8]) -> (r: Result<Vec<DecisionTree>, String>)
    requires
        bytes@.len() + 8 <= usize::MAX,
    ensures
        r is Ok <==> exists|g: Seq<TreeModel>| encodable_forest(g) && forest_bytes(g) == bytes@,
        r matches Ok(trees) ==> {
            &&& encodable_forest(models(trees@))
            &&& forest_bytes(models(trees@)) == bytes@
        },
        r matches Err(e) ==> {
            &&& e@ == trailing_bytes_message() || e@ == unexpected_end_message()
            &&& e@ == trailing_bytes_message() <==> exists|g: Seq<TreeModel>, k: int|
                encodable_forest(g) && 0 <= k < bytes@.len() && forest_bytes(g) == bytes@.take(k)
        },
{
    let mut offset: usize = 0;
    let tree_count = match read_u32(bytes, &mut offset) {
        Ok(c) => c,
        Err(e) => {
            proof {
                assert forall|g: Seq<TreeModel>| encodable_forest(g) implies forest_bytes(g)
                    != bytes@ by {
                    lemma_forest_bytes_len(g);
                }
                assert forall|g: Seq<TreeModel>, k: int|
                    encodable_forest(g) && 0 <= k < bytes@.len() implies forest_bytes(g)
                    != bytes@.take(k) by {
                    lemma_forest_bytes_len(g);
                }
            }
            proof {
                lemma_messages_differ();
            }
            return Err(e);
        },
    };
    proof {
        lemma_u32_bytes(tree_count);
        assert(spec_u32_from_le_bytes(bytes@.subrange(0, 4)) == tree_count);
    }
    let mut trees: Vec<DecisionTree> = Vec::new();
    let mut i: usize = 0;
    while i < tree_count as usize
        invariant
            bytes@.len() + 8 <= usize::MAX,
            bytes@.len() >= 4,
            spec_u32_from_le_bytes(bytes@.subrange(0, 4)) == tree_count,
            u32_bytes(tree_count) == bytes@.subrange(0, 4),
            i <= tree_count,
            offset == walk(bytes@, 4, i as nat),
            4 <= offset <= bytes@.len(),
            trees@.len() == i,
            forall|k: int| 0 <= k < i ==> #[trigger] encodable(trees@[k]@),
            trees_fit(bytes@, 4, i as nat),
            bytes@.subrange(4, offset as int) == trees_bytes(models(trees@)),
        decreases tree_count - i,
    {
        let ghost before = offset as int;
        let t = match deserialize_from(bytes, &mut offset) {
            Ok(t) => t,
            Err(e) => {
                proof {
                    lemma_no_forest_prefix(bytes@, i as nat);
                    assert forall|g: Seq<TreeModel>| encodable_forest(g) implies forest_bytes(g)
                        != bytes@ by {
                        assert(bytes@.subrange(0, bytes@.len() as int) =~= bytes@);
                        assert(!is_prefix(forest_bytes(g), bytes@));
                    }
                    assert forall|g: Seq<TreeModel>, k: int|
                        encodable_forest(g) && 0 <= k < bytes@.len() implies forest_bytes(g)
                        != bytes@.take(k) by {
                        assert(!is_prefix(forest_bytes(g), bytes@));
                        assert(bytes@.take(k) =~= bytes@.subrange(0, k));
                    }
                    lemma_messages_differ();
                }
                return Err(e);
            },
        };
        proof {
            lemma_tree_bytes_shape(t@);
            let ms = models(trees@.push(t));
            assert(ms.drop_last() =~= models(trees@));
            assert(ms.last() == t@);
            assert(bytes@.subrange(4, offset as int) =~= bytes@.subrange(4, before) + bytes@.subrange(
                before,
                offset as int,
            ));
            assert(walk(bytes@, 4, (i + 1) as nat) == offset);
            assert forall|j: nat| j < i + 1 implies #[trigger] tree_fits(
                bytes@,
                walk(bytes@, 4, j),
            ) by {
                if j < i {
                    assert(tree_fits(bytes@, walk(bytes@, 4, j)));
                }
            }
        }
        trees.push(t);
        i += 1;
    }
    let ghost g = models(trees@);
    proof {
        assert(g.len() == tree_count);
        assert forall|k: int| 0 <= k < g.len() implies #[trigger] encodable(g[k]) by {
            assert(encodable(trees@[k]@));
        }
        assert(bytes@.subrange(0, offset as int) =~= bytes@.subrange(0, 4) + bytes@.subrange(
            4,
            offset as int,
        ));
        assert(forest_bytes(g) == bytes@.subrange(0, offset as int));
    }
    if offset != bytes.len() {
        proof {
            assert(bytes@.take(offset as int) =~= bytes@.subrange(0, offset as int));
            assert forall|h: Seq<TreeModel>| encodable_forest(h) implies forest_bytes(h)
                != bytes@ by {
                if forest_bytes(h) == bytes@ {
                    assert(bytes@.subrange(0, bytes@.len() as int) =~= bytes@);
                    lemma_prefix_walk(h, bytes@, h.len());
                    lemma_trees_take_prefix(h, h.len() as int);
                    assert(h.take(h.len() as int) =~= h);
                }
            }
        }
        return Err("Trailing bytes after decoding forest.".to_string());
    }
    proof {
        assert(bytes@.subrange(0, offset as int) =~= bytes@);
    }
    Ok(trees)
}

} // verus!
