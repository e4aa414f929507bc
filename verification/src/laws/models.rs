//! What holds of the sizes of a model, of its distribution, and of its weights.

use crate::layout::{extents, volume};
use crate::meta::{share, swapped, Distribution, LlamaMeta, TensorUsage};
use crate::product::{
    lemma_product_head, lemma_product_one, lemma_product_three, lemma_product_two, product,
};
use crate::storage::LlamaBlkWeight;
use crate::tensor::{new_bytes, new_tensor};
use crate::weights::{expert_bytes, expert_len, picks, Contiguous};
use vstd::arithmetic::div_mod::*;
use vstd::arithmetic::mul::*;
use vstd::prelude::*;

verus! {

/// A single worker that has all slots runs the whole model, where its heads can be dealt
/// out evenly.
pub proof fn law_all_slots_are_the_whole(meta: LlamaMeta, dist: Distribution)
    requires
        meta.distribute_allowed(dist),
        dist.len == dist.total,
        meta.nh as int % dist.total as int == 0,
    ensures
        meta.distributed(dist) == meta,
{
    lemma_fundamental_div_mod(meta.nh as int, dist.total as int);
    lemma_fundamental_div_mod(meta.nkvh as int, dist.total as int);
    lemma_fundamental_div_mod(meta.di as int, dist.total as int);
    lemma_mul_is_commutative(meta.nh as int / dist.total as int, dist.total as int);
    lemma_mul_is_commutative(meta.nkvh as int / dist.total as int, dist.total as int);
    lemma_mul_is_commutative(meta.di as int / dist.total as int, dist.total as int);
}

/// The shares of two workers add up to the share of one that has the slots of both.
pub proof fn law_shares_add_up(whole: usize, a: Distribution, b: Distribution, both: Distribution)
    requires
        a.total == both.total,
        b.total == both.total,
        a.len + b.len == both.len,
    ensures
        share(whole, a) + share(whole, b) == share(whole, both),
{
    lemma_mul_is_distributive_add(
        whole as int / both.total as int,
        a.len as int,
        b.len as int,
    );
}

/// Distributing a model changes the numbers of heads and the inner dimension, and nothing else.
pub proof fn law_distribute_keeps_the_rest(meta: LlamaMeta, dist: Distribution)
    requires
        meta.distribute_allowed(dist),
    ensures
        meta.distributed(dist).dt_embd == meta.dt_embd,
        meta.distributed(dist).dt_norm == meta.dt_norm,
        meta.distributed(dist).dt_linear == meta.dt_linear,
        meta.distributed(dist).attn_qkv_bias == meta.attn_qkv_bias,
        meta.distributed(dist).nblk == meta.nblk,
        meta.distributed(dist).nctx == meta.nctx,
        meta.distributed(dist).nvoc == meta.nvoc,
        meta.distributed(dist).nexp == meta.nexp,
        meta.distributed(dist).nexp_use == meta.nexp_use,
        meta.distributed(dist).d == meta.d,
        meta.distributed(dist).dh == meta.dh,
        meta.distributed(dist).epsilon_bits == meta.epsilon_bits,
        meta.distributed(dist).theta_bits == meta.theta_bits,
{
}

/// A model can be distributed wherever its key-value heads and its inner dimension can be
/// dealt out evenly and no worker has more slots than there are.
pub proof fn law_distribute_is_allowed(meta: LlamaMeta, dist: Distribution)
    requires
        0 < dist.total,
        dist.len <= dist.total,
        meta.nkvh as int % dist.total as int == 0,
        meta.di as int % dist.total as int == 0,
    ensures
        meta.distribute_allowed(dist),
{
    lemma_share_bound(meta.nh, dist);
    lemma_share_bound(meta.nkvh, dist);
    lemma_share_bound(meta.di, dist);
}

/// A share is no more than the whole.
proof fn lemma_share_bound(whole: usize, dist: Distribution)
    requires
        0 < dist.total,
        dist.len <= dist.total,
    ensures
        share(whole, dist) <= whole,
{
    let (w, t, l): (int, int, int) = (whole as int, dist.total as int, dist.len as int);
    let q: int = w / t;
    lemma_fundamental_div_mod(w, t);
    lemma_mod_bound(w, t);
    lemma_div_pos_is_pos(w, t);
    assert(q * l <= t * q) by (nonlinear_arith)
        requires
            q >= 0,
            0 <= l <= t,
    ;
}

/// A worker has key-value heads and inner dimensions in proportion to its slots, and as many
/// query heads as that many slots get when what cannot be dealt out evenly is left over.
pub proof fn law_distributed_in_proportion(meta: LlamaMeta, dist: Distribution)
    requires
        meta.distribute_allowed(dist),
    ensures
        meta.distributed(dist).nkvh * dist.total == meta.nkvh * dist.len,
        meta.distributed(dist).di * dist.total == meta.di * dist.len,
        meta.distributed(dist).nh * dist.total == (meta.nh - meta.nh as int % dist.total as int)
            * dist.len,
{
    lemma_share(meta.nkvh, dist);
    lemma_share(meta.di, dist);
    lemma_share_nonnegative(meta.nh, dist);
    lemma_share_nonnegative(meta.nkvh, dist);
    lemma_share_nonnegative(meta.di, dist);
    let (w, t, l): (int, int, int) = (meta.nh as int, dist.total as int, dist.len as int);
    let q: int = w / t;
    lemma_fundamental_div_mod(w, t);
    assert((q * l) * t == (t * q) * l) by (nonlinear_arith);
}

/// Two workers have as many heads, and as much of the inner dimension, as one that has the
/// slots of both.
pub proof fn law_distributed_add_up(
    meta: LlamaMeta,
    a: Distribution,
    b: Distribution,
    both: Distribution,
)
    requires
        meta.distribute_allowed(a),
        meta.distribute_allowed(b),
        meta.distribute_allowed(both),
        a.total == both.total,
        b.total == both.total,
        a.len + b.len == both.len,
    ensures
        meta.distributed(a).nh + meta.distributed(b).nh == meta.distributed(both).nh,
        meta.distributed(a).nkvh + meta.distributed(b).nkvh == meta.distributed(both).nkvh,
        meta.distributed(a).di + meta.distributed(b).di == meta.distributed(both).di,
{
    law_shares_add_up(meta.nh, a, b, both);
    law_shares_add_up(meta.nkvh, a, b, both);
    law_shares_add_up(meta.di, a, b, both);
    lemma_share_nonnegative(meta.nh, a);
    lemma_share_nonnegative(meta.nkvh, a);
    lemma_share_nonnegative(meta.di, a);
    lemma_share_nonnegative(meta.nh, b);
    lemma_share_nonnegative(meta.nkvh, b);
    lemma_share_nonnegative(meta.di, b);
}

/// A share of something that can be dealt out evenly is proportional to the slots.
proof fn lemma_share(whole: usize, dist: Distribution)
    requires
        dist.total > 0,
        whole as int % dist.total as int == 0,
    ensures
        share(whole, dist) * dist.total == whole * dist.len,
{
    let q: int = whole as int / dist.total as int;
    lemma_fundamental_div_mod(whole as int, dist.total as int);
    assert((q * dist.len) * dist.total == (dist.total * q) * dist.len) by (nonlinear_arith);
}

/// A worker has its share of the rows that make queries, keys and values, where the heads
/// can be dealt out evenly.
pub proof fn law_qkv_rows_are_shared(meta: LlamaMeta, dist: Distribution)
    requires
        meta.distribute_allowed(dist),
        meta.nh as int % dist.total as int == 0,
    ensures
        meta.distributed(dist).qkv_rows() * dist.total == meta.qkv_rows() * dist.len,
{
    lemma_share(meta.nh, dist);
    lemma_share(meta.nkvh, dist);
    let r: LlamaMeta = meta.distributed(dist);
    lemma_share_nonnegative(meta.nh, dist);
    lemma_share_nonnegative(meta.nkvh, dist);
    let (h, k, d): (int, int, int) = (r.nh as int, r.nkvh as int, meta.dh as int);
    let (t, l): (int, int) = (dist.total as int, dist.len as int);
    assert((h + k + k) * d * t == (h * t + k * t + k * t) * d) by (nonlinear_arith);
    let (hh, kk): (int, int) = (meta.nh as int, meta.nkvh as int);
    assert((hh * l + kk * l + kk * l) * d == (hh + kk + kk) * d * l) by (nonlinear_arith);
}

/// A share is not negative.
proof fn lemma_share_nonnegative(whole: usize, dist: Distribution)
    requires
        dist.total > 0,
    ensures
        share(whole, dist) >= 0,
{
    let q: int = whole as int / dist.total as int;
    lemma_div_pos_is_pos(whole as int, dist.total as int);
    assert(q * dist.len >= 0) by (nonlinear_arith)
        requires
            q >= 0,
    ;
}

/// Every query head has as many rows as a head has numbers, and every key-value head has them
/// twice, for its keys and for its values.
pub proof fn law_rows_of_heads(meta: LlamaMeta)
    ensures
        meta.qkv_rows() == meta.nh * meta.dh + meta.nkvh * meta.dh + meta.nkvh * meta.dh,
{
    lemma_mul_is_distributive_add_other_way(
        meta.dh as int,
        meta.nh + meta.nkvh,
        meta.nkvh as int,
    );
    lemma_mul_is_distributive_add_other_way(meta.dh as int, meta.nh as int, meta.nkvh as int);
}

/// One more query head adds the rows of one head; one more key-value head adds those of two.
pub proof fn law_one_more_head(meta: LlamaMeta, query: LlamaMeta, key_value: LlamaMeta)
    requires
        query.nh == meta.nh + 1,
        query.nkvh == meta.nkvh,
        query.dh == meta.dh,
        key_value.nh == meta.nh,
        key_value.nkvh == meta.nkvh + 1,
        key_value.dh == meta.dh,
    ensures
        query.qkv_rows() == meta.qkv_rows() + meta.dh,
        key_value.qkv_rows() == meta.qkv_rows() + 2 * meta.dh,
{
    let (h, k, d): (int, int, int) = (meta.nh as int, meta.nkvh as int, meta.dh as int);
    assert((h + 1 + k + k) * d == (h + k + k) * d + d) by (nonlinear_arith);
    assert((h + (k + 1) + (k + 1)) * d == (h + k + k) * d + 2 * d) by (nonlinear_arith);
}

/// The number of elements that a key-value cache has per position.
spec fn per_position(meta: LlamaMeta) -> nat {
    product(seq![meta.nblk as nat, 2, meta.nkvh as nat, meta.dh as nat])
}

/// A key-value cache has as many elements as it has per position, for each position.
proof fn lemma_kv_cache_volume(meta: LlamaMeta, buf: nat)
    ensures
        product(meta.kv_cache_shape(buf as int)) == buf * per_position(meta),
{
    let shape: Seq<nat> = meta.kv_cache_shape(buf as int);
    lemma_product_head(shape);
    assert(shape.skip(1) =~= seq![meta.nblk as nat, 2, meta.nkvh as nat, meta.dh as nat]);
}

/// A key-value cache has, for each position and block, a key and a value of as many numbers as
/// a head has, for each key-value head.
pub proof fn law_kv_cache_elements(meta: LlamaMeta, buf: nat)
    ensures
        product(meta.kv_cache_shape(buf as int)) == buf * meta.nblk * 2 * meta.nkvh * meta.dh,
        extents(new_tensor(meta.dt_embd, meta.kv_cache_shape(buf as int)).layout.dims).len() == 5,
        extents(new_tensor(meta.dt_embd, meta.kv_cache_shape(buf as int)).layout.dims)[0] == buf,
        extents(new_tensor(meta.dt_embd, meta.kv_cache_shape(buf as int)).layout.dims)[1]
            == meta.nblk,
        extents(new_tensor(meta.dt_embd, meta.kv_cache_shape(buf as int)).layout.dims)[2] == 2,
        extents(new_tensor(meta.dt_embd, meta.kv_cache_shape(buf as int)).layout.dims)[3]
            == meta.nkvh,
        extents(new_tensor(meta.dt_embd, meta.kv_cache_shape(buf as int)).layout.dims)[4]
            == meta.dh,
{
    let four: Seq<nat> = seq![meta.nblk as nat, 2, meta.nkvh as nat, meta.dh as nat];
    let (n, b, k, d): (int, int, int, int) = (
        buf as int,
        meta.nblk as int,
        meta.nkvh as int,
        meta.dh as int,
    );
    lemma_kv_cache_volume(meta, buf);
    lemma_product_head(four);
    assert(four.skip(1) =~= seq![2nat, meta.nkvh as nat, meta.dh as nat]);
    lemma_product_three(2, meta.nkvh as nat, meta.dh as nat);
    assert(n * (b * (2 * k * d)) == n * b * 2 * k * d) by (nonlinear_arith);
}

/// Where a position takes a whole number of bytes, a cache takes that number for each.
proof fn lemma_kv_cache_bytes(meta: LlamaMeta, buf: nat)
    requires
        meta.dt_embd.group > 0,
        product(meta.kv_cache_shape(1)) * meta.dt_embd.size % meta.dt_embd.group as int == 0,
    ensures
        new_bytes(meta.dt_embd, meta.kv_cache_shape(buf as int)) == buf * new_bytes(
            meta.dt_embd,
            meta.kv_cache_shape(1),
        ),
{
    let g: int = meta.dt_embd.group as int;
    let p: int = per_position(meta) as int;
    let s: int = meta.dt_embd.size as int;
    let n: int = buf as int;
    lemma_kv_cache_volume(meta, buf);
    lemma_kv_cache_volume(meta, 1);
    lemma_mul_basics(p);
    let q: int = p * s / g;
    lemma_fundamental_div_mod(p * s, g);
    assert((n * p) * s == g * (n * q)) by (nonlinear_arith)
        requires
            p * s == g * q,
    ;
    lemma_div_multiples_vanish(n * q, g);
}

/// A key-value cache that is made to fit a size does fit it, and no cache of more positions
/// would, up to the maximum. This is for caches whose positions take a whole number of
/// bytes.
pub proof fn law_kv_cache_fits(meta: LlamaMeta, max: nat, size: nat)
    requires
        meta.dt_embd.group > 0,
        product(meta.kv_cache_shape(1)) * meta.dt_embd.size % meta.dt_embd.group as int == 0,
        new_bytes(meta.dt_embd, meta.kv_cache_shape(1)) > 0,
    ensures
        ({
            let n: int = meta.kv_positions(max as int, size as int);
            &&& 0 <= n <= max
            &&& new_bytes(meta.dt_embd, meta.kv_cache_shape(n)) <= size
            &&& n < max ==> new_bytes(meta.dt_embd, meta.kv_cache_shape(n + 1)) > size
        }),
{
    let one: int = new_bytes(meta.dt_embd, meta.kv_cache_shape(1));
    let q: int = size as int / one;
    let n: int = meta.kv_positions(max as int, size as int);
    lemma_fundamental_div_mod(size as int, one);
    lemma_div_pos_is_pos(size as int, one);
    lemma_mod_bound(size as int, one);
    lemma_kv_cache_bytes(meta, n as nat);
    lemma_kv_cache_bytes(meta, (n + 1) as nat);
    assert(n * one <= one * q) by (nonlinear_arith)
        requires
            n <= q,
            one > 0,
    ;
    assert(n == q ==> (n + 1) * one == one * q + one) by (nonlinear_arith);
}

/// A model without experts has nothing to pick experts with.
pub proof fn law_no_experts_no_gate(meta: LlamaMeta)
    requires
        meta.nexp == 0,
        meta.dt_linear.group > 0,
    ensures
        new_bytes(meta.dt_linear, meta.stored_shape(meta.nexp as int, meta.d as int)) == 0,
{
    let col: nat = (meta.d as int / meta.dt_linear.group as int) as nat;
    lemma_product_two(0, col);
    lemma_mul_basics(col as int);
    lemma_mul_basics(meta.dt_linear.size as int);
    assert(0int / meta.dt_linear.group as int == 0) by (nonlinear_arith)
        requires
            meta.dt_linear.group > 0,
    ;
}

/// A stored matrix has all its rows, and each row is packed into groups.
pub proof fn law_stored_matrix(meta: LlamaMeta, row: nat, col: nat)
    requires
        meta.dt_linear.group > 0,
    ensures
        ({
            let t = meta.matrix(row as int, col as int, TensorUsage::Storage);
            let group: int = meta.dt_linear.group as int;
            &&& t.dt == meta.dt_linear
            &&& t.layout.offset == 0
            &&& t.layout.dims.len() == 2
            &&& t.layout.dims[0].extent == row
            &&& t.layout.dims[1].extent * group <= col < (t.layout.dims[1].extent + 1) * group
            &&& col as int % group == 0 ==> volume(t.layout.dims) * group == row * col
        }),
{
    let t = meta.matrix(row as int, col as int, TensorUsage::Storage);
    let g: int = meta.dt_linear.group as int;
    let packed: nat = (col as int / g) as nat;
    lemma_packed(col as int, g);
    assert(extents(t.layout.dims) =~= seq![row, packed]);
    lemma_product_two(row, packed);
    lemma_mul_is_associative(row as int, packed as int, g);
}

/// A stored feed-forward matrix has all rows of every expert, or of the one matrix that there
/// is without experts, and each row is packed into groups.
pub proof fn law_stored_ffn_matrix(meta: LlamaMeta, row: nat, col: nat)
    requires
        meta.dt_linear.group > 0,
    ensures
        ({
            let t = meta.ffn_matrix(row as int, col as int, TensorUsage::Storage);
            let group: int = meta.dt_linear.group as int;
            let held: int = t.layout.dims[0].extent as int;
            &&& t.dt == meta.dt_linear
            &&& t.layout.offset == 0
            &&& t.layout.dims.len() == 3
            &&& meta.nexp == 0 ==> held == 1
            &&& meta.nexp > 0 ==> held == meta.nexp
            &&& t.layout.dims[1].extent == row
            &&& t.layout.dims[2].extent * group <= col < (t.layout.dims[2].extent + 1) * group
            &&& col as int % group == 0 ==> volume(t.layout.dims) * group == held * row * col
        }),
{
    let t = meta.ffn_matrix(row as int, col as int, TensorUsage::Storage);
    let g: int = meta.dt_linear.group as int;
    let n: nat = t.layout.dims[0].extent;
    let packed: nat = (col as int / g) as nat;
    lemma_packed(col as int, g);
    assert(extents(t.layout.dims) =~= seq![n, row, packed]);
    lemma_product_three(n, row, packed);
    lemma_mul_is_associative((n * row) as int, packed as int, g);
}

/// Numbers that are packed into groups fill as many groups as they can.
proof fn lemma_packed(col: int, group: int)
    requires
        col >= 0,
        group > 0,
    ensures
        0 <= col / group,
        col / group * group <= col < (col / group + 1) * group,
        col % group == 0 ==> col / group * group == col,
{
    let q: int = col / group;
    lemma_fundamental_div_mod(col, group);
    lemma_mod_bound(col, group);
    lemma_div_pos_is_pos(col, group);
    assert(q * group == group * q && (q + 1) * group == group * q + group) by (nonlinear_arith);
}

/// A matrix for computation is in the type of the embeddings; its rows are the columns of the
/// weight, which lie one after the other, and its columns the rows.
pub proof fn law_computed_matrix(meta: LlamaMeta, row: nat, col: nat)
    ensures
        ({
            let t = meta.matrix(row as int, col as int, TensorUsage::Computation);
            &&& t == meta.ffn_matrix(row as int, col as int, TensorUsage::Computation)
            &&& t.dt == meta.dt_embd
            &&& t.layout.offset == 0
            &&& t.layout.dims.len() == 2
            &&& t.layout.dims[0].extent == col
            &&& t.layout.dims[1].extent == row
            &&& t.layout.dims[0].stride == meta.dt_embd.size
            &&& t.layout.dims[1].stride == col * meta.dt_embd.size
        }),
{
    let shape: Seq<nat> = seq![row, col];
    assert(shape.skip(1) =~= seq![col]);
    assert(shape.skip(2) =~= Seq::<nat>::empty());
    lemma_product_one(col);
    lemma_mul_basics(meta.dt_embd.size as int);
    lemma_mul_is_commutative(meta.dt_embd.size as int, col as int);
}

/// A matrix of weights that are not packed, and have the type of the embeddings, takes part
/// in computation as it is stored, but transposed.
pub proof fn law_unpacked_matrix(meta: LlamaMeta, row: int, col: int)
    requires
        meta.dt_linear.group == 1,
        meta.dt_embd == meta.dt_linear,
    ensures
        meta.matrix(row, col, TensorUsage::Computation) == swapped(
            meta.matrix(row, col, TensorUsage::Storage),
        ),
{
    assert(meta.stored_shape(row, col) =~= seq![row as nat, col as nat]);
}

/// The number of matrices that a stored feed-forward matrix holds: one per expert, at least
/// one.
pub open spec fn stored_experts(meta: LlamaMeta) -> nat {
    if meta.nexp == 0 {
        1
    } else {
        meta.nexp as nat
    }
}

/// Where the weights are not packed, a stored feed-forward matrix takes as many bytes as one
/// matrix of its type does, for each expert, or once without experts.
pub proof fn law_storage_holds_all_experts(meta: LlamaMeta, row: nat, col: nat)
    requires
        meta.dt_linear.group == 1,
    ensures
        new_bytes(meta.dt_linear, meta.stored_ffn_shape(row as int, col as int))
            == stored_experts(meta) * new_bytes(meta.dt_linear, seq![row, col]),
{
    let (n, r, c, s): (int, int, int, int) = (
        stored_experts(meta) as int,
        row as int,
        col as int,
        meta.dt_linear.size as int,
    );
    assert(meta.stored_ffn_shape(r, c) =~= seq![stored_experts(meta), row, col]);
    lemma_product_three(stored_experts(meta), row, col);
    lemma_product_two(row, col);
    assert((n * r * c) * s == n * (r * c * s)) by (nonlinear_arith);
}

/// Where the weights are not packed and have the type of the embeddings, storage holds every
/// expert, at least one, and a matrix for computation exactly one of them.
pub proof fn law_computation_takes_one_expert(meta: LlamaMeta, row: nat, col: nat)
    requires
        meta.dt_linear.group == 1,
        meta.dt_embd == meta.dt_linear,
        meta.ffn_matrix_allowed(row as int, col as int, TensorUsage::Storage),
        meta.ffn_matrix_allowed(row as int, col as int, TensorUsage::Computation),
    ensures
        meta.ffn_matrix(row as int, col as int, TensorUsage::Storage).physical == stored_experts(
            meta,
        ) * meta.ffn_matrix(row as int, col as int, TensorUsage::Computation).physical,
{
    law_storage_holds_all_experts(meta, row, col);
    assert(product(seq![row, col]) * meta.dt_linear.size >= 0) by (nonlinear_arith);
    assert(product(meta.stored_ffn_shape(row as int, col as int)) * meta.dt_linear.size >= 0)
        by (nonlinear_arith);
}

/// Where the weights of a mixture of experts are not packed, what one expert has of a stored
/// feed-forward matrix is as long as one matrix of that type. Where the embeddings have the
/// same type, this is the matrix that takes part in computation.
pub proof fn law_expert_has_a_matrix(meta: LlamaMeta, row: nat, col: nat)
    requires
        meta.nexp > 0,
        meta.dt_linear.group == 1,
    ensures
        expert_len(
            new_bytes(meta.dt_linear, meta.stored_ffn_shape(row as int, col as int)) as nat,
            meta.nexp,
        ) == new_bytes(meta.dt_linear, seq![row, col]),
{
    let one: int = new_bytes(meta.dt_linear, seq![row, col]);
    let n: int = meta.nexp as int;
    law_storage_holds_all_experts(meta, row, col);
    assert(product(seq![row, col]) * meta.dt_linear.size >= 0) by (nonlinear_arith);
    assert(n * one >= 0) by (nonlinear_arith)
        requires
            n >= 0,
            one >= 0,
    ;
    lemma_div_multiples_vanish(one, n);
}

/// Every expert can be loaded from a weight.
pub proof fn law_experts_are_there(len: nat, nexp: usize, iexp: int)
    requires
        0 <= iexp < nexp,
    ensures
        iexp * expert_len(len, nexp) + expert_len(len, nexp) <= len,
{
    let one: int = expert_len(len, nexp);
    let n: int = nexp as int;
    lemma_fundamental_div_mod(len as int, n);
    lemma_div_pos_is_pos(len as int, n);
    assert(iexp * one + one <= n * one) by (nonlinear_arith)
        requires
            iexp + 1 <= n,
            one >= 0,
    ;
}

/// The bytes of the first `n` experts, one after the other.
pub open spec fn experts_in_row(all: Seq<u8>, nexp: usize, n: int) -> Seq<u8>
    decreases n,
{
    if n <= 0 {
        Seq::empty()
    } else {
        experts_in_row(all, nexp, n - 1) + expert_bytes(all, nexp, n - 1)
    }
}

/// The first experts have the first bytes.
proof fn lemma_experts_in_row(all: Seq<u8>, nexp: usize, n: int)
    requires
        0 <= n <= nexp,
        nexp > 0,
    ensures
        0 <= n * expert_len(all.len(), nexp) <= all.len(),
        experts_in_row(all, nexp, n) == all.take(n * expert_len(all.len(), nexp)),
    decreases n,
{
    let one: int = expert_len(all.len(), nexp);
    lemma_div_pos_is_pos(all.len() as int, nexp as int);
    if n > 0 {
        lemma_experts_in_row(all, nexp, n - 1);
        law_experts_are_there(all.len(), nexp, n - 1);
        assert(n * one == (n - 1) * one + one) by (nonlinear_arith);
        assert(experts_in_row(all, nexp, n) =~= all.take(n * one));
    } else {
        lemma_mul_basics(one);
        assert(experts_in_row(all, nexp, n) =~= all.take(0));
    }
}

/// All experts together have the whole weight, each byte once, where the weight can be
/// dealt out evenly.
pub proof fn law_experts_make_up_the_weight(all: Seq<u8>, nexp: usize)
    requires
        nexp > 0,
        all.len() as int % nexp as int == 0,
    ensures
        experts_in_row(all, nexp, nexp as int) == all,
{
    lemma_experts_in_row(all, nexp, nexp as int);
    lemma_fundamental_div_mod(all.len() as int, nexp as int);
    assert(all.take(all.len() as int) =~= all);
}

/// A weight of a worker is something that the distribution gives for the parameters of the
/// model, the kind of weight, its bytes in the model, and the share of the worker, and nothing
/// else.
pub proof fn law_picks_what_is_handed_over<
    'w,
    F: Fn(&LlamaMeta, LlamaBlkWeight, &'w [u8], Distribution) -> Contiguous<'w>,
>(
    f: F,
    meta: &LlamaMeta,
    which: LlamaBlkWeight,
    data: &'w [u8],
    dist: Distribution,
    bytes: Seq<u8>,
)
    ensures
        picks(f, meta, which, data, dist, bytes) <==> exists|picked: Contiguous<'w>|
            #[trigger] call_ensures(f, (meta, which, data, dist), picked) && match picked {
                Contiguous::Borrowed(b) => bytes == b@,
                Contiguous::Owned(b) => bytes == b@,
            },
{
}

/// Where nothing is left out of a weight, what is loaded is what the model stores.
pub proof fn law_whole_weight_is_loaded<
    'w,
    F: Fn(&LlamaMeta, LlamaBlkWeight, &'w [u8], Distribution) -> Contiguous<'w>,
>(
    f: F,
    meta: &LlamaMeta,
    which: LlamaBlkWeight,
    data: &'w [u8],
    dist: Distribution,
    bytes: Seq<u8>,
)
    requires
        picks(f, meta, which, data, dist, bytes),
        forall|picked: Contiguous<'w>| #[trigger]
            call_ensures(f, (meta, which, data, dist), picked) ==> picked@ == data@,
    ensures
        bytes == data@,
{
}

} // verus!
