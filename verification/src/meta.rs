//! What a Llama-family model is like, and the tensors that follow from it.

use crate::digit::DigitLayout;
use crate::laws::transposing::law_transpose_permutes;
use crate::layout::{transposed, Dim, LayoutModel};
use crate::product::{
    lemma_product_head, lemma_product_one, lemma_product_three, lemma_product_two, product, widen,
};
use crate::storage::LlamaBlkStorage;
use crate::tensor::{new_allowed, new_bytes, new_tensor, Tensor, TensorModel};
use vstd::arithmetic::mul::*;
use vstd::prelude::*;

verus! {

/// The share of a model that one worker has: `len` of `total` slots, from `start` on.
#[derive(Clone, Copy, Debug)]
pub struct Distribution {
    pub start: usize,
    pub len: usize,
    pub total: usize,
}

impl Distribution {
    /// The first slot, the number of slots, and the number of all slots.
    pub fn info(&self) -> (r: [usize; 3])
        ensures
            r@ == seq![self.start, self.len, self.total],
    {
        let r: [usize; 3] = [self.start, self.len, self.total];
        assert(r@ =~= seq![self.start, self.len, self.total]);
        r
    }
}

/// What a weight matrix is wanted for.
#[derive(Clone, Copy, PartialEq, Eq, Hash, Debug)]
pub enum TensorUsage {
    Storage,
    Computation,
}

/// The parameters of a model. The two real numbers among them are held as the bits of
/// their single-precision representation.
#[derive(Debug)]
pub struct LlamaMeta {
    pub dt_embd: DigitLayout,
    pub dt_norm: DigitLayout,
    pub dt_linear: DigitLayout,
    pub attn_qkv_bias: bool,
    pub nblk: usize,
    pub nctx: usize,
    pub nvoc: usize,
    pub nh: usize,
    pub nkvh: usize,
    pub nexp: usize,
    pub nexp_use: usize,
    pub d: usize,
    pub dh: usize,
    pub di: usize,
    pub epsilon_bits: u32,
    pub theta_bits: u32,
}

impl Clone for LlamaMeta {
    fn clone(&self) -> (r: Self)
        ensures
            r == *self,
    {
        LlamaMeta {
            dt_embd: self.dt_embd,
            dt_norm: self.dt_norm,
            dt_linear: self.dt_linear,
            attn_qkv_bias: self.attn_qkv_bias,
            nblk: self.nblk,
            nctx: self.nctx,
            nvoc: self.nvoc,
            nh: self.nh,
            nkvh: self.nkvh,
            nexp: self.nexp,
            nexp_use: self.nexp_use,
            d: self.d,
            dh: self.dh,
            di: self.di,
            epsilon_bits: self.epsilon_bits,
            theta_bits: self.theta_bits,
        }
    }
}

/// A matrix with its two axes swapped.
pub open spec fn swapped(t: TensorModel<usize>) -> TensorModel<usize> {
    TensorModel {
        layout: LayoutModel { dims: seq![t.layout.dims[1], t.layout.dims[0]], ..t.layout },
        ..t
    }
}

/// Exchanging the axes of a matrix swaps its dimensions.
pub proof fn lemma_transpose_matrix(dims: Seq<Dim>, perm: Seq<usize>)
    requires
        dims.len() == 2,
        perm =~= seq![1usize, 0usize],
    ensures
        transposed(dims, perm) == seq![dims[1], dims[0]],
{
    assert(perm[0] == 1 && perm[1] == 0);
    law_transpose_permutes(dims, perm);
    assert(transposed(dims, perm) =~= seq![dims[1], dims[0]]);
}

/// A plan of one dimension, in numbers.
proof fn lemma_planned_vector(dt: DigitLayout, a: nat)
    ensures
        new_tensor(dt, seq![a]).layout.dims == seq![Dim { extent: a, stride: dt.size as int }],
        new_bytes(dt, seq![a]) == a * dt.size / (dt.group as int),
{
    let shape: Seq<nat> = seq![a];
    assert(shape.skip(1) =~= Seq::<nat>::empty());
    lemma_product_one(a);
    lemma_mul_basics(dt.size as int);
    assert(new_tensor(dt, shape).layout.dims =~= seq![Dim { extent: a, stride: dt.size as int }]);
}

/// A plan of two dimensions, in numbers.
proof fn lemma_planned_matrix(dt: DigitLayout, a: nat, b: nat)
    ensures
        new_tensor(dt, seq![a, b]).layout.dims == seq![
            Dim { extent: a, stride: b * dt.size },
            Dim { extent: b, stride: dt.size as int },
        ],
        new_bytes(dt, seq![a, b]) == a * b * dt.size / (dt.group as int),
{
    let shape: Seq<nat> = seq![a, b];
    assert(shape.skip(1) =~= seq![b]);
    assert(shape.skip(2) =~= Seq::<nat>::empty());
    lemma_product_one(b);
    lemma_product_two(a, b);
    lemma_mul_basics(dt.size as int);
    lemma_mul_is_commutative(dt.size as int, b as int);
    assert(new_tensor(dt, shape).layout.dims =~= seq![
        Dim { extent: a, stride: b * dt.size },
        Dim { extent: b, stride: dt.size as int },
    ]);
}

/// A plan of three dimensions, in numbers.
proof fn lemma_planned_stack(dt: DigitLayout, n: nat, a: nat, b: nat)
    ensures
        new_tensor(dt, seq![n, a, b]).layout.dims == seq![
            Dim { extent: n, stride: a * b * dt.size },
            Dim { extent: a, stride: b * dt.size },
            Dim { extent: b, stride: dt.size as int },
        ],
        new_bytes(dt, seq![n, a, b]) == n * a * b * dt.size / (dt.group as int),
{
    let shape: Seq<nat> = seq![n, a, b];
    assert(shape.skip(1) =~= seq![a, b]);
    assert(shape.skip(2) =~= seq![b]);
    assert(shape.skip(3) =~= Seq::<nat>::empty());
    lemma_product_one(b);
    lemma_product_two(a, b);
    lemma_product_three(n, a, b);
    lemma_mul_basics(dt.size as int);
    lemma_mul_is_commutative(dt.size as int, b as int);
    lemma_mul_is_commutative(dt.size as int, (a * b) as int);
    assert(new_tensor(dt, shape).layout.dims =~= seq![
        Dim { extent: n, stride: a * b * dt.size },
        Dim { extent: a, stride: b * dt.size },
        Dim { extent: b, stride: dt.size as int },
    ]);
}

/// A plan of five dimensions, in numbers.
proof fn lemma_planned_five(dt: DigitLayout, a: nat, b: nat, c: nat, d: nat, e: nat)
    ensures
        new_tensor(dt, seq![a, b, c, d, e]).layout.dims == seq![
            Dim { extent: a, stride: b * c * d * e * dt.size },
            Dim { extent: b, stride: c * d * e * dt.size },
            Dim { extent: c, stride: d * e * dt.size },
            Dim { extent: d, stride: e * dt.size },
            Dim { extent: e, stride: dt.size as int },
        ],
        product(seq![a, b, c, d, e]) == a * b * c * d * e,
        new_bytes(dt, seq![a, b, c, d, e]) == a * b * c * d * e * dt.size / (dt.group as int),
{
    let shape: Seq<nat> = seq![a, b, c, d, e];
    let four: Seq<nat> = seq![b, c, d, e];
    let (x, y, z, w, v, u): (int, int, int, int, int, int) = (
        a as int,
        b as int,
        c as int,
        d as int,
        e as int,
        dt.size as int,
    );
    assert(shape.skip(1) =~= four);
    assert(shape.skip(2) =~= seq![c, d, e]);
    assert(shape.skip(3) =~= seq![d, e]);
    assert(shape.skip(4) =~= seq![e]);
    assert(shape.skip(5) =~= Seq::<nat>::empty());
    assert(four.skip(1) =~= seq![c, d, e]);
    lemma_product_one(e);
    lemma_product_two(d, e);
    lemma_product_three(c, d, e);
    lemma_product_head(four);
    lemma_product_head(shape);
    assert(y * (z * w * v) == y * z * w * v) by (nonlinear_arith);
    assert(x * (y * z * w * v) == x * y * z * w * v) by (nonlinear_arith);
    lemma_mul_basics(u);
    lemma_mul_is_commutative(u, v);
    lemma_mul_is_commutative(u, w * v);
    lemma_mul_is_commutative(u, z * w * v);
    lemma_mul_is_commutative(u, y * z * w * v);
    assert(new_tensor(dt, shape).layout.dims =~= seq![
        Dim { extent: a, stride: b * c * d * e * dt.size },
        Dim { extent: b, stride: c * d * e * dt.size },
        Dim { extent: c, stride: d * e * dt.size },
        Dim { extent: d, stride: e * dt.size },
        Dim { extent: e, stride: dt.size as int },
    ]);
}

/// A plan that is allowed takes a number of bytes that can be counted.
proof fn lemma_planned_bytes(dt: DigitLayout, shape: Seq<nat>)
    requires
        new_allowed(dt, shape),
    ensures
        new_tensor(dt, shape).physical == new_bytes(dt, shape),
{
    let (n, s, g): (int, int, int) = (
        product(shape) as int,
        dt.size as int,
        dt.group as int,
    );
    assert(n * s >= 0) by (nonlinear_arith)
        requires
            n >= 0,
            s >= 0,
    ;
    assert(0 <= n * s / g <= n * s) by (nonlinear_arith)
        requires
            n * s >= 0,
            g > 0,
    ;
}

/// Rows for queries, keys and values, head by head and all at once.
proof fn lemma_head_rows(h: int, k: int, d: int)
    ensures
        (h + k + k) * d == h * d + k * d + k * d,
{
    lemma_mul_is_distributive_add_other_way(d, h + k, k);
    lemma_mul_is_distributive_add_other_way(d, h, k);
}

/// What can be dealt out evenly is dealt out in proportion to the slots.
proof fn lemma_even_share(whole: int, total: int, len: int)
    requires
        total > 0,
        whole % total == 0,
    ensures
        whole / total * len * total == whole * len,
{
    let q: int = whole / total;
    vstd::arithmetic::div_mod::lemma_fundamental_div_mod(whole, total);
    assert(q * len * total == (total * q) * len) by (nonlinear_arith);
}

/// The share of `whole` that `len` of `total` equal slots make up.
pub open spec fn share(whole: usize, dist: Distribution) -> int {
    whole as int / dist.total as int * dist.len
}

impl LlamaMeta {
    /// What distributing a model asks: the key-value heads and the inner dimension can be
    /// dealt out evenly, and the shares fit.
    pub open spec fn distribute_allowed(self, dist: Distribution) -> bool {
        &&& dist.total > 0
        &&& self.nkvh as int % dist.total as int == 0
        &&& self.di as int % dist.total as int == 0
        &&& share(self.nh, dist) <= usize::MAX
        &&& share(self.nkvh, dist) <= usize::MAX
        &&& share(self.di, dist) <= usize::MAX
    }

    /// The model that one worker runs: its share of the heads and of the inner dimension.
    pub open spec fn distributed(self, dist: Distribution) -> LlamaMeta {
        LlamaMeta {
            nh: share(self.nh, dist) as usize,
            nkvh: share(self.nkvh, dist) as usize,
            di: share(self.di, dist) as usize,
            ..self
        }
    }

    /// The model that one worker runs.
    pub fn distribute(&self, dist: Distribution) -> (r: Self)
        requires
            self.distribute_allowed(dist),
        ensures
            r == self.distributed(dist),
            r.nh == share(self.nh, dist),
            r.nkvh == share(self.nkvh, dist),
            r.di == share(self.di, dist),
            r.nh == self.nh as int / dist.total as int * dist.len,
            r.nkvh * dist.total == self.nkvh * dist.len,
            r.di * dist.total == self.di * dist.len,
            r.dt_embd == self.dt_embd,
            r.dt_norm == self.dt_norm,
            r.dt_linear == self.dt_linear,
            r.attn_qkv_bias == self.attn_qkv_bias,
            r.nblk == self.nblk,
            r.nctx == self.nctx,
            r.nvoc == self.nvoc,
            r.nexp == self.nexp,
            r.nexp_use == self.nexp_use,
            r.d == self.d,
            r.dh == self.dh,
            r.epsilon_bits == self.epsilon_bits,
            r.theta_bits == self.theta_bits,
    {
        let info: [usize; 3] = dist.info();
        let len: usize = info[1];
        let total: usize = info[2];
        proof {
            lemma_even_share(self.nkvh as int, dist.total as int, dist.len as int);
            lemma_even_share(self.di as int, dist.total as int, dist.len as int);
        }
        LlamaMeta {
            nh: self.nh / total * len,
            nkvh: self.nkvh / total * len,
            di: self.di / total * len,
            ..self.clone()
        }
    }

    /// Whether the feed-forward layers are mixtures of experts.
    pub fn is_moe(&self) -> (r: bool)
        ensures
            r == (self.nexp > 0),
    {
        self.nexp > 0
    }

    /// Rows of the matrix that makes queries, keys and values.
    pub open spec fn qkv_rows(self) -> int {
        (self.nh + self.nkvh + self.nkvh) * self.dh
    }

    /// Whether the rows of that matrix can be counted.
    pub open spec fn qkv_rows_fit(self) -> bool {
        &&& self.nh + self.nkvh + self.nkvh <= usize::MAX
        &&& self.qkv_rows() <= usize::MAX
    }

    /// The shape of a stored matrix: its columns are packed into groups.
    pub open spec fn stored_shape(self, row: int, col: int) -> Seq<nat> {
        seq![row as nat, (col / self.dt_linear.group as int) as nat]
    }

    /// The shape of a stored feed-forward matrix: one matrix per expert, at least one.
    pub open spec fn stored_ffn_shape(self, row: int, col: int) -> Seq<nat> {
        seq![
            if self.nexp == 0 {
                1
            } else {
                self.nexp as nat
            },
            row as nat,
            (col / self.dt_linear.group as int) as nat,
        ]
    }

    /// A weight matrix as it takes part in computation: in the type of the embeddings, and
    /// transposed.
    pub open spec fn computed_matrix(self, row: int, col: int) -> TensorModel<usize> {
        swapped(new_tensor(self.dt_embd, seq![row as nat, col as nat]))
    }

    /// What a matrix for computation asks: embeddings that are not packed, and sizes that
    /// fit.
    pub open spec fn computed_allowed(self, row: int, col: int) -> bool {
        &&& self.dt_embd.group == 1
        &&& new_allowed(self.dt_embd, seq![row as nat, col as nat])
    }

    /// A weight matrix of `row` rows and `col` columns. It is stored in the type of the
    /// matrices and takes part in computation in the type of the embeddings.
    pub open spec fn matrix(self, row: int, col: int, usage: TensorUsage) -> TensorModel<usize> {
        match usage {
            TensorUsage::Storage => new_tensor(self.dt_linear, self.stored_shape(row, col)),
            TensorUsage::Computation => self.computed_matrix(row, col),
        }
    }

    /// Whether such a matrix can be made.
    pub open spec fn matrix_allowed(self, row: int, col: int, usage: TensorUsage) -> bool {
        match usage {
            TensorUsage::Storage => new_allowed(self.dt_linear, self.stored_shape(row, col)),
            TensorUsage::Computation => self.computed_allowed(row, col),
        }
    }

    /// A feed-forward matrix of `row` rows and `col` columns. Stored, it holds all experts.
    pub open spec fn ffn_matrix(self, row: int, col: int, usage: TensorUsage) -> TensorModel<
        usize,
    > {
        match usage {
            TensorUsage::Storage => new_tensor(self.dt_linear, self.stored_ffn_shape(row, col)),
            TensorUsage::Computation => self.computed_matrix(row, col),
        }
    }

    /// Whether such a matrix can be made.
    pub open spec fn ffn_matrix_allowed(self, row: int, col: int, usage: TensorUsage) -> bool {
        match usage {
            TensorUsage::Storage => new_allowed(self.dt_linear, self.stored_ffn_shape(row, col)),
            TensorUsage::Computation => self.computed_allowed(row, col),
        }
    }

    /// The shape of a key-value cache for `buf` positions.
    pub open spec fn kv_cache_shape(self, buf: int) -> Seq<nat> {
        seq![buf as nat, self.nblk as nat, 2, self.nkvh as nat, self.dh as nat]
    }

    /// A matrix for computation, in the type of the embeddings.
    fn mat_computed(&self, row: usize, col: usize) -> (r: Tensor<usize>)
        requires
            self.computed_allowed(row as int, col as int),
        ensures
            r@ == self.computed_matrix(row as int, col as int),
            r@.dt == self.dt_embd,
            r@.layout.offset == 0,
            r@.layout.dims == (seq![
                (Dim { extent: col as nat, stride: self.dt_embd.size as int }),
                (Dim { extent: row as nat, stride: col * self.dt_embd.size }),
            ]),
            r@.physical == row * col * self.dt_embd.size,
    {
        let shape: [usize; 2] = [row, col];
        let perm: [usize; 2] = [1, 0];
        proof {
            assert(widen(shape@) =~= seq![row as nat, col as nat]);
            assert(perm@ =~= seq![1usize, 0usize]);
            lemma_transpose_matrix(
                new_tensor(self.dt_embd, seq![row as nat, col as nat]).layout.dims,
                perm@,
            );
            lemma_planned_matrix(self.dt_embd, row as nat, col as nat);
            lemma_planned_bytes(self.dt_embd, seq![row as nat, col as nat]);
        }
        Tensor::new(self.dt_embd, &shape).transpose(&perm)
    }

    /// A weight matrix: as it is stored, or as it takes part in computation.
    fn mat(&self, row: usize, col: usize, usage: TensorUsage) -> (r: Tensor<usize>)
        requires
            self.matrix_allowed(row as int, col as int, usage),
        ensures
            r@ == self.matrix(row as int, col as int, usage),
            r@.layout.offset == 0,
            usage is Storage ==> {
                &&& r@.dt == self.dt_linear
                &&& r@.layout.dims.len() == 2
                &&& r@.layout.dims[0].extent == row
                &&& r@.layout.dims[1].extent == (col as int / (self.dt_linear.group as int))
                &&& r@.layout.dims[0].stride == (col as int / (self.dt_linear.group as int))
                    * self.dt_linear.size
                &&& r@.layout.dims[1].stride == self.dt_linear.size
                &&& r@.physical == row * (col as int / (self.dt_linear.group as int))
                    * self.dt_linear.size / (self.dt_linear.group as int)
            },
            usage is Computation ==> {
                &&& r@.dt == self.dt_embd
                &&& r@.layout.dims.len() == 2
                &&& r@.layout.dims[0].extent == col
                &&& r@.layout.dims[1].extent == row
                &&& r@.layout.dims[0].stride == self.dt_embd.size
                &&& r@.layout.dims[1].stride == col * self.dt_embd.size
                &&& r@.physical == row * col * self.dt_embd.size
            },
    {
        match usage {
            TensorUsage::Storage => {
                let shape: [usize; 2] = [row, col / self.dt_linear.group_size()];
                proof {
                    let group: int = self.dt_linear.group as int;
                    assert(widen(shape@) =~= self.stored_shape(row as int, col as int));
                    lemma_planned_matrix(self.dt_linear, row as nat, (col as int / group) as nat);
                    lemma_planned_bytes(
                        self.dt_linear,
                        self.stored_shape(row as int, col as int),
                    );
                }
                Tensor::new(self.dt_linear, &shape)
            },
            TensorUsage::Computation => self.mat_computed(row, col),
        }
    }

    /// A feed-forward matrix: all experts as they are stored, or one of them as it takes
    /// part in computation.
    fn mat_ffn(&self, row: usize, col: usize, usage: TensorUsage) -> (r: Tensor<usize>)
        requires
            self.ffn_matrix_allowed(row as int, col as int, usage),
        ensures
            r@ == self.ffn_matrix(row as int, col as int, usage),
            r@.layout.offset == 0,
            usage is Storage ==> {
                &&& r@.dt == self.dt_linear
                &&& r@.layout.dims.len() == 3
                &&& r@.layout.dims[0].extent == (if self.nexp == 0 { 1 } else { self.nexp as nat })
                &&& r@.layout.dims[1].extent == row
                &&& r@.layout.dims[2].extent == (col as int / (self.dt_linear.group as int))
                &&& r@.layout.dims[0].stride == row * (col as int / (self.dt_linear.group as int))
                    * self.dt_linear.size
                &&& r@.layout.dims[1].stride == (col as int / (self.dt_linear.group as int))
                    * self.dt_linear.size
                &&& r@.layout.dims[2].stride == self.dt_linear.size
                &&& r@.physical == (if self.nexp == 0 { 1 } else { self.nexp as int }) * row
                    * (col as int / (self.dt_linear.group as int))
                    * self.dt_linear.size / (self.dt_linear.group as int)
            },
            usage is Computation ==> {
                &&& r@.dt == self.dt_embd
                &&& r@.layout.dims.len() == 2
                &&& r@.layout.dims[0].extent == col
                &&& r@.layout.dims[1].extent == row
                &&& r@.layout.dims[0].stride == self.dt_embd.size
                &&& r@.layout.dims[1].stride == col * self.dt_embd.size
                &&& r@.physical == row * col * self.dt_embd.size
            },
    {
        match usage {
            TensorUsage::Storage => {
                let nexp: usize = if self.nexp == 0 {
                    1
                } else {
                    self.nexp
                };
                let shape: [usize; 3] = [nexp, row, col / self.dt_linear.group_size()];
                proof {
                    let group: int = self.dt_linear.group as int;
                    assert(widen(shape@) =~= self.stored_ffn_shape(row as int, col as int));
                    lemma_planned_stack(
                        self.dt_linear,
                        nexp as nat,
                        row as nat,
                        (col as int / group) as nat,
                    );
                    lemma_planned_bytes(
                        self.dt_linear,
                        self.stored_ffn_shape(row as int, col as int),
                    );
                }
                Tensor::new(self.dt_linear, &shape)
            },
            TensorUsage::Computation => self.mat_computed(row, col),
        }
    }

    /// A key-value cache for `buf` positions.
    pub fn kv_cache(&self, buf: usize) -> (r: Tensor<usize>)
        requires
            new_allowed(self.dt_embd, self.kv_cache_shape(buf as int)),
        ensures
            r@ == new_tensor(self.dt_embd, self.kv_cache_shape(buf as int)),
            r@.dt == self.dt_embd,
            r@.layout.offset == 0,
            r@.layout.dims.len() == 5,
            r@.layout.dims[0].extent == buf,
            r@.layout.dims[1].extent == self.nblk,
            r@.layout.dims[2].extent == 2,
            r@.layout.dims[3].extent == self.nkvh,
            r@.layout.dims[4].extent == self.dh,
            r@.layout.dims[0].stride == self.nblk * 2 * self.nkvh * self.dh * self.dt_embd.size,
            r@.layout.dims[1].stride == 2 * self.nkvh * self.dh * self.dt_embd.size,
            r@.layout.dims[2].stride == self.nkvh * self.dh * self.dt_embd.size,
            r@.layout.dims[3].stride == self.dh * self.dt_embd.size,
            r@.layout.dims[4].stride == self.dt_embd.size,
            r@.physical == buf * self.nblk * 2 * self.nkvh * self.dh * self.dt_embd.size / (
            self.dt_embd.group as int),
    {
        let shape: [usize; 5] = [buf, self.nblk, 2, self.nkvh, self.dh];
        proof {
            assert(widen(shape@) =~= self.kv_cache_shape(buf as int));
            lemma_planned_five(
                self.dt_embd,
                buf as nat,
                self.nblk as nat,
                2,
                self.nkvh as nat,
                self.dh as nat,
            );
            lemma_planned_bytes(self.dt_embd, self.kv_cache_shape(buf as int));
        }
        Tensor::new(self.dt_embd, &shape)
    }

    /// How many positions of a key-value cache go into `size` bytes, but at most `max`.
    pub open spec fn kv_positions(self, max: int, size: int) -> int {
        let fitting: int = size / new_bytes(self.dt_embd, self.kv_cache_shape(1));
        if fitting < max {
            fitting
        } else {
            max
        }
    }

    /// A key-value cache of as many positions as go into `size` bytes, but at most `max`.
    pub fn kv_cache_in_size(&self, max: usize, size: usize) -> (r: Tensor<usize>)
        requires
            new_allowed(self.dt_embd, self.kv_cache_shape(1)),
            new_bytes(self.dt_embd, self.kv_cache_shape(1)) > 0,
            new_allowed(
                self.dt_embd,
                self.kv_cache_shape(self.kv_positions(max as int, size as int)),
            ),
        ensures
            r@ == new_tensor(
                self.dt_embd,
                self.kv_cache_shape(self.kv_positions(max as int, size as int)),
            ),
            r@.layout.dims[0].extent <= max,
            r@.layout.dims[0].extent * (self.nblk * 2 * self.nkvh * self.dh
                * self.dt_embd.size / (self.dt_embd.group as int)) <= size,
            r@.layout.dims[0].extent == max || (r@.layout.dims[0].extent + 1) * (self.nblk * 2
                * self.nkvh * self.dh * self.dt_embd.size / (self.dt_embd.group as int)) > size,
            r@.dt == self.dt_embd,
            r@.layout.offset == 0,
            r@.layout.dims.len() == 5,
            r@.layout.dims[1].extent == self.nblk,
            r@.layout.dims[2].extent == 2,
            r@.layout.dims[3].extent == self.nkvh,
            r@.layout.dims[4].extent == self.dh,
            r@.layout.dims[0].stride == self.nblk * 2 * self.nkvh * self.dh * self.dt_embd.size,
            r@.layout.dims[1].stride == 2 * self.nkvh * self.dh * self.dt_embd.size,
            r@.layout.dims[2].stride == self.nkvh * self.dh * self.dt_embd.size,
            r@.layout.dims[3].stride == self.dh * self.dt_embd.size,
            r@.layout.dims[4].stride == self.dt_embd.size,
            r@.physical == r@.layout.dims[0].extent * self.nblk * 2 * self.nkvh * self.dh
                * self.dt_embd.size / (
            self.dt_embd.group as int),
    {
        let one: usize = self.kv_cache(1).take();
        let fitting: usize = size / one;
        proof {
            lemma_mul_basics(self.nblk as int);
            let (q, u, v): (int, int, int) = (fitting as int, one as int, size as int);
            vstd::arithmetic::div_mod::lemma_fundamental_div_mod(v, u);
            vstd::arithmetic::div_mod::lemma_mod_bound(v, u);
            assert(q * u <= v < (q + 1) * u) by (nonlinear_arith)
                requires
                    v == u * q + v % u,
                    0 <= v % u < u,
            ;
            assert(max <= q ==> max * u <= q * u) by (nonlinear_arith)
                requires
                    u > 0,
            ;
        }
        let buf: usize = if fitting < max {
            fitting
        } else {
            max
        };
        self.kv_cache(buf)
    }

    /// The embeddings of `nt` tokens.
    pub fn embd(&self, nt: usize) -> (r: Tensor<usize>)
        requires
            new_allowed(self.dt_embd, seq![nt as nat, self.d as nat]),
        ensures
            r@ == new_tensor(self.dt_embd, seq![nt as nat, self.d as nat]),
            r@.dt == self.dt_embd,
            r@.layout.offset == 0,
            r@.layout.dims == (seq![
                (Dim { extent: nt as nat, stride: self.d * self.dt_embd.size }),
                (Dim { extent: self.d as nat, stride: self.dt_embd.size as int }),
            ]),
            r@.physical == nt * self.d * self.dt_embd.size / (self.dt_embd.group as int),
    {
        let shape: [usize; 2] = [nt, self.d];
        proof {
            assert(widen(shape@) =~= seq![nt as nat, self.d as nat]);
            lemma_planned_matrix(self.dt_embd, nt as nat, self.d as nat);
            lemma_planned_bytes(self.dt_embd, seq![nt as nat, self.d as nat]);
        }
        Tensor::new(self.dt_embd, &shape)
    }

    /// The scores of all words of the vocabulary for `nt` tokens.
    pub fn logits(&self, nt: usize) -> (r: Tensor<usize>)
        requires
            new_allowed(self.dt_embd, seq![nt as nat, self.nvoc as nat]),
        ensures
            r@ == new_tensor(self.dt_embd, seq![nt as nat, self.nvoc as nat]),
            r@.dt == self.dt_embd,
            r@.layout.offset == 0,
            r@.layout.dims == (seq![
                (Dim { extent: nt as nat, stride: self.nvoc * self.dt_embd.size }),
                (Dim { extent: self.nvoc as nat, stride: self.dt_embd.size as int }),
            ]),
            r@.physical == nt * self.nvoc * self.dt_embd.size / (self.dt_embd.group as int),
    {
        let shape: [usize; 2] = [nt, self.nvoc];
        proof {
            assert(widen(shape@) =~= seq![nt as nat, self.nvoc as nat]);
            lemma_planned_matrix(self.dt_embd, nt as nat, self.nvoc as nat);
            lemma_planned_bytes(self.dt_embd, seq![nt as nat, self.nvoc as nat]);
        }
        Tensor::new(self.dt_embd, &shape)
    }

    /// The weights of a normalisation.
    pub fn norm(&self) -> (r: Tensor<usize>)
        requires
            new_allowed(self.dt_norm, seq![self.d as nat]),
        ensures
            r@ == new_tensor(self.dt_norm, seq![self.d as nat]),
            r@.dt == self.dt_norm,
            r@.layout.offset == 0,
            r@.layout.dims == (seq![
                (Dim { extent: self.d as nat, stride: self.dt_norm.size as int }),
            ]),
            r@.physical == self.d * self.dt_norm.size / (self.dt_norm.group as int),
    {
        let shape: [usize; 1] = [self.d];
        proof {
            assert(widen(shape@) =~= seq![self.d as nat]);
            lemma_planned_vector(self.dt_norm, self.d as nat);
            lemma_planned_bytes(self.dt_norm, seq![self.d as nat]);
        }
        Tensor::new(self.dt_norm, &shape)
    }

    /// The embeddings of the whole vocabulary.
    pub fn token_embd(&self) -> (r: Tensor<usize>)
        requires
            new_allowed(self.dt_embd, seq![self.nvoc as nat, self.d as nat]),
        ensures
            r@ == new_tensor(self.dt_embd, seq![self.nvoc as nat, self.d as nat]),
            r@.dt == self.dt_embd,
            r@.layout.offset == 0,
            r@.layout.dims == (seq![
                (Dim { extent: self.nvoc as nat, stride: self.d * self.dt_embd.size }),
                (Dim { extent: self.d as nat, stride: self.dt_embd.size as int }),
            ]),
            r@.physical == self.nvoc * self.d * self.dt_embd.size / (self.dt_embd.group as int),
    {
        self.embd(self.nvoc)
    }

    /// The matrix that makes queries, keys and values.
    pub fn attn_qkv(&self, usage: TensorUsage) -> (r: Tensor<usize>)
        requires
            self.qkv_rows_fit(),
            self.matrix_allowed(self.qkv_rows(), self.d as int, usage),
        ensures
            r@ == self.matrix(self.qkv_rows(), self.d as int, usage),
            r@.layout.offset == 0,
            usage is Storage ==> {
                &&& r@.dt == self.dt_linear
                &&& r@.layout.dims.len() == 2
                &&& r@.layout.dims[0].extent == self.nh * self.dh + self.nkvh
                    * self.dh + self.nkvh * self.dh
                &&& r@.layout.dims[1].extent == (self.d as int / (self.dt_linear.group as int))
                &&& r@.layout.dims[0].stride == (self.d as int / (self.dt_linear.group as int))
                    * self.dt_linear.size
                &&& r@.layout.dims[1].stride == self.dt_linear.size
                &&& r@.physical == (self.nh * self.dh + self.nkvh * self.dh + self.nkvh * self.dh)
                    * (self.d as int / (self.dt_linear.group as int)) * self.dt_linear.size
                    / (self.dt_linear.group as int)
            },
            usage is Computation ==> {
                &&& r@.dt == self.dt_embd
                &&& r@.layout.dims.len() == 2
                &&& r@.layout.dims[0].extent == self.d
                &&& r@.layout.dims[1].extent == self.nh * self.dh + self.nkvh
                    * self.dh + self.nkvh * self.dh
                &&& r@.layout.dims[0].stride == self.dt_embd.size
                &&& r@.layout.dims[1].stride == self.d * self.dt_embd.size
                &&& r@.physical == (self.nh * self.dh + self.nkvh * self.dh + self.nkvh * self.dh)
                    * self.d * self.dt_embd.size
            },
    {
        proof {
            lemma_head_rows(self.nh as int, self.nkvh as int, self.dh as int);
        }
        self.mat((self.nh + self.nkvh + self.nkvh) * self.dh, self.d, usage)
    }

    /// The bias of queries, keys and values.
    pub fn attn_qkv_bias(&self, usage: TensorUsage) -> (r: Tensor<usize>)
        requires
            self.qkv_rows_fit(),
            self.matrix_allowed(self.qkv_rows(), 1, usage),
        ensures
            r@ == self.matrix(self.qkv_rows(), 1, usage),
            r@.layout.offset == 0,
            usage is Storage ==> {
                &&& r@.dt == self.dt_linear
                &&& r@.layout.dims.len() == 2
                &&& r@.layout.dims[0].extent == self.nh * self.dh + self.nkvh
                    * self.dh + self.nkvh * self.dh
                &&& r@.layout.dims[1].extent == (1int / (self.dt_linear.group as int))
                &&& r@.layout.dims[0].stride == (1int / (self.dt_linear.group as int))
                    * self.dt_linear.size
                &&& r@.layout.dims[1].stride == self.dt_linear.size
                &&& r@.physical == (self.nh * self.dh + self.nkvh * self.dh + self.nkvh * self.dh)
                    * (1int / (self.dt_linear.group as int)) * self.dt_linear.size
                    / (self.dt_linear.group as int)
            },
            usage is Computation ==> {
                &&& r@.dt == self.dt_embd
                &&& r@.layout.dims.len() == 2
                &&& r@.layout.dims[0].extent == 1
                &&& r@.layout.dims[1].extent == self.nh * self.dh + self.nkvh
                    * self.dh + self.nkvh * self.dh
                &&& r@.layout.dims[0].stride == self.dt_embd.size
                &&& r@.layout.dims[1].stride == 1 * self.dt_embd.size
                &&& r@.physical == (self.nh * self.dh + self.nkvh * self.dh + self.nkvh * self.dh)
                    * 1 * self.dt_embd.size
            },
    {
        proof {
            lemma_head_rows(self.nh as int, self.nkvh as int, self.dh as int);
        }
        self.mat((self.nh + self.nkvh + self.nkvh) * self.dh, 1, usage)
    }

    /// The matrix that attention ends with.
    pub fn attn_o(&self, usage: TensorUsage) -> (r: Tensor<usize>)
        requires
            self.nh * self.dh <= usize::MAX,
            self.matrix_allowed(self.d as int, self.nh * self.dh, usage),
        ensures
            r@ == self.matrix(self.d as int, self.nh * self.dh, usage),
            r@.layout.offset == 0,
            usage is Storage ==> {
                &&& r@.dt == self.dt_linear
                &&& r@.layout.dims.len() == 2
                &&& r@.layout.dims[0].extent == self.d
                &&& r@.layout.dims[1].extent ==
                    ((self.nh * self.dh) / (self.dt_linear.group as int))
                &&& r@.layout.dims[0].stride ==
                    ((self.nh * self.dh) / (self.dt_linear.group as int)) * self.dt_linear.size
                &&& r@.layout.dims[1].stride == self.dt_linear.size
                &&& r@.physical == self.d * ((self.nh * self.dh) / (self.dt_linear.group as int))
                    * self.dt_linear.size / (self.dt_linear.group as int)
            },
            usage is Computation ==> {
                &&& r@.dt == self.dt_embd
                &&& r@.layout.dims.len() == 2
                &&& r@.layout.dims[0].extent == self.nh * self.dh
                &&& r@.layout.dims[1].extent == self.d
                &&& r@.layout.dims[0].stride == self.dt_embd.size
                &&& r@.layout.dims[1].stride == (self.nh * self.dh) * self.dt_embd.size
                &&& r@.physical == self.d * (self.nh * self.dh) * self.dt_embd.size
            },
    {
        self.mat(self.d, self.nh * self.dh, usage)
    }

    /// The matrix that picks experts.
    pub fn ffn_gate_inp(&self, usage: TensorUsage) -> (r: Tensor<usize>)
        requires
            self.matrix_allowed(self.nexp as int, self.d as int, usage),
        ensures
            r@ == self.matrix(self.nexp as int, self.d as int, usage),
            r@.layout.offset == 0,
            usage is Storage ==> {
                &&& r@.dt == self.dt_linear
                &&& r@.layout.dims.len() == 2
                &&& r@.layout.dims[0].extent == self.nexp
                &&& r@.layout.dims[1].extent == (self.d as int / (self.dt_linear.group as int))
                &&& r@.layout.dims[0].stride == (self.d as int / (self.dt_linear.group as int))
                    * self.dt_linear.size
                &&& r@.layout.dims[1].stride == self.dt_linear.size
                &&& r@.physical == self.nexp * (self.d as int / (self.dt_linear.group as int))
                    * self.dt_linear.size / (self.dt_linear.group as int)
            },
            usage is Computation ==> {
                &&& r@.dt == self.dt_embd
                &&& r@.layout.dims.len() == 2
                &&& r@.layout.dims[0].extent == self.d
                &&& r@.layout.dims[1].extent == self.nexp
                &&& r@.layout.dims[0].stride == self.dt_embd.size
                &&& r@.layout.dims[1].stride == self.d * self.dt_embd.size
                &&& r@.physical == self.nexp * self.d * self.dt_embd.size
            },
    {
        self.mat(self.nexp, self.d, usage)
    }

    /// The matrix that a feed-forward layer begins with: gate and up projection.
    pub fn ffn_gate_up(&self, usage: TensorUsage) -> (r: Tensor<usize>)
        requires
            self.di + self.di <= usize::MAX,
            self.ffn_matrix_allowed(self.di + self.di, self.d as int, usage),
        ensures
            r@ == self.ffn_matrix(self.di + self.di, self.d as int, usage),
            r@.layout.offset == 0,
            usage is Storage ==> {
                &&& r@.dt == self.dt_linear
                &&& r@.layout.dims.len() == 3
                &&& r@.layout.dims[0].extent == (if self.nexp == 0 { 1 } else { self.nexp as nat })
                &&& r@.layout.dims[1].extent == self.di + self.di
                &&& r@.layout.dims[2].extent == (self.d as int / (self.dt_linear.group as int))
                &&& r@.layout.dims[0].stride == (self.di + self.di)
                    * (self.d as int / (self.dt_linear.group as int)) * self.dt_linear.size
                &&& r@.layout.dims[1].stride == (self.d as int / (self.dt_linear.group as int))
                    * self.dt_linear.size
                &&& r@.layout.dims[2].stride == self.dt_linear.size
                &&& r@.physical == (if self.nexp == 0 { 1 } else { self.nexp as int })
                    * (self.di + self.di) * (self.d as int / (self.dt_linear.group as int))
                    * self.dt_linear.size / (self.dt_linear.group as int)
            },
            usage is Computation ==> {
                &&& r@.dt == self.dt_embd
                &&& r@.layout.dims.len() == 2
                &&& r@.layout.dims[0].extent == self.d
                &&& r@.layout.dims[1].extent == self.di + self.di
                &&& r@.layout.dims[0].stride == self.dt_embd.size
                &&& r@.layout.dims[1].stride == self.d * self.dt_embd.size
                &&& r@.physical == (self.di + self.di) * self.d * self.dt_embd.size
            },
    {
        self.mat_ffn(self.di + self.di, self.d, usage)
    }

    /// The matrix that a feed-forward layer ends with.
    pub fn ffn_down(&self, usage: TensorUsage) -> (r: Tensor<usize>)
        requires
            self.ffn_matrix_allowed(self.d as int, self.di as int, usage),
        ensures
            r@ == self.ffn_matrix(self.d as int, self.di as int, usage),
            r@.layout.offset == 0,
            usage is Storage ==> {
                &&& r@.dt == self.dt_linear
                &&& r@.layout.dims.len() == 3
                &&& r@.layout.dims[0].extent == (if self.nexp == 0 { 1 } else { self.nexp as nat })
                &&& r@.layout.dims[1].extent == self.d
                &&& r@.layout.dims[2].extent == (self.di as int / (self.dt_linear.group as int))
                &&& r@.layout.dims[0].stride == self.d
                    * (self.di as int / (self.dt_linear.group as int)) * self.dt_linear.size
                &&& r@.layout.dims[1].stride == (self.di as int / (self.dt_linear.group as int))
                    * self.dt_linear.size
                &&& r@.layout.dims[2].stride == self.dt_linear.size
                &&& r@.physical == (if self.nexp == 0 { 1 } else { self.nexp as int }) * self.d
                    * (self.di as int / (self.dt_linear.group as int))
                    * self.dt_linear.size / (self.dt_linear.group as int)
            },
            usage is Computation ==> {
                &&& r@.dt == self.dt_embd
                &&& r@.layout.dims.len() == 2
                &&& r@.layout.dims[0].extent == self.di
                &&& r@.layout.dims[1].extent == self.d
                &&& r@.layout.dims[0].stride == self.dt_embd.size
                &&& r@.layout.dims[1].stride == self.di * self.dt_embd.size
                &&& r@.physical == self.d * self.di * self.dt_embd.size
            },
    {
        self.mat_ffn(self.d, self.di, usage)
    }

    /// The projection to the vocabulary: the embeddings, transposed.
    pub fn output(&self) -> (r: Tensor<usize>)
        requires
            new_allowed(self.dt_embd, seq![self.nvoc as nat, self.d as nat]),
        ensures
            r@ == swapped(new_tensor(self.dt_embd, seq![self.nvoc as nat, self.d as nat])),
            r@.dt == self.dt_embd,
            r@.layout.offset == 0,
            r@.layout.dims == (seq![
                (Dim { extent: self.d as nat, stride: self.dt_embd.size as int }),
                (Dim { extent: self.nvoc as nat, stride: self.d * self.dt_embd.size }),
            ]),
            r@.physical == self.nvoc * self.d * self.dt_embd.size / (self.dt_embd.group as int),
    {
        let perm: [usize; 2] = [1, 0];
        proof {
            assert(perm@ =~= seq![1usize, 0usize]);
            lemma_transpose_matrix(
                new_tensor(self.dt_embd, seq![self.nvoc as nat, self.d as nat]).layout.dims,
                perm@,
            );
        }
        self.token_embd().transpose(&perm)
    }

    /// Whether the sizes of all weights of a block can be computed.
    pub open spec fn blk_allowed(self) -> bool {
        &&& new_allowed(self.dt_norm, seq![self.d as nat])
        &&& self.qkv_rows_fit()
        &&& new_allowed(self.dt_linear, self.stored_shape(self.qkv_rows(), self.d as int))
        &&& self.attn_qkv_bias ==> new_allowed(
            self.dt_linear,
            self.stored_shape(self.qkv_rows(), 1),
        )
        &&& self.nh * self.dh <= usize::MAX
        &&& new_allowed(self.dt_linear, self.stored_shape(self.d as int, self.nh * self.dh))
        &&& new_allowed(self.dt_linear, self.stored_shape(self.nexp as int, self.d as int))
        &&& self.di + self.di <= usize::MAX
        &&& new_allowed(self.dt_linear, self.stored_ffn_shape(self.di + self.di, self.d as int))
        &&& new_allowed(self.dt_linear, self.stored_ffn_shape(self.d as int, self.di as int))
    }

    /// The number of bytes that each weight of a block is stored in.
    pub fn blk(&self) -> (r: LlamaBlkStorage<usize>)
        requires
            self.blk_allowed(),
        ensures
            r.attn_norm == new_bytes(self.dt_norm, seq![self.d as nat]),
            r.attn_qkv == new_bytes(
                self.dt_linear,
                self.stored_shape(self.qkv_rows(), self.d as int),
            ),
            r.attn_qkv_bias == (if self.attn_qkv_bias {
                new_bytes(self.dt_linear, self.stored_shape(self.qkv_rows(), 1))
            } else {
                0
            }),
            r.attn_o == new_bytes(
                self.dt_linear,
                self.stored_shape(self.d as int, self.nh * self.dh),
            ),
            r.ffn_norm == r.attn_norm,
            r.ffn_gate_inp == new_bytes(
                self.dt_linear,
                self.stored_shape(self.nexp as int, self.d as int),
            ),
            r.ffn_gate_up == new_bytes(
                self.dt_linear,
                self.stored_ffn_shape(self.di + self.di, self.d as int),
            ),
            r.ffn_down == new_bytes(
                self.dt_linear,
                self.stored_ffn_shape(self.d as int, self.di as int),
            ),
            r.attn_norm == self.d * self.dt_norm.size / (self.dt_norm.group as int),
            r.attn_qkv == (self.nh * self.dh + self.nkvh * self.dh + self.nkvh * self.dh)
                * (self.d as int / (self.dt_linear.group as int)) * self.dt_linear.size
                / (self.dt_linear.group as int),
            self.attn_qkv_bias ==> r.attn_qkv_bias ==
                (self.nh * self.dh + self.nkvh * self.dh + self.nkvh * self.dh)
                * (1int / (self.dt_linear.group as int)) * self.dt_linear.size
                / (self.dt_linear.group as int),
            !self.attn_qkv_bias ==> r.attn_qkv_bias == 0,
            r.attn_o == self.d * ((self.nh * self.dh) / (self.dt_linear.group as int))
                * self.dt_linear.size / (self.dt_linear.group as int),
            r.ffn_norm == self.d * self.dt_norm.size / (self.dt_norm.group as int),
            r.ffn_gate_inp == self.nexp * (self.d as int / (self.dt_linear.group as int))
                * self.dt_linear.size / (self.dt_linear.group as int),
            r.ffn_gate_up == (if self.nexp == 0 { 1 } else { self.nexp as int })
                * (self.di + self.di) * (self.d as int / (self.dt_linear.group as int))
                * self.dt_linear.size / (self.dt_linear.group as int),
            r.ffn_down == (if self.nexp == 0 { 1 } else { self.nexp as int }) * self.d
                * (self.di as int / (self.dt_linear.group as int)) * self.dt_linear.size
                / (self.dt_linear.group as int),
    {
        let norm: usize = self.norm().take();
        LlamaBlkStorage {
            attn_norm: norm,
            attn_qkv: self.attn_qkv(TensorUsage::Storage).take(),
            attn_qkv_bias: if self.attn_qkv_bias {
                self.attn_qkv_bias(TensorUsage::Storage).take()
            } else {
                0
            },
            attn_o: self.attn_o(TensorUsage::Storage).take(),
            ffn_norm: norm,
            ffn_gate_inp: self.ffn_gate_inp(TensorUsage::Storage).take(),
            ffn_gate_up: self.ffn_gate_up(TensorUsage::Storage).take(),
            ffn_down: self.ffn_down(TensorUsage::Storage).take(),
        }
    }
}

} // verus!
