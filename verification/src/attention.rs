//! The shape of multi-head attention, and its causal mask.

use vstd::prelude::*;

use crate::scalar::Scalar;

verus! {

/// Attention configuration.
#[derive(Debug, Clone, Copy)]
pub struct AttentionConfig {
    /// Model dimension.
    pub d_model: usize,
    /// Number of query heads.
    pub n_heads: usize,
    /// Number of KV heads (for GQA). If None, uses n_heads (MHA).
    pub n_kv_heads: Option<usize>,
    /// Head dimension (usually d_model / n_heads).
    pub head_dim: usize,
    /// Whether to use bias on Q projection.
    pub q_bias: bool,
    /// Whether to use bias on K projection.
    pub k_bias: bool,
    /// Whether to use bias on V projection.
    pub v_bias: bool,
    /// Whether to use bias on O projection.
    pub o_bias: bool,
    /// Sliding window size (None for full attention).
    pub sliding_window: Option<usize>,
}

/// A linear projection: how many values it takes and gives, and whether it has a bias.
#[derive(Debug, Clone, Copy, PartialEq, Eq, Structural)]
pub struct Projection {
    pub d_input: usize,
    pub d_output: usize,
    pub bias: bool,
}

/// The projections of an attention layer, and its heads.
#[derive(Debug, Clone, Copy, PartialEq, Eq, Structural)]
pub struct AttentionShape {
    pub wq: Projection,
    pub wk: Projection,
    pub wv: Projection,
    pub wo: Projection,
    pub n_heads: usize,
    pub n_kv_heads: usize,
    pub head_dim: usize,
    pub sliding_window: Option<usize>,
}

impl AttentionConfig {
    /// A configuration without biases.
    pub fn new(
        d_model: usize,
        n_heads: usize,
        n_kv_heads: Option<usize>,
        head_dim: usize,
        sliding_window: Option<usize>,
    ) -> (r: Self)
        ensures
            r == (AttentionConfig {
                d_model,
                n_heads,
                n_kv_heads,
                head_dim,
                q_bias: false,
                k_bias: false,
                v_bias: false,
                o_bias: false,
                sliding_window,
            }),
    {
        AttentionConfig {
            d_model,
            n_heads,
            n_kv_heads,
            head_dim,
            q_bias: false,
            k_bias: false,
            v_bias: false,
            o_bias: false,
            sliding_window,
        }
    }

    /// The number of KV heads: as many as query heads, unless configured.
    pub open spec fn kv_heads(self) -> usize {
        match self.n_kv_heads {
            Some(n) => n,
            None => self.n_heads,
        }
    }

    /// The shape of the layer.
    pub fn shape(&self) -> (r: AttentionShape)
        requires
            self.n_heads * self.head_dim <= usize::MAX,
            self.kv_heads() * self.head_dim <= usize::MAX,
        ensures
            r.n_heads == self.n_heads,
            r.n_kv_heads == self.kv_heads(),
            r.head_dim == self.head_dim,
            r.sliding_window == self.sliding_window,
            r.wq.d_input == self.d_model,
            r.wq.d_output == self.n_heads * self.head_dim,
            r.wq.bias == self.q_bias,
            r.wk.d_input == self.d_model,
            r.wk.d_output == self.kv_heads() * self.head_dim,
            r.wk.bias == self.k_bias,
            r.wv.d_input == self.d_model,
            r.wv.d_output == self.kv_heads() * self.head_dim,
            r.wv.bias == self.v_bias,
            r.wo.d_input == self.n_heads * self.head_dim,
            r.wo.d_output == self.d_model,
            r.wo.bias == self.o_bias,
    {
        let n_kv_heads: usize = match self.n_kv_heads {
            Some(n) => n,
            None => self.n_heads,
        };
        assert(0 <= self.n_heads * self.head_dim) by (nonlinear_arith)
            requires
                0 <= self.n_heads,
                0 <= self.head_dim,
        ;
        assert(0 <= n_kv_heads * self.head_dim) by (nonlinear_arith)
            requires
                0 <= n_kv_heads,
                0 <= self.head_dim,
        ;
        let q_width: usize = self.n_heads * self.head_dim;
        let kv_width: usize = n_kv_heads * self.head_dim;
        AttentionShape {
            wq: Projection { d_input: self.d_model, d_output: q_width, bias: self.q_bias },
            wk: Projection { d_input: self.d_model, d_output: kv_width, bias: self.k_bias },
            wv: Projection { d_input: self.d_model, d_output: kv_width, bias: self.v_bias },
            wo: Projection { d_input: q_width, d_output: self.d_model, bias: self.o_bias },
            n_heads: self.n_heads,
            n_kv_heads,
            head_dim: self.head_dim,
            sliding_window: self.sliding_window,
        }
    }
}

impl AttentionShape {
    /// How often each KV head is repeated so that every query head has one; `None` where
    /// they are as many already.
    pub fn kv_repeat(&self) -> (r: Option<usize>)
        requires
            self.n_heads != self.n_kv_heads ==> self.n_kv_heads > 0,
        ensures
            r == (if self.n_heads == self.n_kv_heads {
                None::<usize>
            } else {
                Some((self.n_heads as int / self.n_kv_heads as int) as usize)
            }),
    {
        if self.n_heads == self.n_kv_heads {
            None
        } else {
            Some(self.n_heads / self.n_kv_heads)
        }
    }
}

/// Minus infinity.
pub open spec fn minus_infinity() -> Scalar {
    Scalar { bits: 0xff80_0000 }
}

/// The causal mask of a sequence, row by row: a position sees itself and the ones before
/// it.
pub open spec fn causal_mask(seq_len: int) -> Seq<Scalar> {
    Seq::new(
        (seq_len * seq_len) as nat,
        |i: int|
            if i % seq_len > i / seq_len {
                minus_infinity()
            } else {
                Scalar { bits: 0 }
            },
    )
}

proof fn lemma_mask_place(i: int, j: int, n: int)
    requires
        0 <= i < n,
        0 <= j < n,
    ensures
        0 <= i * n,
        i * n + j < n * n,
        (i * n + j) / n == i,
        (i * n + j) % n == j,
{
    assert(0 <= i * n && i * n + j < n * n) by (nonlinear_arith)
        requires
            0 <= i < n,
            0 <= j < n,
    ;
    vstd::arithmetic::div_mod::lemma_fundamental_div_mod_converse(i * n + j, n, i, j);
}

/// Create causal attention mask: `seq_len` rows of as many values, to be added to the
/// attention scores.
pub fn create_causal_mask(seq_len: usize) -> (r: Vec<Scalar>)
    requires
        seq_len * seq_len <= usize::MAX,
    ensures
        r@ == causal_mask(seq_len as int),
{
    let ghost n = seq_len as int;
    let mut mask: Vec<Scalar> = Vec::new();
    let mut i: usize = 0;
    assert(0 * n == 0);
    assert(mask@ =~= causal_mask(n).take(0));
    while i < seq_len
        invariant
            i <= seq_len,
            n == seq_len,
            mask@ == causal_mask(n).take(i * n),
        decreases seq_len - i,
    {
        let mut j: usize = 0;
        while j < seq_len
            invariant
                i < seq_len,
                j <= seq_len,
                n == seq_len,
                mask@ == causal_mask(n).take(i * n + j),
            decreases seq_len - j,
        {
            proof {
                lemma_mask_place(i as int, j as int, n);
            }
            let value = if j > i {
                Scalar::from_bits(0xff80_0000)
            } else {
                Scalar::from_bits(0)
            };
            mask.push(value);
            assert(mask@ =~= causal_mask(n).take(i * n + j + 1));
            j = j + 1;
        }
        assert(i * n + n == (i + 1) * n) by (nonlinear_arith);
        i = i + 1;
    }
    assert(causal_mask(n).take(i * n) =~= causal_mask(n));
    mask
}

/// A position sees another exactly if that is not behind it; what it does not see is masked
/// by minus infinity.
pub proof fn law_mask_is_causal(n: int, i: int, j: int)
    requires
        0 <= i < n,
        0 <= j < n,
    ensures
        j <= i ==> causal_mask(n)[i * n + j] == (Scalar { bits: 0 }),
        j > i ==> causal_mask(n)[i * n + j] == minus_infinity(),
        minus_infinity().is_infinite() && minus_infinity().negative(),
{
    lemma_mask_place(i, j, n);
}

} // verus!
