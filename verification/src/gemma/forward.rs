//! The passes over a prompt and over a canvas, as the kernels they launch in order.
use crate::gemma::config::Config;
use crate::kernels::tune::GroupPlan;
use vstd::prelude::*;

verus! {

/// Row tile for the small-row expert kernel.
pub const SMALL_GROUP_ROWS: usize = 4;

/// A buffer of activations.
#[derive(Clone, Copy, Debug, PartialEq, Eq, Structural)]
pub enum Place {
    H,
    Xn,
    Q,
    K,
    V,
    Q16,
    Attn,
    O,
    XFfn,
    XMoe,
    XRouter,
    Gu,
    G16,
    Mlp,
    Ids,
    Weights,
    Sorted,
    Offsets,
    Jobs,
    Egu,
    Eg16,
    Edown,
}

/// A quantized matrix of a layer.
#[derive(Clone, Copy, Debug, PartialEq, Eq, Structural)]
pub enum Weight {
    Wq,
    Wk,
    Wv,
    Wo,
    GateUp,
    Down,
    GateUpExps,
    DownExps,
}

/// Heads of a layer's queries and of its keys and values.
#[derive(Clone, Copy, Debug, PartialEq, Eq, Structural)]
pub struct QkvShape {
    pub heads: usize,
    pub kv_heads: usize,
    pub hd: usize,
}

impl Config {
    /// The heads of a layer.
    pub open spec fn heads_of(self, layer: int) -> QkvShape {
        QkvShape {
            heads: self.heads,
            kv_heads: self.kv_heads@[layer],
            hd: self.head_dim(layer),
        }
    }

    /// The heads of a layer.
    pub fn qkv_shape(&self, layer: usize) -> (r: QkvShape)
        requires
            self.supported(),
            layer < self.layers,
        ensures
            r == self.heads_of(layer as int),
    {
        QkvShape { heads: self.heads, kv_heads: self.kv_heads[layer], hd: self.hd(layer) }
    }
}

/// One kernel of a forward pass over `rows` tokens, or over `routes` pairs of a token and an
/// expert.
#[derive(Clone, Copy, Debug, PartialEq, Eq, Structural)]
pub enum Launch {
    /// Token embeddings, with a signal of the previous step or without; `scaled` rows carry the
    /// prompt's scale.
    Embed { rows: usize, scaled: usize, conditioned: bool },
    /// Rows that are embedded already.
    EmbedRows { rows: usize },
    Product { from: Place, rows: usize, layer: usize, weight: Weight, to: Place, row_invariant: bool },
    /// Normalizes and rotates queries and keys, and writes the caches at `pos`.
    Qkv {
        layer: usize,
        shape: QkvShape,
        values: Place,
        full_rope: bool,
        rows: usize,
        pos: usize,
    },
    /// An image `block` attends to all of itself.
    Attention {
        layer: usize,
        rows: usize,
        pos: usize,
        keys: usize,
        prompt: usize,
        block: Option<usize>,
    },
    PostAttention { layer: usize, rows: usize },
    Geglu { from: Place, to: Place, rows: usize, width: usize },
    Route { layer: usize, rows: usize },
    Group { routes: usize, tile: usize },
    /// Rows `route / in_div` of `from` by each route's expert; `tile` rows at once, and `columns`
    /// columns, none for the small-row kernel.
    Experts {
        from: Place,
        layer: usize,
        weight: Weight,
        to: Place,
        routes: usize,
        in_div: usize,
        max_jobs: usize,
        tile: usize,
        columns: Option<usize>,
    },
    /// Adds the experts to the residual; `next` is the layer whose norm follows, none for the
    /// output's.
    PostFfn { layer: usize, next: Option<usize>, prompt_scale: bool, rows: usize },
}

/// Launch plans of a layer's expert products: both share one grouping, hence one row tile (the
/// gate/up plan's).
#[derive(Clone, Copy, Debug, PartialEq, Eq, Structural)]
pub struct LayerPlan {
    pub up: GroupPlan,
    pub down_columns: usize,
    /// The layer has values of its own; else its keys serve.
    pub has_values: bool,
}

/// The rows of one forward.
#[derive(Clone, Copy, Debug, PartialEq, Eq, Structural)]
pub struct Pass {
    pub rows: usize,
    /// Absolute position of the first row.
    pub pos: usize,
    /// Prompt length for visibility.
    pub prompt: usize,
    /// Decoder embeddings, scalars and bidirectional visibility.
    pub canvas: bool,
    /// Rows of an image, embedded already.
    pub image: bool,
    /// A signal of the previous step is added.
    pub conditioned: bool,
}

impl Pass {
    /// Pairs of a token and an expert.
    pub open spec fn routes(self, cfg: Config) -> nat {
        (self.rows * cfg.top_k) as nat
    }

    /// Few rows per expert, which only a canvas may use: the rows of a prompt must not depend on
    /// how it was cut into passes.
    pub open spec fn small(self, cfg: Config) -> bool {
        self.canvas && self.routes(cfg) < 2 * cfg.experts
    }

    /// Rows of a group of one expert.
    pub open spec fn tile(self, cfg: Config, plan: LayerPlan) -> nat {
        if self.small(cfg) {
            SMALL_GROUP_ROWS as nat
        } else {
            plan.up.bm as nat
        }
    }

    /// The most groups: whole ones, and one more for each expert.
    pub open spec fn max_jobs(self, cfg: Config, plan: LayerPlan) -> nat {
        let tile = self.tile(cfg, plan) as int;
        ((self.routes(cfg) + tile - 1) / tile + cfg.experts) as nat
    }
}

/// The product of an expert matrix.
pub open spec fn experts_launch(
    cfg: Config,
    pass: Pass,
    plan: LayerPlan,
    layer: usize,
    weight: Weight,
) -> Launch {
    let up = weight is GateUpExps;
    Launch::Experts {
        from: if up {
            Place::XMoe
        } else {
            Place::Eg16
        },
        layer,
        weight,
        to: if up {
            Place::Egu
        } else {
            Place::Edown
        },
        routes: pass.routes(cfg) as usize,
        in_div: if up {
            cfg.top_k
        } else {
            1
        },
        max_jobs: pass.max_jobs(cfg, plan) as usize,
        tile: pass.tile(cfg, plan) as usize,
        columns: if pass.small(cfg) {
            None
        } else if up {
            Some(plan.up.bn)
        } else {
            Some(plan.down_columns)
        },
    }
}

/// A dense product of layer `l`.
pub open spec fn dense_launch(pass: Pass, l: usize, from: Place, weight: Weight, to: Place) -> Launch {
    Launch::Product { from, rows: pass.rows, layer: l, weight, to, row_invariant: !pass.canvas }
}

/// Queries, keys and values of a layer, and attention over the cache.
pub open spec fn attention_launches(cfg: Config, pass: Pass, plan: LayerPlan, l: usize) -> Seq<
    Launch,
> {
    seq![
        dense_launch(pass, l, Place::Xn, Weight::Wq, Place::Q),
        dense_launch(pass, l, Place::Xn, Weight::Wk, Place::K),
    ] + (if plan.has_values {
        seq![dense_launch(pass, l, Place::Xn, Weight::Wv, Place::V)]
    } else {
        Seq::empty()
    }) + seq![
        Launch::Qkv {
            layer: l,
            shape: cfg.heads_of(l as int),
            values: if plan.has_values {
                Place::V
            } else {
                Place::K
            },
            full_rope: !cfg.swa@[l as int],
            rows: pass.rows,
            pos: pass.pos,
        },
        Launch::Attention {
            layer: l,
            rows: pass.rows,
            pos: pass.pos,
            keys: (pass.pos + pass.rows) as usize,
            prompt: pass.prompt,
            block: if pass.image {
                Some(pass.pos)
            } else {
                None
            },
        },
        dense_launch(pass, l, Place::Attn, Weight::Wo, Place::O),
        Launch::PostAttention { layer: l, rows: pass.rows },
    ]
}

/// The shared expert and the routed experts of a layer.
pub open spec fn expert_launches(cfg: Config, pass: Pass, plan: LayerPlan, l: usize) -> Seq<
    Launch,
> {
    seq![
        dense_launch(pass, l, Place::XFfn, Weight::GateUp, Place::Gu),
        Launch::Geglu { from: Place::Gu, to: Place::G16, rows: pass.rows, width: cfg.ff },
        dense_launch(pass, l, Place::G16, Weight::Down, Place::Mlp),
        Launch::Route { layer: l, rows: pass.rows },
        Launch::Group {
            routes: pass.routes(cfg) as usize,
            tile: pass.tile(cfg, plan) as usize,
        },
        experts_launch(cfg, pass, plan, l, Weight::GateUpExps),
        Launch::Geglu {
            from: Place::Egu,
            to: Place::Eg16,
            rows: pass.routes(cfg) as usize,
            width: cfg.ff_exp,
        },
        experts_launch(cfg, pass, plan, l, Weight::DownExps),
        Launch::PostFfn {
            layer: l,
            next: if l + 1 < cfg.layers {
                Some((l + 1) as usize)
            } else {
                None
            },
            prompt_scale: !pass.canvas,
            rows: pass.rows,
        },
    ]
}

/// The embedding of the rows and the first `n` layers.
pub open spec fn launches(cfg: Config, pass: Pass, plans: Seq<LayerPlan>, n: nat) -> Seq<Launch>
    decreases n,
{
    if n == 0 {
        seq![
            if pass.image {
                Launch::EmbedRows { rows: pass.rows }
            } else {
                Launch::Embed {
                    rows: pass.rows,
                    scaled: if pass.canvas {
                        0
                    } else {
                        pass.rows
                    },
                    conditioned: pass.conditioned,
                }
            },
        ]
    } else {
        let l = (n - 1) as usize;
        launches(cfg, pass, plans, (n - 1) as nat) + attention_launches(
            cfg,
            pass,
            plans[n - 1],
            l,
        ) + expert_launches(cfg, pass, plans[n - 1], l)
    }
}

// ---------------------------------------------------------------------------------------------
// Buffers
// ---------------------------------------------------------------------------------------------

/// The widest keys of the first `n` layers.
pub open spec fn widest_keys(cfg: Config, n: nat) -> nat
    decreases n,
{
    if n == 0 {
        0
    } else {
        let w = (cfg.kv_heads@[n - 1] * cfg.head_dim(n - 1)) as nat;
        if w > widest_keys(cfg, (n - 1) as nat) {
            w
        } else {
            widest_keys(cfg, (n - 1) as nat)
        }
    }
}

/// The widest queries.
pub open spec fn widest_queries(cfg: Config) -> nat {
    (cfg.heads * if cfg.hd_full >= cfg.hd_swa {
        cfg.hd_full
    } else {
        cfg.hd_swa
    }) as nat
}

/// The elements of an activation buffer for `rows` tokens.
pub open spec fn capacity(cfg: Config, rows: nat, place: Place) -> nat {
    let routes = (rows * cfg.top_k) as nat;
    match place {
        Place::H
        | Place::Xn
        | Place::O
        | Place::XFfn
        | Place::XMoe
        | Place::XRouter
        | Place::Mlp => (rows * cfg.d) as nat,
        Place::Q | Place::Q16 | Place::Attn => (rows * widest_queries(cfg)) as nat,
        Place::K | Place::V => (rows * widest_keys(cfg, cfg.layers as nat)) as nat,
        Place::Gu => (rows * (2 * cfg.ff)) as nat,
        Place::G16 => (rows * cfg.ff) as nat,
        Place::Ids | Place::Weights | Place::Sorted => routes,
        Place::Offsets => (cfg.experts + 1) as nat,
        Place::Jobs => (1 + 2 * ((routes + SMALL_GROUP_ROWS - 1) / SMALL_GROUP_ROWS as int
            + cfg.experts)) as nat,
        Place::Egu => (routes * (2 * cfg.ff_exp)) as nat,
        Place::Eg16 => (routes * cfg.ff_exp) as nat,
        Place::Edown => (routes * cfg.d) as nat,
    }
}

/// Rows and columns (`n`, `k`) of a matrix of layer `l`.
pub open spec fn weight_shape(cfg: Config, l: int, weight: Weight) -> (nat, nat) {
    let hd = cfg.head_dim(l);
    match weight {
        Weight::Wq => ((cfg.heads * hd) as nat, cfg.d as nat),
        Weight::Wk | Weight::Wv => ((cfg.kv_heads@[l] * hd) as nat, cfg.d as nat),
        Weight::Wo => (cfg.d as nat, (cfg.heads * hd) as nat),
        Weight::GateUp => ((2 * cfg.ff) as nat, cfg.d as nat),
        Weight::Down => (cfg.d as nat, cfg.ff as nat),
        Weight::GateUpExps => ((2 * cfg.ff_exp) as nat, cfg.d as nat),
        Weight::DownExps => (cfg.d as nat, cfg.ff_exp as nat),
    }
}

/// The rows that routes take their input from.
pub open spec fn input_rows(routes: usize, in_div: usize) -> nat {
    if routes == 0 {
        0
    } else {
        (routes as int / in_div as int) as nat
    }
}

/// The activations that a kernel reads or writes: each buffer with the elements it touches.
pub open spec fn touches(cfg: Config, launch: Launch) -> Seq<(Place, nat)> {
    match launch {
        Launch::Embed { rows, .. } => seq![
            (Place::H, (rows * cfg.d) as nat),
            (Place::Xn, (rows * cfg.d) as nat),
        ],
        Launch::EmbedRows { rows } => seq![
            (Place::H, (rows * cfg.d) as nat),
            (Place::Xn, (rows * cfg.d) as nat),
        ],
        Launch::Product { from, rows, layer, weight, to, .. } => seq![
            (from, rows as nat * weight_shape(cfg, layer as int, weight).1),
            (to, rows as nat * weight_shape(cfg, layer as int, weight).0),
        ],
        Launch::Qkv { layer, values, rows, .. } => seq![
            (Place::Q, rows as nat * weight_shape(cfg, layer as int, Weight::Wq).0),
            (Place::K, rows as nat * weight_shape(cfg, layer as int, Weight::Wk).0),
            (values, rows as nat * weight_shape(cfg, layer as int, Weight::Wv).0),
            (Place::Q16, rows as nat * weight_shape(cfg, layer as int, Weight::Wq).0),
        ],
        Launch::Attention { layer, rows, .. } => seq![
            (Place::Q16, rows as nat * weight_shape(cfg, layer as int, Weight::Wq).0),
            (Place::Attn, rows as nat * weight_shape(cfg, layer as int, Weight::Wq).0),
        ],
        Launch::PostAttention { rows, .. } => seq![
            (Place::O, (rows * cfg.d) as nat),
            (Place::H, (rows * cfg.d) as nat),
            (Place::XFfn, (rows * cfg.d) as nat),
            (Place::XMoe, (rows * cfg.d) as nat),
            (Place::XRouter, (rows * cfg.d) as nat),
        ],
        Launch::Geglu { from, to, rows, width } => seq![
            (from, (rows * (2 * width)) as nat),
            (to, (rows * width) as nat),
        ],
        Launch::Route { rows, .. } => seq![
            (Place::XRouter, (rows * cfg.d) as nat),
            (Place::Ids, (rows * cfg.top_k) as nat),
            (Place::Weights, (rows * cfg.top_k) as nat),
        ],
        Launch::Group { routes, tile } => seq![
            (Place::Ids, routes as nat),
            (Place::Sorted, routes as nat),
            (Place::Offsets, (cfg.experts + 1) as nat),
            (Place::Jobs, (1 + 2 * ((routes + tile - 1) / tile as int + cfg.experts)) as nat),
        ],
        Launch::Experts { from, layer, weight, to, routes, in_div, max_jobs, .. } => seq![
            (
                from,
                input_rows(routes, in_div) * weight_shape(cfg, layer as int, weight).1,
            ),
            (to, routes as nat * weight_shape(cfg, layer as int, weight).0),
            (Place::Sorted, routes as nat),
            (Place::Jobs, (1 + 2 * max_jobs) as nat),
        ],
        Launch::PostFfn { rows, .. } => seq![
            (Place::Mlp, (rows * cfg.d) as nat),
            (Place::Edown, (rows * cfg.top_k * cfg.d) as nat),
            (Place::Weights, (rows * cfg.top_k) as nat),
            (Place::H, (rows * cfg.d) as nat),
            (Place::Xn, (rows * cfg.d) as nat),
        ],
    }
}

/// A kernel stays within buffers made for `rows` tokens.
pub open spec fn stays_within(cfg: Config, rows: nat, launch: Launch) -> bool {
    forall|i: int|
        0 <= i < touches(cfg, launch).len() ==> (#[trigger] touches(cfg, launch)[i]).1 <= capacity(
            cfg,
            rows,
            touches(cfg, launch)[i].0,
        )
}

/// A kernel of a prompt gives a row the same result in every pass.
pub open spec fn keeps_prompt_rows(launch: Launch) -> bool {
    match launch {
        Launch::Product { row_invariant, .. } => row_invariant,
        Launch::Experts { columns, .. } => columns is Some,
        _ => true,
    }
}

proof fn lemma_widest(cfg: Config, l: nat, n: nat)
    requires
        l < n,
    ensures
        cfg.kv_heads@[l as int] * cfg.head_dim(l as int) <= widest_keys(cfg, n),
    decreases n,
{
    if l < n - 1 {
        lemma_widest(cfg, l, (n - 1) as nat);
    }
    assert(cfg.kv_heads@[n - 1] * cfg.head_dim(n - 1) >= 0) by (nonlinear_arith);
}

proof fn lemma_scale(a: nat, b: nat, x: nat, y: nat)
    requires
        a <= b,
        x <= y,
    ensures
        a * x <= b * y,
{
    assert(a * x <= b * y) by (nonlinear_arith)
        requires
            0 <= a <= b,
            0 <= x <= y,
    ;
}

/// A smaller tile needs no fewer groups.
proof fn lemma_jobs(a: nat, b: nat, tile: nat)
    requires
        a <= b,
        tile >= SMALL_GROUP_ROWS,
    ensures
        0 <= (a + tile - 1) / tile as int <= (b + SMALL_GROUP_ROWS - 1) / SMALL_GROUP_ROWS as int,
{
    let q = (a + tile - 1) / tile as int;
    let p = (b + 3) / 4;
    assert(q * tile <= a + tile - 1 && q >= 0) by (nonlinear_arith)
        requires
            q == (a + tile - 1) / tile as int,
            tile >= 4,
            a >= 0,
    ;
    if q > p {
        assert(q * tile >= (q - 1) * 4 + tile) by (nonlinear_arith)
            requires
                q >= 1,
                tile >= 4,
        ;
        assert(4 * (q - 1) <= a - 1);
        assert(p >= q);
    }
}

/// The plans of layers that the kernels support.
pub open spec fn plans_fit(cfg: Config, plans: Seq<LayerPlan>) -> bool {
    &&& plans.len() == cfg.layers
    &&& forall|l: int| 0 <= l < plans.len() ==> (#[trigger] plans[l]).up.bm >= SMALL_GROUP_ROWS
}

proof fn lemma_within_attention(cfg: Config, pass: Pass, plan: LayerPlan, l: usize, rows: nat)
    requires
        pass.rows <= rows,
        l < cfg.layers,
    ensures
        forall|i: int|
            0 <= i < attention_launches(cfg, pass, plan, l).len() ==> stays_within(
                cfg,
                rows,
                #[trigger] attention_launches(cfg, pass, plan, l)[i],
            ),
{
    let t = pass.rows as nat;
    let hd = cfg.head_dim(l as int);
    let most: usize = if cfg.hd_full >= cfg.hd_swa {
        cfg.hd_full
    } else {
        cfg.hd_swa
    };
    let w = (cfg.heads * hd) as nat;
    assert(cfg.heads * hd >= 0) by (nonlinear_arith);
    assert(cfg.kv_heads@[l as int] * hd >= 0) by (nonlinear_arith);
    lemma_scale(cfg.heads as nat, cfg.heads as nat, hd as nat, most as nat);
    lemma_scale(t, rows, w, widest_queries(cfg));
    lemma_scale(t, rows, cfg.d as nat, cfg.d as nat);
    lemma_widest(cfg, l as nat, cfg.layers as nat);
    let kv = (cfg.kv_heads@[l as int] * hd) as nat;
    lemma_scale(t, rows, kv, widest_keys(cfg, cfg.layers as nat));
    let all = attention_launches(cfg, pass, plan, l);
    assert forall|i: int| 0 <= i < all.len() implies stays_within(cfg, rows, #[trigger] all[i]) by {
        if plan.has_values {
            assert(all[0] == dense_launch(pass, l, Place::Xn, Weight::Wq, Place::Q));
        }
    }
}

proof fn lemma_within_experts(cfg: Config, pass: Pass, plan: LayerPlan, l: usize, rows: nat)
    requires
        pass.rows <= rows,
        plan.up.bm >= SMALL_GROUP_ROWS,
        pass.routes(cfg) <= usize::MAX,
        pass.max_jobs(cfg, plan) <= usize::MAX,
    ensures
        forall|i: int|
            0 <= i < expert_launches(cfg, pass, plan, l).len() ==> stays_within(
                cfg,
                rows,
                #[trigger] expert_launches(cfg, pass, plan, l)[i],
            ),
{
    let t = pass.rows as nat;
    let a = pass.routes(cfg);
    let b = (rows * cfg.top_k) as nat;
    assert(pass.rows * cfg.top_k >= 0) by (nonlinear_arith);
    assert(rows * cfg.top_k >= 0) by (nonlinear_arith);
    lemma_scale(t, rows, cfg.top_k as nat, cfg.top_k as nat);
    lemma_scale(t, rows, cfg.d as nat, cfg.d as nat);
    lemma_scale(t, rows, cfg.ff as nat, cfg.ff as nat);
    lemma_scale(t, rows, (2 * cfg.ff) as nat, (2 * cfg.ff) as nat);
    lemma_scale(a, b, cfg.ff_exp as nat, cfg.ff_exp as nat);
    lemma_scale(a, b, (2 * cfg.ff_exp) as nat, (2 * cfg.ff_exp) as nat);
    lemma_scale(a, b, cfg.d as nat, cfg.d as nat);
    lemma_jobs(a, b, pass.tile(cfg, plan));
    assert(cfg.top_k > 0 ==> a as int / cfg.top_k as int == t) by (nonlinear_arith)
        requires
            a == t * cfg.top_k,
    ;
    if cfg.top_k == 0 {
        assert(a == 0) by (nonlinear_arith)
            requires
                a == t * cfg.top_k,
                cfg.top_k == 0,
        ;
    }
    let all = expert_launches(cfg, pass, plan, l);
    assert(input_rows(a as usize, cfg.top_k) <= t);
    assert(input_rows(a as usize, 1) == a);
    lemma_scale(input_rows(a as usize, cfg.top_k), rows, cfg.d as nat, cfg.d as nat);
    assert(stays_within(cfg, rows, all[0]));
    assert(stays_within(cfg, rows, all[1]));
    assert(stays_within(cfg, rows, all[2]));
    assert(stays_within(cfg, rows, all[3]));
    assert(stays_within(cfg, rows, all[4]));
    assert(stays_within(cfg, rows, all[5]));
    assert(stays_within(cfg, rows, all[6]));
    assert(stays_within(cfg, rows, all[7]));
    assert(stays_within(cfg, rows, all[8]));
}

proof fn lemma_launches_within(
    cfg: Config,
    pass: Pass,
    plans: Seq<LayerPlan>,
    rows: nat,
    n: nat,
)
    requires
        pass.rows <= rows,
        n <= cfg.layers,
        plans_fit(cfg, plans),
        pass.routes(cfg) <= usize::MAX,
        forall|l: int|
            0 <= l < plans.len() ==> pass.max_jobs(cfg, #[trigger] plans[l]) <= usize::MAX,
    ensures
        forall|i: int|
            0 <= i < launches(cfg, pass, plans, n).len() ==> stays_within(
                cfg,
                rows,
                #[trigger] launches(cfg, pass, plans, n)[i],
            ),
    decreases n,
{
    let all = launches(cfg, pass, plans, n);
    if n == 0 {
        lemma_scale(pass.rows as nat, rows, cfg.d as nat, cfg.d as nat);
    } else {
        let l = (n - 1) as usize;
        let plan = plans[n - 1];
        lemma_launches_within(cfg, pass, plans, rows, (n - 1) as nat);
        lemma_within_attention(cfg, pass, plan, l, rows);
        lemma_within_experts(cfg, pass, plan, l, rows);
        let a = launches(cfg, pass, plans, (n - 1) as nat);
        let b = attention_launches(cfg, pass, plan, l);
        let c = expert_launches(cfg, pass, plan, l);
        assert forall|i: int| 0 <= i < all.len() implies stays_within(
            cfg,
            rows,
            #[trigger] all[i],
        ) by {
            if i < a.len() {
                assert(all[i] == a[i]);
            } else if i < a.len() + b.len() {
                assert(all[i] == b[i - a.len()]);
            } else {
                assert(all[i] == c[i - a.len() - b.len()]);
            }
        }
    }
}

/// No kernel of a pass over at most `rows` tokens reads or writes beyond the activation buffers
/// made for `rows` tokens.
pub proof fn law_kernels_stay_within_their_buffers(
    cfg: Config,
    pass: Pass,
    plans: Seq<LayerPlan>,
    rows: nat,
)
    requires
        pass.rows <= rows,
        plans_fit(cfg, plans),
        pass.routes(cfg) <= usize::MAX,
        forall|l: int|
            0 <= l < plans.len() ==> pass.max_jobs(cfg, #[trigger] plans[l]) <= usize::MAX,
    ensures
        forall|i: int|
            0 <= i < launches(cfg, pass, plans, cfg.layers as nat).len() ==> stays_within(
                cfg,
                rows,
                #[trigger] launches(cfg, pass, plans, cfg.layers as nat)[i],
            ),
{
    lemma_launches_within(cfg, pass, plans, rows, cfg.layers as nat);
}

proof fn lemma_prompt_rows(cfg: Config, pass: Pass, plans: Seq<LayerPlan>, n: nat)
    requires
        !pass.canvas,
    ensures
        forall|i: int|
            0 <= i < launches(cfg, pass, plans, n).len() ==> keeps_prompt_rows(
                #[trigger] launches(cfg, pass, plans, n)[i],
            ),
    decreases n,
{
    if n > 0 {
        let l = (n - 1) as usize;
        let plan = plans[n - 1];
        lemma_prompt_rows(cfg, pass, plans, (n - 1) as nat);
        let all = launches(cfg, pass, plans, n);
        let a = launches(cfg, pass, plans, (n - 1) as nat);
        let b = attention_launches(cfg, pass, plan, l);
        let c = expert_launches(cfg, pass, plan, l);
        assert forall|i: int| 0 <= i < all.len() implies keeps_prompt_rows(#[trigger] all[i]) by {
            if i < a.len() {
                assert(all[i] == a[i]);
            } else if i < a.len() + b.len() {
                assert(all[i] == b[i - a.len()]);
            } else {
                assert(all[i] == c[i - a.len() - b.len()]);
            }
        }
    }
}

/// A prompt is computed with row-invariant products and matrix tiles only, so that the rows kept
/// from an earlier prompt are those that a new pass would compute.
pub proof fn law_prompt_rows_do_not_depend_on_their_pass(
    cfg: Config,
    pass: Pass,
    plans: Seq<LayerPlan>,
)
    requires
        !pass.canvas,
    ensures
        forall|i: int|
            0 <= i < launches(cfg, pass, plans, cfg.layers as nat).len() ==> keeps_prompt_rows(
                #[trigger] launches(cfg, pass, plans, cfg.layers as nat)[i],
            ),
{
    lemma_prompt_rows(cfg, pass, plans, cfg.layers as nat);
}

} // verus!
