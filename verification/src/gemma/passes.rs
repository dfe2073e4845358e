//! Passes over prompts and canvases: what they accept, the kernels they launch, and what they
//! leave in the model's memory.
use crate::arith::div_ceil;
use crate::gemma::config::Config;
use crate::gemma::error::{input, ModelFault, Result};
use crate::gemma::forward::{
    attention_launches, capacity, dense_launch, expert_launches, experts_launch, launches,
    plans_fit, widest_keys, Launch, LayerPlan, Pass, Place, Weight, SMALL_GROUP_ROWS,
};
use crate::gemma::prompt::Memory;
use crate::kernels::buf::Buf;
use vstd::prelude::*;

verus! {

/// The most rows of a forward.
pub const MAX_CHUNK: usize = 1024;

// ---------------------------------------------------------------------------------------------
// Buffers
// ---------------------------------------------------------------------------------------------

/// A number as a size of this machine.
fn to_size(n: u128) -> (r: Option<usize>)
    ensures
        r == if n <= usize::MAX {
            Some(n as usize)
        } else {
            None::<usize>
        },
{
    if n <= usize::MAX as u128 {
        Some(n as usize)
    } else {
        None
    }
}

/// `a * b` for a small `a`.
fn times(a: u128, b: u128) -> (r: u128)
    requires
        a <= 0x1_0000_0000,
        b <= 0x1_0000_0000_0000_0000_0000,
    ensures
        r == a * b,
{
    assert(0 <= a * b <= 0x1_0000_0000 * 0x1_0000_0000_0000_0000_0000) by (nonlinear_arith)
        requires
            0 <= a <= 0x1_0000_0000,
            0 <= b <= 0x1_0000_0000_0000_0000_0000,
    ;
    a * b
}

fn key_width(cfg: &Config) -> (r: u128)
    requires
        cfg.supported(),
    ensures
        r == widest_keys(*cfg, cfg.layers as nat),
        r <= 512 * usize::MAX,
{
    let mut most: u128 = 0;
    let mut l: usize = 0;
    while l < cfg.layers
        invariant
            l <= cfg.layers,
            cfg.supported(),
            most == widest_keys(*cfg, l as nat),
            most <= 512 * usize::MAX,
        decreases cfg.layers - l,
    {
        let hd: usize = cfg.hd(l);
        let w: u128 = times(hd as u128, cfg.kv_heads[l] as u128);
        assert(w == cfg.kv_heads@[l as int] * cfg.head_dim(l as int)) by (nonlinear_arith)
            requires
                w == hd * cfg.kv_heads@[l as int],
                hd == cfg.head_dim(l as int),
        ;
        assert(w <= 512 * usize::MAX) by (nonlinear_arith)
            requires
                w == hd * cfg.kv_heads@[l as int],
                hd <= 512,
                cfg.kv_heads@[l as int] <= usize::MAX,
        ;
        if w > most {
            most = w;
        }
        l += 1;
    }
    most
}

impl Config {
    /// The elements of an activation buffer for `rows` tokens; none where they are more than a
    /// size can count.
    pub fn scratch(&self, rows: usize, place: Place) -> (r: Option<usize>)
        requires
            self.supported(),
            rows <= MAX_CHUNK,
        ensures
            r == if capacity(*self, rows as nat, place) <= usize::MAX {
                Some(capacity(*self, rows as nat, place) as usize)
            } else {
                None::<usize>
            },
    {
        let t: u128 = rows as u128;
        let routes: u128 = times(t, self.top_k as u128);
        assert(routes <= 1024 * 32) by (nonlinear_arith)
            requires
                routes == t * self.top_k,
                t <= 1024,
                self.top_k <= 32,
        ;
        let n: u128 = match place {
            Place::H
            | Place::Xn
            | Place::O
            | Place::XFfn
            | Place::XMoe
            | Place::XRouter
            | Place::Mlp => times(t, self.d as u128),
            Place::Q | Place::Q16 | Place::Attn => {
                let hd: usize = if self.hd_full >= self.hd_swa {
                    self.hd_full
                } else {
                    self.hd_swa
                };
                let w: u128 = times(hd as u128, self.heads as u128);
                assert(w == self.heads * hd && w <= 512 * usize::MAX) by (nonlinear_arith)
                    requires
                        w == hd * self.heads,
                        hd <= 512,
                        self.heads <= usize::MAX,
                ;
                times(t, w)
            },
            Place::K | Place::V => times(t, key_width(self)),
            Place::Gu => times(t, 2 * self.ff as u128),
            Place::G16 => times(t, self.ff as u128),
            Place::Ids | Place::Weights | Place::Sorted => routes,
            Place::Offsets => self.experts as u128 + 1,
            Place::Jobs => 1 + 2 * ((routes + SMALL_GROUP_ROWS as u128 - 1)
                / SMALL_GROUP_ROWS as u128 + self.experts as u128),
            Place::Egu => times(routes, 2 * self.ff_exp as u128),
            Place::Eg16 => times(routes, self.ff_exp as u128),
            Place::Edown => times(routes, self.d as u128),
        };
        to_size(n)
    }
}

// ---------------------------------------------------------------------------------------------
// Forward
// ---------------------------------------------------------------------------------------------

/// Rows of one forward: token ids, or precomputed input embeddings of `count` rows.
#[derive(Debug)]
pub enum Input<H: Copy> {
    Tokens(Vec<i32>),
    Embeddings(Buf<H>, usize),
}

/// The mathematical model of an [`Input`].
#[verifier::ext_equal]
pub enum InputModel {
    Tokens(Seq<i32>),
    /// The values of the buffer, and the rows.
    Embeddings(usize, usize),
}

impl<H: Copy> View for Input<H> {
    type V = InputModel;

    open spec fn view(&self) -> InputModel {
        match self {
            Input::Tokens(tokens) => InputModel::Tokens(tokens@),
            Input::Embeddings(rows, count) => InputModel::Embeddings(rows.count(), *count),
        }
    }
}

impl InputModel {
    /// Its rows.
    pub open spec fn size(self) -> nat {
        match self {
            InputModel::Tokens(tokens) => tokens.len(),
            InputModel::Embeddings(_, count) => count as nat,
        }
    }
}

impl<H: Copy> Input<H> {
    pub fn len(&self) -> (r: usize)
        ensures
            r == self@.size(),
    {
        match self {
            Input::Tokens(tokens) => tokens.len(),
            Input::Embeddings(_, count) => *count,
        }
    }
}

/// A token id of a vocabulary.
pub open spec fn in_vocabulary(token: i32, vocab: usize) -> bool {
    0 <= token < vocab
}

/// Whether all tokens are ids of the vocabulary.
pub fn all_in_vocabulary(tokens: &Vec<i32>, vocab: usize) -> (r: bool)
    ensures
        r == forall|i: int| 0 <= i < tokens@.len() ==> in_vocabulary(#[trigger] tokens@[i], vocab),
{
    let mut i: usize = 0;
    while i < tokens.len()
        invariant
            i <= tokens@.len(),
            forall|k: int| 0 <= k < i ==> in_vocabulary(#[trigger] tokens@[k], vocab),
        decreases tokens@.len() - i,
    {
        if tokens[i] < 0 || tokens[i] as u64 >= vocab as u64 {
            assert(!in_vocabulary(tokens@[i as int], vocab));
            return false;
        }
        i += 1;
    }
    true
}

/// Why a forward over `rows` at `pos` is refused.
pub open spec fn forward_fault(
    memory: Memory,
    rows: InputModel,
    pos: usize,
    canvas: bool,
) -> Option<ModelFault> {
    let t = rows.size();
    if t == 0 || t > memory.chunk || pos + t > memory.cap {
        Some(ModelFault::Input("forward chunk exceeds the allocated context"@))
    } else {
        match rows {
            InputModel::Tokens(tokens) => if forall|i: int|
                0 <= i < tokens.len() ==> in_vocabulary(#[trigger] tokens[i], memory.vocab) {
                None
            } else {
                Some(ModelFault::Input("token outside the vocabulary"@))
            },
            InputModel::Embeddings(values, _) => if canvas || values < t * memory.d {
                Some(ModelFault::Input("invalid embedding rows"@))
            } else {
                None
            },
        }
    }
}

/// The pass over these rows.
pub open spec fn pass_of(
    rows: InputModel,
    pos: usize,
    prompt: usize,
    canvas: bool,
    conditioned: bool,
) -> Pass {
    Pass {
        rows: rows.size() as usize,
        pos,
        prompt,
        canvas,
        image: rows is Embeddings,
        conditioned,
    }
}

fn dense(pass: &Pass, l: usize, from: Place, weight: Weight, to: Place) -> (r: Launch)
    ensures
        r == dense_launch(*pass, l, from, weight, to),
{
    Launch::Product { from, rows: pass.rows, layer: l, weight, to, row_invariant: !pass.canvas }
}

/// What the expert products of a pass share.
#[derive(Clone, Copy, Debug, PartialEq, Eq, Structural)]
pub struct Grouping {
    pub routes: usize,
    pub small: bool,
    pub tile: usize,
    pub max_jobs: usize,
}

/// How a pass groups its routes by expert.
pub fn grouping(cfg: &Config, pass: &Pass, plan: &LayerPlan) -> (r: Grouping)
    requires
        cfg.supported(),
        pass.rows <= MAX_CHUNK,
        plan.up.bm >= SMALL_GROUP_ROWS,
    ensures
        r.routes == pass.routes(*cfg),
        r.small == pass.small(*cfg),
        r.tile == pass.tile(*cfg, *plan),
        r.max_jobs == pass.max_jobs(*cfg, *plan),
{
    assert(0 <= pass.rows * cfg.top_k <= 1024 * 32) by (nonlinear_arith)
        requires
            0 <= pass.rows <= 1024,
            0 <= cfg.top_k <= 32,
    ;
    let routes: usize = pass.rows * cfg.top_k;
    let small: bool = pass.canvas && routes < 2 * cfg.experts;
    let tile: usize = if small {
        SMALL_GROUP_ROWS
    } else {
        plan.up.bm
    };
    let whole: usize = div_ceil(routes, tile);
    proof {
        let (a, b) = (routes as int, tile as int);
        assert((a + b - 1) / b <= a) by (nonlinear_arith)
            requires
                a >= 0,
                b >= 4,
        ;
    }
    Grouping { routes, small, tile, max_jobs: whole + cfg.experts }
}

fn experts(cfg: &Config, g: &Grouping, plan: &LayerPlan, l: usize, weight: Weight, Ghost(pass): Ghost<Pass>) -> (r:
    Launch)
    requires
        g.routes == pass.routes(*cfg),
        g.small == pass.small(*cfg),
        g.tile == pass.tile(*cfg, *plan),
        g.max_jobs == pass.max_jobs(*cfg, *plan),
    ensures
        r == experts_launch(*cfg, pass, *plan, l, weight),
{
    let up: bool = matches!(weight, Weight::GateUpExps);
    Launch::Experts {
        from: if up {
            Place::XMoe
        } else {
            Place::Eg16
        },
        layer: l,
        weight,
        to: if up {
            Place::Egu
        } else {
            Place::Edown
        },
        routes: g.routes,
        in_div: if up {
            cfg.top_k
        } else {
            1
        },
        max_jobs: g.max_jobs,
        tile: g.tile,
        columns: if g.small {
            None
        } else if up {
            Some(plan.up.bn)
        } else {
            Some(plan.down_columns)
        },
    }
}

fn launch_attention(cfg: &Config, pass: &Pass, plan: &LayerPlan, l: usize, out: &mut Vec<Launch>)
    requires
        cfg.supported(),
        l < cfg.layers,
        pass.pos + pass.rows <= usize::MAX,
    ensures
        final(out)@ == old(out)@ + attention_launches(*cfg, *pass, *plan, l),
{
    let ghost before = out@;
    out.push(dense(pass, l, Place::Xn, Weight::Wq, Place::Q));
    out.push(dense(pass, l, Place::Xn, Weight::Wk, Place::K));
    if plan.has_values {
        out.push(dense(pass, l, Place::Xn, Weight::Wv, Place::V));
    }
    out.push(
        Launch::Qkv {
            layer: l,
            shape: cfg.qkv_shape(l),
            values: if plan.has_values {
                Place::V
            } else {
                Place::K
            },
            full_rope: !cfg.swa[l],
            rows: pass.rows,
            pos: pass.pos,
        },
    );
    out.push(
        Launch::Attention {
            layer: l,
            rows: pass.rows,
            pos: pass.pos,
            keys: pass.pos + pass.rows,
            prompt: pass.prompt,
            block: if pass.image {
                Some(pass.pos)
            } else {
                None
            },
        },
    );
    out.push(dense(pass, l, Place::Attn, Weight::Wo, Place::O));
    out.push(Launch::PostAttention { layer: l, rows: pass.rows });
    assert(out@ =~= before + attention_launches(*cfg, *pass, *plan, l));
}

fn launch_experts(cfg: &Config, pass: &Pass, plan: &LayerPlan, l: usize, out: &mut Vec<Launch>)
    requires
        cfg.supported(),
        l < cfg.layers,
        pass.rows <= MAX_CHUNK,
        plan.up.bm >= SMALL_GROUP_ROWS,
    ensures
        final(out)@ == old(out)@ + expert_launches(*cfg, *pass, *plan, l),
{
    let ghost before = out@;
    let g: Grouping = grouping(cfg, pass, plan);
    out.push(dense(pass, l, Place::XFfn, Weight::GateUp, Place::Gu));
    out.push(Launch::Geglu { from: Place::Gu, to: Place::G16, rows: pass.rows, width: cfg.ff });
    out.push(dense(pass, l, Place::G16, Weight::Down, Place::Mlp));
    out.push(Launch::Route { layer: l, rows: pass.rows });
    out.push(Launch::Group { routes: g.routes, tile: g.tile });
    out.push(experts(cfg, &g, plan, l, Weight::GateUpExps, Ghost(*pass)));
    out.push(
        Launch::Geglu { from: Place::Egu, to: Place::Eg16, rows: g.routes, width: cfg.ff_exp },
    );
    out.push(experts(cfg, &g, plan, l, Weight::DownExps, Ghost(*pass)));
    out.push(
        Launch::PostFfn {
            layer: l,
            next: if l + 1 < cfg.layers {
                Some(l + 1)
            } else {
                None
            },
            prompt_scale: !pass.canvas,
            rows: pass.rows,
        },
    );
    assert(out@ =~= before + expert_launches(*cfg, *pass, *plan, l));
}

impl Memory {
    /// The limits of a loaded model.
    pub open spec fn loaded(self, cfg: Config) -> bool {
        &&& cfg.supported()
        &&& 0 < self.chunk <= MAX_CHUNK
        &&& self.chunk <= self.cap
        &&& self.d == cfg.d
        &&& self.vocab == cfg.vocab
        &&& self.canvas_rows <= self.chunk
        &&& self.countable()
    }

    /// The full logits on the device can be counted.
    pub open spec fn countable(self) -> bool {
        self.logits ==> self.canvas_rows * self.vocab <= usize::MAX
    }

    /// The kernels of one forward over `rows` at absolute positions `pos..`. `prompt` is the
    /// prompt length for visibility; `canvas` selects decoder embeddings, scalars and
    /// bidirectional visibility.
    pub fn forward<H: Copy>(
        &self,
        cfg: &Config,
        rows: &Input<H>,
        pos: usize,
        prompt: usize,
        canvas: bool,
        conditioned: bool,
        plans: &Vec<LayerPlan>,
    ) -> (r: Result<Vec<Launch>>)
        requires
            self.loaded(*cfg),
            plans_fit(*cfg, plans@),
        ensures
            r matches Ok(list) ==> forward_fault(*self, rows@, pos, canvas) is None && list@
                == launches(
                *cfg,
                pass_of(rows@, pos, prompt, canvas, conditioned),
                plans@,
                cfg.layers as nat,
            ),
            r matches Err(e) ==> forward_fault(*self, rows@, pos, canvas) == Some(e@),
    {
        let t: usize = rows.len();
        if t == 0 || t > self.chunk || pos > self.cap || t > self.cap - pos {
            return input("forward chunk exceeds the allocated context");
        }
        let image: bool = match rows {
            Input::Tokens(tokens) => {
                if !all_in_vocabulary(tokens, self.vocab) {
                    return input("token outside the vocabulary");
                }
                false
            },
            Input::Embeddings(values, _) => {
                let needed: u128 = times(t as u128, self.d as u128);
                if canvas || (values.len() as u128) < needed {
                    return input("invalid embedding rows");
                }
                true
            },
        };
        let pass: Pass = Pass { rows: t, pos, prompt, canvas, image, conditioned };
        let ghost want = pass_of(rows@, pos, prompt, canvas, conditioned);
        assert(pass == want);
        let mut list: Vec<Launch> = Vec::new();
        list.push(
            if image {
                Launch::EmbedRows { rows: t }
            } else {
                Launch::Embed {
                    rows: t,
                    scaled: if canvas {
                        0
                    } else {
                        t
                    },
                    conditioned,
                }
            },
        );
        assert(list@ =~= launches(*cfg, want, plans@, 0));
        let mut l: usize = 0;
        while l < cfg.layers
            invariant
                l <= cfg.layers,
                cfg.supported(),
                plans_fit(*cfg, plans@),
                pass == want,
                pass.rows <= MAX_CHUNK,
                pass.pos + pass.rows <= usize::MAX,
                list@ == launches(*cfg, want, plans@, l as nat),
            decreases cfg.layers - l,
        {
            let plan: LayerPlan = plans[l];
            launch_attention(cfg, &pass, &plan, l, &mut list);
            launch_experts(cfg, &pass, &plan, l, &mut list);
            l += 1;
        }
        Ok(list)
    }
}

// ---------------------------------------------------------------------------------------------
// Canvas
// ---------------------------------------------------------------------------------------------

/// Where the logits of the previous step come from.
#[derive(Clone, Copy, Debug, PartialEq, Eq, Structural)]
pub enum Signal {
    /// The device still holds them.
    Resident,
    /// The host sends them.
    Uploaded,
}

/// The kernels of a canvas: the signal of the previous step first, logits of all rows last.
#[derive(Debug)]
pub struct CanvasPlan {
    pub signal: Option<Signal>,
    pub launches: Vec<Launch>,
    /// The elements of the full logits, where they are asked for.
    pub logits: Option<usize>,
}

/// Why a canvas of `tokens` after `prompt_len` rows is refused; `previous` is the number of
/// logits of the previous step.
pub open spec fn canvas_fault(
    memory: Memory,
    tokens: Seq<i32>,
    prompt_len: usize,
    previous: Option<usize>,
) -> Option<ModelFault> {
    if prompt_len != memory.cached@.len() {
        Some(ModelFault::Input("canvas does not follow the resident prompt"@))
    } else if tokens.len() > memory.chunk || prompt_len + tokens.len() > memory.cap {
        Some(ModelFault::Input("canvas exceeds the context size"@))
    } else if previous is Some && previous->Some_0 != tokens.len() * memory.vocab {
        Some(ModelFault::Input("self-conditioning logits have the wrong shape"@))
    } else {
        forward_fault(memory, InputModel::Tokens(tokens), prompt_len, true)
    }
}

/// Where the previous step's logits come from: the device, where it holds as many rows.
pub open spec fn signal_of(memory: Memory, rows: nat, previous: Option<usize>) -> Option<Signal> {
    match previous {
        None => None,
        Some(_) => if memory.logits && memory.canvas_rows == rows {
            Some(Signal::Resident)
        } else {
            Some(Signal::Uploaded)
        },
    }
}

impl Memory {
    /// Canvas forward after a prefill of `prompt_len` rows. With `full_logits`, all canvas logit
    /// rows are computed; otherwise only [`Memory::candidate_logits`] may be used. `previous`,
    /// the number of logits of the prior step, enables self-conditioning on them.
    pub fn canvas(
        &mut self,
        cfg: &Config,
        tokens: Vec<i32>,
        prompt_len: usize,
        full_logits: bool,
        previous: Option<usize>,
        plans: &Vec<LayerPlan>,
    ) -> (r: Result<CanvasPlan>)
        requires
            old(self).loaded(*cfg),
            plans_fit(*cfg, plans@),
            full_logits ==> tokens@.len() * old(self).vocab <= usize::MAX,
        ensures
            final(self).loaded(*cfg),
            r matches Ok(plan) ==> {
                &&& canvas_fault(*old(self), tokens@, prompt_len, previous) is None
                &&& plan.signal == signal_of(*old(self), tokens@.len(), previous)
                &&& plan.launches@ == launches(
                    *cfg,
                    pass_of(
                        InputModel::Tokens(tokens@),
                        prompt_len,
                        prompt_len,
                        true,
                        previous is Some,
                    ),
                    plans@,
                    cfg.layers as nat,
                )
                &&& plan.logits == if full_logits {
                    Some((tokens@.len() * old(self).vocab) as usize)
                } else {
                    None::<usize>
                }
                &&& *final(self) == (Memory {
                    canvas_rows: tokens@.len() as usize,
                    logits: full_logits,
                    ..*old(self)
                })
            },
            r matches Err(e) ==> canvas_fault(*old(self), tokens@, prompt_len, previous) == Some(
                e@,
            ) && *final(self) == *old(self),
    {
        let rows: usize = tokens.len();
        if prompt_len != self.cached.len() {
            return input("canvas does not follow the resident prompt");
        }
        if rows > self.chunk || prompt_len > self.cap || rows > self.cap - prompt_len {
            return input("canvas exceeds the context size");
        }
        let signal: Option<Signal> = match previous {
            None => None,
            Some(count) => {
                if count as u128 != times(rows as u128, self.vocab as u128) {
                    return input("self-conditioning logits have the wrong shape");
                }
                if self.logits && self.canvas_rows == rows {
                    Some(Signal::Resident)
                } else {
                    Some(Signal::Uploaded)
                }
            },
        };
        let rows_in: Input<u64> = Input::Tokens(tokens);
        let list: Vec<Launch> = self.forward(
            cfg,
            &rows_in,
            prompt_len,
            prompt_len,
            true,
            previous.is_some(),
            plans,
        )?;
        self.canvas_rows = rows;
        self.logits = full_logits;
        let logits: Option<usize> = if full_logits {
            Some(rows * self.vocab)
        } else {
            None
        };
        Ok(CanvasPlan { signal, launches: list, logits })
    }

    /// The soft-capped logits of `candidates` at row `row` of the last canvas: where they are
    /// among the full logits, else the rows and tokens to compute them of.
    pub fn candidate_logits(&self, row: usize, candidates: &Vec<i32>) -> (r: Result<Pick>)
        requires
            self.countable(),
        ensures
            r is Err <==> row >= self.canvas_rows || exists|i: int|
                0 <= i < candidates@.len() && !in_vocabulary(#[trigger] candidates@[i], self.vocab),
            r matches Err(e) ==> e@ == ModelFault::Input("invalid logit row or candidate"@),
            r matches Ok(Pick::Logits(at)) ==> self.logits && at@.len() == candidates@.len()
                && forall|i: int|
                0 <= i < at@.len() ==> #[trigger] at@[i] == row * self.vocab + candidates@[i],
            r matches Ok(Pick::Pairs(pairs)) ==> !self.logits && pairs@.len() == candidates@.len()
                && forall|i: int|
                0 <= i < pairs@.len() ==> #[trigger] pairs@[i] == (row, candidates@[i]),
    {
        if row >= self.canvas_rows || !all_in_vocabulary(candidates, self.vocab) {
            return input("invalid logit row or candidate");
        }
        if self.logits {
            let mut at: Vec<usize> = Vec::new();
            let mut i: usize = 0;
            while i < candidates.len()
                invariant
                    i <= candidates@.len(),
                    self.countable(),
                    self.logits,
                    row < self.canvas_rows,
                    forall|k: int|
                        0 <= k < candidates@.len() ==> in_vocabulary(
                            #[trigger] candidates@[k],
                            self.vocab,
                        ),
                    at@.len() == i,
                    forall|k: int|
                        0 <= k < i ==> #[trigger] at@[k] == row * self.vocab + candidates@[k],
                decreases candidates@.len() - i,
            {
                let c: usize = candidates[i] as usize;
                assert(in_vocabulary(candidates@[i as int], self.vocab));
                assert(0 <= row * self.vocab && row * self.vocab + self.vocab <= self.canvas_rows
                    * self.vocab) by (nonlinear_arith)
                    requires
                        0 <= row < self.canvas_rows,
                        0 <= self.vocab,
                ;
                at.push(row * self.vocab + c);
                i += 1;
            }
            return Ok(Pick::Logits(at));
        }
        let mut pairs: Vec<(usize, i32)> = Vec::new();
        let mut i: usize = 0;
        while i < candidates.len()
            invariant
                i <= candidates@.len(),
                pairs@.len() == i,
                forall|k: int| 0 <= k < i ==> #[trigger] pairs@[k] == (row, candidates@[k]),
            decreases candidates@.len() - i,
        {
            pairs.push((row, candidates[i]));
            i += 1;
        }
        Ok(Pick::Pairs(pairs))
    }

    /// The rows of the last canvas with full logits, which the device holds.
    pub fn all_logits(&self) -> (r: Result<usize>)
        ensures
            r matches Ok(rows) ==> self.logits && rows == self.canvas_rows,
            r matches Err(e) ==> !self.logits && e@ == ModelFault::Input(
                "no full logits were computed"@,
            ),
    {
        if self.logits {
            Ok(self.canvas_rows)
        } else {
            input("no full logits were computed")
        }
    }
}

/// Where candidate logits come from.
#[derive(Debug)]
pub enum Pick {
    /// Indexes of the full logits.
    Logits(Vec<usize>),
    /// Canvas rows and tokens to compute.
    Pairs(Vec<(usize, i32)>),
}

} // verus!
