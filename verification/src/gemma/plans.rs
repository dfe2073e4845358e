//! The launch plans of the layers, from what was measured on the device.
use crate::gemma::config::Config;
use crate::gemma::forward::{plans_fit, LayerPlan, SMALL_GROUP_ROWS};
use crate::kernels::tune::{stored, GroupKey, GroupPlan, QMatrix, Tuner};
use vstd::prelude::*;

verus! {

/// The expert matrices of a layer, each with the column tile of its width, and whether the layer has
/// values of its own.
#[derive(Clone, Copy, Debug, PartialEq, Eq, Structural)]
pub struct LayerExperts {
    pub up: QMatrix,
    pub up_tile: usize,
    pub down: QMatrix,
    pub down_tile: usize,
    pub has_values: bool,
}

/// The plan of a layer over `rows` tokens.
pub open spec fn layer_plan_of(tuner: Tuner, layer: LayerExperts, rows: int) -> LayerPlan {
    LayerPlan {
        up: tuner.group_plan(layer.up, rows, layer.up_tile),
        down_columns: tuner.group_plan(layer.down, rows, layer.down_tile).bn,
        has_values: layer.has_values,
    }
}

/// The plans of all layers over `rows` tokens.
pub fn layer_plans(tuner: &Tuner, layers: &Vec<LayerExperts>, rows: usize) -> (r: Vec<LayerPlan>)
    requires
        rows <= usize::MAX / 2 + 1,
    ensures
        r@ == Seq::new(layers@.len(), |l: int| layer_plan_of(*tuner, layers@[l], rows as int)),
{
    let mut plans: Vec<LayerPlan> = Vec::new();
    let mut l: usize = 0;
    while l < layers.len()
        invariant
            l <= layers@.len(),
            rows <= usize::MAX / 2 + 1,
            plans@ == Seq::new(l as nat, |l: int| layer_plan_of(*tuner, layers@[l], rows as int)),
        decreases layers@.len() - l,
    {
        let layer: LayerExperts = layers[l];
        plans.push(
            LayerPlan {
                up: tuner.grouped(&layer.up, rows, layer.up_tile),
                down_columns: tuner.grouped(&layer.down, rows, layer.down_tile).bn,
                has_values: layer.has_values,
            },
        );
        l += 1;
        assert(plans@ =~= Seq::new(
            l as nat,
            |l: int| layer_plan_of(*tuner, layers@[l], rows as int),
        ));
    }
    plans
}

/// The stored plans of grouped products have the row tiles of a grouping.
pub open spec fn tiles_fit(table: Seq<(GroupKey, GroupPlan)>) -> bool {
    forall|i: int| 0 <= i < table.len() ==> (#[trigger] table[i]).1.bm >= SMALL_GROUP_ROWS
}

proof fn lemma_stored_fits(table: Seq<(GroupKey, GroupPlan)>, key: GroupKey)
    requires
        tiles_fit(table),
    ensures
        stored(table, key) matches Some(p) ==> p.bm >= SMALL_GROUP_ROWS,
    decreases table.len(),
{
    if table.len() > 0 && table.last().0 != key {
        assert(tiles_fit(table.drop_last())) by {
            assert forall|i: int| 0 <= i < table.drop_last().len() implies (
            #[trigger] table.drop_last()[i]).1.bm >= SMALL_GROUP_ROWS by {
                assert(table.drop_last()[i] == table[i]);
            }
        }
        lemma_stored_fits(table.drop_last(), key);
    }
}

/// The plans that a tuner makes for the layers of a model are plans that its forwards support.
pub proof fn law_tuned_plans_fit_their_forwards(
    cfg: Config,
    tuner: Tuner,
    layers: Seq<LayerExperts>,
    rows: int,
)
    requires
        layers.len() == cfg.layers,
        tiles_fit(tuner.grouped@),
    ensures
        plans_fit(cfg, Seq::new(layers.len(), |l: int| layer_plan_of(tuner, layers[l], rows))),
{
    let plans = Seq::new(layers.len(), |l: int| layer_plan_of(tuner, layers[l], rows));
    assert forall|l: int| 0 <= l < plans.len() implies (#[trigger] plans[l]).up.bm
        >= SMALL_GROUP_ROWS by {
        lemma_stored_fits(tuner.grouped@, crate::kernels::tune::group_key(layers[l].up, rows));
    }
}

} // verus!
