//! Which keys a query of a forward sees.
use crate::gemma::config::Config;
use crate::gemma::forward::Pass;
use vstd::prelude::*;

verus! {

/// What the visibility of a layer's keys depends on.
#[derive(Clone, Copy, Debug, PartialEq, Eq, Structural)]
pub struct Sight {
    /// Keys in the cache.
    pub keys: usize,
    /// Positions of the prompt.
    pub prompt: usize,
    /// The first position of an image block.
    pub block: Option<usize>,
    /// A sliding window of `window` positions.
    pub swa: bool,
    pub window: usize,
}

impl Sight {
    /// A query of the prompt sees the keys up to its own, within the window, and all of the image
    /// block that it stands in. A query of the canvas sees the whole canvas, and the prompt or the
    /// window before the canvas.
    pub open spec fn sees(self, query: int, key: int) -> bool {
        &&& 0 <= key < self.keys
        &&& if query < self.prompt {
            ||| key <= query && (!self.swa || query - key < self.window)
            ||| self.block matches Some(b) && query >= b && key >= b
        } else {
            !self.swa || key >= self.prompt || key + self.window > self.prompt
        }
    }

    pub fn visible(&self, query: usize, key: usize) -> (r: bool)
        ensures
            r == self.sees(query as int, key as int),
    {
        if key >= self.keys {
            return false;
        }
        if query < self.prompt {
            if key <= query && (!self.swa || query - key < self.window) {
                return true;
            }
            match self.block {
                Some(b) => query >= b && key >= b,
                None => false,
            }
        } else {
            !self.swa || key >= self.prompt || self.prompt - key < self.window
        }
    }
}

impl Config {
    /// What the rows of a pass see in a layer.
    pub open spec fn sight_of(self, pass: Pass, layer: int) -> Sight {
        Sight {
            keys: (pass.pos + pass.rows) as usize,
            prompt: pass.prompt,
            block: if pass.image {
                Some(pass.pos)
            } else {
                None
            },
            swa: self.swa@[layer],
            window: self.window,
        }
    }

    pub fn sight(&self, pass: &Pass, layer: usize) -> (r: Sight)
        requires
            pass.pos + pass.rows <= usize::MAX,
            layer < self.swa@.len(),
        ensures
            r == self.sight_of(*pass, layer as int),
    {
        Sight {
            keys: pass.pos + pass.rows,
            prompt: pass.prompt,
            block: if pass.image {
                Some(pass.pos)
            } else {
                None
            },
            swa: self.swa[layer],
            window: self.window,
        }
    }
}

/// What a row of a prompt's text sees does not depend on how the prompt is cut into passes, nor on
/// what later positions of the cache hold.
pub proof fn law_prompt_rows_see_the_same_in_every_pass(a: Sight, b: Sight, query: int, key: int)
    requires
        a.block is None,
        b.block is None,
        a.prompt == b.prompt,
        a.swa == b.swa,
        a.window == b.window,
        0 <= query < a.prompt,
        query < a.keys,
        query < b.keys,
        0 <= key,
    ensures
        a.sees(query, key) == b.sees(query, key),
        a.sees(query, key) ==> key <= query,
{
}

/// Every row sees itself, where the window is not empty.
pub proof fn law_rows_see_themselves(sight: Sight, query: int)
    requires
        0 <= query < sight.keys,
        sight.window > 0,
    ensures
        sight.sees(query, query),
{
}

/// A canvas is bidirectional, and without a sliding window it sees the whole prompt.
pub proof fn law_canvases_see_all_of_themselves(sight: Sight, query: int, key: int)
    requires
        sight.prompt <= query < sight.keys,
        0 <= key < sight.keys,
    ensures
        key >= sight.prompt ==> sight.sees(query, key),
        !sight.swa ==> sight.sees(query, key),
{
}

/// The rows of an image see all of it, and nothing after it; rows before it see none of it.
pub proof fn law_images_see_all_of_themselves(sight: Sight, block: usize, query: int, key: int)
    requires
        sight.block == Some(block),
        0 <= query < sight.prompt,
        0 <= key,
    ensures
        block <= query && block <= key < sight.keys ==> sight.sees(query, key),
        key >= sight.keys ==> !sight.sees(query, key),
        query < block && block <= key ==> !sight.sees(query, key),
{
}

} // verus!
