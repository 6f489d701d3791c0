use vstd::prelude::*;
use crate::raster::{lemma_cell_index, lemma_index_cell, DensityMap, Raster};
use std::hash::{Hash, Hasher};

verus! {

/// The value std's `DefaultHasher` gives for a text. Its keys are fixed, so
/// the value depends on the text alone within one build.
pub uninterp spec fn text_hash(s: Seq<char>) -> u64;

/// Relies on std's `DefaultHasher` (`new`, `Hash for str`, `finish`): hashes
/// the text with the hasher's fixed keys.
#[verifier::external_body]
fn hash_text(s: &str) -> (r: u64)
    ensures
        r == text_hash(s@),
{
    let mut hasher = std::collections::hash_map::DefaultHasher::new();
    s.hash(&mut hasher);
    hasher.finish()
}

/// Reduces a seed text to a numeric seed: the low 32 bits of its hash.
pub fn string_to_i32_seed(s: &str) -> (r: i32)
    ensures
        r == text_hash(s@) as i32,
{
    hash_text(s) as i32
}

/// How a density map is synthesised.
#[derive(Clone, Copy, Debug, PartialEq, Eq, Structural)]
pub enum GenerationStrategy {
    /// Sine hills perturbed by coherent noise; everything below the surface is solid.
    HillyWithNoise,
    /// Fully solid ground with noise-carved cavities.
    SwissCheese,
}

/// Even seeds give hilly terrain, odd seeds swiss cheese.
pub open spec fn strategy_for_seed(seed: int) -> GenerationStrategy {
    if seed % 2 == 0 {
        GenerationStrategy::HillyWithNoise
    } else {
        GenerationStrategy::SwissCheese
    }
}

/// Chooses the generation strategy from the parity of the seed.
pub fn select_strategy(seed: i32) -> (r: GenerationStrategy)
    ensures
        r == strategy_for_seed(seed as int),
{
    // shifting by 2^31 keeps the parity and makes the value non-negative
    let shifted: u64 = (seed as i64 + 2147483648i64) as u64;
    if shifted % 2 == 0 {
        GenerationStrategy::HillyWithNoise
    } else {
        GenerationStrategy::SwissCheese
    }
}

/// A cavity is carved where the normalised noise, in thousandths and rounded
/// up, exceeds this level.
pub const CAVITY_THRESHOLD_MILLI: i64 = 250;

/// A surface row clamped to the rows of a raster of the given height.
pub open spec fn clamp_surface(surface: int, height: int) -> int {
    if surface > height - 1 {
        height - 1
    } else if surface < 0 {
        0
    } else {
        surface
    }
}

/// Hilly terrain: a cell is solid when it lies at or below the surface row
/// of its column (rows grow downwards). `surface[x]` is the surface row of
/// column `x`, rounded up.
pub open spec fn hilly_raster(width: nat, height: nat, surface: Seq<i64>) -> Raster {
    Raster {
        width,
        height,
        cells: Seq::new(
            width * height,
            |i: int|
                i / (width as int) >= clamp_surface(
                    surface[i % (width as int)] as int,
                    height as int,
                ),
        ),
    }
}

/// Swiss-cheese terrain: a cell stays solid unless its noise level exceeds
/// the cavity threshold.
pub open spec fn swiss_cheese_raster(width: nat, height: nat, noise: Seq<i64>) -> Raster {
    Raster {
        width,
        height,
        cells: Seq::new(width * height, |i: int| noise[i] <= CAVITY_THRESHOLD_MILLI),
    }
}

pub open spec fn generated_raster(
    strategy: GenerationStrategy,
    width: nat,
    height: nat,
    field: Seq<i64>,
) -> Raster {
    match strategy {
        GenerationStrategy::HillyWithNoise => hilly_raster(width, height, field),
        GenerationStrategy::SwissCheese => swiss_cheese_raster(width, height, field),
    }
}

/// Fills a hilly density map from the surface row of every column. Surface
/// rows outside the raster are clamped to it, so each column is solid from
/// one row down to the bottom.
pub fn hilly_density_map(width: usize, height: usize, surface: &Vec<i64>) -> (r: DensityMap)
    requires
        surface@.len() == width,
        width * height <= usize::MAX,
    ensures
        r@ == hilly_raster(width as nat, height as nat, surface@),
        r@.wf(),
        forall|x: int, y: int|
            0 <= x < width && 0 <= y && y + 1 < height && #[trigger] r@.solid(x, y) ==> r@.solid(
                x,
                y + 1,
            ),
{
    let n: usize = width * height;
    let mut cells: Vec<bool> = Vec::with_capacity(n);
    let mut i: usize = 0;
    while i < n
        invariant
            n == width * height,
            surface@.len() == width,
            i <= n,
            cells@.len() == i,
            forall|j: int|
                0 <= j < i ==> cells@[j] == hilly_raster(width as nat, height as nat, surface@).cells[j],
        decreases n - i,
    {
        proof {
            lemma_index_cell(width as int, height as int, i as int);
        }
        let y: usize = i / width;
        let s: i64 = surface[i % width];
        let solid: bool = if s < 0 {
            true
        } else {
            let last_row: u64 = (height - 1) as u64;
            let row: u64 = if s as u64 > last_row {
                last_row
            } else {
                s as u64
            };
            y as u64 >= row
        };
        cells.push(solid);
        i = i + 1;
    }
    let r = DensityMap::from_cells(width, height, cells);
    proof {
        let m = hilly_raster(width as nat, height as nat, surface@);
        assert(cells@ == m.cells);
        assert forall|x: int, y: int|
            0 <= x < width && 0 <= y && y + 1 < height && #[trigger] m.solid(x, y) implies m.solid(
            x,
            y + 1,
        ) by {
            lemma_cell_index(width as int, height as int, x, y);
            lemma_cell_index(width as int, height as int, x, y + 1);
        }
    }
    r.unwrap()
}

/// Fills a swiss-cheese density map from the noise level of every cell (row by
/// row, normalised to 0..=1000).
pub fn swiss_cheese_density_map(width: usize, height: usize, noise: &Vec<i64>) -> (r: DensityMap)
    requires
        noise@.len() == width * height,
    ensures
        r@ == swiss_cheese_raster(width as nat, height as nat, noise@),
        r@.wf(),
{
    let n: usize = noise.len();
    let mut cells: Vec<bool> = Vec::with_capacity(n);
    let mut i: usize = 0;
    while i < n
        invariant
            n == noise@.len() == width * height,
            i <= n,
            cells@.len() == i,
            forall|j: int|
                0 <= j < i ==> cells@[j] == swiss_cheese_raster(
                    width as nat,
                    height as nat,
                    noise@,
                ).cells[j],
        decreases n - i,
    {
        cells.push(noise[i] <= CAVITY_THRESHOLD_MILLI);
        i = i + 1;
    }
    let r = DensityMap::from_cells(width, height, cells);
    proof {
        assert(cells@ == swiss_cheese_raster(width as nat, height as nat, noise@).cells);
    }
    r.unwrap()
}

/// Length of a strategy's field: one surface row per column for hilly
/// terrain, one noise level per cell for swiss cheese.
pub open spec fn field_len(strategy: GenerationStrategy, width: nat, height: nat) -> nat {
    match strategy {
        GenerationStrategy::HillyWithNoise => width,
        GenerationStrategy::SwissCheese => width * height,
    }
}

/// Builds the density map of a strategy from its field: surface rows per
/// column for hilly terrain, noise levels per cell for swiss cheese.
pub fn generate(strategy: GenerationStrategy, width: usize, height: usize, field: &Vec<i64>) -> (r:
    DensityMap)
    requires
        field@.len() == field_len(strategy, width as nat, height as nat),
        width * height <= usize::MAX,
    ensures
        r@ == generated_raster(strategy, width as nat, height as nat, field@),
        r@.wf(),
{
    match strategy {
        GenerationStrategy::HillyWithNoise => hilly_density_map(width, height, field),
        GenerationStrategy::SwissCheese => swiss_cheese_density_map(width, height, field),
    }
}

/// Generation is reproducible: the same seed text selects the same strategy,
/// and the same strategy, size and field give the same density map.
pub proof fn lemma_generation_deterministic(
    seed_a: Seq<char>,
    seed_b: Seq<char>,
    width: nat,
    height: nat,
    field_a: Seq<i64>,
    field_b: Seq<i64>,
)
    requires
        seed_a == seed_b,
        field_a == field_b,
    ensures
        strategy_for_seed((text_hash(seed_a) as i32) as int) == strategy_for_seed(
            (text_hash(seed_b) as i32) as int,
        ),
        generated_raster(
            strategy_for_seed((text_hash(seed_a) as i32) as int),
            width,
            height,
            field_a,
        ) == generated_raster(
            strategy_for_seed((text_hash(seed_b) as i32) as int),
            width,
            height,
            field_b,
        ),
{
}

} // verus!
