use vstd::prelude::*;
use crate::triangles::Triangle;

verus! {

/// A triangle gets a fixture exactly when the physics engine's shape
/// validation accepted it.
pub open spec fn fixture_ok(t: Triangle, accepted: bool) -> bool {
    accepted
}

/// Fixtures for the first `k` triangles, in order.
pub open spec fn fixtures_upto(triangles: Seq<Triangle>, accepted: Seq<bool>, k: nat) -> Seq<Triangle>
    decreases k,
{
    if k == 0 {
        Seq::empty()
    } else {
        let prev = fixtures_upto(triangles, accepted, (k - 1) as nat);
        if fixture_ok(triangles[k - 1], accepted[k - 1]) {
            prev.push(triangles[k - 1])
        } else {
            prev
        }
    }
}

/// The static terrain body: one convex-polygon fixture per triangle that
/// passed validation, attached at the world origin.
pub struct TerrainBody {
    fixtures: Vec<Triangle>,
}

impl View for TerrainBody {
    type V = Seq<Triangle>;

    closed spec fn view(&self) -> Seq<Triangle> {
        self.fixtures@
    }
}

impl TerrainBody {
    /// Builds the body for `triangles`; `accepted[i]` is the physics engine's
    /// verdict on the shape of `triangles[i]`. Rejected triangles are skipped;
    /// construction never fails.
    pub fn build(triangles: &Vec<Triangle>, accepted: &Vec<bool>) -> (r: TerrainBody)
        requires
            accepted@.len() == triangles@.len(),
        ensures
            r@ == fixtures_upto(triangles@, accepted@, triangles@.len() as nat),
            r@.len() <= triangles@.len(),
            forall|j: int|
                0 <= j < r@.len() ==> passed_input(
                    triangles@,
                    accepted@,
                    triangles@.len() as int,
                    #[trigger] r@[j],
                ),
    {
        let mut fixtures: Vec<Triangle> = Vec::new();
        let mut i: usize = 0;
        while i < triangles.len()
            invariant
                i <= triangles@.len(),
                accepted@.len() == triangles@.len(),
                fixtures@ == fixtures_upto(triangles@, accepted@, i as nat),
            decreases triangles@.len() - i,
        {
            let t: Triangle = triangles[i];
            if accepted[i] {
                fixtures.push(t);
            }
            i = i + 1;
        }
        proof {
            lemma_fixture_bound(triangles@, accepted@);
        }
        TerrainBody { fixtures }
    }

    /// The fixtures' triangles, in the order they were attached.
    pub fn fixtures(&self) -> (r: &Vec<Triangle>)
        ensures
            r@ == self@,
    {
        &self.fixtures
    }

    pub fn fixture_count(&self) -> (r: usize)
        ensures
            r == self@.len(),
    {
        self.fixtures.len()
    }
}

/// `t` is one of the first `k` triangles and passed validation.
pub open spec fn passed_input(triangles: Seq<Triangle>, accepted: Seq<bool>, k: int, t: Triangle) -> bool {
    exists|i: int| 0 <= i < k && triangles[i] == t && fixture_ok(triangles[i], accepted[i])
}

proof fn lemma_fixtures_upto(triangles: Seq<Triangle>, accepted: Seq<bool>, k: nat)
    requires
        k <= triangles.len(),
        accepted.len() == triangles.len(),
    ensures
        fixtures_upto(triangles, accepted, k).len() <= k,
        forall|j: int|
            0 <= j < fixtures_upto(triangles, accepted, k).len() ==> passed_input(
                triangles,
                accepted,
                k as int,
                #[trigger] fixtures_upto(triangles, accepted, k)[j],
            ),
    decreases k,
{
    if k > 0 {
        let p = (k - 1) as nat;
        lemma_fixtures_upto(triangles, accepted, p);
        let prev = fixtures_upto(triangles, accepted, p);
        let cur = fixtures_upto(triangles, accepted, k);
        assert forall|j: int| 0 <= j < cur.len() implies passed_input(
            triangles,
            accepted,
            k as int,
            #[trigger] cur[j],
        ) by {
            if j < prev.len() {
                assert(passed_input(triangles, accepted, p as int, prev[j]));
                let i = choose|i: int|
                    0 <= i < p && triangles[i] == prev[j] && fixture_ok(triangles[i], accepted[i]);
                assert(cur[j] == prev[j]);
                assert(0 <= i < k);
            } else {
                assert(cur[j] == triangles[k - 1]);
                assert(fixture_ok(triangles[k - 1], accepted[k - 1]));
            }
        }
    }
}

/// Fixture bound: a body never has more fixtures than input triangles, and
/// every fixture is an input triangle that passed validation.
pub proof fn lemma_fixture_bound(triangles: Seq<Triangle>, accepted: Seq<bool>)
    requires
        accepted.len() == triangles.len(),
    ensures
        fixtures_upto(triangles, accepted, triangles.len()).len() <= triangles.len(),
        forall|j: int|
            0 <= j < fixtures_upto(triangles, accepted, triangles.len()).len() ==> passed_input(
                triangles,
                accepted,
                triangles.len() as int,
                #[trigger] fixtures_upto(triangles, accepted, triangles.len())[j],
            ),
{
    lemma_fixtures_upto(triangles, accepted, triangles.len());
}

} // verus!
