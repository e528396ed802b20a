//! The integer grid of the first search phase and how it grows toward its boundary.
use vstd::prelude::*;
use crate::text::str_eq;

verus! {

broadcast use vstd::string::group_string_axioms;

/// Index bounds of the first phase's grid: flat offsets run from `flat_low` to
/// `flat_high`, short-term and difficulty steps from zero to `s_high` and `d_high`. The
/// `init_` bounds are where the grid started and the `extra_limit`s how far past them it
/// may grow.
#[derive(Debug, Clone, Copy, PartialEq, Eq, Structural)]
pub struct Phase1Bounds {
    pub flat_low: i32,
    pub flat_high: i32,
    pub s_high: i32,
    pub d_high: i32,
    pub init_flat_low: i32,
    pub init_flat_high: i32,
    pub init_s_high: i32,
    pub init_d_high: i32,
    pub flat_extra_limit: i32,
    pub s_extra_limit: i32,
    pub d_extra_limit: i32,
}

pub open spec fn fits(x: int) -> bool {
    i32::MIN <= x <= i32::MAX
}

pub open spec fn max_int(a: int, b: int) -> int {
    if a >= b { a } else { b }
}

pub open spec fn min_int(a: int, b: int) -> int {
    if a <= b { a } else { b }
}

pub open spec fn has_direction(directions: Seq<String>, name: Seq<char>) -> bool {
    exists|i: int| 0 <= i < directions.len() && directions[i]@ == name
}

impl Phase1Bounds {
    pub open spec fn flat_low_limit(self) -> int {
        self.init_flat_low - self.flat_extra_limit
    }

    pub open spec fn flat_high_limit(self) -> int {
        self.init_flat_high + self.flat_extra_limit
    }

    pub open spec fn s_high_limit(self) -> int {
        self.init_s_high + self.s_extra_limit
    }

    pub open spec fn d_high_limit(self) -> int {
        self.init_d_high + self.d_extra_limit
    }

    /// The new lower flat bound when the grid grows downward by `batch`.
    pub open spec fn grown_flat_low(self, batch: int) -> int {
        max_int(self.flat_low - batch, self.flat_low_limit())
    }

    pub open spec fn grown_flat_high(self, batch: int) -> int {
        min_int(self.flat_high + batch, self.flat_high_limit())
    }

    pub open spec fn grown_s_high(self, batch: int) -> int {
        min_int(self.s_high + batch, self.s_high_limit())
    }

    pub open spec fn grown_d_high(self, batch: int) -> int {
        min_int(self.d_high + batch, self.d_high_limit())
    }

    /// The arithmetic of growing in the named directions stays within `i32`.
    pub open spec fn can_expand(self, directions: Seq<String>, batch: int) -> bool {
        &&& has_direction(directions, "flat_low"@) ==> {
            &&& fits(self.flat_low_limit())
            &&& fits(self.flat_low - batch)
            &&& fits(self.flat_low - self.grown_flat_low(batch))
        }
        &&& has_direction(directions, "flat_high"@) ==> {
            &&& fits(self.flat_high_limit())
            &&& fits(self.flat_high + batch)
            &&& fits(self.grown_flat_high(batch) - self.flat_high)
        }
        &&& has_direction(directions, "s_high"@) ==> {
            &&& fits(self.s_high_limit())
            &&& fits(self.s_high + batch)
            &&& fits(self.grown_s_high(batch) - self.s_high)
        }
        &&& has_direction(directions, "d_high"@) ==> {
            &&& fits(self.d_high_limit())
            &&& fits(self.d_high + batch)
            &&& fits(self.grown_d_high(batch) - self.d_high)
        }
    }

    /// One entry of what expanding changed, where it changed something.
    pub open spec fn change(present: bool, name: Seq<char>, delta: int) -> Seq<(Seq<char>, int)> {
        if present && delta > 0 {
            seq![(name, delta)]
        } else {
            seq![]
        }
    }

    /// The directions that grew, each with how many steps, in the order flat_low,
    /// flat_high, s_high, d_high.
    pub open spec fn spec_changes(self, directions: Seq<String>, batch: int) -> Seq<(Seq<char>, int)> {
        Self::change(
            has_direction(directions, "flat_low"@),
            "flat_low"@,
            self.flat_low - self.grown_flat_low(batch),
        ) + Self::change(
            has_direction(directions, "flat_high"@),
            "flat_high"@,
            self.grown_flat_high(batch) - self.flat_high,
        ) + Self::change(
            has_direction(directions, "s_high"@),
            "s_high"@,
            self.grown_s_high(batch) - self.s_high,
        ) + Self::change(
            has_direction(directions, "d_high"@),
            "d_high"@,
            self.grown_d_high(batch) - self.d_high,
        )
    }

    /// The grid after growing by `batch` steps in each named direction.
    pub open spec fn expanded(self, directions: Seq<String>, batch: int) -> Phase1Bounds {
        Phase1Bounds {
            flat_low: (if has_direction(directions, "flat_low"@) {
                self.grown_flat_low(batch)
            } else {
                self.flat_low as int
            }) as i32,
            flat_high: (if has_direction(directions, "flat_high"@) {
                self.grown_flat_high(batch)
            } else {
                self.flat_high as int
            }) as i32,
            s_high: (if has_direction(directions, "s_high"@) {
                self.grown_s_high(batch)
            } else {
                self.s_high as int
            }) as i32,
            d_high: (if has_direction(directions, "d_high"@) {
                self.grown_d_high(batch)
            } else {
                self.d_high as int
            }) as i32,
            ..self
        }
    }

    /// Whether the grid grows after a round of the first phase: growth is on, a promoted
    /// point reached a boundary, and rounds remain.
    pub open spec fn grows_after(expand_enabled: bool, directions: Seq<String>, round: int, rounds: int) -> bool {
        expand_enabled && directions.len() > 0 && round < rounds
    }

    /// After round `round` of `rounds`: grows the grid by `batch` steps, at least one, where
    /// growth is on, some boundary was reached and rounds remain; reports what changed;
    /// and tells whether another round follows, which it does only when the grid grew.
    pub fn after_round(
        &mut self,
        expand_enabled: bool,
        directions: &[String],
        round: i32,
        rounds: i32,
        batch: i32,
    ) -> (r: (Vec<(String, i32)>, bool))
        requires
            Self::grows_after(expand_enabled, directions@, round as int, rounds as int) ==> old(self).can_expand(
                directions@,
                if batch >= 1 { batch as int } else { 1 },
            ),
        ensures
            Self::grows_after(expand_enabled, directions@, round as int, rounds as int) ==> {
                &&& *final(self) == old(self).expanded(directions@, if batch >= 1 { batch as int } else { 1 })
                &&& changes_view(r.0@) == old(self).spec_changes(directions@, if batch >= 1 { batch as int } else { 1 })
            },
            !Self::grows_after(expand_enabled, directions@, round as int, rounds as int) ==> *final(self) == *old(self)
                && r.0@.len() == 0,
            r.1 == (r.0@.len() > 0),
    {
        let step: i32 = if batch >= 1 { batch } else { 1 };
        let changed = if expand_enabled && directions.len() > 0 && round < rounds {
            self.expand(directions, step)
        } else {
            Vec::new()
        };
        let more = changed.len() > 0;
        (changed, more)
    }

    /// Grows the grid by `batch` steps in each named direction, never past the
    /// direction's limit, and reports what changed.
    pub fn expand(&mut self, directions: &[String], batch: i32) -> (changed: Vec<(String, i32)>)
        requires
            old(self).can_expand(directions@, batch as int),
        ensures
            final(self).flat_low == (if has_direction(directions@, "flat_low"@) {
                old(self).grown_flat_low(batch as int)
            } else {
                old(self).flat_low as int
            }),
            final(self).flat_high == (if has_direction(directions@, "flat_high"@) {
                old(self).grown_flat_high(batch as int)
            } else {
                old(self).flat_high as int
            }),
            final(self).s_high == (if has_direction(directions@, "s_high"@) {
                old(self).grown_s_high(batch as int)
            } else {
                old(self).s_high as int
            }),
            final(self).d_high == (if has_direction(directions@, "d_high"@) {
                old(self).grown_d_high(batch as int)
            } else {
                old(self).d_high as int
            }),
            final(self).init_flat_low == old(self).init_flat_low,
            final(self).init_flat_high == old(self).init_flat_high,
            final(self).init_s_high == old(self).init_s_high,
            final(self).init_d_high == old(self).init_d_high,
            final(self).flat_extra_limit == old(self).flat_extra_limit,
            final(self).s_extra_limit == old(self).s_extra_limit,
            final(self).d_extra_limit == old(self).d_extra_limit,
            changes_view(changed@) == old(self).spec_changes(directions@, batch as int),
    {
        let ghost b0 = *self;
        let mut changed: Vec<(String, i32)> = Vec::new();
        if contains_direction(directions, "flat_low") {
            let limit = self.init_flat_low - self.flat_extra_limit;
            let old = self.flat_low;
            let lowered = self.flat_low - batch;
            self.flat_low = if lowered >= limit {
                lowered
            } else {
                limit
            };
            if old - self.flat_low > 0 {
                changed.push(("flat_low".to_string(), old - self.flat_low));
            }
        }
        assert(changes_view(changed@) =~= Self::change(
            has_direction(directions@, "flat_low"@),
            "flat_low"@,
            b0.flat_low - b0.grown_flat_low(batch as int),
        ));
        let ghost c1 = changes_view(changed@);
        if contains_direction(directions, "flat_high") {
            let limit = self.init_flat_high + self.flat_extra_limit;
            let old = self.flat_high;
            let raised = self.flat_high + batch;
            self.flat_high = if raised <= limit {
                raised
            } else {
                limit
            };
            if self.flat_high - old > 0 {
                changed.push(("flat_high".to_string(), self.flat_high - old));
            }
        }
        assert(changes_view(changed@) =~= c1 + Self::change(
            has_direction(directions@, "flat_high"@),
            "flat_high"@,
            b0.grown_flat_high(batch as int) - b0.flat_high,
        ));
        let ghost c2 = changes_view(changed@);
        if contains_direction(directions, "s_high") {
            let limit = self.init_s_high + self.s_extra_limit;
            let old = self.s_high;
            let raised = self.s_high + batch;
            self.s_high = if raised <= limit {
                raised
            } else {
                limit
            };
            if self.s_high - old > 0 {
                changed.push(("s_high".to_string(), self.s_high - old));
            }
        }
        assert(changes_view(changed@) =~= c2 + Self::change(
            has_direction(directions@, "s_high"@),
            "s_high"@,
            b0.grown_s_high(batch as int) - b0.s_high,
        ));
        let ghost c3 = changes_view(changed@);
        if contains_direction(directions, "d_high") {
            let limit = self.init_d_high + self.d_extra_limit;
            let old = self.d_high;
            let raised = self.d_high + batch;
            self.d_high = if raised <= limit {
                raised
            } else {
                limit
            };
            if self.d_high - old > 0 {
                changed.push(("d_high".to_string(), self.d_high - old));
            }
        }
        assert(changes_view(changed@) =~= c3 + Self::change(
            has_direction(directions@, "d_high"@),
            "d_high"@,
            b0.grown_d_high(batch as int) - b0.d_high,
        ));
        changed
    }
}

pub open spec fn changes_view(v: Seq<(String, i32)>) -> Seq<(Seq<char>, int)> {
    v.map_values(|e: (String, i32)| (e.0@, e.1 as int))
}

/// Whether `directions` names `name`.
pub fn contains_direction(directions: &[String], name: &str) -> (b: bool)
    ensures
        b == has_direction(directions@, name@),
{
    let mut i: usize = 0;
    while i < directions.len()
        invariant
            i <= directions@.len(),
            forall|j: int| 0 <= j < i ==> directions@[j]@ != name@,
        decreases directions.len() - i,
    {
        if str_eq(directions[i].as_str(), name) {
            return true;
        }
        i = i + 1;
    }
    false
}


/// On a grid within its limits, growing by a non-negative batch never takes a bound past
/// its limit, and the grid only grows: the lower flat bound does not rise and the upper
/// bounds do not fall; a batch of zero changes nothing.
pub proof fn lemma_expand_within_limits(b: Phase1Bounds, batch: int)
    requires
        batch >= 0,
        b.flat_low >= b.flat_low_limit(),
        b.flat_high <= b.flat_high_limit(),
        b.s_high <= b.s_high_limit(),
        b.d_high <= b.d_high_limit(),
    ensures
        b.flat_low_limit() <= b.grown_flat_low(batch) <= b.flat_low,
        b.flat_high <= b.grown_flat_high(batch) <= b.flat_high_limit(),
        b.s_high <= b.grown_s_high(batch) <= b.s_high_limit(),
        b.d_high <= b.grown_d_high(batch) <= b.d_high_limit(),
        batch == 0 ==> b.grown_flat_low(batch) == b.flat_low && b.grown_flat_high(batch) == b.flat_high
            && b.grown_s_high(batch) == b.s_high && b.grown_d_high(batch) == b.d_high,
{
}

/// What growing reports of one bound: its name and how far it moved, where it moved.
pub open spec fn moved(name: Seq<char>, before: int, after: int) -> Seq<(Seq<char>, int)> {
    if before != after {
        seq![(name, if after > before { after - before } else { before - after })]
    } else {
        seq![]
    }
}

/// Growing a grid within its limits by a non-negative batch: the lower flat bound only
/// falls and the upper bounds only rise, each only when its direction is named, all stay
/// within their limits, nothing else changes, and the report names exactly the bounds
/// that moved, in the order flat_low, flat_high, s_high, d_high, each with how far.
pub proof fn lemma_expand_law(b: Phase1Bounds, directions: Seq<String>, batch: int)
    requires
        batch >= 0,
        b.flat_low >= b.flat_low_limit(),
        b.flat_high <= b.flat_high_limit(),
        b.s_high <= b.s_high_limit(),
        b.d_high <= b.d_high_limit(),
        b.can_expand(directions, batch),
    ensures
        ({
            let e = b.expanded(directions, batch);
            &&& e.flat_low_limit() <= e.flat_low <= b.flat_low
            &&& b.flat_high <= e.flat_high <= e.flat_high_limit()
            &&& b.s_high <= e.s_high <= e.s_high_limit()
            &&& b.d_high <= e.d_high <= e.d_high_limit()
            &&& e.flat_low != b.flat_low ==> has_direction(directions, "flat_low"@)
            &&& e.flat_high != b.flat_high ==> has_direction(directions, "flat_high"@)
            &&& e.s_high != b.s_high ==> has_direction(directions, "s_high"@)
            &&& e.d_high != b.d_high ==> has_direction(directions, "d_high"@)
            &&& e.init_flat_low == b.init_flat_low && e.init_flat_high == b.init_flat_high
            &&& e.init_s_high == b.init_s_high && e.init_d_high == b.init_d_high
            &&& e.flat_extra_limit == b.flat_extra_limit && e.s_extra_limit == b.s_extra_limit
            &&& e.d_extra_limit == b.d_extra_limit
            &&& b.spec_changes(directions, batch) == moved("flat_low"@, b.flat_low as int, e.flat_low as int)
                + moved("flat_high"@, b.flat_high as int, e.flat_high as int) + moved(
                "s_high"@,
                b.s_high as int,
                e.s_high as int,
            ) + moved("d_high"@, b.d_high as int, e.d_high as int)
        }),
{
    lemma_expand_within_limits(b, batch);
    let e = b.expanded(directions, batch);
    assert(Phase1Bounds::change(
        has_direction(directions, "flat_low"@),
        "flat_low"@,
        b.flat_low - b.grown_flat_low(batch),
    ) == moved("flat_low"@, b.flat_low as int, e.flat_low as int));
    assert(Phase1Bounds::change(
        has_direction(directions, "flat_high"@),
        "flat_high"@,
        b.grown_flat_high(batch) - b.flat_high,
    ) == moved("flat_high"@, b.flat_high as int, e.flat_high as int));
    assert(Phase1Bounds::change(
        has_direction(directions, "s_high"@),
        "s_high"@,
        b.grown_s_high(batch) - b.s_high,
    ) == moved("s_high"@, b.s_high as int, e.s_high as int));
    assert(Phase1Bounds::change(
        has_direction(directions, "d_high"@),
        "d_high"@,
        b.grown_d_high(batch) - b.d_high,
    ) == moved("d_high"@, b.d_high as int, e.d_high as int));
}

/// Adds `value` to `values` when `condition` holds and `values` does not hold it yet.
pub fn push_unique(values: &mut Vec<String>, condition: bool, value: &str)
    ensures
        final(values)@.map_values(|s: String| s@) == if condition && !old(values)@.map_values(
            |s: String| s@,
        ).contains(value@) {
            old(values)@.map_values(|s: String| s@).push(value@)
        } else {
            old(values)@.map_values(|s: String| s@)
        },
{
    if !condition {
        return;
    }
    let ghost before = values@.map_values(|s: String| s@);
    let mut i: usize = 0;
    while i < values.len()
        invariant
            i <= values@.len(),
            before == values@.map_values(|s: String| s@),
            forall|j: int| 0 <= j < i ==> values@[j]@ != value@,
        decreases values.len() - i,
    {
        if str_eq(values[i].as_str(), value) {
            assert(before[i as int] == value@);
            return;
        }
        i = i + 1;
    }
    assert(!before.contains(value@));
    values.push(value.to_string());
    assert(values@.map_values(|s: String| s@) =~= before.push(value@));
}

proof fn lemma_direction_names_distinct()
    ensures
        "flat_low"@ != "flat_high"@,
        "flat_low"@ != "s_high"@,
        "flat_low"@ != "d_high"@,
        "flat_high"@ != "s_high"@,
        "flat_high"@ != "d_high"@,
        "s_high"@ != "d_high"@,
{
    reveal_strlit("flat_low");
    reveal_strlit("flat_high");
    reveal_strlit("s_high");
    reveal_strlit("d_high");
    assert("flat_low"@.len() == 8);
    assert("flat_high"@.len() == 9);
    assert("s_high"@.len() == 6);
    assert("d_high"@.len() == 6);
    assert("s_high"@[0] != "d_high"@[0]);
}

proof fn lemma_contains_push_if(v: Seq<Seq<char>>, w: Seq<Seq<char>>, c: bool, x: Seq<char>)
    requires
        w == (if c && !v.contains(x) { v.push(x) } else { v }),
    ensures
        forall|y: Seq<char>| #[trigger] w.contains(y) <==> (v.contains(y) || (c && y == x)),
{
    assert forall|y: Seq<char>| #[trigger] w.contains(y) <==> (v.contains(y) || (c && y == x)) by {
        if c && !v.contains(x) {
            if w.contains(y) {
                let j = choose|j: int| 0 <= j < w.len() && w[j] == y;
                if j < v.len() {
                    assert(v[j] == y);
                }
            }
            if v.contains(y) {
                let j = choose|j: int| 0 <= j < v.len() && v[j] == y;
                assert(w[j] == y);
            }
            if y == x {
                assert(w[v.len() as int] == y);
            }
        }
    }
}

/// Where a promoted point sits on the grid: its flat, short-term and difficulty indices.
pub type GridIndex = (i32, i32, i32);

pub open spec fn at_flat_low(idx: Seq<GridIndex>, b: Phase1Bounds) -> bool {
    exists|i: int| 0 <= i < idx.len() && idx[i].0 <= b.flat_low
}

pub open spec fn at_flat_high(idx: Seq<GridIndex>, b: Phase1Bounds) -> bool {
    exists|i: int| 0 <= i < idx.len() && idx[i].0 >= b.flat_high
}

pub open spec fn at_s_high(idx: Seq<GridIndex>, b: Phase1Bounds) -> bool {
    exists|i: int| 0 <= i < idx.len() && idx[i].1 >= b.s_high
}

pub open spec fn at_d_high(idx: Seq<GridIndex>, b: Phase1Bounds) -> bool {
    exists|i: int| 0 <= i < idx.len() && idx[i].2 >= b.d_high
}

pub open spec fn named_if(present: bool, name: Seq<char>) -> Seq<Seq<char>> {
    if present {
        seq![name]
    } else {
        seq![]
    }
}

/// The boundaries that promoted points reach, in sorted order: d_high, flat_high,
/// flat_low, s_high.
pub open spec fn spec_boundary_directions(idx: Seq<GridIndex>, b: Phase1Bounds) -> Seq<Seq<char>> {
    named_if(at_d_high(idx, b), "d_high"@) + named_if(at_flat_high(idx, b), "flat_high"@) + named_if(
        at_flat_low(idx, b),
        "flat_low"@,
    ) + named_if(at_s_high(idx, b), "s_high"@)
}

fn push_if(out: &mut Vec<String>, present: bool, name: &str)
    ensures
        final(out)@.map_values(|s: String| s@) == old(out)@.map_values(|s: String| s@) + named_if(
            present,
            name@,
        ),
{
    let ghost before = out@.map_values(|s: String| s@);
    if present {
        out.push(name.to_string());
    }
    assert(out@.map_values(|s: String| s@) =~= before + named_if(present, name@));
}

/// The directions in which the grid should grow: those of its boundaries that some
/// promoted point reaches.
pub fn phase1_boundary_directions(indices: &Vec<GridIndex>, bounds: &Phase1Bounds) -> (r: Vec<String>)
    ensures
        r@.map_values(|s: String| s@) == spec_boundary_directions(indices@, *bounds),
{
    let mut found: Vec<String> = Vec::new();
    let mut i: usize = 0;
    proof {
        assert(found@.map_values(|s: String| s@) =~= Seq::<Seq<char>>::empty());
    }
    while i < indices.len()
        invariant
            i <= indices@.len(),
            found@.map_values(|s: String| s@).contains("flat_low"@) <==> at_flat_low(indices@.take(i as int), *bounds),
            found@.map_values(|s: String| s@).contains("flat_high"@) <==> at_flat_high(indices@.take(i as int), *bounds),
            found@.map_values(|s: String| s@).contains("s_high"@) <==> at_s_high(indices@.take(i as int), *bounds),
            found@.map_values(|s: String| s@).contains("d_high"@) <==> at_d_high(indices@.take(i as int), *bounds),
        decreases indices.len() - i,
    {
        let (flat_idx, s_idx, d_idx) = indices[i];
        let ghost t0 = indices@.take(i as int);
        let ghost t1 = indices@.take(i + 1);
        assert(t1[i as int] == indices@[i as int]);
        assert forall|j: int| 0 <= j < i implies t1[j] == t0[j] by {}
        proof {
            lemma_direction_names_distinct();
        }
        let ghost f0 = found@.map_values(|s: String| s@);
        push_unique(&mut found, flat_idx <= bounds.flat_low, "flat_low");
        proof { lemma_contains_push_if(f0, found@.map_values(|s: String| s@), flat_idx <= bounds.flat_low, "flat_low"@); }
        let ghost f1 = found@.map_values(|s: String| s@);
        push_unique(&mut found, flat_idx >= bounds.flat_high, "flat_high");
        proof { lemma_contains_push_if(f1, found@.map_values(|s: String| s@), flat_idx >= bounds.flat_high, "flat_high"@); }
        let ghost f2 = found@.map_values(|s: String| s@);
        push_unique(&mut found, s_idx >= bounds.s_high, "s_high");
        proof { lemma_contains_push_if(f2, found@.map_values(|s: String| s@), s_idx >= bounds.s_high, "s_high"@); }
        let ghost f3 = found@.map_values(|s: String| s@);
        push_unique(&mut found, d_idx >= bounds.d_high, "d_high");
        proof { lemma_contains_push_if(f3, found@.map_values(|s: String| s@), d_idx >= bounds.d_high, "d_high"@); }
        proof {
            assert(at_flat_low(t1, *bounds) <==> (at_flat_low(t0, *bounds) || flat_idx <= bounds.flat_low));
            assert(at_flat_high(t1, *bounds) <==> (at_flat_high(t0, *bounds) || flat_idx >= bounds.flat_high));
            assert(at_s_high(t1, *bounds) <==> (at_s_high(t0, *bounds) || s_idx >= bounds.s_high));
            assert(at_d_high(t1, *bounds) <==> (at_d_high(t0, *bounds) || d_idx >= bounds.d_high));
        }
        i = i + 1;
    }
    assert(indices@.take(indices@.len() as int) =~= indices@);
    let mut out: Vec<String> = Vec::new();
    assert(out@.map_values(|s: String| s@) =~= Seq::<Seq<char>>::empty());
    let ghost fv = found@.map_values(|s: String| s@);
    let d = contains_direction(found.as_slice(), "d_high");
    let fh = contains_direction(found.as_slice(), "flat_high");
    let fl = contains_direction(found.as_slice(), "flat_low");
    let sh = contains_direction(found.as_slice(), "s_high");
    proof {
        assert(d == fv.contains("d_high"@)) by {
            if d {
                let j = choose|j: int| 0 <= j < found@.len() && found@[j]@ == "d_high"@;
                assert(fv[j] == "d_high"@);
            }
            if fv.contains("d_high"@) {
                let j = choose|j: int| 0 <= j < fv.len() && fv[j] == "d_high"@;
                assert(found@[j]@ == "d_high"@);
            }
        }
        assert(fh == fv.contains("flat_high"@)) by {
            if fh {
                let j = choose|j: int| 0 <= j < found@.len() && found@[j]@ == "flat_high"@;
                assert(fv[j] == "flat_high"@);
            }
            if fv.contains("flat_high"@) {
                let j = choose|j: int| 0 <= j < fv.len() && fv[j] == "flat_high"@;
                assert(found@[j]@ == "flat_high"@);
            }
        }
        assert(fl == fv.contains("flat_low"@)) by {
            if fl {
                let j = choose|j: int| 0 <= j < found@.len() && found@[j]@ == "flat_low"@;
                assert(fv[j] == "flat_low"@);
            }
            if fv.contains("flat_low"@) {
                let j = choose|j: int| 0 <= j < fv.len() && fv[j] == "flat_low"@;
                assert(found@[j]@ == "flat_low"@);
            }
        }
        assert(sh == fv.contains("s_high"@)) by {
            if sh {
                let j = choose|j: int| 0 <= j < found@.len() && found@[j]@ == "s_high"@;
                assert(fv[j] == "s_high"@);
            }
            if fv.contains("s_high"@) {
                let j = choose|j: int| 0 <= j < fv.len() && fv[j] == "s_high"@;
                assert(found@[j]@ == "s_high"@);
            }
        }
    }
    push_if(&mut out, d, "d_high");
    push_if(&mut out, fh, "flat_high");
    push_if(&mut out, fl, "flat_low");
    push_if(&mut out, sh, "s_high");
    out
}

} // verus!
