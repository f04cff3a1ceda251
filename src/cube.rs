use vstd::prelude::*;

use vstd::arithmetic::div_mod::{
    lemma_div_denominator,
    lemma_fundamental_div_mod,
    lemma_fundamental_div_mod_converse,
    lemma_multiply_divide_lt,
};

use crate::segment::{lemma_subdivide_tiles, Segment};

verus! {

/// How long a rearrangement lasts before the cube moves on, in microseconds.
pub const REARRANGE_MICROS: u64 = 1_500_000;

/// The state that a rearrangement hands over to once it is over.
#[derive(Clone, Copy, Debug, PartialEq, Eq, Structural)]
pub enum NextState {
    Simulating,
    Resetting,
}

/// The simulation state of a cube.
#[derive(Clone, Copy, Debug, PartialEq, Eq, Structural)]
pub enum CubeState {
    /// Pieces move freely; every command is accepted.
    Simulating,
    /// The pieces are about to be merged back into one whole cube.
    Resetting,
    /// Pieces drift back to their original arrangement; `elapsed` counts the
    /// microseconds spent so far, and `next` is the state that follows.
    Rearranging { elapsed: u64, next: NextState },
}

/// What a tick does to the motion of the pieces.
#[derive(Clone, Copy, Debug, PartialEq, Eq, Structural)]
pub enum PieceMotion {
    /// Every piece integrates its velocity and angular momentum.
    Integrate,
    /// Every piece moves a step toward its place in the original arrangement.
    Approach,
    /// Every piece moves a step toward its place, and is then set at rest
    /// exactly there: at its segment, unrotated, without motion.
    ApproachThenRest,
    /// The pieces are gone: the cube holds one fresh piece at rest that fills
    /// the whole volume.
    Collapse,
}

/// What the discrete commands of a tick ask of the pieces.
#[derive(Clone, Copy, Debug, PartialEq, Eq, Structural)]
pub enum CommandEffect {
    /// Nothing: no command was given, or none was accepted.
    Unchanged,
    /// Every piece is hurled away from the cube's centre.
    HurlAll,
    /// Every piece's momentum is cancelled: a rearrangement or a reset began.
    CancelMomentum,
}

impl NextState {
    /// The state this stands for.
    pub open spec fn state(self) -> CubeState {
        match self {
            NextState::Simulating => CubeState::Simulating,
            NextState::Resetting => CubeState::Resetting,
        }
    }
}

impl CubeState {
    /// A rearrangement never outlasts its window.
    pub open spec fn wf(self) -> bool {
        self matches CubeState::Rearranging { elapsed, .. } ==> elapsed <= REARRANGE_MICROS
    }
}

/// The state after a tick of `frac` microseconds.
pub open spec fn step_state(s: CubeState, frac: u64) -> CubeState {
    match s {
        CubeState::Simulating => CubeState::Simulating,
        CubeState::Resetting => CubeState::Simulating,
        CubeState::Rearranging { elapsed, next } => if elapsed + frac > REARRANGE_MICROS {
            next.state()
        } else {
            CubeState::Rearranging { elapsed: (elapsed + frac) as u64, next }
        },
    }
}

/// What a tick of `frac` microseconds does to the pieces' motion.
pub open spec fn step_motion(s: CubeState, frac: u64) -> PieceMotion {
    match s {
        CubeState::Simulating => PieceMotion::Integrate,
        CubeState::Resetting => PieceMotion::Collapse,
        CubeState::Rearranging { elapsed, .. } => if elapsed + frac > REARRANGE_MICROS {
            PieceMotion::ApproachThenRest
        } else {
            PieceMotion::Approach
        },
    }
}

/// The pieces after a tick: a reset replaces them all by one whole piece.
pub open spec fn step_segments(s: CubeState, segments: Seq<Segment>) -> Seq<Segment> {
    match s {
        CubeState::Resetting => seq![Segment { x: 0, y: 0, z: 0, divisions: 1 }],
        _ => segments,
    }
}

/// The state after a rearrangement is asked for.
pub open spec fn rearrange_state(s: CubeState) -> CubeState {
    if s is Simulating {
        CubeState::Rearranging { elapsed: 0, next: NextState::Simulating }
    } else {
        s
    }
}

/// The state after a reset is asked for: a reset first rearranges the pieces.
pub open spec fn reset_state(s: CubeState) -> CubeState {
    if s is Simulating {
        CubeState::Rearranging { elapsed: 0, next: NextState::Resetting }
    } else {
        s
    }
}

/// The state after a tick's commands: a hurl takes precedence over a
/// rearrangement, and a rearrangement over a reset.
pub open spec fn command_state(s: CubeState, hurl_all: bool, rearrange: bool, reset: bool) -> CubeState {
    if hurl_all {
        s
    } else if rearrange {
        rearrange_state(s)
    } else if reset {
        reset_state(s)
    } else {
        s
    }
}

/// What a tick's commands ask of the pieces: only a simulating cube accepts
/// any command.
pub open spec fn command_effect(s: CubeState, hurl_all: bool, rearrange: bool, reset: bool) -> CommandEffect {
    if !(s is Simulating) {
        CommandEffect::Unchanged
    } else if hurl_all {
        CommandEffect::HurlAll
    } else if rearrange || reset {
        CommandEffect::CancelMomentum
    } else {
        CommandEffect::Unchanged
    }
}

/// The state after ticks of the given lengths, one after the other.
pub open spec fn run_state(s: CubeState, fracs: Seq<u64>) -> CubeState
    decreases fracs.len(),
{
    if fracs.len() == 0 {
        s
    } else {
        run_state(step_state(s, fracs[0]), fracs.drop_first())
    }
}

/// The pieces after ticks of the given lengths, one after the other.
pub open spec fn run_segments(s: CubeState, segments: Seq<Segment>, fracs: Seq<u64>) -> Seq<
    Segment,
>
    decreases fracs.len(),
{
    if fracs.len() == 0 {
        segments
    } else {
        run_segments(
            step_state(s, fracs[0]),
            step_segments(s, segments),
            fracs.drop_first(),
        )
    }
}

/// The sum of the ticks' lengths.
pub open spec fn total(fracs: Seq<u64>) -> int
    decreases fracs.len(),
{
    if fracs.len() == 0 {
        0
    } else {
        fracs[0] + total(fracs.drop_first())
    }
}

/// The place of the `k`-th of the `count³` parts of a subdivision: `x` runs
/// fastest, then `y`, then `z`.
pub open spec fn loc_of(count: u32, k: int) -> (u32, u32, u32) {
    ((k % count as int) as u32, ((k / count as int) % count as int) as u32, (k / count as int
        / count as int) as u32)
}

/// The places of the `count³` parts of a subdivision, in order.
pub open spec fn part_places(count: u32) -> Seq<(u32, u32, u32)> {
    Seq::new((count * count * count) as nat, |k: int| loc_of(count, k))
}

/// The pieces after piece `index` is broken into `count³` parts: the first
/// part takes its index, the others follow the existing pieces in order.
pub open spec fn exploded(pieces: Seq<Segment>, index: int, count: u32) -> Seq<Segment> {
    pieces.update(index, pieces[index].child(count, (0, 0, 0))) + Seq::new(
        (count * count * count - 1) as nat,
        |k: int| pieces[index].child(count, loc_of(count, k + 1)),
    )
}

/// Whether the point `p / scale`, measured from the cube's lower corner, lies
/// in the unit cube.
pub open spec fn in_unit_cube(p: (int, int, int), scale: int) -> bool {
    &&& 0 <= p.0 < scale
    &&& 0 <= p.1 < scale
    &&& 0 <= p.2 < scale
}

/// Exactly one of the pieces holds the point `p / scale`.
pub open spec fn covered_once(pieces: Seq<Segment>, p: (int, int, int), scale: int) -> bool {
    &&& exists|i: int| 0 <= i < pieces.len() && #[trigger] pieces[i].contains(p, scale)
    &&& forall|i: int, j: int|
        0 <= i < pieces.len() && 0 <= j < pieces.len() && #[trigger] pieces[i].contains(p, scale)
            && #[trigger] pieces[j].contains(p, scale) ==> i == j
}

/// The pieces' original volumes tile the unit cube: no gaps, no overlaps.
pub open spec fn tiles_unit_cube(pieces: Seq<Segment>) -> bool {
    forall|p: (int, int, int), scale: int|
        scale > 0 && in_unit_cube(p, scale) ==> #[trigger] covered_once(pieces, p, scale)
}

/// A cube broken into pieces, and the state of its simulation.
///
/// The pieces are kept in order: a piece's index identifies it, and pieces
/// are only ever replaced in place or appended. Each piece is described here
/// by its place in the original arrangement; its pose and motion, which are
/// real-valued, are kept alongside by index.
pub struct Cube {
    segments: Vec<Segment>,
    state: CubeState,
}

impl Cube {
    /// The pieces, by index.
    pub closed spec fn pieces(&self) -> Seq<Segment> {
        self.segments@
    }

    /// The simulation state.
    pub closed spec fn mode(&self) -> CubeState {
        self.state
    }

    /// Every piece lies in the unit cube, the pieces tile it, and a
    /// rearrangement has not outlasted its window.
    pub closed spec fn wf(&self) -> bool {
        &&& forall|i: int| 0 <= i < self.segments@.len() ==> (#[trigger] self.segments@[i]).wf()
        &&& tiles_unit_cube(self.segments@)
        &&& self.state.wf()
    }

    /// A whole cube: one piece that fills the unit volume, simulating.
    pub fn new() -> (r: Cube)
        ensures
            r.wf(),
            r.pieces() == seq![Segment { x: 0, y: 0, z: 0, divisions: 1 }],
            r.mode() == CubeState::Simulating,
    {
        let segments = vec![Segment::whole()];
        proof {
            lemma_whole_tiles();
            assert(segments@ =~= seq![Segment { x: 0, y: 0, z: 0, divisions: 1 }]);
        }
        Cube { segments, state: CubeState::Simulating }
    }

    /// The pieces, by index.
    pub fn segments(&self) -> (r: &Vec<Segment>)
        ensures
            r@ == self.pieces(),
    {
        &self.segments
    }

    /// The simulation state.
    pub fn state(&self) -> (r: CubeState)
        ensures
            r == self.mode(),
    {
        self.state
    }

    /// Whether a hurl of every piece is accepted now: only while simulating.
    /// Asking changes nothing, so in any other state a hurl is a no-op.
    pub fn try_hurl_all(&self) -> (r: bool)
        ensures
            r == (self.mode() is Simulating),
    {
        matches!(self.state, CubeState::Simulating)
    }

    /// Starts a rearrangement that returns to simulating, if simulating now.
    /// Returns whether it started; the pieces' momentum is then to be
    /// cancelled so that it does not fight the rearrangement.
    pub fn try_rearrange(&mut self) -> (r: bool)
        requires
            old(self).wf(),
        ensures
            final(self).wf(),
            r == (old(self).mode() is Simulating),
            final(self).mode() == rearrange_state(old(self).mode()),
            final(self).pieces() == old(self).pieces(),
    {
        if matches!(self.state, CubeState::Simulating) {
            self.state = CubeState::Rearranging { elapsed: 0, next: NextState::Simulating };
            true
        } else {
            false
        }
    }

    /// Starts a reset, routed through a rearrangement so that the pieces
    /// reassemble before they merge, if simulating now. Returns whether it
    /// started; the pieces' momentum is then to be cancelled.
    pub fn try_reset(&mut self) -> (r: bool)
        requires
            old(self).wf(),
        ensures
            final(self).wf(),
            r == (old(self).mode() is Simulating),
            final(self).mode() == reset_state(old(self).mode()),
            final(self).pieces() == old(self).pieces(),
    {
        if matches!(self.state, CubeState::Simulating) {
            self.state = CubeState::Rearranging { elapsed: 0, next: NextState::Resetting };
            true
        } else {
            false
        }
    }

    /// Carries out the discrete commands of a tick: at most one of them, a
    /// hurl before a rearrangement before a reset. Returns what is then to be
    /// done to the pieces.
    pub fn apply_commands(&mut self, hurl_all: bool, rearrange: bool, reset: bool) -> (r:
        CommandEffect)
        requires
            old(self).wf(),
        ensures
            final(self).wf(),
            r == command_effect(old(self).mode(), hurl_all, rearrange, reset),
            final(self).mode() == command_state(old(self).mode(), hurl_all, rearrange, reset),
            final(self).pieces() == old(self).pieces(),
    {
        if hurl_all {
            if self.try_hurl_all() {
                CommandEffect::HurlAll
            } else {
                CommandEffect::Unchanged
            }
        } else if rearrange {
            if self.try_rearrange() {
                CommandEffect::CancelMomentum
            } else {
                CommandEffect::Unchanged
            }
        } else if reset {
            if self.try_reset() {
                CommandEffect::CancelMomentum
            } else {
                CommandEffect::Unchanged
            }
        } else {
            CommandEffect::Unchanged
        }
    }

    /// Advances the state machine by a tick of `frac` microseconds, and says
    /// what the tick does to the pieces' motion.
    pub fn step(&mut self, frac: u64) -> (r: PieceMotion)
        requires
            old(self).wf(),
        ensures
            final(self).wf(),
            r == step_motion(old(self).mode(), frac),
            final(self).mode() == step_state(old(self).mode(), frac),
            final(self).pieces() == step_segments(old(self).mode(), old(self).pieces()),
    {
        match self.state {
            CubeState::Simulating => PieceMotion::Integrate,
            CubeState::Resetting => {
                self.segments = vec![Segment::whole()];
                self.state = CubeState::Simulating;
                proof {
                    lemma_whole_tiles();
                    assert(self.segments@ =~= seq![Segment { x: 0, y: 0, z: 0, divisions: 1 }]);
                }
                PieceMotion::Collapse
            },
            CubeState::Rearranging { elapsed, next } => {
                if frac > REARRANGE_MICROS - elapsed {
                    self.state =
                    match next {
                        NextState::Simulating => CubeState::Simulating,
                        NextState::Resetting => CubeState::Resetting,
                    };
                    PieceMotion::ApproachThenRest
                } else {
                    self.state = CubeState::Rearranging { elapsed: elapsed + frac, next };
                    PieceMotion::Approach
                }
            },
        }
    }

    /// Whether piece `index` can be broken into `count³` parts: the count is
    /// positive, and the finer grid, the number of parts and the grown
    /// collection all fit the integers that hold them.
    pub open spec fn can_explode(&self, index: usize, count: u32) -> bool {
        &&& index < self.pieces().len()
        &&& count > 0
        &&& count * count * count <= u32::MAX
        &&& self.pieces().len() + count * count * count - 1 <= usize::MAX
        &&& self.pieces()[index as int].can_subdivide(count)
    }

    /// Breaks piece `index` into `count³` equal parts. The part at place
    /// `(0, 0, 0)` takes the piece's index, and the other parts are appended
    /// in order, so every other index keeps its piece. Returns the places of
    /// all parts in that order; each part is then to inherit the piece's motion
    /// and be hurled away from where the piece was.
    pub fn explode_subcube(&mut self, index: usize, count: u32) -> (locs: Vec<(u32, u32, u32)>)
        requires
            old(self).wf(),
            old(self).can_explode(index, count),
        ensures
            final(self).wf(),
            final(self).mode() == old(self).mode(),
            locs@ == part_places(count),
            final(self).pieces() == exploded(old(self).pieces(), index as int, count),
            final(self).pieces().len() == old(self).pieces().len() + count * count * count - 1,
            forall|j: int|
                0 <= j < old(self).pieces().len() && j != index ==> #[trigger] final(self).pieces()[j]
                    == old(self).pieces()[j],
    {
        let ghost before = self.segments@;
        let original = self.segments[index];
        proof {
            assert(original.wf());
            assert(count * count <= count * count * count && 1 <= count * count * count)
                by (nonlinear_arith)
                requires
                    count > 0,
            ;
            lemma_loc_valid(count, 0);
            assert(0int % (count as int) == 0 && 0int / (count as int) == 0) by (nonlinear_arith)
                requires
                    count > 0,
            ;
        }
        let cubed: u32 = count * count * count;
        let first = original.subdivide(count, (0, 0, 0));
        self.segments.set(index, first);
        let mut locs: Vec<(u32, u32, u32)> = Vec::new();
        locs.push((0, 0, 0));
        proof {
            assert(locs@ =~= Seq::new(1, |j: int| loc_of(count, j)));
            assert(self.segments@ =~= before.update(index as int, first) + Seq::new(
                0,
                |j: int| original.child(count, loc_of(count, j + 1)),
            ));
        }
        let mut k: u32 = 1;
        while k < cubed
            invariant
                1 <= k <= cubed,
                cubed == count * count * count,
                count > 0,
                original == before[index as int],
                first == original.child(count, (0, 0, 0)),
                original.wf(),
                original.can_subdivide(count),
                index < before.len(),
                before.len() + cubed - 1 <= usize::MAX,
                forall|i: int| 0 <= i < before.len() ==> (#[trigger] before[i]).wf(),
                self.state == old(self).state,
                self.state.wf(),
                locs@ == Seq::new(k as nat, |j: int| loc_of(count, j)),
                self.segments@ == before.update(index as int, first) + Seq::new(
                    (k - 1) as nat,
                    |j: int| original.child(count, loc_of(count, j + 1)),
                ),
                forall|i: int|
                    0 <= i < self.segments@.len() ==> (#[trigger] self.segments@[i]).wf(),
            decreases cubed - k,
        {
            proof {
                lemma_loc_valid(count, k as int);
            }
            let loc = (k % count, (k / count) % count, k / count / count);
            let part = original.subdivide(count, loc);
            self.segments.push(part);
            locs.push(loc);
            proof {
                assert(locs@ =~= Seq::new((k + 1) as nat, |j: int| loc_of(count, j)));
                assert(self.segments@ =~= before.update(index as int, first) + Seq::new(
                    k as nat,
                    |j: int| original.child(count, loc_of(count, j + 1)),
                ));
            }
            k += 1;
        }
        proof {
            assert(locs@ =~= part_places(count));
            assert forall|p: (int, int, int), scale: int|
                scale > 0 && in_unit_cube(p, scale) implies #[trigger] covered_once(
                self.segments@,
                p,
                scale,
            ) by {
                lemma_explode_covers(before, index as int, count, p, scale);
            }
        }
        locs
    }

    /// Breaks piece `index` as `explode_subcube` does if its edge length is at
    /// least `1 / min_length_recip`, and returns the parts' places. A smaller
    /// piece stays whole and `None` is returned: it is then to be hurled where
    /// it is, which bounds how fine the pieces get.
    pub fn explode_subcube_if_at_least(
        &mut self,
        index: usize,
        count: u32,
        min_length_recip: u64,
    ) -> (r: Option<Vec<(u32, u32, u32)>>)
        requires
            old(self).wf(),
            index < old(self).pieces().len(),
            old(self).pieces()[index as int].divisions <= min_length_recip ==> old(self).can_explode(index, count),
        ensures
            final(self).wf(),
            final(self).mode() == old(self).mode(),
            r is Some <==> old(self).pieces()[index as int].divisions <= min_length_recip,
            r is None ==> final(self).pieces() == old(self).pieces(),
            r matches Some(locs) ==> locs@ == part_places(count) && final(self).pieces() == exploded(
                old(self).pieces(),
                index as int,
                count,
            ),
    {
        if self.segments[index].is_at_least(min_length_recip) {
            Some(self.explode_subcube(index, count))
        } else {
            None
        }
    }
}

proof fn lemma_loc_valid(count: u32, k: int)
    requires
        count > 0,
        0 <= k < count * count * count,
    ensures
        Segment::valid_loc(count, loc_of(count, k)),
        loc_of(count, k).0 == k % count as int,
        loc_of(count, k).1 == (k / count as int) % count as int,
        loc_of(count, k).2 == k / count as int / count as int,
{
    let n = count as int;
    lemma_div_denominator(k, n, n);
    assert(k < (n * n) * n) by (nonlinear_arith)
        requires
            k < n * n * n,
    ;
    assert(n * n > 0) by (nonlinear_arith)
        requires
            n > 0,
    ;
    lemma_multiply_divide_lt(k, n * n, n);
    assert(k / n >= 0) by (nonlinear_arith)
        requires
            k >= 0,
            n > 0,
    ;
    assert(k / n / n >= 0) by (nonlinear_arith)
        requires
            k / n >= 0,
            n > 0,
    ;
}

proof fn lemma_total_nonneg(fracs: Seq<u64>)
    ensures
        total(fracs) >= 0,
    decreases fracs.len(),
{
    if fracs.len() > 0 {
        lemma_total_nonneg(fracs.drop_first());
    }
}

proof fn lemma_run_push(s: CubeState, segments: Seq<Segment>, fracs: Seq<u64>, f: u64)
    ensures
        run_state(s, fracs.push(f)) == step_state(run_state(s, fracs), f),
        run_segments(s, segments, fracs.push(f)) == step_segments(
            run_state(s, fracs),
            run_segments(s, segments, fracs),
        ),
        total(fracs.push(f)) == total(fracs) + f,
    decreases fracs.len(),
{
    let pushed = fracs.push(f);
    assert(pushed[0] == if fracs.len() > 0 { fracs[0] } else { f });
    if fracs.len() > 0 {
        assert(pushed.drop_first() =~= fracs.drop_first().push(f));
        lemma_run_push(step_state(s, fracs[0]), step_segments(s, segments), fracs.drop_first(), f);
    } else {
        assert(pushed.drop_first() =~= fracs);
        assert(run_state(step_state(s, f), fracs) == step_state(s, f));
        assert(run_segments(step_state(s, f), step_segments(s, segments), fracs) == step_segments(
            s,
            segments,
        ));
        assert(total(fracs) == 0);
        assert(total(pushed.drop_first()) == 0);
    }
}

/// While a rearrangement lasts, ticks keep the pieces where they are in the
/// collection and the cube in the rearrangement.
proof fn lemma_rearranging_run(elapsed: u64, next: NextState, segments: Seq<Segment>, fracs: Seq<u64>)
    requires
        elapsed + total(fracs) <= REARRANGE_MICROS,
    ensures
        run_state(CubeState::Rearranging { elapsed, next }, fracs) == (CubeState::Rearranging {
            elapsed: (elapsed + total(fracs)) as u64,
            next,
        }),
        run_segments(CubeState::Rearranging { elapsed, next }, segments, fracs) == segments,
    decreases fracs.len(),
{
    if fracs.len() > 0 {
        lemma_total_nonneg(fracs.drop_first());
        let e = (elapsed + fracs[0]) as u64;
        lemma_rearranging_run(e, next, segments, fracs.drop_first());
    }
}

/// A rearrangement lasts as long as the ticks since it began add up to no
/// more than its window: after any such ticks the cube is still rearranging,
/// every piece still in its place in the collection. The first tick that takes
/// the sum beyond the window ends it: that tick sets every piece at rest in its
/// original place and hands over to the state that was to follow.
pub proof fn lemma_rearranging_window(
    elapsed: u64,
    next: NextState,
    segments: Seq<Segment>,
    fracs: Seq<u64>,
    last: u64,
)
    requires
        elapsed + total(fracs) <= REARRANGE_MICROS,
    ensures
        ({
            let mid = run_state(CubeState::Rearranging { elapsed, next }, fracs);
            &&& mid == (CubeState::Rearranging {
                elapsed: (elapsed + total(fracs)) as u64,
                next,
            })
            &&& run_segments(CubeState::Rearranging { elapsed, next }, segments, fracs) == segments
            &&& elapsed + total(fracs) + last > REARRANGE_MICROS ==> {
                &&& step_state(mid, last) == next.state()
                &&& step_motion(mid, last) == PieceMotion::ApproachThenRest
            }
            &&& elapsed + total(fracs) + last <= REARRANGE_MICROS ==> {
                &&& step_state(mid, last) is Rearranging
                &&& step_motion(mid, last) == PieceMotion::Approach
            }
        }),
{
    lemma_total_nonneg(fracs);
    lemma_rearranging_run(elapsed, next, segments, fracs);
}

/// A reset asked for twice in a row starts once: the second request finds the
/// cube rearranging and changes nothing. Once the ticks since the first
/// request exceed the rearrangement's window, the next tick merges the pieces
/// into one whole piece and the cube simulates again.
pub proof fn lemma_double_reset(segments: Seq<Segment>, fracs: Seq<u64>, last: u64, after: u64)
    requires
        total(fracs) <= REARRANGE_MICROS,
        total(fracs) + last > REARRANGE_MICROS,
    ensures
        ({
            let first = reset_state(CubeState::Simulating);
            let ticks = fracs.push(last).push(after);
            &&& first == (CubeState::Rearranging { elapsed: 0, next: NextState::Resetting })
            &&& reset_state(first) == first
            &&& run_state(first, fracs.push(last)) == CubeState::Resetting
            &&& run_state(first, ticks) == CubeState::Simulating
            &&& run_segments(first, segments, ticks) == seq![
                Segment { x: 0, y: 0, z: 0, divisions: 1 },
            ]
        }),
{
    let first = reset_state(CubeState::Simulating);
    lemma_rearranging_run(0, NextState::Resetting, segments, fracs);
    lemma_run_push(first, segments, fracs, last);
    lemma_run_push(first, segments, fracs.push(last), after);
}

proof fn lemma_whole_tiles()
    ensures
        tiles_unit_cube(seq![Segment { x: 0, y: 0, z: 0, divisions: 1 }]),
{
    let pieces = seq![Segment { x: 0, y: 0, z: 0, divisions: 1 }];
    assert forall|p: (int, int, int), scale: int|
        scale > 0 && in_unit_cube(p, scale) implies #[trigger] covered_once(pieces, p, scale) by {
        assert(pieces[0].contains(p, scale));
    }
}

/// The pieces of a cube tile the unit cube: each of its points lies in the
/// original volume of exactly one piece, however the pieces were broken.
pub proof fn lemma_pieces_tile(cube: &Cube, p: (int, int, int), scale: int)
    requires
        cube.wf(),
        scale > 0,
        in_unit_cube(p, scale),
    ensures
        covered_once(cube.pieces(), p, scale),
{
}

/// The position of the part at `loc` among the `count³` parts.
spec fn index_of_loc(count: u32, loc: (u32, u32, u32)) -> int {
    (loc.2 * count + loc.1) * count + loc.0
}

proof fn lemma_loc_index(count: u32, loc: (u32, u32, u32))
    requires
        count > 0,
        Segment::valid_loc(count, loc),
    ensures
        0 <= index_of_loc(count, loc) < count * count * count,
        loc_of(count, index_of_loc(count, loc)) == loc,
{
    let n = count as int;
    let q = loc.2 * n + loc.1;
    let k = q * n + loc.0;
    assert(0 <= q < n * n && 0 <= k < n * n * n) by (nonlinear_arith)
        requires
            0 <= loc.0 < n,
            0 <= loc.1 < n,
            0 <= loc.2 < n,
            q == loc.2 * n + loc.1,
            k == q * n + loc.0,
    ;
    lemma_fundamental_div_mod_converse(k, n, q, loc.0 as int);
    lemma_fundamental_div_mod_converse(q, n, loc.2 as int, loc.1 as int);
    lemma_loc_valid(count, k);
}

proof fn lemma_loc_injective(count: u32, a: int, b: int)
    requires
        count > 0,
        0 <= a < count * count * count,
        0 <= b < count * count * count,
        loc_of(count, a) == loc_of(count, b),
    ensures
        a == b,
{
    let n = count as int;
    lemma_loc_valid(count, a);
    lemma_loc_valid(count, b);
    lemma_fundamental_div_mod(a, n);
    lemma_fundamental_div_mod(b, n);
    lemma_fundamental_div_mod(a / n, n);
    lemma_fundamental_div_mod(b / n, n);
}

/// Where piece `x` of an exploded collection came from: a part's position
/// among the parts, or `-1` for a piece that was there before.
spec fn part_of(len: int, index: int, x: int) -> int {
    if x == index {
        0
    } else if x >= len {
        x - len + 1
    } else {
        -1
    }
}

proof fn lemma_exploded_at(pieces: Seq<Segment>, index: int, count: u32, x: int)
    requires
        0 <= index < pieces.len(),
        count > 0,
        0 <= x < pieces.len() + count * count * count - 1,
    ensures
        part_of(pieces.len() as int, index, x) == -1 ==> exploded(pieces, index, count)[x]
            == pieces[x],
        part_of(pieces.len() as int, index, x) >= 0 ==> {
            &&& part_of(pieces.len() as int, index, x) < count * count * count
            &&& exploded(pieces, index, count)[x] == pieces[index].child(
                count,
                loc_of(count, part_of(pieces.len() as int, index, x)),
            )
        },
{
    let n = count as int;
    let n3 = count * count * count;
    assert(n3 >= 1) by (nonlinear_arith)
        requires
            count > 0,
            n3 == count * count * count,
    ;
    lemma_fundamental_div_mod_converse(0, n, 0, 0);
    assert(loc_of(count, 0) == (0u32, 0u32, 0u32));
    let e = exploded(pieces, index, count);
    let head = pieces.update(index, pieces[index].child(count, (0, 0, 0)));
    let tail = Seq::new((n3 - 1) as nat, |k: int| pieces[index].child(count, loc_of(count, k + 1)));
    assert(e == head + tail);
    if x < pieces.len() {
        assert(e[x] == head[x]);
    } else {
        assert(e[x] == tail[x - pieces.len()]);
    }
}

/// Breaking a piece into parts keeps each point of the unit cube in exactly
/// one piece, if it was so before.
proof fn lemma_explode_covers(
    pieces: Seq<Segment>,
    index: int,
    count: u32,
    p: (int, int, int),
    scale: int,
)
    requires
        forall|i: int| 0 <= i < pieces.len() ==> (#[trigger] pieces[i]).wf(),
        0 <= index < pieces.len(),
        count > 0,
        pieces[index].can_subdivide(count),
        scale > 0,
        covered_once(pieces, p, scale),
    ensures
        covered_once(exploded(pieces, index, count), p, scale),
{
    let e = exploded(pieces, index, count);
    let len = pieces.len() as int;
    let parent = pieces[index];
    let n3 = count * count * count;
    assert(n3 >= 1) by (nonlinear_arith)
        requires
            count > 0,
            n3 == count * count * count,
    ;
    lemma_subdivide_tiles(parent, count, p, scale);
    let i0 = choose|i: int| 0 <= i < pieces.len() && #[trigger] pieces[i].contains(p, scale);
    if i0 != index {
        lemma_exploded_at(pieces, index, count, i0);
        assert(e[i0].contains(p, scale));
    } else {
        let loc = choose|loc: (u32, u32, u32)|
            Segment::valid_loc(count, loc) && #[trigger] parent.child(count, loc).contains(p, scale);
        lemma_loc_index(count, loc);
        let k = index_of_loc(count, loc);
        let x = if k == 0 {
            index
        } else {
            len + k - 1
        };
        lemma_exploded_at(pieces, index, count, x);
        assert(part_of(len, index, x) == k);
        assert(e[x].contains(p, scale));
    }
    assert forall|a: int, b: int|
        0 <= a < e.len() && 0 <= b < e.len() && #[trigger] e[a].contains(p, scale)
            && #[trigger] e[b].contains(p, scale) implies a == b by {
        lemma_exploded_at(pieces, index, count, a);
        lemma_exploded_at(pieces, index, count, b);
        let ka = part_of(len, index, a);
        let kb = part_of(len, index, b);
        if ka >= 0 {
            lemma_loc_valid(count, ka);
        }
        if kb >= 0 {
            lemma_loc_valid(count, kb);
        }
        if ka >= 0 && kb >= 0 {
            lemma_loc_injective(count, ka, kb);
        } else if ka >= 0 {
            assert(pieces[index].contains(p, scale));
            assert(pieces[b].contains(p, scale));
        } else if kb >= 0 {
            assert(pieces[index].contains(p, scale));
            assert(pieces[a].contains(p, scale));
        } else {
            assert(pieces[a].contains(p, scale));
            assert(pieces[b].contains(p, scale));
        }
    }
}

} // verus!
