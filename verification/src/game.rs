use vstd::prelude::*;

verus! {

use vstd::assert_seqs_equal;
use crate::render::{
    AssetId, RenderRequest, DISPLAY_HEIGHT, DISPLAY_WIDTH, GREEN, NEUTRAL, RED, SS_DISPLAY_HEIGHT,
    SS_DISPLAY_WIDTH, TARGET_HEIGHT, TARGET_WIDTH,
};
use crate::rng::{next_state, Rng32};
use crate::target::{target_box_wf, target_hit, Target};

/// Population floor and cap of the hostile collection: a refill pass tops it
/// up to exactly this count.
pub const EVIL_TARGET_CAP: usize = 5;

/// Population floor and cap of the friendly collection.
pub const HERO_TARGET_CAP: usize = 3;

/// Point value of a standard hostile target.
pub const EVIL_BOUNTY: u16 = 50;

/// Point value of the bonus hostile variant.
pub const BONUS_BOUNTY: u16 = 100;

/// Point value deducted when a friendly target is hit.
pub const HERO_BOUNTY: u16 = 30;

/// Fixed lifetime of the bonus hostile variant, in ticks.
pub const BONUS_LIFETIME: usize = 2000;

/// No spawned target (bonus variant aside) lives shorter than this: the
/// lifetime jitter is clamped to this floor, not to a range.
pub const LIFETIME_FLOOR: usize = 5000;

/// Base interval between bonus spawns, in ticks; a jitter of
/// `0..BONUS_JITTER_RANGE` is added to it on every draw.
pub const BONUS_INTERVAL: usize = 8000;

/// Exclusive upper bound of the bonus spawn-timing jitter.
pub const BONUS_JITTER_RANGE: u32 = 3000;

/// The countdown readout loses at most one unit per this many elapsed ticks.
pub const COUNTDOWN_PERIOD: usize = 1000;

/// Volume proxy value the audio gate must exceed to count touches as shots.
pub const VOLUME_THRESHOLD: u16 = 2000;

/// How many candidate positions one placement search may draw before giving
/// up. The search is rejection sampling over a mostly-free screen, so in
/// practice the first few candidates succeed; the budget exists only because
/// every loop here must provably terminate, and it is large enough that
/// exhausting it is unreachable in any real session.
pub const POS_DRAW_BUDGET: u64 = 0xFFFF_FFFF;

/// The whole mutable state of the engine. Hardware concerns (display, digit
/// readouts, microphone, clock) stay outside: inputs arrive as arguments and
/// display side effects leave as [`RenderRequest`] values.
pub struct Game {
    /// Hostile targets: hitting one rewards the score.
    pub evil_targets: Vec<Target>,
    /// Friendly targets: hitting one penalizes the score, floored at 0.
    pub hero_targets: Vec<Target>,
    /// Running score; never underflows below 0.
    pub score: u16,
    /// Countdown readout value; monotonically non-increasing, floored at 0.
    pub countdown: u16,
    /// Pseudo-random source for lifetimes, positions and bonus timing.
    pub rand: Rng32,
    /// Latest tick handed in by the external clock; non-decreasing.
    pub tick: usize,
    /// Tick at which the last bonus hostile target was spawned.
    pub last_super_trump_render_time: usize,
    /// Tick at which the countdown readout was last redrawn.
    pub last_ssd_render_time: usize,
}

/// A target consistent with the current tick: born in the past, and with
/// corner arithmetic that stays in `u16` range.
pub open spec fn target_wf(t: Target, tick: usize) -> bool {
    &&& t.birthday <= tick
    &&& target_box_wf(t)
}

pub open spec fn all_targets_wf(s: Seq<Target>, tick: usize) -> bool {
    forall|i: int| 0 <= i < s.len() ==> target_wf(#[trigger] s[i], tick)
}

/// A target still within its age window at `tick`.
pub open spec fn is_live(t: Target, tick: usize) -> bool {
    tick - t.birthday <= t.lifetime
}

/// Inclusive containment of a point in a corner-defined box. Both edges
/// count as inside; this is the (lenient) primitive the overlap test and the
/// reserved-rectangle test are built from.
pub open spec fn in_box(p: (int, int), ul: (int, int), lr: (int, int)) -> bool {
    &&& ul.0 <= p.0 <= lr.0
    &&& ul.1 <= p.1 <= lr.1
}

/// The corner-containment overlap test: a candidate footprint at `pos`
/// "overlaps" the existing target exactly when one of the candidate's four
/// corners falls inside the target's corner-defined box. This is weaker than
/// full rectangle intersection — two rectangles crossing without a candidate
/// corner inside report no overlap — and that leniency is deliberate: spawn
/// density depends on it.
pub open spec fn overlaps(t: Target, pos: (u16, u16)) -> bool {
    let ul = (t.x as int, t.y as int);
    let lr = (t.x + t.width, t.y + t.height);
    let x1 = pos.0 as int;
    let y1 = pos.1 as int;
    let x2 = pos.0 + TARGET_WIDTH;
    let y2 = pos.1 + TARGET_HEIGHT;
    ||| in_box((x1, y1), ul, lr)
    ||| in_box((x2, y2), ul, lr)
    ||| in_box((x1, y2), ul, lr)
    ||| in_box((x2, y1), ul, lr)
}

/// Whether a candidate footprint at `pos` touches a reserved readout
/// rectangle: its top-left corner, or that corner offset by the target
/// width, falls inside either the score readout (screen top-left) or the
/// countdown readout (screen top-right). On every position the allocator can
/// draw (`pos.0 + TARGET_WIDTH <= DISPLAY_WIDTH`) the top-left corner cannot
/// reach the countdown box unless the offset corner is already in it, and
/// the offset corner cannot reach the score box unless the top-left corner
/// is, so there this coincides with testing only the two extreme pairs.
pub open spec fn in_reserved_ui(pos: (u16, u16)) -> bool {
    let top_left = (pos.0 as int, pos.1 as int);
    let top_right = (pos.0 + TARGET_WIDTH, pos.1 as int);
    let score_ul = (0int, 0int);
    let score_lr = (SS_DISPLAY_WIDTH as int, SS_DISPLAY_HEIGHT as int);
    let timer_ul = (DISPLAY_WIDTH - SS_DISPLAY_WIDTH, 0int);
    let timer_lr = (DISPLAY_WIDTH as int, SS_DISPLAY_HEIGHT as int);
    ||| in_box(top_left, score_ul, score_lr)
    ||| in_box(top_left, timer_ul, timer_lr)
    ||| in_box(top_right, score_ul, score_lr)
    ||| in_box(top_right, timer_ul, timer_lr)
}

/// An acceptable spawn position: clear of both reserved readout rectangles
/// and of every existing target under the corner-containment test.
pub open spec fn pos_ok(pos: (u16, u16), heroes: Seq<Target>, evils: Seq<Target>) -> bool {
    &&& !in_reserved_ui(pos)
    &&& forall|i: int| 0 <= i < heroes.len() ==> !overlaps(#[trigger] heroes[i], pos)
    &&& forall|i: int| 0 <= i < evils.len() ==> !overlaps(#[trigger] evils[i], pos)
}

/// Magnitude of the louder of the two microphone samples.
pub open spec fn volume_proxy(data0: i16, data1: i16) -> int {
    let a0 = if data0 < 0 { -(data0 as int) } else { data0 as int };
    let a1 = if data1 < 0 { -(data1 as int) } else { data1 as int };
    if a0 > a1 {
        a0
    } else {
        a1
    }
}

/// Whether a sample pair passes the audio gate.
pub open spec fn vol_exceeds(data0: i16, data1: i16) -> bool {
    volume_proxy(data0, data1) > VOLUME_THRESHOLD as int
}

/// Shape of a hostile target the refill pass appends: standard footprint,
/// born now, fully on screen, and either the standard variant with a
/// floor-clamped jittered lifetime or the bonus variant with its fixed
/// higher bounty and short fixed lifetime.
pub open spec fn spawned_evil_ok(t: Target, tick: usize) -> bool {
    &&& t.width == TARGET_WIDTH
    &&& t.height == TARGET_HEIGHT
    &&& t.birthday == tick
    &&& t.x + TARGET_WIDTH <= DISPLAY_WIDTH
    &&& t.y + TARGET_HEIGHT <= DISPLAY_HEIGHT
    &&& ((t.bounty == EVIL_BOUNTY && LIFETIME_FLOOR <= t.lifetime <= 0x3FFF) || (t.bounty
        == BONUS_BOUNTY && t.lifetime == BONUS_LIFETIME))
}

/// Shape of a friendly target the refill pass appends: standard footprint,
/// born now, fully on screen, fixed bounty, floor-clamped jittered lifetime.
/// Friendly targets have no bonus variant.
pub open spec fn spawned_hero_ok(t: Target, tick: usize) -> bool {
    &&& t.width == TARGET_WIDTH
    &&& t.height == TARGET_HEIGHT
    &&& t.birthday == tick
    &&& t.x + TARGET_WIDTH <= DISPLAY_WIDTH
    &&& t.y + TARGET_HEIGHT <= DISPLAY_HEIGHT
    &&& t.bounty == HERO_BOUNTY
    &&& LIFETIME_FLOOR <= t.lifetime <= 0x3FFF
}

/// The draw request a hostile spawn issues: the bonus variant gets its
/// distinct picture.
pub open spec fn evil_draw(t: Target) -> RenderRequest {
    RenderRequest::DrawAsset {
        x: t.x,
        y: t.y,
        width: TARGET_WIDTH,
        height: TARGET_HEIGHT,
        asset: if t.bounty == BONUS_BOUNTY {
            AssetId::Bonus
        } else {
            AssetId::Hostile
        },
    }
}

/// The draw request a friendly spawn issues.
pub open spec fn hero_draw(t: Target) -> RenderRequest {
    RenderRequest::DrawAsset {
        x: t.x,
        y: t.y,
        width: TARGET_WIDTH,
        height: TARGET_HEIGHT,
        asset: AssetId::Friendly,
    }
}

/// Whether enough ticks have elapsed since the last countdown redraw for the
/// countdown to move.
pub open spec fn countdown_fires(last_render: usize, tick: usize) -> bool {
    tick - last_render >= COUNTDOWN_PERIOD
}

/// The countdown value after one clock update: down one unit when a full
/// period has elapsed and the value is still positive; otherwise unchanged.
/// It never drops below 0.
pub open spec fn countdown_step(cd: u16, last_render: usize, tick: usize) -> u16 {
    if countdown_fires(last_render, tick) && cd > 0 {
        (cd - 1) as u16
    } else {
        cd
    }
}

/// The predicate a target must satisfy to survive a purge at `tick`.
pub open spec fn live_pred(tick: usize) -> spec_fn(Target) -> bool {
    |t: Target| is_live(t, tick)
}

/// The clear request issued when a target is removed from the screen.
pub open spec fn clear_of(t: Target) -> RenderRequest {
    RenderRequest::ClearRegion { x: t.x, y: t.y, width: t.width, height: t.height }
}

/// The clear requests a purge pass over `s` issues: one per expired target,
/// in the order the pass visits them (descending index).
pub open spec fn purge_events(s: Seq<Target>, tick: usize) -> Seq<RenderRequest>
    decreases s.len(),
{
    if s.len() == 0 {
        Seq::empty()
    } else {
        (if !is_live(s.last(), tick) {
            seq![clear_of(s.last())]
        } else {
            Seq::empty()
        }) + purge_events(s.drop_last(), tick)
    }
}

/// The predicate a target must satisfy to be hit by some touch of the batch.
pub open spec fn hit_pred(touches: Seq<(u16, u16)>) -> spec_fn(Target) -> bool {
    |t: Target| target_hit(t, touches)
}

/// The predicate a target must satisfy to survive a shooting pass: no touch
/// of the batch lands inside it.
pub open spec fn miss_pred(touches: Seq<(u16, u16)>) -> spec_fn(Target) -> bool {
    |t: Target| !target_hit(t, touches)
}

/// The score after one hostile hit: the bounty is added with the natural
/// wrapping behavior of the 16-bit counter (no overflow guard beyond the
/// width).
pub open spec fn score_after_evil_hit(sc: u16, bounty: u16) -> u16 {
    vstd::wrapping::u16_specs::wrapping_add(sc, bounty)
}

/// The score after one friendly hit: the bounty is deducted, floored at 0 —
/// a deduction larger than the score leaves exactly 0, never a wrapped
/// value.
pub open spec fn score_after_hero_hit(sc: u16, bounty: u16) -> u16 {
    if sc < bounty {
        0
    } else {
        (sc - bounty) as u16
    }
}

/// One hit applied to the score, for either collection.
pub open spec fn hit_step(sc: u16, bounty: u16, friendly: bool) -> u16 {
    if friendly {
        score_after_hero_hit(sc, bounty)
    } else {
        score_after_evil_hit(sc, bounty)
    }
}

/// The score redraw a hit requests: the new value, in the affirmative color
/// for gains and the warning color for losses.
pub open spec fn score_render(sc: u16, friendly: bool) -> RenderRequest {
    RenderRequest::ScoreDigits { value: sc, color: if friendly { RED } else { GREEN } }
}

/// One shooting pass over a collection, given the hit targets in index
/// order: the pass visits them descending, so the score threads through the
/// hits from the highest index down, and each hit contributes a clear
/// request followed by a score redraw with the value right after that hit.
/// Returns the final score and the requests in emission order.
pub open spec fn resolve_hits(sc: u16, hits: Seq<Target>, friendly: bool) -> (u16, Seq<
    RenderRequest,
>)
    decreases hits.len(),
{
    if hits.len() == 0 {
        (sc, Seq::empty())
    } else {
        let t = hits.last();
        let sc1 = hit_step(sc, t.bounty, friendly);
        let rest = resolve_hits(sc1, hits.drop_last(), friendly);
        (rest.0, seq![clear_of(t), score_render(sc1, friendly)] + rest.1)
    }
}

/// The candidate top-left position one draw pair yields: uniform over the
/// display area that leaves room for a full target footprint.
pub open spec fn candidate_pos(state: u32) -> (u16, u16) {
    (
        (next_state(state) as int % (DISPLAY_WIDTH - TARGET_WIDTH + 1)) as u16,
        (next_state(next_state(state)) as int % (DISPLAY_HEIGHT - TARGET_HEIGHT + 1)) as u16,
    )
}

/// The first acceptable candidate within `fuel` draw pairs, together with
/// the generator state right after it; `None` when every candidate in that
/// window is rejected.
pub open spec fn first_ok_pos(
    state: u32,
    fuel: nat,
    heroes: Seq<Target>,
    evils: Seq<Target>,
) -> Option<((u16, u16), u32)>
    decreases fuel,
{
    if fuel == 0 {
        None
    } else {
        let pos = candidate_pos(state);
        let next = next_state(next_state(state));
        if pos_ok(pos, heroes, evils) {
            Some((pos, next))
        } else {
            first_ok_pos(next, (fuel - 1) as nat, heroes, evils)
        }
    }
}

/// What a lifetime draw makes of a raw 32-bit value: the low 14 bits, then
/// clamped to a floor of `LIFETIME_FLOOR` ticks. The result is never below
/// the floor, whatever the draw.
pub open spec fn lifetime_from_draw(draw: u32) -> usize {
    let masked = (draw & 0x3FFF) as usize;
    if masked > LIFETIME_FLOOR {
        masked
    } else {
        LIFETIME_FLOOR
    }
}

/// One hostile refill iteration, as a pure function of the generator state
/// and the state of the pass: one lifetime draw, the position search, one
/// jitter draw, and the bonus decision — the spawn is the bonus variant
/// exactly when `tick - last >= BONUS_INTERVAL + jitter`, and only then is
/// the bonus clock restamped. Yields the appended target, the generator
/// state after the iteration, and the new bonus stamp; `None` when the
/// position search gives up.
pub open spec fn evil_spawn_step(
    state: u32,
    heroes: Seq<Target>,
    evils: Seq<Target>,
    tick: usize,
    last: usize,
) -> Option<(Target, u32, usize)> {
    let s1 = next_state(state);
    match first_ok_pos(s1, POS_DRAW_BUDGET as nat, heroes, evils) {
        None => None,
        Some(found) => {
            let pos = found.0;
            let jitter_draw = next_state(found.1);
            let jitter = (jitter_draw % BONUS_JITTER_RANGE) as usize;
            if tick - last >= BONUS_INTERVAL + jitter {
                Some(
                    (
                        Target {
                            x: pos.0,
                            y: pos.1,
                            width: TARGET_WIDTH,
                            height: TARGET_HEIGHT,
                            bounty: BONUS_BOUNTY,
                            birthday: tick,
                            lifetime: BONUS_LIFETIME,
                        },
                        jitter_draw,
                        tick,
                    ),
                )
            } else {
                Some(
                    (
                        Target {
                            x: pos.0,
                            y: pos.1,
                            width: TARGET_WIDTH,
                            height: TARGET_HEIGHT,
                            bounty: EVIL_BOUNTY,
                            birthday: tick,
                            lifetime: lifetime_from_draw(s1),
                        },
                        jitter_draw,
                        last,
                    ),
                )
            }
        },
    }
}

/// The whole hostile refill pass, iterated from the entry generator state:
/// spawn until the cap is reached or a position search gives up. Yields the
/// final hostile collection, the generator state after the pass, and the
/// final bonus stamp (the yielded state is meaningful only when the cap was
/// reached; a pass that gave up has spent draws the search does not count).
pub open spec fn evil_refill(
    state: u32,
    heroes: Seq<Target>,
    evils: Seq<Target>,
    tick: usize,
    last: usize,
) -> (Seq<Target>, u32, usize)
    decreases EVIL_TARGET_CAP - evils.len(),
{
    if evils.len() >= EVIL_TARGET_CAP {
        (evils, state, last)
    } else {
        match evil_spawn_step(state, heroes, evils, tick, last) {
            None => (evils, state, last),
            Some(step) => evil_refill(step.1, heroes, evils.push(step.0), tick, step.2),
        }
    }
}

/// One friendly refill iteration: one lifetime draw and the position search.
/// Friendly targets have no bonus variant and no jitter draw.
pub open spec fn hero_spawn_step(
    state: u32,
    heroes: Seq<Target>,
    evils: Seq<Target>,
    tick: usize,
) -> Option<(Target, u32)> {
    let s1 = next_state(state);
    match first_ok_pos(s1, POS_DRAW_BUDGET as nat, heroes, evils) {
        None => None,
        Some(found) => Some(
            (
                Target {
                    x: found.0.0,
                    y: found.0.1,
                    width: TARGET_WIDTH,
                    height: TARGET_HEIGHT,
                    bounty: HERO_BOUNTY,
                    birthday: tick,
                    lifetime: lifetime_from_draw(s1),
                },
                found.1,
            ),
        ),
    }
}

/// The whole friendly refill pass, against a fixed hostile collection.
pub open spec fn hero_refill(
    state: u32,
    heroes: Seq<Target>,
    evils: Seq<Target>,
    tick: usize,
) -> (Seq<Target>, u32)
    decreases HERO_TARGET_CAP - heroes.len(),
{
    if heroes.len() >= HERO_TARGET_CAP {
        (heroes, state)
    } else {
        match hero_spawn_step(state, heroes, evils, tick) {
            None => (heroes, state),
            Some(step) => hero_refill(step.1, heroes.push(step.0), evils, tick),
        }
    }
}

/// Splitting a suffix at its first element: `skip(i)` is that element
/// followed by `skip(i + 1)`.
proof fn lemma_seq_cons_skip<A>(s: Seq<A>, i: int)
    requires
        0 <= i < s.len(),
    ensures
        s.skip(i) == seq![s[i]] + s.skip(i + 1),
{
    assert_seqs_equal!(s.skip(i), seq![s[i]] + s.skip(i + 1));
}

/// Filtering a one-element sequence keeps or drops that element.
proof fn lemma_filter_singleton<A>(x: A, pred: spec_fn(A) -> bool)
    ensures
        seq![x].filter(pred) == (if pred(x) {
            seq![x]
        } else {
            Seq::<A>::empty()
        }),
{
    reveal_with_fuel(Seq::filter, 3);
    assert(seq![x].drop_last() =~= Seq::<A>::empty());
    assert(seq![x].drop_last().filter(pred) == Seq::<A>::empty().filter(pred));
    if pred(x) {
        assert(Seq::<A>::empty().push(x) =~= seq![x]);
    }
}

/// How a purge pass's event list grows when one more (lower-index) target is
/// put in front of the targets already visited: its clear request, if any,
/// comes after all of theirs.
proof fn lemma_purge_events_cons(t: Target, s: Seq<Target>, tick: usize)
    ensures
        purge_events(seq![t] + s, tick) == purge_events(s, tick) + (if !is_live(t, tick) {
            seq![clear_of(t)]
        } else {
            Seq::<RenderRequest>::empty()
        }),
    decreases s.len(),
{
    let u = seq![t] + s;
    let tail: Seq<RenderRequest> = if !is_live(t, tick) {
        seq![clear_of(t)]
    } else {
        Seq::empty()
    };
    if s.len() == 0 {
        assert(u =~= seq![t]);
        assert(u.drop_last() =~= Seq::<Target>::empty());
        assert(purge_events(Seq::<Target>::empty(), tick) == Seq::<RenderRequest>::empty());
        assert(purge_events(u, tick) == tail + purge_events(u.drop_last(), tick));
        assert(purge_events(u, tick) =~= purge_events(s, tick) + tail);
    } else {
        let head: Seq<RenderRequest> = if !is_live(s.last(), tick) {
            seq![clear_of(s.last())]
        } else {
            Seq::empty()
        };
        assert(u.last() == s.last());
        assert(u.drop_last() =~= seq![t] + s.drop_last());
        lemma_purge_events_cons(t, s.drop_last(), tick);
        assert(purge_events(u.drop_last(), tick) == purge_events(s.drop_last(), tick) + tail);
        assert(purge_events(u, tick) == head + purge_events(u.drop_last(), tick));
        assert(purge_events(s, tick) == head + purge_events(s.drop_last(), tick));
        assert(purge_events(u, tick) =~= purge_events(s, tick) + tail);
    }
}

/// How a shooting pass extends when one more (lower-index) hit target is put
/// in front of the hits already resolved: its score step applies last, and
/// its two requests come after all of theirs.
proof fn lemma_resolve_hits_cons(sc: u16, t: Target, s: Seq<Target>, friendly: bool)
    ensures
        ({
            let whole = resolve_hits(sc, seq![t] + s, friendly);
            let rest = resolve_hits(sc, s, friendly);
            let sc1 = hit_step(rest.0, t.bounty, friendly);
            &&& whole.0 == sc1
            &&& whole.1 == rest.1 + seq![clear_of(t), score_render(sc1, friendly)]
        }),
    decreases s.len(),
{
    let u = seq![t] + s;
    if s.len() == 0 {
        assert(u =~= seq![t]);
        assert(u.drop_last() =~= Seq::<Target>::empty());
        let sc1 = hit_step(sc, t.bounty, friendly);
        assert(resolve_hits(sc1, u.drop_last(), friendly) == (sc1, Seq::<RenderRequest>::empty()));
        assert(resolve_hits(sc, u, friendly).1 =~= resolve_hits(sc, s, friendly).1 + seq![
            clear_of(t),
            score_render(sc1, friendly),
        ]);
    } else {
        assert(u.last() == s.last());
        assert(u.drop_last() =~= seq![t] + s.drop_last());
        let sc1 = hit_step(sc, s.last().bounty, friendly);
        lemma_resolve_hits_cons(sc1, t, s.drop_last(), friendly);
        let rest2 = resolve_hits(sc1, s.drop_last(), friendly);
        let sct = hit_step(rest2.0, t.bounty, friendly);
        assert(resolve_hits(sc1, u.drop_last(), friendly).0 == sct);
        assert(resolve_hits(sc, u, friendly).0 == sct);
        assert(resolve_hits(sc, s, friendly).0 == rest2.0);
        assert(resolve_hits(sc, u, friendly).1 == seq![clear_of(s.last()), score_render(sc1, friendly)]
            + (rest2.1 + seq![clear_of(t), score_render(sct, friendly)]));
        assert(resolve_hits(sc, s, friendly).1 == seq![clear_of(s.last()), score_render(sc1, friendly)]
            + rest2.1);
        assert(resolve_hits(sc, u, friendly).1 =~= resolve_hits(sc, s, friendly).1 + seq![
            clear_of(t),
            score_render(sct, friendly),
        ]);
    }
}

impl Game {
    /// Basic well-formedness of the aggregate: collections within their
    /// caps, event stamps not in the future, every target born in the past
    /// with in-range corner arithmetic.
    pub open spec fn wf(self) -> bool {
        &&& self.evil_targets@.len() <= EVIL_TARGET_CAP
        &&& self.hero_targets@.len() <= HERO_TARGET_CAP
        &&& self.last_ssd_render_time <= self.tick
        &&& self.last_super_trump_render_time <= self.tick
        &&& all_targets_wf(self.evil_targets@, self.tick)
        &&& all_targets_wf(self.hero_targets@, self.tick)
    }

    /// Request the initial score readout: 0 in the neutral color.
    pub fn init(&self) -> (r: RenderRequest)
        ensures
            r == (RenderRequest::ScoreDigits { value: 0, color: NEUTRAL }),
    {
        RenderRequest::ScoreDigits { value: 0, color: NEUTRAL }
    }

    /// Record the latest clock reading. The external clock is monotonic, so
    /// the new reading is never older than the stored one.
    pub fn update_tick(&mut self, tick: usize)
        requires
            old(self).wf(),
            old(self).tick <= tick,
        ensures
            final(self).wf(),
            final(self).tick == tick,
            final(self).evil_targets@ == old(self).evil_targets@,
            final(self).hero_targets@ == old(self).hero_targets@,
            final(self).score == old(self).score,
            final(self).countdown == old(self).countdown,
            final(self).rand == old(self).rand,
            final(self).last_super_trump_render_time == old(self).last_super_trump_render_time,
            final(self).last_ssd_render_time == old(self).last_ssd_render_time,
    {
        self.tick = tick;
    }

    /// Take a fresh clock reading and move the countdown: once per elapsed
    /// period it drops by one unit — never below 0 — and a redraw of the
    /// countdown readout is requested.
    pub fn update_countdown(&mut self, tick: usize) -> (r: Option<RenderRequest>)
        requires
            old(self).wf(),
            old(self).tick <= tick,
        ensures
            final(self).wf(),
            final(self).tick == tick,
            final(self).countdown == countdown_step(
                old(self).countdown,
                old(self).last_ssd_render_time,
                tick,
            ),
            final(self).last_ssd_render_time == (if countdown_fires(
                old(self).last_ssd_render_time,
                tick,
            ) {
                tick
            } else {
                old(self).last_ssd_render_time
            }),
            r == (if countdown_fires(old(self).last_ssd_render_time, tick) {
                Some(
                    RenderRequest::CountdownDigits {
                        value: final(self).countdown,
                        color: NEUTRAL,
                    },
                )
            } else {
                None::<RenderRequest>
            }),
            final(self).evil_targets@ == old(self).evil_targets@,
            final(self).hero_targets@ == old(self).hero_targets@,
            final(self).score == old(self).score,
            final(self).rand == old(self).rand,
            final(self).last_super_trump_render_time == old(self).last_super_trump_render_time,
    {
        self.update_tick(tick);
        if self.tick - self.last_ssd_render_time >= COUNTDOWN_PERIOD {
            if self.countdown > 0 {
                self.countdown -= 1;
            }
            self.last_ssd_render_time = self.tick;
            Some(RenderRequest::CountdownDigits { value: self.countdown, color: NEUTRAL })
        } else {
            None
        }
    }

    /// Top both collections back up to their population floors: hostile
    /// targets to [`EVIL_TARGET_CAP`], then friendly targets to
    /// [`HERO_TARGET_CAP`]. Each iteration draws a jittered lifetime and an
    /// acceptable position, appends exactly one target — a hostile spawn
    /// becomes the bonus variant when the jittered bonus interval has
    /// elapsed, which also restamps the bonus clock — and requests one draw
    /// of the matching picture. The caps are never exceeded; a pass stops
    /// short of a floor only when a whole position-search budget finds no
    /// acceptable candidate, which is unreachable in practice.
    ///
    /// The whole pass is a pure function of the entry generator state: the
    /// contract pins the spawned hostile targets and the bonus stamp to
    /// [`evil_refill`], and — whenever the hostile pass reached its cap, so
    /// that the generator state between the passes is determined — the
    /// friendly targets to [`hero_refill`]. See
    /// [`crate::laws::lemma_evil_refill_reaches_floor`] and
    /// [`crate::laws::lemma_bonus_decision`] for what that model guarantees.
    pub fn draw_missing_targets(&mut self) -> (events: Vec<RenderRequest>)
        requires
            old(self).wf(),
        ensures
            final(self).wf(),
            old(self).evil_targets@.len() <= final(self).evil_targets@.len() <= EVIL_TARGET_CAP,
            old(self).hero_targets@.len() <= final(self).hero_targets@.len() <= HERO_TARGET_CAP,
            final(self).evil_targets@.take(old(self).evil_targets@.len() as int) == old(
                self,
            ).evil_targets@,
            final(self).hero_targets@.take(old(self).hero_targets@.len() as int) == old(
                self,
            ).hero_targets@,
            ({
                let er = evil_refill(
                    old(self).rand.state,
                    old(self).hero_targets@,
                    old(self).evil_targets@,
                    old(self).tick,
                    old(self).last_super_trump_render_time,
                );
                let hr = hero_refill(er.1, old(self).hero_targets@, er.0, old(self).tick);
                &&& final(self).evil_targets@ == er.0
                &&& final(self).last_super_trump_render_time == er.2
                &&& er.0.len() == EVIL_TARGET_CAP ==> {
                    &&& final(self).hero_targets@ == hr.0
                    &&& (hr.0.len() == HERO_TARGET_CAP ==> final(self).rand.state == hr.1)
                }
            }),
            forall|k: int|
                old(self).evil_targets@.len() <= k < final(self).evil_targets@.len() ==> {
                    &&& spawned_evil_ok(#[trigger] final(self).evil_targets@[k], old(self).tick)
                    &&& pos_ok(
                        (final(self).evil_targets@[k].x, final(self).evil_targets@[k].y),
                        old(self).hero_targets@,
                        final(self).evil_targets@.take(k),
                    )
                },
            forall|k: int|
                old(self).hero_targets@.len() <= k < final(self).hero_targets@.len() ==> {
                    &&& spawned_hero_ok(#[trigger] final(self).hero_targets@[k], old(self).tick)
                    &&& pos_ok(
                        (final(self).hero_targets@[k].x, final(self).hero_targets@[k].y),
                        final(self).hero_targets@.take(k),
                        final(self).evil_targets@,
                    )
                },
            forall|k1: int, k2: int|
                #![trigger final(self).evil_targets@[k1], final(self).evil_targets@[k2]]
                old(self).evil_targets@.len() <= k1 < k2 < final(self).evil_targets@.len() ==> !(
                final(self).evil_targets@[k1].bounty == BONUS_BOUNTY
                    && final(self).evil_targets@[k2].bounty == BONUS_BOUNTY),
            final(self).last_super_trump_render_time == (if exists|k: int|
                old(self).evil_targets@.len() <= k < final(self).evil_targets@.len() && (
                #[trigger] final(self).evil_targets@[k]).bounty == BONUS_BOUNTY {
                old(self).tick
            } else {
                old(self).last_super_trump_render_time
            }),
            old(self).tick - old(self).last_super_trump_render_time < BONUS_INTERVAL
                ==> forall|k: int|
                old(self).evil_targets@.len() <= k < final(self).evil_targets@.len() ==> (
                #[trigger] final(self).evil_targets@[k]).bounty == EVIL_BOUNTY,
            (final(self).evil_targets@.len() > old(self).evil_targets@.len() && old(self).tick
                - old(self).last_super_trump_render_time >= BONUS_INTERVAL + (BONUS_JITTER_RANGE
                - 1)) ==> final(self).evil_targets@[old(self).evil_targets@.len() as int].bounty
                == BONUS_BOUNTY,
            events@.len() == (final(self).evil_targets@.len() - old(self).evil_targets@.len()) + (
            final(self).hero_targets@.len() - old(self).hero_targets@.len()),
            forall|k: int|
                old(self).evil_targets@.len() <= k < final(self).evil_targets@.len()
                    ==> events@[k - old(self).evil_targets@.len()] == evil_draw(
                    #[trigger] final(self).evil_targets@[k],
                ),
            forall|k: int|
                old(self).hero_targets@.len() <= k < final(self).hero_targets@.len()
                    ==> events@[(final(self).evil_targets@.len() - old(
                    self,
                ).evil_targets@.len()) + (k - old(self).hero_targets@.len())] == hero_draw(
                    #[trigger] final(self).hero_targets@[k],
                ),
            final(self).score == old(self).score,
            final(self).countdown == old(self).countdown,
            final(self).tick == old(self).tick,
            final(self).last_ssd_render_time == old(self).last_ssd_render_time,
    {
        let ghost oe = self.evil_targets@;
        let ghost oh = self.hero_targets@;
        let ghost tick0 = self.tick;
        let ghost ols = self.last_super_trump_render_time;
        let ghost sc0 = self.score;
        let ghost cd0 = self.countdown;
        let ghost ssd0 = self.last_ssd_render_time;
        let ghost s0 = self.rand.state;
        let ghost er = evil_refill(s0, oh, oe, tick0, ols);
        let mut events: Vec<RenderRequest> = Vec::new();
        let mut gave_up: bool = false;

        proof {
            assert(self.evil_targets@.take(oe.len() as int) =~= oe);
            assert(self.hero_targets@.take(oh.len() as int) =~= oh);
        }
        while self.evil_targets.len() < EVIL_TARGET_CAP && !gave_up
            invariant
                self.hero_targets@ == oh,
                self.tick == tick0,
                self.score == sc0,
                self.countdown == cd0,
                self.last_ssd_render_time == ssd0,
                ssd0 <= tick0,
                ols <= tick0,
                oh.len() <= HERO_TARGET_CAP,
                all_targets_wf(oh, tick0),
                oe.len() <= self.evil_targets@.len() <= EVIL_TARGET_CAP,
                self.evil_targets@.take(oe.len() as int) == oe,
                all_targets_wf(self.evil_targets@, tick0),
                self.last_super_trump_render_time <= tick0,
                forall|k: int|
                    oe.len() <= k < self.evil_targets@.len() ==> {
                        &&& spawned_evil_ok(#[trigger] self.evil_targets@[k], tick0)
                        &&& pos_ok(
                            (self.evil_targets@[k].x, self.evil_targets@[k].y),
                            oh,
                            self.evil_targets@.take(k),
                        )
                    },
                forall|k1: int, k2: int|
                    #![trigger self.evil_targets@[k1], self.evil_targets@[k2]]
                    oe.len() <= k1 < k2 < self.evil_targets@.len() ==> !(
                    self.evil_targets@[k1].bounty == BONUS_BOUNTY && self.evil_targets@[k2].bounty
                        == BONUS_BOUNTY),
                self.last_super_trump_render_time == (if exists|k: int|
                    oe.len() <= k < self.evil_targets@.len() && (
                    #[trigger] self.evil_targets@[k]).bounty == BONUS_BOUNTY {
                    tick0
                } else {
                    ols
                }),
                tick0 - ols < BONUS_INTERVAL ==> forall|k: int|
                    oe.len() <= k < self.evil_targets@.len() ==> (
                    #[trigger] self.evil_targets@[k]).bounty == EVIL_BOUNTY,
                (self.evil_targets@.len() > oe.len() && tick0 - ols >= BONUS_INTERVAL + (
                BONUS_JITTER_RANGE - 1)) ==> self.evil_targets@[oe.len() as int].bounty
                    == BONUS_BOUNTY,
                events@.len() == self.evil_targets@.len() - oe.len(),
                forall|k: int|
                    oe.len() <= k < self.evil_targets@.len() ==> events@[k - oe.len()]
                        == evil_draw(#[trigger] self.evil_targets@[k]),
                er == evil_refill(s0, oh, oe, tick0, ols),
                !gave_up ==> ({
                    let rest = evil_refill(
                        self.rand.state,
                        oh,
                        self.evil_targets@,
                        tick0,
                        self.last_super_trump_render_time,
                    );
                    er.0 == rest.0 && er.1 == rest.1 && er.2 == rest.2
                }),
                gave_up ==> er.0 == self.evil_targets@ && er.2
                    == self.last_super_trump_render_time,
                gave_up ==> self.evil_targets@.len() < EVIL_TARGET_CAP,
            decreases
                    2 * (EVIL_TARGET_CAP - self.evil_targets@.len()) + (if gave_up {
                        0int
                    } else {
                        1int
                    }),
        {
            let ghost state_pre = self.rand.state;
            let ghost last_pre = self.last_super_trump_render_time;
            let lifetime = Self::get_rnd_lifetime(&mut self.rand);
            let ghost pre_state = self.rand.state;
            let maybe_pos = Self::get_rnd_pos(
                &mut self.rand,
                &self.hero_targets,
                &self.evil_targets,
            );
            let ghost search_state = self.rand.state;
            match maybe_pos {
                None => {
                    gave_up = true;
                    proof {
                        assert(first_ok_pos(
                            pre_state,
                            POS_DRAW_BUDGET as nat,
                            oh,
                            self.evil_targets@,
                        ) is None);
                        assert(evil_spawn_step(state_pre, oh, self.evil_targets@, tick0, last_pre)
                            is None);
                        assert(evil_refill(state_pre, oh, self.evil_targets@, tick0, last_pre) == (
                        self.evil_targets@,
                        state_pre,
                        last_pre,
                        ));
                    }
                },
                Some(pos) => {
                    let ghost before = self.evil_targets@;
                    let evil_target = Target::new(
                        pos.0,
                        pos.1,
                        TARGET_WIDTH,
                        TARGET_HEIGHT,
                        EVIL_BOUNTY,
                        self.tick,
                        lifetime,
                    );
                    let super_evil_target = Target::new(
                        pos.0,
                        pos.1,
                        TARGET_WIDTH,
                        TARGET_HEIGHT,
                        BONUS_BOUNTY,
                        self.tick,
                        BONUS_LIFETIME,
                    );
                    let jitter_draw = self.rand.rand();
                    let jitter: usize = (jitter_draw % BONUS_JITTER_RANGE) as usize;
                    if self.tick - self.last_super_trump_render_time >= BONUS_INTERVAL + jitter {
                        events.push(
                            RenderRequest::DrawAsset {
                                x: pos.0,
                                y: pos.1,
                                width: TARGET_WIDTH,
                                height: TARGET_HEIGHT,
                                asset: AssetId::Bonus,
                            },
                        );
                        self.last_super_trump_render_time = self.tick;
                        self.evil_targets.push(super_evil_target);
                        proof {
                            assert(self.evil_targets@[before.len() as int] == super_evil_target);
                            assert(oe.len() <= before.len() < self.evil_targets@.len() && (
                            self.evil_targets@[before.len() as int]).bounty == BONUS_BOUNTY);
                        }
                    } else {
                        events.push(
                            RenderRequest::DrawAsset {
                                x: pos.0,
                                y: pos.1,
                                width: TARGET_WIDTH,
                                height: TARGET_HEIGHT,
                                asset: AssetId::Hostile,
                            },
                        );
                        self.evil_targets.push(evil_target);
                        proof {
                            assert(self.evil_targets@[before.len() as int] == evil_target);
                            if exists|k: int|
                                oe.len() <= k < before.len() && (#[trigger] before[k]).bounty
                                    == BONUS_BOUNTY {
                                let k0 = choose|k: int|
                                    oe.len() <= k < before.len() && (#[trigger] before[k]).bounty
                                        == BONUS_BOUNTY;
                                assert((self.evil_targets@[k0]).bounty == BONUS_BOUNTY);
                            } else {
                                assert forall|k: int|
                                    oe.len() <= k < self.evil_targets@.len() implies (
                                #[trigger] self.evil_targets@[k]).bounty != BONUS_BOUNTY by {
                                    if k < before.len() {
                                        assert(self.evil_targets@[k] == before[k]);
                                        assert(!(oe.len() <= k < before.len() && before[k].bounty
                                            == BONUS_BOUNTY));
                                    } else {
                                        assert(self.evil_targets@[k] == evil_target);
                                    }
                                }
                            }
                        }
                    }
                    proof {
                        assert(self.evil_targets@.take(oe.len() as int) =~= oe);
                        assert(self.evil_targets@.take(before.len() as int) =~= before);
                        assert forall|k: int| oe.len() <= k < before.len() implies #[trigger] self
                            .evil_targets@.take(k) == before.take(k) by {
                            assert(self.evil_targets@.take(k) =~= before.take(k));
                        }
                        assert forall|k: int| oe.len() <= k < before.len() implies (
                        #[trigger] self.evil_targets@[k]) == before[k] by {}
                        // this iteration followed one spawn step of the model
                        let t = self.evil_targets@[before.len() as int];
                        assert(first_ok_pos(pre_state, POS_DRAW_BUDGET as nat, oh, before) == Some(
                            (pos, search_state),
                        ));
                        assert(evil_spawn_step(state_pre, oh, before, tick0, last_pre) == Some(
                            (t, self.rand.state, self.last_super_trump_render_time),
                        ));
                        assert(evil_refill(state_pre, oh, before, tick0, last_pre) == evil_refill(
                            self.rand.state,
                            oh,
                            self.evil_targets@,
                            tick0,
                            self.last_super_trump_render_time,
                        ));
                    }
                },
            }
        }

        let ghost ea = self.evil_targets@;
        let ghost ev_evil = events@;
        let ghost lsa = self.last_super_trump_render_time;
        let ghost s_h = self.rand.state;
        let ghost hr0 = hero_refill(s_h, oh, ea, tick0);
        proof {
            if !gave_up {
                assert(evil_refill(s_h, oh, ea, tick0, lsa) == (ea, s_h, lsa));
            }
            assert(er.0 == ea && er.2 == lsa);
            assert(!gave_up ==> er.1 == s_h && ea.len() == EVIL_TARGET_CAP);
            assert(gave_up ==> ea.len() < EVIL_TARGET_CAP);
        }
        let mut hero_gave_up: bool = false;

        while self.hero_targets.len() < HERO_TARGET_CAP && !hero_gave_up
            invariant
                self.evil_targets@ == ea,
                self.tick == tick0,
                self.score == sc0,
                self.countdown == cd0,
                self.last_ssd_render_time == ssd0,
                self.last_super_trump_render_time == lsa,
                ssd0 <= tick0,
                lsa <= tick0,
                ea.len() <= EVIL_TARGET_CAP,
                all_targets_wf(ea, tick0),
                oh.len() <= self.hero_targets@.len() <= HERO_TARGET_CAP,
                self.hero_targets@.take(oh.len() as int) == oh,
                all_targets_wf(self.hero_targets@, tick0),
                forall|k: int|
                    oh.len() <= k < self.hero_targets@.len() ==> {
                        &&& spawned_hero_ok(#[trigger] self.hero_targets@[k], tick0)
                        &&& pos_ok(
                            (self.hero_targets@[k].x, self.hero_targets@[k].y),
                            self.hero_targets@.take(k),
                            ea,
                        )
                    },
                events@.len() == (ea.len() - oe.len()) + (self.hero_targets@.len() - oh.len()),
                events@.take((ea.len() - oe.len()) as int) == ev_evil,
                ev_evil.len() == ea.len() - oe.len(),
                forall|k: int|
                    oh.len() <= k < self.hero_targets@.len() ==> events@[(ea.len() - oe.len()) + (k
                        - oh.len())] == hero_draw(#[trigger] self.hero_targets@[k]),
                hr0 == hero_refill(s_h, oh, ea, tick0),
                !hero_gave_up ==> ({
                    let rest = hero_refill(self.rand.state, self.hero_targets@, ea, tick0);
                    hr0.0 == rest.0 && hr0.1 == rest.1
                }),
                hero_gave_up ==> hr0.0 == self.hero_targets@,
                hero_gave_up ==> self.hero_targets@.len() < HERO_TARGET_CAP,
            decreases
                    2 * (HERO_TARGET_CAP - self.hero_targets@.len()) + (if hero_gave_up {
                        0int
                    } else {
                        1int
                    }),
        {
            let ghost state_pre = self.rand.state;
            let lifetime = Self::get_rnd_lifetime(&mut self.rand);
            let ghost pre_state = self.rand.state;
            let maybe_pos = Self::get_rnd_pos(
                &mut self.rand,
                &self.hero_targets,
                &self.evil_targets,
            );
            match maybe_pos {
                None => {
                    hero_gave_up = true;
                    proof {
                        assert(first_ok_pos(
                            pre_state,
                            POS_DRAW_BUDGET as nat,
                            self.hero_targets@,
                            ea,
                        ) is None);
                        assert(hero_spawn_step(state_pre, self.hero_targets@, ea, tick0) is None);
                        assert(hero_refill(state_pre, self.hero_targets@, ea, tick0) == (
                        self.hero_targets@,
                        state_pre,
                        ));
                    }
                },
                Some(pos) => {
                    let ghost before = self.hero_targets@;
                    let hero_target = Target::new(
                        pos.0,
                        pos.1,
                        TARGET_WIDTH,
                        TARGET_HEIGHT,
                        HERO_BOUNTY,
                        self.tick,
                        lifetime,
                    );
                    events.push(
                        RenderRequest::DrawAsset {
                            x: pos.0,
                            y: pos.1,
                            width: TARGET_WIDTH,
                            height: TARGET_HEIGHT,
                            asset: AssetId::Friendly,
                        },
                    );
                    self.hero_targets.push(hero_target);
                    proof {
                        assert(self.hero_targets@.take(oh.len() as int) =~= oh);
                        assert(self.hero_targets@.take(before.len() as int) =~= before);
                        assert(events@.take((ea.len() - oe.len()) as int) =~= ev_evil);
                        assert forall|k: int| oh.len() <= k < before.len() implies #[trigger] self
                            .hero_targets@.take(k) == before.take(k) by {
                            assert(self.hero_targets@.take(k) =~= before.take(k));
                        }
                        // this iteration followed one spawn step of the model
                        let t = self.hero_targets@[before.len() as int];
                        assert(first_ok_pos(pre_state, POS_DRAW_BUDGET as nat, before, ea) == Some(
                            (pos, self.rand.state),
                        ));
                        assert(hero_spawn_step(state_pre, before, ea, tick0) == Some(
                            (t, self.rand.state),
                        ));
                        assert(hero_refill(state_pre, before, ea, tick0) == hero_refill(
                            self.rand.state,
                            self.hero_targets@,
                            ea,
                            tick0,
                        ));
                    }
                },
            }
        }
        proof {
            if !hero_gave_up {
                assert(hero_refill(self.rand.state, self.hero_targets@, ea, tick0) == (
                self.hero_targets@,
                self.rand.state,
                ));
            }
            assert(hr0.0 == self.hero_targets@);
            if er.0.len() == EVIL_TARGET_CAP {
                assert(!gave_up);
                assert(hero_refill(er.1, oh, er.0, tick0) == hr0);
            }
        }
        events
    }

    /// Expire old targets: every target whose age exceeds its lifetime
    /// leaves its collection — exactly those, no fewer, no more — and a
    /// clear request is issued for each one's rectangle. Both collections
    /// are visited in descending index order, so the requests of each
    /// collection come highest index first.
    pub fn purge_old_targets(&mut self) -> (events: Vec<RenderRequest>)
        requires
            old(self).wf(),
        ensures
            final(self).wf(),
            final(self).evil_targets@ == old(self).evil_targets@.filter(
                live_pred(old(self).tick),
            ),
            final(self).hero_targets@ == old(self).hero_targets@.filter(live_pred(old(self).tick)),
            events@ == purge_events(old(self).evil_targets@, old(self).tick) + purge_events(
                old(self).hero_targets@,
                old(self).tick,
            ),
            forall|i: int|
                0 <= i < final(self).evil_targets@.len() ==> is_live(
                    #[trigger] final(self).evil_targets@[i],
                    old(self).tick,
                ),
            forall|i: int|
                0 <= i < final(self).hero_targets@.len() ==> is_live(
                    #[trigger] final(self).hero_targets@[i],
                    old(self).tick,
                ),
            final(self).score == old(self).score,
            final(self).countdown == old(self).countdown,
            final(self).tick == old(self).tick,
            final(self).rand == old(self).rand,
            final(self).last_super_trump_render_time == old(self).last_super_trump_render_time,
            final(self).last_ssd_render_time == old(self).last_ssd_render_time,
    {
        let tick = self.tick;
        let mut events = Self::purge_collection(&mut self.evil_targets, tick);
        let mut hero_events = Self::purge_collection(&mut self.hero_targets, tick);
        events.append(&mut hero_events);
        proof {
            assert forall|i: int| 0 <= i < self.evil_targets@.len() implies is_live(
                #[trigger] self.evil_targets@[i],
                tick,
            ) by {
                old(self).evil_targets@.lemma_filter_pred(live_pred(tick), i);
            }
            assert forall|i: int| 0 <= i < self.hero_targets@.len() implies is_live(
                #[trigger] self.hero_targets@[i],
                tick,
            ) by {
                old(self).hero_targets@.lemma_filter_pred(live_pred(tick), i);
            }
        }
        events
    }

    /// One purge pass over a single collection, in descending index order so
    /// a removal never shifts an index the pass has yet to visit.
    fn purge_collection(targets: &mut Vec<Target>, tick: usize) -> (events: Vec<RenderRequest>)
        requires
            all_targets_wf(old(targets)@, tick),
        ensures
            final(targets)@ == old(targets)@.filter(live_pred(tick)),
            events@ == purge_events(old(targets)@, tick),
            final(targets)@.len() <= old(targets)@.len(),
            all_targets_wf(final(targets)@, tick),
    {
        let ghost orig = targets@;
        let mut events: Vec<RenderRequest> = Vec::new();
        let mut i: usize = targets.len();
        proof {
            assert(orig.skip(orig.len() as int) =~= Seq::<Target>::empty());
            assert(orig.take(orig.len() as int) =~= orig);
            assert(targets@ =~= orig.take(i as int) + orig.skip(i as int).filter(live_pred(tick)));
        }
        while i > 0
            invariant
                i <= orig.len(),
                all_targets_wf(orig, tick),
                targets@ == orig.take(i as int) + orig.skip(i as int).filter(live_pred(tick)),
                events@ == purge_events(orig.skip(i as int), tick),
                targets@.len() <= orig.len(),
                all_targets_wf(targets@, tick),
            decreases i,
        {
            i -= 1;
            let ghost pre = targets@;
            let ghost kept = orig.skip(i + 1 as int).filter(live_pred(tick));
            proof {
                assert(orig.take(i + 1 as int).len() == i + 1);
                assert(pre[i as int] == orig.take(i + 1 as int)[i as int]);
                assert(pre[i as int] == orig[i as int]);
                assert(target_wf(orig[i as int], tick));
                lemma_seq_cons_skip(orig, i as int);
                lemma_filter_singleton(orig[i as int], live_pred(tick));
                Seq::filter_distributes_over_add(
                    seq![orig[i as int]],
                    orig.skip(i + 1 as int),
                    live_pred(tick),
                );
                lemma_purge_events_cons(orig[i as int], orig.skip(i + 1 as int), tick);
            }
            if tick - targets[i].birthday > targets[i].lifetime {
                let t = targets.remove(i);
                events.push(RenderRequest::ClearRegion {
                    x: t.x,
                    y: t.y,
                    width: t.width,
                    height: t.height,
                });
                proof {
                    assert(!is_live(orig[i as int], tick));
                    assert(orig.skip(i as int).filter(live_pred(tick)) =~= kept);
                    assert_seqs_equal!(
                        targets@,
                        orig.take(i as int) + orig.skip(i as int).filter(live_pred(tick))
                    );
                    assert_seqs_equal!(
                        events@,
                        purge_events(orig.skip(i as int), tick)
                    );
                    assert forall|j: int| 0 <= j < targets@.len() implies target_wf(
                        #[trigger] targets@[j],
                        tick,
                    ) by {
                        if j < i {
                            assert(targets@[j] == pre[j]);
                        } else {
                            assert(targets@[j] == pre[j + 1]);
                        }
                    }
                }
            } else {
                proof {
                    assert(is_live(orig[i as int], tick));
                    assert(orig.skip(i as int).filter(live_pred(tick)) =~= seq![orig[i as int]]
                        + kept);
                    assert_seqs_equal!(
                        targets@,
                        orig.take(i as int) + orig.skip(i as int).filter(live_pred(tick))
                    );
                    assert_seqs_equal!(
                        events@,
                        purge_events(orig.skip(i as int), tick)
                    );
                }
            }
        }
        proof {
            assert(orig.skip(0) =~= orig);
            assert(orig.take(0) =~= Seq::<Target>::empty());
            assert(targets@ =~= orig.filter(live_pred(tick)));
        }
        events
    }

    /// Resolve one audio-gated shooting pass. When the sample pair clears
    /// the volume gate, every target containing some touch of the batch is
    /// removed from its collection — hostile ones first, then friendly ones,
    /// each collection in descending index order — and each removal requests
    /// a region clear and a score redraw: hostile bounties are added (with
    /// the counter's natural 16-bit wrap), friendly bounties are deducted
    /// with a floor of 0. A target matched by several touches at once is
    /// removed and scored once. A quiet sample pair changes nothing and
    /// issues nothing.
    pub fn process_shooting(&mut self, data0: i16, data1: i16, touches: &Vec<(u16, u16)>) -> (events:
        Vec<RenderRequest>)
        requires
            old(self).wf(),
        ensures
            final(self).wf(),
            !vol_exceeds(data0, data1) ==> {
                &&& final(self).evil_targets@ == old(self).evil_targets@
                &&& final(self).hero_targets@ == old(self).hero_targets@
                &&& final(self).score == old(self).score
                &&& events@ == Seq::<RenderRequest>::empty()
            },
            vol_exceeds(data0, data1) ==> ({
                let r1 = resolve_hits(
                    old(self).score,
                    old(self).evil_targets@.filter(hit_pred(touches@)),
                    false,
                );
                let r2 = resolve_hits(
                    r1.0,
                    old(self).hero_targets@.filter(hit_pred(touches@)),
                    true,
                );
                &&& final(self).evil_targets@ == old(self).evil_targets@.filter(
                    miss_pred(touches@),
                )
                &&& final(self).hero_targets@ == old(self).hero_targets@.filter(
                    miss_pred(touches@),
                )
                &&& final(self).score == r2.0
                &&& events@ == r1.1 + r2.1
            }),
            final(self).countdown == old(self).countdown,
            final(self).tick == old(self).tick,
            final(self).rand == old(self).rand,
            final(self).last_super_trump_render_time == old(self).last_super_trump_render_time,
            final(self).last_ssd_render_time == old(self).last_ssd_render_time,
    {
        let mut events: Vec<RenderRequest> = Vec::new();
        if Self::vol_limit_reached(data0, data1) {
            let ghost tick = self.tick;
            let score0 = self.score;
            let score1 = Self::resolve_hits_in(
                &mut self.evil_targets,
                touches,
                score0,
                false,
                &mut events,
                Ghost(tick),
            );
            let score2 = Self::resolve_hits_in(
                &mut self.hero_targets,
                touches,
                score1,
                true,
                &mut events,
                Ghost(tick),
            );
            self.score = score2;
        }
        events
    }

    /// One shooting pass over a single collection: remove every hit target
    /// in descending index order, apply its score step, and append its clear
    /// request and score redraw.
    fn resolve_hits_in(
        targets: &mut Vec<Target>,
        touches: &Vec<(u16, u16)>,
        score: u16,
        friendly: bool,
        events: &mut Vec<RenderRequest>,
        Ghost(tick): Ghost<usize>,
    ) -> (new_score: u16)
        requires
            all_targets_wf(old(targets)@, tick),
        ensures
            final(targets)@ == old(targets)@.filter(miss_pred(touches@)),
            ({
                let r = resolve_hits(score, old(targets)@.filter(hit_pred(touches@)), friendly);
                &&& new_score == r.0
                &&& final(events)@ == old(events)@ + r.1
            }),
            final(targets)@.len() <= old(targets)@.len(),
            all_targets_wf(final(targets)@, tick),
    {
        let ghost orig = targets@;
        let ghost tchs = touches@;
        let ghost ev0 = events@;
        let mut new_score: u16 = score;
        let mut i: usize = targets.len();
        proof {
            assert(orig.skip(orig.len() as int) =~= Seq::<Target>::empty());
            assert(orig.take(orig.len() as int) =~= orig);
            assert(targets@ =~= orig.take(i as int) + orig.skip(i as int).filter(miss_pred(tchs)));
            assert(events@ =~= ev0 + resolve_hits(
                score,
                orig.skip(i as int).filter(hit_pred(tchs)),
                friendly,
            ).1);
        }
        while i > 0
            invariant
                i <= orig.len(),
                all_targets_wf(orig, tick),
                tchs == touches@,
                targets@ == orig.take(i as int) + orig.skip(i as int).filter(miss_pred(tchs)),
                new_score == resolve_hits(
                    score,
                    orig.skip(i as int).filter(hit_pred(tchs)),
                    friendly,
                ).0,
                events@ == ev0 + resolve_hits(
                    score,
                    orig.skip(i as int).filter(hit_pred(tchs)),
                    friendly,
                ).1,
                targets@.len() <= orig.len(),
                all_targets_wf(targets@, tick),
            decreases i,
        {
            i -= 1;
            let ghost pre = targets@;
            let ghost kept = orig.skip(i + 1 as int).filter(miss_pred(tchs));
            let ghost hits = orig.skip(i + 1 as int).filter(hit_pred(tchs));
            proof {
                assert(orig.take(i + 1 as int).len() == i + 1);
                assert(pre[i as int] == orig.take(i + 1 as int)[i as int]);
                assert(pre[i as int] == orig[i as int]);
                assert(target_wf(orig[i as int], tick));
                lemma_seq_cons_skip(orig, i as int);
                lemma_filter_singleton(orig[i as int], miss_pred(tchs));
                lemma_filter_singleton(orig[i as int], hit_pred(tchs));
                Seq::filter_distributes_over_add(
                    seq![orig[i as int]],
                    orig.skip(i + 1 as int),
                    miss_pred(tchs),
                );
                Seq::filter_distributes_over_add(
                    seq![orig[i as int]],
                    orig.skip(i + 1 as int),
                    hit_pred(tchs),
                );
                lemma_resolve_hits_cons(score, orig[i as int], hits, friendly);
            }
            if targets[i].hit_by_any(touches) {
                let t = targets.remove(i);
                new_score = if friendly {
                    if new_score < t.bounty {
                        0
                    } else {
                        new_score - t.bounty
                    }
                } else {
                    new_score.wrapping_add(t.bounty)
                };
                events.push(RenderRequest::ClearRegion {
                    x: t.x,
                    y: t.y,
                    width: t.width,
                    height: t.height,
                });
                events.push(RenderRequest::ScoreDigits {
                    value: new_score,
                    color: if friendly {
                        RED
                    } else {
                        GREEN
                    },
                });
                proof {
                    assert(target_hit(orig[i as int], tchs));
                    assert(orig.skip(i as int).filter(miss_pred(tchs)) =~= kept);
                    assert(orig.skip(i as int).filter(hit_pred(tchs)) =~= seq![orig[i as int]]
                        + hits);
                    assert_seqs_equal!(
                        targets@,
                        orig.take(i as int) + orig.skip(i as int).filter(miss_pred(tchs))
                    );
                    assert_seqs_equal!(
                        events@,
                        ev0 + resolve_hits(
                            score,
                            orig.skip(i as int).filter(hit_pred(tchs)),
                            friendly,
                        ).1
                    );
                    assert forall|j: int| 0 <= j < targets@.len() implies target_wf(
                        #[trigger] targets@[j],
                        tick,
                    ) by {
                        if j < i {
                            assert(targets@[j] == pre[j]);
                        } else {
                            assert(targets@[j] == pre[j + 1]);
                        }
                    }
                }
            } else {
                proof {
                    assert(!target_hit(orig[i as int], tchs));
                    assert(orig.skip(i as int).filter(miss_pred(tchs)) =~= seq![orig[i as int]]
                        + kept);
                    assert(orig.skip(i as int).filter(hit_pred(tchs)) =~= hits);
                    assert_seqs_equal!(
                        targets@,
                        orig.take(i as int) + orig.skip(i as int).filter(miss_pred(tchs))
                    );
                }
            }
        }
        proof {
            assert(orig.skip(0) =~= orig);
            assert(orig.take(0) =~= Seq::<Target>::empty());
            assert(targets@ =~= orig.filter(miss_pred(tchs)));
        }
        new_score
    }

    /// Whether a sample pair is loud enough to count touches as shots: the
    /// larger magnitude of the two channels must exceed the threshold.
    ///
    /// The engine expects one fresh sample per channel per frame. Acquiring
    /// them is the caller's concern, and on the microphone hardware it means
    /// spinning on each channel until it signals readiness; that wait has no
    /// bound, so a dead channel stalls the whole frame. The decision made
    /// here from the two samples is pure.
    pub fn vol_limit_reached(data0: i16, data1: i16) -> (r: bool)
        ensures
            r == vol_exceeds(data0, data1),
    {
        let d0: i32 = data0 as i32;
        let d1: i32 = data1 as i32;
        let a0: i32 = if d0 < 0 { -d0 } else { d0 };
        let a1: i32 = if d1 < 0 { -d1 } else { d1 };
        let mic_data: u16 = if a0 > a1 { a0 as u16 } else { a1 as u16 };
        mic_data > VOLUME_THRESHOLD
    }

    /// Draw a jittered lifetime: the low 14 bits of one draw, clamped to the
    /// floor. The result is always in `LIFETIME_FLOOR ..= 0x3FFF`.
    pub fn get_rnd_lifetime(rnd: &mut Rng32) -> (r: usize)
        ensures
            r == lifetime_from_draw(next_state(old(rnd).state)),
            final(rnd).state == next_state(old(rnd).state),
            LIFETIME_FLOOR <= r <= 0x3FFF,
    {
        let num: u32 = rnd.rand();
        let masked: usize = (num & 0x3FFF) as usize;
        proof {
            assert(num & 0x3FFF <= 0x3FFF) by (bit_vector);
        }
        if masked > LIFETIME_FLOOR {
            masked
        } else {
            LIFETIME_FLOOR
        }
    }

    /// Draw one candidate top-left position, uniform over the display area
    /// that leaves room for a full target footprint.
    pub fn get_random_pos(rand: &mut Rng32) -> (pos: (u16, u16))
        ensures
            pos == candidate_pos(old(rand).state),
            final(rand).state == next_state(next_state(old(rand).state)),
            pos.0 + TARGET_WIDTH <= DISPLAY_WIDTH,
            pos.1 + TARGET_HEIGHT <= DISPLAY_HEIGHT,
    {
        let rx: u32 = rand.rand();
        let ry: u32 = rand.rand();
        let x: u16 = (rx % ((DISPLAY_WIDTH - TARGET_WIDTH + 1) as u32)) as u16;
        let y: u16 = (ry % ((DISPLAY_HEIGHT - TARGET_HEIGHT + 1) as u32)) as u16;
        (x, y)
    }

    /// Rejection sampling for a spawn position: draw candidates until one is
    /// acceptable, and return exactly the first acceptable one of the random
    /// stream. On a screen crowded enough that candidates keep being
    /// rejected the search gives up — `None` — once the draw budget is
    /// spent; see [`POS_DRAW_BUDGET`] for why that bound is unreachable in
    /// practice.
    pub fn get_rnd_pos(
        rand: &mut Rng32,
        existing_hero: &Vec<Target>,
        existing_evil: &Vec<Target>,
    ) -> (pos: Option<(u16, u16)>)
        requires
            forall|i: int|
                0 <= i < existing_hero@.len() ==> target_box_wf(#[trigger] existing_hero@[i]),
            forall|i: int|
                0 <= i < existing_evil@.len() ==> target_box_wf(#[trigger] existing_evil@[i]),
        ensures
            ({
                let search = first_ok_pos(
                    old(rand).state,
                    POS_DRAW_BUDGET as nat,
                    existing_hero@,
                    existing_evil@,
                );
                match pos {
                    Some(p) => {
                        &&& search == Some((p, final(rand).state))
                        &&& pos_ok(p, existing_hero@, existing_evil@)
                        &&& p.0 + TARGET_WIDTH <= DISPLAY_WIDTH
                        &&& p.1 + TARGET_HEIGHT <= DISPLAY_HEIGHT
                    },
                    None => search is None,
                }
            }),
    {
        let ghost orig_state = rand.state;
        let mut pos: (u16, u16) = Self::get_random_pos(rand);
        let mut ok: bool = Self::pos_is_okay(pos, existing_hero, existing_evil);
        let mut budget: u64 = POS_DRAW_BUDGET - 1;
        while !ok && budget > 0
            invariant
                forall|i: int|
                    0 <= i < existing_hero@.len() ==> target_box_wf(#[trigger] existing_hero@[i]),
                forall|i: int|
                    0 <= i < existing_evil@.len() ==> target_box_wf(#[trigger] existing_evil@[i]),
                budget < POS_DRAW_BUDGET,
                pos.0 + TARGET_WIDTH <= DISPLAY_WIDTH,
                pos.1 + TARGET_HEIGHT <= DISPLAY_HEIGHT,
                ok ==> pos_ok(pos, existing_hero@, existing_evil@),
                first_ok_pos(orig_state, POS_DRAW_BUDGET as nat, existing_hero@, existing_evil@)
                    == if ok {
                    Some((pos, rand.state))
                } else {
                    first_ok_pos(rand.state, budget as nat, existing_hero@, existing_evil@)
                },
            decreases budget,
        {
            pos = Self::get_random_pos(rand);
            ok = Self::pos_is_okay(pos, existing_hero, existing_evil);
            budget -= 1;
        }
        if ok {
            Some(pos)
        } else {
            None
        }
    }

    /// The corner-containment overlap test between an existing target and a
    /// candidate footprint at `pos` (see [`overlaps`] for its deliberate
    /// leniency).
    pub fn are_overlapping_targets(target: &Target, pos: (u16, u16)) -> (r: bool)
        requires
            target_box_wf(*target),
            pos.0 + TARGET_WIDTH <= u16::MAX,
            pos.1 + TARGET_HEIGHT <= u16::MAX,
        ensures
            r == overlaps(*target, pos),
    {
        let corner_ul = (target.x, target.y);
        let corner_lr = (target.x + target.width, target.y + target.height);

        let x1 = pos.0;
        let y1 = pos.1;
        let x2 = pos.0 + TARGET_WIDTH;
        let y2 = pos.1 + TARGET_HEIGHT;

        Self::point_is_within((x1, y1), corner_ul, corner_lr)
            || Self::point_is_within((x2, y2), corner_ul, corner_lr)
            || Self::point_is_within((x1, y2), corner_ul, corner_lr)
            || Self::point_is_within((x2, y1), corner_ul, corner_lr)
    }

    /// Inclusive point-in-box test between two corners.
    pub fn point_is_within(point: (u16, u16), corner_ul: (u16, u16), corner_lr: (u16, u16)) -> (r:
        bool)
        ensures
            r == in_box(
                (point.0 as int, point.1 as int),
                (corner_ul.0 as int, corner_ul.1 as int),
                (corner_lr.0 as int, corner_lr.1 as int),
            ),
    {
        point.0 >= corner_ul.0 && point.0 <= corner_lr.0 && point.1 >= corner_ul.1 && point.1
            <= corner_lr.1
    }

    /// Whether a candidate position is acceptable: clear of the two reserved
    /// readout rectangles and of every existing target of either collection.
    pub fn pos_is_okay(
        pos: (u16, u16),
        existing_hero: &Vec<Target>,
        existing_evil: &Vec<Target>,
    ) -> (r: bool)
        requires
            pos.0 + TARGET_WIDTH <= u16::MAX,
            pos.1 + TARGET_HEIGHT <= u16::MAX,
            forall|i: int|
                0 <= i < existing_hero@.len() ==> target_box_wf(#[trigger] existing_hero@[i]),
            forall|i: int|
                0 <= i < existing_evil@.len() ==> target_box_wf(#[trigger] existing_evil@[i]),
        ensures
            r == pos_ok(pos, existing_hero@, existing_evil@),
    {
        let score_ul = (0u16, 0u16);
        let score_lr = (SS_DISPLAY_WIDTH, SS_DISPLAY_HEIGHT);
        let timer_ul = (DISPLAY_WIDTH - SS_DISPLAY_WIDTH, 0u16);
        let timer_lr = (timer_ul.0 + SS_DISPLAY_WIDTH, SS_DISPLAY_HEIGHT);
        let offset = (pos.0 + TARGET_WIDTH, pos.1);
        if Self::point_is_within(pos, score_ul, score_lr)
            || Self::point_is_within(pos, timer_ul, timer_lr)
            || Self::point_is_within(offset, score_ul, score_lr)
            || Self::point_is_within(offset, timer_ul, timer_lr) {
            return false;
        }
        let mut i: usize = 0;
        while i < existing_hero.len()
            invariant
                i <= existing_hero@.len(),
                pos.0 + TARGET_WIDTH <= u16::MAX,
                pos.1 + TARGET_HEIGHT <= u16::MAX,
                forall|k: int|
                    0 <= k < existing_hero@.len() ==> target_box_wf(#[trigger] existing_hero@[k]),
                forall|k: int| 0 <= k < i ==> !overlaps(#[trigger] existing_hero@[k], pos),
            decreases existing_hero@.len() - i,
        {
            if Self::are_overlapping_targets(&existing_hero[i], pos) {
                return false;
            }
            i += 1;
        }
        let mut j: usize = 0;
        while j < existing_evil.len()
            invariant
                j <= existing_evil@.len(),
                pos.0 + TARGET_WIDTH <= u16::MAX,
                pos.1 + TARGET_HEIGHT <= u16::MAX,
                forall|k: int|
                    0 <= k < existing_evil@.len() ==> target_box_wf(#[trigger] existing_evil@[k]),
                forall|k: int| 0 <= k < j ==> !overlaps(#[trigger] existing_evil@[k], pos),
            decreases existing_evil@.len() - j,
        {
            if Self::are_overlapping_targets(&existing_evil[j], pos) {
                return false;
            }
            j += 1;
        }
        true
    }
}

} // verus!
