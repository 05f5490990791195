use vstd::prelude::*;

verus! {

use crate::game::{
    countdown_fires, countdown_step, evil_refill, evil_spawn_step, first_ok_pos, hero_refill,
    hero_spawn_step, in_reserved_ui, lifetime_from_draw, overlaps, pos_ok, resolve_hits,
    score_after_evil_hit, score_after_hero_hit, BONUS_BOUNTY, BONUS_INTERVAL, BONUS_JITTER_RANGE,
    BONUS_LIFETIME, COUNTDOWN_PERIOD, EVIL_BOUNTY, EVIL_TARGET_CAP, HERO_BOUNTY, HERO_TARGET_CAP,
    POS_DRAW_BUDGET,
};
use crate::rng::next_state;
use crate::target::{hit_indices, hits_for_target, target_hit, touch_in_target, Target};

/// A hostile refill pass reaches its floor unless a position search truly
/// fails: the pass never pushes the collection above the cap, and when it
/// stops short of the cap, the search of the very next spawn — from the
/// generator state and bonus stamp the pass actually reached — finds no
/// acceptable candidate in a whole draw budget.
pub proof fn lemma_evil_refill_reaches_floor(
    state: u32,
    heroes: Seq<Target>,
    evils: Seq<Target>,
    tick: usize,
    last: usize,
)
    requires
        evils.len() <= EVIL_TARGET_CAP,
    ensures
        ({
            let er = evil_refill(state, heroes, evils, tick, last);
            &&& evils.len() <= er.0.len() <= EVIL_TARGET_CAP
            &&& (er.0.len() < EVIL_TARGET_CAP ==> evil_spawn_step(er.1, heroes, er.0, tick, er.2)
                is None)
        }),
    decreases EVIL_TARGET_CAP - evils.len(),
{
    if evils.len() < EVIL_TARGET_CAP {
        match evil_spawn_step(state, heroes, evils, tick, last) {
            None => {},
            Some(step) => {
                lemma_evil_refill_reaches_floor(step.1, heroes, evils.push(step.0), tick, step.2);
            },
        }
    }
}

/// The friendly analog: the pass reaches its floor unless a position search
/// truly fails from the state the pass reached.
pub proof fn lemma_hero_refill_reaches_floor(
    state: u32,
    heroes: Seq<Target>,
    evils: Seq<Target>,
    tick: usize,
)
    requires
        heroes.len() <= HERO_TARGET_CAP,
    ensures
        ({
            let hr = hero_refill(state, heroes, evils, tick);
            &&& heroes.len() <= hr.0.len() <= HERO_TARGET_CAP
            &&& (hr.0.len() < HERO_TARGET_CAP ==> hero_spawn_step(hr.1, hr.0, evils, tick) is None)
        }),
    decreases HERO_TARGET_CAP - heroes.len(),
{
    if heroes.len() < HERO_TARGET_CAP {
        match hero_spawn_step(state, heroes, evils, tick) {
            None => {},
            Some(step) => {
                lemma_hero_refill_reaches_floor(step.1, heroes.push(step.0), evils, tick);
            },
        }
    }
}

/// The bonus decision of one hostile spawn, tied to the iteration's own
/// jitter draw: when the position search succeeds, the spawn is the bonus
/// variant exactly when the elapsed time since the last bonus reaches the
/// base interval plus that jitter, only a bonus restamps the clock, and a
/// standard spawn carries the iteration's floor-clamped lifetime draw. At
/// exactly the base interval with a zero jitter draw, the spawn is the bonus
/// variant.
pub proof fn lemma_bonus_decision(
    state: u32,
    heroes: Seq<Target>,
    evils: Seq<Target>,
    tick: usize,
    last: usize,
)
    requires
        last <= tick,
    ensures
        ({
            let search = first_ok_pos(next_state(state), POS_DRAW_BUDGET as nat, heroes, evils);
            let step = evil_spawn_step(state, heroes, evils, tick, last);
            &&& (search is None ==> step is None)
            &&& (search matches Some(found) ==> (step matches Some(sp) && {
                let jitter = (next_state(found.1) % BONUS_JITTER_RANGE) as usize;
                &&& (sp.0.bounty == BONUS_BOUNTY <==> tick - last >= BONUS_INTERVAL + jitter)
                &&& (sp.0.bounty == BONUS_BOUNTY ==> sp.0.lifetime == BONUS_LIFETIME && sp.2
                    == tick)
                &&& (sp.0.bounty == EVIL_BOUNTY ==> sp.0.lifetime == lifetime_from_draw(
                    next_state(state),
                ) && sp.2 == last)
                &&& (sp.0.bounty == BONUS_BOUNTY || sp.0.bounty == EVIL_BOUNTY)
                &&& sp.0.x == found.0.0 && sp.0.y == found.0.1 && sp.0.birthday == tick
                &&& sp.1 == next_state(found.1)
                &&& (tick - last == BONUS_INTERVAL && jitter == 0 ==> sp.0.bounty == BONUS_BOUNTY
                    && sp.0.lifetime == BONUS_LIFETIME && sp.2 == tick)
            }))
        }),
{
}

/// Friendly spawns never yield the bonus variant: every friendly spawn
/// carries the fixed friendly bounty and its own floor-clamped lifetime
/// draw.
pub proof fn lemma_hero_spawn_never_bonus(
    state: u32,
    heroes: Seq<Target>,
    evils: Seq<Target>,
    tick: usize,
)
    ensures
        hero_spawn_step(state, heroes, evils, tick) matches Some(sp) ==> sp.0.bounty == HERO_BOUNTY
            && sp.0.lifetime == lifetime_from_draw(next_state(state)) && sp.0.birthday == tick,
{
}

/// Acceptability of a position does not depend on which collection a target
/// sits in: the two collection slots of the test can be swapped.
pub proof fn lemma_pos_ok_symmetric(pos: (u16, u16), a: Seq<Target>, b: Seq<Target>)
    ensures
        pos_ok(pos, a, b) == pos_ok(pos, b, a),
{
}

/// Placements accepted one after another are mutually clear: when every
/// target of a list from index `f` on was placed at a position acceptable
/// against the targets before it (and against a fixed other collection, as
/// the refill pass guarantees), then no such target's position registers as
/// overlapping any earlier target or any target of the other collection
/// under the corner-containment test, nor touches a reserved readout
/// rectangle.
pub proof fn lemma_placements_mutually_clear(targets: Seq<Target>, others: Seq<Target>, f: int)
    requires
        forall|k: int|
            f <= k < targets.len() ==> pos_ok(
                (#[trigger] targets[k].x, targets[k].y),
                others,
                targets.take(k),
            ),
    ensures
        forall|i: int, j: int|
            #![trigger targets[i], targets[j]]
            0 <= i < j < targets.len() && f <= j ==> !overlaps(
                targets[i],
                (targets[j].x, targets[j].y),
            ),
        forall|i: int, j: int|
            #![trigger others[i], targets[j]]
            0 <= i < others.len() && f <= j < targets.len() ==> !overlaps(
                others[i],
                (targets[j].x, targets[j].y),
            ),
        forall|j: int|
            f <= j < targets.len() ==> !in_reserved_ui((#[trigger] targets[j].x, targets[j].y)),
{
    assert forall|i: int, j: int|
        #![trigger targets[i], targets[j]]
        0 <= i < j < targets.len() && f <= j implies !overlaps(
        targets[i],
        (targets[j].x, targets[j].y),
    ) by {
        assert(pos_ok((targets[j].x, targets[j].y), others, targets.take(j)));
        assert(targets.take(j)[i] == targets[i]);
    }
    assert forall|i: int, j: int|
        #![trigger others[i], targets[j]]
        0 <= i < others.len() && f <= j < targets.len() implies !overlaps(
        others[i],
        (targets[j].x, targets[j].y),
    ) by {
        assert(pos_ok((targets[j].x, targets[j].y), others, targets.take(j)));
    }
}

/// Every element of a filtered sequence is an element of the sequence it
/// was filtered from.
proof fn lemma_filter_keeps_only_existing(s: Seq<Target>, pred: spec_fn(Target) -> bool)
    ensures
        forall|i: int|
            0 <= i < s.filter(pred).len() ==> s.contains(#[trigger] s.filter(pred)[i]),
    decreases s.len(),
{
    reveal(Seq::filter);
    if s.len() > 0 {
        let d = s.drop_last();
        lemma_filter_keeps_only_existing(d, pred);
        assert forall|i: int| 0 <= i < s.filter(pred).len() implies s.contains(
            #[trigger] s.filter(pred)[i],
        ) by {
            if i < d.filter(pred).len() {
                assert(s.filter(pred)[i] == d.filter(pred)[i]);
                assert(d.contains(d.filter(pred)[i]));
                let k = choose|k: int| 0 <= k < d.len() && d[k] == d.filter(pred)[i];
                assert(s[k] == d[k]);
            } else {
                assert(s.filter(pred)[i] == s.last());
                assert(s[s.len() - 1] == s.last());
            }
        }
    }
}

/// A relation that holds of every ordered pair of a sequence still holds of
/// every ordered pair of any filtering of it: removals keep the survivors'
/// relative order.
pub proof fn lemma_pairwise_survives_filter(
    s: Seq<Target>,
    pred: spec_fn(Target) -> bool,
    r: spec_fn(Target, Target) -> bool,
)
    requires
        forall|i: int, j: int|
            #![trigger r(s[i], s[j])]
            0 <= i < j < s.len() ==> r(s[i], s[j]),
    ensures
        forall|i: int, j: int|
            #![trigger r(s.filter(pred)[i], s.filter(pred)[j])]
            0 <= i < j < s.filter(pred).len() ==> r(s.filter(pred)[i], s.filter(pred)[j]),
    decreases s.len(),
{
    reveal(Seq::filter);
    if s.len() > 0 {
        let d = s.drop_last();
        assert forall|i: int, j: int|
            #![trigger r(d[i], d[j])]
            0 <= i < j < d.len() implies r(d[i], d[j]) by {
            assert(d[i] == s[i] && d[j] == s[j]);
            assert(r(s[i], s[j]));
        }
        lemma_pairwise_survives_filter(d, pred, r);
        lemma_filter_keeps_only_existing(d, pred);
        assert forall|i: int, j: int|
            #![trigger r(s.filter(pred)[i], s.filter(pred)[j])]
            0 <= i < j < s.filter(pred).len() implies r(s.filter(pred)[i], s.filter(pred)[j]) by {
            if j < d.filter(pred).len() {
                assert(s.filter(pred)[i] == d.filter(pred)[i]);
                assert(s.filter(pred)[j] == d.filter(pred)[j]);
                assert(r(d.filter(pred)[i], d.filter(pred)[j]));
            } else {
                assert(s.filter(pred)[j] == s.last());
                assert(s.filter(pred)[i] == d.filter(pred)[i]);
                assert(d.contains(d.filter(pred)[i]));
                let k = choose|k: int| 0 <= k < d.len() && d[k] == d.filter(pred)[i];
                assert(d[k] == s[k]);
                assert(r(s[k], s[s.len() - 1]));
            }
        }
    }
}

/// Mutual placement clearance outlives removals: if no target's position
/// registered as overlapping any earlier target, the same holds among the
/// survivors of a purge or shooting pass, which keep their relative order.
pub proof fn lemma_mutual_clearance_survives_removals(
    s: Seq<Target>,
    pred: spec_fn(Target) -> bool,
)
    requires
        forall|i: int, j: int|
            #![trigger s[i], s[j]]
            0 <= i < j < s.len() ==> !overlaps(s[i], (s[j].x, s[j].y)),
    ensures
        forall|i: int, j: int|
            #![trigger s.filter(pred)[i], s.filter(pred)[j]]
            0 <= i < j < s.filter(pred).len() ==> !overlaps(
                s.filter(pred)[i],
                (s.filter(pred)[j].x, s.filter(pred)[j].y),
            ),
{
    let clear = |a: Target, b: Target| !overlaps(a, (b.x, b.y));
    assert forall|i: int, j: int|
        #![trigger clear(s[i], s[j])]
        0 <= i < j < s.len() implies clear(s[i], s[j]) by {
        assert(!overlaps(s[i], (s[j].x, s[j].y)));
    }
    lemma_pairwise_survives_filter(s, pred, clear);
    assert forall|i: int, j: int|
        #![trigger s.filter(pred)[i], s.filter(pred)[j]]
        0 <= i < j < s.filter(pred).len() implies !overlaps(
        s.filter(pred)[i],
        (s.filter(pred)[j].x, s.filter(pred)[j].y),
    ) by {
        assert(clear(s.filter(pred)[i], s.filter(pred)[j]));
    }
}

/// One target's contribution to a hit scan contains exactly its own index,
/// and does so exactly when some touch lands inside the target.
pub proof fn lemma_hits_for_target_contains(t: Target, touches: Seq<(u16, u16)>, i: usize)
    ensures
        forall|j: usize|
            #[trigger] hits_for_target(t, touches, i).contains(j) <==> (j == i && target_hit(
                t,
                touches,
            )),
    decreases touches.len(),
{
    let s = hits_for_target(t, touches, i);
    if touches.len() == 0 {
        assert(forall|j: usize| !s.contains(j));
        assert(!target_hit(t, touches));
    } else {
        lemma_hits_for_target_contains(t, touches.drop_last(), i);
        let a = hits_for_target(t, touches.drop_last(), i);
        assert forall|j: usize| #[trigger] s.contains(j) implies (j == i && target_hit(
            t,
            touches,
        )) by {
            let idx = choose|idx: int| 0 <= idx < s.len() && s[idx] == j;
            if idx < a.len() {
                assert(a[idx] == j);
                assert(a.contains(j));
                let jt = choose|jt: int|
                    0 <= jt < touches.drop_last().len() && touch_in_target(
                        touches.drop_last()[jt],
                        t,
                    );
                assert(touches[jt] == touches.drop_last()[jt]);
                assert(touch_in_target(touches[jt], t));
            } else {
                assert(touch_in_target(touches.last(), t));
                assert(s[idx] == i);
                assert(touch_in_target(touches[touches.len() - 1], t));
            }
        }
        assert forall|j: usize| (j == i && target_hit(t, touches)) implies #[trigger] s.contains(
            j,
        ) by {
            let jt = choose|jt: int| 0 <= jt < touches.len() && touch_in_target(touches[jt], t);
            if jt < touches.len() - 1 {
                assert(touches.drop_last()[jt] == touches[jt]);
                assert(target_hit(t, touches.drop_last()));
                assert(a.contains(i));
                let idx = choose|idx: int| 0 <= idx < a.len() && a[idx] == i;
                assert(s[idx] == i);
            } else {
                assert(touch_in_target(touches.last(), t));
                assert(s[s.len() - 1] == i);
            }
        }
    }
}

/// The hit scan is sound and complete: its result contains an index exactly
/// when that index names a target of the list whose half-open bounding box
/// contains at least one touch of the batch. In particular a target no touch
/// lands in is never returned.
pub proof fn lemma_hit_indices_exact(targets: Seq<Target>, touches: Seq<(u16, u16)>)
    requires
        targets.len() <= usize::MAX,
    ensures
        forall|i: usize|
            #[trigger] hit_indices(targets, touches).contains(i) <==> (i < targets.len()
                && target_hit(targets[i as int], touches)),
    decreases targets.len(),
{
    let s = hit_indices(targets, touches);
    if targets.len() == 0 {
        assert(forall|i: usize| !s.contains(i));
    } else {
        lemma_hit_indices_exact(targets.drop_last(), touches);
        let last_i = (targets.len() - 1) as usize;
        lemma_hits_for_target_contains(targets.last(), touches, last_i);
        let a = hit_indices(targets.drop_last(), touches);
        let b = hits_for_target(targets.last(), touches, last_i);
        assert forall|i: usize| #[trigger] s.contains(i) implies (i < targets.len() && target_hit(
            targets[i as int],
            touches,
        )) by {
            let idx = choose|idx: int| 0 <= idx < s.len() && s[idx] == i;
            if idx < a.len() {
                assert(a[idx] == i);
                assert(a.contains(i));
                assert(targets.drop_last()[i as int] == targets[i as int]);
            } else {
                assert(b[idx - a.len()] == i);
                assert(b.contains(i));
                assert(i == last_i);
                assert(targets[i as int] == targets.last());
            }
        }
        assert forall|i: usize| (i < targets.len() && target_hit(targets[i as int], touches))
            implies #[trigger] s.contains(i) by {
            if i < targets.len() - 1 {
                assert(targets.drop_last()[i as int] == targets[i as int]);
                assert(a.contains(i));
                let idx = choose|idx: int| 0 <= idx < a.len() && a[idx] == i;
                assert(s[idx] == i);
            } else {
                assert(targets.last() == targets[i as int]);
                assert(b.contains(i));
                let idx = choose|idx: int| 0 <= idx < b.len() && b[idx] == i;
                assert(s[a.len() + idx] == i);
            }
        }
    }
}

/// A friendly hit never drives the score below 0: a bounty larger than the
/// score leaves exactly 0 — never a wrapped value — and otherwise exactly
/// the bounty is deducted.
pub proof fn lemma_friendly_hit_floor(sc: u16, bounty: u16)
    ensures
        bounty > sc ==> score_after_hero_hit(sc, bounty) == 0,
        bounty <= sc ==> score_after_hero_hit(sc, bounty) == sc - bounty,
{
}

/// A hostile hit adds the bounty with the natural wrapping behavior of the
/// 16-bit counter.
pub proof fn lemma_hostile_hit_wraps(sc: u16, bounty: u16)
    ensures
        score_after_evil_hit(sc, bounty) == (sc + bounty) % 0x1_0000,
{
}

/// Over any sequence of friendly hits, in any order, the score never
/// increases — and being unsigned it never drops below 0 either, at any
/// intermediate step.
pub proof fn lemma_friendly_hits_monotone(sc: u16, hits: Seq<Target>)
    ensures
        resolve_hits(sc, hits, true).0 <= sc,
    decreases hits.len(),
{
    if hits.len() > 0 {
        lemma_friendly_hits_monotone(
            score_after_hero_hit(sc, hits.last().bounty),
            hits.drop_last(),
        );
    }
}

/// The countdown never increases, loses at most one unit per clock update,
/// and loses at most one unit per elapsed period: two consecutive updates
/// both decrement only when a full period separates them, and no update
/// within one period of the last redraw changes the value at all.
pub proof fn lemma_countdown_rate(cd0: u16, last0: usize, t1: usize, t2: usize)
    requires
        last0 <= t1 <= t2,
    ensures
        ({
            let cd1 = countdown_step(cd0, last0, t1);
            let last1 = if countdown_fires(last0, t1) {
                t1
            } else {
                last0
            };
            let cd2 = countdown_step(cd1, last1, t2);
            &&& cd1 <= cd0 && cd0 - cd1 <= 1
            &&& cd2 <= cd1 && cd1 - cd2 <= 1
            &&& t2 - last0 < COUNTDOWN_PERIOD ==> cd2 == cd0
            &&& (cd1 < cd0 && cd2 < cd1) ==> t2 - t1 >= COUNTDOWN_PERIOD
        }),
{
}

} // verus!
