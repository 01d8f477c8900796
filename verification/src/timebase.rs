//! Exact time of a tick. A file's clock is kept as a whole number of "time
//! units" together with the number of units per second, so that no precision
//! is lost before a caller turns the ratio into seconds.
//!
//! With metrical timing a tick lasts `us_per_quarter / ticks_per_beat`
//! microseconds; a tick at a given tempo counts `us_per_quarter` units, and
//! a second has `1_000_000 * ticks_per_beat` of them. With timecode a second
//! has `fps * ticks_per_frame` ticks; writing the frame rate as the fraction
//! `fps_num / fps_den`, a tick counts `fps_den` units and a second has
//! `fps_num * ticks_per_frame` of them.

use vstd::prelude::*;
use crate::smf::{Fps, Timing};

verus! {

/// Microseconds per quarter note before the first Set Tempo event (120 BPM).
pub const DEFAULT_US_PER_QUARTER: u32 = 500_000;

/// Largest absolute tick a track can reach: at most `usize::MAX` events of at
/// most `u32::MAX` ticks each.
pub open spec fn tick_limit() -> int {
    0xFFFF_FFFF_FFFF_FFFFint * 0xFFFF_FFFFint
}

/// A Set Tempo in effect from `tick` on.
#[derive(Clone, Copy, Debug, PartialEq, Eq, Structural)]
pub struct TempoChange {
    pub tick: u128,
    pub us_per_quarter: u32,
}

impl View for TempoChange {
    type V = (int, int);

    open spec fn view(&self) -> (int, int) {
        (self.tick as int, self.us_per_quarter as int)
    }
}

pub open spec fn tempo_view(map: Seq<TempoChange>) -> Seq<(int, int)> {
    map.map_values(|c: TempoChange| c@)
}

/// Ticks strictly increase along the map.
pub open spec fn strictly_sorted(map: Seq<(int, int)>) -> bool {
    forall|i: int, j: int| 0 <= i < j < map.len() ==> #[trigger] map[i].0 < #[trigger] map[j].0
}

/// The tempo map after one more Set Tempo at `tick`: entries stay ordered by
/// tick, and where the map already holds that tick the earlier entry stays.
pub open spec fn tempo_insert(map: Seq<(int, int)>, change: (int, int)) -> Seq<(int, int)>
    decreases map.len(),
{
    if map.len() == 0 {
        seq![change]
    } else if map[0].0 < change.0 {
        seq![map[0]] + tempo_insert(map.drop_first(), change)
    } else if map[0].0 == change.0 {
        map
    } else {
        seq![change] + map
    }
}

/// Time units from tick `last`, at tempo `us`, up to `tick`, with the
/// remaining changes of `map` taking effect on their ticks.
pub open spec fn elapsed_from(tick: int, map: Seq<(int, int)>, last: int, us: int) -> int
    decreases map.len(),
{
    if map.len() == 0 || map[0].0 >= tick {
        (tick - last) * us
    } else {
        (map[0].0 - last) * us + elapsed_from(tick, map.drop_first(), map[0].0, map[0].1)
    }
}

/// Time units from tick 0 to `tick` under a metrical tempo map.
pub open spec fn metrical_units(tick: int, map: Seq<(int, int)>) -> int {
    elapsed_from(tick, map, 0, DEFAULT_US_PER_QUARTER as int)
}

/// Numerator of the frame rate.
pub open spec fn fps_num(fps: Fps) -> int {
    match fps {
        Fps::Fps24 => 24,
        Fps::Fps25 => 25,
        Fps::Fps29 => 30000,
        Fps::Fps30 => 30,
    }
}

/// Denominator of the frame rate.
pub open spec fn fps_den(fps: Fps) -> int {
    match fps {
        Fps::Fps29 => 1001,
        _ => 1,
    }
}

/// Time units from tick 0 to `tick`.
pub open spec fn time_units(timing: Timing, map: Seq<(int, int)>, tick: int) -> int {
    match timing {
        Timing::Metrical(_) => metrical_units(tick, map),
        Timing::Timecode(fps, _) => tick * fps_den(fps),
    }
}

/// Time units in one second.
pub open spec fn units_per_second(timing: Timing) -> int {
    match timing {
        Timing::Metrical(tpb) => 1_000_000 * tpb,
        Timing::Timecode(fps, sub) => fps_num(fps) * sub,
    }
}

/// Tempo values fit in 32 bits.
pub open spec fn tempos_fit(map: Seq<(int, int)>) -> bool {
    forall|i: int| 0 <= i < map.len() ==> 0 <= #[trigger] map[i].1 <= u32::MAX
}

proof fn lemma_elapsed_bounds(tick: int, map: Seq<(int, int)>, last: int, us: int)
    requires
        last <= tick,
        0 <= us <= u32::MAX,
        strictly_sorted(map),
        tempos_fit(map),
        map.len() > 0 ==> map[0].0 >= last,
    ensures
        0 <= elapsed_from(tick, map, last, us) <= (tick - last) * u32::MAX,
    decreases map.len(),
{
    if map.len() == 0 || map[0].0 >= tick {
        assert(0 <= (tick - last) * us <= (tick - last) * u32::MAX) by (nonlinear_arith)
            requires last <= tick, 0 <= us <= u32::MAX;
    } else {
        let t0 = map[0].0;
        let rest = map.drop_first();
        assert(tempos_fit(rest)) by {
            assert forall|i: int| 0 <= i < rest.len() implies 0 <= #[trigger] rest[i].1 <= u32::MAX by {
                assert(rest[i] == map[i + 1]);
            }
        }
        assert(strictly_sorted(rest)) by {
            assert forall|i: int, j: int| 0 <= i < j < rest.len() implies #[trigger] rest[i].0 < #[trigger] rest[j].0 by {
                assert(rest[i] == map[i + 1] && rest[j] == map[j + 1]);
            }
        }
        if rest.len() > 0 {
            assert(rest[0] == map[1]);
            assert(map[0].0 < map[1].0);
        }
        assert(0 <= map[0].1 <= u32::MAX);
        lemma_elapsed_bounds(tick, rest, t0, map[0].1);
        assert(0 <= (t0 - last) * us <= (t0 - last) * u32::MAX) by (nonlinear_arith)
            requires last <= t0, 0 <= us <= u32::MAX;
        assert((t0 - last) * u32::MAX + (tick - t0) * u32::MAX == (tick - last) * u32::MAX) by (nonlinear_arith);
    }
}

/// Later ticks never come earlier in time.
proof fn lemma_elapsed_monotone(t1: int, t2: int, map: Seq<(int, int)>, last: int, us: int)
    requires
        last <= t1 <= t2,
        0 <= us <= u32::MAX,
        strictly_sorted(map),
        tempos_fit(map),
        map.len() > 0 ==> map[0].0 >= last,
    ensures
        elapsed_from(t1, map, last, us) <= elapsed_from(t2, map, last, us),
    decreases map.len(),
{
    if map.len() == 0 || map[0].0 >= t2 {
        assert((t1 - last) * us <= (t2 - last) * us) by (nonlinear_arith)
            requires last <= t1 <= t2, 0 <= us;
    } else {
        let t0 = map[0].0;
        let rest = map.drop_first();
        assert(tempos_fit(rest)) by {
            assert forall|i: int| 0 <= i < rest.len() implies 0 <= #[trigger] rest[i].1 <= u32::MAX by {
                assert(rest[i] == map[i + 1]);
            }
        }
        assert(strictly_sorted(rest)) by {
            assert forall|i: int, j: int| 0 <= i < j < rest.len() implies #[trigger] rest[i].0 < #[trigger] rest[j].0 by {
                assert(rest[i] == map[i + 1] && rest[j] == map[j + 1]);
            }
        }
        if rest.len() > 0 {
            assert(rest[0] == map[1]);
            assert(map[0].0 < map[1].0);
        }
        assert(0 <= map[0].1 <= u32::MAX);
        if t0 < t1 {
            lemma_elapsed_monotone(t1, t2, rest, t0, map[0].1);
        } else {
            lemma_elapsed_bounds(t2, rest, t0, map[0].1);
            assert((t1 - last) * us <= (t0 - last) * us) by (nonlinear_arith)
                requires last <= t1 <= t0, 0 <= us;
        }
    }
}

/// Law: time never runs backwards; a later tick is never earlier in time.
pub proof fn law_time_monotone(timing: Timing, map: Seq<(int, int)>, t1: int, t2: int)
    requires
        0 <= t1 <= t2,
        strictly_sorted(map),
        tempos_fit(map),
        map.len() > 0 ==> map[0].0 >= 0,
    ensures
        time_units(timing, map, t1) <= time_units(timing, map, t2),
{
    match timing {
        Timing::Metrical(_) => {
            lemma_elapsed_monotone(t1, t2, map, 0, DEFAULT_US_PER_QUARTER as int);
        },
        Timing::Timecode(fps, _) => {
            assert(t1 * fps_den(fps) <= t2 * fps_den(fps)) by (nonlinear_arith)
                requires t1 <= t2, fps_den(fps) >= 1;
        },
    }
}

/// Law: under timecode timing a tick lasts one subframe, 1/(fps * sub) of a
/// second, for each frame rate: 24, 25, 30000/1001 (drop frame) and 30 frames
/// per second. Stated as `units / units_per_second == tick / (fps * sub)`,
/// cross-multiplied.
pub proof fn law_timecode_tick_is_one_subframe(sub: u8, map: Seq<(int, int)>, tick: int)
    ensures
        time_units(Timing::Timecode(Fps::Fps24, sub), map, tick) * (24 * sub) == tick * units_per_second(
            Timing::Timecode(Fps::Fps24, sub),
        ),
        time_units(Timing::Timecode(Fps::Fps25, sub), map, tick) * (25 * sub) == tick * units_per_second(
            Timing::Timecode(Fps::Fps25, sub),
        ),
        time_units(Timing::Timecode(Fps::Fps29, sub), map, tick) * (30000 * sub) == tick * 1001 * units_per_second(
            Timing::Timecode(Fps::Fps29, sub),
        ),
        time_units(Timing::Timecode(Fps::Fps30, sub), map, tick) * (30 * sub) == tick * units_per_second(
            Timing::Timecode(Fps::Fps30, sub),
        ),
{
}

/// Law: with no Set Tempo event a quarter note lasts half a second (120 BPM):
/// `ticks_per_beat` ticks take half as many units as a second holds.
pub proof fn law_default_tempo_is_120_bpm(tpb: u16)
    ensures
        2 * time_units(Timing::Metrical(tpb), seq![], tpb as int) == units_per_second(Timing::Metrical(tpb)),
{
}

/// Law: once a Set Tempo is in effect, each further tick adds exactly its
/// tempo in units, until the next change.
pub proof fn law_tempo_rate(map: Seq<(int, int)>, k: int, tick: int)
    requires
        strictly_sorted(map),
        0 <= k < map.len(),
        map[k].0 <= tick,
        k + 1 < map.len() ==> tick + 1 <= map[k + 1].0,
        map[0].0 >= 0,
    ensures
        metrical_units(tick + 1, map) == metrical_units(tick, map) + map[k].1,
{
    lemma_rate_from(map, k, tick, 0, DEFAULT_US_PER_QUARTER as int);
}

proof fn lemma_rate_from(map: Seq<(int, int)>, k: int, tick: int, last: int, us: int)
    requires
        strictly_sorted(map),
        0 <= k < map.len(),
        map[k].0 <= tick,
        k + 1 < map.len() ==> tick + 1 <= map[k + 1].0,
        map[0].0 >= last,
    ensures
        elapsed_from(tick + 1, map, last, us) == elapsed_from(tick, map, last, us) + map[k].1,
    decreases map.len(),
{
    let rest = map.drop_first();
    assert(strictly_sorted(rest)) by {
        assert forall|i: int, j: int| 0 <= i < j < rest.len() implies #[trigger] rest[i].0 < #[trigger] rest[j].0 by {
            assert(rest[i] == map[i + 1] && rest[j] == map[j + 1]);
        }
    }
    if k == 0 {
        if map[0].0 < tick {
            assert(map[0].0 < tick + 1);
            lemma_last_segment(tick, rest, map[0].0, map[0].1);
        } else {
            // map[0] sits exactly on `tick`
            assert(map[0].0 == tick);
            if rest.len() > 0 {
                assert(rest[0] == map[1]);
                assert(rest[0].0 >= tick + 1);
            }
            assert(rest.len() == 0 || rest[0].0 >= tick + 1);
            assert((tick + 1 - tick) * map[0].1 == map[0].1) by (nonlinear_arith);
            assert(elapsed_from(tick + 1, rest, tick, map[0].1) == (tick + 1 - tick) * map[0].1);
        }
    } else {
        assert(map[0].0 < map[k].0);
        assert(rest[k - 1] == map[k]);
        if k < rest.len() {
            assert(rest[k] == map[k + 1]);
        }
        assert(rest[0] == map[1]);
        assert(map[0].0 < map[1].0);
        lemma_rate_from(rest, k - 1, tick, map[0].0, map[0].1);
    }
}

proof fn lemma_last_segment(tick: int, rest: Seq<(int, int)>, last: int, us: int)
    requires
        last < tick,
        rest.len() == 0 || rest[0].0 >= tick + 1,
    ensures
        elapsed_from(tick + 1, rest, last, us) == elapsed_from(tick, rest, last, us) + us,
{
    assert((tick + 1 - last) * us == (tick - last) * us + us) by (nonlinear_arith);
}


pub proof fn lemma_tempo_view_fits(map: Seq<TempoChange>)
    ensures
        tempos_fit(tempo_view(map)),
        forall|i: int| 0 <= i < map.len() ==> (#[trigger] tempo_view(map)[i]).0 >= 0,
{
}

/// Where the first entry at or after `change`'s tick is known, inserting is
/// either nothing (the tick is taken) or a plain insertion there.
proof fn lemma_tempo_insert_at(map: Seq<(int, int)>, change: (int, int), i: int)
    requires
        strictly_sorted(map),
        0 <= i <= map.len(),
        forall|j: int| 0 <= j < i ==> #[trigger] map[j].0 < change.0,
        i < map.len() ==> map[i].0 >= change.0,
    ensures
        tempo_insert(map, change) == (if i < map.len() && map[i].0 == change.0 { map } else { map.insert(i, change) }),
        strictly_sorted(tempo_insert(map, change)),
    decreases i,
{
    if i == 0 {
        if map.len() == 0 {
            assert(map.insert(0, change) =~= seq![change]);
        } else if map[0].0 == change.0 {
        } else {
            assert(map.insert(0, change) =~= seq![change] + map);
        }
    } else {
        let rest = map.drop_first();
        assert(strictly_sorted(rest)) by {
            assert forall|a: int, b: int| 0 <= a < b < rest.len() implies #[trigger] rest[a].0 < #[trigger] rest[b].0 by {
                assert(rest[a] == map[a + 1] && rest[b] == map[b + 1]);
            }
        }
        assert forall|j: int| 0 <= j < i - 1 implies #[trigger] rest[j].0 < change.0 by {
            assert(rest[j] == map[j + 1]);
        }
        if i - 1 < rest.len() {
            assert(rest[i - 1] == map[i]);
        }
        assert(map[0].0 < change.0);
        lemma_tempo_insert_at(rest, change, i - 1);
        if i < map.len() && map[i].0 == change.0 {
            assert(seq![map[0]] + rest =~= map);
        } else {
            assert(seq![map[0]] + rest.insert(i - 1, change) =~= map.insert(i, change));
        }
        let r = tempo_insert(map, change);
        assert(r == seq![map[0]] + tempo_insert(rest, change));
        assert forall|a: int, b: int| 0 <= a < b < r.len() implies #[trigger] r[a].0 < #[trigger] r[b].0 by {
            if a == 0 {
                let tr = tempo_insert(rest, change);
                assert(r[b] == tr[b - 1]);
                if i < map.len() && map[i].0 == change.0 {
                    assert(tr[b - 1] == rest[b - 1]);
                    assert(rest[b - 1] == map[b]);
                } else {
                    if b - 1 < i - 1 {
                        assert(tr[b - 1] == rest[b - 1]);
                        assert(rest[b - 1] == map[b]);
                    } else if b - 1 == i - 1 {
                        assert(tr[b - 1] == change);
                    } else {
                        assert(tr[b - 1] == rest[b - 2]);
                        assert(rest[b - 2] == map[b - 1]);
                    }
                }
            } else {
                assert(r[a] == tempo_insert(rest, change)[a - 1]);
                assert(r[b] == tempo_insert(rest, change)[b - 1]);
            }
        }
    }
}

/// The split point of a sorted map at tick `t`.
proof fn tempo_split(map: Seq<(int, int)>, t: int) -> (i: int)
    requires
        strictly_sorted(map),
    ensures
        0 <= i <= map.len(),
        forall|j: int| 0 <= j < i ==> #[trigger] map[j].0 < t,
        i < map.len() ==> map[i].0 >= t,
    decreases map.len(),
{
    if map.len() == 0 || map.last().0 < t {
        map.len() as int
    } else {
        let init = map.drop_last();
        assert(strictly_sorted(init)) by {
            assert forall|a: int, b: int| 0 <= a < b < init.len() implies #[trigger] init[a].0 < #[trigger] init[b].0 by {
                assert(init[a] == map[a] && init[b] == map[b]);
            }
        }
        let i = tempo_split(init, t);
        assert forall|j: int| 0 <= j < i implies #[trigger] map[j].0 < t by {
            assert(init[j] == map[j]);
        }
        if i < init.len() {
            assert(init[i] == map[i]);
        }
        i
    }
}

/// Law: the tempo map stays ordered by tick, one entry per tick.
pub proof fn law_tempo_insert_sorted(map: Seq<(int, int)>, change: (int, int))
    requires
        strictly_sorted(map),
    ensures
        strictly_sorted(tempo_insert(map, change)),
{
    let i = tempo_split(map, change.0);
    lemma_tempo_insert_at(map, change, i);
}

/// Law: at a tick that already has a Set Tempo, a later one is ignored; the
/// first one read stays in effect.
pub proof fn law_first_tempo_wins(map: Seq<(int, int)>, tick: int, first: int, later: int)
    requires
        strictly_sorted(map),
    ensures
        tempo_insert(tempo_insert(map, (tick, first)), (tick, later)) == tempo_insert(map, (tick, first)),
{
    let i = tempo_split(map, tick);
    lemma_tempo_insert_at(map, (tick, first), i);
    let m1 = tempo_insert(map, (tick, first));
    assert(m1[i].0 == tick);
    assert forall|j: int| 0 <= j < i implies #[trigger] m1[j].0 < tick by {
        assert(m1[j] == map[j]);
    }
    lemma_tempo_insert_at(m1, (tick, later), i);
}

/// Adds a Set Tempo to the map unless one is already in effect at its tick.
pub fn insert_tempo(map: &mut Vec<TempoChange>, change: TempoChange)
    requires
        strictly_sorted(tempo_view(old(map)@)),
    ensures
        tempo_view(final(map)@) == tempo_insert(tempo_view(old(map)@), change@),
        strictly_sorted(tempo_view(final(map)@)),
{
    let ghost before = tempo_view(map@);
    let mut i: usize = 0;
    while i < map.len() && map[i].tick < change.tick
        invariant
            0 <= i <= map@.len(),
            before == tempo_view(map@),
            forall|j: int| 0 <= j < i ==> #[trigger] before[j].0 < change@.0,
        decreases map@.len() - i,
    {
        i = i + 1;
    }
    proof {
        lemma_tempo_insert_at(before, change@, i as int);
    }
    if i < map.len() && map[i].tick == change.tick {
        return;
    }
    map.insert(i, change);
    assert(tempo_view(map@) =~= before.insert(i as int, change@));
}

/// Time units from tick 0 to `tick` under a metrical tempo map.
pub fn metrical_units_at(map: &Vec<TempoChange>, tick: u128) -> (units: u128)
    requires
        strictly_sorted(tempo_view(map@)),
        tick <= tick_limit(),
    ensures
        units == metrical_units(tick as int, tempo_view(map@)),
        units <= tick * u32::MAX,
{
    let ghost v = tempo_view(map@);
    proof {
        lemma_tempo_view_fits(map@);
        assert(v.skip(0) =~= v);
    }
    let mut sec: u128 = 0;
    let mut last: u128 = 0;
    let mut us: u128 = DEFAULT_US_PER_QUARTER as u128;
    let mut i: usize = 0;
    while i < map.len() && map[i].tick < tick
        invariant
            0 <= i <= map@.len(),
            v == tempo_view(map@),
            strictly_sorted(v),
            tempos_fit(v),
            forall|j: int| 0 <= j < map@.len() ==> (#[trigger] v[j]).0 >= 0,
            tick <= tick_limit(),
            last <= tick,
            us <= u32::MAX,
            sec <= last * u32::MAX,
            i < map@.len() ==> v[i as int].0 >= last,
            sec + elapsed_from(tick as int, v.skip(i as int), last as int, us as int) == metrical_units(tick as int, v),
        decreases map@.len() - i,
    {
        let c = map[i];
        assert(v.skip(i as int)[0] == v[i as int]);
        assert(v.skip(i as int).drop_first() =~= v.skip(i + 1));
        assert((c.tick - last) * us <= (c.tick - last) * u32::MAX) by (nonlinear_arith)
            requires last <= c.tick, us <= u32::MAX;
        assert(last * u32::MAX + (c.tick - last) * u32::MAX == c.tick * u32::MAX) by (nonlinear_arith);
        assert(c.tick * u32::MAX <= tick_limit() * u32::MAX) by (nonlinear_arith)
            requires c.tick <= tick_limit();
        sec = sec + (c.tick - last) * us;
        last = c.tick;
        us = c.us_per_quarter as u128;
        i = i + 1;
        if i < map.len() {
            assert(v[i - 1].0 < v[i as int].0);
        }
    }
    assert((tick - last) * us <= (tick - last) * u32::MAX) by (nonlinear_arith)
        requires last <= tick, us <= u32::MAX;
    assert(last * u32::MAX + (tick - last) * u32::MAX == tick * u32::MAX) by (nonlinear_arith);
    assert(tick * u32::MAX <= tick_limit() * u32::MAX) by (nonlinear_arith)
        requires tick <= tick_limit();
    sec + (tick - last) * us
}

/// Denominator of a frame rate, as an executable value.
fn fps_den_of(fps: Fps) -> (d: u128)
    ensures
        d == fps_den(fps),
{
    match fps {
        Fps::Fps29 => 1001,
        _ => 1,
    }
}

/// Numerator of a frame rate, as an executable value.
fn fps_num_of(fps: Fps) -> (n: u128)
    ensures
        n == fps_num(fps),
{
    match fps {
        Fps::Fps24 => 24,
        Fps::Fps25 => 25,
        Fps::Fps29 => 30000,
        Fps::Fps30 => 30,
    }
}

/// Time units from tick 0 to `tick`.
pub fn units_at(timing: Timing, map: &Vec<TempoChange>, tick: u128) -> (units: u128)
    requires
        strictly_sorted(tempo_view(map@)),
        tick <= tick_limit(),
    ensures
        units == time_units(timing, tempo_view(map@), tick as int),
        units <= tick * 0xFFFF_FFFF,
{
    match timing {
        Timing::Metrical(_) => metrical_units_at(map, tick),
        Timing::Timecode(fps, _) => {
            let den = fps_den_of(fps);
            assert(tick * den <= tick * 0xFFFF_FFFF) by (nonlinear_arith)
                requires den <= 1001;
            tick * den
        },
    }
}

/// Time units in one second.
pub fn units_per_second_of(timing: Timing) -> (r: u128)
    ensures
        r == units_per_second(timing),
{
    match timing {
        Timing::Metrical(tpb) => 1_000_000 * (tpb as u128),
        Timing::Timecode(fps, sub) => fps_num_of(fps) * (sub as u128),
    }
}

} // verus!
