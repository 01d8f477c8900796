//! Which MIDI files the sequencer's reader can take without failing hard.
//!
//! `rustysynth` reads a track event by event until End of Track, whatever
//! the chunk length says. Two things there go wrong worse than an error: a
//! track length that is negative or reaches past the file makes it allocate
//! without bound for the bytes it skips after End of Track, and a track whose
//! delta times add up past `i32::MAX` overflows its tick counter. This module
//! walks the bytes the way that reader does and finds such files.

use vstd::prelude::*;

verus! {

/// How reading a track stops.
pub enum TrackEnd {
    /// The reader reports an error.
    Error,
    /// The reader would fail hard.
    Unsafe,
    /// The track is read; the next one starts here.
    Done(int),
}

/// One event of a track.
pub enum TrackStep {
    Error,
    Unsafe,
    Done(int),
    /// The next event starts at `pos`, with the track's tick and running status.
    Next { pos: int, tick: int, status: int },
}

/// A variable-length number of at most four bytes at `p`, and the position
/// after it; `None` where the bytes end or a fourth byte continues.
pub open spec fn varlen(b: Seq<u8>, p: int) -> Option<(int, int)> {
    if p < 0 || p >= b.len() {
        None
    } else if b[p] < 128 {
        Some((b[p] as int, p + 1))
    } else if p + 1 >= b.len() {
        None
    } else if b[p + 1] < 128 {
        Some(((b[p] % 128) * 128 + b[p + 1], p + 2))
    } else if p + 2 >= b.len() {
        None
    } else if b[p + 2] < 128 {
        Some((((b[p] % 128) * 128 + b[p + 1] % 128) * 128 + b[p + 2], p + 3))
    } else if p + 3 >= b.len() || b[p + 3] >= 128 {
        None
    } else {
        Some(((((b[p] % 128) * 128 + b[p + 1] % 128) * 128 + b[p + 2] % 128) * 128 + b[p + 3], p + 4))
    }
}

/// A big-endian signed 32-bit number at `p`.
pub open spec fn be_i32(b: Seq<u8>, p: int) -> int {
    let u = ((b[p] * 256 + b[p + 1]) * 256 + b[p + 2]) * 256 + b[p + 3];
    if u >= 0x8000_0000 {
        u - 0x1_0000_0000
    } else {
        u
    }
}

/// A big-endian signed 16-bit number at `p`.
pub open spec fn be_i16(b: Seq<u8>, p: int) -> int {
    let u = b[p] * 256 + b[p + 1];
    if u >= 0x8000 {
        u - 0x1_0000
    } else {
        u
    }
}

/// Skips a variable-length size and that many bytes, from `p`.
pub open spec fn skip_sized(b: Seq<u8>, p: int, tick: int) -> TrackStep {
    match varlen(b, p) {
        None => TrackStep::Error,
        Some((n, q)) => if q + n > b.len() {
            TrackStep::Error
        } else {
            TrackStep::Next { pos: q + n, tick, status: 0xFF }
        },
    }
}

/// Reads the event at `p` of a track whose data starts at `start` and whose
/// length field says `size`.
pub open spec fn track_step(b: Seq<u8>, p: int, tick: int, status: int, size: int, start: int) -> TrackStep {
    match varlen(b, p) {
        None => TrackStep::Error,
        Some((d, p1)) => if p1 >= b.len() {
            TrackStep::Error
        } else {
            let first = b[p1] as int;
            let p2 = p1 + 1;
            let t = tick + d;
            if t > i32::MAX {
                TrackStep::Unsafe
            } else if first < 128 {
                let cmd = status - status % 16;
                if cmd == 0xC0 || cmd == 0xD0 {
                    TrackStep::Next { pos: p2, tick: t, status }
                } else if p2 >= b.len() {
                    TrackStep::Error
                } else {
                    TrackStep::Next { pos: p2 + 1, tick: t, status }
                }
            } else if first == 0xF0 || first == 0xF7 {
                match skip_sized(b, p2, t) {
                    TrackStep::Next { pos, tick, status: _ } => TrackStep::Next { pos, tick, status: first },
                    other => other,
                }
            } else if first == 0xFF {
                if p2 >= b.len() {
                    TrackStep::Error
                } else {
                    let kind = b[p2] as int;
                    let p3 = p2 + 1;
                    if kind == 0x2F {
                        if p3 >= b.len() {
                            TrackStep::Error
                        } else {
                            let p4 = p3 + 1;
                            let read = p4 - start;
                            if read < size {
                                if size - read > b.len() - p4 {
                                    TrackStep::Unsafe
                                } else {
                                    TrackStep::Done(start + size)
                                }
                            } else if size < 0 {
                                TrackStep::Unsafe
                            } else {
                                TrackStep::Done(p4)
                            }
                        }
                    } else if kind == 0x51 {
                        match varlen(b, p3) {
                            None => TrackStep::Error,
                            Some((n, q)) => if n != 3 || q + 3 > b.len() {
                                TrackStep::Error
                            } else {
                                TrackStep::Next { pos: q + 3, tick: t, status: 0xFF }
                            },
                        }
                    } else {
                        skip_sized(b, p3, t)
                    }
                }
            } else {
                let cmd = first - first % 16;
                let n = if cmd == 0xC0 || cmd == 0xD0 { 1int } else { 2int };
                if p2 + n > b.len() {
                    TrackStep::Error
                } else {
                    TrackStep::Next { pos: p2 + n, tick: t, status: first }
                }
            }
        },
    }
}

/// The event at `p` is End of Track: a delta time, then `FF 2F` and its
/// length byte.
pub open spec fn end_of_track_at(b: Seq<u8>, p: int) -> bool {
    varlen(b, p) matches Some((_, p1)) && p1 + 2 < b.len() && b[p1] == 0xFF && b[p1 + 1] == 0x2F
}

/// Law: reading an event fails hard for two reasons only: its delta time
/// takes the track's tick past `i32::MAX`, or it is End of Track in a track
/// whose length field is negative or reaches past the file. Any tick up to
/// `i32::MAX` is read, whatever the track's length.
pub proof fn law_step_fails_hard_only_past_i32_or_on_bad_length(
    b: Seq<u8>,
    p: int,
    tick: int,
    status: int,
    size: int,
    start: int,
)
    requires
        0 <= start <= p,
    ensures
        track_step(b, p, tick, status, size, start) is Unsafe ==> (varlen(b, p) matches Some((d, _)) && tick + d
            > i32::MAX) || (end_of_track_at(b, p) && (size < 0 || start + size > b.len())),
{
}

/// Law: and for those two reasons it always does: an event whose delta time
/// takes the tick past `i32::MAX` fails hard, and so does End of Track in a
/// track whose length field is negative or reaches past the file.
pub proof fn law_step_fails_hard_past_i32_and_on_bad_length(
    b: Seq<u8>,
    p: int,
    tick: int,
    status: int,
    size: int,
    start: int,
)
    requires
        0 <= start <= p,
    ensures
        varlen(b, p) matches Some((d, p1)) && p1 < b.len() && tick + d > i32::MAX ==> track_step(
            b,
            p,
            tick,
            status,
            size,
            start,
        ) is Unsafe,
        end_of_track_at(b, p) && (size < 0 || start + size > b.len()) ==> track_step(
            b,
            p,
            tick,
            status,
            size,
            start,
        ) is Unsafe,
{
}

/// Reads the events of a track from `p` on.
pub open spec fn walk_track(b: Seq<u8>, p: int, tick: int, status: int, size: int, start: int) -> TrackEnd
    decreases b.len() - p,
{
    match track_step(b, p, tick, status, size, start) {
        TrackStep::Error => TrackEnd::Error,
        TrackStep::Unsafe => TrackEnd::Unsafe,
        TrackStep::Done(q) => TrackEnd::Done(q),
        TrackStep::Next { pos, tick, status } => if p < pos <= b.len() {
            walk_track(b, pos, tick, status, size, start)
        } else {
            TrackEnd::Error
        },
    }
}

/// Reads a track chunk at `p`.
pub open spec fn read_track(b: Seq<u8>, p: int) -> TrackEnd {
    if p < 0 || p + 8 > b.len() || b[p] != 0x4D || b[p + 1] != 0x54 || b[p + 2] != 0x72 || b[p + 3] != 0x6B {
        TrackEnd::Error
    } else {
        walk_track(b, p + 8, 0, 0, be_i32(b, p + 4), p + 8)
    }
}

/// Reads `n` track chunks from `p` on: `false` where one would fail hard.
pub open spec fn tracks_safe(b: Seq<u8>, p: int, n: int) -> bool
    decreases n,
{
    if n <= 0 {
        true
    } else {
        match read_track(b, p) {
            TrackEnd::Error => true,
            TrackEnd::Unsafe => false,
            TrackEnd::Done(q) => tracks_safe(b, q, n - 1),
        }
    }
}

/// The sequencer's reader takes these bytes without failing hard: it reads
/// them or reports an error.
pub open spec fn midi_reader_safe(b: Seq<u8>) -> bool {
    if b.len() < 14 || b[0] != 0x4D || b[1] != 0x54 || b[2] != 0x68 || b[3] != 0x64 || be_i32(b, 4) != 6 || !(
    be_i16(b, 8) == 0 || be_i16(b, 8) == 1) {
        true
    } else {
        tracks_safe(b, 14, be_i16(b, 10))
    }
}


/// One event of a track, as the check computes it.
pub enum Step {
    Error,
    Unsafe,
    Done(usize),
    Next(usize, u64, u8),
}

pub open spec fn step_view(s: Step) -> TrackStep {
    match s {
        Step::Error => TrackStep::Error,
        Step::Unsafe => TrackStep::Unsafe,
        Step::Done(q) => TrackStep::Done(q as int),
        Step::Next(pos, tick, status) => TrackStep::Next { pos: pos as int, tick: tick as int, status: status as int },
    }
}

fn varlen_at(b: &[u8], p: usize) -> (r: Option<(u32, usize)>)
    ensures
        match varlen(b@, p as int) {
            None => r is None,
            Some((v, q)) => r matches Some((v2, q2)) && v2 == v && q2 == q,
        },
        r matches Some((v, q)) ==> v < 0x1000_0000 && p < q <= b@.len(),
{
    let n = b.len();
    if p >= n {
        return None;
    }
    let b0 = b[p] as u32;
    if b0 < 128 {
        return Some((b0, p + 1));
    }
    if p + 1 >= n {
        return None;
    }
    let b1 = b[p + 1] as u32;
    if b1 < 128 {
        return Some(((b0 % 128) * 128 + b1, p + 2));
    }
    if p + 2 >= n {
        return None;
    }
    let b2 = b[p + 2] as u32;
    if b2 < 128 {
        return Some((((b0 % 128) * 128 + b1 % 128) * 128 + b2, p + 3));
    }
    if p + 3 >= n {
        return None;
    }
    let b3 = b[p + 3] as u32;
    if b3 >= 128 {
        return None;
    }
    Some(((((b0 % 128) * 128 + b1 % 128) * 128 + b2 % 128) * 128 + b3, p + 4))
}

fn skip_sized_at(b: &[u8], p: usize, tick: u64) -> (r: Step)
    requires
        tick <= i32::MAX,
    ensures
        step_view(r) == skip_sized(b@, p as int, tick as int),
        r matches Step::Next(q, _, _) ==> p < q <= b@.len(),
{
    match varlen_at(b, p) {
        None => Step::Error,
        Some((n, q)) => {
            if (n as usize) > b.len() - q {
                Step::Error
            } else {
                Step::Next(q + n as usize, tick, 0xFF)
            }
        },
    }
}

fn track_step_at(b: &[u8], p: usize, tick: u64, status: u8, size: i64, start: usize) -> (r: Step)
    requires
        tick <= i32::MAX,
        start <= p,
        -0x8000_0000 <= size < 0x8000_0000,
    ensures
        step_view(r) == track_step(b@, p as int, tick as int, status as int, size as int, start as int),
        r matches Step::Next(q, t, _) ==> p < q <= b@.len() && t <= i32::MAX,
{
    let n = b.len();
    match varlen_at(b, p) {
        None => Step::Error,
        Some((d, p1)) => {
            if p1 >= n {
                return Step::Error;
            }
            let first = b[p1];
            let p2 = p1 + 1;
            let t = tick + d as u64;
            if t > i32::MAX as u64 {
                return Step::Unsafe;
            }
            if first < 128 {
                let cmd = status - status % 16;
                if cmd == 0xC0 || cmd == 0xD0 {
                    Step::Next(p2, t, status)
                } else if p2 >= n {
                    Step::Error
                } else {
                    Step::Next(p2 + 1, t, status)
                }
            } else if first == 0xF0 || first == 0xF7 {
                match skip_sized_at(b, p2, t) {
                    Step::Next(q, tt, _) => Step::Next(q, tt, first),
                    other => other,
                }
            } else if first == 0xFF {
                if p2 >= n {
                    return Step::Error;
                }
                let kind = b[p2];
                let p3 = p2 + 1;
                if kind == 0x2F {
                    if p3 >= n {
                        return Step::Error;
                    }
                    let p4 = p3 + 1;
                    let read = p4 - start;
                    if size >= 0 && read < size as usize {
                        if size as usize - read > n - p4 {
                            Step::Unsafe
                        } else {
                            Step::Done(start + size as usize)
                        }
                    } else if size < 0 {
                        Step::Unsafe
                    } else {
                        Step::Done(p4)
                    }
                } else if kind == 0x51 {
                    match varlen_at(b, p3) {
                        None => Step::Error,
                        Some((len, q)) => {
                            if len != 3 || 3 > n - q {
                                Step::Error
                            } else {
                                Step::Next(q + 3, t, 0xFF)
                            }
                        },
                    }
                } else {
                    skip_sized_at(b, p3, t)
                }
            } else {
                let cmd = first - first % 16;
                let k: usize = if cmd == 0xC0 || cmd == 0xD0 { 1 } else { 2 };
                if k > n - p2 {
                    Step::Error
                } else {
                    Step::Next(p2 + k, t, first)
                }
            }
        },
    }
}

fn walk_track_at(b: &[u8], p0: usize, size: i64) -> (r: TrackExit)
    requires
        p0 <= b@.len(),
        -0x8000_0000 <= size < 0x8000_0000,
    ensures
        exit_view(r) == walk_track(b@, p0 as int, 0, 0, size as int, p0 as int),
{
    let mut p = p0;
    let mut tick: u64 = 0;
    let mut status: u8 = 0;
    loop
        invariant
            p0 <= p <= b@.len(),
            tick <= i32::MAX,
            -0x8000_0000 <= size < 0x8000_0000,
            walk_track(b@, p as int, tick as int, status as int, size as int, p0 as int)
                == walk_track(b@, p0 as int, 0, 0, size as int, p0 as int),
        decreases b@.len() - p,
    {
        let s = track_step_at(b, p, tick, status, size, p0);
        match s {
            Step::Error => return TrackExit::Error,
            Step::Unsafe => return TrackExit::Unsafe,
            Step::Done(q) => return TrackExit::Done(q),
            Step::Next(q, t, st) => {
                p = q;
                tick = t;
                status = st;
            },
        }
    }
}

/// How reading a track stops, as the check computes it.
pub enum TrackExit {
    Error,
    Unsafe,
    Done(usize),
}

pub open spec fn exit_view(e: TrackExit) -> TrackEnd {
    match e {
        TrackExit::Error => TrackEnd::Error,
        TrackExit::Unsafe => TrackEnd::Unsafe,
        TrackExit::Done(q) => TrackEnd::Done(q as int),
    }
}

fn be_i32_at(b: &[u8], p: usize) -> (v: i64)
    requires
        p + 4 <= b@.len(),
    ensures
        v == be_i32(b@, p as int),
        -0x8000_0000 <= v < 0x8000_0000,
{
    let u = ((b[p] as i64 * 256 + b[p + 1] as i64) * 256 + b[p + 2] as i64) * 256 + b[p + 3] as i64;
    if u >= 0x8000_0000 {
        u - 0x1_0000_0000
    } else {
        u
    }
}

fn be_i16_at(b: &[u8], p: usize) -> (v: i64)
    requires
        p + 2 <= b@.len(),
    ensures
        v == be_i16(b@, p as int),
{
    let u = b[p] as i64 * 256 + b[p + 1] as i64;
    if u >= 0x8000 {
        u - 0x1_0000
    } else {
        u
    }
}

fn read_track_at(b: &[u8], p: usize) -> (r: TrackExit)
    ensures
        exit_view(r) == read_track(b@, p as int),
{
    if p > b.len() || b.len() - p < 8 || b[p] != 0x4D || b[p + 1] != 0x54 || b[p + 2] != 0x72 || b[p + 3] != 0x6B {
        return TrackExit::Error;
    }
    let size = be_i32_at(b, p + 4);
    walk_track_at(b, p + 8, size)
}

/// Whether the sequencer's reader takes these bytes without failing hard.
pub fn midi_reader_safe_at(b: &[u8]) -> (ok: bool)
    ensures
        ok == midi_reader_safe(b@),
{
    if b.len() < 14 || b[0] != 0x4D || b[1] != 0x54 || b[2] != 0x68 || b[3] != 0x64 {
        return true;
    }
    let hsize = be_i32_at(b, 4);
    let format = be_i16_at(b, 8);
    if hsize != 6 || !(format == 0 || format == 1) {
        return true;
    }
    let count = be_i16_at(b, 10);
    let mut left: i64 = count;
    let mut p: usize = 14;
    while left > 0
        invariant
            midi_reader_safe(b@) == tracks_safe(b@, 14, count as int),
            tracks_safe(b@, p as int, left as int) == tracks_safe(b@, 14, count as int),
        decreases left,
    {
        match read_track_at(b, p) {
            TrackExit::Error => return true,
            TrackExit::Unsafe => return false,
            TrackExit::Done(q) => {
                p = q;
                left = left - 1;
            },
        }
    }
    true
}

} // verus!
