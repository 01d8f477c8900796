//! Which soundfont files the synthesizer's reader can take without failing
//! hard.
//!
//! `rustysynth` reads a soundfont's INFO, sdta and pdta lists and builds its
//! zones, instruments and presets from index lists in the file. Where those
//! indices reach past the lists they index, it slices or indexes out of
//! bounds; where a sample's bounds are near the ends of the `i32` range, its
//! sanity check overflows; and a chunk whose size reaches past the file
//! makes it allocate that size before failing. This module walks the bytes
//! the way that reader does and finds such files.

use vstd::prelude::*;

verus! {

pub open spec fn le_u16(b: Seq<u8>, p: int) -> int {
    b[p] + 256 * b[p + 1]
}

pub open spec fn le_u32(b: Seq<u8>, p: int) -> int {
    b[p] + 256 * (b[p + 1] + 256 * (b[p + 2] + 256 * b[p + 3]))
}

pub open spec fn le_i32(b: Seq<u8>, p: int) -> int {
    let u = le_u32(b, p);
    if u >= 0x8000_0000 {
        u - 0x1_0000_0000
    } else {
        u
    }
}

/// The four bytes at `p` are the chunk id `c0 c1 c2 c3`.
pub open spec fn tag(b: Seq<u8>, p: int, c0: u8, c1: u8, c2: u8, c3: u8) -> bool {
    0 <= p && p + 4 <= b.len() && b[p] == c0 && b[p + 1] == c1 && b[p + 2] == c2 && b[p + 3] == c3
}

/// How reading a list stops.
pub enum ListEnd {
    Error,
    Unsafe,
    Done(int),
}

pub open spec fn is_text_info(b: Seq<u8>, p: int) -> bool {
    tag(b, p, 0x69, 0x73, 0x6E, 0x67) || tag(b, p, 0x49, 0x4E, 0x41, 0x4D) || tag(b, p, 0x69, 0x72, 0x6F, 0x6D)
        || tag(b, p, 0x49, 0x43, 0x52, 0x44) || tag(b, p, 0x49, 0x45, 0x4E, 0x47) || tag(b, p, 0x49, 0x50, 0x52, 0x44)
        || tag(b, p, 0x49, 0x43, 0x4F, 0x50) || tag(b, p, 0x49, 0x43, 0x4D, 0x54) || tag(b, p, 0x49, 0x53, 0x46, 0x54)
}

pub open spec fn is_version_info(b: Seq<u8>, p: int) -> bool {
    tag(b, p, 0x69, 0x66, 0x69, 0x6C) || tag(b, p, 0x69, 0x76, 0x65, 0x72)
}

/// The sub-chunks of the INFO list from `p` on, while `p` is before `stop`.
/// Version chunks are read as four bytes whatever their size says.
pub open spec fn info_walk(b: Seq<u8>, p: int, stop: int) -> ListEnd
    decreases b.len() - p,
{
    if p >= stop {
        ListEnd::Done(p)
    } else if p < 0 || p + 8 > b.len() {
        ListEnd::Error
    } else if is_version_info(b, p) {
        if p + 12 > b.len() {
            ListEnd::Error
        } else {
            info_walk(b, p + 12, stop)
        }
    } else if is_text_info(b, p) {
        let size = le_u32(b, p + 4);
        if size > b.len() - (p + 8) {
            ListEnd::Unsafe
        } else {
            info_walk(b, p + 8 + size, stop)
        }
    } else {
        ListEnd::Error
    }
}

/// A list header at `p` with the given type: where its sub-chunks start and
/// where the reader stops reading them.
pub open spec fn list_at(b: Seq<u8>, p: int, c0: u8, c1: u8, c2: u8, c3: u8) -> Option<(int, int)> {
    if p < 0 || p + 12 > b.len() || !tag(b, p, 0x4C, 0x49, 0x53, 0x54) || !tag(b, p + 8, c0, c1, c2, c3) {
        None
    } else {
        Some((p + 12, p + 8 + le_u32(b, p + 4)))
    }
}

/// The sub-chunks of the sdta list, with the sample chunk found so far.
pub open spec fn sdta_walk(b: Seq<u8>, p: int, stop: int, smpl: Option<(int, int)>) -> (ListEnd, Option<(int, int)>)
    decreases b.len() - p,
{
    if p >= stop {
        (ListEnd::Done(p), smpl)
    } else if p < 0 || p + 8 > b.len() {
        (ListEnd::Error, smpl)
    } else {
        let size = le_u32(b, p + 4);
        let q = p + 8;
        if tag(b, p, 0x73, 0x6D, 0x70, 0x6C) {
            if smpl is Some || size % 2 != 0 {
                (ListEnd::Error, smpl)
            } else if size > b.len() - q {
                (ListEnd::Unsafe, smpl)
            } else {
                sdta_walk(b, q + size, stop, Some((q, size)))
            }
        } else if tag(b, p, 0x73, 0x6D, 0x32, 0x34) {
            if size > b.len() - q {
                (ListEnd::Unsafe, smpl)
            } else {
                sdta_walk(b, q + size, stop, smpl)
            }
        } else {
            (ListEnd::Error, smpl)
        }
    }
}

/// Where the pdta sub-chunks the reader keeps were found: position and size.
pub struct Hydra {
    pub phdr: Option<(int, int)>,
    pub pbag: Option<(int, int)>,
    pub pgen: Option<(int, int)>,
    pub inst: Option<(int, int)>,
    pub ibag: Option<(int, int)>,
    pub igen: Option<(int, int)>,
    pub shdr: Option<(int, int)>,
}

pub open spec fn no_hydra() -> Hydra {
    Hydra { phdr: None, pbag: None, pgen: None, inst: None, ibag: None, igen: None, shdr: None }
}

/// A record list of `rec`-byte records: `None` where the reader refuses it.
pub open spec fn records(b: Seq<u8>, q: int, size: int, rec: int) -> Option<(int, int)> {
    if size == 0 || size % rec != 0 || size > b.len() - q {
        None
    } else {
        Some((q, size))
    }
}

/// The sub-chunks of the pdta list.
pub open spec fn pdta_walk(b: Seq<u8>, p: int, stop: int, h: Hydra) -> (ListEnd, Hydra)
    decreases b.len() - p,
{
    if p >= stop {
        (ListEnd::Done(p), h)
    } else if p < 0 || p + 8 > b.len() {
        (ListEnd::Error, h)
    } else {
        let size = le_u32(b, p + 4);
        let q = p + 8;
        if tag(b, p, 0x70, 0x6D, 0x6F, 0x64) || tag(b, p, 0x69, 0x6D, 0x6F, 0x64) {
            if size > b.len() - q {
                (ListEnd::Unsafe, h)
            } else {
                pdta_walk(b, q + size, stop, h)
            }
        } else {
            let r = if tag(b, p, 0x70, 0x68, 0x64, 0x72) {
                records(b, q, size, 38)
            } else if tag(b, p, 0x69, 0x6E, 0x73, 0x74) {
                records(b, q, size, 22)
            } else if tag(b, p, 0x73, 0x68, 0x64, 0x72) {
                records(b, q, size, 46)
            } else {
                records(b, q, size, 4)
            };
            let known = tag(b, p, 0x70, 0x68, 0x64, 0x72) || tag(b, p, 0x70, 0x62, 0x61, 0x67) || tag(
                b,
                p,
                0x70,
                0x67,
                0x65,
                0x6E,
            ) || tag(b, p, 0x69, 0x6E, 0x73, 0x74) || tag(b, p, 0x69, 0x62, 0x61, 0x67) || tag(b, p, 0x69, 0x67, 0x65, 0x6E)
                || tag(b, p, 0x73, 0x68, 0x64, 0x72);
            if !known || r is None {
                (ListEnd::Error, h)
            } else {
                let h2 = if tag(b, p, 0x70, 0x68, 0x64, 0x72) {
                    Hydra { phdr: r, ..h }
                } else if tag(b, p, 0x70, 0x62, 0x61, 0x67) {
                    Hydra { pbag: r, ..h }
                } else if tag(b, p, 0x70, 0x67, 0x65, 0x6E) {
                    Hydra { pgen: r, ..h }
                } else if tag(b, p, 0x69, 0x6E, 0x73, 0x74) {
                    Hydra { inst: r, ..h }
                } else if tag(b, p, 0x69, 0x62, 0x61, 0x67) {
                    Hydra { ibag: r, ..h }
                } else if tag(b, p, 0x69, 0x67, 0x65, 0x6E) {
                    Hydra { igen: r, ..h }
                } else {
                    Hydra { shdr: r, ..h }
                };
                pdta_walk(b, q + size, stop, h2)
            }
        }
    }
}

/// Zones built from a bag list take generators from `gen` up to the next
/// zone's index: those indices stay within the generator list.
pub open spec fn zones_fit(b: Seq<u8>, bag: (int, int), gen: (int, int)) -> bool {
    let n = bag.1 / 4;
    let gens = gen.1 / 4 - 1;
    forall|i: int|
        0 <= i < n - 1 ==> !(#[trigger] le_u16(b, bag.0 + 4 * (i + 1)) > le_u16(b, bag.0 + 4 * i) && le_u16(
            b,
            bag.0 + 4 * (i + 1),
        ) > gens)
}

/// The generator index of the `i`-th bag record.
pub open spec fn bag_index(b: Seq<u8>, bag: (int, int), i: int) -> int {
    le_u16(b, bag.0 + 4 * i)
}

/// The zone built from the `i`-th bag record takes generator `g`: those from
/// its own index up to the next record's.
pub open spec fn zone_takes(b: Seq<u8>, bag: (int, int), i: int, g: int) -> bool {
    bag_index(b, bag, i) <= g < bag_index(b, bag, i + 1)
}

/// Law: the zone check accepts a bag list exactly when every generator that
/// a zone takes, from its own index up to the next zone's, is one of the
/// generator list's records before the terminal one.
pub proof fn law_zones_fit_iff_generators_in_list(b: Seq<u8>, bag: (int, int), gen: (int, int))
    ensures
        zones_fit(b, bag, gen) <==> forall|i: int, g: int|
            0 <= i < bag.1 / 4 - 1 && #[trigger] zone_takes(b, bag, i, g) ==> 0 <= g < gen.1 / 4 - 1,
{
    let n = bag.1 / 4;
    let gens = gen.1 / 4 - 1;
    if zones_fit(b, bag, gen) {
        assert forall|i: int, g: int|
            0 <= i < n - 1 && #[trigger] zone_takes(b, bag, i, g) implies 0 <= g < gens by {
            assert(bag.0 + 4 * (i + 1) == bag.0 + 4 * i + 4);
            let nx = le_u16(b, bag.0 + 4 * (i + 1));
            assert(!(nx > le_u16(b, bag.0 + 4 * i) && nx > gens));
            assert(0 <= le_u16(b, bag.0 + 4 * i));
        }
    }
    if forall|i: int, g: int| 0 <= i < n - 1 && #[trigger] zone_takes(b, bag, i, g) ==> 0 <= g < gens {
        assert forall|i: int|
            0 <= i < n - 1 implies !(#[trigger] le_u16(b, bag.0 + 4 * (i + 1)) > le_u16(b, bag.0 + 4 * i) && le_u16(
                b,
                bag.0 + 4 * (i + 1),
            ) > gens) by {
            let nx = le_u16(b, bag.0 + 4 * (i + 1));
            if nx > le_u16(b, bag.0 + 4 * i) && nx > gens {
                assert(bag_index(b, bag, i + 1) == nx);
                assert(zone_takes(b, bag, i, nx - 1));
            }
        }
    }
}

/// Law: a bag list whose generator indices all point into the generator
/// list, the terminal record included, passes the zone check.
pub proof fn law_indices_within_generators_fit(b: Seq<u8>, bag: (int, int), gen: (int, int))
    requires
        forall|i: int| 0 <= i < bag.1 / 4 ==> #[trigger] bag_index(b, bag, i) <= gen.1 / 4 - 1,
    ensures
        zones_fit(b, bag, gen),
{
    assert forall|i: int|
        0 <= i < bag.1 / 4 - 1 implies !(#[trigger] le_u16(b, bag.0 + 4 * (i + 1)) > le_u16(b, bag.0 + 4 * i)
        && le_u16(b, bag.0 + 4 * (i + 1)) > gen.1 / 4 - 1) by {
        assert(bag_index(b, bag, i + 1) <= gen.1 / 4 - 1);
    }
}

/// Instruments and presets take the zones from their own index up to the
/// next one's: those indices stay within the zone list.
pub open spec fn spans_fit(b: Seq<u8>, list: (int, int), rec: int, off: int, zones: int) -> bool {
    let m = list.1 / rec;
    forall|i: int|
        0 <= i < m - 1 ==> !(#[trigger] le_u16(b, list.0 + rec * (i + 1) + off) > le_u16(b, list.0 + rec * i + off)
            && le_u16(b, list.0 + rec * (i + 1) + off) > zones)
}

/// The span of the `i`-th instrument or preset record takes zone `z`: those
/// from its own zone index up to the next record's.
pub open spec fn span_takes(b: Seq<u8>, list: (int, int), rec: int, off: int, i: int, z: int) -> bool {
    le_u16(b, list.0 + rec * i + off) <= z < le_u16(b, list.0 + rec * (i + 1) + off)
}

/// Law: the span check accepts an instrument or preset list exactly when
/// every zone that a record's span takes is one of the zones built.
pub proof fn law_spans_fit_iff_zones_in_list(b: Seq<u8>, list: (int, int), rec: int, off: int, zones: int)
    requires
        zones >= 0,
    ensures
        spans_fit(b, list, rec, off, zones) <==> forall|i: int, z: int|
            0 <= i < list.1 / rec - 1 && #[trigger] span_takes(b, list, rec, off, i, z) ==> 0 <= z < zones,
{
    let m = list.1 / rec;
    if spans_fit(b, list, rec, off, zones) {
        assert forall|i: int, z: int| 0 <= i < m - 1 && #[trigger] span_takes(b, list, rec, off, i, z) implies 0 <= z
            < zones by {
            let nx = le_u16(b, list.0 + rec * (i + 1) + off);
            assert(!(nx > le_u16(b, list.0 + rec * i + off) && nx > zones));
            assert(0 <= le_u16(b, list.0 + rec * i + off));
        }
    }
    if forall|i: int, z: int| 0 <= i < m - 1 && #[trigger] span_takes(b, list, rec, off, i, z) ==> 0 <= z < zones {
        assert forall|i: int|
            0 <= i < m - 1 implies !(#[trigger] le_u16(b, list.0 + rec * (i + 1) + off) > le_u16(b, list.0 + rec * i + off)
                && le_u16(b, list.0 + rec * (i + 1) + off) > zones) by {
            let nx = le_u16(b, list.0 + rec * (i + 1) + off);
            if nx > le_u16(b, list.0 + rec * i + off) && nx > zones {
                assert(span_takes(b, list, rec, off, i, nx - 1));
            }
        }
    }
}

/// The bound a sample position keeps so that adding any address offset of
/// the generators stays within `i32`.
pub open spec fn sample_bound() -> int {
    0x4000_0000 - 0x1_0000
}

/// Every sample header's start, end and loop points stay within the bound.
pub open spec fn samples_fit(b: Seq<u8>, shdr: (int, int)) -> bool {
    forall|j: int, k: int|
        0 <= j < shdr.1 / 46 - 1 && 0 <= k < 4 ==> -sample_bound() <= #[trigger] le_i32(b, shdr.0 + 46 * j + 20 + 4 * k)
            <= sample_bound()
}

pub open spec fn hydra_fits(b: Seq<u8>, h: Hydra) -> bool {
    match (h.phdr, h.pbag, h.pgen, h.inst, h.ibag, h.igen, h.shdr) {
        (Some(phdr), Some(pbag), Some(pgen), Some(inst), Some(ibag), Some(igen), Some(shdr)) => {
            &&& zones_fit(b, ibag, igen)
            &&& spans_fit(b, inst, 22, 20, ibag.1 / 4 - 1)
            &&& zones_fit(b, pbag, pgen)
            &&& spans_fit(b, phdr, 38, 24, pbag.1 / 4 - 1)
            &&& samples_fit(b, shdr)
        },
        _ => true,
    }
}

/// The synthesizer's reader takes these bytes without failing hard: it
/// reads them or reports an error.
pub open spec fn soundfont_reader_safe(b: Seq<u8>) -> bool {
    if b.len() < 12 || !tag(b, 0, 0x52, 0x49, 0x46, 0x46) || !tag(b, 8, 0x73, 0x66, 0x62, 0x6B) {
        true
    } else {
        match list_at(b, 12, 0x49, 0x4E, 0x46, 0x4F) {
            None => true,
            Some((p1, stop1)) => match info_walk(b, p1, stop1) {
                ListEnd::Error => true,
                ListEnd::Unsafe => false,
                ListEnd::Done(p2) => match list_at(b, p2, 0x73, 0x64, 0x74, 0x61) {
                    None => true,
                    Some((p3, stop3)) => match sdta_walk(b, p3, stop3, None).0 {
                        ListEnd::Error => true,
                        ListEnd::Unsafe => false,
                        ListEnd::Done(p4) => match list_at(b, p4, 0x70, 0x64, 0x74, 0x61) {
                            None => true,
                            Some((p5, stop5)) => match pdta_walk(b, p5, stop5, no_hydra()) {
                                (ListEnd::Error, _) => true,
                                (ListEnd::Unsafe, _) => false,
                                (ListEnd::Done(_), h) => hydra_fits(b, h),
                            },
                        },
                    },
                },
            },
        }
    }
}

/// How reading a list stops, as the check computes it.
pub enum Walk {
    Error,
    Unsafe,
    Done(usize),
}

pub open spec fn walk_view(w: Walk) -> ListEnd {
    match w {
        Walk::Error => ListEnd::Error,
        Walk::Unsafe => ListEnd::Unsafe,
        Walk::Done(p) => ListEnd::Done(p as int),
    }
}

fn le_u16_at(b: &[u8], p: usize) -> (v: usize)
    requires
        p + 2 <= b@.len(),
    ensures
        v == le_u16(b@, p as int),
        v < 0x1_0000,
{
    b[p] as usize + 256 * b[p + 1] as usize
}

fn le_u32_at(b: &[u8], p: usize) -> (v: u32)
    requires
        p + 4 <= b@.len(),
    ensures
        v == le_u32(b@, p as int),
{
    let v: u64 = b[p] as u64 + 256 * (b[p + 1] as u64 + 256 * (b[p + 2] as u64 + 256 * b[p + 3] as u64));
    v as u32
}

fn le_i32_at(b: &[u8], p: usize) -> (v: i64)
    requires
        p + 4 <= b@.len(),
    ensures
        v == le_i32(b@, p as int),
{
    let u = le_u32_at(b, p) as i64;
    if u >= 0x8000_0000 {
        u - 0x1_0000_0000
    } else {
        u
    }
}

fn tag_at(b: &[u8], p: usize, c0: u8, c1: u8, c2: u8, c3: u8) -> (r: bool)
    ensures
        r == tag(b@, p as int, c0, c1, c2, c3),
{
    p <= b.len() && b.len() - p >= 4 && b[p] == c0 && b[p + 1] == c1 && b[p + 2] == c2 && b[p + 3] == c3
}

fn is_text_info_at(b: &[u8], p: usize) -> (r: bool)
    ensures
        r == is_text_info(b@, p as int),
{
    tag_at(b, p, 0x69, 0x73, 0x6E, 0x67) || tag_at(b, p, 0x49, 0x4E, 0x41, 0x4D) || tag_at(b, p, 0x69, 0x72, 0x6F, 0x6D)
        || tag_at(b, p, 0x49, 0x43, 0x52, 0x44) || tag_at(b, p, 0x49, 0x45, 0x4E, 0x47) || tag_at(b, p, 0x49, 0x50, 0x52, 0x44)
        || tag_at(b, p, 0x49, 0x43, 0x4F, 0x50) || tag_at(b, p, 0x49, 0x43, 0x4D, 0x54) || tag_at(b, p, 0x49, 0x53, 0x46, 0x54)
}

fn is_version_info_at(b: &[u8], p: usize) -> (r: bool)
    ensures
        r == is_version_info(b@, p as int),
{
    tag_at(b, p, 0x69, 0x66, 0x69, 0x6C) || tag_at(b, p, 0x69, 0x76, 0x65, 0x72)
}

/// A list header at `p`: where its sub-chunks start, and its size, counted
/// from four bytes before that start.
fn list_at_at(b: &[u8], p: usize, c0: u8, c1: u8, c2: u8, c3: u8) -> (r: Option<(usize, u32)>)
    ensures
        list_at(b@, p as int, c0, c1, c2, c3) is None <==> r is None,
        r matches Some((q, size)) ==> q == p + 12 && q <= b@.len() && list_at(b@, p as int, c0, c1, c2, c3) == Some(
            (q as int, q - 4 + size),
        ),
{
    if p > b.len() || b.len() - p < 12 || !tag_at(b, p, 0x4C, 0x49, 0x53, 0x54) || !tag_at(b, p + 8, c0, c1, c2, c3) {
        return None;
    }
    let size = le_u32_at(b, p + 4);
    Some((p + 12, size))
}

fn info_walk_at(b: &[u8], p0: usize, base: usize, size: u32) -> (r: Walk)
    requires
        base <= p0 <= b@.len(),
    ensures
        walk_view(r) == info_walk(b@, p0 as int, base + size),
{
    let mut p = p0;
    loop
        invariant
            base <= p0 <= p <= b@.len(),
            info_walk(b@, p as int, base + size) == info_walk(b@, p0 as int, base + size),
        decreases b@.len() - p,
    {
        if p - base >= size as usize {
            return Walk::Done(p);
        }
        if b.len() - p < 8 {
            return Walk::Error;
        }
        if is_version_info_at(b, p) {
            if b.len() - p < 12 {
                return Walk::Error;
            }
            p = p + 12;
        } else if is_text_info_at(b, p) {
            let s = le_u32_at(b, p + 4);
            if s as usize > b.len() - (p + 8) {
                return Walk::Unsafe;
            }
            p = p + 8 + s as usize;
        } else {
            return Walk::Error;
        }
    }
}

fn sdta_walk_at(b: &[u8], p0: usize, base: usize, size: u32) -> (r: Walk)
    requires
        base <= p0 <= b@.len(),
    ensures
        walk_view(r) == sdta_walk(b@, p0 as int, base + size, None).0,
{
    let mut p = p0;
    let mut has_smpl = false;
    let ghost mut smpl: Option<(int, int)> = None;
    loop
        invariant
            base <= p0 <= p <= b@.len(),
            has_smpl == smpl is Some,
            sdta_walk(b@, p as int, base + size, smpl).0 == sdta_walk(b@, p0 as int, base + size, None).0,
        decreases b@.len() - p,
    {
        if p - base >= size as usize {
            return Walk::Done(p);
        }
        if b.len() - p < 8 {
            return Walk::Error;
        }
        let s = le_u32_at(b, p + 4);
        let q = p + 8;
        if tag_at(b, p, 0x73, 0x6D, 0x70, 0x6C) {
            if has_smpl || s % 2 != 0 {
                return Walk::Error;
            }
            if s as usize > b.len() - q {
                return Walk::Unsafe;
            }
            proof {
                smpl = Some((q as int, s as int));
            }
            has_smpl = true;
            p = q + s as usize;
        } else if tag_at(b, p, 0x73, 0x6D, 0x32, 0x34) {
            if s as usize > b.len() - q {
                return Walk::Unsafe;
            }
            p = q + s as usize;
        } else {
            return Walk::Error;
        }
    }
}

/// Where the pdta sub-chunks were found, as the check computes it.
#[derive(Clone, Copy)]
pub struct Found {
    pub phdr: Option<(usize, usize)>,
    pub pbag: Option<(usize, usize)>,
    pub pgen: Option<(usize, usize)>,
    pub inst: Option<(usize, usize)>,
    pub ibag: Option<(usize, usize)>,
    pub igen: Option<(usize, usize)>,
    pub shdr: Option<(usize, usize)>,
}

pub open spec fn span_view(o: Option<(usize, usize)>) -> Option<(int, int)> {
    match o {
        Some((q, s)) => Some((q as int, s as int)),
        None => None,
    }
}

/// A record list found in the file: whole records, at least one, inside it.
pub open spec fn span_ok(o: Option<(usize, usize)>, len: int, rec: int) -> bool {
    o matches Some((q, s)) ==> q + s <= len && s > 0 && (s as int) % rec == 0
}

impl Found {
    pub open spec fn hydra(self) -> Hydra {
        Hydra {
            phdr: span_view(self.phdr),
            pbag: span_view(self.pbag),
            pgen: span_view(self.pgen),
            inst: span_view(self.inst),
            ibag: span_view(self.ibag),
            igen: span_view(self.igen),
            shdr: span_view(self.shdr),
        }
    }

    pub open spec fn in_file(self, len: int) -> bool {
        &&& span_ok(self.phdr, len, 38)
        &&& span_ok(self.pbag, len, 4)
        &&& span_ok(self.pgen, len, 4)
        &&& span_ok(self.inst, len, 22)
        &&& span_ok(self.ibag, len, 4)
        &&& span_ok(self.igen, len, 4)
        &&& span_ok(self.shdr, len, 46)
    }
}

fn pdta_walk_at(b: &[u8], p0: usize, base: usize, size: u32) -> (r: (Walk, Found))
    requires
        base <= p0 <= b@.len(),
    ensures
        walk_view(r.0) == pdta_walk(b@, p0 as int, base + size, no_hydra()).0,
        r.0 is Done ==> r.1.hydra() == pdta_walk(b@, p0 as int, base + size, no_hydra()).1,
        r.1.in_file(b@.len() as int),
{
    let mut p = p0;
    let mut h = Found { phdr: None, pbag: None, pgen: None, inst: None, ibag: None, igen: None, shdr: None };
    assert(h.hydra() == no_hydra());
    loop
        invariant
            base <= p0 <= p <= b@.len(),
            h.in_file(b@.len() as int),
            pdta_walk(b@, p as int, base + size, h.hydra()) == pdta_walk(b@, p0 as int, base + size, no_hydra()),
        decreases b@.len() - p,
    {
        if p - base >= size as usize {
            return (Walk::Done(p), h);
        }
        if b.len() - p < 8 {
            return (Walk::Error, h);
        }
        let s = le_u32_at(b, p + 4);
        let q = p + 8;
        if tag_at(b, p, 0x70, 0x6D, 0x6F, 0x64) || tag_at(b, p, 0x69, 0x6D, 0x6F, 0x64) {
            if s as usize > b.len() - q {
                return (Walk::Unsafe, h);
            }
            p = q + s as usize;
        } else {
            let is_phdr = tag_at(b, p, 0x70, 0x68, 0x64, 0x72);
            let is_pbag = tag_at(b, p, 0x70, 0x62, 0x61, 0x67);
            let is_pgen = tag_at(b, p, 0x70, 0x67, 0x65, 0x6E);
            let is_inst = tag_at(b, p, 0x69, 0x6E, 0x73, 0x74);
            let is_ibag = tag_at(b, p, 0x69, 0x62, 0x61, 0x67);
            let is_igen = tag_at(b, p, 0x69, 0x67, 0x65, 0x6E);
            let is_shdr = tag_at(b, p, 0x73, 0x68, 0x64, 0x72);
            let rec: u32 = if is_phdr {
                38
            } else if is_inst {
                22
            } else if is_shdr {
                46
            } else {
                4
            };
            let known = is_phdr || is_pbag || is_pgen || is_inst || is_ibag || is_igen || is_shdr;
            if !known || s == 0 || s % rec != 0 || s as usize > b.len() - q {
                return (Walk::Error, h);
            }
            let r = Some((q, s as usize));
            if is_phdr {
                h.phdr = r;
            } else if is_pbag {
                h.pbag = r;
            } else if is_pgen {
                h.pgen = r;
            } else if is_inst {
                h.inst = r;
            } else if is_ibag {
                h.ibag = r;
            } else if is_igen {
                h.igen = r;
            } else {
                h.shdr = r;
            }
            p = q + s as usize;
        }
    }
}

fn zones_fit_at(b: &[u8], bag: (usize, usize), gen: (usize, usize)) -> (r: bool)
    requires
        bag.0 + bag.1 <= b@.len(),
        bag.1 % 4 == 0,
        gen.1 >= 4,
    ensures
        r == zones_fit(b@, (bag.0 as int, bag.1 as int), (gen.0 as int, gen.1 as int)),
{
    let len = b.len();
    let n = bag.1 / 4;
    let gens = gen.1 / 4 - 1;
    let last: usize = if n == 0 { 0 } else { n - 1 };
    let mut i: usize = 0;
    while i < last
        invariant
            n == bag.1 / 4,
            len == b@.len(),
            last + 1 == n || (n == 0 && last == 0),
            i <= last,
            gens == gen.1 / 4 - 1,
            bag.0 + bag.1 <= b@.len(),
            bag.1 % 4 == 0,
            forall|j: int|
                0 <= j < i ==> !(#[trigger] le_u16(b@, bag.0 + 4 * (j + 1)) > le_u16(b@, bag.0 + 4 * j) && le_u16(
                    b@,
                    bag.0 + 4 * (j + 1),
                ) > gens),
        decreases n - i,
    {
        assert(4 * (i + 1) + 2 <= bag.1) by (nonlinear_arith)
            requires
                i + 1 < n,
                n == bag.1 / 4,
        ;
        let cur = le_u16_at(b, bag.0 + 4 * i);
        let next = le_u16_at(b, bag.0 + 4 * (i + 1));
        if next > cur && next > gens {
            return false;
        }
        i = i + 1;
    }
    true
}

fn spans_fit_at(b: &[u8], list: (usize, usize), rec: usize, off: usize, zones: usize) -> (r: bool)
    requires
        list.0 + list.1 <= b@.len(),
        (rec == 22 && off == 20) || (rec == 38 && off == 24),
    ensures
        r == spans_fit(b@, (list.0 as int, list.1 as int), rec as int, off as int, zones as int),
{
    let len = b.len();
    let m = list.1 / rec;
    let last: usize = if m == 0 { 0 } else { m - 1 };
    let mut i: usize = 0;
    while i < last
        invariant
            m == list.1 / rec,
            len == b@.len(),
            last + 1 == m || (m == 0 && last == 0),
            i <= last,
            list.0 + list.1 <= b@.len(),
            (rec == 22 && off == 20) || (rec == 38 && off == 24),
            forall|j: int|
                0 <= j < i ==> !(#[trigger] le_u16(b@, list.0 + rec * (j + 1) + off) > le_u16(b@, list.0 + rec * j + off)
                    && le_u16(b@, list.0 + rec * (j + 1) + off) > zones),
        decreases m - i,
    {
        assert(rec * (i + 1) + off + 2 <= list.1) by (nonlinear_arith)
            requires
                i + 1 < m,
                m == list.1 / rec,
                (rec == 22 && off == 20) || (rec == 38 && off == 24),
        ;
        assert(rec * i + off + 2 <= rec * (i + 1) + off + 2) by (nonlinear_arith)
            requires
                rec > 0,
        ;
        let cur = le_u16_at(b, list.0 + rec * i + off);
        let next = le_u16_at(b, list.0 + rec * (i + 1) + off);
        if next > cur && next > zones {
            return false;
        }
        i = i + 1;
    }
    true
}

fn samples_fit_at(b: &[u8], shdr: (usize, usize)) -> (r: bool)
    requires
        shdr.0 + shdr.1 <= b@.len(),
    ensures
        r == samples_fit(b@, (shdr.0 as int, shdr.1 as int)),
{
    let len = b.len();
    let m = shdr.1 / 46;
    let last: usize = if m == 0 { 0 } else { m - 1 };
    let mut j: usize = 0;
    while j < last
        invariant
            m == shdr.1 / 46,
            len == b@.len(),
            last + 1 == m || (m == 0 && last == 0),
            j <= last,
            shdr.0 + shdr.1 <= b@.len(),
            forall|jj: int, k: int|
                0 <= jj < j && 0 <= k < 4 ==> -sample_bound() <= #[trigger] le_i32(b@, shdr.0 + 46 * jj + 20 + 4 * k)
                    <= sample_bound(),
        decreases m - j,
    {
        let mut k: usize = 0;
        while k < 4
            invariant
                m == shdr.1 / 46,
                len == b@.len(),
                shdr.0 + shdr.1 <= b@.len(),
                j + 1 < m,
                k <= 4,
                forall|jj: int, kk: int|
                    0 <= jj < j && 0 <= kk < 4 ==> -sample_bound() <= #[trigger] le_i32(
                        b@,
                        shdr.0 + 46 * jj + 20 + 4 * kk,
                    ) <= sample_bound(),
                forall|kk: int|
                    0 <= kk < k ==> -sample_bound() <= #[trigger] le_i32(b@, shdr.0 + 46 * j + 20 + 4 * kk)
                        <= sample_bound(),
            decreases 4 - k,
        {
            assert(46 * j + 20 + 4 * k + 4 <= shdr.1) by (nonlinear_arith)
                requires
                    j + 1 < m,
                    k < 4,
                    m == shdr.1 / 46,
            ;
            let v = le_i32_at(b, shdr.0 + 46 * j + 20 + 4 * k);
            if v < -0x3FFF_0000 || v > 0x3FFF_0000 {
                return false;
            }
            k = k + 1;
        }
        assert forall|jj: int, kk: int|
            0 <= jj < j + 1 && 0 <= kk < 4 implies -sample_bound() <= #[trigger] le_i32(b@, shdr.0 + 46 * jj + 20 + 4 * kk)
                <= sample_bound() by {
            if jj == j {
                assert(-sample_bound() <= le_i32(b@, shdr.0 + 46 * j + 20 + 4 * kk) <= sample_bound());
            }
        }
        j = j + 1;
    }
    true
}

fn hydra_fits_at(b: &[u8], h: Found) -> (r: bool)
    requires
        h.in_file(b@.len() as int),
    ensures
        r == hydra_fits(b@, h.hydra()),
{
    match (h.phdr, h.pbag, h.pgen, h.inst, h.ibag, h.igen, h.shdr) {
        (Some(phdr), Some(pbag), Some(pgen), Some(inst), Some(ibag), Some(igen), Some(shdr)) => {
            zones_fit_at(b, ibag, igen) && spans_fit_at(b, inst, 22, 20, ibag.1 / 4 - 1) && zones_fit_at(b, pbag, pgen)
                && spans_fit_at(b, phdr, 38, 24, pbag.1 / 4 - 1) && samples_fit_at(b, shdr)
        },
        _ => true,
    }
}

/// Whether the synthesizer's reader takes these bytes without failing hard.
pub fn soundfont_reader_safe_at(b: &[u8]) -> (ok: bool)
    ensures
        ok == soundfont_reader_safe(b@),
{
    if b.len() < 12 || !tag_at(b, 0, 0x52, 0x49, 0x46, 0x46) || !tag_at(b, 8, 0x73, 0x66, 0x62, 0x6B) {
        return true;
    }
    let (p1, size1) = match list_at_at(b, 12, 0x49, 0x4E, 0x46, 0x4F) {
        None => return true,
        Some(x) => x,
    };
    let p2 = match info_walk_at(b, p1, p1 - 4, size1) {
        Walk::Error => return true,
        Walk::Unsafe => return false,
        Walk::Done(p) => p,
    };
    let (p3, size3) = match list_at_at(b, p2, 0x73, 0x64, 0x74, 0x61) {
        None => return true,
        Some(x) => x,
    };
    let p4 = match sdta_walk_at(b, p3, p3 - 4, size3) {
        Walk::Error => return true,
        Walk::Unsafe => return false,
        Walk::Done(p) => p,
    };
    let (p5, size5) = match list_at_at(b, p4, 0x70, 0x64, 0x74, 0x61) {
        None => return true,
        Some(x) => x,
    };
    let (w, h) = pdta_walk_at(b, p5, p5 - 4, size5);
    match w {
        Walk::Error => true,
        Walk::Unsafe => false,
        Walk::Done(_) => hydra_fits_at(b, h),
    }
}

} // verus!
