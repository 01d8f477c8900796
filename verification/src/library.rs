//! The soundfont and settings library: rows as the database stores them, and
//! the small decisions made around them.

use vstd::prelude::*;

verus! {

/// A registered soundfont.
#[derive(Clone, Debug)]
pub struct SoundfontRow {
    pub id: i64,
    pub path: String,
    pub name: String,
    pub is_builtin: bool,
}

/// One key/value setting.
#[derive(Clone, Debug)]
pub struct Setting {
    pub key: String,
    pub value: String,
}

/// The stored form of the builtin flag: 1 for a builtin soundfont, else 0.
pub fn builtin_column(is_builtin: bool) -> (v: i64)
    ensures
        v == (if is_builtin { 1i64 } else { 0i64 }),
{
    if is_builtin {
        1
    } else {
        0
    }
}

/// A soundfont row from its stored columns; any nonzero flag means builtin.
pub fn soundfont_row_from_columns(id: i64, path: String, name: String, is_builtin: i64) -> (row: SoundfontRow)
    ensures
        row.id == id,
        row.path == path,
        row.name == name,
        row.is_builtin == (is_builtin != 0),
{
    SoundfontRow { id, path, name, is_builtin: is_builtin != 0 }
}

/// Law: storing the builtin flag and reading it back gives the flag again.
pub proof fn law_builtin_flag_round_trip(is_builtin: bool)
    ensures
        ((if is_builtin { 1i64 } else { 0i64 }) != 0) == is_builtin,
{
}

/// Index of the first row with the given id, if any.
pub open spec fn first_with_id(rows: Seq<SoundfontRow>, id: i64) -> Option<int>
    decreases rows.len(),
{
    if rows.len() == 0 {
        None
    } else if rows[0].id == id {
        Some(0)
    } else {
        match first_with_id(rows.drop_first(), id) {
            Some(i) => Some(i + 1),
            None => None,
        }
    }
}

proof fn lemma_first_with_id(rows: Seq<SoundfontRow>, id: i64)
    ensures
        first_with_id(rows, id) matches Some(i) ==> 0 <= i < rows.len() && rows[i].id == id
            && forall|j: int| 0 <= j < i ==> #[trigger] rows[j].id != id,
        first_with_id(rows, id) is None ==> forall|j: int| 0 <= j < rows.len() ==> #[trigger] rows[j].id != id,
    decreases rows.len(),
{
    if rows.len() > 0 && rows[0].id != id {
        let rest = rows.drop_first();
        lemma_first_with_id(rest, id);
        match first_with_id(rest, id) {
            Some(i) => {
                assert(rows[i + 1] == rest[i]);
                assert forall|j: int| 0 <= j < i + 1 implies #[trigger] rows[j].id != id by {
                    if j > 0 {
                        assert(rows[j] == rest[j - 1]);
                    }
                }
            },
            None => {
                assert forall|j: int| 0 <= j < rows.len() implies #[trigger] rows[j].id != id by {
                    if j > 0 {
                        assert(rows[j] == rest[j - 1]);
                    }
                }
            },
        }
    }
}

/// Picks the soundfont with the given id from the registered ones; the
/// first one where several share it.
#[verifier::loop_isolation(false)]
pub fn find_soundfont(rows: Vec<SoundfontRow>, id: i64) -> (r: Result<SoundfontRow, String>)
    ensures
        r is Ok <==> exists|i: int| 0 <= i < rows@.len() && #[trigger] rows@[i].id == id,
        r matches Ok(row) ==> row == rows@[first_with_id(rows@, id).unwrap()],
        r matches Err(msg) ==> msg@ == "unknown soundfont id"@,
{
    proof {
        lemma_first_with_id(rows@, id);
    }
    let mut rows = rows;
    let ghost all = rows@;
    let mut i: usize = 0;
    while i < rows.len()
        invariant
            0 <= i <= all.len(),
            rows@ == all,
            forall|j: int| 0 <= j < i ==> #[trigger] all[j].id != id,
        decreases all.len() - i,
    {
        if rows[i].id == id {
            proof {
                lemma_first_with_id(all, id);
                match first_with_id(all, id) {
                    Some(k) => {
                        if k < i {
                            assert(all[k].id != id);
                        }
                        if k > i {
                            assert(all[i as int].id != id);
                        }
                    },
                    None => {
                        assert(all[i as int].id != id);
                    },
                }
            }
            let row = rows.swap_remove(i);
            return Ok(row);
        }
        i = i + 1;
    }
    proof {
        lemma_first_with_id(all, id);
        reveal_strlit("unknown soundfont id");
    }
    Err(String::from_str("unknown soundfont id"))
}

/// Index of the last `c` in `s`, or -1.
pub open spec fn last_index_of(s: Seq<char>, c: char) -> int
    decreases s.len(),
{
    if s.len() == 0 {
        -1
    } else if s.last() == c {
        s.len() - 1
    } else {
        last_index_of(s.drop_last(), c)
    }
}

/// A path in the syntax every platform reads alike: `/` separates its parts,
/// and it holds no backslash or `:`, and does not start with `//`.
pub open spec fn portable_path(path: Seq<char>) -> bool {
    &&& forall|i: int| 0 <= i < path.len() ==> #[trigger] path[i] != '\\' && path[i] != ':'
    &&& !(path.len() >= 2 && path[0] == '/' && path[1] == '/')
}

/// The part of a path after its last `/`.
pub open spec fn last_segment(path: Seq<char>) -> Seq<char> {
    path.skip(last_index_of(path, '/') + 1)
}

/// The stem of a file name that does not start with a dot: the part before
/// its last dot, or the whole name without a dot.
pub open spec fn stem_of(name: Seq<char>) -> Seq<char> {
    if last_index_of(name, '.') < 0 {
        name
    } else {
        name.take(last_index_of(name, '.'))
    }
}

/// Calls `Path::file_stem` and turns the stem into text. Trusted, as std
/// documents for every platform: an empty path has no file name, so no stem;
/// in a portable path whose last part is a name not starting with a dot,
/// that name is the file name, and its stem is the part before its last dot
/// (the whole name without a dot). Other paths (a backslash, a drive, a last
/// part starting with a dot) depend on the platform and are left unsaid.
#[verifier::external_body]
fn path_file_stem(path: &str) -> (r: Option<String>)
    ensures
        path@.len() == 0 ==> r is None,
        portable_path(path@) && last_segment(path@).len() > 0 && last_segment(path@)[0] != '.' ==> r is Some,
        portable_path(path@) && last_segment(path@).len() > 0 && last_segment(path@)[0] != '.' ==> r->0@
            == stem_of(last_segment(path@)),
{
    std::path::Path::new(path).file_stem().and_then(|s| s.to_str()).map(|s| s.to_string())
}

/// The name shown for a soundfont: the stem of its file name, or
/// "SoundFont" where the path has none.
pub fn soundfont_display_name(stem: Option<String>) -> (name: String)
    ensures
        name@ == (match stem {
            Some(s) => s@,
            None => "SoundFont"@,
        }),
{
    match stem {
        Some(s) => s,
        None => {
            proof {
                reveal_strlit("SoundFont");
            }
            String::from_str("SoundFont")
        },
    }
}

/// The name shown for the soundfont at `path`: the stem of its file name,
/// or "SoundFont" where it has none.
pub fn soundfont_name_for_path(path: &str) -> (name: String)
    ensures
        path@.len() == 0 ==> name@ == "SoundFont"@,
        portable_path(path@) && last_segment(path@).len() > 0 && last_segment(path@)[0] != '.' ==> name@
            == stem_of(last_segment(path@)),
{
    let stem = path_file_stem(path);
    soundfont_display_name(stem)
}

/// Calls `SystemTime::now` and measures it from the Unix epoch, in whole
/// seconds; `None` where the clock reads before the epoch. The reading is the
/// machine's clock, so nothing is stated of it.
#[verifier::external_body]
fn clock_unix_secs() -> Option<u64> {
    match std::time::SystemTime::now().duration_since(std::time::UNIX_EPOCH) {
        Ok(d) => Some(d.as_secs()),
        Err(_) => None,
    }
}

/// Seconds since the Unix epoch as a signed count, 0 where the clock reads
/// before the epoch. Counts past `i64::MAX` wrap as `as` casts do.
pub fn unix_secs_or_zero(secs: Option<u64>) -> (t: i64)
    ensures
        t == unix_secs_spec(secs),
{
    match secs {
        Some(s) => s as i64,
        None => 0,
    }
}

pub open spec fn unix_secs_spec(secs: Option<u64>) -> i64 {
    match secs {
        Some(s) => s as i64,
        None => 0,
    }
}

/// The current time in seconds since the Unix epoch, 0 before the epoch.
pub fn now_unix() -> (t: i64)
    ensures
        exists|secs: Option<u64>| #[trigger] unix_secs_spec(secs) == t,
{
    let secs = clock_unix_secs();
    let t = unix_secs_or_zero(secs);
    assert(unix_secs_spec(secs) == t);
    t
}

} // verus!
