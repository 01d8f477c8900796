//! Ordering the timeline by onset. The order is stable: notes with equal
//! onsets keep the order in which they were read.

use vstd::prelude::*;
use crate::midi::{Note, NoteModel, notes_view};

verus! {

/// Position in `s` of the first note starting after `k`.
pub open spec fn upper_bound(s: Seq<NoteModel>, k: int) -> int
    decreases s.len(),
{
    if s.len() == 0 {
        0
    } else if s[0].start <= k {
        1 + upper_bound(s.drop_first(), k)
    } else {
        0
    }
}

/// `s` with `n` placed after every note that starts no later than it.
pub open spec fn insert_by_start(s: Seq<NoteModel>, n: NoteModel) -> Seq<NoteModel> {
    s.insert(upper_bound(s, n.start), n)
}

/// `s` ordered by onset, stably: each note in turn is placed after all notes
/// before it that start no later.
pub open spec fn sort_by_start(s: Seq<NoteModel>) -> Seq<NoteModel>
    decreases s.len(),
{
    if s.len() == 0 {
        s
    } else {
        insert_by_start(sort_by_start(s.drop_last()), s.last())
    }
}

pub open spec fn sorted_by_start(s: Seq<NoteModel>) -> bool {
    forall|i: int, j: int| 0 <= i <= j < s.len() ==> #[trigger] s[i].start <= #[trigger] s[j].start
}

/// In a sorted sequence, a split point `p` with the notes before it starting
/// no later than `k` and the rest after is the upper bound of `k`.
proof fn lemma_upper_bound_at(s: Seq<NoteModel>, k: int, p: int)
    requires
        0 <= p <= s.len(),
        forall|i: int| 0 <= i < p ==> #[trigger] s[i].start <= k,
        p < s.len() ==> s[p].start > k,
    ensures
        upper_bound(s, k) == p,
    decreases p,
{
    if p > 0 {
        let rest = s.drop_first();
        assert forall|i: int| 0 <= i < p - 1 implies #[trigger] rest[i].start <= k by {
            assert(rest[i] == s[i + 1]);
        }
        if p < s.len() {
            assert(rest[p - 1] == s[p]);
        }
        assert(s[0].start <= k);
        lemma_upper_bound_at(rest, k, p - 1);
    }
}

/// Inserting at the upper bound keeps a sorted sequence sorted.
proof fn lemma_insert_keeps_sorted(s: Seq<NoteModel>, n: NoteModel, p: int)
    requires
        sorted_by_start(s),
        0 <= p <= s.len(),
        forall|i: int| 0 <= i < p ==> #[trigger] s[i].start <= n.start,
        p < s.len() ==> s[p].start > n.start,
    ensures
        sorted_by_start(s.insert(p, n)),
{
    let r = s.insert(p, n);
    assert forall|i: int, j: int| 0 <= i <= j < r.len() implies #[trigger] r[i].start <= #[trigger] r[j].start by {
        if j < p {
            assert(r[i] == s[i] && r[j] == s[j]);
        } else if j == p {
            if i < p {
                assert(r[i] == s[i]);
            }
        } else {
            assert(r[j] == s[j - 1]);
            if i < p {
                assert(r[i] == s[i]);
            } else if i == p {
                assert(s[p].start <= s[j - 1].start);
            } else {
                assert(r[i] == s[i - 1]);
            }
        }
    }
}

/// Law: the result of the sort is ordered by onset.
pub proof fn law_sort_orders(s: Seq<NoteModel>)
    ensures
        sorted_by_start(sort_by_start(s)),
    decreases s.len(),
{
    if s.len() > 0 {
        let t = sort_by_start(s.drop_last());
        law_sort_orders(s.drop_last());
        let n = s.last();
        let p = choose_split(t, n.start);
        lemma_upper_bound_at(t, n.start, p);
        lemma_insert_keeps_sorted(t, n, p);
    }
}

/// The split point of a sorted sequence at `k`.
proof fn choose_split(s: Seq<NoteModel>, k: int) -> (p: int)
    requires
        sorted_by_start(s),
    ensures
        0 <= p <= s.len(),
        forall|i: int| 0 <= i < p ==> #[trigger] s[i].start <= k,
        p < s.len() ==> s[p].start > k,
    decreases s.len(),
{
    if s.len() == 0 {
        0
    } else if s.last().start <= k {
        s.len() as int
    } else {
        assert(sorted_by_start(s.drop_last())) by {
            assert forall|i: int, j: int| 0 <= i <= j < s.drop_last().len() implies
                #[trigger] s.drop_last()[i].start <= #[trigger] s.drop_last()[j].start by {
                assert(s.drop_last()[i] == s[i] && s.drop_last()[j] == s[j]);
            }
        }
        let q = choose_split(s.drop_last(), k);
        assert forall|i: int| 0 <= i < q implies #[trigger] s[i].start <= k by {
            assert(s.drop_last()[i] == s[i]);
        }
        if q < s.drop_last().len() {
            assert(s.drop_last()[q] == s[q]);
        }
        q
    }
}

/// Law: the sort neither loses nor adds notes.
pub proof fn law_sort_permutes(s: Seq<NoteModel>)
    ensures
        sort_by_start(s).to_multiset() == s.to_multiset(),
    decreases s.len(),
{
    broadcast use vstd::seq_lib::group_to_multiset_ensures;
    if s.len() > 0 {
        let t = sort_by_start(s.drop_last());
        law_sort_permutes(s.drop_last());
        let p = upper_bound(t, s.last().start);
        lemma_upper_bound_range(t, s.last().start);
        vstd::seq_lib::to_multiset_insert(t, p, s.last());
        vstd::seq_lib::to_multiset_build(s.drop_last(), s.last());
        assert(s.drop_last().push(s.last()) =~= s);
    }
}

proof fn lemma_upper_bound_range(s: Seq<NoteModel>, k: int)
    ensures
        0 <= upper_bound(s, k) <= s.len(),
    decreases s.len(),
{
    if s.len() > 0 {
        lemma_upper_bound_range(s.drop_first(), k);
    }
}

/// Merges two sequences by onset; where onsets are equal the note of `a`
/// comes first.
pub open spec fn merge_by_start(a: Seq<NoteModel>, b: Seq<NoteModel>) -> Seq<NoteModel>
    decreases a.len() + b.len(),
{
    if a.len() == 0 {
        b
    } else if b.len() == 0 {
        a
    } else if a[0].start <= b[0].start {
        seq![a[0]] + merge_by_start(a.drop_first(), b)
    } else {
        seq![b[0]] + merge_by_start(a, b.drop_first())
    }
}

/// Insertion, one step at the front.
proof fn lemma_insert_front(s: Seq<NoteModel>, x: NoteModel)
    ensures
        s.len() == 0 ==> insert_by_start(s, x) == seq![x],
        s.len() > 0 && s[0].start <= x.start ==> insert_by_start(s, x) == seq![s[0]] + insert_by_start(s.drop_first(), x),
        s.len() > 0 && s[0].start > x.start ==> insert_by_start(s, x) == seq![x] + s,
{
    if s.len() == 0 {
        assert(s.insert(0, x) =~= seq![x]);
    } else if s[0].start <= x.start {
        let rest = s.drop_first();
        lemma_upper_bound_range(rest, x.start);
        assert(s.insert(1 + upper_bound(rest, x.start), x) =~= seq![s[0]] + rest.insert(upper_bound(rest, x.start), x));
    } else {
        assert(s.insert(0, x) =~= seq![x] + s);
    }
}

proof fn lemma_merge_empty_right(a: Seq<NoteModel>)
    ensures
        merge_by_start(a, seq![]) == a,
{
    if a.len() == 0 {
        assert(merge_by_start(a, seq![]) =~= a);
    }
}

proof fn lemma_merge_single(a: Seq<NoteModel>, x: NoteModel)
    ensures
        merge_by_start(a, seq![x]) == insert_by_start(a, x),
    decreases a.len(),
{
    lemma_insert_front(a, x);
    if a.len() > 0 {
        if a[0].start <= x.start {
            lemma_merge_single(a.drop_first(), x);
        } else {
            assert(seq![x].drop_first() =~= Seq::<NoteModel>::empty());
            lemma_merge_empty_right(a);
        }
    }
}

/// Merging with a sequence into which a note was inserted is inserting that
/// note into the merge.
proof fn lemma_merge_insert(a: Seq<NoteModel>, b: Seq<NoteModel>, x: NoteModel)
    ensures
        merge_by_start(a, insert_by_start(b, x)) == insert_by_start(merge_by_start(a, b), x),
    decreases a.len() + b.len(),
{
    lemma_insert_front(b, x);
    if a.len() == 0 {
    } else if b.len() == 0 {
        lemma_merge_single(a, x);
        lemma_merge_empty_right(a);
    } else {
        let a1 = a.drop_first();
        let b1 = b.drop_first();
        let m = merge_by_start(a, b);
        if b[0].start <= x.start {
            if a[0].start <= b[0].start {
                lemma_merge_insert(a1, b, x);
                assert(m == seq![a[0]] + merge_by_start(a1, b));
                assert(m.drop_first() =~= merge_by_start(a1, b));
                lemma_insert_front(m, x);
            } else {
                let bi = insert_by_start(b, x);
                assert(bi.drop_first() =~= insert_by_start(b1, x));
                lemma_merge_insert(a, b1, x);
                assert(m == seq![b[0]] + merge_by_start(a, b1));
                assert(m.drop_first() =~= merge_by_start(a, b1));
                lemma_insert_front(m, x);
            }
        } else {
            if a[0].start <= x.start {
                lemma_merge_insert(a1, b, x);
                assert(m == seq![a[0]] + merge_by_start(a1, b));
                assert(m.drop_first() =~= merge_by_start(a1, b));
                lemma_insert_front(m, x);
            } else {
                let bi = seq![x] + b;
                assert(bi[0] == x);
                assert(bi.drop_first() =~= b);
                lemma_insert_front(m, x);
            }
        }
    }
}

/// Law: merging the sorted halves of a sequence gives the sorted sequence.
pub proof fn law_merge_sorts(a: Seq<NoteModel>, b: Seq<NoteModel>)
    ensures
        merge_by_start(sort_by_start(a), sort_by_start(b)) == sort_by_start(a + b),
    decreases b.len(),
{
    if b.len() == 0 {
        assert(a + b =~= a);
        lemma_merge_empty_right(sort_by_start(a));
        assert(sort_by_start(b) =~= Seq::<NoteModel>::empty());
    } else {
        let b1 = b.drop_last();
        law_merge_sorts(a, b1);
        assert((a + b).drop_last() =~= a + b1);
        assert((a + b).last() == b.last());
        lemma_merge_insert(sort_by_start(a), sort_by_start(b1), b.last());
    }
}

/// Merges two notes vectors by onset, stably.
fn merge_notes(a: &Vec<Note>, b: &Vec<Note>) -> (r: Vec<Note>)
    ensures
        notes_view(r@) == merge_by_start(notes_view(a@), notes_view(b@)),
{
    let ghost sa = notes_view(a@);
    let ghost sb = notes_view(b@);
    let mut out: Vec<Note> = Vec::new();
    let mut i: usize = 0;
    let mut j: usize = 0;
    assert(sa.skip(0) =~= sa);
    assert(sb.skip(0) =~= sb);
    assert(notes_view(out@) =~= seq![]);
    while i < a.len() || j < b.len()
        invariant
            i <= a@.len(),
            j <= b@.len(),
            sa == notes_view(a@),
            sb == notes_view(b@),
            notes_view(out@) + merge_by_start(sa.skip(i as int), sb.skip(j as int)) == merge_by_start(sa, sb),
        decreases a@.len() - i + b@.len() - j,
    {
        let ghost ra = sa.skip(i as int);
        let ghost rb = sb.skip(j as int);
        let ghost before = notes_view(out@);
        if j == b.len() || (i < a.len() && a[i].start <= b[j].start) {
            let x = a[i];
            assert(ra[0] == x@);
            assert(ra.drop_first() =~= sa.skip(i + 1));
            if j == b.len() {
                assert(rb.len() == 0);
                proof {
                    lemma_merge_empty_right(ra);
                    lemma_merge_empty_right(ra.drop_first());
                }
                assert(ra =~= seq![ra[0]] + ra.drop_first());
            } else {
                assert(rb[0] == b@[j as int]@);
            }
            out.push(x);
            i = i + 1;
            assert(notes_view(out@) =~= before.push(x@));
            assert(before.push(x@) + merge_by_start(sa.skip(i as int), rb) =~= before + (seq![x@] + merge_by_start(sa.skip(i as int), rb)));
        } else {
            let y = b[j];
            assert(rb[0] == y@);
            assert(rb.drop_first() =~= sb.skip(j + 1));
            if i == a.len() {
                assert(ra.len() == 0);
                assert(rb =~= seq![rb[0]] + rb.drop_first());
            } else {
                assert(ra[0] == a@[i as int]@);
            }
            out.push(y);
            j = j + 1;
            assert(notes_view(out@) =~= before.push(y@));
            assert(before.push(y@) + merge_by_start(ra, sb.skip(j as int)) =~= before + (seq![y@] + merge_by_start(ra, sb.skip(j as int))));
        }
    }
    assert(sa.skip(i as int) =~= Seq::<NoteModel>::empty());
    assert(sb.skip(j as int) =~= Seq::<NoteModel>::empty());
    assert(notes_view(out@) + Seq::<NoteModel>::empty() =~= notes_view(out@));
    out
}

/// Sorts the notes `v[lo..hi]` by onset, stably, halving the range.
fn merge_sort_range(v: &Vec<Note>, lo: usize, hi: usize) -> (r: Vec<Note>)
    requires
        lo <= hi <= v@.len(),
    ensures
        notes_view(r@) == sort_by_start(notes_view(v@).subrange(lo as int, hi as int)),
    decreases hi - lo,
{
    let ghost s = notes_view(v@);
    if hi - lo <= 1 {
        let mut r: Vec<Note> = Vec::new();
        if hi - lo == 1 {
            r.push(v[lo]);
            let ghost sub = s.subrange(lo as int, hi as int);
            assert(sub.drop_last() =~= Seq::<NoteModel>::empty());
            assert(sort_by_start(sub.drop_last()) =~= Seq::<NoteModel>::empty());
            proof {
                lemma_insert_front(Seq::<NoteModel>::empty(), sub.last());
            }
            assert(notes_view(r@) =~= seq![v@[lo as int]@]);
        } else {
            assert(notes_view(r@) =~= Seq::<NoteModel>::empty());
            assert(s.subrange(lo as int, hi as int) =~= Seq::<NoteModel>::empty());
        }
        r
    } else {
        let mid = lo + (hi - lo) / 2;
        let left = merge_sort_range(v, lo, mid);
        let right = merge_sort_range(v, mid, hi);
        proof {
            law_merge_sorts(s.subrange(lo as int, mid as int), s.subrange(mid as int, hi as int));
            assert(s.subrange(lo as int, mid as int) + s.subrange(mid as int, hi as int) =~= s.subrange(lo as int, hi as int));
        }
        merge_notes(&left, &right)
    }
}

/// Orders notes by onset, stably.
pub fn sort_notes(notes: &Vec<Note>) -> (r: Vec<Note>)
    ensures
        notes_view(r@) == sort_by_start(notes_view(notes@)),
{
    let r = merge_sort_range(notes, 0, notes.len());
    assert(notes_view(notes@).subrange(0, notes@.len() as int) =~= notes_view(notes@));
    r
}

/// Law: what holds of every note before the sort holds of every note after.
pub proof fn law_sort_keeps_each(s: Seq<NoteModel>, p: spec_fn(NoteModel) -> bool)
    requires
        forall|i: int| 0 <= i < s.len() ==> #[trigger] p(s[i]),
    ensures
        forall|i: int| 0 <= i < sort_by_start(s).len() ==> #[trigger] p(sort_by_start(s)[i]),
    decreases s.len(),
{
    if s.len() > 0 {
        let t = sort_by_start(s.drop_last());
        assert forall|i: int| 0 <= i < s.drop_last().len() implies #[trigger] p(s.drop_last()[i]) by {
            assert(s.drop_last()[i] == s[i]);
        }
        law_sort_keeps_each(s.drop_last(), p);
        let q = upper_bound(t, s.last().start);
        lemma_upper_bound_range(t, s.last().start);
        let r = t.insert(q, s.last());
        assert forall|i: int| 0 <= i < r.len() implies #[trigger] p(r[i]) by {
            if i < q {
                assert(r[i] == t[i]);
            } else if i == q {
                assert(r[i] == s.last());
            } else {
                assert(r[i] == t[i - 1]);
            }
        }
    }
}

} // verus!
