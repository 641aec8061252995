//! Ordering of notes by start time.
//!
//! Notes that start at the same tick keep the order in which they were given.

use crate::chart::Note;
use vstd::prelude::*;

verus! {

/// Whether the notes come in ascending order of start time.
pub open spec fn ordered_by_start(notes: Seq<Note>) -> bool {
    forall|i: int, j: int| 0 <= i <= j < notes.len() ==> notes[i].start <= notes[j].start
}

/// `notes` with `note` put behind the last note that starts no later than it.
pub open spec fn insert_by_start(notes: Seq<Note>, note: Note) -> Seq<Note>
    decreases notes.len(),
{
    if notes.len() == 0 || notes.last().start <= note.start {
        notes.push(note)
    } else {
        insert_by_start(notes.drop_last(), note).push(notes.last())
    }
}

/// The notes in ascending order of start time, notes of equal start in the
/// order in which `notes` holds them.
pub open spec fn sort_by_start(notes: Seq<Note>) -> Seq<Note>
    decreases notes.len(),
{
    if notes.len() == 0 {
        notes
    } else {
        insert_by_start(sort_by_start(notes.drop_last()), notes.last())
    }
}

/// An ordered list stays ordered when its last note is dropped, and none of
/// its notes starts later than the last.
proof fn lemma_drop_last_ordered(notes: Seq<Note>)
    requires
        ordered_by_start(notes),
        notes.len() > 0,
    ensures
        ordered_by_start(notes.drop_last()),
        forall|i: int| 0 <= i < notes.len() ==> notes[i].start <= notes.last().start,
{
    let shorter = notes.drop_last();
    assert forall|i: int, j: int| 0 <= i <= j < shorter.len() implies shorter[i].start
        <= shorter[j].start by {
        assert(notes[i].start <= notes[j].start);
    }
}

/// Inserting a note makes the list one note longer.
pub proof fn lemma_insert_len(notes: Seq<Note>, note: Note)
    ensures
        insert_by_start(notes, note).len() == notes.len() + 1,
    decreases notes.len(),
{
    if !(notes.len() == 0 || notes.last().start <= note.start) {
        lemma_insert_len(notes.drop_last(), note);
    }
}

/// Inserting a note adds that note and nothing else.
pub proof fn lemma_insert_permutes(notes: Seq<Note>, note: Note)
    ensures
        insert_by_start(notes, note).to_multiset() == notes.to_multiset().insert(note),
    decreases notes.len(),
{
    broadcast use vstd::seq_lib::to_multiset_build;

    if !(notes.len() == 0 || notes.last().start <= note.start) {
        lemma_insert_permutes(notes.drop_last(), note);
        assert(notes.drop_last().push(notes.last()) =~= notes);
        assert(notes.drop_last().to_multiset().insert(note).insert(notes.last())
            =~= notes.drop_last().to_multiset().insert(notes.last()).insert(note));
    }
}

/// No note of a list with a note inserted starts later than the notes that
/// went in.
proof fn lemma_insert_bound(notes: Seq<Note>, note: Note, bound: int)
    requires
        forall|i: int| 0 <= i < notes.len() ==> notes[i].start <= bound,
        note.start <= bound,
    ensures
        forall|k: int|
            0 <= k < insert_by_start(notes, note).len() ==> insert_by_start(notes, note)[k].start
                <= bound,
    decreases notes.len(),
{
    if !(notes.len() == 0 || notes.last().start <= note.start) {
        lemma_insert_bound(notes.drop_last(), note, bound);
    }
}

/// Inserting a note into an ordered list leaves the list ordered.
pub proof fn lemma_insert_ordered(notes: Seq<Note>, note: Note)
    requires
        ordered_by_start(notes),
    ensures
        ordered_by_start(insert_by_start(notes, note)),
    decreases notes.len(),
{
    if notes.len() > 0 {
        lemma_drop_last_ordered(notes);
        if notes.last().start > note.start {
            lemma_insert_ordered(notes.drop_last(), note);
            lemma_insert_bound(notes.drop_last(), note, notes.last().start as int);
        }
    }
}

/// The predicate "starts at tick `t`".
pub open spec fn starts_at(t: i64) -> spec_fn(Note) -> bool {
    |note: Note| note.start == t
}

/// Among the notes that start at one tick, an inserted note comes last and
/// the others keep their order.
pub proof fn lemma_insert_stable(notes: Seq<Note>, note: Note, t: i64)
    ensures
        insert_by_start(notes, note).filter(starts_at(t)) == if note.start == t {
            notes.filter(starts_at(t)).push(note)
        } else {
            notes.filter(starts_at(t))
        },
    decreases notes.len(),
{
    broadcast use Seq::lemma_filter_push;

    if !(notes.len() == 0 || notes.last().start <= note.start) {
        lemma_insert_stable(notes.drop_last(), note, t);
        assert(notes.drop_last().push(notes.last()) =~= notes);
    }
}

/// Ordering the notes changes no note count.
pub proof fn lemma_sort_len(notes: Seq<Note>)
    ensures
        sort_by_start(notes).len() == notes.len(),
    decreases notes.len(),
{
    if notes.len() > 0 {
        lemma_sort_len(notes.drop_last());
        lemma_insert_len(sort_by_start(notes.drop_last()), notes.last());
    }
}

/// The result of `sort_by_start` is in ascending order of start time.
pub proof fn lemma_sort_ordered(notes: Seq<Note>)
    ensures
        ordered_by_start(sort_by_start(notes)),
    decreases notes.len(),
{
    if notes.len() > 0 {
        lemma_sort_ordered(notes.drop_last());
        lemma_insert_ordered(sort_by_start(notes.drop_last()), notes.last());
    }
}

/// The result of `sort_by_start` holds the same notes, each as often as before.
pub proof fn lemma_sort_permutes(notes: Seq<Note>)
    ensures
        sort_by_start(notes).to_multiset() == notes.to_multiset(),
    decreases notes.len(),
{
    broadcast use vstd::seq_lib::to_multiset_build;

    if notes.len() > 0 {
        lemma_sort_permutes(notes.drop_last());
        lemma_insert_permutes(sort_by_start(notes.drop_last()), notes.last());
        assert(notes.drop_last().push(notes.last()) =~= notes);
    }
}

/// `sort_by_start` is stable: the notes that start at one tick come out in
/// the order in which they went in.
pub proof fn lemma_sort_stable(notes: Seq<Note>, t: i64)
    ensures
        sort_by_start(notes).filter(starts_at(t)) == notes.filter(starts_at(t)),
    decreases notes.len(),
{
    broadcast use Seq::lemma_filter_push;

    if notes.len() > 0 {
        lemma_sort_stable(notes.drop_last(), t);
        lemma_insert_stable(sort_by_start(notes.drop_last()), notes.last(), t);
        assert(notes.drop_last().push(notes.last()) =~= notes);
    }
}

/// Whether `a` and `b` hold, for every tick, the same notes that start at
/// that tick, in the same order.
pub open spec fn same_notes_at_each_start(a: Seq<Note>, b: Seq<Note>) -> bool {
    forall|t: i64| #[trigger] a.filter(starts_at(t)) == b.filter(starts_at(t))
}

/// Two lists in ascending order of start time that hold, for every tick, the
/// same notes in the same order are one and the same list.
pub proof fn lemma_ordered_unique(a: Seq<Note>, b: Seq<Note>)
    requires
        ordered_by_start(a),
        ordered_by_start(b),
        same_notes_at_each_start(a, b),
    ensures
        a == b,
    decreases a.len(),
{
    broadcast use {
        Seq::lemma_filter_push,
        Seq::lemma_filter_contains,
        Seq::lemma_filter_contains_rev,
        Seq::lemma_filter_len,
    };

    if a.len() == 0 {
        if b.len() > 0 {
            let u = b[0].start;
            assert(b.filter(starts_at(u)).contains(b[0]));
            assert(a.filter(starts_at(u)) == b.filter(starts_at(u)));
        }
        assert(a =~= b);
    } else {
        let x = a.last();
        let t = x.start;
        assert(a.drop_last().push(x) =~= a);
        assert(a.filter(starts_at(t)) == a.drop_last().filter(starts_at(t)).push(x));
        assert(a.filter(starts_at(t)) == b.filter(starts_at(t)));
        assert(b.len() > 0);
        let y = b.last();
        let u = y.start;
        assert(b.drop_last().push(y) =~= b);
        assert(b.filter(starts_at(u)) == b.drop_last().filter(starts_at(u)).push(y));
        assert(a.filter(starts_at(u)) == b.filter(starts_at(u)));
        assert(u <= t) by {
            assert(a.filter(starts_at(u)).contains(y)) by {
                assert(b.filter(starts_at(u)).last() == y);
            }
            assert(a.contains(y));
            let k = choose|k: int| 0 <= k < a.len() && a[k] == y;
            assert(a[k].start <= a[a.len() - 1].start);
        }
        assert(t <= u) by {
            assert(b.filter(starts_at(t)).contains(x)) by {
                assert(a.filter(starts_at(t)).last() == x);
            }
            assert(b.contains(x));
            let k = choose|k: int| 0 <= k < b.len() && b[k] == x;
            assert(b[k].start <= b[b.len() - 1].start);
        }
        let fa = a.drop_last().filter(starts_at(t));
        let fb = b.drop_last().filter(starts_at(t));
        assert(fa.push(x) == fb.push(y));
        assert(x == y) by {
            assert(fa.push(x).last() == x);
            assert(fb.push(y).last() == y);
        }
        assert(fa == fb) by {
            assert(fa.push(x).drop_last() =~= fa);
            assert(fb.push(y).drop_last() =~= fb);
        }
        assert forall|v: i64| #[trigger]
            a.drop_last().filter(starts_at(v)) == b.drop_last().filter(starts_at(v)) by {
            if v != t {
                assert(a.filter(starts_at(v)) == b.filter(starts_at(v)));
            }
        }
        lemma_drop_last_ordered(a);
        lemma_drop_last_ordered(b);
        lemma_ordered_unique(a.drop_last(), b.drop_last());
    }
}

/// What `sort_by_start` is: the one list in ascending order of start time
/// that holds, for every tick, the notes of `notes` that start at that tick,
/// in the order in which `notes` holds them.
pub proof fn lemma_sort_characterised(notes: Seq<Note>, result: Seq<Note>)
    requires
        ordered_by_start(result),
        same_notes_at_each_start(result, notes),
    ensures
        result == sort_by_start(notes),
{
    lemma_sort_ordered(notes);
    assert forall|t: i64| #[trigger]
        result.filter(starts_at(t)) == sort_by_start(notes).filter(starts_at(t)) by {
        lemma_sort_stable(notes, t);
        assert(result.filter(starts_at(t)) == notes.filter(starts_at(t)));
    }
    lemma_ordered_unique(result, sort_by_start(notes));
}

/// Notes that are in order already are left as they are.
pub proof fn lemma_sort_of_ordered(notes: Seq<Note>)
    requires
        ordered_by_start(notes),
    ensures
        sort_by_start(notes) == notes,
    decreases notes.len(),
{
    if notes.len() > 0 {
        let shorter = notes.drop_last();
        lemma_sort_of_ordered(shorter);
        if shorter.len() > 0 {
            assert(shorter.last() == notes[notes.len() - 2]);
        }
        assert(shorter.push(notes.last()) =~= notes);
    }
}

/// Two lists merged into one from their ends: the later of the two last
/// notes comes last, and of two last notes that start together the one of `b`.
pub open spec fn merged(a: Seq<Note>, b: Seq<Note>) -> Seq<Note>
    decreases a.len() + b.len(),
{
    if a.len() == 0 {
        b
    } else if b.len() == 0 {
        a
    } else if a.last().start <= b.last().start {
        merged(a, b.drop_last()).push(b.last())
    } else {
        merged(a.drop_last(), b).push(a.last())
    }
}

/// No note of a merged list starts later than the notes that went in.
proof fn lemma_merged_bound(a: Seq<Note>, b: Seq<Note>, bound: int)
    requires
        forall|i: int| 0 <= i < a.len() ==> a[i].start <= bound,
        forall|j: int| 0 <= j < b.len() ==> b[j].start <= bound,
    ensures
        forall|k: int| 0 <= k < merged(a, b).len() ==> merged(a, b)[k].start <= bound,
    decreases a.len() + b.len(),
{
    if a.len() > 0 && b.len() > 0 {
        if a.last().start <= b.last().start {
            lemma_merged_bound(a, b.drop_last(), bound);
        } else {
            lemma_merged_bound(a.drop_last(), b, bound);
        }
    }
}

/// Merging two lists in order gives a list in order.
pub proof fn lemma_merged_ordered(a: Seq<Note>, b: Seq<Note>)
    requires
        ordered_by_start(a),
        ordered_by_start(b),
    ensures
        ordered_by_start(merged(a, b)),
    decreases a.len() + b.len(),
{
    if a.len() > 0 && b.len() > 0 {
        lemma_drop_last_ordered(a);
        lemma_drop_last_ordered(b);
        if a.last().start <= b.last().start {
            lemma_merged_ordered(a, b.drop_last());
            lemma_merged_bound(a, b.drop_last(), b.last().start as int);
        } else {
            lemma_merged_ordered(a.drop_last(), b);
            lemma_merged_bound(a.drop_last(), b, a.last().start as int);
        }
    }
}

/// Among the notes that start at one tick, a merged list holds those of `a`
/// in their order, then those of `b` in theirs.
pub proof fn lemma_merged_stable(a: Seq<Note>, b: Seq<Note>, t: i64)
    requires
        ordered_by_start(a),
        ordered_by_start(b),
    ensures
        merged(a, b).filter(starts_at(t)) == a.filter(starts_at(t)) + b.filter(starts_at(t)),
    decreases a.len() + b.len(),
{
    broadcast use {
        Seq::lemma_filter_push,
        Seq::lemma_filter_pred,
        Seq::lemma_filter_contains_rev,
        Seq::lemma_filter_len,
    };

    let fa = a.filter(starts_at(t));
    let fb = b.filter(starts_at(t));
    if a.len() == 0 {
        assert(fa + fb =~= fb);
    } else if b.len() == 0 {
        assert(fa + fb =~= fa);
    } else {
        lemma_drop_last_ordered(a);
        lemma_drop_last_ordered(b);
        assert(a.drop_last().push(a.last()) =~= a);
        assert(b.drop_last().push(b.last()) =~= b);
        if a.last().start <= b.last().start {
            lemma_merged_stable(a, b.drop_last(), t);
            let fc = b.drop_last().filter(starts_at(t));
            assert((fa + fc).push(b.last()) =~= fa + fc.push(b.last()));
        } else {
            lemma_merged_stable(a.drop_last(), b, t);
            let fc = a.drop_last().filter(starts_at(t));
            if a.last().start == t {
                if fb.len() > 0 {
                    assert(starts_at(t)(fb[0]));
                    assert(fb.contains(fb[0]));
                    assert(b.contains(fb[0]));
                    let k = choose|k: int| 0 <= k < b.len() && b[k] == fb[0];
                    assert(b[k].start <= b.last().start);
                }
                assert((fc + fb).push(a.last()) =~= fc.push(a.last()) + fb);
            }
        }
    }
}

/// Merging the ordered halves of a list orders the list.
pub proof fn lemma_merge_sorts(left: Seq<Note>, right: Seq<Note>)
    ensures
        merged(sort_by_start(left), sort_by_start(right)) == sort_by_start(left + right),
{
    broadcast use Seq::filter_distributes_over_add;

    let result = merged(sort_by_start(left), sort_by_start(right));
    lemma_sort_ordered(left);
    lemma_sort_ordered(right);
    lemma_merged_ordered(sort_by_start(left), sort_by_start(right));
    assert forall|t: i64| #[trigger]
        result.filter(starts_at(t)) == (left + right).filter(starts_at(t)) by {
        lemma_merged_stable(sort_by_start(left), sort_by_start(right), t);
        lemma_sort_stable(left, t);
        lemma_sort_stable(right, t);
    }
    lemma_sort_characterised(left + right, result);
}

/// Whether the notes are in ascending order of start time already.
pub fn is_ordered(notes: &Vec<Note>) -> (ordered: bool)
    ensures
        ordered == ordered_by_start(notes@),
{
    let mut i: usize = 1;
    while i < notes.len()
        invariant
            1 <= i,
            forall|k: int|
                0 < k < i && k < notes.len() ==> notes[k - 1].start <= (#[trigger] notes[k]).start,
        decreases notes.len() - i,
    {
        if notes[i - 1].start > notes[i].start {
            return false;
        }
        i += 1;
    }
    proof {
        lemma_steps_ordered(notes@);
    }
    true
}

/// A list in which no note starts before the note in front of it is in
/// ascending order of start time.
proof fn lemma_steps_ordered(notes: Seq<Note>)
    requires
        forall|k: int| 0 < k < notes.len() ==> notes[k - 1].start <= (#[trigger] notes[k]).start,
    ensures
        ordered_by_start(notes),
    decreases notes.len(),
{
    if notes.len() > 1 {
        let shorter = notes.drop_last();
        assert forall|k: int| 0 < k < shorter.len() implies shorter[k - 1].start <= (
        #[trigger] shorter[k]).start by {
            assert(notes[k - 1].start <= notes[k].start);
        }
        lemma_steps_ordered(shorter);
        assert forall|i: int, j: int| 0 <= i <= j < notes.len() implies notes[i].start
            <= notes[j].start by {
            if j == notes.len() - 1 && i < j {
                assert(shorter[i].start <= shorter[j - 1].start);
                assert(notes[j - 1].start <= notes[j].start);
            } else if i < j {
                assert(shorter[i].start <= shorter[j].start);
            }
        }
    }
}

/// Merges two lists in order into one list in order; of notes that start
/// together those of `left` come first.
pub fn merge_runs(left: &Vec<Note>, right: &Vec<Note>) -> (out: Vec<Note>)
    requires
        ordered_by_start(left@),
        ordered_by_start(right@),
    ensures
        out@ == merged(left@, right@),
{
    let mut out: Vec<Note> = Vec::new();
    let mut i: usize = 0;
    let mut j: usize = 0;
    while i < left.len() || j < right.len()
        invariant
            i <= left.len(),
            j <= right.len(),
            ordered_by_start(left@),
            ordered_by_start(right@),
            out@ == merged(left@.take(i as int), right@.take(j as int)),
            i > 0 && j < right.len() ==> left[i - 1].start <= right[j as int].start,
            j > 0 && i < left.len() ==> right[j - 1].start < left[i as int].start,
        decreases left.len() - i + right.len() - j,
    {
        if j < right.len() && (i == left.len() || right[j].start < left[i].start) {
            proof {
                assert(right@.take(j + 1).drop_last() =~= right@.take(j as int));
                if i == 0 {
                    assert(right@.take(j as int).push(right[j as int]) =~= right@.take(j + 1));
                    if j > 0 {
                        assert(right@.take(j as int).len() > 0);
                    }
                }
                if j + 1 < right.len() {
                    assert(right[j as int].start <= right[j + 1].start);
                }
            }
            out.push(right[j]);
            j += 1;
        } else {
            proof {
                assert(left@.take(i + 1).drop_last() =~= left@.take(i as int));
                if j == 0 {
                    assert(left@.take(i as int).push(left[i as int]) =~= left@.take(i + 1));
                }
                if i + 1 < left.len() {
                    assert(left[i as int].start <= left[i + 1].start);
                }
            }
            out.push(left[i]);
            i += 1;
        }
    }
    assert(left@.take(left.len() as int) =~= left@);
    assert(right@.take(right.len() as int) =~= right@);
    out
}

/// The notes from index `lo` up to index `hi`, in ascending order of start
/// time.
fn sorted_range(notes: &Vec<Note>, lo: usize, hi: usize) -> (out: Vec<Note>)
    requires
        lo <= hi <= notes.len(),
    ensures
        out@ == sort_by_start(notes@.subrange(lo as int, hi as int)),
    decreases hi - lo,
{
    let ghost range = notes@.subrange(lo as int, hi as int);
    if hi - lo < 2 {
        let mut out: Vec<Note> = Vec::new();
        if lo < hi {
            out.push(notes[lo]);
            proof {
                assert(range.drop_last().len() == 0);
                assert(sort_by_start(range.drop_last()).len() == 0);
                assert(out@ =~= sort_by_start(range));
            }
        }
        out
    } else {
        let mid: usize = lo + (hi - lo) / 2;
        let left: Vec<Note> = sorted_range(notes, lo, mid);
        let right: Vec<Note> = sorted_range(notes, mid, hi);
        proof {
            let first = notes@.subrange(lo as int, mid as int);
            let second = notes@.subrange(mid as int, hi as int);
            assert(first + second =~= range);
            lemma_sort_ordered(first);
            lemma_sort_ordered(second);
            lemma_merge_sorts(first, second);
        }
        merge_runs(&left, &right)
    }
}

/// Puts the notes in ascending order of start time, keeping notes of equal
/// start in their given order. Notes that are in order already are left in
/// place; otherwise the halves are ordered and merged.
pub fn sort_notes(notes: &mut Vec<Note>)
    ensures
        final(notes)@ == sort_by_start(old(notes)@),
{
    if is_ordered(notes) {
        proof {
            lemma_sort_of_ordered(notes@);
        }
    } else {
        let sorted: Vec<Note> = sorted_range(notes, 0, notes.len());
        assert(notes@.subrange(0, notes.len() as int) =~= notes@);
        *notes = sorted;
    }
}

} // verus!
