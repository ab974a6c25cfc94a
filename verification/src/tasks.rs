//! Task records, the canonical ordering, and the projection to display rows.
//!
//! The canonical ordering is the single ordering used both for listing and
//! for resolving position-addressed operations: tasks with a due date come
//! first, chronologically ascending; tasks without one (or whose stored due
//! text is not canonical) come after them; ties are broken by the stable
//! surrogate id, so the order is fully determined.

use crate::dates::day_of;
use crate::dates::hour_of;
use crate::dates::is_canonical_date;
use crate::dates::is_canonical_datetime;
use crate::dates::is_canonical_due;
use crate::dates::minute_of;
use crate::dates::month_of;
use crate::dates::spec_days_in_month;
use crate::dates::spec_digit_val;
use crate::dates::spec_is_digit;
use crate::dates::spec_is_leap_year;
use crate::dates::year_of;
use vstd::prelude::*;

verus! {

/// A stored row: the surrogate id, the text, the completion flag, and the
/// due text, if any — canonical whenever this library wrote it.
#[derive(Debug)]
pub struct TaskRec {
    pub id: i64,
    pub description: String,
    pub done: bool,
    pub due: Option<String>,
}

/// A display-ready record: the 1-based position in the canonical ordering
/// and the visible fields of the row at that position.
#[derive(Debug)]
pub struct Task {
    pub idx: i32,
    pub task: String,
    pub done: bool,
    pub due: Option<String>,
}

// ---------------------------------------------------------------------------
// The chronological key
// ---------------------------------------------------------------------------

/// The key given to every task without a (canonical) due date; larger than
/// the key of any dated task, so undated tasks sort after all dated ones.
pub const UNDATED_KEY: u64 = 10_000_000_000;

/// A mixed-radix timestamp: strictly monotone in (year, month, day, hour,
/// minute) lexicographic order, so comparing stamps is comparing moments.
pub open spec fn spec_stamp(y: int, m: int, d: int, h: int, mi: int) -> int {
    (((y * 13 + m) * 32 + d) * 24 + h) * 60 + mi
}

/// The key of one stored due string: its moment if the text is canonical, a
/// bare date counting as midnight; `UNDATED_KEY` otherwise.
pub open spec fn spec_due_seq_key(s: Seq<char>) -> int {
    if is_canonical_datetime(s) {
        spec_stamp(year_of(s), month_of(s), day_of(s), hour_of(s), minute_of(s))
    } else if is_canonical_date(s) {
        spec_stamp(year_of(s), month_of(s), day_of(s), 0, 0)
    } else {
        UNDATED_KEY as int
    }
}

pub open spec fn spec_due_key(due: Option<String>) -> int {
    match due {
        Some(s) => spec_due_seq_key(s@),
        None => UNDATED_KEY as int,
    }
}

pub open spec fn spec_rec_key(r: TaskRec) -> int {
    spec_due_key(r.due)
}

/// The canonical ordering relation: by key, then by surrogate id.
pub open spec fn rec_le(a: TaskRec, b: TaskRec) -> bool {
    spec_rec_key(a) < spec_rec_key(b) || (spec_rec_key(a) == spec_rec_key(b) && a.id <= b.id)
}

/// Every key is at most `UNDATED_KEY`, and dated keys are below it.
pub proof fn lemma_key_range(s: Seq<char>)
    ensures
        0 <= spec_due_seq_key(s) <= UNDATED_KEY as int,
        is_canonical_due(s) ==> spec_due_seq_key(s) < UNDATED_KEY as int,
{
}

/// The stamp respects time: of two moments with fields in range, the
/// earlier one — by year, then month, day, hour, minute — has the smaller
/// stamp. Comparing keys is comparing moments.
pub proof fn lemma_stamp_orders_moments(
    y1: int,
    m1: int,
    d1: int,
    h1: int,
    mi1: int,
    y2: int,
    m2: int,
    d2: int,
    h2: int,
    mi2: int,
)
    by (nonlinear_arith)
    requires
        0 <= y1 && 1 <= m1 <= 12 && 1 <= d1 <= 31 && 0 <= h1 <= 23 && 0 <= mi1 <= 59,
        0 <= y2 && 1 <= m2 <= 12 && 1 <= d2 <= 31 && 0 <= h2 <= 23 && 0 <= mi2 <= 59,
        y1 < y2 || (y1 == y2 && (m1 < m2 || (m1 == m2 && (d1 < d2 || (d1 == d2 && (h1 < h2 || (h1
            == h2 && mi1 < mi2))))))),
    ensures
        spec_stamp(y1, m1, d1, h1, mi1) < spec_stamp(y2, m2, d2, h2, mi2),
{
}

// ---------------------------------------------------------------------------
// Reading a stored due string back into fields
// ---------------------------------------------------------------------------

fn is_leap_year(y: u32) -> (b: bool)
    ensures
        b == spec_is_leap_year(y as int),
{
    y % 4 == 0 && (y % 100 != 0 || y % 400 == 0)
}

fn days_in_month(y: u32, m: u32) -> (n: u32)
    ensures
        n == spec_days_in_month(y as int, m as int),
{
    if m == 2 {
        if is_leap_year(y) {
            29
        } else {
            28
        }
    } else if m == 4 || m == 6 || m == 9 || m == 11 {
        30
    } else {
        31
    }
}

/// The digit value at one position of the string, if it is a digit.
fn read_digit(s: &str, i: usize) -> (r: Option<u8>)
    requires
        i < s@.len(),
    ensures
        r matches Some(v) ==> spec_is_digit(s@[i as int]) && v == spec_digit_val(s@[i as int]),
        r is None ==> !spec_is_digit(s@[i as int]),
{
    let c = s.get_char(i);
    match c {
        '0' => Some(0),
        '1' => Some(1),
        '2' => Some(2),
        '3' => Some(3),
        '4' => Some(4),
        '5' => Some(5),
        '6' => Some(6),
        '7' => Some(7),
        '8' => Some(8),
        '9' => Some(9),
        _ => None,
    }
}

/// Read a string as one of the two canonical forms. For a bare date the
/// hour and minute come back as zero, which is how its moment is compared.
fn canon_fields(s: &str) -> (r: Option<(u32, u32, u32, u32, u32)>)
    ensures
        r is Some <==> is_canonical_due(s@),
        r matches Some(f) ==> {
            &&& f.0 == year_of(s@)
            &&& f.1 == month_of(s@)
            &&& f.2 == day_of(s@)
            &&& (if is_canonical_datetime(s@) {
                f.3 == hour_of(s@) && f.4 == minute_of(s@)
            } else {
                f.3 == 0 && f.4 == 0
            })
        },
{
    let n = s.unicode_len();
    if n != 10 && n != 16 {
        return None;
    }
    let d0 = match read_digit(s, 0) {
        Some(v) => v,
        None => { return None; },
    };
    let d1 = match read_digit(s, 1) {
        Some(v) => v,
        None => { return None; },
    };
    let d2 = match read_digit(s, 2) {
        Some(v) => v,
        None => { return None; },
    };
    let d3 = match read_digit(s, 3) {
        Some(v) => v,
        None => { return None; },
    };
    if s.get_char(4) != '-' {
        return None;
    }
    let m0 = match read_digit(s, 5) {
        Some(v) => v,
        None => { return None; },
    };
    let m1 = match read_digit(s, 6) {
        Some(v) => v,
        None => { return None; },
    };
    if s.get_char(7) != '-' {
        return None;
    }
    let a0 = match read_digit(s, 8) {
        Some(v) => v,
        None => { return None; },
    };
    let a1 = match read_digit(s, 9) {
        Some(v) => v,
        None => { return None; },
    };
    let y: u32 = d0 as u32 * 1000 + d1 as u32 * 100 + d2 as u32 * 10 + d3 as u32;
    let mo: u32 = m0 as u32 * 10 + m1 as u32;
    let dd: u32 = a0 as u32 * 10 + a1 as u32;
    if mo < 1 || mo > 12 {
        return None;
    }
    if dd < 1 || dd > days_in_month(y, mo) {
        return None;
    }
    if n == 10 {
        return Some((y, mo, dd, 0, 0));
    }
    if s.get_char(10) != ' ' {
        return None;
    }
    let h0 = match read_digit(s, 11) {
        Some(v) => v,
        None => { return None; },
    };
    let h1 = match read_digit(s, 12) {
        Some(v) => v,
        None => { return None; },
    };
    if s.get_char(13) != ':' {
        return None;
    }
    let i0 = match read_digit(s, 14) {
        Some(v) => v,
        None => { return None; },
    };
    let i1 = match read_digit(s, 15) {
        Some(v) => v,
        None => { return None; },
    };
    let h: u32 = h0 as u32 * 10 + h1 as u32;
    let mi: u32 = i0 as u32 * 10 + i1 as u32;
    if h > 23 || mi > 59 {
        return None;
    }
    Some((y, mo, dd, h, mi))
}

/// The key of one stored due field, as compared at run time.
fn due_key(due: &Option<String>) -> (k: u64)
    ensures
        k as int == spec_due_key(*due),
{
    match due {
        None => UNDATED_KEY,
        Some(s) => {
            match canon_fields(s.as_str()) {
                Some(f) => {
                    let (y, mo, dd, h, mi) = f;
                    ((((y as u64 * 13 + mo as u64) * 32 + dd as u64) * 24 + h as u64) * 60
                        + mi as u64)
                },
                None => UNDATED_KEY,
            }
        },
    }
}

/// The canonical ordering, as compared at run time.
fn rec_le_exec(a: &TaskRec, b: &TaskRec) -> (r: bool)
    ensures
        r == rec_le(*a, *b),
{
    let ka = due_key(&a.due);
    let kb = due_key(&b.due);
    ka < kb || (ka == kb && a.id <= b.id)
}

// ---------------------------------------------------------------------------
// The canonical ordering of a whole table
// ---------------------------------------------------------------------------

/// Non-decreasing in the canonical ordering relation.
pub open spec fn sorted_le(s: Seq<TaskRec>) -> bool {
    forall|i: int, j: int| 0 <= i < j < s.len() ==> rec_le(s[i], s[j])
}

/// Insert one row at its place in an ordered sequence.
pub open spec fn insert_ord(x: TaskRec, s: Seq<TaskRec>) -> Seq<TaskRec>
    decreases s.len(),
{
    if s.len() == 0 {
        seq![x]
    } else if rec_le(x, s[0]) {
        seq![x] + s
    } else {
        seq![s[0]] + insert_ord(x, s.drop_first())
    }
}

/// The canonical ordering of a table of rows: dated rows first in
/// chronological order, undated rows after them, ties broken by id.
pub open spec fn sort_spec(s: Seq<TaskRec>) -> Seq<TaskRec>
    decreases s.len(),
{
    if s.len() == 0 {
        Seq::empty()
    } else {
        insert_ord(s.last(), sort_spec(s.drop_last()))
    }
}

proof fn lemma_insert_ord_props(x: TaskRec, s: Seq<TaskRec>)
    requires
        sorted_le(s),
    ensures
        insert_ord(x, s).len() == s.len() + 1,
        insert_ord(x, s).to_multiset() == s.to_multiset().insert(x),
        sorted_le(insert_ord(x, s)),
        forall|e: TaskRec| #[trigger] insert_ord(x, s).contains(e) ==> e == x || s.contains(e),
    decreases s.len(),
{
    broadcast use vstd::seq_lib::group_to_multiset_ensures;

    let out = insert_ord(x, s);
    assert forall|e: TaskRec| #[trigger] out.contains(e) implies e == x || s.contains(e) by {
        let i = choose|i: int| 0 <= i < out.len() && out[i] == e;
        if s.len() == 0 {
            assert(e == x);
        } else if rec_le(x, s[0]) {
            if i > 0 {
                assert(out[i] == s[i - 1]);
                assert(s.contains(s[i - 1]));
            }
        } else {
            if i == 0 {
                assert(s.contains(s[0]));
            } else {
                let inner = insert_ord(x, s.drop_first());
                assert(out[i] == inner[i - 1]);
                assert(inner.contains(inner[i - 1]));
                assert(sorted_le(s.drop_first())) by {
                    assert forall|p: int, q: int|
                        0 <= p < q < s.drop_first().len() implies rec_le(
                        s.drop_first()[p],
                        s.drop_first()[q],
                    ) by {
                        assert(s.drop_first()[p] == s[p + 1]);
                        assert(s.drop_first()[q] == s[q + 1]);
                    }
                }
                lemma_insert_ord_props(x, s.drop_first());
                if e != x {
                    assert(s.drop_first().contains(e));
                    let k = choose|k: int|
                        0 <= k < s.drop_first().len() && s.drop_first()[k] == e;
                    assert(s.drop_first()[k] == s[k + 1]);
                    assert(s.contains(s[k + 1]));
                }
            }
        }
    }
    if s.len() == 0 {
        assert(out =~= Seq::empty().push(x));
        assert(out.to_multiset() =~= s.to_multiset().insert(x));
    } else if rec_le(x, s[0]) {
        assert(out =~= seq![x] + s);
        vstd::seq_lib::lemma_multiset_commutative(seq![x], s);
        assert(seq![x] =~= Seq::empty().push(x));
        assert(out.to_multiset() =~= s.to_multiset().insert(x));
        assert forall|i: int, j: int| 0 <= i < j < out.len() implies rec_le(out[i], out[j]) by {
            if i == 0 {
                assert(out[j] == s[j - 1]);
                if j > 1 {
                    assert(rec_le(s[0], s[j - 1]));
                }
            }
        }
    } else {
        let rest = s.drop_first();
        assert(sorted_le(rest)) by {
            assert forall|i: int, j: int| 0 <= i < j < rest.len() implies rec_le(
                rest[i],
                rest[j],
            ) by {
                assert(rest[i] == s[i + 1]);
                assert(rest[j] == s[j + 1]);
            }
        }
        lemma_insert_ord_props(x, rest);
        let inner = insert_ord(x, rest);
        assert(out =~= seq![s[0]] + inner);
        vstd::seq_lib::lemma_multiset_commutative(seq![s[0]], inner);
        vstd::seq_lib::lemma_multiset_commutative(seq![s[0]], rest);
        assert(s =~= seq![s[0]] + rest);
        assert(seq![s[0]] =~= Seq::empty().push(s[0]));
        assert(out.to_multiset() =~= s.to_multiset().insert(x));
        assert forall|i: int, j: int| 0 <= i < j < out.len() implies rec_le(out[i], out[j]) by {
            if i == 0 {
                let e = out[j];
                assert(e == inner[j - 1]);
                assert(inner.contains(e));
                if e == x {
                    assert(rec_le(s[0], x));
                } else {
                    assert(rest.contains(e));
                    let k = choose|k: int| 0 <= k < rest.len() && rest[k] == e;
                    assert(rest[k] == s[k + 1]);
                    assert(rec_le(s[0], s[k + 1]));
                }
            } else {
                assert(out[i] == inner[i - 1]);
                assert(out[j] == inner[j - 1]);
            }
        }
    }
}

/// LAW (canonical ordering): ordering a table neither adds nor drops rows —
/// the result is a permutation of the same length — and it is sorted by the
/// canonical relation: every dated row stands before every undated row, and
/// dated rows stand in chronological order.
pub proof fn lemma_sort_spec_props(s: Seq<TaskRec>)
    ensures
        sort_spec(s).len() == s.len(),
        sort_spec(s).to_multiset() == s.to_multiset(),
        sorted_le(sort_spec(s)),
    decreases s.len(),
{
    broadcast use vstd::seq_lib::group_to_multiset_ensures;

    if s.len() == 0 {
        assert(sort_spec(s).to_multiset() =~= s.to_multiset());
    } else {
        let rest = s.drop_last();
        lemma_sort_spec_props(rest);
        lemma_insert_ord_props(s.last(), sort_spec(rest));
        assert(s =~= rest.push(s.last()));
        assert(s.to_multiset() == rest.to_multiset().insert(s.last()));
    }
}

proof fn lemma_sort_spec_push(s: Seq<TaskRec>, x: TaskRec)
    ensures
        sort_spec(s.push(x)) == insert_ord(x, sort_spec(s)),
{
    assert(s.push(x).len() == s.len() + 1);
    assert(s.push(x).drop_last() =~= s);
    assert(s.push(x).last() == x);
}

/// Inserting at the first position whose row is not below `x` is what
/// `insert_ord` does.
proof fn lemma_insert_ord_at(x: TaskRec, s: Seq<TaskRec>, j: int)
    requires
        sorted_le(s),
        0 <= j <= s.len(),
        forall|k: int| 0 <= k < j ==> !rec_le(x, #[trigger] s[k]),
        j < s.len() ==> rec_le(x, s[j]),
    ensures
        insert_ord(x, s) == s.subrange(0, j) + seq![x] + s.subrange(j, s.len() as int),
    decreases s.len(),
{
    if s.len() == 0 {
        assert(insert_ord(x, s) =~= s.subrange(0, 0) + seq![x] + s.subrange(0, 0));
    } else if j == 0 {
        assert(rec_le(x, s[0]));
        assert(insert_ord(x, s) =~= s.subrange(0, 0) + seq![x] + s.subrange(0, s.len() as int));
    } else {
        assert(!rec_le(x, s[0]));
        let rest = s.drop_first();
        assert(sorted_le(rest)) by {
            assert forall|p: int, q: int| 0 <= p < q < rest.len() implies rec_le(
                rest[p],
                rest[q],
            ) by {
                assert(rest[p] == s[p + 1]);
                assert(rest[q] == s[q + 1]);
            }
        }
        assert(forall|k: int| 0 <= k < j - 1 ==> !rec_le(x, #[trigger] rest[k])) by {
            assert forall|k: int| 0 <= k < j - 1 implies !rec_le(x, #[trigger] rest[k]) by {
                assert(rest[k] == s[k + 1]);
            }
        }
        assert(j - 1 < rest.len() ==> rec_le(x, rest[j - 1]));
        lemma_insert_ord_at(x, rest, j - 1);
        assert(insert_ord(x, s) =~= s.subrange(0, j) + seq![x] + s.subrange(j, s.len() as int));
    }
}

proof fn lemma_filter_singleton(e: TaskRec, p: spec_fn(TaskRec) -> bool)
    ensures
        seq![e].filter(p) == (if p(e) {
            seq![e]
        } else {
            Seq::<TaskRec>::empty()
        }),
{
    reveal_with_fuel(Seq::<_>::filter, 2);
    assert(seq![e].drop_last() =~= Seq::<TaskRec>::empty());
    assert(seq![e].last() == e);
    assert(seq![e].filter(p) =~= if p(e) {
        seq![e]
    } else {
        Seq::<TaskRec>::empty()
    });
}

proof fn lemma_insert_ord_filter(x: TaskRec, s: Seq<TaskRec>, p: spec_fn(TaskRec) -> bool)
    requires
        sorted_le(s),
    ensures
        insert_ord(x, s).filter(p) == (if p(x) {
            insert_ord(x, s.filter(p))
        } else {
            s.filter(p)
        }),
    decreases s.len(),
{
    broadcast use vstd::seq_lib::group_filter_ensures;
    broadcast use Seq::filter_distributes_over_add;
    broadcast use Seq::lemma_filter_contains_rev;

    reveal(Seq::filter);
    let single = seq![x];
    lemma_filter_singleton(x, p);
    if s.len() == 0 {
        assert(s.filter(p) =~= Seq::<TaskRec>::empty());
        assert(insert_ord(x, s) =~= single);
        if p(x) {
            assert(insert_ord(x, s.filter(p)) =~= single);
        }
    } else if rec_le(x, s[0]) {
        assert(insert_ord(x, s) == single + s);
        assert((single + s).filter(p) == single.filter(p) + s.filter(p));
        if p(x) {
            let fs = s.filter(p);
            if fs.len() == 0 {
                assert(insert_ord(x, fs) =~= single + fs);
            } else {
                assert(fs.contains(fs[0]));
                assert(s.contains(fs[0]));
                let k = choose|k: int| 0 <= k < s.len() && s[k] == fs[0];
                if k > 0 {
                    assert(rec_le(s[0], s[k]));
                }
                assert(rec_le(x, fs[0]));
                assert(insert_ord(x, fs) == single + fs);
            }
            assert(insert_ord(x, s).filter(p) =~= insert_ord(x, s.filter(p)));
        } else {
            assert(insert_ord(x, s).filter(p) =~= s.filter(p));
        }
    } else {
        let first = seq![s[0]];
        let rest = s.drop_first();
        assert(sorted_le(rest)) by {
            assert forall|a: int, b: int| 0 <= a < b < rest.len() implies rec_le(
                rest[a],
                rest[b],
            ) by {
                assert(rest[a] == s[a + 1]);
                assert(rest[b] == s[b + 1]);
            }
        }
        lemma_insert_ord_filter(x, rest, p);
        assert(insert_ord(x, s) == first + insert_ord(x, rest));
        lemma_filter_singleton(s[0], p);
        assert(s =~= first + rest);
        assert(s.filter(p) == first.filter(p) + rest.filter(p));
        if p(x) {
            if p(s[0]) {
                let target = first + rest.filter(p);
                assert(s.filter(p) =~= target);
                assert(target.len() > 0 && target[0] == s[0]);
                assert(!rec_le(x, target[0]));
                assert(target.drop_first() =~= rest.filter(p));
                assert(insert_ord(x, target) == first + insert_ord(x, rest.filter(p)));
                assert(insert_ord(x, s).filter(p) =~= insert_ord(x, s.filter(p)));
            } else {
                assert(s.filter(p) =~= rest.filter(p));
                assert(insert_ord(x, s).filter(p) =~= insert_ord(x, s.filter(p)));
            }
        } else {
            assert(insert_ord(x, s).filter(p) =~= s.filter(p));
        }
    }
}

proof fn lemma_sort_filter(s: Seq<TaskRec>, p: spec_fn(TaskRec) -> bool)
    ensures
        sort_spec(s).filter(p) == sort_spec(s.filter(p)),
    decreases s.len(),
{
    reveal(Seq::filter);
    if s.len() == 0 {
        assert(s.filter(p) =~= s);
    } else {
        let x = s.last();
        let rest = s.drop_last();
        lemma_sort_filter(rest, p);
        lemma_sort_spec_props(rest);
        lemma_insert_ord_filter(x, sort_spec(rest), p);
        if p(x) {
            assert(s.filter(p) == rest.filter(p).push(x));
            lemma_sort_spec_push(rest.filter(p), x);
        } else {
            assert(s.filter(p) == rest.filter(p));
        }
    }
}

// ---------------------------------------------------------------------------
// Ordering and projecting at run time
// ---------------------------------------------------------------------------

/// The first position of the ordered prefix `v[0..i]` whose row is not
/// below row `i`; `i` itself if every prefix row is below it.
fn find_pos(v: &Vec<TaskRec>, i: usize) -> (j: usize)
    requires
        i < v@.len(),
    ensures
        j <= i,
        forall|k: int| 0 <= k < j ==> !rec_le(v@[i as int], #[trigger] v@[k]),
        j < i ==> rec_le(v@[i as int], v@[j as int]),
{
    let mut j: usize = 0;
    while j < i
        invariant
            j <= i < v@.len(),
            forall|k: int| 0 <= k < j ==> !rec_le(v@[i as int], #[trigger] v@[k]),
        decreases i - j,
    {
        if rec_le_exec(&v[i], &v[j]) {
            return j;
        }
        j += 1;
    }
    j
}

proof fn lemma_sort_spec_singleton(s: Seq<TaskRec>)
    requires
        s.len() == 1,
    ensures
        sort_spec(s) == s,
{
    assert(s.drop_last() =~= Seq::<TaskRec>::empty());
    assert(sort_spec(Seq::<TaskRec>::empty()) == Seq::<TaskRec>::empty());
    assert(sort_spec(s) == insert_ord(s.last(), Seq::<TaskRec>::empty()));
    assert(insert_ord(s.last(), Seq::<TaskRec>::empty()) == seq![s.last()]);
    assert(s =~= seq![s.last()]);
}

/// Put a table of rows into the canonical order, in place.
pub fn order_rows(v: &mut Vec<TaskRec>)
    ensures
        final(v)@ == sort_spec(old(v)@),
{
    let ghost orig = old(v)@;
    if v.len() <= 1 {
        proof {
            if orig.len() == 1 {
                lemma_sort_spec_singleton(orig);
            }
        }
        return ;
    }
    let mut i: usize = 1;
    proof {
        let pfx = orig.subrange(0, 1);
        lemma_sort_spec_singleton(pfx);
        assert(v@.subrange(0, 1) =~= pfx);
    }
    while i < v.len()
        invariant
            1 <= i <= v@.len(),
            v@.len() == orig.len(),
            v@.subrange(i as int, v@.len() as int) == orig.subrange(i as int, orig.len() as int),
            v@.subrange(0, i as int) == sort_spec(orig.subrange(0, i as int)),
        decreases v@.len() - i,
    {
        let ghost before = v@;
        let ghost pfx = sort_spec(orig.subrange(0, i as int));
        proof {
            lemma_sort_spec_props(orig.subrange(0, i as int));
            assert(before[i as int] == orig[i as int]) by {
                assert(before.subrange(i as int, before.len() as int)[0] == before[i as int]);
                assert(orig.subrange(i as int, orig.len() as int)[0] == orig[i as int]);
            }
            assert(sorted_le(before.subrange(0, i as int)));
        }
        let j = find_pos(v, i);
        proof {
            assert forall|k: int| 0 <= k < j implies !rec_le(before[i as int], #[trigger] pfx[k])
                by {
                assert(before.subrange(0, i as int)[k] == before[k]);
            }
            if j < i {
                assert(before.subrange(0, i as int)[j as int] == before[j as int]);
            }
            lemma_insert_ord_at(before[i as int], pfx, j as int);
        }
        let x = v.remove(i);
        v.insert(j, x);
        proof {
            let x_val = before[i as int];
            let removed = before.remove(i as int);
            assert(v@ == removed.insert(j as int, x_val));
            assert(pfx =~= before.subrange(0, i as int));
            assert(v@.subrange(0, i as int + 1) =~= pfx.subrange(0, j as int) + seq![x_val]
                + pfx.subrange(j as int, i as int)) by {
                assert forall|k: int| 0 <= k < i as int + 1 implies v@.subrange(
                    0,
                    i as int + 1,
                )[k] == (pfx.subrange(0, j as int) + seq![x_val] + pfx.subrange(
                    j as int,
                    i as int,
                ))[k] by {
                    if k < j as int {
                        assert(v@[k] == removed[k]);
                        assert(removed[k] == before[k]);
                    } else if k == j as int {
                        assert(v@[k] == x_val);
                    } else {
                        assert(v@[k] == removed[k - 1]);
                        assert(removed[k - 1] == before[k - 1]);
                    }
                }
            }
            assert(v@.subrange(0, i as int + 1) == insert_ord(x_val, pfx));
            lemma_sort_spec_push(orig.subrange(0, i as int), x_val);
            assert(orig.subrange(0, i as int).push(x_val) =~= orig.subrange(0, i as int + 1));
            assert(v@.subrange(0, i as int + 1) == sort_spec(orig.subrange(0, i as int + 1)));
            assert(v@.subrange(i as int + 1, v@.len() as int) =~= orig.subrange(
                i as int + 1,
                orig.len() as int,
            )) by {
                assert forall|k: int| i as int + 1 <= k < orig.len() as int implies v@[k]
                    == orig[k] by {
                    assert(v@[k] == removed[k - 1]);
                    assert(removed[k - 1] == before[k]);
                    assert(before.subrange(i as int, before.len() as int)[k - i as int]
                        == before[k]);
                    assert(orig.subrange(i as int, orig.len() as int)[k - i as int] == orig[k]);
                }
            }
        }
        i += 1;
    }
    proof {
        assert(v@ =~= v@.subrange(0, i as int));
        assert(orig.subrange(0, i as int) =~= orig);
    }
}

/// What the projection yields: the row at each rank, with the 1-based rank
/// written into `idx`.
pub open spec fn spec_project(s: Seq<TaskRec>) -> Seq<Task> {
    Seq::new(
        s.len(),
        |i: int|
            Task { idx: (i + 1) as i32, task: s[i].description, done: s[i].done, due: s[i].due },
    )
}

fn clone_opt_string(o: &Option<String>) -> (r: Option<String>)
    ensures
        r == *o,
{
    match o {
        Some(s) => Some(s.clone()),
        None => None,
    }
}

/// Copy one stored row.
pub fn clone_rec(r: &TaskRec) -> (c: TaskRec)
    ensures
        c == *r,
{
    TaskRec {
        id: r.id,
        description: r.description.clone(),
        done: r.done,
        due: clone_opt_string(&r.due),
    }
}

/// Copy a table of rows.
pub fn clone_rows(v: &Vec<TaskRec>) -> (c: Vec<TaskRec>)
    ensures
        c@ == v@,
{
    let mut out: Vec<TaskRec> = Vec::new();
    let mut i: usize = 0;
    while i < v.len()
        invariant
            i <= v@.len(),
            out@ == v@.subrange(0, i as int),
        decreases v@.len() - i,
    {
        out.push(clone_rec(&v[i]));
        proof {
            assert(out@ =~= v@.subrange(0, i as int + 1));
        }
        i += 1;
    }
    proof {
        assert(out@ =~= v@);
    }
    out
}

/// Turn ordered rows into display records, assigning 1-based positions.
pub fn project(rows: &Vec<TaskRec>) -> (r: Vec<Task>)
    requires
        rows@.len() < 0x7fff_ffff,
    ensures
        r@ == spec_project(rows@),
{
    let mut out: Vec<Task> = Vec::new();
    let mut i: usize = 0;
    while i < rows.len()
        invariant
            i <= rows@.len() < 0x7fff_ffff,
            out@ == spec_project(rows@).subrange(0, i as int),
        decreases rows@.len() - i,
    {
        let rec = &rows[i];
        let t = Task {
            idx: (i + 1) as i32,
            task: rec.description.clone(),
            done: rec.done,
            due: clone_opt_string(&rec.due),
        };
        out.push(t);
        proof {
            assert(out@ =~= spec_project(rows@).subrange(0, i as int + 1));
        }
        i += 1;
    }
    proof {
        assert(out@ =~= spec_project(rows@));
    }
    out
}

// ---------------------------------------------------------------------------
// Laws relating the store operations through the ordering
// ---------------------------------------------------------------------------

/// LAW (add then list): appending one new row to a table changes its
/// canonical ordering by exactly that row — the ordered multiset grows by
/// the one record and the length by one; every other row is untouched.
pub proof fn lemma_order_after_add(rows: Seq<TaskRec>, rec: TaskRec)
    ensures
        sort_spec(rows.push(rec)).to_multiset() == sort_spec(rows).to_multiset().insert(rec),
        sort_spec(rows.push(rec)).len() == rows.len() + 1,
{
    lemma_sort_spec_push(rows, rec);
    lemma_sort_spec_props(rows);
    lemma_insert_ord_props(rec, sort_spec(rows));
}

/// LAW (an undated task lists last): a row without a due date whose id is
/// newer than every existing one — which is what adding an undated task
/// creates — takes the last position of the canonical ordering, and no
/// other row moves.
pub proof fn lemma_undated_add_lists_last(rows: Seq<TaskRec>, rec: TaskRec)
    requires
        rec.due is None,
        forall|i: int| 0 <= i < rows.len() ==> rows[i].id < rec.id,
    ensures
        sort_spec(rows.push(rec)) == sort_spec(rows).push(rec),
{
    broadcast use vstd::seq_lib::group_to_multiset_ensures;

    let sorted = sort_spec(rows);
    lemma_sort_spec_push(rows, rec);
    lemma_sort_spec_props(rows);
    assert forall|k: int| 0 <= k < sorted.len() implies !rec_le(rec, #[trigger] sorted[k]) by {
        let e = sorted[k];
        assert(sorted.contains(e));
        assert(sorted.to_multiset().count(e) > 0);
        assert(rows.contains(e));
        let i = choose|i: int| 0 <= i < rows.len() && rows[i] == e;
        assert(e.id < rec.id);
        assert(spec_rec_key(rec) == UNDATED_KEY as int);
        match e.due {
            Some(s) => {
                lemma_key_range(s@);
            },
            None => {},
        }
    }
    lemma_insert_ord_at(rec, sorted, sorted.len() as int);
    assert(insert_ord(rec, sorted) =~= sorted.push(rec));
}

/// One row with its completion flag raised if it carries the given id,
/// and untouched otherwise.
pub open spec fn mark_rec(r: TaskRec, id: i64) -> TaskRec {
    if r.id == id {
        TaskRec { id: r.id, description: r.description, done: true, due: r.due }
    } else {
        r
    }
}

/// The table with the completion flag raised on every row with the given
/// id, and nothing else changed.
pub open spec fn set_done_by_id(s: Seq<TaskRec>, id: i64) -> Seq<TaskRec> {
    Seq::new(s.len(), |i: int| mark_rec(s[i], id))
}

proof fn lemma_insert_ord_mark(x: TaskRec, t: Seq<TaskRec>, id: i64)
    ensures
        insert_ord(mark_rec(x, id), set_done_by_id(t, id)) == set_done_by_id(
            insert_ord(x, t),
            id,
        ),
    decreases t.len(),
{
    let mx = mark_rec(x, id);
    let mt = set_done_by_id(t, id);
    if t.len() == 0 {
        assert(insert_ord(mx, mt) =~= seq![mx]);
        assert(set_done_by_id(seq![x], id) =~= seq![mx]);
        assert(insert_ord(x, t) == seq![x]);
    } else if rec_le(x, t[0]) {
        assert(mt[0] == mark_rec(t[0], id));
        assert(rec_le(mx, mt[0]));
        assert(insert_ord(mx, mt) == seq![mx] + mt);
        assert(seq![mx] + mt =~= set_done_by_id(seq![x] + t, id));
        assert(insert_ord(x, t) == seq![x] + t);
    } else {
        assert(mt[0] == mark_rec(t[0], id));
        assert(!rec_le(mx, mt[0]));
        assert(mt.len() == t.len());
        assert(insert_ord(mx, mt) == seq![mt[0]] + insert_ord(mx, mt.drop_first()));
        assert(mt.drop_first() =~= set_done_by_id(t.drop_first(), id));
        lemma_insert_ord_mark(x, t.drop_first(), id);
        assert(insert_ord(x, t) == seq![t[0]] + insert_ord(x, t.drop_first()));
        assert(seq![mt[0]] + set_done_by_id(insert_ord(x, t.drop_first()), id)
            =~= set_done_by_id(seq![t[0]] + insert_ord(x, t.drop_first()), id));
    }
}

/// LAW (mark then list): raising the completion flag of one id and then
/// ordering gives the same sequence as ordering first and then raising the
/// flag — marking a task complete moves nothing: the listing afterwards
/// shows the same rows at the same positions, with only the marked rows'
/// flags changed.
pub proof fn lemma_mark_preserves_order(rows: Seq<TaskRec>, id: i64)
    ensures
        sort_spec(set_done_by_id(rows, id)) == set_done_by_id(sort_spec(rows), id),
    decreases rows.len(),
{
    let marked = set_done_by_id(rows, id);
    if rows.len() == 0 {
        assert(marked =~= Seq::<TaskRec>::empty());
        assert(set_done_by_id(sort_spec(rows), id) =~= Seq::<TaskRec>::empty());
    } else {
        let rest = rows.drop_last();
        let x = rows.last();
        lemma_mark_preserves_order(rest, id);
        assert(marked =~= set_done_by_id(rest, id).push(mark_rec(x, id)));
        lemma_sort_spec_push(set_done_by_id(rest, id), mark_rec(x, id));
        assert(sort_spec(marked) == insert_ord(
            mark_rec(x, id),
            sort_spec(set_done_by_id(rest, id)),
        ));
        lemma_insert_ord_mark(x, sort_spec(rest), id);
        assert(sort_spec(rows) == insert_ord(x, sort_spec(rest)));
    }
}

/// LAW (purge then list): dropping the completed rows and then ordering
/// gives the same sequence as ordering first and then dropping the
/// completed rows — purging keeps the surviving rows in their relative
/// canonical order.
pub proof fn lemma_purge_preserves_order(rows: Seq<TaskRec>)
    ensures
        sort_spec(rows.filter(|r: TaskRec| !r.done)) == sort_spec(rows).filter(
            (|r: TaskRec| !r.done),
        ),
{
    lemma_sort_filter(rows, |r: TaskRec| !r.done);
}

/// LAW (remove then list): deleting the rows with one id and then ordering
/// gives the same sequence as ordering first and then dropping those rows —
/// removing a task keeps the surviving rows in their relative listed order.
pub proof fn lemma_remove_preserves_order(rows: Seq<TaskRec>, id: i64)
    ensures
        sort_spec(rows.filter(|r: TaskRec| r.id != id)) == sort_spec(rows).filter(
            (|r: TaskRec| r.id != id),
        ),
{
    lemma_sort_filter(rows, |r: TaskRec| r.id != id);
}

} // verus!