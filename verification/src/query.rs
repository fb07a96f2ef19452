use vstd::prelude::*;
use crate::record::{RecordView, TravelExperience};
use crate::store::StoreModel;

verus! {

/// The views of a sequence of records.
pub open spec fn seq_views(s: Seq<TravelExperience>) -> Seq<RecordView> {
    s.map_values(|t: TravelExperience| t@)
}

/// The records with id in 1..=b, in ascending id order.
pub open spec fn entries_up_to(records: Map<u64, RecordView>, b: int) -> Seq<RecordView>
    decreases b,
{
    if b <= 0 {
        Seq::empty()
    } else {
        entries_up_to(records, b - 1) + (if records.contains_key(b as u64) {
            seq![records[b as u64]]
        } else {
            Seq::empty()
        })
    }
}

/// Every live record, in ascending id order: what a full scan yields.
pub open spec fn all_in_id_order(m: StoreModel) -> Seq<RecordView> {
    entries_up_to(m.records, m.counter as int)
}

/// A stretch of ids holding no record contributes nothing to the scan.
pub proof fn lemma_entries_up_to_gap(records: Map<u64, RecordView>, a: int, b: int)
    requires
        0 <= a <= b <= u64::MAX,
        forall|k: u64| a < k as int <= b ==> !(#[trigger] records.contains_key(k)),
    ensures
        entries_up_to(records, b) == entries_up_to(records, a),
    decreases b - a,
{
    if b > a {
        lemma_entries_up_to_gap(records, a, b - 1);
        assert(!records.contains_key(b as u64));
        assert(entries_up_to(records, b) =~= entries_up_to(records, b - 1));
    }
}

/// The scan has exactly one element per live record: `count()` equals the
/// length of the full scan.
pub proof fn lemma_entries_up_to_len(records: Map<u64, RecordView>, b: int)
    requires
        0 <= b <= u64::MAX,
        records.dom().finite(),
        forall|k: u64| records.contains_key(k) ==> 1 <= k as int <= b,
    ensures
        entries_up_to(records, b).len() == records.dom().len(),
    decreases b,
{
    if b <= 0 {
        if records.dom().len() > 0 {
            let k = records.dom().choose();
            assert(records.contains_key(k));
        }
        assert(records.dom() =~= Set::<u64>::empty());
    } else {
        let sub = records.remove(b as u64);
        assert(sub.dom() =~= records.dom().remove(b as u64));
        assert forall|k: u64| sub.contains_key(k) implies 1 <= k as int <= b - 1 by {
            assert(records.contains_key(k));
        }
        lemma_entries_up_to_len(sub, b - 1);
        assert forall|c: int| 0 <= c <= b - 1 implies entries_up_to(sub, c) == entries_up_to(
            records,
            c,
        ) by {
            lemma_entries_up_to_agree(records, sub, c);
        }
        if records.contains_key(b as u64) {
            assert(records.dom().remove(b as u64).len() == records.dom().len() - 1);
            assert(entries_up_to(records, b).len() == entries_up_to(records, b - 1).len() + 1);
        } else {
            assert(sub.dom() =~= records.dom());
            assert(entries_up_to(records, b).len() == entries_up_to(records, b - 1).len());
        }
    }
}

/// Two maps that agree on all ids up to `b` scan identically up to `b`.
proof fn lemma_entries_up_to_agree(m1: Map<u64, RecordView>, m2: Map<u64, RecordView>, b: int)
    requires
        b <= u64::MAX,
        forall|k: u64|
            1 <= k as int <= b ==> (#[trigger] m1.contains_key(k) == m2.contains_key(k) && (
            m1.contains_key(k) ==> m1[k] == m2[k])),
    ensures
        entries_up_to(m1, b) == entries_up_to(m2, b),
    decreases b,
{
    if b > 0 {
        lemma_entries_up_to_agree(m1, m2, b - 1);
        assert(entries_up_to(m1, b) =~= entries_up_to(m2, b));
    }
}

/// The records of `s` whose date is at most `d`, keeping their order.
pub open spec fn filter_by_date(s: Seq<RecordView>, d: u64) -> Seq<RecordView>
    decreases s.len(),
{
    if s.len() == 0 {
        Seq::empty()
    } else {
        filter_by_date(s.drop_last(), d) + (if s.last().date <= d {
            seq![s.last()]
        } else {
            Seq::empty()
        })
    }
}

/// The records of `s` whose destination is exactly `dest`, keeping their order.
pub open spec fn filter_by_destination(s: Seq<RecordView>, dest: Seq<char>) -> Seq<RecordView>
    decreases s.len(),
{
    if s.len() == 0 {
        Seq::empty()
    } else {
        filter_by_destination(s.drop_last(), dest) + (if s.last().destination == dest {
            seq![s.last()]
        } else {
            Seq::empty()
        })
    }
}

/// The date filter keeps exactly the records with date at most `d`.
pub proof fn lemma_filter_by_date_exact(s: Seq<RecordView>, d: u64)
    ensures
        forall|v: RecordView|
            #[trigger] filter_by_date(s, d).contains(v) <==> (s.contains(v) && v.date <= d),
    decreases s.len(),
{
    if s.len() == 0 {
        assert forall|v: RecordView| !(#[trigger] filter_by_date(s, d).contains(v)) by {}
        assert forall|v: RecordView| !s.contains(v) by {}
    } else {
        lemma_filter_by_date_exact(s.drop_last(), d);
        let fs = filter_by_date(s, d);
        let fd = filter_by_date(s.drop_last(), d);
        assert forall|v: RecordView| #[trigger] fs.contains(v) implies (s.contains(v) && v.date
            <= d) by {
            let i = choose|i: int| 0 <= i < fs.len() && fs[i] == v;
            if i < fd.len() {
                assert(fd.contains(v));
                let j = choose|j: int| 0 <= j < s.drop_last().len() && s.drop_last()[j] == v;
                assert(s[j] == v);
            } else {
                assert(v == s.last());
                assert(s[s.len() - 1] == v);
            }
        }
        assert forall|v: RecordView| (s.contains(v) && v.date <= d) implies #[trigger] fs.contains(
            v,
        ) by {
            let i = choose|i: int| 0 <= i < s.len() && s[i] == v;
            if i < s.len() - 1 {
                assert(s.drop_last()[i] == v);
                assert(s.drop_last().contains(v));
                assert(fd.contains(v));
                let j = choose|j: int| 0 <= j < fd.len() && fd[j] == v;
                assert(fs[j] == v);
            } else {
                assert(v == s.last());
                assert(fs[fd.len() as int] == v);
            }
        }
    }
}

/// The destination filter keeps exactly the records whose destination matches.
pub proof fn lemma_filter_by_destination_exact(s: Seq<RecordView>, dest: Seq<char>)
    ensures
        forall|v: RecordView|
            #[trigger] filter_by_destination(s, dest).contains(v) <==> (s.contains(v)
                && v.destination == dest),
    decreases s.len(),
{
    if s.len() == 0 {
        assert forall|v: RecordView| !(#[trigger] filter_by_destination(s, dest).contains(v)) by {}
        assert forall|v: RecordView| !s.contains(v) by {}
    } else {
        lemma_filter_by_destination_exact(s.drop_last(), dest);
        let fs = filter_by_destination(s, dest);
        let fd = filter_by_destination(s.drop_last(), dest);
        assert forall|v: RecordView| #[trigger] fs.contains(v) implies (s.contains(v)
            && v.destination == dest) by {
            let i = choose|i: int| 0 <= i < fs.len() && fs[i] == v;
            if i < fd.len() {
                assert(fd.contains(v));
                let j = choose|j: int| 0 <= j < s.drop_last().len() && s.drop_last()[j] == v;
                assert(s[j] == v);
            } else {
                assert(v == s.last());
                assert(s[s.len() - 1] == v);
            }
        }
        assert forall|v: RecordView| (s.contains(v) && v.destination == dest) implies #[trigger] fs.contains(
            v,
        ) by {
            let i = choose|i: int| 0 <= i < s.len() && s[i] == v;
            if i < s.len() - 1 {
                assert(s.drop_last()[i] == v);
                assert(s.drop_last().contains(v));
                assert(fd.contains(v));
                let j = choose|j: int| 0 <= j < fd.len() && fd[j] == v;
                assert(fs[j] == v);
            } else {
                assert(v == s.last());
                assert(fs[fd.len() as int] == v);
            }
        }
    }
}

/// Date order with ties broken by ascending id: the order of the stable
/// date sort of an id-ordered scan.
pub open spec fn date_le(a: RecordView, b: RecordView) -> bool {
    a.date < b.date || (a.date == b.date && a.id <= b.id)
}

pub open spec fn sorted_by_date(s: Seq<RecordView>) -> bool {
    forall|i: int, j: int| 0 <= i < j < s.len() ==> date_le(#[trigger] s[i], #[trigger] s[j])
}

pub open spec fn insert_by_date(x: RecordView, s: Seq<RecordView>) -> Seq<RecordView>
    decreases s.len(),
{
    if s.len() == 0 {
        seq![x]
    } else if date_le(x, s[0]) {
        seq![x] + s
    } else {
        seq![s[0]] + insert_by_date(x, s.drop_first())
    }
}

/// The stable sort by date (ties by id) of a sequence, built by insertion.
pub open spec fn sort_by_date(s: Seq<RecordView>) -> Seq<RecordView>
    decreases s.len(),
{
    if s.len() == 0 {
        Seq::empty()
    } else {
        insert_by_date(s.last(), sort_by_date(s.drop_last()))
    }
}

proof fn lemma_insert_by_date_sorted(x: RecordView, s: Seq<RecordView>)
    requires
        sorted_by_date(s),
    ensures
        sorted_by_date(insert_by_date(x, s)),
        insert_by_date(x, s).len() == s.len() + 1,
        insert_by_date(x, s)[0] == x || (s.len() > 0 && insert_by_date(x, s)[0] == s[0]),
    decreases s.len(),
{
    if s.len() == 0 {
    } else if date_le(x, s[0]) {
        let r = seq![x] + s;
        assert forall|i: int, j: int| 0 <= i < j < r.len() implies date_le(r[i], r[j]) by {
            if i == 0 {
                assert(r[j] == s[j - 1]);
                if j > 1 {
                    assert(date_le(s[0], s[j - 1]));
                }
            } else {
                assert(r[i] == s[i - 1] && r[j] == s[j - 1]);
            }
        }
    } else {
        let tail = s.drop_first();
        assert forall|i: int, j: int| 0 <= i < j < tail.len() implies date_le(tail[i], tail[j]) by {
            assert(tail[i] == s[i + 1] && tail[j] == s[j + 1]);
        }
        lemma_insert_by_date_sorted(x, tail);
        let t = insert_by_date(x, tail);
        let r = seq![s[0]] + t;
        assert(insert_by_date(x, s) == r);
        assert(date_le(s[0], x));
        if t[0] == x {
            assert(date_le(s[0], t[0]));
        } else {
            assert(tail.len() > 0 && t[0] == s[1]);
            assert(date_le(s[0], s[1]));
        }
        assert forall|i: int, j: int| 0 <= i < j < r.len() implies date_le(r[i], r[j]) by {
            if i == 0 {
                assert(r[j] == t[j - 1]);
                if j > 1 {
                    assert(date_le(t[0], t[j - 1]));
                }
            } else {
                assert(r[i] == t[i - 1] && r[j] == t[j - 1]);
            }
        }
    }
}

/// The sort's output is sorted: dates never decrease along it, and equal
/// dates keep ascending id order.
pub proof fn lemma_sort_by_date_sorted(s: Seq<RecordView>)
    ensures
        sorted_by_date(sort_by_date(s)),
        sort_by_date(s).len() == s.len(),
    decreases s.len(),
{
    if s.len() > 0 {
        lemma_sort_by_date_sorted(s.drop_last());
        lemma_insert_by_date_sorted(s.last(), sort_by_date(s.drop_last()));
    }
}

/// Inserting at the first position whose element is not before `x` is what
/// the insertion spec does.
pub(crate) proof fn lemma_insert_position(x: RecordView, s: Seq<RecordView>, j: int)
    requires
        sorted_by_date(s),
        0 <= j <= s.len(),
        forall|i: int| 0 <= i < j ==> !date_le(x, #[trigger] s[i]),
        j < s.len() ==> date_le(x, s[j]),
    ensures
        insert_by_date(x, s) == s.take(j) + seq![x] + s.skip(j),
    decreases s.len(),
{
    if s.len() == 0 {
        assert(insert_by_date(x, s) =~= s.take(0) + seq![x] + s.skip(0));
    } else if j == 0 {
        assert(date_le(x, s[0]));
        assert(insert_by_date(x, s) =~= s.take(0) + seq![x] + s.skip(0));
    } else {
        assert(!date_le(x, s[0]));
        let tail = s.drop_first();
        assert forall|i: int, jj: int| 0 <= i < jj < tail.len() implies date_le(
            tail[i],
            tail[jj],
        ) by {
            assert(tail[i] == s[i + 1] && tail[jj] == s[jj + 1]);
        }
        assert forall|i: int| 0 <= i < j - 1 implies !date_le(x, #[trigger] tail[i]) by {
            assert(tail[i] == s[i + 1]);
        }
        if j - 1 < tail.len() {
            assert(tail[j - 1] == s[j]);
        }
        lemma_insert_position(x, tail, j - 1);
        assert(insert_by_date(x, s) == seq![s[0]] + (tail.take(j - 1) + seq![x] + tail.skip(j - 1)));
        assert(seq![s[0]] + (tail.take(j - 1) + seq![x] + tail.skip(j - 1)) =~= s.take(j)
            + seq![x] + s.skip(j));
    }
}

/// Inserts a record into a date-sorted vector, keeping it sorted.
#[verifier::loop_isolation(false)]
pub(crate) fn insert_one(out: &mut Vec<TravelExperience>, x: TravelExperience)
    requires
        sorted_by_date(seq_views(old(out)@)),
    ensures
        seq_views(final(out)@) == insert_by_date(x@, seq_views(old(out)@)),
{
    let ghost s_old = seq_views(out@);
    let ghost xv = x@;
    let mut j: usize = 0;
    while j < out.len() && (out[j].date < x.date || (out[j].date == x.date && out[j].id < x.id))
        invariant
            j <= out@.len(),
            forall|i: int| 0 <= i < j ==> !date_le(xv, #[trigger] s_old[i]),
        decreases out@.len() - j,
    {
        proof {
            assert(s_old[j as int] == out@[j as int]@);
        }
        j += 1;
    }
    proof {
        if (j as int) < s_old.len() {
            assert(s_old[j as int] == out@[j as int]@);
            assert(date_le(xv, s_old[j as int]));
        }
        lemma_insert_position(xv, s_old, j as int);
    }
    out.insert(j, x);
    proof {
        assert(seq_views(out@) =~= s_old.take(j as int) + seq![xv] + s_old.skip(j as int));
    }
}

/// The `n` newest records: the reverse of the date sort, truncated to `n`.
pub open spec fn latest_of(m: StoreModel, n: int) -> Seq<RecordView> {
    let s = sort_by_date(all_in_id_order(m));
    let k = if n <= s.len() { n } else { s.len() as int };
    Seq::new(k as nat, |i: int| s[s.len() - 1 - i])
}

} // verus!
