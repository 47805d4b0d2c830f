//! Merging sorted runs of entries into one sorted stream, with the old
//! versions and the entries behind a snapshot left out on demand.

use crate::value::{
    bytes_eq, bytes_lt, entry_le, entry_views, is_sorted, key_lt, lemma_bytes_lt_transitive,
    lemma_key_order, EntryView, Value,
};
use crate::SeqNo;
use vstd::multiset::Multiset;
use vstd::prelude::*;

verus! {

/// The views of the entries of several runs.
pub open spec fn run_views(runs: Seq<Vec<Value>>) -> Seq<Seq<EntryView>> {
    runs.map_values(|run: Vec<Value>| entry_views(run@))
}

/// The entries that the runs still hold behind the positions `at`, each
/// as often as it occurs there.
pub open spec fn entries_left(runs: Seq<Seq<EntryView>>, at: Seq<usize>) -> Multiset<EntryView>
    decreases runs.len(),
{
    if runs.len() == 0 || at.len() != runs.len() {
        Multiset::empty()
    } else {
        entries_left(runs.drop_last(), at.drop_last()).add(
            runs.last().skip(at.last() as int).to_multiset(),
        )
    }
}

/// All entries of the runs, each as often as it occurs.
pub open spec fn all_entries(runs: Seq<Seq<EntryView>>) -> Multiset<EntryView> {
    entries_left(runs, Seq::new(runs.len(), |i: int| 0usize))
}

/// Whether `out` is what merging the runs gives: their entries, each as
/// often as the runs hold it, in the order of internal keys. Entries with
/// the same internal key stand in any order.
pub open spec fn is_merge_of(out: Seq<EntryView>, runs: Seq<Seq<EntryView>>) -> bool {
    &&& is_sorted(out)
    &&& out.to_multiset() == all_entries(runs)
}

/// A run without its first entry holds that entry once less.
proof fn lemma_skip_one(s: Seq<EntryView>, p: int)
    requires
        0 <= p < s.len(),
    ensures
        s.skip(p).to_multiset() == s.skip(p + 1).to_multiset().insert(s[p]),
{
    broadcast use vstd::multiset::group_multiset_axioms;

    let t = s.skip(p);
    assert(t.remove(0) =~= s.skip(p + 1));
    vstd::seq_lib::to_multiset_remove(t, 0);
    t.to_multiset_ensures();
    assert(t.contains(t[0]));
    assert(t.to_multiset().count(s[p]) > 0);
    assert(t.to_multiset() =~= s.skip(p + 1).to_multiset().insert(s[p]));
}

/// Taking the entry at the position of run `i` leaves one entry less.
proof fn lemma_take_entry(runs: Seq<Seq<EntryView>>, at: Seq<usize>, i: int)
    requires
        at.len() == runs.len(),
        0 <= i < runs.len(),
        at[i] < runs[i].len(),
        at[i] < usize::MAX,
    ensures
        entries_left(runs, at) == entries_left(runs, at.update(i, (at[i] + 1) as usize)).insert(
            runs[i][at[i] as int],
        ),
    decreases runs.len(),
{
    broadcast use vstd::multiset::group_multiset_axioms;

    let moved = at.update(i, (at[i] + 1) as usize);
    if i == runs.len() - 1 {
        assert(moved.drop_last() =~= at.drop_last());
        lemma_skip_one(runs[i], at[i] as int);
    } else {
        assert(moved.drop_last() =~= at.drop_last().update(i, (at[i] + 1) as usize));
        lemma_take_entry(runs.drop_last(), at.drop_last(), i);
    }
    assert(entries_left(runs, at) =~= entries_left(runs, moved).insert(runs[i][at[i] as int]));
}

/// Runs that are read to their ends hold nothing more.
proof fn lemma_nothing_left(runs: Seq<Seq<EntryView>>, at: Seq<usize>)
    requires
        at.len() == runs.len(),
        forall|i: int| 0 <= i < runs.len() ==> at[i] == (#[trigger] runs[i]).len(),
    ensures
        entries_left(runs, at) == Multiset::<EntryView>::empty(),
    decreases runs.len(),
{
    broadcast use vstd::multiset::group_multiset_axioms;

    if runs.len() > 0 {
        lemma_nothing_left(runs.drop_last(), at.drop_last());
        let end = runs.last().skip(at.last() as int);
        assert(end =~= Seq::<EntryView>::empty());
        end.to_multiset_ensures();
        assert(end.to_multiset() =~= Multiset::<EntryView>::empty());
        assert(entries_left(runs, at) =~= Multiset::<EntryView>::empty());
    }
}

/// The number of entries of all runs together.
pub open spec fn total_len(runs: Seq<Seq<EntryView>>) -> nat
    decreases runs.len(),
{
    if runs.len() == 0 {
        0
    } else {
        total_len(runs.drop_last()) + runs.last().len()
    }
}

/// A merge of runs has as many entries as the runs have together.
pub proof fn lemma_merge_count(out: Seq<EntryView>, runs: Seq<Seq<EntryView>>)
    requires
        is_merge_of(out, runs),
    ensures
        out.len() == total_len(runs),
{
    out.to_multiset_ensures();
    lemma_all_entries_len(runs);
}

/// The runs hold as many entries as they are long together.
proof fn lemma_all_entries_len(runs: Seq<Seq<EntryView>>)
    ensures
        all_entries(runs).len() == total_len(runs),
    decreases runs.len(),
{
    broadcast use vstd::multiset::group_multiset_axioms;

    let zeros = Seq::new(runs.len(), |i: int| 0usize);
    if runs.len() > 0 {
        let fewer = runs.drop_last();
        assert(zeros.drop_last() =~= Seq::new(fewer.len(), |i: int| 0usize));
        lemma_all_entries_len(fewer);
        assert(runs.last().skip(0) =~= runs.last());
        runs.last().to_multiset_ensures();
    }
}

/// Merges sorted runs into one sorted list of all their entries.
pub fn merge_runs(runs: &Vec<Vec<Value>>) -> (out: Vec<Value>)
    requires
        forall|i: int| 0 <= i < runs@.len() ==> is_sorted(#[trigger] run_views(runs@)[i]),
    ensures
        is_merge_of(entry_views(out@), run_views(runs@)),
{
    let ghost views = run_views(runs@);
    let mut at: Vec<usize> = Vec::new();
    let mut k: usize = 0;
    while k < runs.len()
        invariant
            k <= runs@.len(),
            at@ == Seq::new(k as nat, |i: int| 0usize),
        decreases runs@.len() - k,
    {
        at.push(0);
        assert(at@ =~= Seq::new((k + 1) as nat, |i: int| 0usize));
        k += 1;
    }
    let mut out: Vec<Value> = Vec::new();
    proof {
        broadcast use vstd::multiset::group_multiset_axioms;

        entry_views(out@).to_multiset_ensures();
        assert(entry_views(out@).to_multiset() =~= Multiset::<EntryView>::empty());
        assert(entry_views(out@).to_multiset().add(entries_left(views, at@)) =~= all_entries(
            views,
        ));
    }
    loop
        invariant
            views == run_views(runs@),
            at@.len() == runs@.len(),
            forall|i: int| 0 <= i < runs@.len() ==> is_sorted(#[trigger] views[i]),
            forall|i: int| 0 <= i < runs@.len() ==> (#[trigger] at@[i]) <= views[i].len(),
            is_sorted(entry_views(out@)),
            forall|x: int, i: int, j: int|
                0 <= x < out@.len() && 0 <= i < runs@.len() && at@[i] <= j < views[i].len()
                    ==> entry_le(#[trigger] entry_views(out@)[x], #[trigger] views[i][j]),
            entry_views(out@).to_multiset().add(entries_left(views, at@)) == all_entries(views),
        decreases entries_left(views, at@).len(),
    {
        // the run whose next entry is the least of all next entries
        let mut best: Option<usize> = None;
        let mut i: usize = 0;
        while i < runs.len()
            invariant
                i <= runs@.len(),
                views == run_views(runs@),
                at@.len() == runs@.len(),
                forall|i: int| 0 <= i < runs@.len() ==> (#[trigger] at@[i]) <= views[i].len(),
                match best {
                    Some(b) => b < i && at@[b as int] < views[b as int].len() && forall|j: int|
                        0 <= j < i && at@[j] < views[j].len() ==> entry_le(
                            views[b as int][at@[b as int] as int],
                            #[trigger] views[j][at@[j] as int],
                        ),
                    None => forall|j: int| 0 <= j < i ==> (#[trigger] at@[j]) == views[j].len(),
                },
            decreases runs@.len() - i,
        {
            let run = &runs[i];
            let p: usize = at[i];
            assert(views[i as int] == entry_views(run@));
            if p < run.len() {
                let ghost head = views[i as int][p as int];
                assert(head == run@[p as int]@);
                match best {
                    None => {
                        best = Some(i);
                    },
                    Some(b) => {
                        let other = &runs[b];
                        let q: usize = at[b];
                        assert(views[b as int] == entry_views(other@));
                        let ghost least = views[b as int][q as int];
                        if less_entry(&run[p], &other[q]) {
                            proof {
                                assert forall|j: int|
                                    0 <= j < i + 1 && at@[j] < views[j].len() implies entry_le(
                                    head,
                                    #[trigger] views[j][at@[j] as int],
                                ) by {
                                    if j < i {
                                        let e = views[j][at@[j] as int];
                                        lemma_key_order(
                                            head.internal_key(),
                                            least.internal_key(),
                                            e.internal_key(),
                                        );
                                    }
                                }
                            }
                            best = Some(i);
                        } else {
                            proof {
                                lemma_key_order(
                                    head.internal_key(),
                                    least.internal_key(),
                                    head.internal_key(),
                                );
                            }
                        }
                    },
                }
            }
            i += 1;
        }
        match best {
            None => {
                proof {
                    broadcast use vstd::multiset::group_multiset_axioms;

                    lemma_nothing_left(views, at@);
                    assert(entry_views(out@).to_multiset() =~= all_entries(views));
                }
                return out;
            },
            Some(b) => {
                let p: usize = at[b];
                let run = &runs[b];
                let run_len: usize = run.len();
                assert(views[b as int] == entry_views(run@));
                assert(p < run_len);
                let ghost taken = views[b as int][p as int];
                let ghost before = entry_views(out@);
                let ghost at_before = at@;
                proof {
                    // the entry taken is the least of all entries left
                    assert forall|i: int, j: int|
                        0 <= i < runs@.len() && at@[i] <= j < views[i].len() implies entry_le(
                        taken,
                        #[trigger] views[i][j],
                    ) by {
                        let head = views[i][at@[i] as int];
                        assert(entry_le(taken, head));
                        if at@[i] < j {
                            assert(entry_le(head, views[i][j]));
                            lemma_key_order(
                                taken.internal_key(),
                                head.internal_key(),
                                views[i][j].internal_key(),
                            );
                        }
                    }
                    lemma_take_entry(views, at@, b as int);
                }
                out.push(run[p].clone());
                at.set(b, p + 1);
                proof {
                    broadcast use vstd::multiset::group_multiset_axioms;

                    assert(entry_views(out@) =~= before.push(taken));
                    vstd::seq_lib::to_multiset_build(before, taken);
                    assert(entry_views(out@).to_multiset().add(entries_left(views, at@))
                        =~= before.to_multiset().add(entries_left(views, at_before)));
                    assert forall|x: int, y: int|
                        0 <= x < y < out@.len() implies entry_le(
                        #[trigger] entry_views(out@)[x],
                        #[trigger] entry_views(out@)[y],
                    ) by {
                        if y == before.len() {
                            assert(entry_le(before[x], views[b as int][p as int]));
                        } else {
                            assert(entry_le(before[x], before[y]));
                        }
                    }
                    assert forall|x: int, i: int, j: int|
                        0 <= x < out@.len() && 0 <= i < runs@.len() && at@[i] <= j
                            < views[i].len() implies entry_le(
                        #[trigger] entry_views(out@)[x],
                        #[trigger] views[i][j],
                    ) by {
                        assert(at_before[i] <= j);
                        if x < before.len() {
                            assert(entry_le(before[x], views[i][j]));
                        }
                    }
                }
            },
        }
    }
}

/// Whether a run is sorted, as merging takes for granted.
pub fn run_is_sorted(run: &Vec<Value>) -> (r: bool)
    ensures
        r <==> is_sorted(entry_views(run@)),
{
    let ghost s = entry_views(run@);
    if run.len() < 2 {
        return true;
    }
    let mut i: usize = 1;
    while i < run.len()
        invariant
            1 <= i <= run@.len(),
            s == entry_views(run@),
            forall|a: int, b: int| 0 <= a < b < i ==> entry_le(#[trigger] s[a], #[trigger] s[b]),
        decreases run@.len() - i,
    {
        if less_entry(&run[i], &run[i - 1]) {
            proof {
                lemma_key_order(
                    s[i as int].internal_key(),
                    s[i - 1].internal_key(),
                    s[i as int].internal_key(),
                );
                assert(!entry_le(s[i - 1], s[i as int]));
            }
            return false;
        }
        proof {
            lemma_key_order(
                s[i as int].internal_key(),
                s[i - 1].internal_key(),
                s[i as int].internal_key(),
            );
            assert(entry_le(s[i - 1], s[i as int]));
            assert forall|a: int, b: int| 0 <= a < b < i + 1 implies entry_le(
                #[trigger] s[a],
                #[trigger] s[b],
            ) by {
                if b == i && a < i - 1 {
                    assert(entry_le(s[a], s[i - 1]));
                    lemma_key_order(
                        s[a].internal_key(),
                        s[i - 1].internal_key(),
                        s[i as int].internal_key(),
                    );
                }
            }
        }
        i += 1;
    }
    true
}

/// Whether the internal key of `a` comes before that of `b`.
pub fn less_entry(a: &Value, b: &Value) -> (r: bool)
    ensures
        r <==> key_lt(a@.internal_key(), b@.internal_key()),
{
    if crate::value::bytes_less(a.key.as_slice(), b.key.as_slice()) {
        true
    } else if bytes_eq(a.key.as_slice(), b.key.as_slice()) {
        a.seqno > b.seqno || (a.seqno == b.seqno && a.value_type.order_rank()
            < b.value_type.order_rank())
    } else {
        false
    }
}

/// Whether a reader at `snapshot` sees the entry: its sequence number is
/// not above the snapshot.
pub open spec fn seen_at(e: EntryView, snapshot: Option<SeqNo>) -> bool {
    match snapshot {
        Some(s) => e.seqno <= s,
        None => true,
    }
}

/// What goes out of the merged stream `s`: the entries that the snapshot
/// sees and, with `evict`, of them only the first of each user key, which
/// in a sorted stream is its newest version.
pub open spec fn emitted(s: Seq<EntryView>, evict: bool, snapshot: Option<SeqNo>) -> Seq<EntryView>
    decreases s.len(),
{
    if s.len() == 0 {
        Seq::empty()
    } else {
        let before = emitted(s.drop_last(), evict, snapshot);
        let e = s.last();
        if !seen_at(e, snapshot) {
            before
        } else if evict && before.len() > 0 && before.last().key == e.key {
            before
        } else {
            before.push(e)
        }
    }
}

/// Takes from a merged stream what goes out of it.
pub fn emit(merged: &Vec<Value>, evict: bool, snapshot: Option<SeqNo>) -> (out: Vec<Value>)
    ensures
        entry_views(out@) == emitted(entry_views(merged@), evict, snapshot),
{
    let ghost s = entry_views(merged@);
    let mut out: Vec<Value> = Vec::new();
    let mut i: usize = 0;
    proof {
        assert(entry_views(out@) =~= emitted(s.take(0), evict, snapshot));
    }
    while i < merged.len()
        invariant
            i <= merged@.len(),
            s == entry_views(merged@),
            entry_views(out@) == emitted(s.take(i as int), evict, snapshot),
        decreases merged@.len() - i,
    {
        let item = &merged[i];
        proof {
            assert(s.take(i + 1).drop_last() =~= s.take(i as int));
            assert(s.take(i + 1).last() == item@);
        }
        let seen: bool = match snapshot {
            Some(seqno) => item.seqno <= seqno,
            None => true,
        };
        if seen {
            let n: usize = out.len();
            let repeated: bool = evict && n > 0 && bytes_eq(
                out[n - 1].key.as_slice(),
                item.key.as_slice(),
            );
            if !repeated {
                let ghost before = entry_views(out@);
                out.push(item.clone());
                assert(entry_views(out@) =~= before.push(item@));
            }
        }
        i += 1;
    }
    proof {
        assert(s.take(i as int) =~= s);
    }
    out
}

/// What goes out of a sorted stream is sorted, and so are its user keys;
/// every entry of it comes from the stream and is seen by the snapshot.
pub proof fn lemma_emitted_sorted(s: Seq<EntryView>, evict: bool, snapshot: Option<SeqNo>)
    requires
        is_sorted(s),
    ensures
        is_sorted(emitted(s, evict, snapshot)),
        forall|i: int|
            0 <= i < emitted(s, evict, snapshot).len() ==> s.contains(
                #[trigger] emitted(s, evict, snapshot)[i],
            ) && seen_at(emitted(s, evict, snapshot)[i], snapshot),
        evict ==> forall|i: int, j: int|
            0 <= i < j < emitted(s, evict, snapshot).len() ==> bytes_lt(
                (#[trigger] emitted(s, evict, snapshot)[i]).key,
                (#[trigger] emitted(s, evict, snapshot)[j]).key,
            ),
    decreases s.len(),
{
    if s.len() > 0 {
        let rest = s.drop_last();
        let e = s.last();
        assert(is_sorted(rest)) by {
            assert forall|i: int, j: int| 0 <= i < j < rest.len() implies entry_le(
                #[trigger] rest[i],
                #[trigger] rest[j],
            ) by {
                assert(entry_le(s[i], s[j]));
            }
        }
        lemma_emitted_sorted(rest, evict, snapshot);
        let before = emitted(rest, evict, snapshot);
        let out = emitted(s, evict, snapshot);
        assert forall|i: int| 0 <= i < before.len() implies s.contains(#[trigger] before[i])
            && entry_le(before[i], e) by {
            let k = choose|k: int| 0 <= k < rest.len() && rest[k] == before[i];
            assert(s[k] == before[i]);
            assert(entry_le(s[k], s[s.len() - 1]));
        }
        assert(s[s.len() - 1] == e);
        if out.len() > before.len() {
            assert(out =~= before.push(e));
            if evict {
                assert forall|i: int, j: int| 0 <= i < j < out.len() implies bytes_lt(
                    (#[trigger] out[i]).key,
                    (#[trigger] out[j]).key,
                ) by {
                    if j == before.len() {
                        let last = before.last();
                        assert(entry_le(last, e));
                        assert(bytes_lt(last.key, e.key));
                        if i < before.len() - 1 {
                            assert(bytes_lt(before[i].key, last.key));
                            lemma_bytes_lt_transitive(before[i].key, last.key, e.key);
                        }
                    } else {
                        assert(bytes_lt(before[i].key, before[j].key));
                    }
                }
            }
        } else {
            assert(out =~= before);
        }
    }
}

/// With the old versions left out, every user key of a sorted stream goes
/// out at most once, and with the highest sequence number that the stream
/// has of it among the entries that the snapshot sees.
pub proof fn lemma_merger_dedup(s: Seq<EntryView>, snapshot: Option<SeqNo>)
    requires
        is_sorted(s),
    ensures
        forall|i: int, j: int|
            0 <= i < j < emitted(s, true, snapshot).len() ==> (#[trigger] emitted(
                s,
                true,
                snapshot,
            )[i]).key != (#[trigger] emitted(s, true, snapshot)[j]).key,
        forall|i: int|
            0 <= i < emitted(s, true, snapshot).len() ==> s.contains(
                #[trigger] emitted(s, true, snapshot)[i],
            ) && seen_at(emitted(s, true, snapshot)[i], snapshot),
        forall|k: int|
            0 <= k < s.len() && seen_at(#[trigger] s[k], snapshot) ==> exists|i: int|
                0 <= i < emitted(s, true, snapshot).len() && (#[trigger] emitted(
                    s,
                    true,
                    snapshot,
                )[i]).key == s[k].key && emitted(s, true, snapshot)[i].seqno >= s[k].seqno,
    decreases s.len(),
{
    lemma_emitted_sorted(s, true, snapshot);
    let out = emitted(s, true, snapshot);
    assert forall|i: int, j: int| 0 <= i < j < out.len() implies (#[trigger] out[i]).key != (
    #[trigger] out[j]).key by {
        assert(bytes_lt(out[i].key, out[j].key));
        crate::value::lemma_bytes_lt_irreflexive(out[i].key);
    }
    if s.len() > 0 {
        let rest = s.drop_last();
        let e = s.last();
        assert(is_sorted(rest)) by {
            assert forall|i: int, j: int| 0 <= i < j < rest.len() implies entry_le(
                #[trigger] rest[i],
                #[trigger] rest[j],
            ) by {
                assert(entry_le(s[i], s[j]));
            }
        }
        lemma_merger_dedup(rest, snapshot);
        lemma_emitted_sorted(rest, true, snapshot);
        let before = emitted(rest, true, snapshot);
        assert forall|k: int| 0 <= k < s.len() && seen_at(#[trigger] s[k], snapshot) implies exists|
            i: int,
        |
            0 <= i < out.len() && (#[trigger] out[i]).key == s[k].key && out[i].seqno
                >= s[k].seqno by {
            if k < rest.len() {
                assert(seen_at(rest[k], snapshot));
                let i = choose|i: int|
                    0 <= i < before.len() && (#[trigger] before[i]).key == rest[k].key
                        && before[i].seqno >= rest[k].seqno;
                assert(out[i] == before[i]);
            } else if out.len() > before.len() {
                assert(out[before.len() as int] == e);
            } else {
                let last = before.last();
                let at = choose|at: int| 0 <= at < rest.len() && rest[at] == last;
                assert(entry_le(s[at], s[s.len() - 1]));
                crate::value::lemma_bytes_lt_irreflexive(e.key);
                assert(out[before.len() - 1] == last);
            }
        }
    }
}

/// Merges sorted runs of entries. Old versions and entries behind a
/// snapshot are left out on demand.
pub struct Merger {
    runs: Vec<Vec<Value>>,
    evict_old_versions: bool,
    seqno: Option<SeqNo>,
}

impl Merger {
    /// The runs to merge.
    pub closed spec fn runs(&self) -> Seq<Seq<EntryView>> {
        run_views(self.runs@)
    }

    /// Whether only the newest version of each user key goes out.
    pub closed spec fn evicts(&self) -> bool {
        self.evict_old_versions
    }

    /// The snapshot whose reader the stream is for, if any.
    pub closed spec fn snapshot(&self) -> Option<SeqNo> {
        self.seqno
    }

    /// A merger of `runs` that lets every entry through.
    pub fn new(runs: Vec<Vec<Value>>) -> (r: Self)
        ensures
            r.runs() == run_views(runs@),
            !r.evicts(),
            r.snapshot() is None,
    {
        Merger { runs, evict_old_versions: false, seqno: None }
    }

    /// Evict old versions by skipping over them
    #[must_use]
    pub fn evict_old_versions(self, v: bool) -> (r: Self)
        ensures
            r.runs() == self.runs(),
            r.evicts() == v,
            r.snapshot() == self.snapshot(),
    {
        Merger { runs: self.runs, evict_old_versions: v, seqno: self.seqno }
    }

    /// Lets only the entries through that a reader at `v` sees.
    #[must_use]
    pub fn snapshot_seqno(self, v: SeqNo) -> (r: Self)
        ensures
            r.runs() == self.runs(),
            r.evicts() == self.evicts(),
            r.snapshot() == Some(v),
    {
        Merger { runs: self.runs, evict_old_versions: self.evict_old_versions, seqno: Some(v) }
    }

    /// Whether every run is sorted, as merging takes for granted.
    pub open spec fn runs_sorted(&self) -> bool {
        forall|i: int| 0 <= i < self.runs().len() ==> is_sorted(#[trigger] self.runs()[i])
    }

    /// Whether every run is sorted.
    pub fn is_mergeable(&self) -> (r: bool)
        ensures
            r <==> self.runs_sorted(),
    {
        let mut i: usize = 0;
        while i < self.runs.len()
            invariant
                i <= self.runs@.len(),
                forall|k: int| 0 <= k < i ==> is_sorted(#[trigger] self.runs()[k]),
            decreases self.runs@.len() - i,
        {
            assert(self.runs()[i as int] == entry_views(self.runs@[i as int]@));
            if !run_is_sorted(&self.runs[i]) {
                return false;
            }
            i += 1;
        }
        true
    }

    /// The merged stream: what goes out of some merge of the runs.
    pub fn collect(&self) -> (out: Vec<Value>)
        requires
            self.runs_sorted(),
        ensures
            exists|merged: Seq<EntryView>|
                is_merge_of(merged, self.runs()) && entry_views(out@) == #[trigger] emitted(
                    merged,
                    self.evicts(),
                    self.snapshot(),
                ),
            !self.evicts() && self.snapshot() is None ==> is_merge_of(
                entry_views(out@),
                self.runs(),
            ),
    {
        proof {
            assert(self.runs().len() == self.runs@.len());
            assert forall|i: int| 0 <= i < self.runs@.len() implies is_sorted(
                #[trigger] run_views(self.runs@)[i],
            ) by {
                assert(is_sorted(self.runs()[i]));
            }
        }
        let merged = merge_runs(&self.runs);
        let out = emit(&merged, self.evict_old_versions, self.seqno);
        proof {
            let stream = entry_views(merged@);
            assert(is_merge_of(stream, self.runs()) && entry_views(out@) == emitted(
                stream,
                self.evicts(),
                self.snapshot(),
            ));
            if !self.evict_old_versions && self.seqno is None {
                lemma_emitted_all(entry_views(merged@));
            }
        }
        out
    }
}

/// With nothing to leave out, the whole stream goes out.
pub proof fn lemma_emitted_all(s: Seq<EntryView>)
    ensures
        emitted(s, false, None) == s,
    decreases s.len(),
{
    if s.len() > 0 {
        lemma_emitted_all(s.drop_last());
        assert(s.drop_last().push(s.last()) =~= s);
    }
}

} // verus!
