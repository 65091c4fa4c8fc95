//! The whole-snapshot aggregate: a map from process identifier to record,
//! and a parent-to-children adjacency map.
//!
//! The index is built once per run — records are added one at a time, each
//! registering an edge under its parent — and is read-only afterwards.
//! For every child identifier appearing under a parent there was, at
//! insertion time, a record naming that parent; nothing requires the
//! parent itself to have a record, and rendering must survive its absence.

use vstd::prelude::*;

use std::collections::HashMap;

use crate::record::ProcInfo;
use crate::record::RecordView;

verus! {

broadcast use vstd::std_specs::hash::group_hash_axioms;

/// The mathematical content of the index: the records by identifier, and
/// the ordered child identifiers by parent identifier.
#[verifier::ext_equal]
pub struct IndexView {
    pub procs: Map<i32, RecordView>,
    pub children: Map<i32, Seq<i32>>,
}

/// The index with nothing in it.
pub open spec fn spec_empty() -> IndexView {
    IndexView { procs: Map::empty(), children: Map::empty() }
}

/// The ordered child identifiers recorded under `p`: the empty sequence
/// when no child ever registered there.
pub open spec fn child_list(v: IndexView, p: i32) -> Seq<i32> {
    if v.children.contains_key(p) {
        v.children[p]
    } else {
        Seq::empty()
    }
}

/// One record added to the index: when the record knows its parent, the
/// record's identifier is appended to that parent's child sequence; then
/// the record is stored under its own identifier.
pub open spec fn add_record(v: IndexView, r: RecordView) -> IndexView {
    let with_edge = match r.parent {
        Some(pp) => IndexView {
            procs: v.procs,
            children: v.children.insert(pp, child_list(v, pp).push(r.pid)),
        },
        None => v,
    };
    IndexView { procs: with_edge.procs.insert(r.pid, r), children: with_edge.children }
}

/// The index that adding a sequence of records to the empty index, in
/// order, produces.
pub open spec fn build_seq(s: Seq<RecordView>) -> IndexView
    decreases s.len(),
{
    if s.len() == 0 {
        spec_empty()
    } else {
        add_record(build_seq(s.drop_last()), s.last())
    }
}

/// The record contents of a sequence of captured records.
pub open spec fn views_of(s: Seq<ProcInfo>) -> Seq<RecordView> {
    s.map_values(|p: ProcInfo| p@)
}

/// The process index of one snapshot.
pub struct ProcList {
    procs: HashMap<i32, ProcInfo>,
    relations: HashMap<i32, Vec<i32>>,
}

impl View for ProcList {
    type V = IndexView;

    closed spec fn view(&self) -> IndexView {
        IndexView {
            procs: self.procs@.map_values(|p: ProcInfo| p@),
            children: self.relations@.map_values(|v: Vec<i32>| v@),
        }
    }
}

impl ProcList {
    /// An index with no records.
    pub fn new() -> (r: Self)
        ensures
            r@ == spec_empty(),
    {
        let r = ProcList { procs: HashMap::new(), relations: HashMap::new() };
        proof {
            assert(r@.procs =~= spec_empty().procs);
            assert(r@.children =~= spec_empty().children);
            assert(r@ =~= spec_empty());
        }
        r
    }

    /// Appends `child` to the child sequence recorded under `parent`,
    /// starting that sequence when it is the first child.
    pub fn add_relation(&mut self, parent: i32, child: i32)
        ensures
            final(self)@.procs == old(self)@.procs,
            final(self)@.children == old(self)@.children.insert(
                parent,
                child_list(old(self)@, parent).push(child),
            ),
    {
        let mut kids: Vec<i32> = match self.relations.remove(&parent) {
            Some(k) => k,
            None => Vec::new(),
        };
        kids.push(child);
        self.relations.insert(parent, kids);
        proof {
            assert(final(self)@.procs =~= old(self)@.procs);
            assert(final(self)@.children =~= old(self)@.children.insert(
                parent,
                child_list(old(self)@, parent).push(child),
            ));
        }
    }

    /// Adds one record: registers it under its parent when it has one,
    /// then stores it under its own identifier.
    pub fn add_proc(&mut self, proc_info: ProcInfo)
        ensures
            final(self)@ == add_record(old(self)@, proc_info@),
    {
        let pid = proc_info.pid();
        if let Some(parent_pid) = proc_info.parent_id() {
            self.add_relation(parent_pid, pid);
        }
        self.procs.insert(pid, proc_info);
        proof {
            assert(final(self)@.procs =~= add_record(old(self)@, proc_info@).procs);
            assert(final(self)@.children =~= add_record(old(self)@, proc_info@).children);
            assert(final(self)@ =~= add_record(old(self)@, proc_info@));
        }
    }

    /// The record stored under `pid`, if any.
    pub fn get_record(&self, pid: i32) -> (r: Option<&ProcInfo>)
        ensures
            match r {
                Some(rec) => self@.procs.contains_key(pid) && rec@ == self@.procs[pid],
                None => !self@.procs.contains_key(pid),
            },
    {
        self.procs.get(&pid)
    }

    /// However the index was put together, its record map is finite and
    /// no larger than the machine's addressable size.
    pub proof fn lemma_index_finite(&self)
        ensures
            self@.procs.dom().finite(),
            self@.procs.dom().len() <= usize::MAX,
    {
        assert(self@.procs.dom() =~= self.procs@.dom());
        assert(vstd::std_specs::hash::spec_hash_map_len(&self.procs) == self.procs@.len());
    }

    /// The ordered child identifiers recorded under `pid`.
    pub fn children_of(&self, pid: i32) -> (r: Option<&Vec<i32>>)
        ensures
            match r {
                Some(kids) => kids@ == child_list(self@, pid),
                None => child_list(self@, pid) == Seq::<i32>::empty(),
            },
    {
        self.relations.get(&pid)
    }
}

/// Where one record lands among already-sorted records: before every
/// record with a strictly larger identifier, and after any with an equal
/// or smaller one (so the placement is stable).
pub open spec fn insert_by_pid(s: Seq<RecordView>, r: RecordView) -> Seq<RecordView>
    decreases s.len(),
{
    if s.len() == 0 {
        seq![r]
    } else if r.pid < s.last().pid {
        insert_by_pid(s.drop_last(), r).push(s.last())
    } else {
        s.push(r)
    }
}

/// Insertion sort of records by ascending identifier.
pub open spec fn sort_by_pid(s: Seq<RecordView>) -> Seq<RecordView>
    decreases s.len(),
{
    if s.len() == 0 {
        Seq::empty()
    } else {
        insert_by_pid(sort_by_pid(s.drop_last()), s.last())
    }
}

/// Records in ascending identifier order.
pub open spec fn sorted_by_pid_seq(s: Seq<RecordView>) -> bool {
    forall|i: int, j: int|
        0 <= i <= j < s.len() ==> (#[trigger] s[i]).pid <= (#[trigger] s[j]).pid
}

/// Identifiers in ascending order.
pub open spec fn sorted_ids(s: Seq<i32>) -> bool {
    forall|i: int, j: int| 0 <= i <= j < s.len() ==> s[i] <= s[j]
}

/// Every element of an insertion result is the inserted record or an
/// element of the sequence inserted into, and one more element is
/// present.
proof fn lemma_insert_by_pid_elems(s: Seq<RecordView>, r: RecordView)
    ensures
        insert_by_pid(s, r).len() == s.len() + 1,
        forall|k: int|
            0 <= k < insert_by_pid(s, r).len() ==> (#[trigger] insert_by_pid(s, r)[k] == r
                || exists|m: int| 0 <= m < s.len() && insert_by_pid(s, r)[k] == s[m]),
    decreases s.len(),
{
    if s.len() == 0 {
    } else if r.pid < s.last().pid {
        lemma_insert_by_pid_elems(s.drop_last(), r);
        let ins = insert_by_pid(s, r);
        let ins_dl = insert_by_pid(s.drop_last(), r);
        assert forall|k: int|
            0 <= k < ins.len() implies (#[trigger] ins[k] == r || exists|m: int|
            0 <= m < s.len() && ins[k] == s[m]) by {
            if k < ins_dl.len() {
                assert(ins[k] == ins_dl[k]);
                if ins_dl[k] != r {
                    let m = choose|m: int| 0 <= m < s.drop_last().len() && ins_dl[k] == s.drop_last()[m];
                    assert(ins[k] == s[m]);
                }
            } else {
                assert(ins[k] == s[s.len() - 1]);
            }
        }
    } else {
    }
}

/// Inserting into a sorted sequence keeps it sorted.
proof fn lemma_insert_by_pid_sorted(s: Seq<RecordView>, r: RecordView)
    requires
        sorted_by_pid_seq(s),
    ensures
        sorted_by_pid_seq(insert_by_pid(s, r)),
    decreases s.len(),
{
    if s.len() == 0 {
    } else if r.pid < s.last().pid {
        assert(sorted_by_pid_seq(s.drop_last()));
        lemma_insert_by_pid_sorted(s.drop_last(), r);
        lemma_insert_by_pid_elems(s.drop_last(), r);
        let ins_dl = insert_by_pid(s.drop_last(), r);
        let ins = insert_by_pid(s, r);
        assert forall|i: int, j: int|
            0 <= i <= j < ins.len() implies (#[trigger] ins[i]).pid <= (#[trigger] ins[j]).pid by {
            if j == ins.len() - 1 && i < j {
                assert(ins[i] == ins_dl[i]);
                if ins_dl[i] != r {
                    let m = choose|m: int|
                        0 <= m < s.drop_last().len() && ins_dl[i] == s.drop_last()[m];
                    assert(s[m].pid <= s[s.len() - 1].pid);
                }
            } else if j < ins.len() - 1 {
                assert(ins[i] == ins_dl[i]);
                assert(ins[j] == ins_dl[j]);
            }
        }
    } else {
        assert forall|i: int, j: int|
            0 <= i <= j < insert_by_pid(s, r).len() implies (#[trigger] insert_by_pid(s, r)[i]).pid
            <= (#[trigger] insert_by_pid(s, r)[j]).pid by {
            if j == s.len() && i < j {
                assert(insert_by_pid(s, r)[i] == s[i]);
                assert(s[i].pid <= s[s.len() - 1].pid);
            }
        }
    }
}

/// The sort the builder performs really sorts: its result is in
/// ascending identifier order.
pub proof fn lemma_sort_by_pid_sorted(s: Seq<RecordView>)
    ensures
        sorted_by_pid_seq(sort_by_pid(s)),
    decreases s.len(),
{
    if s.len() > 0 {
        lemma_sort_by_pid_sorted(s.drop_last());
        lemma_insert_by_pid_sorted(sort_by_pid(s.drop_last()), s.last());
    }
}

/// The ordering invariant of the built index: when records are added in
/// ascending identifier order — as the builder does after sorting —
/// every child sequence is in ascending identifier order, and every
/// entry of a child sequence is the identifier of some added record.
pub proof fn lemma_child_lists_sorted(s: Seq<RecordView>)
    requires
        sorted_by_pid_seq(s),
    ensures
        forall|p: i32| sorted_ids(#[trigger] child_list(build_seq(s), p)),
        forall|p: i32, k: int|
            0 <= k < child_list(build_seq(s), p).len() ==> exists|m: int|
                0 <= m < s.len() && (#[trigger] child_list(build_seq(s), p)[k]) == s[m].pid,
    decreases s.len(),
{
    if s.len() == 0 {
        assert forall|p: i32| sorted_ids(#[trigger] child_list(build_seq(s), p)) by {
            assert(child_list(build_seq(s), p) =~= Seq::<i32>::empty());
        }
    } else {
        let dl = s.drop_last();
        let r = s.last();
        assert(sorted_by_pid_seq(dl));
        lemma_child_lists_sorted(dl);
        let v0 = build_seq(dl);
        let v1 = build_seq(s);
        assert forall|p: i32| sorted_ids(#[trigger] child_list(v1, p)) by {
            match r.parent {
                None => {
                    assert(child_list(v1, p) == child_list(v0, p));
                },
                Some(pp) => {
                    if p == pp {
                        let old_cl = child_list(v0, pp);
                        let new_cl = child_list(v1, pp);
                        assert(new_cl == old_cl.push(r.pid));
                        assert forall|i: int, j: int|
                            0 <= i <= j < new_cl.len() implies new_cl[i] <= new_cl[j] by {
                            if j == new_cl.len() - 1 {
                                if i < j {
                                    assert(new_cl[i] == old_cl[i]);
                                    let m = choose|m: int|
                                        0 <= m < dl.len() && old_cl[i] == dl[m].pid;
                                    assert(dl[m] == s[m]);
                                    assert(s[m].pid <= s[s.len() - 1].pid);
                                }
                            } else {
                                assert(new_cl[i] == old_cl[i]);
                                assert(new_cl[j] == old_cl[j]);
                            }
                        }
                    } else {
                        assert(child_list(v1, p) == child_list(v0, p));
                    }
                },
            }
        }
        assert forall|p: i32, k: int|
            0 <= k < child_list(v1, p).len() implies exists|m: int|
                0 <= m < s.len() && (#[trigger] child_list(v1, p)[k]) == s[m].pid by {
            let is_new = match r.parent {
                Some(pp) => p == pp && k == child_list(v1, p).len() - 1,
                None => false,
            };
            if is_new {
                assert(child_list(v1, p)[k] == s[s.len() - 1].pid);
            } else {
                assert(child_list(v1, p)[k] == child_list(v0, p)[k]);
                let m = choose|m: int| 0 <= m < dl.len() && child_list(v0, p)[k] == dl[m].pid;
                assert(dl[m] == s[m]);
                assert(child_list(v1, p)[k] == s[m].pid);
            }
        }
    }
}

/// No two records carry the same identifier — as holds of any one
/// snapshot, where identifiers are unique.
pub open spec fn distinct_record_pids(s: Seq<RecordView>) -> bool {
    forall|i: int, j: int|
        0 <= i < j < s.len() ==> (#[trigger] s[i]).pid != (#[trigger] s[j]).pid
}

/// Insertion adds exactly the inserted record to the sequence's
/// contents.
proof fn lemma_insert_by_pid_multiset(s: Seq<RecordView>, r: RecordView)
    ensures
        insert_by_pid(s, r).to_multiset() == s.to_multiset().insert(r),
    decreases s.len(),
{
    broadcast use vstd::seq_lib::group_to_multiset_ensures;

    if s.len() == 0 {
        assert(insert_by_pid(s, r) =~= s.push(r));
        assert(s.push(r).to_multiset() =~= s.to_multiset().insert(r));
    } else if r.pid < s.last().pid {
        lemma_insert_by_pid_multiset(s.drop_last(), r);
        assert(insert_by_pid(s, r) == insert_by_pid(s.drop_last(), r).push(s.last()));
        assert(insert_by_pid(s.drop_last(), r).push(s.last()).to_multiset() =~= insert_by_pid(
            s.drop_last(),
            r,
        ).to_multiset().insert(s.last()));
        assert(s.drop_last().push(s.last()) =~= s);
        assert(s.drop_last().push(s.last()).to_multiset() =~= s.drop_last().to_multiset().insert(
            s.last(),
        ));
        assert(s.drop_last().to_multiset().insert(r).insert(s.last())
            =~= s.drop_last().to_multiset().insert(s.last()).insert(r));
        assert(insert_by_pid(s, r).to_multiset() =~= s.to_multiset().insert(r));
    } else {
        assert(insert_by_pid(s, r) == s.push(r));
        assert(s.push(r).to_multiset() =~= s.to_multiset().insert(r));
    }
}

/// Sorting does not change which records are present, nor how often.
proof fn lemma_sort_by_pid_multiset(s: Seq<RecordView>)
    ensures
        sort_by_pid(s).to_multiset() == s.to_multiset(),
    decreases s.len(),
{
    broadcast use vstd::seq_lib::group_to_multiset_ensures;

    if s.len() > 0 {
        lemma_sort_by_pid_multiset(s.drop_last());
        lemma_insert_by_pid_multiset(sort_by_pid(s.drop_last()), s.last());
        assert(s.drop_last().push(s.last()) =~= s);
        assert(s.drop_last().push(s.last()).to_multiset() =~= s.drop_last().to_multiset().insert(
            s.last(),
        ));
    }
}

/// Two sorted sequences holding the same records, with pairwise
/// distinct identifiers, are one and the same sequence.
proof fn lemma_sorted_unique(s1: Seq<RecordView>, s2: Seq<RecordView>)
    requires
        sorted_by_pid_seq(s1),
        sorted_by_pid_seq(s2),
        s1.to_multiset() == s2.to_multiset(),
        distinct_record_pids(s1),
    ensures
        s1 == s2,
    decreases s1.len(),
{
    broadcast use vstd::seq_lib::group_to_multiset_ensures;

    assert(s1.len() == s1.to_multiset().len());
    assert(s2.len() == s2.to_multiset().len());
    if s1.len() == 0 {
        assert(s1 =~= s2);
    } else {
        assert(s2[s2.len() - 1] == s2.last());
        assert(s2.contains(s2.last()));
        assert(s1.to_multiset().count(s2.last()) > 0);
        assert(s1.contains(s2.last()));
        let i = choose|i: int| 0 <= i < s1.len() && s1[i] == s2.last();
        assert(s1[s1.len() - 1] == s1.last());
        assert(s1.contains(s1.last()));
        assert(s2.to_multiset().count(s1.last()) > 0);
        assert(s2.contains(s1.last()));
        let j = choose|j: int| 0 <= j < s2.len() && s2[j] == s1.last();
        assert(s1[i].pid <= s1[s1.len() - 1].pid);
        assert(s2[j].pid <= s2[s2.len() - 1].pid);
        assert(s1.last().pid == s2.last().pid);
        if i < s1.len() - 1 {
            assert(s1[i].pid != s1[s1.len() - 1].pid);
            assert(false);
        }
        assert(s1.last() == s2.last());
        assert(s1.remove(s1.len() - 1) =~= s1.drop_last());
        assert(s1.remove(s1.len() - 1).to_multiset() =~= s1.to_multiset().remove(
            s1[s1.len() - 1],
        ));
        assert(s2.remove(s2.len() - 1) =~= s2.drop_last());
        assert(s2.remove(s2.len() - 1).to_multiset() =~= s2.to_multiset().remove(
            s2[s2.len() - 1],
        ));
        assert(s1.drop_last().to_multiset() =~= s2.drop_last().to_multiset());
        assert(sorted_by_pid_seq(s1.drop_last()));
        assert(sorted_by_pid_seq(s2.drop_last()));
        assert(distinct_record_pids(s1.drop_last()));
        lemma_sorted_unique(s1.drop_last(), s2.drop_last());
        assert forall|k: int| 0 <= k < s1.len() implies s1[k] == s2[k] by {
            if k < s1.len() - 1 {
                assert(s1[k] == s1.drop_last()[k]);
                assert(s2[k] == s2.drop_last()[k]);
            }
        }
        assert(s1 =~= s2);
    }
}

/// However the enumeration ordered one snapshot's records, the builder
/// produces one and the same index: two orderings of the same records,
/// their identifiers pairwise distinct, build equal indexes.
pub proof fn lemma_build_order_insensitive(e1: Seq<RecordView>, e2: Seq<RecordView>)
    requires
        e1.to_multiset() == e2.to_multiset(),
        distinct_record_pids(e1),
    ensures
        build_seq(sort_by_pid(e1)) == build_seq(sort_by_pid(e2)),
{
    broadcast use vstd::seq_lib::group_to_multiset_ensures;

    lemma_sort_by_pid_multiset(e1);
    lemma_sort_by_pid_multiset(e2);
    lemma_sort_by_pid_sorted(e1);
    lemma_sort_by_pid_sorted(e2);
    let t1 = sort_by_pid(e1);
    assert(e1.no_duplicates()) by {
        assert forall|i: int, j: int|
            0 <= i < e1.len() && 0 <= j < e1.len() && i != j implies e1[i] != e1[j] by {
            if i < j {
                assert(e1[i].pid != e1[j].pid);
            } else {
                assert(e1[j].pid != e1[i].pid);
            }
        }
    }
    e1.lemma_multiset_has_no_duplicates();
    t1.lemma_multiset_has_no_duplicates_conv();
    assert forall|i: int, j: int|
        0 <= i < j < t1.len() implies (#[trigger] t1[i]).pid != (#[trigger] t1[j]).pid by {
        assert(t1[i] != t1[j]);
        assert(t1.contains(t1[i]));
        assert(e1.to_multiset().count(t1[i]) > 0);
        assert(e1.contains(t1[i]));
        assert(t1.contains(t1[j]));
        assert(e1.to_multiset().count(t1[j]) > 0);
        assert(e1.contains(t1[j]));
        let a = choose|a: int| 0 <= a < e1.len() && e1[a] == t1[i];
        let b = choose|b: int| 0 <= b < e1.len() && e1[b] == t1[j];
        assert(a != b);
        if a < b {
            assert(e1[a].pid != e1[b].pid);
        } else {
            assert(e1[b].pid != e1[a].pid);
        }
    }
    lemma_sorted_unique(sort_by_pid(e1), sort_by_pid(e2));
}

/// Whatever order the raw enumeration delivered the records in, the
/// index the builder produces records every parent's children in
/// ascending identifier order.
pub proof fn lemma_build_children_ascending(entries: Seq<RecordView>)
    ensures
        forall|p: i32| sorted_ids(#[trigger] child_list(build_seq(sort_by_pid(entries)), p)),
{
    lemma_sort_by_pid_sorted(entries);
    lemma_child_lists_sorted(sort_by_pid(entries));
}

/// Inserting a record whose identifier is below everything from position
/// `j` on, and not below position `j - 1`, splits the sequence at `j`.
proof fn lemma_insert_at(s: Seq<RecordView>, r: RecordView, j: int)
    requires
        0 <= j <= s.len(),
        forall|k: int| j <= k < s.len() ==> s[k].pid > r.pid,
        j > 0 ==> s[j - 1].pid <= r.pid,
    ensures
        insert_by_pid(s, r) == s.subrange(0, j) + seq![r] + s.subrange(j, s.len() as int),
    decreases s.len(),
{
    if j == s.len() {
        if s.len() == 0 {
            assert(insert_by_pid(s, r) =~= s.subrange(0, j) + seq![r] + s.subrange(
                j,
                s.len() as int,
            ));
        } else {
            assert(s[j - 1] == s.last());
            assert(insert_by_pid(s, r) =~= s.subrange(0, j) + seq![r] + s.subrange(
                j,
                s.len() as int,
            ));
        }
    } else {
        assert(s[s.len() - 1].pid > r.pid);
        let dl = s.drop_last();
        lemma_insert_at(dl, r, j);
        assert(dl.subrange(0, j) =~= s.subrange(0, j));
        assert(insert_by_pid(s, r) =~= s.subrange(0, j) + seq![r] + s.subrange(j, s.len() as int));
    }
}

/// Puts one captured record in identifier order within `out`, which is
/// already sorted.
fn insert_record(out: &mut Vec<ProcInfo>, e: ProcInfo)
    ensures
        views_of(final(out)@) == insert_by_pid(views_of(old(out)@), e@),
{
    let mut j: usize = out.len();
    while j > 0 && out[j - 1].pid() > e.pid()
        invariant
            j <= out.len(),
            forall|k: int| j <= k < out@.len() ==> views_of(out@)[k].pid > e@.pid,
        decreases j,
    {
        j = j - 1;
    }
    proof {
        lemma_insert_at(views_of(out@), e@, j as int);
    }
    out.insert(j, e);
    proof {
        assert(views_of(final(out)@) =~= insert_by_pid(views_of(old(out)@), e@));
    }
}

impl ProcList {
    /// Builds the index for one snapshot: sorts the captured records by
    /// ascending identifier — the one ordering the builder promises, and
    /// the order children are appended under their parents — then adds
    /// them one at a time.
    pub fn build(entries: Vec<ProcInfo>) -> (r: ProcList)
        ensures
            r@ == build_seq(sort_by_pid(views_of(entries@))),
    {
        let ghost orig: Seq<RecordView> = views_of(entries@);
        let mut rem = entries;
        let mut sorted_recs: Vec<ProcInfo> = Vec::new();
        let ghost mut i: int = 0;
        while rem.len() > 0
            invariant
                0 <= i <= orig.len(),
                views_of(rem@) == orig.skip(i),
                views_of(sorted_recs@) == sort_by_pid(orig.take(i)),
            decreases rem@.len(),
        {
            proof {
                assert(views_of(rem@).len() == rem@.len());
                assert(i < orig.len());
            }
            let ghost rem0: Seq<ProcInfo> = rem@;
            let e = rem.remove(0);
            insert_record(&mut sorted_recs, e);
            proof {
                assert(e@ == orig.skip(i)[0]);
                assert(orig.take(i + 1).len() == i + 1);
                assert(orig.take(i + 1).drop_last() =~= orig.take(i));
                assert(orig.take(i + 1).last() == orig[i]);
                assert forall|k: int| 0 <= k < rem@.len() implies views_of(rem@)[k] == orig.skip(
                    i + 1,
                )[k] by {
                    assert(rem@[k] == rem0[k + 1]);
                    assert(views_of(rem0)[k + 1] == orig.skip(i)[k + 1]);
                }
                assert(views_of(rem@) =~= orig.skip(i + 1));
                i = i + 1;
            }
        }
        proof {
            assert(orig.skip(i).len() == 0);
            assert(i == orig.len());
            assert(orig.take(i) =~= orig);
        }
        let ghost sorted_view: Seq<RecordView> = sort_by_pid(orig);
        let mut list = ProcList::new();
        let ghost mut j: int = 0;
        while sorted_recs.len() > 0
            invariant
                0 <= j <= sorted_view.len(),
                views_of(sorted_recs@) == sorted_view.skip(j),
                list@ == build_seq(sorted_view.take(j)),
            decreases sorted_recs@.len(),
        {
            proof {
                assert(views_of(sorted_recs@).len() == sorted_recs@.len());
                assert(j < sorted_view.len());
            }
            let ghost sr0: Seq<ProcInfo> = sorted_recs@;
            let e = sorted_recs.remove(0);
            list.add_proc(e);
            proof {
                assert(e@ == sorted_view.skip(j)[0]);
                assert(sorted_view.take(j + 1).len() == j + 1);
                assert(sorted_view.take(j + 1).drop_last() =~= sorted_view.take(j));
                assert(sorted_view.take(j + 1).last() == sorted_view[j]);
                assert forall|k: int| 0 <= k < sorted_recs@.len() implies views_of(sorted_recs@)[k]
                    == sorted_view.skip(j + 1)[k] by {
                    assert(sorted_recs@[k] == sr0[k + 1]);
                    assert(views_of(sr0)[k + 1] == sorted_view.skip(j)[k + 1]);
                }
                assert(views_of(sorted_recs@) =~= sorted_view.skip(j + 1));
                j = j + 1;
            }
        }
        proof {
            assert(sorted_view.skip(j).len() == 0);
            assert(j == sorted_view.len());
            assert(sorted_view.take(j) =~= sorted_view);
        }
        list
    }
}

impl Default for ProcList {
    /// An index with no records.
    fn default() -> (r: Self)
        ensures
            r@ == spec_empty(),
    {
        ProcList::new()
    }
}

} // verus!
