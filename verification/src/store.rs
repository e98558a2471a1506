use vstd::prelude::*;

verus! {

use crate::ids::{id_less, id_lt, lemma_id_lt_connex, lemma_id_lt_irrefl, lemma_id_lt_trans};
use crate::record::MedicalTest;

/// The id-keyed contents of a sequence of records; on a duplicated id the
/// later entry wins.
pub open spec fn map_of(s: Seq<MedicalTest>) -> Map<Seq<char>, MedicalTest>
    decreases s.len(),
{
    if s.len() == 0 {
        Map::empty()
    } else {
        map_of(s.drop_last()).insert(s.last().id@, s.last())
    }
}

/// Some record in `s` carries the id `k`.
pub open spec fn has_id(s: Seq<MedicalTest>, k: Seq<char>) -> bool {
    exists|i: int| 0 <= i < s.len() && (#[trigger] s[i]).id@ == k
}

/// No two records in `s` share an id.
pub open spec fn distinct_ids(s: Seq<MedicalTest>) -> bool {
    forall|i: int, j: int|
        0 <= i < j < s.len() ==> (#[trigger] s[i]).id@ != (#[trigger] s[j]).id@
}

/// The records stand in strictly ascending id order.
pub open spec fn sorted_ids(s: Seq<MedicalTest>) -> bool {
    forall|i: int, j: int|
        0 <= i < j < s.len() ==> id_lt((#[trigger] s[i]).id@, (#[trigger] s[j]).id@)
}

/// In a strictly id-sorted sequence no id repeats.
pub proof fn lemma_sorted_distinct(s: Seq<MedicalTest>)
    requires
        sorted_ids(s),
    ensures
        distinct_ids(s),
{
    assert forall|i: int, j: int| 0 <= i < j < s.len() implies (#[trigger] s[i]).id@ != (
    #[trigger] s[j]).id@ by {
        lemma_id_lt_irrefl(s[i].id@);
    }
}

proof fn lemma_distinct_drop_last(s: Seq<MedicalTest>)
    requires
        distinct_ids(s),
        s.len() > 0,
    ensures
        distinct_ids(s.drop_last()),
{
    assert forall|i: int, j: int| 0 <= i < j < s.drop_last().len() implies (#[trigger] s.drop_last()[i]).id@
        != (#[trigger] s.drop_last()[j]).id@ by {
        assert(s.drop_last()[i] == s[i]);
        assert(s.drop_last()[j] == s[j]);
    }
}

pub proof fn lemma_map_of_contains(s: Seq<MedicalTest>, k: Seq<char>)
    ensures
        map_of(s).contains_key(k) <==> has_id(s, k),
    decreases s.len(),
{
    if s.len() > 0 {
        lemma_map_of_contains(s.drop_last(), k);
        if s.last().id@ == k {
            assert(s[s.len() - 1].id@ == k);
        } else {
            if has_id(s, k) {
                let i = choose|i: int| 0 <= i < s.len() && (#[trigger] s[i]).id@ == k;
                assert(s.drop_last()[i] == s[i]);
            }
            if has_id(s.drop_last(), k) {
                let i = choose|i: int|
                    0 <= i < s.drop_last().len() && (#[trigger] s.drop_last()[i]).id@ == k;
                assert(s[i] == s.drop_last()[i]);
            }
        }
    }
}

pub proof fn lemma_map_of_index(s: Seq<MedicalTest>, i: int)
    requires
        distinct_ids(s),
        0 <= i < s.len(),
    ensures
        map_of(s).contains_key(s[i].id@),
        map_of(s)[s[i].id@] == s[i],
    decreases s.len(),
{
    lemma_distinct_drop_last(s);
    if i < s.len() - 1 {
        lemma_map_of_index(s.drop_last(), i);
        assert(s.drop_last()[i] == s[i]);
        assert(s[i].id@ != s.last().id@);
    }
}

pub proof fn lemma_map_of_len(s: Seq<MedicalTest>)
    requires
        distinct_ids(s),
    ensures
        map_of(s).dom().finite(),
        map_of(s).len() == s.len(),
    decreases s.len(),
{
    if s.len() > 0 {
        lemma_distinct_drop_last(s);
        lemma_map_of_len(s.drop_last());
        lemma_map_of_contains(s.drop_last(), s.last().id@);
        if has_id(s.drop_last(), s.last().id@) {
            let i = choose|i: int|
                0 <= i < s.drop_last().len() && (#[trigger] s.drop_last()[i]).id@ == s.last().id@;
            assert(s[i] == s.drop_last()[i]);
            assert(s[i].id@ == s[s.len() - 1].id@);
            assert(false);
        }
    }
}

/// Replacing the record at `i` by one with the same id updates the map at
/// that id alone.
pub proof fn lemma_map_of_update(s: Seq<MedicalTest>, i: int, t: MedicalTest)
    requires
        distinct_ids(s),
        0 <= i < s.len(),
        s[i].id@ == t.id@,
    ensures
        map_of(s.update(i, t)) == map_of(s).insert(t.id@, t),
    decreases s.len(),
{
    lemma_distinct_drop_last(s);
    let su = s.update(i, t);
    if i == s.len() - 1 {
        assert(su.drop_last() =~= s.drop_last());
        assert(su.last() == t);
        assert(map_of(su) == map_of(s.drop_last()).insert(t.id@, t));
        assert(map_of(s).insert(t.id@, t) =~= map_of(s.drop_last()).insert(t.id@, t));
    } else {
        assert(su.drop_last() =~= s.drop_last().update(i, t));
        assert(su.last() == s.last());
        assert(s.drop_last()[i] == s[i]);
        lemma_map_of_update(s.drop_last(), i, t);
        assert(s[i].id@ != s.last().id@);
        assert(map_of(su) == map_of(s.drop_last()).insert(t.id@, t).insert(s.last().id@, s.last()));
        assert(map_of(s.drop_last()).insert(t.id@, t).insert(s.last().id@, s.last()) =~= map_of(
            s.drop_last(),
        ).insert(s.last().id@, s.last()).insert(t.id@, t));
    }
}

/// Appending a record updates the map at its id.
pub proof fn lemma_map_of_push(s: Seq<MedicalTest>, t: MedicalTest)
    ensures
        map_of(s.push(t)) == map_of(s).insert(t.id@, t),
{
    assert(s.push(t).drop_last() =~= s);
    assert(s.push(t).last() == t);
}

/// Inserting a record with a fresh id, at any position, updates the map at
/// its id.
pub proof fn lemma_map_of_insert_at(s: Seq<MedicalTest>, i: int, t: MedicalTest)
    requires
        0 <= i <= s.len(),
        !has_id(s, t.id@),
    ensures
        map_of(s.insert(i, t)) == map_of(s).insert(t.id@, t),
    decreases s.len(),
{
    let si = s.insert(i, t);
    if i == s.len() {
        assert(si =~= s.push(t));
        lemma_map_of_push(s, t);
    } else {
        assert(si.drop_last() =~= s.drop_last().insert(i, t));
        assert(si.last() == s.last());
        if has_id(s.drop_last(), t.id@) {
            let j = choose|j: int|
                0 <= j < s.drop_last().len() && (#[trigger] s.drop_last()[j]).id@ == t.id@;
            assert(s[j] == s.drop_last()[j]);
            assert(false);
        }
        lemma_map_of_insert_at(s.drop_last(), i, t);
        assert(s[s.len() - 1] == s.last());
        assert(s.last().id@ != t.id@);
        assert(map_of(si) == map_of(s.drop_last()).insert(t.id@, t).insert(
            s.last().id@,
            s.last(),
        ));
        assert(map_of(s.drop_last()).insert(t.id@, t).insert(s.last().id@, s.last()) =~= map_of(
            s.drop_last(),
        ).insert(s.last().id@, s.last()).insert(t.id@, t));
    }
}

/// Removing the record at `i` removes its id from the map.
pub proof fn lemma_map_of_remove(s: Seq<MedicalTest>, i: int)
    requires
        distinct_ids(s),
        0 <= i < s.len(),
    ensures
        map_of(s.remove(i)) == map_of(s).remove(s[i].id@),
    decreases s.len(),
{
    lemma_distinct_drop_last(s);
    let sr = s.remove(i);
    if i == s.len() - 1 {
        assert(sr =~= s.drop_last());
        lemma_map_of_contains(s.drop_last(), s[i].id@);
        if has_id(s.drop_last(), s[i].id@) {
            let j = choose|j: int|
                0 <= j < s.drop_last().len() && (#[trigger] s.drop_last()[j]).id@ == s[i].id@;
            assert(s[j] == s.drop_last()[j]);
            assert(false);
        }
        assert(map_of(s).remove(s[i].id@) =~= map_of(s.drop_last()));
    } else {
        assert(sr.drop_last() =~= s.drop_last().remove(i));
        assert(sr.last() == s.last());
        assert(s.drop_last()[i] == s[i]);
        lemma_map_of_remove(s.drop_last(), i);
        assert(s[i].id@ != s.last().id@);
        assert(map_of(sr) == map_of(s.drop_last()).remove(s[i].id@).insert(s.last().id@, s.last()));
        assert(map_of(s.drop_last()).remove(s[i].id@).insert(s.last().id@, s.last()) =~= map_of(
            s.drop_last(),
        ).insert(s.last().id@, s.last()).remove(s[i].id@));
    }
}

/// Holds of the records whose `patient_id` reads `p`.
pub open spec fn by_patient(p: Seq<char>) -> spec_fn(MedicalTest) -> bool {
    |t: MedicalTest| t.patient_id@ == p
}

/// Holds of the records whose `doctor_id` reads `d`.
pub open spec fn by_doctor(d: Seq<char>) -> spec_fn(MedicalTest) -> bool {
    |t: MedicalTest| t.doctor_id@ == d
}

/// Holds of the records whose `status` reads `st`.
pub open spec fn by_status(st: Seq<char>) -> spec_fn(MedicalTest) -> bool {
    |t: MedicalTest| t.status@ == st
}

/// The in-memory record store: the authoritative set of records, keyed by id.
///
/// Its abstract value (`@`) is the map from id to record. The records are
/// held in ascending id order, so the filtered queries answer in that order:
/// the key order of the map, deterministic for a given store state.
pub struct TestStore {
    records: Vec<MedicalTest>,
}

impl View for TestStore {
    type V = Map<Seq<char>, MedicalTest>;

    open spec fn view(&self) -> Map<Seq<char>, MedicalTest> {
        map_of(self.order())
    }
}

impl TestStore {
    /// The stored records, in storage order.
    pub closed spec fn order(&self) -> Seq<MedicalTest> {
        self.records@
    }

    /// Well-formed: the records stand in ascending id order, so the id
    /// uniquely determines a record.
    pub open spec fn wf(&self) -> bool {
        sorted_ids(self.order()) && distinct_ids(self.order())
    }

    /// An empty store.
    pub fn new() -> (s: TestStore)
        ensures
            s.wf(),
            s@ == Map::<Seq<char>, MedicalTest>::empty(),
            s.order().len() == 0,
    {
        TestStore { records: Vec::new() }
    }

    /// Position of the record with the given id, if any.
    fn find_index(&self, id: &String) -> (r: Option<usize>)
        ensures
            match r {
                Some(i) => i < self.order().len() && self.order()[i as int].id@ == id@,
                None => !has_id(self.order(), id@),
            },
    {
        let n = self.records.len();
        let mut i: usize = 0;
        while i < n
            invariant
                n == self.records.len(),
                i <= n,
                forall|j: int| 0 <= j < i ==> (#[trigger] self.records@[j]).id@ != id@,
            decreases n - i,
        {
            if self.records[i].id.eq(id) {
                return Some(i);
            }
            i += 1;
        }
        None
    }

    /// First position whose record id does not order before `id`.
    fn insertion_point(&self, id: &String) -> (pos: usize)
        ensures
            pos <= self.order().len(),
            forall|j: int| 0 <= j < pos ==> id_lt((#[trigger] self.order()[j]).id@, id@),
            pos < self.order().len() ==> !id_lt(self.order()[pos as int].id@, id@),
    {
        let n = self.records.len();
        let mut pos: usize = 0;
        while pos < n
            invariant
                n == self.records.len(),
                pos <= n,
                forall|j: int| 0 <= j < pos ==> id_lt((#[trigger] self.records@[j]).id@, id@),
            decreases n - pos,
        {
            if !id_less(&self.records[pos].id, id) {
                return pos;
            }
            pos += 1;
        }
        n
    }

    /// Inserts `test` under its own id, overwriting any record already held
    /// under that id, and returns the id. A colliding id is not an error.
    pub fn create_test(&mut self, test: MedicalTest) -> (id: String)
        requires
            old(self).wf(),
        ensures
            final(self).wf(),
            id == test.id,
            final(self)@ == old(self)@.insert(test.id@, test),
    {
        let id = test.id.clone();
        let ghost t = test;
        let ghost s0 = self.records@;
        let pos = self.insertion_point(&id);
        if pos < self.records.len() && self.records[pos].id.eq(&id) {
            self.records.set(pos, test);
            proof {
                lemma_map_of_update(s0, pos as int, t);
                assert forall|a: int, b: int| 0 <= a < b < self.records@.len() implies id_lt(
                    (#[trigger] self.records@[a]).id@,
                    (#[trigger] self.records@[b]).id@,
                ) by {
                    assert(self.records@[a].id@ == s0[a].id@);
                    assert(self.records@[b].id@ == s0[b].id@);
                    assert(id_lt(s0[a].id@, s0[b].id@));
                }
                lemma_sorted_distinct(self.records@);
            }
        } else {
            proof {
                assert forall|j: int| 0 <= j < s0.len() implies (#[trigger] s0[j]).id@ != t.id@
                    && (j >= pos ==> id_lt(t.id@, s0[j].id@)) by {
                    if j < pos {
                        lemma_id_lt_irrefl(s0[j].id@);
                    } else {
                        lemma_id_lt_connex(t.id@, s0[pos as int].id@);
                        lemma_id_lt_irrefl(t.id@);
                        if j > pos {
                            lemma_id_lt_trans(t.id@, s0[pos as int].id@, s0[j].id@);
                        }
                        lemma_id_lt_irrefl(s0[j].id@);
                    }
                }
            }
            self.records.insert(pos, test);
            proof {
                lemma_map_of_insert_at(s0, pos as int, t);
                assert forall|a: int, b: int| 0 <= a < b < self.records@.len() implies id_lt(
                    (#[trigger] self.records@[a]).id@,
                    (#[trigger] self.records@[b]).id@,
                ) by {
                    if a < pos {
                        assert(self.records@[a] == s0[a]);
                    } else if a == pos {
                        assert(self.records@[a] == t);
                    } else {
                        assert(self.records@[a] == s0[a - 1]);
                    }
                    if b < pos {
                        assert(self.records@[b] == s0[b]);
                    } else if b == pos {
                        assert(self.records@[b] == t);
                    } else {
                        assert(self.records@[b] == s0[b - 1]);
                    }
                }
                lemma_sorted_distinct(self.records@);
            }
        }
        id
    }

    /// A copy of the record with the given id, or nothing if the id is
    /// absent. Absence is not an error.
    pub fn get_test(&self, id: String) -> (r: Option<MedicalTest>)
        requires
            self.wf(),
        ensures
            match r {
                Some(t) => self@.contains_key(id@) && t == self@[id@],
                None => !self@.contains_key(id@),
            },
    {
        proof {
            lemma_map_of_contains(self.records@, id@);
        }
        match self.find_index(&id) {
            Some(i) => {
                proof {
                    lemma_map_of_index(self.records@, i as int);
                }
                Some(self.records[i].clone())
            },
            None => None,
        }
    }

    /// Replaces the record whose id is `test.id` entirely by `test` and
    /// returns true; when no record carries that id, leaves the store
    /// unchanged and returns false.
    pub fn update_test(&mut self, test: MedicalTest) -> (r: bool)
        requires
            old(self).wf(),
        ensures
            final(self).wf(),
            r == old(self)@.contains_key(test.id@),
            r ==> final(self)@ == old(self)@.insert(test.id@, test),
            !r ==> *final(self) == *old(self),
    {
        let ghost t = test;
        let ghost s0 = self.records@;
        proof {
            lemma_map_of_contains(s0, t.id@);
        }
        match self.find_index(&test.id) {
            Some(i) => {
                proof {
                    lemma_map_of_index(s0, i as int);
                }
                self.records.set(i, test);
                proof {
                    lemma_map_of_update(s0, i as int, t);
                    assert forall|a: int, b: int| 0 <= a < b < self.records@.len() implies id_lt(
                        (#[trigger] self.records@[a]).id@,
                        (#[trigger] self.records@[b]).id@,
                    ) by {
                        assert(self.records@[a].id@ == s0[a].id@);
                        assert(self.records@[b].id@ == s0[b].id@);
                        assert(id_lt(s0[a].id@, s0[b].id@));
                    }
                    lemma_sorted_distinct(self.records@);
                }
                true
            },
            None => false,
        }
    }

    /// Removes the record with the given id and returns true; when no record
    /// carries that id, leaves the store unchanged and returns false.
    pub fn delete_test(&mut self, id: String) -> (r: bool)
        requires
            old(self).wf(),
        ensures
            final(self).wf(),
            r == old(self)@.contains_key(id@),
            r ==> final(self)@ == old(self)@.remove(id@),
            !r ==> *final(self) == *old(self),
    {
        let ghost s0 = self.records@;
        proof {
            lemma_map_of_contains(s0, id@);
        }
        match self.find_index(&id) {
            Some(i) => {
                proof {
                    lemma_map_of_index(s0, i as int);
                }
                self.records.remove(i);
                proof {
                    lemma_map_of_remove(s0, i as int);
                    assert forall|a: int, b: int| 0 <= a < b < self.records@.len() implies id_lt(
                        (#[trigger] self.records@[a]).id@,
                        (#[trigger] self.records@[b]).id@,
                    ) by {
                        let a0: int = if a < i { a } else { a + 1 };
                        let b0: int = if b < i { b } else { b + 1 };
                        assert(self.records@[a] == s0[a0]);
                        assert(self.records@[b] == s0[b0]);
                        assert(id_lt(s0[a0].id@, s0[b0].id@));
                    }
                    lemma_sorted_distinct(self.records@);
                }
                true
            },
            None => false,
        }
    }

    /// Copies of all records whose `patient_id` equals the argument, in
    /// ascending id order; empty when none match.
    pub fn get_tests_by_patient(&self, patient_id: String) -> (r: Vec<MedicalTest>)
        requires
            self.wf(),
        ensures
            r@ == self.order().filter(by_patient(patient_id@)),
            forall|a: int|
                0 <= a < r@.len() ==> (#[trigger] r@[a]).patient_id@ == patient_id@
                    && self@.contains_key(r@[a].id@) && self@[r@[a].id@] == r@[a],
            forall|k: Seq<char>|
                self@.contains_key(k) && (#[trigger] self@[k]).patient_id@ == patient_id@
                    ==> r@.contains(self@[k]),
            forall|a: int, b: int|
                0 <= a < b < r@.len() ==> (#[trigger] r@[a]).id@ != (#[trigger] r@[b]).id@,
            forall|a: int, b: int|
                0 <= a < b < r@.len() ==> id_lt((#[trigger] r@[a]).id@, (#[trigger] r@[b]).id@),
    {
        let n = self.records.len();
        let mut out: Vec<MedicalTest> = Vec::new();
        let mut i: usize = 0;
        while i < n
            invariant
                self.wf(),
                n == self.records.len(),
                i <= n,
                out@ == self.records@.subrange(0, i as int).filter(by_patient(patient_id@)),
                forall|a: int|
                    0 <= a < out@.len() ==> (#[trigger] out@[a]).patient_id@ == patient_id@,
                forall|a: int|
                    0 <= a < out@.len() ==> exists|b: int|
                        0 <= b < i && #[trigger] out@[a] == self.records@[b],
                forall|a: int, b: int|
                    0 <= a < b < out@.len() ==> id_lt((#[trigger] out@[a]).id@, (
                    #[trigger] out@[b]).id@),
            decreases n - i,
        {
            let ghost pre_out = out@;
            let matched = self.records[i].patient_id.eq(&patient_id);
            if matched {
                out.push(self.records[i].clone());
            }
            proof {
                let s = self.records@;
                let pred = by_patient(patient_id@);
                let pre = s.subrange(0, i as int);
                let cur = s.subrange(0, i as int + 1);
                assert(cur.drop_last() =~= pre);
                assert(cur.last() == s[i as int]);
                reveal(Seq::filter);
                if matched {
                    assert(out@ == pre_out.push(s[i as int]));
                    assert forall|a: int| 0 <= a < out@.len() implies exists|b: int|
                        0 <= b < i + 1 && #[trigger] out@[a] == s[b] by {
                        if a < pre_out.len() {
                            let b = choose|b: int| 0 <= b < i && #[trigger] pre_out[a] == s[b];
                            assert(out@[a] == s[b]);
                        } else {
                            assert(out@[a] == s[i as int]);
                        }
                    }
                    assert forall|a: int, b: int| 0 <= a < b < out@.len() implies id_lt(
                        (#[trigger] out@[a]).id@,
                        (#[trigger] out@[b]).id@,
                    ) by {
                        if b == pre_out.len() {
                            let c = choose|c: int| 0 <= c < i && #[trigger] pre_out[a] == s[c];
                            assert(out@[a] == s[c]);
                            assert(out@[b] == s[i as int]);
                            assert(id_lt(s[c].id@, s[i as int].id@));
                        }
                    }
                }
            }
            i += 1;
        }
        proof {
            let s = self.records@;
            assert(s.subrange(0, n as int) =~= s);
            lemma_sorted_distinct(out@);
            assert forall|k: Seq<char>|
                self@.contains_key(k) && (#[trigger] self@[k]).patient_id@ == patient_id@ implies out@.contains(
                self@[k],
            ) by {
                lemma_map_of_contains(s, k);
                let j = choose|j: int| 0 <= j < s.len() && (#[trigger] s[j]).id@ == k;
                lemma_map_of_index(s, j);
                s.lemma_filter_contains(by_patient(patient_id@), j);
            }
            assert forall|a: int| 0 <= a < out@.len() implies self@.contains_key(
                (#[trigger] out@[a]).id@,
            ) && self@[out@[a].id@] == out@[a] by {
                let b = choose|b: int| 0 <= b < n && #[trigger] out@[a] == s[b];
                lemma_map_of_index(s, b);
            }
        }
        out
    }

    /// Copies of all records whose `doctor_id` equals the argument, in
    /// ascending id order; empty when none match.
    pub fn get_tests_by_doctor(&self, doctor_id: String) -> (r: Vec<MedicalTest>)
        requires
            self.wf(),
        ensures
            r@ == self.order().filter(by_doctor(doctor_id@)),
            forall|a: int|
                0 <= a < r@.len() ==> (#[trigger] r@[a]).doctor_id@ == doctor_id@
                    && self@.contains_key(r@[a].id@) && self@[r@[a].id@] == r@[a],
            forall|k: Seq<char>|
                self@.contains_key(k) && (#[trigger] self@[k]).doctor_id@ == doctor_id@
                    ==> r@.contains(self@[k]),
            forall|a: int, b: int|
                0 <= a < b < r@.len() ==> (#[trigger] r@[a]).id@ != (#[trigger] r@[b]).id@,
            forall|a: int, b: int|
                0 <= a < b < r@.len() ==> id_lt((#[trigger] r@[a]).id@, (#[trigger] r@[b]).id@),
    {
        let n = self.records.len();
        let mut out: Vec<MedicalTest> = Vec::new();
        let mut i: usize = 0;
        while i < n
            invariant
                self.wf(),
                n == self.records.len(),
                i <= n,
                out@ == self.records@.subrange(0, i as int).filter(by_doctor(doctor_id@)),
                forall|a: int|
                    0 <= a < out@.len() ==> (#[trigger] out@[a]).doctor_id@ == doctor_id@,
                forall|a: int|
                    0 <= a < out@.len() ==> exists|b: int|
                        0 <= b < i && #[trigger] out@[a] == self.records@[b],
                forall|a: int, b: int|
                    0 <= a < b < out@.len() ==> id_lt((#[trigger] out@[a]).id@, (
                    #[trigger] out@[b]).id@),
            decreases n - i,
        {
            let ghost pre_out = out@;
            let matched = self.records[i].doctor_id.eq(&doctor_id);
            if matched {
                out.push(self.records[i].clone());
            }
            proof {
                let s = self.records@;
                let pred = by_doctor(doctor_id@);
                let pre = s.subrange(0, i as int);
                let cur = s.subrange(0, i as int + 1);
                assert(cur.drop_last() =~= pre);
                assert(cur.last() == s[i as int]);
                reveal(Seq::filter);
                if matched {
                    assert(out@ == pre_out.push(s[i as int]));
                    assert forall|a: int| 0 <= a < out@.len() implies exists|b: int|
                        0 <= b < i + 1 && #[trigger] out@[a] == s[b] by {
                        if a < pre_out.len() {
                            let b = choose|b: int| 0 <= b < i && #[trigger] pre_out[a] == s[b];
                            assert(out@[a] == s[b]);
                        } else {
                            assert(out@[a] == s[i as int]);
                        }
                    }
                    assert forall|a: int, b: int| 0 <= a < b < out@.len() implies id_lt(
                        (#[trigger] out@[a]).id@,
                        (#[trigger] out@[b]).id@,
                    ) by {
                        if b == pre_out.len() {
                            let c = choose|c: int| 0 <= c < i && #[trigger] pre_out[a] == s[c];
                            assert(out@[a] == s[c]);
                            assert(out@[b] == s[i as int]);
                            assert(id_lt(s[c].id@, s[i as int].id@));
                        }
                    }
                }
            }
            i += 1;
        }
        proof {
            let s = self.records@;
            assert(s.subrange(0, n as int) =~= s);
            lemma_sorted_distinct(out@);
            assert forall|k: Seq<char>|
                self@.contains_key(k) && (#[trigger] self@[k]).doctor_id@ == doctor_id@ implies out@.contains(
                self@[k],
            ) by {
                lemma_map_of_contains(s, k);
                let j = choose|j: int| 0 <= j < s.len() && (#[trigger] s[j]).id@ == k;
                lemma_map_of_index(s, j);
                s.lemma_filter_contains(by_doctor(doctor_id@), j);
            }
            assert forall|a: int| 0 <= a < out@.len() implies self@.contains_key(
                (#[trigger] out@[a]).id@,
            ) && self@[out@[a].id@] == out@[a] by {
                let b = choose|b: int| 0 <= b < n && #[trigger] out@[a] == s[b];
                lemma_map_of_index(s, b);
            }
        }
        out
    }

    /// Copies of all records whose `status` equals the argument, in
    /// ascending id order; empty when none match.
    pub fn get_tests_by_status(&self, status: String) -> (r: Vec<MedicalTest>)
        requires
            self.wf(),
        ensures
            r@ == self.order().filter(by_status(status@)),
            forall|a: int|
                0 <= a < r@.len() ==> (#[trigger] r@[a]).status@ == status@
                    && self@.contains_key(r@[a].id@) && self@[r@[a].id@] == r@[a],
            forall|k: Seq<char>|
                self@.contains_key(k) && (#[trigger] self@[k]).status@ == status@
                    ==> r@.contains(self@[k]),
            forall|a: int, b: int|
                0 <= a < b < r@.len() ==> (#[trigger] r@[a]).id@ != (#[trigger] r@[b]).id@,
            forall|a: int, b: int|
                0 <= a < b < r@.len() ==> id_lt((#[trigger] r@[a]).id@, (#[trigger] r@[b]).id@),
    {
        let n = self.records.len();
        let mut out: Vec<MedicalTest> = Vec::new();
        let mut i: usize = 0;
        while i < n
            invariant
                self.wf(),
                n == self.records.len(),
                i <= n,
                out@ == self.records@.subrange(0, i as int).filter(by_status(status@)),
                forall|a: int|
                    0 <= a < out@.len() ==> (#[trigger] out@[a]).status@ == status@,
                forall|a: int|
                    0 <= a < out@.len() ==> exists|b: int|
                        0 <= b < i && #[trigger] out@[a] == self.records@[b],
                forall|a: int, b: int|
                    0 <= a < b < out@.len() ==> id_lt((#[trigger] out@[a]).id@, (
                    #[trigger] out@[b]).id@),
            decreases n - i,
        {
            let ghost pre_out = out@;
            let matched = self.records[i].status.eq(&status);
            if matched {
                out.push(self.records[i].clone());
            }
            proof {
                let s = self.records@;
                let pred = by_status(status@);
                let pre = s.subrange(0, i as int);
                let cur = s.subrange(0, i as int + 1);
                assert(cur.drop_last() =~= pre);
                assert(cur.last() == s[i as int]);
                reveal(Seq::filter);
                if matched {
                    assert(out@ == pre_out.push(s[i as int]));
                    assert forall|a: int| 0 <= a < out@.len() implies exists|b: int|
                        0 <= b < i + 1 && #[trigger] out@[a] == s[b] by {
                        if a < pre_out.len() {
                            let b = choose|b: int| 0 <= b < i && #[trigger] pre_out[a] == s[b];
                            assert(out@[a] == s[b]);
                        } else {
                            assert(out@[a] == s[i as int]);
                        }
                    }
                    assert forall|a: int, b: int| 0 <= a < b < out@.len() implies id_lt(
                        (#[trigger] out@[a]).id@,
                        (#[trigger] out@[b]).id@,
                    ) by {
                        if b == pre_out.len() {
                            let c = choose|c: int| 0 <= c < i && #[trigger] pre_out[a] == s[c];
                            assert(out@[a] == s[c]);
                            assert(out@[b] == s[i as int]);
                            assert(id_lt(s[c].id@, s[i as int].id@));
                        }
                    }
                }
            }
            i += 1;
        }
        proof {
            let s = self.records@;
            assert(s.subrange(0, n as int) =~= s);
            lemma_sorted_distinct(out@);
            assert forall|k: Seq<char>|
                self@.contains_key(k) && (#[trigger] self@[k]).status@ == status@ implies out@.contains(
                self@[k],
            ) by {
                lemma_map_of_contains(s, k);
                let j = choose|j: int| 0 <= j < s.len() && (#[trigger] s[j]).id@ == k;
                lemma_map_of_index(s, j);
                s.lemma_filter_contains(by_status(status@), j);
            }
            assert forall|a: int| 0 <= a < out@.len() implies self@.contains_key(
                (#[trigger] out@[a]).id@,
            ) && self@[out@[a].id@] == out@[a] by {
                let b = choose|b: int| 0 <= b < n && #[trigger] out@[a] == s[b];
                lemma_map_of_index(s, b);
            }
        }
        out
    }

    /// How many records the store holds.
    pub fn len(&self) -> (n: usize)
        requires
            self.wf(),
        ensures
            n == self@.len(),
    {
        proof {
            lemma_map_of_len(self.records@);
        }
        self.records.len()
    }
}

} // verus!
