use vstd::prelude::*;

verus! {

use crate::record::MedicalTest;

/// Creating a record with a fresh id and then asking for that id finds the
/// record: after `create_test(r)` the store's map holds exactly `r` under
/// `r.id`, so `get_test(r.id)` answers a copy of `r`.
pub proof fn lemma_create_then_get(m: Map<Seq<char>, MedicalTest>, r: MedicalTest)
    requires
        !m.contains_key(r.id@),
    ensures
        m.insert(r.id@, r).contains_key(r.id@),
        m.insert(r.id@, r)[r.id@] == r,
{
}

/// Creating is idempotent-overwriting: creating `r` and then `r2` under the
/// same id leaves the store exactly as a single create of `r2` would have,
/// with `r2` (not `r`) as the one record under that id.
pub proof fn lemma_create_overwrites(
    m: Map<Seq<char>, MedicalTest>,
    r: MedicalTest,
    r2: MedicalTest,
)
    requires
        r2.id@ == r.id@,
    ensures
        m.insert(r.id@, r).insert(r2.id@, r2) == m.insert(r2.id@, r2),
        m.insert(r.id@, r).insert(r2.id@, r2)[r.id@] == r2,
{
    assert(m.insert(r.id@, r).insert(r2.id@, r2) =~= m.insert(r2.id@, r2));
}

/// A successful update is a full replacement: after `update_test(r)` found
/// `r.id` present, the record stored under `r.id` is `r` itself, every field
/// of it, and no other id is touched.
pub proof fn lemma_update_replaces(m: Map<Seq<char>, MedicalTest>, r: MedicalTest)
    requires
        m.contains_key(r.id@),
    ensures
        m.insert(r.id@, r)[r.id@] == r,
        forall|k: Seq<char>|
            k != r.id@ ==> (m.insert(r.id@, r).contains_key(k) <==> m.contains_key(k)),
        forall|k: Seq<char>|
            k != r.id@ && m.contains_key(k) ==> m.insert(r.id@, r)[k] == m[k],
{
}

/// Deleting succeeds exactly once per record: after `delete_test(id)`
/// removed the record, the id is no longer present, so a repeated delete
/// returns false and a lookup finds nothing.
pub proof fn lemma_delete_once(m: Map<Seq<char>, MedicalTest>, id: Seq<char>)
    requires
        m.contains_key(id),
    ensures
        !m.remove(id).contains_key(id),
{
}

} // verus!
