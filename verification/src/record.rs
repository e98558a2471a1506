use vstd::prelude::*;

verus! {

/// A single medical-test entry. `id` uniquely identifies the record and acts
/// as the store key; `patient_id`, `doctor_id` and `status` are the secondary
/// filter keys. The store validates none of the fields: dates, timestamps and
/// the status vocabulary are the caller's business.
pub struct MedicalTest {
    pub id: String,
    pub patient_id: String,
    pub doctor_id: String,
    pub name: String,
    pub date: String,
    pub result: Option<String>,
    pub status: String,
    pub recommendations: Option<String>,
    pub created_at: u64,
    pub updated_at: u64,
}

/// Copies an optional string; the copy equals the original.
fn clone_opt(o: &Option<String>) -> (res: Option<String>)
    ensures
        res == *o,
{
    match o {
        Some(s) => Some(s.clone()),
        None => None,
    }
}

impl Clone for MedicalTest {
    /// The copy equals the original field for field.
    fn clone(&self) -> (res: Self)
        ensures
            res == *self,
    {
        MedicalTest {
            id: self.id.clone(),
            patient_id: self.patient_id.clone(),
            doctor_id: self.doctor_id.clone(),
            name: self.name.clone(),
            date: self.date.clone(),
            result: clone_opt(&self.result),
            status: self.status.clone(),
            recommendations: clone_opt(&self.recommendations),
            created_at: self.created_at,
            updated_at: self.updated_at,
        }
    }
}

} // verus!
