pub mod ids;
pub mod laws;
pub mod record;
pub mod store;

pub use record::MedicalTest;
pub use store::TestStore;
