//! Plans the registration of a composite record type in a structural type
//! catalog: every constituent type is registered before the types that use
//! it, each distinct shape once, and the record last, with its fields in
//! declaration order.
pub mod descriptor;
pub mod walker;
pub mod plan;
pub mod synthesis;
pub mod overrides;
pub mod registrar;
pub mod binding;
