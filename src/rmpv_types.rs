use vstd::prelude::*;

verus! {

/// rmpv's dynamic value, carried through the codec wrappers only.
#[verifier::external_type_specification]
#[verifier::external_body]
pub struct ExRmpvValue(rmpv::Value);

} // verus!
