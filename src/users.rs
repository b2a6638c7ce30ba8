use vstd::prelude::*;

verus! {

/// The profile of the signed-in user.
pub struct UserProfile {
    pub display_name: String,
    pub email_address: String,
    pub id: String,
}

} // verus!
