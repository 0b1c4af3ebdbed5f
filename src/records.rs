//! Plain records shared with the voting side of the project.
use vstd::prelude::*;

verus! {

/// A voter as listed in mock data: secret key, public key coordinates and
/// address, each in decimal.
#[derive(Clone, Debug)]
pub struct User {
    pub sk: String,
    pub pk: Vec<String>,
    pub addr: String,
}

/// A participant known by a numeric name.
pub struct Person {
    pub name: usize,
}

/// Something that can introduce itself.
#[allow(non_camel_case_types)]
pub trait intro {
    fn intro();
}

impl intro for Person {
    fn intro() {
    }
}

} // verus!
