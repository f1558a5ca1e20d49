use vstd::prelude::*;

verus! {

#[derive(Clone, Copy, Debug, PartialEq, Eq, Structural)]
pub enum Gender {
    Male,
    Female,
}

/// A dog as the pedigree view shows it: values of one record's fields.
#[derive(Debug)]
pub struct DogModel {
    pub id: String,
    pub avatar_src: String,
    pub name: String,
    pub count_of_trophys: u32,
    pub gender: Gender,
    pub papa_id: Option<String>,
    pub mama_id: Option<String>,
    pub country_src: String,
    pub loaded_parents: Vec<DogModel>,
    pub shown_parents: bool,
}

impl DogModel {
    /// Index of the field that holds a dog's name.
    pub fn name_field_idx() -> (i: u32)
        ensures
            i == 5,
    {
        5
    }
}

} // verus!
