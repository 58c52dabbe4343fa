use vstd::prelude::*;

verus! {

/// Whether a body enters a sibling's sphere of influence or leaves its
/// parent's.
#[derive(Clone, Copy, Debug, PartialEq, Eq, Structural)]
pub enum EncounterType {
    Entrance,
    Exit,
}

/// One scheduled change of parent: `object` moves under `new_parent` at
/// `time`.
#[derive(Clone, Debug)]
pub struct Encounter<T> {
    pub encounter_type: EncounterType,
    pub object: String,
    pub new_parent: String,
    pub time: T,
}

impl<T: Copy> Encounter<T> {
    pub fn new_entrance(object: String, new_parent: String, time: T) -> (r: Self)
        ensures
            r.encounter_type == EncounterType::Entrance,
            r.object@ == object@,
            r.new_parent@ == new_parent@,
            r.time == time,
    {
        Encounter { encounter_type: EncounterType::Entrance, object, new_parent, time }
    }

    pub fn new_exit(object: String, new_parent: String, time: T) -> (r: Self)
        ensures
            r.encounter_type == EncounterType::Exit,
            r.object@ == object@,
            r.new_parent@ == new_parent@,
            r.time == time,
    {
        Encounter { encounter_type: EncounterType::Exit, object, new_parent, time }
    }

    pub fn get_encounter_type(&self) -> (r: EncounterType)
        ensures
            r == self.encounter_type,
    {
        self.encounter_type
    }

    pub fn get_object(&self) -> (r: String)
        ensures
            r@ == self.object@,
    {
        self.object.clone()
    }

    pub fn get_new_parent(&self) -> (r: String)
        ensures
            r@ == self.new_parent@,
    {
        self.new_parent.clone()
    }

    pub fn get_time(&self) -> (r: T)
        ensures
            r == self.time,
    {
        self.time
    }
}

} // verus!
