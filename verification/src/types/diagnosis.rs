//! Diagnoses and the numbers they are stored under.

use vstd::prelude::*;
use crate::error::Error;
use crate::types::names::{clean, cleaned, matches_name, same_name};

verus! {

#[derive(Debug, Clone, Copy, PartialEq, Eq, Structural)]
pub enum Diagnosis {
    Unknown,
    HL,
    DLBCL,
    CLL,
    FL,
    MCL,
    LTDS,
}

impl Diagnosis {
    /// The name under which the member is written.
    pub open spec fn name(self) -> Seq<char> {
        match self {
            Diagnosis::Unknown => "Unknown"@,
            Diagnosis::HL => "HL"@,
            Diagnosis::DLBCL => "DLBCL"@,
            Diagnosis::CLL => "CLL"@,
            Diagnosis::FL => "FL"@,
            Diagnosis::MCL => "MCL"@,
            Diagnosis::LTDS => "LTDS"@,
        }
    }

    /// The number under which the member is stored.
    pub open spec fn number(self) -> u8 {
        match self {
            Diagnosis::Unknown => 0u8,
            Diagnosis::HL => 1u8,
            Diagnosis::DLBCL => 2u8,
            Diagnosis::CLL => 3u8,
            Diagnosis::FL => 4u8,
            Diagnosis::MCL => 5u8,
            Diagnosis::LTDS => 6u8,
        }
    }

    /// The member stored under `v`; a number that no member has is unknown.
    pub open spec fn by_number(v: u8) -> Result<Diagnosis, Error> {
        match v {
            0u8 => Ok(Diagnosis::Unknown),
            1u8 => Ok(Diagnosis::HL),
            2u8 => Ok(Diagnosis::DLBCL),
            3u8 => Ok(Diagnosis::CLL),
            4u8 => Ok(Diagnosis::FL),
            5u8 => Ok(Diagnosis::MCL),
            6u8 => Ok(Diagnosis::LTDS),
            _ => Err(Error::UnknownCode),
        }
    }

    /// Every member, in declaration order.
    pub open spec fn all() -> Seq<Diagnosis> {
        seq![
            Diagnosis::Unknown,
            Diagnosis::HL,
            Diagnosis::DLBCL,
            Diagnosis::CLL,
            Diagnosis::FL,
            Diagnosis::MCL,
            Diagnosis::LTDS,
        ]
    }

    pub fn label(&self) -> (r: &'static str)
        ensures
            r@ == self.name(),
    {
        match self {
            Diagnosis::Unknown => "Unknown",
            Diagnosis::HL => "HL",
            Diagnosis::DLBCL => "DLBCL",
            Diagnosis::CLL => "CLL",
            Diagnosis::FL => "FL",
            Diagnosis::MCL => "MCL",
            Diagnosis::LTDS => "LTDS",
        }
    }

    pub fn code(&self) -> (r: u8)
        ensures
            r == self.number(),
    {
        match self {
            Diagnosis::Unknown => 0,
            Diagnosis::HL => 1,
            Diagnosis::DLBCL => 2,
            Diagnosis::CLL => 3,
            Diagnosis::FL => 4,
            Diagnosis::MCL => 5,
            Diagnosis::LTDS => 6,
        }
    }

    pub fn list() -> (r: Vec<Diagnosis>)
        ensures
            r@ == Self::all(),
    {
        let r = vec![
            Diagnosis::Unknown,
            Diagnosis::HL,
            Diagnosis::DLBCL,
            Diagnosis::CLL,
            Diagnosis::FL,
            Diagnosis::MCL,
            Diagnosis::LTDS,
        ];
        proof {
            assert(r@ =~= Self::all());
        }
        r
    }

    pub fn to_string(&self) -> (r: String)
        ensures
            r@ == self.name(),
    {
        String::from_str(self.label())
    }

    /// Reads a name leniently: spaces and underscores are dropped and ASCII letter
    /// case is ignored. The result is the first member, in declaration order,
    /// whose name then matches; without one the name is unknown.
    pub fn from(s: &str) -> (r: Result<Diagnosis, Error>)
        ensures
            match r {
                Ok(v) => exists|i: int|
                    0 <= i < Self::all().len() && Self::all()[i] == v && same_name(
                        cleaned(s@, false),
                        v.name(),
                    ) && forall|j: int|
                        0 <= j < i ==> !same_name(cleaned(s@, false), #[trigger] Self::all()[j].name()),
                Err(e) => e == Error::UnknownName && forall|j: int|
                    0 <= j < Self::all().len() ==> !same_name(
                        cleaned(s@, false),
                        #[trigger] Self::all()[j].name(),
                    ),
            },
    {
        let name = clean(s, false);
        let all = Self::list();
        let mut i: usize = 0;
        while i < all.len()
            invariant
                i <= all.len(),
                all@ == Self::all(),
                name@ == cleaned(s@, false),
                forall|j: int| 0 <= j < i ==> !same_name(name@, #[trigger] Self::all()[j].name()),
            decreases all.len() - i,
        {
            let v = all[i];
            if matches_name(&name, v.label()) {
                return Ok(v);
            }
            i += 1;
        }
        Err(Error::UnknownName)
    }

    pub fn new(s: &str) -> (r: Result<Diagnosis, Error>)
        ensures
            match r {
                Ok(v) => exists|i: int|
                    0 <= i < Self::all().len() && Self::all()[i] == v && same_name(
                        cleaned(s@, false),
                        v.name(),
                    ) && forall|j: int|
                        0 <= j < i ==> !same_name(cleaned(s@, false), #[trigger] Self::all()[j].name()),
                Err(e) => e == Error::UnknownName && forall|j: int|
                    0 <= j < Self::all().len() ==> !same_name(
                        cleaned(s@, false),
                        #[trigger] Self::all()[j].name(),
                    ),
            },
    {
        Diagnosis::from(s)
    }

    /// The member stored under `v`; a number that no member has is unknown.
    pub fn from_int(v: u8) -> (r: Result<Diagnosis, Error>)
        ensures
            r == Self::by_number(v),
            match r {
                Ok(d) => d.number() == v,
                Err(e) => e == Error::UnknownCode && forall|d: Diagnosis| d.number() != v,
            },
            forall|d: Diagnosis| d.number() == v ==> r == Ok::<Diagnosis, Error>(d),
    {
        match v {
            0 => Ok(Diagnosis::Unknown),
            1 => Ok(Diagnosis::HL),
            2 => Ok(Diagnosis::DLBCL),
            3 => Ok(Diagnosis::CLL),
            4 => Ok(Diagnosis::FL),
            5 => Ok(Diagnosis::MCL),
            6 => Ok(Diagnosis::LTDS),
            _ => Err(Error::UnknownCode),
        }
    }

    /// The table of names and numbers, one entry for each member in
    /// declaration order.
    pub fn to_hash_map() -> (r: Vec<(String, u8)>)
        ensures
            r@.len() == Self::all().len(),
            forall|i: int|
                0 <= i < r@.len() ==> (#[trigger] r@[i]).0@ == Self::all()[i].name() && r@[i].1
                    == Self::all()[i].number(),
    {
        let all = Self::list();
        let mut r: Vec<(String, u8)> = Vec::new();
        let mut i: usize = 0;
        while i < all.len()
            invariant
                i <= all.len(),
                all@ == Self::all(),
                r@.len() == i,
                forall|j: int|
                    0 <= j < i ==> (#[trigger] r@[j]).0@ == Self::all()[j].name() && r@[j].1
                        == Self::all()[j].number(),
            decreases all.len() - i,
        {
            let v = all[i];
            r.push((v.to_string(), v.code()));
            i += 1;
        }
        r
    }
}

impl TryFrom<u8> for Diagnosis {
    type Error = Error;

    fn try_from(value: u8) -> (r: Result<Diagnosis, Error>) {
        Diagnosis::from_int(value)
    }
}

impl vstd::std_specs::convert::TryFromSpecImpl<u8> for Diagnosis {
    open spec fn obeys_try_from_spec() -> bool {
        true
    }

    open spec fn try_from_spec(v: u8) -> Result<Diagnosis, Error> {
        Diagnosis::by_number(v)
    }
}

/// Every member is read back from its own number.
pub proof fn lemma_diagnosis_round_trip(d: Diagnosis)
    ensures
        Diagnosis::by_number(d.number()) == Ok::<Diagnosis, Error>(d),
{
}

} // verus!
