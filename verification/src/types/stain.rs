//! Stains and the numbers they are stored under.

use vstd::prelude::*;
use crate::error::Error;
use crate::types::names::{clean, cleaned, matches_name, same_name};

verus! {

#[derive(Debug, Clone, Copy, PartialEq, Eq, Structural)]
pub enum Stain {
    Unknown,
    HE,
    CD3,
    CD20,
    CD30,
    CD68,
}

impl Stain {
    /// The name under which the member is written.
    pub open spec fn name(self) -> Seq<char> {
        match self {
            Stain::Unknown => "Unknown"@,
            Stain::HE => "HE"@,
            Stain::CD3 => "CD3"@,
            Stain::CD20 => "CD20"@,
            Stain::CD30 => "CD30"@,
            Stain::CD68 => "CD68"@,
        }
    }

    /// The number under which the member is stored.
    pub open spec fn number(self) -> u8 {
        match self {
            Stain::Unknown => 0u8,
            Stain::HE => 1u8,
            Stain::CD3 => 3u8,
            Stain::CD20 => 20u8,
            Stain::CD30 => 30u8,
            Stain::CD68 => 68u8,
        }
    }

    /// The member stored under `v`; a number that no member has is unknown.
    pub open spec fn by_number(v: u8) -> Result<Stain, Error> {
        match v {
            0u8 => Ok(Stain::Unknown),
            1u8 => Ok(Stain::HE),
            3u8 => Ok(Stain::CD3),
            20u8 => Ok(Stain::CD20),
            30u8 => Ok(Stain::CD30),
            68u8 => Ok(Stain::CD68),
            _ => Err(Error::UnknownCode),
        }
    }

    /// Every member, in declaration order.
    pub open spec fn all() -> Seq<Stain> {
        seq![
            Stain::Unknown,
            Stain::HE,
            Stain::CD3,
            Stain::CD20,
            Stain::CD30,
            Stain::CD68,
        ]
    }

    pub fn label(&self) -> (r: &'static str)
        ensures
            r@ == self.name(),
    {
        match self {
            Stain::Unknown => "Unknown",
            Stain::HE => "HE",
            Stain::CD3 => "CD3",
            Stain::CD20 => "CD20",
            Stain::CD30 => "CD30",
            Stain::CD68 => "CD68",
        }
    }

    pub fn code(&self) -> (r: u8)
        ensures
            r == self.number(),
    {
        match self {
            Stain::Unknown => 0,
            Stain::HE => 1,
            Stain::CD3 => 3,
            Stain::CD20 => 20,
            Stain::CD30 => 30,
            Stain::CD68 => 68,
        }
    }

    pub fn list() -> (r: Vec<Stain>)
        ensures
            r@ == Self::all(),
    {
        let r = vec![
            Stain::Unknown,
            Stain::HE,
            Stain::CD3,
            Stain::CD20,
            Stain::CD30,
            Stain::CD68,
        ];
        proof {
            assert(r@ =~= Self::all());
        }
        r
    }

    pub fn to_string(&self) -> (r: String)
        ensures
            r@ == self.name(),
    {
        String::from_str(self.label())
    }

    /// Reads a name leniently: spaces, underscores and ampersands are dropped and ASCII letter
    /// case is ignored. The result is the first member, in declaration order,
    /// whose name then matches; without one the name is unknown.
    pub fn from(s: &str) -> (r: Result<Stain, Error>)
        ensures
            match r {
                Ok(v) => exists|i: int|
                    0 <= i < Self::all().len() && Self::all()[i] == v && same_name(
                        cleaned(s@, true),
                        v.name(),
                    ) && forall|j: int|
                        0 <= j < i ==> !same_name(cleaned(s@, true), #[trigger] Self::all()[j].name()),
                Err(e) => e == Error::UnknownName && forall|j: int|
                    0 <= j < Self::all().len() ==> !same_name(
                        cleaned(s@, true),
                        #[trigger] Self::all()[j].name(),
                    ),
            },
    {
        let name = clean(s, true);
        let all = Self::list();
        let mut i: usize = 0;
        while i < all.len()
            invariant
                i <= all.len(),
                all@ == Self::all(),
                name@ == cleaned(s@, true),
                forall|j: int| 0 <= j < i ==> !same_name(name@, #[trigger] Self::all()[j].name()),
            decreases all.len() - i,
        {
            let v = all[i];
            if matches_name(&name, v.label()) {
                return Ok(v);
            }
            i += 1;
        }
        Err(Error::UnknownName)
    }

    pub fn new(s: &str) -> (r: Result<Stain, Error>)
        ensures
            match r {
                Ok(v) => exists|i: int|
                    0 <= i < Self::all().len() && Self::all()[i] == v && same_name(
                        cleaned(s@, true),
                        v.name(),
                    ) && forall|j: int|
                        0 <= j < i ==> !same_name(cleaned(s@, true), #[trigger] Self::all()[j].name()),
                Err(e) => e == Error::UnknownName && forall|j: int|
                    0 <= j < Self::all().len() ==> !same_name(
                        cleaned(s@, true),
                        #[trigger] Self::all()[j].name(),
                    ),
            },
    {
        Stain::from(s)
    }

    /// The member stored under `v`; a number that no member has is unknown.
    pub fn from_int(v: u8) -> (r: Result<Stain, Error>)
        ensures
            r == Self::by_number(v),
            match r {
                Ok(d) => d.number() == v,
                Err(e) => e == Error::UnknownCode && forall|d: Stain| d.number() != v,
            },
            forall|d: Stain| d.number() == v ==> r == Ok::<Stain, Error>(d),
    {
        match v {
            0 => Ok(Stain::Unknown),
            1 => Ok(Stain::HE),
            3 => Ok(Stain::CD3),
            20 => Ok(Stain::CD20),
            30 => Ok(Stain::CD30),
            68 => Ok(Stain::CD68),
            _ => Err(Error::UnknownCode),
        }
    }

    /// The table of names and numbers, one entry for each member in
    /// declaration order.
    pub fn to_hash_map() -> (r: Vec<(String, u8)>)
        ensures
            r@.len() == Self::all().len(),
            forall|i: int|
                0 <= i < r@.len() ==> (#[trigger] r@[i]).0@ == Self::all()[i].name() && r@[i].1
                    == Self::all()[i].number(),
    {
        let all = Self::list();
        let mut r: Vec<(String, u8)> = Vec::new();
        let mut i: usize = 0;
        while i < all.len()
            invariant
                i <= all.len(),
                all@ == Self::all(),
                r@.len() == i,
                forall|j: int|
                    0 <= j < i ==> (#[trigger] r@[j]).0@ == Self::all()[j].name() && r@[j].1
                        == Self::all()[j].number(),
            decreases all.len() - i,
        {
            let v = all[i];
            r.push((v.to_string(), v.code()));
            i += 1;
        }
        r
    }
}

impl TryFrom<u8> for Stain {
    type Error = Error;

    fn try_from(value: u8) -> (r: Result<Stain, Error>) {
        Stain::from_int(value)
    }
}

impl vstd::std_specs::convert::TryFromSpecImpl<u8> for Stain {
    open spec fn obeys_try_from_spec() -> bool {
        true
    }

    open spec fn try_from_spec(v: u8) -> Result<Stain, Error> {
        Stain::by_number(v)
    }
}

/// Every member is read back from its own number.
pub proof fn lemma_stain_round_trip(d: Stain)
    ensures
        Stain::by_number(d.number()) == Ok::<Stain, Error>(d),
{
}

} // verus!
