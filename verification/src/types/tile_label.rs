//! Tile labels and the numbers they are stored under.

use vstd::prelude::*;
use crate::error::Error;
use crate::types::names::{clean, cleaned, matches_name, same_name};

verus! {

#[derive(Debug, Clone, Copy, PartialEq, Eq, Structural)]
pub enum TileLabel {
    Unlabeled,
    Unknown,
    Other,
    NonExisting,
    Artefact,
    Empty,
    Tumor,
    TumorPartial,
    TumorInvasive,
    ConnectiveTissue,
    Blood,
    BloodVessel,
    FattyTissue,
    Necrosis,
    Lymphatic,
    Muscle,
    MuscleSmooth,
    MuscleStriated,
    Mucosa,
    MucosaStomach,
    MucosaLargeIntestine,
    MucosaSmallIntestine,
    Epithelium,
    EpitheliumSquamous,
    EpitheliumGland,
    Cns,
    Bone,
    Bonemarrow,
}

impl TileLabel {
    /// The name under which the member is written.
    pub open spec fn name(self) -> Seq<char> {
        match self {
            TileLabel::Unlabeled => "Unlabeled"@,
            TileLabel::Unknown => "Unknown"@,
            TileLabel::Other => "Other"@,
            TileLabel::NonExisting => "NonExisting"@,
            TileLabel::Artefact => "Artefact"@,
            TileLabel::Empty => "Empty"@,
            TileLabel::Tumor => "Tumor"@,
            TileLabel::TumorPartial => "TumorPartial"@,
            TileLabel::TumorInvasive => "TumorInvasive"@,
            TileLabel::ConnectiveTissue => "ConnectiveTissue"@,
            TileLabel::Blood => "Blood"@,
            TileLabel::BloodVessel => "BloodVessel"@,
            TileLabel::FattyTissue => "FattyTissue"@,
            TileLabel::Necrosis => "Necrosis"@,
            TileLabel::Lymphatic => "Lymphatic"@,
            TileLabel::Muscle => "Muscle"@,
            TileLabel::MuscleSmooth => "MuscleSmooth"@,
            TileLabel::MuscleStriated => "MuscleStriated"@,
            TileLabel::Mucosa => "Mucosa"@,
            TileLabel::MucosaStomach => "MucosaStomach"@,
            TileLabel::MucosaLargeIntestine => "MucosaLargeIntestine"@,
            TileLabel::MucosaSmallIntestine => "MucosaSmallIntestine"@,
            TileLabel::Epithelium => "Epithelium"@,
            TileLabel::EpitheliumSquamous => "EpitheliumSquamous"@,
            TileLabel::EpitheliumGland => "EpitheliumGland"@,
            TileLabel::Cns => "Cns"@,
            TileLabel::Bone => "Bone"@,
            TileLabel::Bonemarrow => "Bonemarrow"@,
        }
    }

    /// The number under which the member is stored.
    pub open spec fn number(self) -> u8 {
        match self {
            TileLabel::Unlabeled => 0x00u8,
            TileLabel::Unknown => 0x01u8,
            TileLabel::Other => 0x02u8,
            TileLabel::NonExisting => 0x03u8,
            TileLabel::Artefact => 0x04u8,
            TileLabel::Empty => 0x05u8,
            TileLabel::Tumor => 0x10u8,
            TileLabel::TumorPartial => 0x11u8,
            TileLabel::TumorInvasive => 0x12u8,
            TileLabel::ConnectiveTissue => 0x13u8,
            TileLabel::Blood => 0x14u8,
            TileLabel::BloodVessel => 0x15u8,
            TileLabel::FattyTissue => 0x16u8,
            TileLabel::Necrosis => 0x17u8,
            TileLabel::Lymphatic => 0x18u8,
            TileLabel::Muscle => 0x19u8,
            TileLabel::MuscleSmooth => 0x1Au8,
            TileLabel::MuscleStriated => 0x1Bu8,
            TileLabel::Mucosa => 0x1Cu8,
            TileLabel::MucosaStomach => 0x1Du8,
            TileLabel::MucosaLargeIntestine => 0x1Eu8,
            TileLabel::MucosaSmallIntestine => 0x1Fu8,
            TileLabel::Epithelium => 0x20u8,
            TileLabel::EpitheliumSquamous => 0x21u8,
            TileLabel::EpitheliumGland => 0x22u8,
            TileLabel::Cns => 0x23u8,
            TileLabel::Bone => 0x24u8,
            TileLabel::Bonemarrow => 0x25u8,
        }
    }

    /// The member stored under `v`; a number that no member has is unknown.
    pub open spec fn by_number(v: u8) -> Result<TileLabel, Error> {
        match v {
            0x00u8 => Ok(TileLabel::Unlabeled),
            0x01u8 => Ok(TileLabel::Unknown),
            0x02u8 => Ok(TileLabel::Other),
            0x03u8 => Ok(TileLabel::NonExisting),
            0x04u8 => Ok(TileLabel::Artefact),
            0x05u8 => Ok(TileLabel::Empty),
            0x10u8 => Ok(TileLabel::Tumor),
            0x11u8 => Ok(TileLabel::TumorPartial),
            0x12u8 => Ok(TileLabel::TumorInvasive),
            0x13u8 => Ok(TileLabel::ConnectiveTissue),
            0x14u8 => Ok(TileLabel::Blood),
            0x15u8 => Ok(TileLabel::BloodVessel),
            0x16u8 => Ok(TileLabel::FattyTissue),
            0x17u8 => Ok(TileLabel::Necrosis),
            0x18u8 => Ok(TileLabel::Lymphatic),
            0x19u8 => Ok(TileLabel::Muscle),
            0x1Au8 => Ok(TileLabel::MuscleSmooth),
            0x1Bu8 => Ok(TileLabel::MuscleStriated),
            0x1Cu8 => Ok(TileLabel::Mucosa),
            0x1Du8 => Ok(TileLabel::MucosaStomach),
            0x1Eu8 => Ok(TileLabel::MucosaLargeIntestine),
            0x1Fu8 => Ok(TileLabel::MucosaSmallIntestine),
            0x20u8 => Ok(TileLabel::Epithelium),
            0x21u8 => Ok(TileLabel::EpitheliumSquamous),
            0x22u8 => Ok(TileLabel::EpitheliumGland),
            0x23u8 => Ok(TileLabel::Cns),
            0x24u8 => Ok(TileLabel::Bone),
            0x25u8 => Ok(TileLabel::Bonemarrow),
            _ => Err(Error::UnknownCode),
        }
    }

    /// Every member, in declaration order.
    pub open spec fn all() -> Seq<TileLabel> {
        seq![
            TileLabel::Unlabeled,
            TileLabel::Unknown,
            TileLabel::Other,
            TileLabel::NonExisting,
            TileLabel::Artefact,
            TileLabel::Empty,
            TileLabel::Tumor,
            TileLabel::TumorPartial,
            TileLabel::TumorInvasive,
            TileLabel::ConnectiveTissue,
            TileLabel::Blood,
            TileLabel::BloodVessel,
            TileLabel::FattyTissue,
            TileLabel::Necrosis,
            TileLabel::Lymphatic,
            TileLabel::Muscle,
            TileLabel::MuscleSmooth,
            TileLabel::MuscleStriated,
            TileLabel::Mucosa,
            TileLabel::MucosaStomach,
            TileLabel::MucosaLargeIntestine,
            TileLabel::MucosaSmallIntestine,
            TileLabel::Epithelium,
            TileLabel::EpitheliumSquamous,
            TileLabel::EpitheliumGland,
            TileLabel::Cns,
            TileLabel::Bone,
            TileLabel::Bonemarrow,
        ]
    }

    pub fn label(&self) -> (r: &'static str)
        ensures
            r@ == self.name(),
    {
        match self {
            TileLabel::Unlabeled => "Unlabeled",
            TileLabel::Unknown => "Unknown",
            TileLabel::Other => "Other",
            TileLabel::NonExisting => "NonExisting",
            TileLabel::Artefact => "Artefact",
            TileLabel::Empty => "Empty",
            TileLabel::Tumor => "Tumor",
            TileLabel::TumorPartial => "TumorPartial",
            TileLabel::TumorInvasive => "TumorInvasive",
            TileLabel::ConnectiveTissue => "ConnectiveTissue",
            TileLabel::Blood => "Blood",
            TileLabel::BloodVessel => "BloodVessel",
            TileLabel::FattyTissue => "FattyTissue",
            TileLabel::Necrosis => "Necrosis",
            TileLabel::Lymphatic => "Lymphatic",
            TileLabel::Muscle => "Muscle",
            TileLabel::MuscleSmooth => "MuscleSmooth",
            TileLabel::MuscleStriated => "MuscleStriated",
            TileLabel::Mucosa => "Mucosa",
            TileLabel::MucosaStomach => "MucosaStomach",
            TileLabel::MucosaLargeIntestine => "MucosaLargeIntestine",
            TileLabel::MucosaSmallIntestine => "MucosaSmallIntestine",
            TileLabel::Epithelium => "Epithelium",
            TileLabel::EpitheliumSquamous => "EpitheliumSquamous",
            TileLabel::EpitheliumGland => "EpitheliumGland",
            TileLabel::Cns => "Cns",
            TileLabel::Bone => "Bone",
            TileLabel::Bonemarrow => "Bonemarrow",
        }
    }

    pub fn code(&self) -> (r: u8)
        ensures
            r == self.number(),
    {
        match self {
            TileLabel::Unlabeled => 0x00,
            TileLabel::Unknown => 0x01,
            TileLabel::Other => 0x02,
            TileLabel::NonExisting => 0x03,
            TileLabel::Artefact => 0x04,
            TileLabel::Empty => 0x05,
            TileLabel::Tumor => 0x10,
            TileLabel::TumorPartial => 0x11,
            TileLabel::TumorInvasive => 0x12,
            TileLabel::ConnectiveTissue => 0x13,
            TileLabel::Blood => 0x14,
            TileLabel::BloodVessel => 0x15,
            TileLabel::FattyTissue => 0x16,
            TileLabel::Necrosis => 0x17,
            TileLabel::Lymphatic => 0x18,
            TileLabel::Muscle => 0x19,
            TileLabel::MuscleSmooth => 0x1A,
            TileLabel::MuscleStriated => 0x1B,
            TileLabel::Mucosa => 0x1C,
            TileLabel::MucosaStomach => 0x1D,
            TileLabel::MucosaLargeIntestine => 0x1E,
            TileLabel::MucosaSmallIntestine => 0x1F,
            TileLabel::Epithelium => 0x20,
            TileLabel::EpitheliumSquamous => 0x21,
            TileLabel::EpitheliumGland => 0x22,
            TileLabel::Cns => 0x23,
            TileLabel::Bone => 0x24,
            TileLabel::Bonemarrow => 0x25,
        }
    }

    pub fn list() -> (r: Vec<TileLabel>)
        ensures
            r@ == Self::all(),
    {
        let r = vec![
            TileLabel::Unlabeled,
            TileLabel::Unknown,
            TileLabel::Other,
            TileLabel::NonExisting,
            TileLabel::Artefact,
            TileLabel::Empty,
            TileLabel::Tumor,
            TileLabel::TumorPartial,
            TileLabel::TumorInvasive,
            TileLabel::ConnectiveTissue,
            TileLabel::Blood,
            TileLabel::BloodVessel,
            TileLabel::FattyTissue,
            TileLabel::Necrosis,
            TileLabel::Lymphatic,
            TileLabel::Muscle,
            TileLabel::MuscleSmooth,
            TileLabel::MuscleStriated,
            TileLabel::Mucosa,
            TileLabel::MucosaStomach,
            TileLabel::MucosaLargeIntestine,
            TileLabel::MucosaSmallIntestine,
            TileLabel::Epithelium,
            TileLabel::EpitheliumSquamous,
            TileLabel::EpitheliumGland,
            TileLabel::Cns,
            TileLabel::Bone,
            TileLabel::Bonemarrow,
        ];
        proof {
            assert(r@ =~= Self::all());
        }
        r
    }

    pub fn to_string(&self) -> (r: String)
        ensures
            r@ == self.name(),
    {
        String::from_str(self.label())
    }

    /// Reads a name leniently: spaces and underscores are dropped and ASCII letter
    /// case is ignored. The result is the first member, in declaration order,
    /// whose name then matches; without one the name is unknown.
    pub fn from(s: &str) -> (r: Result<TileLabel, Error>)
        ensures
            match r {
                Ok(v) => exists|i: int|
                    0 <= i < Self::all().len() && Self::all()[i] == v && same_name(
                        cleaned(s@, false),
                        v.name(),
                    ) && forall|j: int|
                        0 <= j < i ==> !same_name(cleaned(s@, false), #[trigger] Self::all()[j].name()),
                Err(e) => e == Error::UnknownName && forall|j: int|
                    0 <= j < Self::all().len() ==> !same_name(
                        cleaned(s@, false),
                        #[trigger] Self::all()[j].name(),
                    ),
            },
    {
        let name = clean(s, false);
        let all = Self::list();
        let mut i: usize = 0;
        while i < all.len()
            invariant
                i <= all.len(),
                all@ == Self::all(),
                name@ == cleaned(s@, false),
                forall|j: int| 0 <= j < i ==> !same_name(name@, #[trigger] Self::all()[j].name()),
            decreases all.len() - i,
        {
            let v = all[i];
            if matches_name(&name, v.label()) {
                return Ok(v);
            }
            i += 1;
        }
        Err(Error::UnknownName)
    }

    pub fn new(s: &str) -> (r: Result<TileLabel, Error>)
        ensures
            match r {
                Ok(v) => exists|i: int|
                    0 <= i < Self::all().len() && Self::all()[i] == v && same_name(
                        cleaned(s@, false),
                        v.name(),
                    ) && forall|j: int|
                        0 <= j < i ==> !same_name(cleaned(s@, false), #[trigger] Self::all()[j].name()),
                Err(e) => e == Error::UnknownName && forall|j: int|
                    0 <= j < Self::all().len() ==> !same_name(
                        cleaned(s@, false),
                        #[trigger] Self::all()[j].name(),
                    ),
            },
    {
        TileLabel::from(s)
    }

    /// The member stored under `v`; a number that no member has is unknown.
    pub fn from_int(v: u8) -> (r: Result<TileLabel, Error>)
        ensures
            r == Self::by_number(v),
            match r {
                Ok(d) => d.number() == v,
                Err(e) => e == Error::UnknownCode && forall|d: TileLabel| d.number() != v,
            },
            forall|d: TileLabel| d.number() == v ==> r == Ok::<TileLabel, Error>(d),
    {
        match v {
            0x00 => Ok(TileLabel::Unlabeled),
            0x01 => Ok(TileLabel::Unknown),
            0x02 => Ok(TileLabel::Other),
            0x03 => Ok(TileLabel::NonExisting),
            0x04 => Ok(TileLabel::Artefact),
            0x05 => Ok(TileLabel::Empty),
            0x10 => Ok(TileLabel::Tumor),
            0x11 => Ok(TileLabel::TumorPartial),
            0x12 => Ok(TileLabel::TumorInvasive),
            0x13 => Ok(TileLabel::ConnectiveTissue),
            0x14 => Ok(TileLabel::Blood),
            0x15 => Ok(TileLabel::BloodVessel),
            0x16 => Ok(TileLabel::FattyTissue),
            0x17 => Ok(TileLabel::Necrosis),
            0x18 => Ok(TileLabel::Lymphatic),
            0x19 => Ok(TileLabel::Muscle),
            0x1A => Ok(TileLabel::MuscleSmooth),
            0x1B => Ok(TileLabel::MuscleStriated),
            0x1C => Ok(TileLabel::Mucosa),
            0x1D => Ok(TileLabel::MucosaStomach),
            0x1E => Ok(TileLabel::MucosaLargeIntestine),
            0x1F => Ok(TileLabel::MucosaSmallIntestine),
            0x20 => Ok(TileLabel::Epithelium),
            0x21 => Ok(TileLabel::EpitheliumSquamous),
            0x22 => Ok(TileLabel::EpitheliumGland),
            0x23 => Ok(TileLabel::Cns),
            0x24 => Ok(TileLabel::Bone),
            0x25 => Ok(TileLabel::Bonemarrow),
            _ => Err(Error::UnknownCode),
        }
    }

    /// The table of names and numbers, one entry for each member in
    /// declaration order.
    pub fn to_hash_map() -> (r: Vec<(String, u8)>)
        ensures
            r@.len() == Self::all().len(),
            forall|i: int|
                0 <= i < r@.len() ==> (#[trigger] r@[i]).0@ == Self::all()[i].name() && r@[i].1
                    == Self::all()[i].number(),
    {
        let all = Self::list();
        let mut r: Vec<(String, u8)> = Vec::new();
        let mut i: usize = 0;
        while i < all.len()
            invariant
                i <= all.len(),
                all@ == Self::all(),
                r@.len() == i,
                forall|j: int|
                    0 <= j < i ==> (#[trigger] r@[j]).0@ == Self::all()[j].name() && r@[j].1
                        == Self::all()[j].number(),
            decreases all.len() - i,
        {
            let v = all[i];
            r.push((v.to_string(), v.code()));
            i += 1;
        }
        r
    }
}

impl TryFrom<u8> for TileLabel {
    type Error = Error;

    fn try_from(value: u8) -> (r: Result<TileLabel, Error>) {
        TileLabel::from_int(value)
    }
}

impl vstd::std_specs::convert::TryFromSpecImpl<u8> for TileLabel {
    open spec fn obeys_try_from_spec() -> bool {
        true
    }

    open spec fn try_from_spec(v: u8) -> Result<TileLabel, Error> {
        TileLabel::by_number(v)
    }
}

/// Every member is read back from its own number.
pub proof fn lemma_tile_label_round_trip(d: TileLabel)
    ensures
        TileLabel::by_number(d.number()) == Ok::<TileLabel, Error>(d),
{
}

} // verus!
