use pamly::types::{Diagnosis, Stain, TileLabel};
use pamly::Error;

#[test]
fn diagnosis_consistency() {
    for d in Diagnosis::list() {
        let num = d.code();
        let d2 = Diagnosis::try_from(num).unwrap();
        assert_eq!(d, d2);
    }
}

#[test]
fn stain_consistency() {
    for stain in Stain::list() {
        let num = stain.code();
        let stain2 = Stain::try_from(num).unwrap();
        assert_eq!(stain, stain2);
    }
}

#[test]
fn he() {
    let he1 = Stain::from("HE").unwrap();
    let he2 = Stain::from("H&E").unwrap();
    let he3 = Stain::from("H_E").unwrap();
    let he4 = Stain::from("H_E").unwrap();
    assert_eq!(he1, he2);
    assert_eq!(he2, he3);
    assert_eq!(he3, he4);
}

#[test]
fn label_consistency() {
    for stain in TileLabel::list() {
        let num = stain.code();
        let stain2 = TileLabel::try_from(num).unwrap();
        assert_eq!(stain, stain2);
    }
}

#[test]
fn parsing() {
    let unlabeled = TileLabel::from("Unlabeled").unwrap();
    assert_eq!(unlabeled, TileLabel::Unlabeled);
}

#[test]
fn parsing_lowercase() {
    let unlabeled = TileLabel::from("unlabeled").unwrap();
    assert_eq!(unlabeled, TileLabel::Unlabeled);
}

#[test]
fn parsing_with_underscore() {
    let epi = TileLabel::from("Epithelium_Squamous").unwrap();
    assert_eq!(epi, TileLabel::EpitheliumSquamous);
}

#[test]
fn parsing_with_spaces() {
    let epi = TileLabel::from("Epithelium    Squamous").unwrap();
    assert_eq!(epi, TileLabel::EpitheliumSquamous);
}

#[test]
fn parsing_err() {
    let err = TileLabel::from("Invalid Label");
    assert!(err.is_err());
}

#[test]
fn unknown_name_is_reported() {
    assert_eq!(Diagnosis::from("nothing"), Err(Error::UnknownName));
    assert_eq!(Stain::from(""), Err(Error::UnknownName));
    assert_eq!(TileLabel::from("Tumor&Partial"), Err(Error::UnknownName));
}

#[test]
fn unknown_code_is_reported() {
    assert_eq!(Diagnosis::from_int(7), Err(Error::UnknownCode));
    assert_eq!(Stain::from_int(2), Err(Error::UnknownCode));
    assert_eq!(TileLabel::from_int(0x06), Err(Error::UnknownCode));
    assert_eq!(TileLabel::from_int(0x26), Err(Error::UnknownCode));
}

#[test]
fn codes_are_the_stored_numbers() {
    assert_eq!(Diagnosis::LTDS.code(), 6);
    assert_eq!(Stain::CD68.code(), 68);
    assert_eq!(Stain::CD3.code(), 3);
    assert_eq!(TileLabel::Tumor.code(), 0x10);
    assert_eq!(TileLabel::Bonemarrow.code(), 0x25);
    assert_eq!(TileLabel::from_int(0x1A), Ok(TileLabel::MuscleSmooth));
}

#[test]
fn names_are_written_as_declared() {
    assert_eq!(Diagnosis::DLBCL.to_string(), "DLBCL");
    assert_eq!(Stain::HE.to_string(), "HE");
    assert_eq!(TileLabel::MucosaLargeIntestine.to_string(), "MucosaLargeIntestine");
}

#[test]
fn lenient_names() {
    assert_eq!(Diagnosis::from("d l_b C l"), Ok(Diagnosis::DLBCL));
    assert_eq!(Diagnosis::new("hl"), Ok(Diagnosis::HL));
    assert_eq!(Stain::new("cd_20"), Ok(Stain::CD20));
    assert_eq!(TileLabel::new("blood vessel"), Ok(TileLabel::BloodVessel));
    assert_eq!(TileLabel::from("BLOOD"), Ok(TileLabel::Blood));
}

#[test]
fn tables_list_every_member_in_order() {
    let d = Diagnosis::to_hash_map();
    assert_eq!(d.len(), 7);
    assert_eq!(d[0], ("Unknown".to_string(), 0));
    assert_eq!(d[6], ("LTDS".to_string(), 6));
    let s = Stain::to_hash_map();
    assert_eq!(s.len(), 6);
    assert_eq!(s[3], ("CD20".to_string(), 20));
    assert_eq!(TileLabel::list().len(), 28);
    assert_eq!(TileLabel::to_hash_map()[27], ("Bonemarrow".to_string(), 0x25));
}
