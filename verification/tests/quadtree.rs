use pamly::convert::openslide::{levels_for, rgb_image, rgb_of_argb};
use pamly::quadtree::{contains, grid_side, identity};
use pamly::Tile;

#[test]
fn identity_of_first_levels() {
    assert_eq!(identity(0, 0, 0), 0);
    assert_eq!(identity(1, 0, 0), 1);
    assert_eq!(identity(1, 1, 0), 2);
    assert_eq!(identity(1, 0, 1), 3);
    assert_eq!(identity(1, 1, 1), 4);
    assert_eq!(identity(2, 0, 0), 5);
    assert_eq!(identity(2, 3, 3), 20);
    assert_eq!(identity(3, 0, 0), 21);
    assert_eq!(identity(3, 5, 2), 21 + 2 * 8 + 5);
}

#[test]
fn identity_is_injective_below_level_ten() {
    let total: usize = 349525;
    let mut seen = vec![false; total];
    for level in 0..10u64 {
        let side = grid_side(level);
        assert_eq!(side, 1u64 << level);
        let start = ((1u64 << (2 * level)) - 1) / 3;
        let next = ((1u64 << (2 * (level + 1))) - 1) / 3;
        for y in 0..side {
            for x in 0..side {
                let id = identity(level, x, y);
                assert!(start <= id && id < next);
                assert!(!seen[id as usize]);
                seen[id as usize] = true;
            }
        }
    }
    assert!(seen.iter().all(|s| *s));
}

#[test]
fn identity_of_deepest_level_fits() {
    let side = grid_side(31);
    assert_eq!(side, 1u64 << 31);
    let last = identity(31, side - 1, side - 1);
    assert_eq!(last, ((1u128 << 64) / 3 - 1) as u64);
}

#[test]
fn grid_membership() {
    assert!(contains(0, 0, 0));
    assert!(!contains(0, 1, 0));
    assert!(!contains(0, 0, 1));
    assert!(contains(3, 7, 7));
    assert!(!contains(3, 8, 0));
    assert!(!contains(3, 0, 8));
}

#[test]
fn tile_index_and_coords() {
    let tile = Tile::new((3, 2), 2, 512);
    assert_eq!(tile.index(), 5 + 2 * 4 + 3);
    assert_eq!(tile.coords(), (1536, 1024));
    assert_eq!(tile.size(), 512);
    assert_eq!(tile.level(), 2);
    assert_eq!(tile.pos(), (3, 2));
    assert!(tile.is_empty());
}

#[test]
fn levels_of_a_slide() {
    assert_eq!(levels_for(30000, 20000, 512), 7);
    assert_eq!(levels_for(0, 0, 512), 1);
    assert_eq!(levels_for(512, 512, 512), 1);
    assert_eq!(levels_for(513, 1, 512), 2);
    assert_eq!(levels_for(1, 2049, 512), 4);
    assert_eq!(levels_for(u64::MAX, 1, 1), 65);
}

#[test]
fn slide_pixels_lose_their_alpha() {
    assert_eq!(rgb_of_argb(0x0012_3456), (255, 255, 255));
    assert_eq!(rgb_of_argb(0xFF10_2030), (0x10, 0x20, 0x30));
    assert_eq!(rgb_of_argb(0x8040_2000), (127, 63, 0));
    assert_eq!(rgb_of_argb(0x80FF_8001), (255, 255, 1));
    let img = rgb_image(&vec![0xFF01_0203, 0x0000_0000], 2, 1).unwrap();
    assert_eq!(img.data, vec![1, 2, 3, 255, 255, 255]);
    assert!(rgb_image(&vec![0xFF01_0203], 2, 1).is_none());
    assert!(rgb_image(&vec![], 0, 7).is_some());
}
