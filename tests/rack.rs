use gaddag_movegen::constants::{EMPTY_TILE, RACK_SIZE};
use gaddag_movegen::rack::Rack;

#[test]
fn test_from_arrays_sets_used_mask_and_len() {
    // build an array with two tiles placed at indices 0 and 3
    let mut tiles = [EMPTY_TILE; RACK_SIZE];
    tiles[0] = 'A';
    tiles[3] = 'D';
    let len = 2usize;

    let rack = Rack::from_arrays(tiles, len);

    let expected_mask: u8 = (1 << 0) | (1 << 3);
    assert_eq!(rack.used_mask, expected_mask);
    assert_eq!(rack.len, len);
    assert!(rack.is_index_used(0));
    assert!(rack.is_index_used(3));
    assert!(!rack.is_index_used(1));
}

#[test]
fn test_available_tiles_returns_placed_tiles() {
    // tiles present at 1 and 4, other slots are EMPTY
    let mut tiles = [EMPTY_TILE; RACK_SIZE];
    tiles[1] = 'X';
    tiles[4] = 'Z';
    let rack = Rack::from_arrays(tiles, 2);

    let avail: Vec<(usize, char)> = rack.available_tiles();

    // available_tiles should return only the placed tiles (indices 1 and 4)
    assert_eq!(avail, vec![(1usize, 'X'), (4usize, 'Z')]);
}

#[test]
fn test_mark_and_unmark_used_updates_mask_and_len() {
    let tiles = [EMPTY_TILE; RACK_SIZE];
    // start with all slots available and len = RACK_SIZE
    let mut rack = Rack::from_arrays(tiles, RACK_SIZE);

    // mark index 2 as used
    rack.mark_used(2);
    assert!(rack.is_index_used(2));
    assert_eq!(rack.len, RACK_SIZE - 1);

    // unmark it and ensure state is restored
    rack.unmark_used(2);
    assert!(!rack.is_index_used(2));
    assert_eq!(rack.len, RACK_SIZE);
}

#[test]
fn mark_and_unmark_on_a_present_slot_are_inverses() {
    let mut tiles = [EMPTY_TILE; RACK_SIZE];
    tiles[0] = 'Q';
    tiles[5] = '?';
    let mut rack = Rack::from_arrays(tiles, 2);
    let mask = rack.used_mask;

    rack.mark_used(5);
    assert!(!rack.is_index_used(5));
    assert!(rack.is_index_used(0));
    assert_eq!(rack.len, 1);
    assert_eq!(rack.available_tiles(), vec![(0usize, 'Q')]);

    rack.unmark_used(5);
    assert_eq!(rack.used_mask, mask);
    assert_eq!(rack.len, 2);
    assert_eq!(rack.tiles, tiles);
    assert_eq!(rack.available_tiles(), vec![(0usize, 'Q'), (5usize, '?')]);
}

#[test]
fn empty_rack_is_empty() {
    let rack = Rack::from_arrays([EMPTY_TILE; RACK_SIZE], 0);
    assert!(rack.is_empty());
    assert_eq!(rack.used_mask, 0);
    assert!(rack.available_tiles().is_empty());

    let mut tiles = [EMPTY_TILE; RACK_SIZE];
    tiles[6] = 'E';
    let full = Rack::from_arrays(tiles, 1);
    assert!(!full.is_empty());
    assert_eq!(full.used_mask, 1 << 6);
}
