use assembler::raster::{Raster, Rgba};
use assembler::sheet::{assemble, collect_tiles, compose, dims, SheetError};
use assembler::grid::Dims;

fn solid(w: u32, h: u32, p: Rgba) -> Raster {
    Raster::from_pixels(w, h, vec![p; (w * h) as usize]).unwrap()
}

const CLEAR: Rgba = [0, 0, 0, 0];
const RED: Rgba = [255, 0, 0, 255];
const GREEN: Rgba = [0, 255, 0, 255];
const BLUE: Rgba = [0, 0, 255, 255];

#[test]
fn from_pixels_checks_the_count() {
    assert!(Raster::from_pixels(2, 2, vec![RED; 3]).is_none());
    assert!(Raster::from_pixels(2, 2, vec![RED; 5]).is_none());
    let r = Raster::from_pixels(2, 1, vec![RED, BLUE]).unwrap();
    assert_eq!(r.pixel(0, 0), RED);
    assert_eq!(r.pixel(1, 0), BLUE);
}

#[test]
fn blank_is_transparent() {
    let r = Raster::blank(3, 2);
    assert_eq!(r.pixels.len(), 6);
    assert!(r.pixels.iter().all(|p| *p == CLEAR));
}

#[test]
fn no_tiles_is_an_error() {
    assert_eq!(dims(&vec![]), Err(SheetError::NoImages));
    assert_eq!(assemble(&vec![]).unwrap_err(), SheetError::NoImages);
}

#[test]
fn differing_sizes_are_an_error() {
    let tiles = vec![solid(2, 2, RED), solid(2, 3, BLUE)];
    assert_eq!(dims(&tiles), Err(SheetError::InconsistentSize));
    assert_eq!(assemble(&tiles).unwrap_err(), SheetError::InconsistentSize);
    let tiles = vec![solid(2, 2, RED), solid(2, 2, RED), solid(3, 2, BLUE)];
    assert_eq!(dims(&tiles), Err(SheetError::InconsistentSize));
}

#[test]
fn same_sizes_give_the_tile_size() {
    let tiles = vec![solid(3, 5, RED), solid(3, 5, BLUE)];
    assert_eq!(dims(&tiles), Ok(Dims { x: 3, y: 5 }));
}

#[test]
fn one_tile_round_trips() {
    let pixels: Vec<Rgba> = (0u8..16).map(|i| [i, 2 * i, 255 - i, i % 3]).collect();
    let tile = Raster::from_pixels(4, 4, pixels.clone()).unwrap();
    let sheet = assemble(&vec![tile]).unwrap();
    assert_eq!(sheet.width, 4);
    assert_eq!(sheet.height, 4);
    assert_eq!(sheet.pixels, pixels);
}

#[test]
fn tiles_fill_cells_in_order() {
    let tiles = vec![solid(1, 1, RED), solid(1, 1, GREEN), solid(1, 1, BLUE)];
    let sheet = assemble(&tiles).unwrap();
    assert_eq!((sheet.width, sheet.height), (2, 2));
    assert_eq!(sheet.pixel(0, 0), RED);
    assert_eq!(sheet.pixel(1, 0), GREEN);
    assert_eq!(sheet.pixel(0, 1), BLUE);
    assert_eq!(sheet.pixel(1, 1), CLEAR);
}

#[test]
fn five_tiles_fill_two_columns() {
    let colours = [RED, GREEN, BLUE, [1, 2, 3, 4], [9, 9, 9, 9]];
    let tiles: Vec<Raster> = colours.iter().map(|c| solid(10, 10, *c)).collect();
    let sheet = assemble(&tiles).unwrap();
    assert_eq!((sheet.width, sheet.height), (20, 30));
    for (i, c) in colours.iter().enumerate() {
        let x = (i as u32 % 2) * 10;
        let y = (i as u32 / 2) * 10;
        assert_eq!(sheet.pixel(x, y), *c);
        assert_eq!(sheet.pixel(x + 9, y + 9), *c);
    }
    assert_eq!(sheet.pixel(10, 20), CLEAR);
    assert_eq!(sheet.pixel(19, 29), CLEAR);
}

#[test]
fn compose_pastes_whole_tiles() {
    let a = Raster::from_pixels(2, 1, vec![RED, GREEN]).unwrap();
    let b = Raster::from_pixels(2, 1, vec![BLUE, CLEAR]).unwrap();
    let sheet = compose(&vec![a, b], Dims { x: 1, y: 2 }, Dims { x: 2, y: 1 });
    assert_eq!(sheet.pixels, vec![RED, GREEN, BLUE, CLEAR]);
    let a = Raster::from_pixels(2, 1, vec![RED, GREEN]).unwrap();
    let b = Raster::from_pixels(2, 1, vec![BLUE, CLEAR]).unwrap();
    let sheet = compose(&vec![a, b], Dims { x: 2, y: 1 }, Dims { x: 2, y: 1 });
    assert_eq!(sheet.pixels, vec![RED, GREEN, BLUE, CLEAR]);
    assert_eq!((sheet.width, sheet.height), (4, 1));
}

#[test]
fn unreadable_entries_are_dropped() {
    let candidates = vec![Some(solid(2, 2, RED)), None, Some(solid(2, 2, BLUE)), None];
    let tiles = collect_tiles(candidates);
    assert_eq!(tiles.len(), 2);
    assert_eq!(tiles[0].pixel(0, 0), RED);
    assert_eq!(tiles[1].pixel(1, 1), BLUE);
    let sheet = assemble(&tiles).unwrap();
    assert_eq!((sheet.width, sheet.height), (2, 4));
    assert_eq!(sheet.pixel(0, 0), RED);
    assert_eq!(sheet.pixel(1, 1), RED);
    assert_eq!(sheet.pixel(0, 2), BLUE);
    assert_eq!(sheet.pixel(1, 3), BLUE);
}

#[test]
fn nothing_readable_is_no_images() {
    let tiles = collect_tiles(vec![None, None]);
    assert!(tiles.is_empty());
    assert_eq!(assemble(&tiles).unwrap_err(), SheetError::NoImages);
}
