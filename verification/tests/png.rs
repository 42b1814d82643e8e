use cce_map::decode::Picture;
use cce_map::fetch::{fetch_step, step_after_trial, FetchEvent, FetchStep};
use cce_map::png::{checksum, palette_fits, replace_palette};
use cce_map::tiles::TileKey;

const KEY: TileKey = TileKey { z: 1, x: 0, y: 1 };
const MARK: [u8; 8] = [137, 80, 78, 71, 13, 10, 26, 10];
const TRUECOLOUR: u8 = 2;
const INDEXED: u8 = 3;

fn chunk(name: &[u8; 4], data: &[u8]) -> Vec<u8> {
    let named = [&name[..], data].concat();
    [&(data.len() as u32).to_be_bytes()[..], &named[..], &checksum(&named, 0, named.len()).to_be_bytes()[..]].concat()
}

/// The header of a picture of one pixel, eight bits a sample.
fn header(colour_type: u8) -> Vec<u8> {
    chunk(b"IHDR", &[0, 0, 0, 1, 0, 0, 0, 1, 8, colour_type, 0, 0, 0])
}

/// The image data of one pixel, neither filtered nor compressed.
fn data(pixel: &[u8]) -> Vec<u8> {
    let row = [&[0u8][..], pixel].concat();
    let (mut a, mut b) = (1u32, 0u32);
    for byte in &row {
        a += *byte as u32;
        b += a;
    }
    let n = row.len() as u8;
    let block = [&[0x78, 1, 1, n, 0, !n, 255][..], &row[..], &((b << 16) | a).to_be_bytes()[..]].concat();
    chunk(b"IDAT", &block)
}

fn file(chunks: &[Vec<u8>]) -> Vec<u8> {
    [&MARK[..], &chunks.concat()[..], &chunk(b"IEND", &[])[..]].concat()
}

fn with_palette(length: usize) -> Vec<u8> {
    let palette: Vec<u8> = (0..length).map(|i| (i % 200) as u8 + 10).collect();
    file(&[header(INDEXED), chunk(b"PLTE", &palette), data(&[0])])
}

fn pixel_of(bytes: Vec<u8>) -> Vec<u8> {
    match fetch_step("", KEY, FetchEvent::Cache(Some(bytes))) {
        FetchStep::Upload(picture) => picture.rgba,
        other => panic!("unexpected {:?}", other),
    }
}

fn failure_of(event: FetchEvent) -> String {
    match fetch_step("", KEY, event) {
        FetchStep::Fail(message) => message,
        other => panic!("unexpected {:?}", other),
    }
}

#[test]
fn pixels_index_a_whole_palette() {
    for length in [3, 6, 765, 768] {
        let bytes = with_palette(length);
        assert!(palette_fits(&bytes));
        assert_eq!(pixel_of(bytes), vec![10, 11, 12, 255]);
    }
}

#[test]
fn a_torn_or_overlong_palette_ends_the_fetch() {
    for length in [1, 2, 4, 767, 769, 771] {
        let bytes = with_palette(length);
        assert!(!palette_fits(&bytes));
        assert_eq!(failure_of(FetchEvent::Cache(Some(bytes.clone()))), "malformed PNG palette");
        assert_eq!(failure_of(FetchEvent::Stored(bytes)), "malformed PNG palette");
    }
}

#[test]
fn a_palette_that_no_pixel_indexes_may_be_torn() {
    let bytes = file(&[header(TRUECOLOUR), chunk(b"PLTE", &[1, 2]), data(&[7, 8, 9])]);
    assert!(palette_fits(&bytes));
    assert_eq!(pixel_of(bytes), vec![7, 8, 9, 255]);
}

#[test]
fn a_missing_palette_is_left_to_the_decoder() {
    let none = file(&[header(INDEXED), data(&[0])]);
    let empty = file(&[header(INDEXED), chunk(b"PLTE", &[]), data(&[0])]);
    let late = file(&[header(INDEXED), data(&[0]), chunk(b"PLTE", &[1, 2])]);
    for bytes in [none, empty, late] {
        assert!(palette_fits(&bytes));
        let expected = image::load_from_memory(&bytes).unwrap_err().to_string();
        assert_eq!(failure_of(FetchEvent::Cache(Some(bytes))), expected);
    }
}

#[test]
fn other_chunks_before_the_palette_are_passed_over() {
    let gamma = chunk(b"gAMA", &[0, 0, 177, 143]);
    let whole = file(&[header(INDEXED), gamma.clone(), chunk(b"PLTE", &[5, 6, 7]), data(&[0])]);
    assert_eq!(pixel_of(whole), vec![5, 6, 7, 255]);
    let torn = file(&[header(INDEXED), gamma, chunk(b"PLTE", &[5, 6, 7, 8]), data(&[0])]);
    assert!(!palette_fits(&torn));
    // An empty header says nothing of the colour type.
    let second = file(&[chunk(b"IHDR", &[]), header(INDEXED), chunk(b"PLTE", &[5, 6]), data(&[0])]);
    assert!(!palette_fits(&second));
}

#[test]
fn a_chunk_checksum_is_a_crc() {
    let digits = b"..123456789..".to_vec();
    assert_eq!(checksum(&digits, 2, 11), 0xcbf4_3926);
    assert_eq!(checksum(&digits, 5, 5), 0);
    assert_eq!(checksum(&b"IEND".to_vec(), 0, 4), 0xae42_6082);
}

#[test]
fn a_file_at_fault_elsewhere_gives_the_decoder_message() {
    let torn = chunk(b"PLTE", &[1, 2, 3, 4]);
    let spoilt = |mut chunk: Vec<u8>| {
        *chunk.last_mut().unwrap() ^= 1;
        chunk
    };
    let palette_sum = file(&[header(INDEXED), spoilt(torn.clone()), data(&[0])]);
    assert!(palette_fits(&palette_sum));
    let header_sum = file(&[spoilt(header(INDEXED)), torn.clone(), data(&[0])]);
    let second_palette = file(&[header(INDEXED), torn.clone(), torn.clone(), data(&[0])]);
    let stream = file(&[header(INDEXED), torn.clone(), chunk(b"IDAT", b"no zlib stream")]);
    let no_row = file(&[header(INDEXED), torn.clone(), chunk(b"IDAT", &[])]);
    let no_data = file(&[header(INDEXED), torn]);
    for bytes in [&header_sum, &second_palette, &stream, &no_row, &no_data] {
        assert!(!palette_fits(bytes));
    }
    for bytes in [palette_sum, header_sum, second_palette, stream, no_row, no_data] {
        let expected = image::load_from_memory(&bytes).unwrap_err().to_string();
        assert_ne!(expected, "malformed PNG palette");
        assert_eq!(failure_of(FetchEvent::Cache(Some(bytes.clone()))), expected);
        assert_eq!(failure_of(FetchEvent::Stored(bytes)), expected);
    }
}

#[test]
fn a_cut_file_gives_the_decoder_message() {
    let bytes = with_palette(4);
    // The palette chunk stands at 33..49, and the image data from 57 on.
    for end in 0..57 {
        let cut = bytes[..end].to_vec();
        assert_eq!(palette_fits(&cut), end < 49);
        let expected = image::load_from_memory(&cut).unwrap_err().to_string();
        assert_eq!(failure_of(FetchEvent::Cache(Some(cut))), expected);
    }
}

#[test]
fn a_plain_palette_takes_the_place_of_a_torn_one() {
    let torn = file(&[header(INDEXED), chunk(b"PLTE", &[5, 6, 7, 8]), data(&[0])]);
    let plain = file(&[header(INDEXED), chunk(b"PLTE", &[0, 0, 0]), data(&[0])]);
    assert_eq!(replace_palette(&torn), plain);
    assert!(palette_fits(&plain));
    assert_eq!(pixel_of(plain), vec![0, 0, 0, 255]);
    let truecolour = file(&[header(TRUECOLOUR), chunk(b"PLTE", &[1, 2]), data(&[7, 8, 9])]);
    assert_eq!(replace_palette(&truecolour), truecolour);
}

#[test]
fn a_trial_never_uploads() {
    let picture = Picture { rgba: vec![1, 2, 3, 4], width: 1, height: 1 };
    assert!(matches!(step_after_trial(Ok(picture)), FetchStep::Fail(m) if m == "malformed PNG palette"));
    assert!(matches!(step_after_trial(Err("broken".to_string())), FetchStep::Fail(m) if m == "broken"));
}

#[test]
fn what_is_no_png_has_no_palette() {
    assert!(palette_fits(&vec![]));
    assert!(palette_fits(&b"not an image".to_vec()));
    let mut endless = MARK.to_vec();
    endless.extend_from_slice(&[255, 255, 255, 255]);
    endless.extend_from_slice(b"IHDR");
    endless.extend_from_slice(&header(INDEXED));
    assert!(palette_fits(&endless));
}
