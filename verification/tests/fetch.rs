use cce_map::fetch::{
    cache_root, fetch_step, refusal, report, step_after_decoding, tile_path, tile_url, url_template,
    FetchEvent, FetchStep, Message,
};
use cce_map::tiles::{FetchJob, TileKey};

const KEY: TileKey = TileKey { z: 7, x: 66, y: 42 };

fn png(width: u32, height: u32) -> Vec<u8> {
    let mut picture = image::RgbImage::new(width, height);
    picture.put_pixel(0, 0, image::Rgb([1, 2, 3]));
    let mut bytes = std::io::Cursor::new(Vec::new());
    picture.write_to(&mut bytes, image::ImageFormat::Png).unwrap();
    bytes.into_inner()
}

fn text(s: &str) -> Option<String> {
    Some(s.to_string())
}

#[test]
fn template_defaults_to_openstreetmap() {
    assert_eq!(url_template(None), "https://tile.openstreetmap.org/{z}/{x}/{y}.png");
    assert_eq!(url_template(text("http://tiles/{z}")), "http://tiles/{z}");
    assert_eq!(url_template(text("")), "");
}

#[test]
fn url_fills_the_placeholders() {
    assert_eq!(tile_url(&url_template(None), KEY), "https://tile.openstreetmap.org/7/66/42.png");
    assert_eq!(tile_url("{y}-{x}-{z}-{z}?{q}", KEY), "42-66-7-7?{q}");
    assert_eq!(tile_url("fixed", KEY), "fixed");
}

#[test]
fn cache_follows_xdg_then_home() {
    assert_eq!(cache_root(text("/c"), text("/h")), vec!["/c", "cce", "map", "tiles"]);
    assert_eq!(cache_root(text(""), text("/h")), vec!["/h", ".cache", "cce", "map", "tiles"]);
    assert_eq!(cache_root(None, text("/h")), vec!["/h", ".cache", "cce", "map", "tiles"]);
    assert_eq!(cache_root(None, None), vec!["", ".cache", "cce", "map", "tiles"]);
}

#[test]
fn every_tile_has_its_own_cache_file() {
    assert_eq!(tile_path(KEY), vec!["7", "66", "42.png"]);
    assert_ne!(tile_path(KEY), tile_path(TileKey { z: 7, x: 6, y: 642 }));
    assert_eq!(tile_path(TileKey { z: 0, x: 0, y: 0 }), vec!["0", "0", "0.png"]);
}

#[test]
fn a_cached_file_is_decoded() {
    match fetch_step("http://x/{z}", KEY, FetchEvent::Cache(Some(png(3, 2)))) {
        FetchStep::Upload(picture) => {
            assert_eq!((picture.width, picture.height), (3, 2));
            assert_eq!(picture.rgba.len(), 24);
            assert_eq!(picture.rgba[..8], [1, 2, 3, 255, 0, 0, 0, 255]);
        }
        other => panic!("unexpected {:?}", other),
    }
}

#[test]
fn a_broken_file_gives_the_decoder_message() {
    let bytes = b"not an image".to_vec();
    let expected = image::load_from_memory(&bytes).unwrap_err().to_string();
    match fetch_step("", KEY, FetchEvent::Cache(Some(bytes))) {
        FetchStep::Fail(message) => assert_eq!(message, expected),
        other => panic!("unexpected {:?}", other),
    }
}

#[test]
fn a_missing_file_is_requested() {
    match fetch_step("http://x/{z}/{x}/{y}", KEY, FetchEvent::Cache(None)) {
        FetchStep::Request(url) => assert_eq!(url, "http://x/7/66/42"),
        other => panic!("unexpected {:?}", other),
    }
}

#[test]
fn only_success_goes_on_to_the_body() {
    for code in [200u16, 204, 299] {
        assert!(matches!(fetch_step("", KEY, FetchEvent::Response(Ok(code))), FetchStep::Receive));
    }
    let failures = [
        (100u16, "HTTP 100 Continue"),
        (300, "HTTP 300 Multiple Choices"),
        (404, "HTTP 404 Not Found"),
        (599, "HTTP 599 <unknown status code>"),
    ];
    for (code, expected) in failures {
        match fetch_step("", KEY, FetchEvent::Response(Ok(code))) {
            FetchStep::Fail(message) => assert_eq!(message, expected),
            other => panic!("unexpected {:?}", other),
        }
    }
}

#[test]
fn a_refusal_names_the_status() {
    assert_eq!(refusal("404 Not Found"), "HTTP 404 Not Found");
    assert_eq!(refusal(""), "HTTP ");
}

#[test]
fn transport_errors_end_the_fetch() {
    let refused = || "refused".to_string();
    for event in [FetchEvent::Response(Err(refused())), FetchEvent::Body(Err(refused()))] {
        match fetch_step("", KEY, event) {
            FetchStep::Fail(message) => assert_eq!(message, "refused"),
            other => panic!("unexpected {:?}", other),
        }
    }
}

#[test]
fn a_body_is_stored_and_decoded() {
    let bytes = png(1, 1);
    match fetch_step("", KEY, FetchEvent::Body(Ok(bytes.clone()))) {
        FetchStep::Store(stored) => assert_eq!(stored, bytes),
        other => panic!("unexpected {:?}", other),
    }
    match fetch_step("", KEY, FetchEvent::Stored(bytes)) {
        FetchStep::Upload(picture) => assert_eq!(picture.rgba, vec![1, 2, 3, 255]),
        other => panic!("unexpected {:?}", other),
    }
}

#[test]
fn a_decoding_error_ends_the_fetch() {
    match step_after_decoding(Err("broken".to_string())) {
        FetchStep::Fail(message) => assert_eq!(message, "broken"),
        other => panic!("unexpected {:?}", other),
    }
}

#[test]
fn outcomes_are_reported() {
    let job = FetchJob { generation: 4, key: KEY };
    let (message, warning) = report(job, Ok(9));
    let Message::Tile { generation, key, image } = message;
    assert_eq!((generation, key, image), (4, KEY, Some(9)));
    assert_eq!(warning, None);
    let (message, warning) = report(job, Err("HTTP 404 Not Found".to_string()));
    let Message::Tile { generation, key, image } = message;
    assert_eq!((generation, key, image), (4, KEY, None));
    assert_eq!(warning, text("tile 7/66/42: HTTP 404 Not Found"));
}
