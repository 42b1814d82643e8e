//! Fetching a tile: where its file is cached, where it is downloaded from,
//! and which step follows which answer.

use crate::decode::{complete_picture, decoded, load_from_memory, Picture};
use crate::png::{
    law_plain_palette_is_in_order, palette_fits, palette_in_order, replace_palette,
    with_plain_palette,
};
use crate::status::{is_status, is_success, print_status, status_text};
use crate::text::{
    decimal, law_decimal_injective, lemma_decimal_digits, lemma_replaced_after, lemma_replaced_at,
    replace, replaced, stands_at, to_decimal,
};
use crate::tiles::{FetchJob, TileKey};
use vstd::prelude::*;
use vstd::string::StringExecFns;

verus! {

/// Tile server used unless another one is configured.
pub const DEFAULT_TILE_URL: &'static str = "https://tile.openstreetmap.org/{z}/{x}/{y}.png";

/// Why a file is given up of which nothing but the palette is at fault.
pub const BAD_PALETTE: &'static str = "malformed PNG palette";

/// How many fetches run at a time.
pub const FETCH_THREADS: usize = 4;

/// The URL template: the configured one, else the default.
pub fn url_template(configured: Option<String>) -> (template: String)
    ensures
        template@ == text_of(configured).unwrap_or(DEFAULT_TILE_URL@),
        match configured {
            Some(configured) => template@ == configured@,
            None => template@ == DEFAULT_TILE_URL@,
        },
{
    match configured {
        Some(configured) => configured,
        None => DEFAULT_TILE_URL.to_owned(),
    }
}

/// The text of a value that may be missing.
pub open spec fn text_of(value: Option<String>) -> Option<Seq<char>> {
    match value {
        Some(value) => Some(value@),
        None => None,
    }
}

/// The texts of a list of strings.
pub open spec fn texts(strings: Seq<String>) -> Seq<Seq<char>> {
    strings.map_values(|s: String| s@)
}

/// The directory of the tile cache as path components, for the values of
/// `XDG_CACHE_HOME` and `HOME`: the former where it is set and not empty, else
/// `.cache` under the latter.
pub open spec fn cache_root_of(
    xdg_cache_home: Option<Seq<char>>,
    home: Option<Seq<char>>,
) -> Seq<Seq<char>> {
    let base = match xdg_cache_home {
        Some(dir) if dir.len() > 0 => seq![dir],
        _ => seq![home.unwrap_or(Seq::empty()), ".cache"@],
    };
    base + seq!["cce"@, "map"@, "tiles"@]
}

/// The path components of the tile cache directory.
pub fn cache_root(xdg_cache_home: Option<String>, home: Option<String>) -> (path: Vec<String>)
    ensures
        texts(path@) == cache_root_of(text_of(xdg_cache_home), text_of(home)),
{
    let mut path: Vec<String> = Vec::new();
    let ghost root = cache_root_of(text_of(xdg_cache_home), text_of(home));
    let set: bool = match &xdg_cache_home {
        Some(dir) => !dir.as_str().is_empty(),
        None => false,
    };
    if set {
        if let Some(dir) = xdg_cache_home {
            path.push(dir);
        }
    } else {
        match home {
            Some(dir) => path.push(dir),
            None => path.push(String::new()),
        }
        path.push(".cache".to_owned());
    }
    path.push("cce".to_owned());
    path.push("map".to_owned());
    path.push("tiles".to_owned());
    assert(texts(path@) =~= root);
    path
}

/// The path of a tile's file below the cache directory: zoom, column, and row
/// with its extension.
pub open spec fn tile_path_of(key: TileKey) -> Seq<Seq<char>> {
    seq![decimal(key.z as nat), decimal(key.x as nat), decimal(key.y as nat) + ".png"@]
}

/// The path components of a tile's file below the cache directory.
pub fn tile_path(key: TileKey) -> (path: Vec<String>)
    ensures
        texts(path@) == tile_path_of(key),
{
    let mut path: Vec<String> = Vec::new();
    path.push(to_decimal(key.z as u32));
    path.push(to_decimal(key.x));
    path.push(to_decimal(key.y).concat(".png"));
    assert(texts(path@) =~= tile_path_of(key));
    path
}

/// The template with the tile's zoom, column and row put in for `{z}`, `{x}`
/// and `{y}`, in that order.
pub open spec fn tile_url_of(template: Seq<char>, key: TileKey) -> Seq<char> {
    let z = replaced(template, "{z}"@, decimal(key.z as nat));
    let x = replaced(z, "{x}"@, decimal(key.x as nat));
    replaced(x, "{y}"@, decimal(key.y as nat))
}

/// The address a tile is downloaded from.
pub fn tile_url(template: &str, key: TileKey) -> (url: String)
    ensures
        url@ == tile_url_of(template@, key),
        url@ == replaced(
            replaced(
                replaced(template@, "{z}"@, decimal(key.z as nat)),
                "{x}"@,
                decimal(key.x as nat),
            ),
            "{y}"@,
            decimal(key.y as nat),
        ),
{
    proof {
        reveal_strlit("{z}");
        reveal_strlit("{x}");
        reveal_strlit("{y}");
    }
    let z: String = replace(template, "{z}", to_decimal(key.z as u32).as_str());
    let x: String = replace(z.as_str(), "{x}", to_decimal(key.x).as_str());
    replace(x.as_str(), "{y}", to_decimal(key.y).as_str())
}

/// An answer to a step of a fetch.
#[derive(Debug)]
pub enum FetchEvent {
    /// The cache was read: the file's bytes, or nothing where it cannot be
    /// read.
    Cache(Option<Vec<u8>>),
    /// The request was answered with a status, or failed.
    Response(Result<u16, String>),
    /// The body was received, or failed to arrive.
    Body(Result<Vec<u8>, String>),
    /// The bytes were written to the cache, or could not be: either way the
    /// fetch goes on with them.
    Stored(Vec<u8>),
}

/// What a fetch does next.
#[derive(Debug)]
pub enum FetchStep {
    /// Request this address.
    Request(String),
    /// Receive the body of the response.
    Receive,
    /// Write these bytes to the tile's cache file.
    Store(Vec<u8>),
    /// Upload this picture; its image is the fetch's result.
    Upload(Picture),
    /// Give up, with this message.
    Fail(String),
}

/// What a fetch does next, over plain values.
pub enum FetchPlan {
    Request(Seq<char>),
    Receive,
    Store(Seq<u8>),
    Upload((Seq<u8>, u32, u32)),
    Fail(Seq<char>),
}

impl View for FetchStep {
    type V = FetchPlan;

    open spec fn view(&self) -> FetchPlan {
        match self {
            FetchStep::Request(url) => FetchPlan::Request(url@),
            FetchStep::Receive => FetchPlan::Receive,
            FetchStep::Store(bytes) => FetchPlan::Store(bytes@),
            FetchStep::Upload(picture) => FetchPlan::Upload(picture@),
            FetchStep::Fail(message) => FetchPlan::Fail(message@),
        }
    }
}

/// The step after decoding: upload the picture, or give up with the decoder's
/// message.
pub open spec fn after_decoding(
    result: Result<(Seq<u8>, u32, u32), Seq<char>>,
) -> FetchPlan {
    match result {
        Ok(picture) => FetchPlan::Upload(picture),
        Err(message) => FetchPlan::Fail(message),
    }
}

/// The step after decoding with another palette a file whose own is not in
/// order: give up, with the decoder's message where it finds another fault.
pub open spec fn after_trial(result: Result<(Seq<u8>, u32, u32), Seq<char>>) -> FetchPlan {
    match result {
        Ok(_) => FetchPlan::Fail(BAD_PALETTE@),
        Err(message) => FetchPlan::Fail(message),
    }
}

/// The step after a tile's file is at hand. It is decoded; where its palette is
/// not in order, a plain one takes its place, so that a fault elsewhere in the
/// file is still reported in the decoder's words.
pub open spec fn after_reading(bytes: Seq<u8>) -> FetchPlan {
    if palette_in_order(bytes) {
        after_decoding(decoded(bytes))
    } else {
        after_trial(decoded(with_plain_palette(bytes)))
    }
}

/// The message for an answer that is no success, whose status reads so.
pub open spec fn refusal_of(status: Seq<char>) -> Seq<char> {
    "HTTP "@ + status
}

/// The step after each answer.
pub open spec fn next_step(template: Seq<char>, key: TileKey, event: FetchEvent) -> FetchPlan {
    match event {
        FetchEvent::Cache(Some(bytes)) => after_reading(bytes@),
        FetchEvent::Cache(None) => FetchPlan::Request(tile_url_of(template, key)),
        FetchEvent::Response(Ok(code)) => if 200 <= code < 300 {
            FetchPlan::Receive
        } else {
            FetchPlan::Fail(refusal_of(status_text(code)))
        },
        FetchEvent::Response(Err(message)) => FetchPlan::Fail(message@),
        FetchEvent::Body(Ok(bytes)) => FetchPlan::Store(bytes@),
        FetchEvent::Body(Err(message)) => FetchPlan::Fail(message@),
        FetchEvent::Stored(bytes) => after_reading(bytes@),
    }
}

/// Decides what to do with the outcome of decoding.
pub fn step_after_decoding(result: Result<Picture, String>) -> (step: FetchStep)
    ensures
        step@ == after_decoding(
            match result {
                Ok(picture) => Ok(picture@),
                Err(message) => Err(message@),
            },
        ),
        match result {
            Ok(picture) => step == FetchStep::Upload(picture),
            Err(message) => step == FetchStep::Fail(message),
        },
{
    match result {
        Ok(picture) => FetchStep::Upload(picture),
        Err(message) => FetchStep::Fail(message),
    }
}

/// Decides what to do with the outcome of decoding with another palette.
pub fn step_after_trial(result: Result<Picture, String>) -> (step: FetchStep)
    ensures
        step@ == after_trial(
            match result {
                Ok(picture) => Ok(picture@),
                Err(message) => Err(message@),
            },
        ),
        match result {
            Ok(_) => step matches FetchStep::Fail(message) && message@ == BAD_PALETTE@,
            Err(message) => step == FetchStep::Fail(message),
        },
{
    match result {
        Ok(_) => FetchStep::Fail(BAD_PALETTE.to_owned()),
        Err(message) => FetchStep::Fail(message),
    }
}

/// Decides what to do with a tile's file.
fn step_after_reading(bytes: &Vec<u8>) -> (step: FetchStep)
    ensures
        step@ == after_reading(bytes@),
        step@ matches FetchPlan::Upload(picture) ==> complete_picture(picture),
{
    if palette_fits(bytes) {
        step_after_decoding(load_from_memory(bytes))
    } else {
        proof {
            law_plain_palette_is_in_order(bytes@);
        }
        step_after_trial(load_from_memory(&replace_palette(bytes)))
    }
}

/// Words the message for an answer that is no success.
pub fn refusal(status: &str) -> (message: String)
    ensures
        message@ == refusal_of(status@),
        message@ == "HTTP "@ + status@,
{
    let mut message: String = "HTTP ".to_owned();
    message.append(status);
    message
}

/// Decides what a fetch of `key` does next. A cached file is used as it is;
/// else the tile is downloaded, a successful answer is written to the cache,
/// and then decoded.
pub fn fetch_step(template: &str, key: TileKey, event: FetchEvent) -> (step: FetchStep)
    requires
        event matches FetchEvent::Response(Ok(code)) ==> is_status(code),
    ensures
        step@ == next_step(template@, key, event),
        step@ matches FetchPlan::Upload(picture) ==> complete_picture(picture),
{
    match event {
        FetchEvent::Cache(Some(bytes)) => step_after_reading(&bytes),
        FetchEvent::Cache(None) => FetchStep::Request(tile_url(template, key)),
        FetchEvent::Response(Ok(code)) => {
            if is_success(code) {
                FetchStep::Receive
            } else {
                FetchStep::Fail(refusal(print_status(code).as_str()))
            }
        },
        FetchEvent::Response(Err(message)) => FetchStep::Fail(message),
        FetchEvent::Body(Ok(bytes)) => FetchStep::Store(bytes),
        FetchEvent::Body(Err(message)) => FetchStep::Fail(message),
        FetchEvent::Stored(bytes) => step_after_reading(&bytes),
    }
}

/// A message from a fetch to the application.
#[derive(Debug, Clone, Copy)]
pub enum Message {
    Tile { generation: u64, key: TileKey, image: Option<u32> },
}

/// The warning for a failed fetch: which tile, and why.
pub open spec fn warning_of(key: TileKey, reason: Seq<char>) -> Seq<char> {
    "tile "@ + decimal(key.z as nat) + "/"@ + decimal(key.x as nat) + "/"@ + decimal(key.y as nat)
        + ": "@ + reason
}

/// Reports the outcome of a fetch: the message for the application, and a
/// warning to log where it failed.
pub fn report(job: FetchJob, outcome: Result<u32, String>) -> (report: (Message, Option<String>))
    ensures
        report.0 == (Message::Tile {
            generation: job.generation,
            key: job.key,
            image: match outcome {
                Ok(image) => Some(image),
                Err(_) => None,
            },
        }),
        match outcome {
            Ok(_) => report.1 is None,
            Err(reason) => report.1 is Some && report.1->0@ == warning_of(job.key, reason@),
        },
        outcome matches Err(reason) ==> report.1->0@ == "tile "@ + decimal(job.key.z as nat) + "/"@
            + decimal(job.key.x as nat) + "/"@ + decimal(job.key.y as nat) + ": "@ + reason@,
{
    let generation: u64 = job.generation;
    let key: TileKey = job.key;
    match outcome {
        Ok(image) => (Message::Tile { generation, key, image: Some(image) }, None),
        Err(reason) => {
            let mut warning: String = "tile ".to_owned();
            warning.append(to_decimal(key.z as u32).as_str());
            warning.append("/");
            warning.append(to_decimal(key.x).as_str());
            warning.append("/");
            warning.append(to_decimal(key.y).as_str());
            warning.append(": ");
            warning.append(reason.as_str());
            (Message::Tile { generation, key, image: None }, Some(warning))
        },
    }
}

/// What is said of texts is said of the strings that hold them, one for one.
pub proof fn law_texts_are_those_of_the_strings(value: Option<String>, strings: Seq<String>, i: int)
    ensures
        text_of(value) is Some <==> value is Some,
        value matches Some(string) ==> text_of(value) == Some(string@),
        texts(strings).len() == strings.len(),
        0 <= i < strings.len() ==> texts(strings)[i] == strings[i]@,
{
}

/// The cache lies in `cce/map/tiles`, under `XDG_CACHE_HOME` whatever the home
/// directory where that is set and not empty, and else under `.cache` in the
/// home directory, or in the current one where there is no home.
pub proof fn law_cache_lies_in_its_base(xdg_cache_home: Option<Seq<char>>, home: Option<Seq<char>>)
    ensures
        ({
            let root = cache_root_of(xdg_cache_home, home);
            let n = root.len() as int;
            &&& n >= 4
            &&& root[n - 3] == "cce"@
            &&& root[n - 2] == "map"@
            &&& root[n - 1] == "tiles"@
            &&& xdg_cache_home is Some && xdg_cache_home->0.len() > 0 ==> {
                &&& n == 4
                &&& root[0] == xdg_cache_home->0
            }
            &&& xdg_cache_home is None || xdg_cache_home->0.len() == 0 ==> {
                &&& n == 5
                &&& root[1] == ".cache"@
                &&& home is Some ==> root[0] == home->0
                &&& home is None ==> root[0].len() == 0
            }
        }),
{
    let root = cache_root_of(xdg_cache_home, home);
    let base = root.take(root.len() - 3);
    assert(root =~= base + seq!["cce"@, "map"@, "tiles"@]);
}

/// A tile's file is found by its numbers: a directory for the zoom, in it one
/// for the column, and in that a PNG file for the row.
pub proof fn law_cache_file_names_its_tile(key: TileKey)
    ensures
        ({
            let path = tile_path_of(key);
            &&& path.len() == 3
            &&& path[0] == decimal(key.z as nat)
            &&& path[1] == decimal(key.x as nat)
            &&& path[2].len() == decimal(key.y as nat).len() + 4
            &&& path[2].take(path[2].len() - 4) == decimal(key.y as nat)
            &&& path[2].skip(path[2].len() - 4) == ".png"@
        }),
{
    reveal_strlit(".png");
    let file = tile_path_of(key)[2];
    assert(file.take(file.len() - 4) =~= decimal(key.y as nat));
    assert(file.skip(file.len() - 4) =~= ".png"@);
}

/// Every tile has a cache file of its own.
pub proof fn law_cache_files_are_distinct(a: TileKey, b: TileKey)
    requires
        tile_path_of(a) == tile_path_of(b),
    ensures
        a == b,
{
    let p = tile_path_of(a);
    let q = tile_path_of(b);
    assert(p[0] == q[0] && p[1] == q[1] && p[2] == q[2]);
    law_decimal_injective(a.z as nat, b.z as nat);
    law_decimal_injective(a.x as nat, b.x as nat);
    reveal_strlit(".png");
    let y = decimal(a.y as nat);
    let w = decimal(b.y as nat);
    assert(p[2].take(p[2].len() - 4) =~= y);
    assert(q[2].take(q[2].len() - 4) =~= w);
    law_decimal_injective(a.y as nat, b.y as nat);
}

/// A template that holds each placeholder once, in the order zoom, column, row,
/// and no other brace, gives an address with the three numbers in their places.
#[verifier::spinoff_prover]
#[verifier::rlimit(40)]
pub proof fn law_url_fills_placeholders(
    template: Seq<char>,
    key: TileKey,
    a: Seq<char>,
    b: Seq<char>,
    c: Seq<char>,
    d: Seq<char>,
)
    requires
        template == a + "{z}"@ + b + "{x}"@ + c + "{y}"@ + d,
        !a.contains('{'),
        !b.contains('{'),
        !c.contains('{'),
        !d.contains('{'),
    ensures
        tile_url_of(template, key) == a + decimal(key.z as nat) + b + decimal(key.x as nat) + c
            + decimal(key.y as nat) + d,
{
    reveal_strlit("{z}");
    reveal_strlit("{x}");
    reveal_strlit("{y}");
    let (z, x, y) = (decimal(key.z as nat), decimal(key.x as nat), decimal(key.y as nat));
    lemma_decimal_digits(key.z as nat);
    lemma_decimal_digits(key.x as nat);
    lemma_decimal_digits(key.y as nat);
    let (pz, px, py) = ("{z}"@, "{x}"@, "{y}"@);
    // First pass: the zoom.
    let rest_z = b + px + c + py + d;
    assert(template =~= a + (pz + rest_z));
    lemma_replaced_after(a, pz + rest_z, pz, z);
    lemma_replaced_at(rest_z, pz, z);
    lemma_replaced_past(b, px, c + py + d, pz, z);
    lemma_replaced_past(c, py, d, pz, z);
    lemma_replaced_plain(d, pz, z);
    assert(rest_z =~= b + px + (c + py + d));
    let first = replaced(template, pz, z);
    assert(first =~= a + z + b + px + c + py + d);
    // Second pass: the column.
    let head = a + z + b;
    let rest_x = c + py + d;
    assert(first =~= head + (px + rest_x));
    lemma_replaced_after(head, px + rest_x, px, x);
    lemma_replaced_at(rest_x, px, x);
    lemma_replaced_past(c, py, d, px, x);
    lemma_replaced_plain(d, px, x);
    let second = replaced(first, px, x);
    assert(second =~= a + z + b + x + c + py + d);
    // Third pass: the row.
    let most = a + z + b + x + c;
    assert(second =~= most + (py + d));
    lemma_replaced_after(most, py + d, py, y);
    lemma_replaced_at(d, py, y);
    lemma_replaced_plain(d, py, y);
    assert(replaced(second, py, y) =~= a + z + b + x + c + y + d);
}

/// A part of a URL template.
pub enum UrlPart {
    Text(Seq<char>),
    Zoom,
    Column,
    Row,
}

/// The parts one after the other, with these texts for zoom, column and row.
pub open spec fn spelled(
    parts: Seq<UrlPart>,
    z: Seq<char>,
    x: Seq<char>,
    y: Seq<char>,
) -> Seq<char>
    decreases parts.len(),
{
    if parts.len() == 0 {
        Seq::empty()
    } else {
        let head = match parts[0] {
            UrlPart::Text(text) => text,
            UrlPart::Zoom => z,
            UrlPart::Column => x,
            UrlPart::Row => y,
        };
        head + spelled(parts.skip(1), z, x, y)
    }
}

/// Whatever a template is put together from, in whatever order and however
/// often, its address has the tile's numbers in place of the placeholders and
/// the text between them as it is.
#[verifier::spinoff_prover]
#[verifier::rlimit(40)]
pub proof fn law_url_fills_every_placeholder(parts: Seq<UrlPart>, key: TileKey)
    requires
        forall|i: int|
            0 <= i < parts.len() ==> ((#[trigger] parts[i]) matches UrlPart::Text(text)
                ==> !text.contains('{')),
    ensures
        tile_url_of(spelled(parts, "{z}"@, "{x}"@, "{y}"@), key) == spelled(
            parts,
            decimal(key.z as nat),
            decimal(key.x as nat),
            decimal(key.y as nat),
        ),
{
    reveal_strlit("{z}");
    reveal_strlit("{x}");
    reveal_strlit("{y}");
    let (z, x, y) = (decimal(key.z as nat), decimal(key.x as nat), decimal(key.y as nat));
    lemma_decimal_digits(key.z as nat);
    lemma_decimal_digits(key.x as nat);
    lemma_decimal_digits(key.y as nat);
    let (pz, px, py) = ("{z}"@, "{x}"@, "{y}"@);
    assert(!z.contains('{') && !x.contains('{') && !y.contains('{'));
    assert(pz[0] == '{' && px[0] == '{' && py[0] == '{');
    assert(pz[1] == 'z' && px[1] == 'x' && py[1] == 'y');
    assert(pz.contains('{') && px.contains('{') && py.contains('{'));
    assert(passed_over(px, pz) && passed_over(py, pz));
    assert(passed_over(z, px) && passed_over(py, px));
    assert(passed_over(z, py) && passed_over(x, py));
    lemma_spelled_replaced(parts, (pz, px, py), (z, px, py), pz, z);
    lemma_spelled_replaced(parts, (z, px, py), (z, x, py), px, x);
    lemma_spelled_replaced(parts, (z, x, py), (z, x, y), py, y);
}

/// A text that is passed over in looking for a placeholder: one without a
/// brace, or another placeholder.
spec fn passed_over(text: Seq<char>, pat: Seq<char>) -> bool {
    ||| !text.contains('{')
    ||| text.len() == 3 && text[0] == '{' && text[1] != pat[1] && text[1] != '{' && text[2] != '{'
}

spec fn slot_replaced(from: Seq<char>, to: Seq<char>, pat: Seq<char>, with: Seq<char>) -> bool {
    if from == pat {
        to == with
    } else {
        to == from && passed_over(from, pat)
    }
}

proof fn lemma_spelled_replaced(
    parts: Seq<UrlPart>,
    from: (Seq<char>, Seq<char>, Seq<char>),
    to: (Seq<char>, Seq<char>, Seq<char>),
    pat: Seq<char>,
    with: Seq<char>,
)
    requires
        pat.len() == 3,
        pat[0] == '{',
        slot_replaced(from.0, to.0, pat, with),
        slot_replaced(from.1, to.1, pat, with),
        slot_replaced(from.2, to.2, pat, with),
        forall|i: int|
            0 <= i < parts.len() ==> ((#[trigger] parts[i]) matches UrlPart::Text(text)
                ==> !text.contains('{')),
    ensures
        replaced(spelled(parts, from.0, from.1, from.2), pat, with) == spelled(
            parts,
            to.0,
            to.1,
            to.2,
        ),
    decreases parts.len(),
{
    if parts.len() > 0 {
        let rest = parts.skip(1);
        lemma_spelled_replaced(rest, from, to, pat, with);
        let tail = spelled(rest, from.0, from.1, from.2);
        let head = match parts[0] {
            UrlPart::Text(text) => text,
            UrlPart::Zoom => from.0,
            UrlPart::Column => from.1,
            UrlPart::Row => from.2,
        };
        if head == pat {
            assert(pat.contains('{'));
            lemma_replaced_at(tail, pat, with);
        } else if !head.contains('{') {
            lemma_replaced_after(head, tail, pat, with);
        } else {
            lemma_replaced_past(Seq::empty(), head, tail, pat, with);
            assert(Seq::<char>::empty() + head =~= head);
        }
    }
}

/// Text without a brace holds no placeholder.
proof fn lemma_replaced_plain(text: Seq<char>, pat: Seq<char>, with: Seq<char>)
    requires
        pat.len() > 0,
        pat[0] == '{',
        !text.contains('{'),
    ensures
        replaced(text, pat, with) == text,
{
    lemma_replaced_after(text, Seq::empty(), pat, with);
    assert(text + Seq::<char>::empty() =~= text);
}

/// Another placeholder is passed over.
proof fn lemma_replaced_past(
    before: Seq<char>,
    other: Seq<char>,
    rest: Seq<char>,
    pat: Seq<char>,
    with: Seq<char>,
)
    requires
        pat.len() == 3,
        other.len() == 3,
        pat[0] == '{',
        other[0] == '{',
        other[1] != pat[1],
        other[1] != '{',
        other[2] != '{',
        !before.contains('{'),
    ensures
        replaced(before + other + rest, pat, with) == before + other + replaced(rest, pat, with),
{
    let tail = other + rest;
    assert(before + other + rest =~= before + tail);
    lemma_replaced_after(before, tail, pat, with);
    assert(!stands_at(tail, pat, 0)) by {
        if stands_at(tail, pat, 0) {
            assert(tail.subrange(0, 3)[1] == tail[1]);
        }
    }
    let two = other.skip(1);
    assert(tail.skip(1) =~= two + rest);
    lemma_replaced_after(two, rest, pat, with);
    assert(before + (seq![tail[0]] + (two + replaced(rest, pat, with))) =~= before + other
        + replaced(rest, pat, with));
}

/// With the default template, a tile is downloaded from its zoom, column and
/// row on the default server.
#[verifier::spinoff_prover]
#[verifier::rlimit(40)]
pub proof fn law_default_url(key: TileKey)
    ensures
        tile_url_of(DEFAULT_TILE_URL@, key) == "https://tile.openstreetmap.org/"@ + decimal(
            key.z as nat,
        ) + "/"@ + decimal(key.x as nat) + "/"@ + decimal(key.y as nat) + ".png"@,
{
    reveal_strlit("https://tile.openstreetmap.org/{z}/{x}/{y}.png");
    reveal_strlit("https://tile.openstreetmap.org/");
    reveal_strlit("/");
    reveal_strlit(".png");
    reveal_strlit("{z}");
    reveal_strlit("{x}");
    reveal_strlit("{y}");
    let (a, b, d) = ("https://tile.openstreetmap.org/"@, "/"@, ".png"@);
    assert(DEFAULT_TILE_URL@ =~= a + "{z}"@ + b + "{x}"@ + b + "{y}"@ + d);
    law_url_fills_placeholders(DEFAULT_TILE_URL@, key, a, b, b, d);
}

/// A request is made only where the cache has no file, a body is received only
/// after a successful answer, and nothing but a received body is stored; once
/// that is done the fetch ends, with a picture or a message.
pub proof fn law_cache_before_network(template: Seq<char>, key: TileKey, event: FetchEvent)
    ensures
        next_step(template, key, event) is Request ==> event == FetchEvent::Cache(None),
        next_step(template, key, event) is Receive ==> (event matches FetchEvent::Response(Ok(code))
            && 200 <= code < 300),
        next_step(template, key, event) is Store ==> (event matches FetchEvent::Body(Ok(bytes))
            && next_step(template, key, event) == FetchPlan::Store(bytes@)),
        event is Stored ==> next_step(template, key, event) is Upload || next_step(
            template,
            key,
            event,
        ) is Fail,
{
}

/// The plan is what the step does: the same kind of step, on the same text,
/// bytes or picture, its pixels, width and height included.
pub proof fn law_plan_is_of_the_step(step: FetchStep)
    ensures
        match step {
            FetchStep::Request(url) => step@ == FetchPlan::Request(url@),
            FetchStep::Receive => step@ == FetchPlan::Receive,
            FetchStep::Store(bytes) => step@ == FetchPlan::Store(bytes@),
            FetchStep::Upload(picture) => step@ == FetchPlan::Upload(
                (picture.rgba@, picture.width, picture.height),
            ),
            FetchStep::Fail(message) => step@ == FetchPlan::Fail(message@),
        },
{
}

/// Every file that decodes is uploaded, whether it was cached or has just been
/// stored, as exactly the picture that it decodes to, of whatever size. A fetch
/// fails at this point only if the file does not decode, with the decoder's
/// message, or if its palette is not in order, with the decoder's message on
/// anything else that is wrong with it.
pub proof fn law_every_picture_is_uploaded(
    template: Seq<char>,
    key: TileKey,
    event: FetchEvent,
    bytes: Vec<u8>,
)
    requires
        event == FetchEvent::Cache(Some(bytes)) || event == FetchEvent::Stored(bytes),
    ensures
        palette_in_order(bytes@) && decoded(bytes@) is Ok ==> next_step(template, key, event)
            == FetchPlan::Upload(decoded(bytes@)->Ok_0),
        palette_in_order(bytes@) && decoded(bytes@) is Err ==> next_step(template, key, event)
            == FetchPlan::Fail(decoded(bytes@)->Err_0),
        !palette_in_order(bytes@) && decoded(with_plain_palette(bytes@)) is Err ==> next_step(
            template,
            key,
            event,
        ) == FetchPlan::Fail(decoded(with_plain_palette(bytes@))->Err_0),
        !palette_in_order(bytes@) && decoded(with_plain_palette(bytes@)) is Ok ==> next_step(
            template,
            key,
            event,
        ) == FetchPlan::Fail("malformed PNG palette"@),
{
}

/// Each answer leads to one step and each step follows one answer. A file that
/// is not cached is requested from its own address, and nothing else is; a body
/// is received after a successful answer and after no other; a body is stored as
/// it came, and nothing else is; and an answer that is no success, or an error,
/// ends the fetch with its own text.
pub proof fn law_each_answer_has_its_step(template: Seq<char>, key: TileKey, event: FetchEvent)
    ensures
        next_step(template, key, event) is Request <==> event == FetchEvent::Cache(None),
        event == FetchEvent::Cache(None) ==> next_step(template, key, event)
            == FetchPlan::Request(tile_url_of(template, key)),
        next_step(template, key, event) is Receive <==> (event matches FetchEvent::Response(Ok(code))
            && 200 <= code <= 299),
        next_step(template, key, event) is Store <==> event is Body && event->Body_0 is Ok,
        event matches FetchEvent::Body(Ok(bytes)) ==> next_step(template, key, event)
            == FetchPlan::Store(bytes@),
        event matches FetchEvent::Response(Ok(code)) ==> (code < 200 || 299 < code ==> next_step(
            template,
            key,
            event,
        ) == FetchPlan::Fail("HTTP "@ + status_text(code))),
        event matches FetchEvent::Response(Err(message)) ==> next_step(template, key, event)
            == FetchPlan::Fail(message@),
        event matches FetchEvent::Body(Err(message)) ==> next_step(template, key, event)
            == FetchPlan::Fail(message@),
{
}

/// A downloaded tile and a cached one with the same bytes are the same tile.
pub proof fn law_cached_as_downloaded(template: Seq<char>, key: TileKey, a: Vec<u8>, b: Vec<u8>)
    requires
        a@ == b@,
    ensures
        next_step(template, key, FetchEvent::Stored(a)) == next_step(
            template,
            key,
            FetchEvent::Cache(Some(b)),
        ),
{
}

} // verus!
