use pixel_pain::canvas::Canvas;
use pixel_pain::codec::{decrypt_image, decrypt_stream, encode, encrypt_image};
use pixel_pain::digest::{bytes_equal, copy_bytes, digest_pixel, hex_char, DIGEST_LEN};
use pixel_pain::pixel::{pixels_from_rgba, pixels_to_rgba, Pixel};
use pixel_pain::search::{partition, search_chunk, search_digest, RecoveredPixel, SearchChunk};
use pixel_pain::stream::{parse, serialize, DecodeError, EncodedStream};

const BLUE_HEX: &str = "346C60C31E403C5E55B20CC3834D60FE9824168703DC83F526DDB2CEC45CE5064A37BA14F98FBEE6C80EE49C909961ACFD53E7B1F55E7ACA19AB98A379695BA3";
const SMALL_HEX: &str = "9DBD2D22E2053BC8F4CEBD0A89404C3A628EA161F077347672E7D4D9EEED46CF2615DA8686F84EA4B6C19DBCAA07CE90A8B707954307E22C5C0D01AF9840FA88";

fn px(r: u8, g: u8, b: u8, a: u8) -> Pixel {
    Pixel { r, g, b, a }
}

fn hex(d: &[u8]) -> String {
    d.iter().map(|b| format!("{:02X}", b)).collect()
}

fn text(t: &[u8]) -> String {
    String::from_utf8(t.to_vec()).unwrap()
}

fn blue_image() -> Vec<Pixel> {
    vec![px(0, 0, 255, 255); 100]
}

#[test]
fn digest_is_sha3_of_pixel_label() {
    let d = digest_pixel(px(0, 0, 255, 255));
    assert_eq!(d.len(), DIGEST_LEN);
    assert_eq!(hex(&d), BLUE_HEX);
    assert_eq!(hex(&digest_pixel(px(0, 0, 1, 2))), SMALL_HEX);
}

#[test]
fn digest_is_deterministic() {
    for p in [px(0, 0, 0, 0), px(1, 2, 3, 4), px(255, 255, 255, 255)] {
        assert_eq!(digest_pixel(p), digest_pixel(p));
    }
    assert_ne!(digest_pixel(px(1, 2, 3, 4)), digest_pixel(px(4, 3, 2, 1)));
}

#[test]
fn hex_chars_are_upper_case() {
    assert_eq!(hex_char(0), b'0');
    assert_eq!(hex_char(9), b'9');
    assert_eq!(hex_char(10), b'A');
    assert_eq!(hex_char(15), b'F');
}

#[test]
fn byte_helpers() {
    let v = vec![1u8, 2, 3];
    assert!(bytes_equal(&v, &copy_bytes(&v)));
    assert!(!bytes_equal(&v, &vec![1u8, 2]));
    assert!(!bytes_equal(&v, &vec![1u8, 2, 4]));
}

#[test]
fn rgba_codec_round_trip() {
    let raw = vec![1u8, 2, 3, 4, 5, 6, 7, 8];
    let p = pixels_from_rgba(&raw);
    assert_eq!(p, vec![px(1, 2, 3, 4), px(5, 6, 7, 8)]);
    assert_eq!(pixels_to_rgba(&p), raw);
    assert!(pixels_from_rgba(&Vec::new()).is_empty());
}

#[test]
fn encode_ten_by_ten_blue() {
    let t = text(&encrypt_image(10, 10, &blue_image()));
    let parts: Vec<&str> = t.split(';').collect();
    assert_eq!(parts[0], "10:10");
    assert_eq!(parts.len(), 101);
    assert!(parts[1..].iter().all(|d| *d == BLUE_HEX));
}

#[test]
fn end_to_end_ten_by_ten_blue() {
    let image = blue_image();
    let t = encrypt_image(10, 10, &image);
    for workers in [1usize, 3] {
        let c = decrypt_stream(&t, workers).unwrap();
        assert_eq!(c.width, 10);
        assert_eq!(c.height, 10);
        assert_eq!(c.pixels, image);
    }
}

#[test]
fn end_to_end_mixed_pixels() {
    let image = vec![px(0, 0, 1, 2), px(0, 0, 0, 7), px(0, 0, 1, 2), px(0, 0, 0, 0), px(0, 0, 0, 7), px(0, 0, 2, 0)];
    let t = encrypt_image(3, 2, &image);
    let c = decrypt_stream(&t, 4).unwrap();
    assert_eq!((c.width, c.height), (3, 2));
    assert_eq!(c.pixels, image);
    assert_eq!(c.get_pixel(2, 1), px(0, 0, 2, 0));
}

#[test]
fn empty_image_round_trip() {
    let t = encrypt_image(0, 5, &Vec::new());
    assert_eq!(text(&t), "0:5");
    let c = decrypt_image(&t).unwrap();
    assert_eq!((c.width, c.height), (0, 5));
    assert!(c.pixels.is_empty());
}

#[test]
fn serialize_parse_round_trip() {
    let image = vec![px(9, 8, 7, 6), px(0, 0, 255, 255)];
    let s = encode(2, 1, &image);
    let t = serialize(&s);
    let back = parse(&t).unwrap();
    assert_eq!(back.width, 2);
    assert_eq!(back.height, 1);
    assert_eq!(back.digests, s.digests);
    assert_eq!(hex(&back.digests[1]), BLUE_HEX);
}

#[test]
fn serialize_writes_header_and_hex() {
    let s = EncodedStream { width: 1, height: 1, digests: vec![vec![0xABu8; 64]] };
    let t = text(&serialize(&s));
    assert_eq!(t, format!("1:1;{}", "AB".repeat(64)));
    let s = EncodedStream { width: 4294967295, height: 0, digests: Vec::new() };
    assert_eq!(text(&serialize(&s)), "4294967295:0");
}

fn malformed(t: &str) -> bool {
    matches!(parse(&t.as_bytes().to_vec()), Err(DecodeError::MalformedStream))
}

#[test]
fn parse_rejects_wrong_digest_count() {
    let one = format!(";{}", BLUE_HEX);
    assert!(malformed(&format!("2:1{}", one)));
    assert!(malformed(&format!("1:1{}{}", one, one)));
    assert!(malformed("1:1"));
    assert!(!malformed(&format!("1:1{}", one)));
}

#[test]
fn parse_rejects_bad_fields() {
    let one = format!(";{}", BLUE_HEX);
    assert!(malformed(""));
    assert!(malformed(&format!("11{}", one)));
    assert!(malformed(&format!(":1{}", one)));
    assert!(malformed(&format!("1:{}", one)));
    assert!(malformed(&format!("01:1{}", one)));
    assert!(malformed(&format!("1:1x{}", one)));
    assert!(malformed("4294967296:0"));
    assert!(malformed(&format!("1:1;{}", BLUE_HEX.to_lowercase())));
    assert!(malformed(&format!("1:1;{}", &BLUE_HEX[..126])));
    assert!(malformed(&format!("1:1{};", one)));
    assert!(!malformed("0:0"));
    assert!(!malformed("4294967295:0"));
}

#[test]
fn partition_splits_evenly_rounding_up() {
    let ds: Vec<Vec<u8>> = (0u8..10).map(|i| vec![i]).collect();
    let chunks = partition(&ds, 3);
    assert_eq!(chunks.len(), 3);
    let lens: Vec<usize> = chunks.iter().map(|c| c.digests.len()).collect();
    assert_eq!(lens, vec![4, 4, 2]);
    let bases: Vec<usize> = chunks.iter().map(|c| c.base_index).collect();
    assert_eq!(bases, vec![0, 4, 8]);
    let ids: Vec<usize> = chunks.iter().map(|c| c.chunk_id).collect();
    assert_eq!(ids, vec![0, 1, 2]);
    let joined: Vec<Vec<u8>> = chunks.into_iter().flat_map(|c| c.digests).collect();
    assert_eq!(joined, ds);
}

#[test]
fn partition_more_workers_than_digests() {
    let ds: Vec<Vec<u8>> = (0u8..2).map(|i| vec![i]).collect();
    let chunks = partition(&ds, 5);
    assert_eq!(chunks.len(), 5);
    let lens: Vec<usize> = chunks.iter().map(|c| c.digests.len()).collect();
    assert_eq!(lens, vec![1, 1, 0, 0, 0]);
    let bases: Vec<usize> = chunks.iter().map(|c| c.base_index).collect();
    assert_eq!(bases, vec![0, 1, 2, 2, 2]);
    let none = partition(&Vec::new(), 2);
    assert!(none.iter().all(|c| c.digests.is_empty() && c.base_index == 0));
}

#[test]
fn search_recovers_known_pixel() {
    assert_eq!(search_digest(&digest_pixel(px(0, 0, 1, 2))), Some(px(0, 0, 1, 2)));
    assert_eq!(search_digest(&digest_pixel(px(0, 0, 0, 0))), Some(px(0, 0, 0, 0)));
}

#[test]
fn search_chunk_places_values_at_base() {
    let chunk = SearchChunk {
        chunk_id: 1,
        base_index: 7,
        digests: vec![digest_pixel(px(0, 0, 0, 3)), digest_pixel(px(0, 0, 0, 3)), digest_pixel(px(0, 0, 1, 0))],
    };
    let out = search_chunk(&chunk).unwrap();
    assert_eq!(
        out,
        vec![
            RecoveredPixel { linear_index: 7, value: px(0, 0, 0, 3) },
            RecoveredPixel { linear_index: 8, value: px(0, 0, 0, 3) },
            RecoveredPixel { linear_index: 9, value: px(0, 0, 1, 0) },
        ]
    );
    let empty = SearchChunk { chunk_id: 0, base_index: 0, digests: Vec::new() };
    assert_eq!(search_chunk(&empty), Some(Vec::new()));
}

#[test]
fn canvas_assemble_writes_by_index() {
    let mut c = Canvas::new(3, 2);
    assert_eq!(c.pixels, vec![px(0, 0, 0, 0); 6]);
    c.assemble(&vec![
        RecoveredPixel { linear_index: 4, value: px(1, 1, 1, 1) },
        RecoveredPixel { linear_index: 2, value: px(2, 2, 2, 2) },
        RecoveredPixel { linear_index: 4, value: px(3, 3, 3, 3) },
    ]);
    assert_eq!(c.get_pixel(1, 1), px(3, 3, 3, 3));
    assert_eq!(c.get_pixel(2, 0), px(2, 2, 2, 2));
    assert_eq!(c.get_pixel(0, 0), px(0, 0, 0, 0));
    c.put_pixel(0, 1, px(5, 5, 5, 5));
    assert_eq!(c.pixels[3], px(5, 5, 5, 5));
}

#[test]
fn decrypt_reports_malformed_stream() {
    let t = "3:3;00".as_bytes().to_vec();
    assert_eq!(decrypt_stream(&t, 2).err(), Some(DecodeError::MalformedStream));
    assert_eq!(decrypt_image(&t).err(), Some(DecodeError::MalformedStream));
}
