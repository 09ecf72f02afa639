use crow_text::{sha1_hash, Sha1};

#[test]
fn sha1_empty() {
    assert_eq!(sha1_hash(""), "da39a3ee5e6b4b0d3255bfef95601890afd80709");
}

#[test]
fn sha1_abc() {
    assert_eq!(sha1_hash("abc"), "a9993e364706816aba3e25717850c26c9cd0d89d");
}

#[test]
fn sha1_two_blocks() {
    assert_eq!(
        sha1_hash("abcdbcdecdefdefgefghfghighijhijkijkljklmklmnlmnomnopnopq"),
        "84983e441c3bd26ebaae4aa1f95129e5e54670f1"
    );
}

#[test]
fn sha1_quick_brown_fox() {
    assert_eq!(
        sha1_hash("The quick brown fox jumps over the lazy dog"),
        "2fd4e1c67a2d28fced849ee1bb76e7391b93eb12"
    );
}

#[test]
fn sha1_million_a() {
    let text = "a".repeat(1_000_000);
    assert_eq!(sha1_hash(&text), "34aa973cd4c4daa4f61eeb2bdbad27316534016f");
}

#[test]
fn sha1_streaming_matches_one_shot() {
    let mut sha = Sha1::new();
    sha.update_str("ab");
    sha.update_str("c");
    assert_eq!(sha.digest(), sha1_hash("abc"));
}

#[test]
fn sha1_streaming_piece_sizes() {
    let data: Vec<u8> = (0..300u32).map(|i| (i * 7 + 3) as u8).collect();
    let text: String = data.iter().map(|&b| (b'a' + b % 26) as char).collect();
    let expected = sha1_hash(&text);
    for piece in [1usize, 3, 55, 56, 63, 64, 65, 128, 300] {
        let mut sha = Sha1::new();
        for chunk in text.as_bytes().chunks(piece) {
            sha.update_bytes(chunk);
        }
        assert_eq!(sha.digest(), expected, "piece size {}", piece);
    }
}

#[test]
fn sha1_padding_boundaries() {
    // Messages whose tail needs one or two final blocks.
    let mut seen = Vec::new();
    for len in [55usize, 56, 63, 64, 119, 120] {
        let text = "x".repeat(len);
        let mut sha = Sha1::new();
        sha.update_bytes(text.as_bytes());
        let d = sha.digest();
        assert_eq!(d.len(), 40);
        assert_eq!(d, sha1_hash(&text));
        seen.push(d);
    }
    seen.sort();
    seen.dedup();
    assert_eq!(seen.len(), 6);
}

#[test]
fn sha1_digest_is_lowercase_hex() {
    let d = sha1_hash("hello");
    assert_eq!(d, "aaf4c61ddcc5e8a2dabede0f3b482cd9aea9434d");
    assert!(d.chars().all(|c| c.is_ascii_digit() || ('a'..='f').contains(&c)));
}
