use lib::dirmix::{self, DirMode};
use lib::expand;
use lib::ladder::LadderError;
use lib::ladder_codec;
use lib::lzp;
use lib::mix;
use lib::pilot;
use lib::sha::{sha256, sha_hex};

fn sha_chain(seed: &[u8], n: usize) -> Vec<u8> {
    let mut out = Vec::new();
    let mut s = sha256(seed);
    while out.len() < n {
        out.extend_from_slice(&s);
        s = sha256(&s);
    }
    out.truncate(n);
    out
}

fn text(n: usize) -> Vec<u8> {
    let phrase = b"the quick brown fox jumps over the lazy dog. ";
    let mut t = Vec::new();
    while t.len() < n {
        t.extend_from_slice(phrase);
    }
    t.truncate(n);
    t
}

fn cases() -> Vec<Vec<u8>> {
    vec![
        Vec::new(),
        vec![0x5a],
        vec![0xff, 0x00],
        vec![0x61; 700],
        sha_chain(b"codec-test", 900),
        text(1200),
    ]
}

#[test]
fn sha256_known_digests() {
    assert_eq!(
        sha_hex(b"abc"),
        "ba7816bf8f01cfea414140de5dae2223b00361a396177a9cb410ff61f20015ad"
    );
    assert_eq!(
        sha_hex(b""),
        "e3b0c44298fc1c149afbf4c8996fb92427ae41e4649b934ca495991b7852b855"
    );
    let long = vec![0x61u8; 1000];
    assert_eq!(
        sha_hex(&long),
        "41edece42d63e8d9bf515a9ba6932e1c20cbc9f5a5d134645adb5db1b9737ea3"
    );
}

#[test]
fn pilot_roundtrip() {
    for d in cases() {
        let arc = pilot::compress(&d);
        assert_eq!(arc[..8].to_vec(), (d.len() as u64).to_le_bytes().to_vec());
        assert_eq!(pilot::decompress(&arc), d);
    }
}

#[test]
fn pilot_repetition_compresses() {
    let d = vec![0x41u8; 4000];
    let arc = pilot::compress(&d);
    assert!(arc.len() < d.len() / 10);
}

#[test]
fn mix_roundtrip() {
    for d in cases() {
        let arc = mix::compress(&d);
        assert_eq!(mix::decompress(&arc), d);
    }
}

#[test]
fn match_model_roundtrip() {
    for d in cases() {
        let arc = lzp::compress(&d);
        assert_eq!(lzp::decompress(&arc), d);
    }
}

#[test]
fn dir_roundtrip_all_modes() {
    for mode in [DirMode::Expand, DirMode::Dup, DirMode::Shuffle] {
        for d in cases() {
            let r = dirmix::compress(&d, 2, mode);
            assert_eq!(dirmix::decompress(&r.archive), d);
        }
    }
}

#[test]
fn dir_refuses_truncated_header() {
    assert_eq!(dirmix::try_decompress(&[0u8; 10]), None);
    let r = dirmix::compress(b"abcdefgh", 1, DirMode::Dup);
    assert_eq!(dirmix::try_decompress(&r.archive), Some(b"abcdefgh".to_vec()));
    let cut = &r.archive[..r.archive.len() - r.heldout_bytes - 1];
    assert_eq!(dirmix::try_decompress(cut), None);
}

#[test]
fn dir_mode_names() {
    assert_eq!(DirMode::Expand.name(), "expand");
    assert_eq!(DirMode::Dup.name(), "dup");
    assert_eq!(DirMode::Shuffle.name(), "shuffle");
    assert_eq!(DirMode::parse("dup"), DirMode::Dup);
    assert_eq!(DirMode::parse("shuffle"), DirMode::Shuffle);
    assert_eq!(DirMode::parse("anything"), DirMode::Expand);
    for m in [DirMode::Expand, DirMode::Dup, DirMode::Shuffle] {
        assert_eq!(DirMode::from_u8(m.as_u8()), m);
    }
}

#[test]
fn expand_roundtrip_eight_directions() {
    for d in cases() {
        assert!(expand::rt_ok(&d, 8, DirMode::Expand));
        let arc = expand::compress(&d, 8, DirMode::Expand);
        assert_eq!(expand::decompress(&arc), d);
    }
}

#[test]
fn expand_roundtrip_forty_directions() {
    let d = text(400);
    let arc = expand::compress(&d, 40, DirMode::Expand);
    assert_eq!(expand::decompress(&arc), d);
    assert!(expand::rt_ok(&sha_chain(b"forty", 300), 40, DirMode::Expand));
}

#[test]
fn expand_byte_transforms() {
    assert_eq!(expand::revbyte(0x01), 0x80);
    assert_eq!(expand::revbyte(0xf0), 0x0f);
    assert_eq!(expand::rol8(0x81), 0x03);
    assert_eq!(expand::swapnib(0xab), 0xba);
}

#[test]
fn ladder_roundtrip() {
    for d in cases() {
        let (arc, reports, unified) = ladder_codec::compress(&d);
        assert_eq!(reports.len(), 4);
        assert_eq!(unified.len(), 64);
        assert_eq!(ladder_codec::decompress(&arc), Ok(d.clone()));
        assert_eq!(ladder_codec::try_decompress(&arc), Some(Ok(d)));
    }
}

#[test]
fn ladder_refusals() {
    assert_eq!(ladder_codec::try_decompress(&[1, 2, 3]), Some(Err(LadderError::TooShort)));
    let (mut arc, _, _) = ladder_codec::compress(b"some bytes to keep");
    arc[0] ^= 0xff;
    assert_eq!(ladder_codec::try_decompress(&arc), Some(Err(LadderError::BadMagic)));
}

#[test]
fn squash_never_decreases() {
    let mut prev = lib::logistic::squash(-3000);
    assert_eq!(prev, 0);
    for d in -2999..3000 {
        let cur = lib::logistic::squash(d);
        assert!(prev <= cur);
        assert!((0..=4095).contains(&cur));
        prev = cur;
    }
    assert_eq!(lib::logistic::squash(0), 2047);
    assert_eq!(prev, 4095);
}

#[test]
fn encoder_only_appends() {
    let mut e = lib::coder::Encoder::new();
    let bits = sha_chain(b"bits", 400);
    let mut before: Vec<u8> = Vec::new();
    for (i, b) in bits.iter().enumerate() {
        e.encode((*b & 1) as u32, ((i * 37) % 4096) as u32);
        assert!(e.out.starts_with(&before));
        before = e.out.clone();
    }
    assert!(!e.out.is_empty());
}

#[test]
fn seeded_order_is_a_permutation() {
    for n in [0usize, 1, 2, 40, 257] {
        let mut p = expand::perm_of(n, 12345);
        p.sort();
        assert_eq!(p, (0..n).collect::<Vec<usize>>());
    }
}
