use lib::bitpack::{b2g, g2b, pack, unpack};
use lib::glyph::{blkrev, evo, g_n, g_q, g_r, gview, revb, rol, ror, uevo, xd, xu};
use lib::lz::{flush, lz_c, lz_d, LzError};
use lib::pm::PM;
use lib::prism::{a_ap, a_in};
use lib::sha::{sha256, sha_hex};
use lib::train::{body_span, contains_bytes, train_core, BodyError};
use lib::unified::{codebook, epoch_root, group_gate, leaf, pid16, BITS, GLYPH_QPRISM_TAG};

fn sha_chain(seed: &[u8], n: usize) -> Vec<u8> {
    let mut out = Vec::new();
    let mut s = sha256(seed);
    while out.len() < n {
        out.extend_from_slice(&s);
        s = sha256(&s);
    }
    out.truncate(n);
    out
}

fn kv(k: &str, v: &str) -> (Vec<u8>, Vec<u8>) {
    (k.as_bytes().to_vec(), v.as_bytes().to_vec())
}

#[test]
fn lz_exact_archive() {
    let d = b"abcabcabcabc";
    let arc = lz_c(d);
    let mut want = b"LZ1\0".to_vec();
    want.extend_from_slice(&12u64.to_le_bytes());
    want.extend_from_slice(&[0, 3, 0, b'a', b'b', b'c', 1, 3, 0, 9, 0]);
    assert_eq!(arc, want);
    assert_eq!(lz_d(&arc), Ok(d.to_vec()));
}

#[test]
fn lz_two_literal_bytes() {
    let arc = lz_c(&[1, 2]);
    let mut want = b"LZ1\0".to_vec();
    want.extend_from_slice(&2u64.to_le_bytes());
    want.extend_from_slice(&[0, 2, 0, 1, 2]);
    assert_eq!(arc, want);
}

#[test]
fn lz_empty_archive() {
    let arc = lz_c(b"");
    let mut want = b"LZ1\0".to_vec();
    want.extend_from_slice(&0u64.to_le_bytes());
    assert_eq!(arc, want);
    assert_eq!(lz_d(&arc), Ok(Vec::new()));
}

#[test]
fn lz_roundtrip_various() {
    let mut long_run = vec![7u8; 70000];
    long_run.extend_from_slice(&sha_chain(b"tail", 70000));
    let cases: Vec<Vec<u8>> = vec![
        vec![1],
        vec![1, 2],
        vec![0x41; 5000],
        sha_chain(b"lz", 3000),
        long_run,
        b"the quick brown fox jumps over the lazy dog. the quick brown fox.".to_vec(),
    ];
    for d in cases {
        assert_eq!(lz_d(&lz_c(&d)), Ok(d));
    }
}

#[test]
fn lz_refusals() {
    assert_eq!(lz_d(b"LZ1"), Err(LzError::Header));
    assert_eq!(lz_d(b"LZ2\0\0\0\0\0\0\0\0\0"), Err(LzError::Header));
    let mut h = b"LZ1\0".to_vec();
    h.extend_from_slice(&5u64.to_le_bytes());
    let mut t = h.clone();
    t.push(2);
    assert_eq!(lz_d(&t), Err(LzError::Tag));
    let mut t = h.clone();
    t.extend_from_slice(&[0, 5]);
    assert_eq!(lz_d(&t), Err(LzError::Literal));
    let mut t = h.clone();
    t.extend_from_slice(&[0, 5, 0, 1, 2]);
    assert_eq!(lz_d(&t), Err(LzError::LiteralOverflow));
    let mut t = h.clone();
    t.extend_from_slice(&[1, 1, 0, 4]);
    assert_eq!(lz_d(&t), Err(LzError::Match));
    let mut t = h.clone();
    t.extend_from_slice(&[1, 1, 0, 4, 0]);
    assert_eq!(lz_d(&t), Err(LzError::MatchOffset));
    let mut t = h.clone();
    t.extend_from_slice(&[0, 2, 0, 9, 9]);
    assert_eq!(lz_d(&t), Err(LzError::Length));
    let mut t = h.clone();
    t.extend_from_slice(&[0, 1, 0, 9, 1, 1, 0, 4, 0]);
    assert_eq!(lz_d(&t), Ok(vec![9; 5]));
    assert_eq!(LzError::MatchOffset.message(), "moff");
    assert_eq!(LzError::Header.message(), "lz hdr");
}

#[test]
fn lz_flush_splits_long_runs() {
    let mut o = Vec::new();
    let mut l = vec![3u8; 65536];
    flush(&mut o, &mut l);
    assert!(l.is_empty());
    assert_eq!(o.len(), 3 + 65535 + 3 + 1);
    assert_eq!(o[..3].to_vec(), vec![0, 0xff, 0xff]);
    assert_eq!(o[65538..65541].to_vec(), vec![0, 1, 0]);
}

#[test]
fn predictor_pair_roundtrip() {
    let g: Vec<u16> = sha_chain(b"pm", 1500).iter().map(|&b| (b as u16) * 3).collect();
    for order in 1..=5u8 {
        let mut enc = PM::new(BITS, order, 1);
        let mut dec = PM::new(BITS, order, 1);
        assert_eq!(enc.commit, dec.commit);
        for ep in 1..=3u32 {
            let res = enc.enc(&g);
            assert_eq!(res.len(), g.len());
            let back = dec.dec(&res);
            assert_eq!(back, g);
            assert_eq!(enc.commit, dec.commit);
            assert_eq!(enc.ep, ep);
        }
    }
}

#[test]
fn predictor_learns_repetition() {
    let g: Vec<u16> = (0..2000u32).map(|i| (i % 7) as u16).collect();
    let mut enc = PM::new(BITS, 2, 0);
    enc.enc(&g);
    let res = enc.enc(&g);
    let zeros = res.iter().filter(|&&r| r == 0).count();
    assert!(zeros > 1900);
}

#[test]
fn epoch_root_is_order_free_and_separated() {
    let l1 = vec![b"b".to_vec(), b"a".to_vec()];
    let l2 = vec![b"a".to_vec(), b"b".to_vec()];
    assert_eq!(epoch_root(1, b"p", &l1), epoch_root(1, b"p", &l2));
    assert_ne!(epoch_root(1, b"p", &l1), epoch_root(2, b"p", &l1));
    assert_ne!(epoch_root(1, b"p", &l1), epoch_root(1, b"q", &l1));
    assert_eq!(epoch_root(1, b"p", &l1).len(), 64);
}

#[test]
fn leaf_fields_are_length_prefixed() {
    let a = leaf(&[kv("x", "y"), kv("z", "")]);
    let b = leaf(&[kv("x", "yz"), kv("z", "")]);
    assert_ne!(a, b);
    let mut m = b"UNIFIED-LEAF-V1\0".to_vec();
    m.extend_from_slice(&[1, 0, 0, 0, b'x', 1, 0, 0, 0, b'y', 1, 0, 0, 0, b'z', 0, 0, 0, 0]);
    assert_eq!(a, sha_hex(&m).into_bytes());
}

#[test]
fn pid_is_sixteen_hex_digits() {
    assert_eq!(pid16(b"abc"), b"ba7816bf8f01cfea".to_vec());
}

#[test]
fn glyph_involutions() {
    let d: Vec<u16> = sha_chain(b"glyphs", 1200).chunks(2).map(|c| ((c[0] as u16) << 2 | (c[1] as u16) >> 6) & 0x3ff).collect();
    assert_eq!(g_r(&g_r(&d)), d);
    assert_eq!(g_n(&g_n(&d, 10), 10), d);
    assert_eq!(g_q(&g_q(&d, 10), 10), d);
    assert_eq!(xu(&xd(&d)), d);
    assert_eq!(uevo(&evo(&d)), d);
    assert_eq!(blkrev(&blkrev(&d, 256), 256), d);
    let full = gview(&d, 7, 10);
    let tot: Vec<u16> = d.iter().rev().map(|&g| revb(g, 10)).collect();
    assert_eq!(full, tot);
    for g in [0u16, 1, 0x155, 0x3ff, 0x200] {
        assert_eq!(ror(rol(g, 10), 10), g);
    }
    assert_eq!(rol(0x200, 10), 1);
    assert_eq!(revb(1, 10), 0x200);
    assert_eq!(xd(&[5, 6, 6]), vec![5, 3, 0]);
    assert_eq!(evo(&[1, 2, 3, 4, 5]), vec![1, 3, 5, 2, 4]);
}

#[test]
fn a_views_undo() {
    let d: Vec<u16> = sha_chain(b"views", 1400).iter().map(|&b| (b as u16) << 2 | 1).collect();
    let ss = sha256(b"seed");
    for a in 0..8 {
        let v = a_ap(a, &d, BITS, &ss, &GLYPH_QPRISM_TAG);
        assert_eq!(v.len(), d.len());
        assert_eq!(a_in(a, &v, BITS, &ss, &GLYPH_QPRISM_TAG), d);
    }
}

#[test]
fn pack_and_glyph_roundtrips() {
    let bytes = sha_chain(b"pack", 333);
    let g = b2g(&bytes, 10);
    assert_eq!(g.len(), (333 * 8 + 9) / 10);
    assert_eq!(g2b(&g, 10, bytes.len()), bytes);
    let p = pack(&g, 10);
    assert_eq!(p.len(), (g.len() * 10 + 7) / 8);
    assert_eq!(unpack(&p, 10, g.len()), g);
    assert_eq!(pack(&[0x3ff, 1], 10), vec![0xff, 0xc0, 0x10]);
}

#[test]
fn codebook_tables_invert() {
    let seed = sha256(b"KROOT");
    let (p, inv, cb) = codebook(&seed, BITS);
    assert_eq!(p.len(), 1024);
    for x in 0..1024usize {
        assert_eq!(inv[p[x] as usize] as usize, x);
    }
    let mut pb = Vec::new();
    for &x in &p {
        pb.extend_from_slice(&x.to_le_bytes());
    }
    assert_eq!(cb, sha_hex(&pb).into_bytes());
}

#[test]
fn group_gate_refuses_constant_glyphs() {
    let zero = vec![0u16; 4096];
    assert!(!group_gate(&zero, BITS).ok);
    let pal: Vec<u16> = vec![5, 900, 17, 3, 17, 900, 5];
    let rep = group_gate(&pal, BITS);
    assert!(!rep.ok);
    assert!(rep.distinct < 8);
    let d: Vec<u16> = sha_chain(b"gate", 2000).iter().map(|&b| (b as u16) << 2).collect();
    let rep = group_gate(&d, BITS);
    assert!(rep.ok);
    assert_eq!(rep.distinct, 8);
    let zero_rep = group_gate(&zero, BITS);
    assert!(zero_rep.rr && zero_rep.nn && zero_rep.qq && zero_rep.rn);
    assert!(zero_rep.rq && zero_rep.nq && zero_rep.rnq);
    assert!(zero_rep.distinct < 8);
}

#[test]
fn body_spans_cover_source() {
    assert_eq!(body_span(1, 8, 100), (0, 12));
    assert_eq!(body_span(8, 8, 100), (87, 100));
    let mut last = 0;
    for i in 1..=12 {
        let (s, e) = body_span(i, 12, 1000);
        assert_eq!(s, last);
        last = e;
    }
    assert_eq!(last, 1000);
}

#[test]
fn duplicate_codebooks_found() {
    let list = vec![b"ab".to_vec(), b"cd".to_vec()];
    assert!(contains_bytes(&list, b"cd"));
    assert!(!contains_bytes(&list, b"c"));
}

#[test]
fn train_body_counts_every_cell() {
    let src = sha_chain(b"UNIFIED-SELFTEST", 1600);
    let root = sha_hex(&src);
    match train_core(b"T", 1, &src, 1, root.as_bytes()) {
        Ok(c) => {
            assert_eq!(c.cells, 80);
            assert_eq!(c.accepted + c.held, 80);
            assert_eq!(c.glyphs, (1600 * 8 + 9) / 10);
            assert_eq!(c.views.len(), 8);
            assert_eq!(c.codebook.len(), 64);
            assert!(c.gate.ok);
        }
        Err(_) => panic!("body refused"),
    }
}

#[test]
fn train_body_refuses_constant_bytes() {
    let src = vec![0u8; 3000];
    match train_core(b"T", 1, &src, 1, b"root") {
        Err(BodyError::GroupGate(rep)) => assert!(!rep.ok),
        _ => panic!("constant body accepted"),
    }
}

#[test]
fn body_spans_large_sources() {
    let ln = usize::MAX;
    let (s, e) = body_span(3, 4, ln);
    assert_eq!(s as u128, 2 * (ln as u128) / 4);
    assert_eq!(e as u128, 3 * (ln as u128) / 4);
    assert_eq!(body_span(4, 4, ln).1, ln);
}

#[test]
fn predictor_predicts_most_frequent_glyph() {
    let mut p = PM::new(BITS, 1, 0);
    let k = p.key(0, 5);
    for &g in &[7u16, 3, 7, 3, 9, 3] {
        p.upd(k, g);
    }
    assert_eq!(p.pred(k), (3, 3, 6));
    let mut q = PM::new(BITS, 1, 0);
    for &g in &[9u16, 4, 9, 4] {
        q.upd(k, g);
    }
    assert_eq!(q.pred(k), (4, 2, 4));
    assert_eq!(q.pred(k + 1), (0, 0, 0));
}
