use promtuz::transfer::encode_frame;
use promtuz::transfer::frame_len;
use promtuz::transfer::gc_dead_partials;
use promtuz::transfer::local_auth;
use promtuz::transfer::read_frame;
use promtuz::transfer::retention_expired;
use promtuz::transfer::verify_auth;
use promtuz::transfer::Auth;
use promtuz::transfer::AuthError;
use promtuz::transfer::FrameError;
use promtuz::transfer::Manifest;
use promtuz::transfer::ManifestBuilder;
use promtuz::transfer::Partial;
use promtuz::transfer::ACTIVE;
use promtuz::transfer::CHUNK_SIZE;
use promtuz::transfer::DONE;
use promtuz::transfer::FAILED;
use promtuz::transfer::HELD;
use promtuz::transfer::MAX_FRAME;

fn manifest_of(data: &[u8]) -> Manifest {
    let mut b = ManifestBuilder::new();
    for block in data.chunks(CHUNK_SIZE) {
        if !b.add_block(block) {
            break;
        }
    }
    b.finish()
}

#[test]
fn manifest_file_id_is_deterministic() {
    let m1 = Manifest { total_size: 10, chunk_size: 4, chunks: vec![[1u8; 32], [2u8; 32], [3u8; 32]] };
    let m2 = m1.clone();
    assert_eq!(m1.file_id(), m2.file_id());

    let mut m3 = m1.clone();
    m3.chunks[0] = [9u8; 32];
    assert_ne!(m1.file_id(), m3.file_id());
}

#[test]
fn file_id_hashes_the_tagged_manifest() {
    let m = Manifest { total_size: 10, chunk_size: 4, chunks: vec![[1u8; 32]] };
    let mut pre = b"promtuz/transfer/manifest".to_vec();
    pre.extend_from_slice(&10u64.to_le_bytes());
    pre.extend_from_slice(&4u32.to_le_bytes());
    pre.extend_from_slice(&[1u8; 32]);
    assert_eq!(m.file_id(), *blake3::hash(&pre).as_bytes());
}

#[test]
fn from_file_chunks_a_partial_trailing_block() {
    let data = vec![0xabu8; 300 * 1024];
    let m = manifest_of(&data);
    assert_eq!(m.total_size, 300 * 1024);
    assert_eq!(m.chunk_size, CHUNK_SIZE as u32);
    assert_eq!(m.chunks.len(), 2);
    assert_eq!(m.chunks[1], *blake3::hash(&data[CHUNK_SIZE..]).as_bytes());
}

#[test]
fn from_file_exact_multiple_has_no_empty_trailing_chunk() {
    let data = vec![0u8; 2 * CHUNK_SIZE];
    let mut b = ManifestBuilder::new();
    assert!(b.add_block(&data[..CHUNK_SIZE]));
    assert!(b.add_block(&data[CHUNK_SIZE..]));
    assert!(!b.add_block(&[]));
    let m = b.finish();
    assert_eq!(m.total_size, 2 * CHUNK_SIZE as u64);
    assert_eq!(m.chunks.len(), 2);
}

#[test]
fn frames_roundtrip_and_refuse_oversize() {
    let framed = encode_frame(b"hello").unwrap();
    assert_eq!(&framed[..4], &5u32.to_le_bytes());
    let mut stream = framed.clone();
    stream.extend_from_slice(b"next");
    let (payload, used) = read_frame(&stream).unwrap();
    assert_eq!(payload, b"hello");
    assert_eq!(used, 9);
    assert_eq!(read_frame(&framed[..6]), Err(FrameError::Truncated));
    assert_eq!(frame_len(&((MAX_FRAME as u32) + 1).to_le_bytes()), Err(FrameError::TooLarge));
    assert_eq!(frame_len(&(MAX_FRAME as u32).to_le_bytes()), Ok(MAX_FRAME));
    assert_eq!(encode_frame(&vec![0u8; MAX_FRAME + 1]), Err(FrameError::TooLarge));
}

fn auth(ipk: u8, tls: u8) -> Auth {
    Auth { ipk: [ipk; 32], tls_pub: [tls; 32], sig: [0u8; 64] }
}

#[test]
fn accepts_paired_peer_with_valid_binding() {
    let a = auth(31, 32);
    assert!(verify_auth(&a, a.ipk, a.tls_pub, true, true).is_ok());
}

#[test]
fn rejects_unexpected_ipk() {
    let a = auth(33, 34);
    assert_eq!(verify_auth(&a, [9u8; 32], a.tls_pub, true, true), Err(AuthError::IpkMismatch));
}

#[test]
fn rejects_tls_key_the_connection_did_not_present() {
    let a = auth(35, 36);
    assert_eq!(verify_auth(&a, a.ipk, [0xeeu8; 32], true, true), Err(AuthError::TlsKeyMismatch));
}

#[test]
fn rejects_invalid_binding_sig() {
    let a = auth(37, 39);
    assert_eq!(verify_auth(&a, a.ipk, a.tls_pub, false, true), Err(AuthError::BadBinding));
}

#[test]
fn rejects_unpaired_peer() {
    let a = auth(40, 41);
    assert_eq!(verify_auth(&a, a.ipk, a.tls_pub, true, false), Err(AuthError::NotPaired));
}

#[test]
fn local_auth_needs_an_identity() {
    assert_eq!(local_auth(None, [1u8; 32], [2u8; 64]), Err(AuthError::NoIdentity));
    let a = local_auth(Some([3u8; 32]), [1u8; 32], [2u8; 64]).unwrap();
    assert_eq!(a, Auth { ipk: [3u8; 32], tls_pub: [1u8; 32], sig: [2u8; 64] });
}

#[test]
fn retention_gc_drops_expired_keeps_sentinel() {
    assert!(!retention_expired(u64::MAX, 20), "the sentinel never expires");
    assert!(retention_expired(10, 20));
    assert!(retention_expired(20, 20), "at the expiry instant it goes");
    assert!(!retention_expired(21, 20));
}

fn partial(fid: u8, state: u8, updated_at: u64) -> Partial {
    Partial {
        file_id: [fid; 32],
        source_ipk: [9u8; 32],
        total: 5,
        chunk_size: 5,
        manifest: None,
        have: 0,
        state,
        path: format!("/tmp/gc-{fid}.part"),
        updated_at,
    }
}

#[test]
fn gc_dead_partials_reaps_dead_but_spares_done() {
    let rows = vec![
        partial(0xd1, FAILED, 100),
        partial(0xd2, DONE, 100),
        partial(0xd3, FAILED, 5000),
        partial(0xd4, HELD, 999),
        partial(0xd5, ACTIVE, 1),
    ];
    let (flags, paths) = gc_dead_partials(&rows, 1000);
    assert_eq!(flags, vec![true, false, false, true, false]);
    assert_eq!(paths, vec!["/tmp/gc-209.part".to_string(), "/tmp/gc-212.part".to_string()]);
}
