use ed25519_dalek::Signer;
use ed25519_dalek::SigningKey;
use promtuz::handshake::client_auth_message;
use promtuz::handshake::verify_client_proof;
use promtuz::handshake::server_handshake_step;
use promtuz::handshake::verify_signature;
use promtuz::handshake::ClientRegistry;
use promtuz::handshake::HandshakeInput;
use promtuz::handshake::RejectReason;
use promtuz::handshake::ServerHandshake;
use promtuz::handshake::ServerHandshakeAction;
use promtuz::handshake::PROTOCOL_VERSION;

fn key(seed: u8) -> SigningKey {
    SigningKey::from_bytes(&[seed; 32])
}

fn sign_nonce(key: &SigningKey, nonce: &[u8; 32]) -> [u8; 64] {
    key.sign(&client_auth_message(nonce)).to_bytes()
}

#[test]
fn accepts_a_genuine_proof() {
    let key = key(11);
    let nonce = [7u8; 32];
    let sig = sign_nonce(&key, &nonce);
    assert!(verify_client_proof(&key.verifying_key().to_bytes(), &nonce, &sig));
}

#[test]
fn rejects_garbage_signature() {
    let victim = key(12).verifying_key().to_bytes();
    let nonce = [7u8; 32];
    assert!(!verify_client_proof(&victim, &nonce, &[0u8; 64]));
    assert!(!verify_client_proof(&victim, &nonce, &[0xffu8; 64]));
}

#[test]
fn rejects_proof_from_a_different_key() {
    let attacker = key(13);
    let victim = key(14).verifying_key().to_bytes();
    let nonce = [7u8; 32];
    let sig = sign_nonce(&attacker, &nonce);
    assert!(!verify_client_proof(&victim, &nonce, &sig));
}

#[test]
fn rejects_proof_for_a_different_nonce() {
    let key = key(15);
    let sig = sign_nonce(&key, &[1u8; 32]);
    assert!(!verify_client_proof(&key.verifying_key().to_bytes(), &[2u8; 32], &sig));
}

#[test]
fn rejects_malformed_signature_length() {
    let key = key(16);
    let nonce = [7u8; 32];
    assert!(!verify_client_proof(&key.verifying_key().to_bytes(), &nonce, &[]));
    assert!(!verify_client_proof(&key.verifying_key().to_bytes(), &nonce, &[0u8; 63]));
}

#[test]
fn transcript_binds_version_and_nonce() {
    let m = client_auth_message(&[3u8; 32]);
    assert_eq!(&m[..12], b"relay-auth-v");
    assert_eq!(&m[12..16], &PROTOCOL_VERSION.to_be_bytes());
    assert_eq!(&m[16..], &[3u8; 32]);
}

#[test]
fn last_connection_wins_and_old_cleanup_spares_it() {
    let mut clients = ClientRegistry::new();
    assert_eq!(clients.register([1u8; 32], 10), None);
    assert_eq!(clients.register([2u8; 32], 20), None);
    assert_eq!(clients.register([1u8; 32], 11), Some(10));
    assert_eq!(clients.lookup(&[1u8; 32]), Some(11));
    assert!(!clients.remove_if_same(&[1u8; 32], 10), "the displaced connection's cleanup is a no-op");
    assert_eq!(clients.lookup(&[1u8; 32]), Some(11));
    assert!(clients.remove_if_same(&[1u8; 32], 11));
    assert_eq!(clients.lookup(&[1u8; 32]), None);
    assert_eq!(clients.lookup(&[2u8; 32]), Some(20));
}

fn undecodable_key() -> [u8; 32] {
    (0u8..=255)
        .map(|b| {
            let mut k = [0u8; 32];
            k[0] = b;
            k[31] = 0x7f;
            k
        })
        .find(|k| ed25519_dalek::VerifyingKey::from_bytes(k).is_err())
        .expect("some y-coordinate is off the curve")
}

#[test]
fn relay_handshake_accepts_a_proven_identity() {
    let key = key(21);
    let ipk = key.verifying_key().to_bytes();
    let nonce = [9u8; 32];
    let (state, action) = server_handshake_step(ServerHandshake::AwaitHello, HandshakeInput::Hello { ipk }, nonce);
    assert!(matches!(action, ServerHandshakeAction::Challenge { nonce: n } if n == nonce));
    let sig = sign_nonce(&key, &nonce).to_vec();
    let (state, action) = server_handshake_step(state, HandshakeInput::Proof { sig }, [0u8; 32]);
    assert!(matches!(state, ServerHandshake::Done { ipk: i } if i == ipk));
    assert!(matches!(action, ServerHandshakeAction::Accept { ipk: i } if i == ipk));
}

#[test]
fn relay_handshake_rejects_a_bad_proof_and_packets_out_of_order() {
    let key = key(22);
    let ipk = key.verifying_key().to_bytes();
    let nonce = [9u8; 32];
    let (state, _) = server_handshake_step(ServerHandshake::AwaitHello, HandshakeInput::Hello { ipk }, nonce);
    // Signed over another nonce: the proof is for a different challenge.
    let stale = sign_nonce(&key, &[8u8; 32]).to_vec();
    let (state, action) = server_handshake_step(state, HandshakeInput::Proof { sig: stale }, nonce);
    assert!(matches!(state, ServerHandshake::Failed));
    assert!(matches!(action, ServerHandshakeAction::Reject { reason: RejectReason::InvalidSignature }));

    let (_, action) =
        server_handshake_step(ServerHandshake::AwaitHello, HandshakeInput::Proof { sig: vec![0u8; 64] }, nonce);
    assert!(matches!(action, ServerHandshakeAction::Reject { reason: RejectReason::OrderMismatch }));
    let (_, action) = server_handshake_step(
        ServerHandshake::AwaitProof { ipk, nonce },
        HandshakeInput::Hello { ipk },
        nonce,
    );
    assert!(matches!(action, ServerHandshakeAction::Reject { reason: RejectReason::OrderMismatch }));
    let (state, action) = server_handshake_step(ServerHandshake::AwaitHello, HandshakeInput::Malformed, nonce);
    assert!(matches!(state, ServerHandshake::Failed));
    assert!(matches!(action, ServerHandshakeAction::Drop));
}

#[test]
fn relay_handshake_drops_an_undecodable_identity() {
    let (state, action) =
        server_handshake_step(ServerHandshake::AwaitHello, HandshakeInput::Hello { ipk: undecodable_key() }, [1u8; 32]);
    assert!(matches!(state, ServerHandshake::Failed));
    assert!(matches!(action, ServerHandshakeAction::Drop));
}

#[test]
fn signatures_must_be_64_bytes_and_verify() {
    let key = key(23);
    let pk = key.verifying_key().to_bytes();
    let sig = key.sign(b"payload").to_bytes();
    assert!(verify_signature(&pk, b"payload", &sig));
    assert!(!verify_signature(&pk, b"payloaD", &sig));
    assert!(!verify_signature(&pk, b"payload", &sig[..63]));
}
