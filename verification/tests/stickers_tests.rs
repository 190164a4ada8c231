use promtuz::stickers::aad_manifest;
use promtuz::stickers::aad_sticker;
use promtuz::stickers::admissible;
use promtuz::stickers::after_gateway;
use promtuz::stickers::append_version;
use promtuz::stickers::cache_bytes;
use promtuz::stickers::check_manifest;
use promtuz::stickers::check_new_pack;
use promtuz::stickers::matches_id;
use promtuz::stickers::merge_pending;
use promtuz::stickers::open;
use promtuz::stickers::publish_plan;
use promtuz::stickers::remove;
use promtuz::stickers::rows_of;
use promtuz::stickers::seal;
use promtuz::stickers::seal_with_nonce;
use promtuz::stickers::stale_step;
use promtuz::stickers::trim;
use promtuz::stickers::trim_count;
use promtuz::stickers::EncodedSticker;
use promtuz::stickers::EnvelopeClaims;
use promtuz::stickers::GatewayOutcome;
use promtuz::stickers::GatewayStep;
use promtuz::stickers::ManifestSticker;
use promtuz::stickers::PackManifest;
use promtuz::stickers::PackRow;
use promtuz::stickers::RefreshLog;
use promtuz::stickers::StaleStep;
use promtuz::stickers::StickerError;
use promtuz::stickers::StickerRow;
use promtuz::stickers::StoreReject;
use promtuz::stickers::PACK_MAX_STICKERS;
use promtuz::stickers::PACK_NAME_MAX;
use promtuz::stickers::REFRESH_EVERY_MS;

fn manifest(creator: u8, version: u32, name: &str, stickers: Vec<ManifestSticker>) -> PackManifest {
    PackManifest { pack_id: [1; 16], store_id: 1, creator: [creator; 32], version, name: name.into(), stickers }
}

fn kept(creator: u8, version: u32) -> PackRow {
    PackRow {
        pack_id: [1; 16],
        store_id: 1,
        token: [0; 32],
        creator: [creator; 32],
        version,
        name: "cats".into(),
        added_at: 0,
    }
}

fn sticker(id: u8) -> ManifestSticker {
    ManifestSticker { id: [id; 32], width: 512, height: 384 }
}

fn row(id: u8, position: u32) -> StickerRow {
    StickerRow { pack_id: [1; 16], sticker_id: [id; 32], position, width: 512, height: 384 }
}

#[test]
fn sealed_objects_open_only_under_their_token_and_aad() {
    let token = [7u8; 32];
    let id = [9u8; 32];
    let blob = seal(&token, &aad_sticker(&id), b"avif bytes");
    assert_eq!(open(&token, &aad_sticker(&id), &blob).unwrap(), b"avif bytes");
    assert!(open(&[8u8; 32], &aad_sticker(&id), &blob).is_err());
    assert!(open(&token, &aad_sticker(&[1u8; 32]), &blob).is_err());
    assert!(open(&token, &aad_manifest(&[1u8; 16]), &blob).is_err());
}

#[test]
fn sealing_prefixes_the_nonce_and_refuses_short_blobs() {
    let token = [7u8; 32];
    let blob = seal_with_nonce(&token, b"aad", b"x", [5u8; 24]);
    assert_eq!(&blob[..24], &[5u8; 24]);
    assert_eq!(blob.len(), 1 + 40);
    assert_eq!(open(&token, b"aad", &blob[..39]), Err(StickerError::TooShort));
    let mut tampered = blob.clone();
    tampered[30] ^= 1;
    assert_eq!(open(&token, b"aad", &tampered), Err(StickerError::WrongTokenOrCorrupted));
    assert_eq!(aad_manifest(&[1u8; 16])[..27], *b"promtuz-sticker-manifest-v1");
    assert_eq!(aad_sticker(&[1u8; 32]).len(), 18 + 32);
}

#[test]
fn manifest_admission_pins_creator_and_version() {
    let m = manifest(4, 3, "cats", vec![]);
    let k = kept(4, 2);
    assert!(admissible(&m, None).is_ok());
    assert!(admissible(&m, Some(&k)).is_ok());
    assert_eq!(admissible(&manifest(5, 3, "cats", vec![]), Some(&k)), Err(StickerError::CreatorChanged));
    assert_eq!(admissible(&manifest(4, 1, "cats", vec![]), Some(&k)), Err(StickerError::OlderVersion));
}

#[test]
fn fetched_manifest_must_match_envelope_name_and_roster() {
    let env = EnvelopeClaims { store: 1, creator: [4; 32], version: 3 };
    let good = manifest(4, 3, "  cats ", vec![sticker(1), sticker(2)]);
    assert!(check_manifest(&good, &[1; 16], 1, &env).is_ok());
    assert_eq!(check_manifest(&good, &[2; 16], 1, &env), Err(StickerError::EnvelopeMismatch));
    assert_eq!(check_manifest(&manifest(4, 3, " \t ", vec![sticker(1)]), &[1; 16], 1, &env), Err(StickerError::BadName));
    assert_eq!(check_manifest(&manifest(4, 3, "cats", vec![]), &[1; 16], 1, &env), Err(StickerError::BadRoster));
    assert_eq!(
        check_manifest(&manifest(4, 3, "cats", vec![sticker(1), sticker(1)]), &[1; 16], 1, &env),
        Err(StickerError::BadRoster)
    );
    let big = ManifestSticker { id: [3; 32], width: 513, height: 1 };
    assert_eq!(check_manifest(&manifest(4, 3, "cats", vec![big]), &[1; 16], 1, &env), Err(StickerError::BadRoster));
}

#[test]
fn names_trim_unicode_whitespace_and_count_characters() {
    assert_eq!(trim("\u{3000} cats\u{a0}\n"), "cats");
    assert_eq!(trim("   "), "");
    assert_eq!(check_new_pack(" dogs ", 1), Ok("dogs".to_string()));
    assert_eq!(check_new_pack("", 1), Err(StickerError::BadName));
    let long: String = std::iter::repeat('é').take(PACK_NAME_MAX + 1).collect();
    assert_eq!(check_new_pack(&long, 1), Err(StickerError::BadName));
    let max: String = std::iter::repeat('é').take(PACK_NAME_MAX).collect();
    assert!(check_new_pack(&max, 1).is_ok());
    assert_eq!(check_new_pack("dogs", 0), Err(StickerError::BadCount));
    assert_eq!(check_new_pack("dogs", PACK_MAX_STICKERS + 1), Err(StickerError::BadCount));
}

#[test]
fn rows_follow_the_manifest_order() {
    let m = manifest(4, 3, " cats ", vec![sticker(7), sticker(8)]);
    let (pack, rows) = rows_of(&m, [9; 32], 55);
    assert_eq!(pack.name, "cats");
    assert_eq!(pack.token, [9; 32]);
    assert_eq!(pack.added_at, 55);
    assert_eq!(rows, vec![row(7, 0), row(8, 1)]);
}

#[test]
fn appending_checks_pack_identity_count_and_version() {
    let k = kept(4, 2);
    assert_eq!(append_version(None, Some([4; 32]), 1), Err(StickerError::NotInstalled));
    assert_eq!(append_version(Some(&k), None, 1), Err(StickerError::NoIdentity));
    assert_eq!(append_version(Some(&k), Some([5; 32]), 1), Err(StickerError::NotCreator));
    assert_eq!(append_version(Some(&k), Some([4; 32]), 0), Err(StickerError::BadCount));
    assert_eq!(append_version(Some(&k), Some([4; 32]), 1), Ok(3));
    assert_eq!(append_version(Some(&kept(4, u32::MAX)), Some([4; 32]), 1), Err(StickerError::VersionExhausted));
}

#[test]
fn stale_publish_merges_our_missing_stickers() {
    let latest = vec![row(1, 0), row(2, 1)];
    let ours = vec![row(2, 5), row(3, 6), row(3, 7)];
    let merged = merge_pending(latest, &ours);
    assert_eq!(merged, vec![row(1, 0), row(2, 1), row(3, 2)]);
    assert_eq!(stale_step(2, 3, 4), Ok(StaleStep::Republish(5)));
    assert_eq!(stale_step(2, 2, 4), Ok(StaleStep::Finished));
    assert_eq!(stale_step(2, PACK_MAX_STICKERS + 1, 4), Err(StickerError::PackFull));
    assert_eq!(stale_step(2, 3, u32::MAX), Err(StickerError::VersionExhausted));
}

#[test]
fn publish_names_each_new_picture_once_by_its_digest() {
    let enc = |bytes: &[u8]| EncodedSticker { avif: bytes.to_vec(), width: 512, height: 384 };
    let id = |bytes: &[u8]| *blake3::hash(bytes).as_bytes();
    let existing = vec![StickerRow { pack_id: [1; 16], sticker_id: id(b"a"), position: 0, width: 512, height: 384 }];
    let got = publish_plan([1; 16], &existing, &vec![enc(b"a"), enc(b"b"), enc(b"b"), enc(b"c")]).unwrap().unwrap();
    let ids: Vec<[u8; 32]> = got.iter().map(|r| r.sticker_id).collect();
    assert_eq!(ids, vec![id(b"a"), id(b"b"), id(b"c")]);
    assert_eq!(got.iter().map(|r| r.position).collect::<Vec<_>>(), vec![0, 1, 2]);
    assert_eq!(publish_plan([1; 16], &existing, &vec![enc(b"a")]), Ok(None));
    assert_eq!(publish_plan([1; 16], &vec![], &vec![]), Err(StickerError::NothingToPublish));
    assert!(matches_id(b"b", &id(b"b")));
    assert!(!matches_id(b"b", &id(b"c")));
}

#[test]
fn upload_moves_past_wrong_stores_and_stops_on_refusals() {
    assert_eq!(after_gateway(GatewayOutcome::Stored), GatewayStep::Done);
    assert_eq!(after_gateway(GatewayOutcome::NotAStore), GatewayStep::Next);
    assert_eq!(after_gateway(GatewayOutcome::Rejected(StoreReject::WrongStore)), GatewayStep::Next);
    assert_eq!(after_gateway(GatewayOutcome::Unreachable), GatewayStep::NextRemembering);
    assert_eq!(after_gateway(GatewayOutcome::Rejected(StoreReject::Unavailable)), GatewayStep::NextRemembering);
    assert_eq!(
        after_gateway(GatewayOutcome::Rejected(StoreReject::QuotaExceeded)),
        GatewayStep::Fail(StoreReject::QuotaExceeded)
    );
}

#[test]
fn cache_accounting_and_trimming_take_the_oldest_first() {
    let sizes = vec![10u64, 20, 30];
    assert_eq!(cache_bytes(&sizes), 60);
    assert_eq!(trim_count(&sizes, 60, 60), 0);
    assert_eq!(trim_count(&sizes, 60, 35), 2);
    assert_eq!(trim_count(&sizes, 60, 0), 3);
}

#[test]
fn refresh_is_due_every_ten_minutes_and_forgotten_on_remove() {
    let mut log = RefreshLog::new();
    assert!(log.due(&[1; 16], 0));
    log.mark([1; 16], 1_000);
    log.mark([2; 16], 1_000);
    assert!(!log.due(&[1; 16], 1_000 + REFRESH_EVERY_MS - 1));
    assert!(log.due(&[1; 16], 1_000 + REFRESH_EVERY_MS));
    remove(&mut log, &[1; 16]);
    assert!(log.due(&[1; 16], 1_001));
    assert!(!log.due(&[2; 16], 1_001));
}

#[test]
fn trimming_by_the_exact_total_keeps_the_newest_within_the_limit() {
    let sizes = vec![10u64, 20, 30, 40];
    let total = cache_bytes(&sizes);
    assert_eq!(total, 100);
    let k = trim_count(&sizes, total, 75);
    assert_eq!(k, 2);
    assert!(sizes[k - 1..].iter().sum::<u64>() > 75);
    assert!(sizes[k..].iter().sum::<u64>() <= 75);
    assert_eq!(trim_count(&sizes, total, 100), 0);
    assert_eq!(trim_count(&sizes, total, 0), 4);
}
