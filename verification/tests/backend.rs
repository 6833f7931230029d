use ffs::backend::backend_ext::{
    collect_leases, latest_state, lease_ids, state_revs, GetLatestStateError,
};
use ffs::backend::dummy::{
    DirEntryMeta, DirValidation, DummyBackend, DummyImpl, FileFault, DUMMY_TOTAL,
};
use ffs::backend::{
    BackendError, BackendKind, BackendKindSpecifier, BackendParseError, BackendStat, BlobId,
    DeleteError, GetError, InitError, InitFailure, ListError, StatError, UploadError,
};
use ffs::bootstrap::{decode_bootstrap, encode_bootstrap, BootstrapError};
use uuid::Uuid;

const SAMPLE: u128 = 0x67e55044_10b1_426f_9247_bb680e5fe0c8;
const SAMPLE_TEXT: &str = "67e55044-10b1-426f-9247-bb680e5fe0c8";

fn read(text: &str) -> BlobId {
    BlobId::from_str(text).unwrap()
}

#[test]
fn blob_names_are_written() {
    assert_eq!(BlobId::Uuid(SAMPLE).to_string(), SAMPLE_TEXT);
    assert_eq!(BlobId::Uuid(0).to_string(), "00000000-0000-0000-0000-000000000000");
    assert_eq!(BlobId::Meta(0).to_string(), "m.0");
    assert_eq!(BlobId::Meta(u64::MAX).to_string(), "m.18446744073709551615");
    assert_eq!(BlobId::Lease(SAMPLE).to_string(), format!("l.{SAMPLE_TEXT}"));
    assert_eq!(BlobId::Other("x.y".to_string()).to_string(), "x.y");
}

#[test]
fn uuids_are_written_as_their_crate_writes_them() {
    for n in [0u128, 1, 0xabcdef, SAMPLE, u128::MAX, u128::MAX / 3] {
        assert_eq!(BlobId::Uuid(n).to_string(), Uuid::from_u128(n).to_string());
    }
}

#[test]
fn blob_names_are_read() {
    assert_eq!(read(SAMPLE_TEXT), BlobId::Uuid(SAMPLE));
    assert_eq!(read("67E5504410B1426F9247BB680E5FE0C8"), BlobId::Uuid(SAMPLE));
    assert_eq!(read("m.12"), BlobId::Meta(12));
    assert_eq!(read("m.+12"), BlobId::Meta(12));
    assert_eq!(read(&format!("l.{SAMPLE_TEXT}")), BlobId::Lease(SAMPLE));
    for text in [
        "",
        ".",
        "m",
        "m.",
        "m.x",
        "m.1.2",
        "mm.1",
        "M.1",
        "l.12",
        "l.",
        "x.1",
        "m.18446744073709551616",
        "67e55044-10b1-426f-9247",
        "67e5504410b1426f9247bb680e5fe0.c8",
        "l.67e55044-10b1-426f-9247-bb680e5fe0.c8",
    ] {
        assert_eq!(read(text), BlobId::Other(text.to_string()));
    }
}

#[test]
fn uuids_are_read_in_all_their_forms() {
    for text in [
        "67e5504410b1426f9247bb680e5fe0c8",
        "67E55044-10B1-426F-9247-BB680E5FE0C8",
        "{67e55044-10b1-426f-9247-bb680e5fe0c8}",
        "urn:uuid:67e55044-10b1-426f-9247-bb680e5fe0c8",
        "URN:Uuid:67e55044-10b1-426f-9247-bb680e5fe0C8",
    ] {
        assert_eq!(read(text), BlobId::Uuid(SAMPLE));
        assert_eq!(read(&format!("l.{text}")), BlobId::Lease(SAMPLE));
    }
    for text in [
        "67e5504410b1426f9247bb680e5fe0cg",
        "67e5504-410b1-426f-9247-bb680e5fe0c8",
        "{67e5504410b1426f9247bb680e5fe0c8}",
        "(67e55044-10b1-426f-9247-bb680e5fe0c8)",
        "{67e55044-10b1-426f-9247-bb680e5fe0c8)",
        "urn:uuid-67e55044-10b1-426f-9247-bb680e5fe0c8",
        "67e55044-10b1-426f-9247-bb680e5fe0\u{e4}",
        "\u{e4}\u{e4}\u{e4}\u{e4}\u{e4}\u{e4}\u{e4}\u{e4}\u{e4}\u{e4}\u{e4}\u{e4}\u{e4}\u{e4}\u{e4}\u{e4}",
    ] {
        assert_eq!(read(text), BlobId::Other(text.to_string()));
    }
}

#[test]
fn written_blob_names_are_read_back() {
    for id in [
        BlobId::Uuid(SAMPLE),
        BlobId::Uuid(0),
        BlobId::Meta(7),
        BlobId::Lease(SAMPLE),
        BlobId::Lease(u128::MAX),
        BlobId::Other("unknown".to_string()),
    ] {
        assert_eq!(read(&id.to_string()), id);
        assert_eq!(id.clone(), id);
    }
}

#[test]
fn blob_names_are_told_apart_by_their_parts() {
    assert_eq!(BlobId::from_parts("l.u", None, Some(4)), BlobId::Lease(4));
    assert_eq!(BlobId::from_parts("l.u", Some(9), Some(4)), BlobId::Uuid(9));
    assert_eq!(BlobId::from_parts("x.u", None, Some(4)), BlobId::Other("x.u".to_string()));
    assert_eq!(BlobId::from_parts("m.3", None, Some(4)), BlobId::Meta(3));
}

#[test]
fn kinds_of_backends_are_named() {
    for (text, kind) in [
        ("dummy", BackendKindSpecifier::Dummy),
        ("DuMMy", BackendKindSpecifier::Dummy),
        ("google", BackendKindSpecifier::GoogleDrive),
        ("GoogleDrive", BackendKindSpecifier::GoogleDrive),
    ] {
        assert_eq!(BackendKindSpecifier::from_str(text, true), Ok(kind));
    }
    for text in ["", "drive", "dummy ", "google drive"] {
        assert_eq!(BackendKindSpecifier::from_str(text, true), Err(BackendParseError));
    }
    for kind in [BackendKindSpecifier::Dummy, BackendKindSpecifier::GoogleDrive] {
        assert_eq!(BackendKindSpecifier::from_str(&kind.name(), true), Ok(kind));
    }
    // The sign of kelvin has a small k for its lower case, which no kind is written with.
    assert_eq!(BackendKindSpecifier::from_str("\u{212a}", true), Err(BackendParseError));
    assert_eq!(BackendKindSpecifier::from_lower_case("Google", true), Err(BackendParseError));
    // The dummy backend is part of debug builds only.
    assert_eq!(BackendKindSpecifier::from_str("Dummy", false), Err(BackendParseError));
    assert_eq!(
        BackendKindSpecifier::from_str("Google", false),
        Ok(BackendKindSpecifier::GoogleDrive)
    );
    assert_eq!(BackendKindSpecifier::Dummy.name(), "Dummy");
    assert_eq!(BackendKindSpecifier::GoogleDrive.name(), "GoogleDrive");
    assert_eq!(BackendKind::Dummy("/x".to_string()).name(), "Dummy");
    assert_eq!(BackendKind::GoogleDrive.name(), "GoogleDrive");
}

#[test]
fn backend_errors_are_worded() {
    assert_eq!(BackendParseError.message(), "Unsupported backend kind");
    assert_eq!(StatError("x".to_string()).message(), "Failed to read backend stats");
    assert_eq!(
        BackendError::new(17, UploadError::OutOfSpace).message(),
        "Operation on backend with id 17 failed"
    );
    assert_eq!(UploadError::OutOfSpace.message(), "Backend ran out of space");
    assert_eq!(
        UploadError::BlobDuplicate.message(),
        "Blob with given id already exists in this backend"
    );
    assert_eq!(UploadError::Other("x".to_string()).message(), "x");
    assert_eq!(ListError::Other("y".to_string()).message(), "y");
    assert_eq!(GetError::BlobNotFound.message(), "BlobNotFound");
    assert_eq!(GetError::Other("z".to_string()).message(), "z");
    assert_eq!(DeleteError::BlobNotFound.message(), "BlobNotFound");
    assert_eq!(DeleteError::Other("z".to_string()).message(), "z");
    assert_eq!(
        InitError(InitFailure::BackendRejected).message(),
        "Failed to initialize this backend"
    );
    assert_eq!(GetLatestStateError::NoState.message(), "No state revision found");
    assert_eq!(
        GetLatestStateError::GetError(BackendError::new(0, GetError::BlobNotFound)).message(),
        "Operation on backend with id 0 failed"
    );
    assert_eq!(
        GetLatestStateError::ListError(BackendError::new(3, ListError::Other("a".to_string())))
            .message(),
        "Operation on backend with id 3 failed"
    );
}

fn listing() -> Vec<BlobId> {
    vec![
        BlobId::Meta(3),
        BlobId::Lease(8),
        BlobId::Other("m.x".to_string()),
        BlobId::Meta(11),
        BlobId::Uuid(4),
        BlobId::Lease(2),
        BlobId::Meta(5),
    ]
}

#[test]
fn states_and_leases_are_found_in_a_listing() {
    assert_eq!(state_revs(&listing()), vec![3, 11, 5]);
    assert_eq!(lease_ids(&listing()), vec![8, 2]);
    assert!(state_revs(&vec![]).is_empty());
}

#[test]
fn the_latest_state_is_found() {
    assert_eq!(latest_state(Ok(listing())).unwrap(), BlobId::Meta(11));
    assert_eq!(latest_state(Ok(vec![BlobId::Meta(0)])).unwrap(), BlobId::Meta(0));
    assert!(matches!(
        latest_state(Ok(vec![BlobId::Lease(1)])),
        Err(GetLatestStateError::NoState)
    ));
    let failed = BackendError::new(6, ListError::Other("broken".to_string()));
    assert!(matches!(
        latest_state(Err(failed)),
        Err(GetLatestStateError::ListError(e)) if e.backend_id == 6
    ));
    let mut more = listing();
    more.push(BlobId::Meta(12));
    assert_eq!(latest_state(Ok(more)).unwrap(), BlobId::Meta(12));
}

#[test]
fn leases_are_collected() {
    let gone = || Err(BackendError::new(1, GetError::BlobNotFound));
    let leases = collect_leases(1, vec![Ok((7, vec![1, 2])), gone(), Ok((3, vec![]))]).unwrap();
    assert_eq!(leases.len(), 2);
    assert_eq!(leases[&7], vec![1, 2]);
    assert_eq!(leases[&3], Vec::<u8>::new());
    let broken = |text: &str| Err(BackendError::new(1, GetError::Other(text.to_string())));
    let result = collect_leases(
        9,
        vec![Ok((7, vec![1])), gone(), broken("first"), Ok((8, vec![])), broken("second")],
    );
    match result {
        Err(BackendError { backend_id, kind: ListError::Other(text) }) => {
            assert_eq!(backend_id, 9);
            assert_eq!(text, "first");
        }
        Ok(_) => panic!("the failure is lost"),
    }
}

fn dummy() -> DummyBackend {
    DummyImpl::init(4, "/data".to_string(), Ok(true)).unwrap()
}

#[test]
fn a_dummy_backend_is_opened_on_a_directory() {
    assert_eq!(dummy().id(), 4);
    assert_eq!(dummy().root(), "/data");
    match DummyImpl::init(4, "/data".to_string(), Ok(false)) {
        Err(e) => {
            assert_eq!(e.backend_id, 4);
            assert!(matches!(e.kind, InitError(InitFailure::BackendRejected)));
        }
        Ok(_) => panic!("a file was opened"),
    }
    match DummyImpl::init(5, "/data".to_string(), Err("denied".to_string())) {
        Err(e) => {
            assert_eq!(e.backend_id, 5);
            assert!(matches!(e.kind, InitError(InitFailure::Other(text)) if text == "denied"));
        }
        Ok(_) => panic!("the failure is lost"),
    }
}

#[test]
fn a_dummy_backend_is_made_of_an_empty_directory() {
    assert_eq!(DummyImpl::validate(false, 0), DirValidation::NotADir);
    assert_eq!(DummyImpl::validate(true, 3), DirValidation::NotEmpty);
    assert_eq!(DummyImpl::validate(true, 0), DirValidation::Valid);
    assert_eq!(DirValidation::NotADir.message().unwrap(), "Path is not a dir");
    assert_eq!(DirValidation::NotEmpty.message().unwrap(), "Dir is not empty");
    assert!(DirValidation::Valid.message().is_none());
    assert_eq!(
        DummyImpl::generate("/d".to_string()),
        BackendKind::Dummy("/d".to_string())
    );
}

#[test]
fn a_dummy_backend_counts_its_files() {
    let entries = vec![
        DirEntryMeta { is_file: true, size: 10 },
        DirEntryMeta { is_file: false, size: 4096 },
        DirEntryMeta { is_file: true, size: 32 },
    ];
    let stat = dummy().stat(&entries);
    assert_eq!(stat, BackendStat { used: 42, total: 10737418240 });
    assert_eq!(DUMMY_TOTAL, 10 * (1 << 30));
    assert_eq!(dummy().stat(&vec![]).used, 0);
    let failed = dummy().stat_failed("gone".to_string());
    assert_eq!(failed.backend_id, 4);
    assert_eq!(failed.kind.0, "gone");
}

#[test]
fn a_dummy_backend_takes_what_fits() {
    let stat = BackendStat { used: 90, total: 100 };
    assert!(dummy().check_upload(stat, 10, false).is_ok());
    assert!(matches!(
        dummy().check_upload(stat, 11, true).unwrap_err().kind,
        UploadError::OutOfSpace
    ));
    assert!(matches!(
        dummy().check_upload(stat, 10, true).unwrap_err().kind,
        UploadError::BlobDuplicate
    ));
    assert_eq!(dummy().check_upload(stat, 11, false).unwrap_err().backend_id, 4);
}

#[test]
fn a_dummy_backend_lists_its_blobs() {
    let files = vec![
        "m.1".to_string(),
        "notes.txt".to_string(),
        SAMPLE_TEXT.to_string(),
        BlobId::Lease(SAMPLE).to_string(),
    ];
    assert_eq!(
        dummy().list(&files),
        vec![
            BlobId::Meta(1),
            BlobId::Other("notes.txt".to_string()),
            BlobId::Uuid(SAMPLE),
            BlobId::Lease(SAMPLE),
        ]
    );
}

#[test]
fn a_dummy_backend_tells_missing_blobs() {
    let fault = |not_found| FileFault { not_found, cause: "io".to_string() };
    assert!(matches!(dummy().get_failed(fault(true)).kind, GetError::BlobNotFound));
    assert!(matches!(dummy().get_failed(fault(false)).kind, GetError::Other(t) if t == "io"));
    assert!(matches!(dummy().delete_failed(fault(true)).kind, DeleteError::BlobNotFound));
    assert!(
        matches!(dummy().delete_failed(fault(false)).kind, DeleteError::Other(t) if t == "io")
    );
    assert_eq!(dummy().get_failed(fault(true)).backend_id, 4);
    assert_eq!(dummy().delete_failed(fault(true)).backend_id, 4);
}

#[test]
fn the_bootstrap_is_written_in_base_58() {
    let bytes = [0x04, 0x30, 0x5e, 0x2b, 0x24, 0x73, 0xf0, 0x58];
    assert_eq!(encode_bootstrap(&bytes), "he11owor1d");
    assert_eq!(decode_bootstrap("he11owor1d").unwrap(), bytes);
    assert_eq!(encode_bootstrap(&[]), "");
    assert_eq!(encode_bootstrap(&[0, 0, 57]), "11z");
    assert_eq!(encode_bootstrap(&[58]), "21");
    assert_eq!(encode_bootstrap(&[1, 0]), "5R");
    let digits = "123456789ABCDEFGHJKLMNPQRSTUVWXYZabcdefghijkmnopqrstuvwxyz";
    for (n, digit) in digits.chars().enumerate().skip(1) {
        assert_eq!(encode_bootstrap(&[n as u8]), digit.to_string());
        assert_eq!(decode_bootstrap(&digit.to_string()).unwrap(), vec![n as u8]);
    }
    assert_eq!(decode_bootstrap("1121").unwrap(), vec![0, 0, 58]);
}

#[test]
fn a_written_bootstrap_is_read_back() {
    for bytes in [vec![], vec![0u8, 0, 0], vec![255; 40], (0..=255u8).collect::<Vec<u8>>()] {
        assert_eq!(decode_bootstrap(&encode_bootstrap(&bytes)).unwrap(), bytes);
    }
    assert_eq!(decode_bootstrap("0OIl"), Err(BootstrapError::NotBase58));
    assert_eq!(decode_bootstrap("ä"), Err(BootstrapError::NotBase58));
}

#[test]
fn bootstrap_errors_are_worded() {
    assert_eq!(
        BootstrapError::Exists.message(),
        "Bootstrap file at path already exists"
    );
    assert_eq!(BootstrapError::Unreadable.message(), "Failed to read botstrap data");
    assert_eq!(BootstrapError::NotBase58.message(), "Failed to decode bootstrap data");
    assert_eq!(BootstrapError::NotAccessible.message(), "Failed to access bootstrap data");
    assert_eq!(
        BootstrapError::NotDeserializable.message(),
        "Failed to deserialize bootstrap data"
    );
}
