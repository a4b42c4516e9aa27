use rts_alloc::error::Error;

#[test]
fn test_invalid_version_display() {
    let expected: u32 = 1u32 << 16; // 1.0
    let actual: u32 = (3u32 << 16) | 7; // 3.7
    let err = Error::InvalidVersion { expected, actual };
    assert_eq!(err.to_string(), "invalid version; expected=1.0; found=3.7");
}

#[test]
fn every_error_has_its_message() {
    let messages = [
        (Error::InvalidMagic, "invalid magic"),
        (Error::InvalidSlabSize, "invalid slab size"),
        (Error::InvalidNumWorkers, "invalid num workers"),
        (Error::InvalidWorkerIndex, "invalid worker index"),
        (Error::HeaderMismatch, "header mismatch"),
        (Error::NoAvailableWorkers, "no available workers"),
        (Error::InvalidFileSize, "invalid file size"),
        (Error::AlreadyInitialized, "already initialized"),
        (Error::InvalidHeader, "invalid header"),
        (Error::IoError("gone".to_owned()), "io error; err=gone"),
        (Error::MmapError("full".to_owned()), "mmap error; err=full"),
        (
            Error::InvalidVersion {
                expected: u32::MAX,
                actual: 10,
            },
            "invalid version; expected=65535.65535; found=0.10",
        ),
    ];
    for (error, message) in messages {
        assert_eq!(error.to_string(), message);
    }
}
