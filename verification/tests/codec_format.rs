use block_employ::codec::{check_size, Job, SizeBound, JOB_MAX_ENCODED_SIZE};
use block_employ::errors::Error;

fn sample_job() -> Job {
    Job {
        id: 7,
        title: String::from("Écrivain"),
        description: String::from("writes things, 写作"),
        skills_required: vec![String::from("French"), String::from("中文")],
        created_at: 1700000000,
    }
}

#[test]
fn encode_decode_round_trip() {
    let job = sample_job();
    let bytes = job.to_bytes();
    let back = Job::from_bytes(&bytes).unwrap();
    assert_eq!(back, job);
}

#[test]
fn encode_decode_round_trip_empty_fields() {
    let job = Job {
        id: 0,
        title: String::new(),
        description: String::new(),
        skills_required: Vec::new(),
        created_at: 0,
    };
    let bytes = job.to_bytes();
    assert_eq!(Job::from_bytes(&bytes).unwrap(), job);
}

#[test]
fn encoding_layout_is_exact() {
    let job = Job {
        id: 7,
        title: String::from("A"),
        description: String::new(),
        skills_required: vec![String::from("B")],
        created_at: 9,
    };
    let mut expected: Vec<u8> = Vec::new();
    expected.extend_from_slice(&7u64.to_le_bytes()); // id
    expected.extend_from_slice(&9u64.to_le_bytes()); // created_at
    expected.extend_from_slice(&1u64.to_le_bytes()); // title byte length
    expected.push(b'A');
    expected.extend_from_slice(&0u64.to_le_bytes()); // description byte length
    expected.extend_from_slice(&1u64.to_le_bytes()); // skill count
    expected.extend_from_slice(&1u64.to_le_bytes()); // skill byte length
    expected.push(b'B');
    assert_eq!(job.to_bytes(), expected);
}

#[test]
fn checked_encoding_enforces_the_bound() {
    let job = sample_job();
    let bytes = job.to_bytes_checked().unwrap();
    assert!(bytes.len() <= JOB_MAX_ENCODED_SIZE);

    let mut big = sample_job();
    big.description = "y".repeat(JOB_MAX_ENCODED_SIZE + 1);
    assert_eq!(big.to_bytes_checked(), Err(Error::SizeExceeded));
}

#[test]
fn decode_rejects_malformed_bytes() {
    assert_eq!(Job::from_bytes(&vec![]), Err(Error::CorruptEncoding));
    assert_eq!(Job::from_bytes(&vec![1, 2, 3]), Err(Error::CorruptEncoding));

    // Trailing bytes after a well-formed record are rejected.
    let mut bytes = sample_job().to_bytes();
    bytes.push(0);
    assert_eq!(Job::from_bytes(&bytes), Err(Error::CorruptEncoding));

    // A title length that overruns the buffer is rejected.
    let mut bytes = sample_job().to_bytes();
    let n = bytes.len();
    bytes[16] = 0xff; // title byte-length field
    bytes.truncate(n);
    assert_eq!(Job::from_bytes(&bytes), Err(Error::CorruptEncoding));

    // Invalid UTF-8 inside a string field is rejected.
    let job = Job {
        id: 1,
        title: String::from("ab"),
        description: String::new(),
        skills_required: Vec::new(),
        created_at: 2,
    };
    let mut bytes = job.to_bytes();
    bytes[24] = 0xff; // first title byte
    assert_eq!(Job::from_bytes(&bytes), Err(Error::CorruptEncoding));
}

#[test]
fn size_policies() {
    assert_eq!(check_size(8, &SizeBound::Fixed(8)), Ok(()));
    assert_eq!(check_size(7, &SizeBound::Fixed(8)), Err(Error::SizeMismatch));
    assert_eq!(check_size(9, &SizeBound::Fixed(8)), Err(Error::SizeMismatch));
    assert_eq!(check_size(1024, &SizeBound::Bounded(1024)), Ok(()));
    assert_eq!(
        check_size(1025, &SizeBound::Bounded(1024)),
        Err(Error::SizeExceeded)
    );
    assert_eq!(Job::bound(), SizeBound::Bounded(1024));
}
