use multi_reader::FlakySource;
use multi_reader::MultiReader;
use multi_reader::RepeatSource;
use multi_reader::Source;
use multi_reader::VecProducer;

#[test]
fn test_no_sources() {
    let sources: Vec<RepeatSource> = Vec::new();
    let mut m = MultiReader::new(VecProducer::new(sources));
    let mut buf = vec![0; 16];
    assert_eq!(m.read(&mut buf).unwrap(), 0);
}

#[test]
fn test_terminal_zero_is_idempotent() {
    let sources = vec![RepeatSource::new(1, 2)];
    let mut m = MultiReader::new(VecProducer::new(sources));
    let mut buf = vec![0; 8];
    assert_eq!(m.read(&mut buf).unwrap(), 2);
    // Once the stream has reported end-of-stream, every further call does.
    for _ in 0..5 {
        assert_eq!(m.read(&mut buf).unwrap(), 0);
    }
}

#[test]
fn test_reads_concatenate_in_order() {
    // The same byte sequence, however partitioned across sources and read
    // with whatever buffer size, comes back whole and in order.
    let sources = vec![
        RepeatSource::new(1, 3),
        RepeatSource::new(2, 2),
        RepeatSource::new(3, 0),
        RepeatSource::new(4, 1),
    ];
    let mut m = MultiReader::new(VecProducer::new(sources));
    let mut collected = Vec::new();
    let mut buf = vec![0; 2];
    loop {
        let n = m.read(&mut buf).unwrap();
        if n == 0 {
            break;
        }
        collected.extend_from_slice(&buf[..n]);
    }
    assert_eq!(collected, vec![1, 1, 1, 2, 2, 4]);
}

#[test]
fn test_error_leaves_failed_source_active() {
    let s1 = FlakySource::good(RepeatSource::new(1, 10));
    let s2 = FlakySource::broken(RepeatSource::new(2, 2048), 1, "I'm broken".to_string());
    let s3 = FlakySource::good(RepeatSource::new(3, 10));
    let mut m = MultiReader::new(VecProducer::new(vec![s1, s2, s3]));

    let mut buf = vec![0; 1024];
    assert_eq!(m.read(&mut buf).unwrap(), 10);
    assert_eq!(m.read(&mut buf).unwrap(), 1024);
    assert_eq!(m.read(&mut buf).unwrap_err().message().as_str(), "I'm broken");
    // The failed source stays active: the next call retries it and reads
    // the rest of its bytes before the stream moves on to the third source.
    assert_eq!(m.read(&mut buf).unwrap(), 1024);
    assert_eq!(buf[0], 2);
    assert_eq!(m.read(&mut buf).unwrap(), 10);
    assert_eq!(buf[0], 3);
    assert_eq!(m.read(&mut buf).unwrap(), 0);
}

#[test]
fn test_one_byte_buffer() {
    let sources = vec![RepeatSource::new(1, 2), RepeatSource::new(2, 1)];
    let mut m = MultiReader::new(VecProducer::new(sources));
    let mut buf = vec![0; 1];
    assert_eq!(m.read(&mut buf).unwrap(), 1);
    assert_eq!(buf[0], 1);
    assert_eq!(m.read(&mut buf).unwrap(), 1);
    assert_eq!(buf[0], 1);
    assert_eq!(m.read(&mut buf).unwrap(), 1);
    assert_eq!(buf[0], 2);
    assert_eq!(m.read(&mut buf).unwrap(), 0);
}

#[test]
fn test_repeat_source_fills_prefix() {
    let mut r = RepeatSource::new(42, 3);
    let mut buf = vec![0; 2];
    assert_eq!(r.read(&mut buf).unwrap(), 2);
    assert_eq!(&buf[..], &[42, 42]);
    assert_eq!(r.read(&mut buf).unwrap(), 1);
    assert_eq!(buf[0], 42);
    assert_eq!(r.read(&mut buf).unwrap(), 0);
}

#[test]
fn test_flaky_source_fails_once_verbatim() {
    let mut r = FlakySource::broken(RepeatSource::new(6, 4), 0, "boom".to_string());
    let mut buf = vec![0; 8];
    let e = r.read(&mut buf).unwrap_err();
    assert_eq!(e.message().as_str(), "boom");
    // The failing call never touched the inner source: a retry reads it all.
    assert_eq!(r.read(&mut buf).unwrap(), 4);
    assert_eq!(&buf[..4], &[6, 6, 6, 6]);
    assert_eq!(r.read(&mut buf).unwrap(), 0);
}
