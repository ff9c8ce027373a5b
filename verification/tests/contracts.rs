use std::io::{self, Cursor, Read, Seek, SeekFrom};

use multi_readers::{MultiReader, SeekTarget, StreamError};

/// A seekable source of `len` bytes that are never read: seeking to an
/// offset from the start reports `reported(offset)`.
struct SizedSource {
    len: u64,
    position: u64,
    report_start: fn(u64) -> u64,
    end_queries_allowed: usize,
}

impl SizedSource {
    fn new(len: u64) -> Self {
        SizedSource { len, position: 0, report_start: |offset| offset, end_queries_allowed: usize::MAX }
    }
}

impl Seek for SizedSource {
    fn seek(&mut self, pos: SeekFrom) -> io::Result<u64> {
        match pos {
            SeekFrom::Start(offset) => {
                self.position = (self.report_start)(offset);
                Ok(self.position)
            }
            SeekFrom::End(offset) => {
                if self.end_queries_allowed == 0 {
                    return Err(io::Error::other("length asked twice"));
                }
                self.end_queries_allowed -= 1;
                self.position = self.len.checked_add_signed(offset).unwrap();
                Ok(self.position)
            }
            SeekFrom::Current(offset) => {
                self.position = self.position.checked_add_signed(offset).unwrap();
                Ok(self.position)
            }
        }
    }
}

fn three_parts() -> MultiReader<Cursor<&'static [u8]>> {
    MultiReader::new(
        [
            Cursor::new(&b"abc"[..]),
            Cursor::new(&b"defg"[..]),
            Cursor::new(&b"hij"[..]),
        ]
        .into_iter(),
    )
}

#[test]
fn recording_no_bytes_moves_to_the_next_reader() {
    let mut combined = three_parts();
    assert!(combined.current_reader_mut().is_some());

    assert!(!combined.record_inner_read(0));
    assert_eq!(combined.position(), 0);

    let mut output = [0; 4];
    combined.read_exact(&mut output).unwrap();
    assert_eq!(&output, b"defg");
}

#[test]
fn recording_bytes_moves_the_position_and_keeps_the_reader() {
    let mut combined = three_parts();

    assert!(combined.record_inner_read(2));
    assert_eq!(combined.position(), 2);

    let mut output = [0; 3];
    combined.read_exact(&mut output).unwrap();
    assert_eq!(&output, b"abc");
}

#[test]
fn the_position_saturates_at_u64_max() {
    let mut combined = MultiReader::new([SizedSource::new(u64::MAX)].into_iter());

    assert_eq!(combined.seek_to(SeekTarget::Start(u64::MAX - 1)).unwrap(), u64::MAX - 1);
    assert!(combined.record_inner_read(5));
    assert_eq!(combined.position(), u64::MAX);
}

#[test]
fn no_current_reader_once_every_reader_is_drained() {
    let mut combined = three_parts();
    let mut output = Vec::new();
    combined.read_to_end(&mut output).unwrap();

    assert!(combined.current_reader_mut().is_none());
    assert_eq!(combined.position(), 10);
}

#[test]
fn a_refused_seek_changes_nothing() {
    let mut combined = three_parts();
    let mut prefix = [0; 2];
    combined.read_exact(&mut prefix).unwrap();

    assert!(matches!(combined.seek_to(SeekTarget::Current(-3)), Err(StreamError::OutOfRange)));
    assert!(matches!(combined.seek_to(SeekTarget::End(-11)), Err(StreamError::OutOfRange)));
    assert!(matches!(combined.seek_to(SeekTarget::Current(i64::MAX)), Ok(_)));
    assert_eq!(combined.position(), 2 + i64::MAX as u64);
}

#[test]
fn seeking_before_the_start_is_invalid_input() {
    let mut combined = three_parts();

    let error = combined.seek(SeekFrom::Current(-1)).unwrap_err();
    assert_eq!(error.kind(), io::ErrorKind::InvalidInput);
    assert_eq!(combined.position(), 0);

    let mut output = [0; 3];
    combined.read_exact(&mut output).unwrap();
    assert_eq!(&output, b"abc");
}

#[test]
fn a_combined_length_past_u64_max_is_invalid_data() {
    let mut combined = MultiReader::new([SizedSource::new(u64::MAX), SizedSource::new(1)].into_iter());

    let error = combined.total_len().unwrap_err();
    assert_eq!(error.kind(), io::ErrorKind::InvalidData);
    assert!(matches!(combined.seek_to(SeekTarget::End(0)), Err(StreamError::LengthOverflow)));
}

#[test]
fn a_landing_position_past_u64_max_is_invalid_data() {
    let mut far = SizedSource::new(5);
    far.report_start = |_| u64::MAX;
    let mut combined = MultiReader::new([SizedSource::new(10), far].into_iter());

    assert!(matches!(combined.seek_to(SeekTarget::Start(12)), Err(StreamError::PositionOverflow)));
    assert_eq!(combined.position(), 0);
    let error = combined.seek(SeekFrom::Start(12)).unwrap_err();
    assert_eq!(error.kind(), io::ErrorKind::InvalidData);
}

#[test]
fn the_combined_length_is_asked_for_once() {
    let mut parts = [SizedSource::new(2), SizedSource::new(3)];
    for part in parts.iter_mut() {
        part.end_queries_allowed = 1;
    }
    let mut combined = MultiReader::new(parts.into_iter());

    assert_eq!(combined.total_len().unwrap(), 5);
    assert_eq!(combined.total_len().unwrap(), 5);
    assert_eq!(combined.seek(SeekFrom::End(-1)).unwrap(), 4);
    assert_eq!(combined.seek(SeekFrom::Start(3)).unwrap(), 3);
}

#[test]
fn a_seek_past_the_end_reads_nothing() {
    let mut combined = three_parts();
    let mut buf = [0; 4];

    assert_eq!(combined.seek_to(SeekTarget::Start(100)).unwrap(), 100);
    assert!(combined.current_reader_mut().is_none());
    assert_eq!(combined.read(&mut buf).unwrap(), 0);
    assert_eq!(combined.position(), 100);
}

#[test]
fn a_seek_lands_in_the_reader_that_holds_the_target() {
    let mut combined = three_parts();
    let mut buf = [0; 1];

    for (target, byte) in [(0, b'a'), (2, b'c'), (3, b'd'), (6, b'g'), (7, b'h'), (9, b'j')] {
        assert_eq!(combined.seek_to(SeekTarget::Start(target)).unwrap(), target);
        assert_eq!(combined.read(&mut buf).unwrap(), 1);
        assert_eq!(buf[0], byte);
        assert_eq!(combined.position(), target + 1);
    }
}

#[test]
fn an_inner_seek_error_is_passed_on() {
    let mut part = SizedSource::new(4);
    part.end_queries_allowed = 0;
    let mut combined = MultiReader::new([part].into_iter());

    let error = combined.seek(SeekFrom::Start(1)).unwrap_err();
    assert_eq!(error.kind(), io::ErrorKind::Other);
    assert!(matches!(combined.seek_to(SeekTarget::End(0)), Err(StreamError::Io(_))));
}

#[test]
fn stream_errors_report_their_kinds() {
    assert_eq!(StreamError::OutOfRange.into_io_error().kind(), io::ErrorKind::InvalidInput);
    assert_eq!(StreamError::LengthOverflow.into_io_error().kind(), io::ErrorKind::InvalidData);
    assert_eq!(StreamError::PositionOverflow.into_io_error().kind(), io::ErrorKind::InvalidData);
    let inner = io::Error::new(io::ErrorKind::NotFound, "gone");
    assert_eq!(StreamError::Io(inner).into_io_error().kind(), io::ErrorKind::NotFound);
}

#[test]
fn from_a_vec_keeps_the_order() {
    let mut combined = MultiReader::from(vec![Cursor::new(&b"ab"[..]), Cursor::new(&b"cd"[..])]);
    let mut output = String::new();

    combined.read_to_string(&mut output).unwrap();
    assert_eq!(output, "abcd");
}

#[test]
fn into_readers_keeps_the_order() {
    let combined = MultiReader::new([Cursor::new(&b"ab"[..]), Cursor::new(&b"cd"[..])].into_iter());
    let names: Vec<&[u8]> = combined.readers().map(|reader| *reader.get_ref()).collect();
    assert_eq!(names, vec![&b"ab"[..], &b"cd"[..]]);

    let readers = combined.into_readers();
    assert_eq!(readers[0].get_ref(), &&b"ab"[..]);
    assert_eq!(readers[1].get_ref(), &&b"cd"[..]);
}

#[test]
fn try_new_keeps_the_first_of_several_errors() {
    let inputs: [io::Result<Cursor<&[u8]>>; 3] = [
        Ok(Cursor::new(b"ab")),
        Err(io::Error::new(io::ErrorKind::NotFound, "first")),
        Err(io::Error::new(io::ErrorKind::PermissionDenied, "second")),
    ];

    let error = match MultiReader::try_new(inputs.into_iter()) {
        Ok(_) => panic!("an error was expected"),
        Err(error) => error,
    };
    assert_eq!(error.kind(), io::ErrorKind::NotFound);
}

#[test]
fn new_keeps_the_order_of_the_iterator() {
    let combined = MultiReader::new([Cursor::new(&b"x"[..]), Cursor::new(&b""[..]), Cursor::new(&b"y"[..])].into_iter());
    assert_eq!(combined.reader_count(), 3);
    let readers = combined.into_readers();
    assert_eq!(readers[2].get_ref(), &&b"y"[..]);
}

#[test]
fn a_landing_adds_the_reported_offset_to_the_reader_start() {
    assert!(matches!(multi_readers::landed_at(3, 2), Ok(5)));
    assert!(matches!(multi_readers::landed_at(u64::MAX - 1, 1), Ok(u64::MAX)));
    assert!(matches!(multi_readers::landed_at(u64::MAX, 1), Err(StreamError::PositionOverflow)));
}

#[test]
fn a_seek_rewinds_the_later_readers() {
    let mut combined = three_parts();
    let mut output = Vec::new();
    assert_eq!(combined.read_to_end(&mut output).unwrap(), 10);

    assert_eq!(combined.seek(SeekFrom::Start(5)).unwrap(), 5);
    assert_eq!(combined.position(), 5);
    let positions: Vec<u64> = combined.readers().map(|reader| reader.position()).collect();
    assert_eq!(positions, vec![3, 2, 0]);

    let mut rest = Vec::new();
    combined.read_to_end(&mut rest).unwrap();
    assert_eq!(rest, b"fghij");
}

#[test]
fn total_len_puts_each_reader_back() {
    let mut combined = three_parts();
    let mut prefix = [0; 2];
    combined.read_exact(&mut prefix).unwrap();

    assert_eq!(combined.total_len().unwrap(), 10);
    let positions: Vec<u64> = combined.readers().map(|reader| reader.position()).collect();
    assert_eq!(positions, vec![2, 0, 0]);
}

#[test]
fn a_seek_to_a_boundary_skips_an_empty_reader() {
    let mut combined = MultiReader::new(
        [Cursor::new(&b"abc"[..]), Cursor::new(&b""[..]), Cursor::new(&b"defg"[..])].into_iter(),
    );
    let mut buf = [0u8; 8];

    assert_eq!(combined.seek(SeekFrom::Start(3)).unwrap(), 3);
    let positions: Vec<u64> = combined.readers().map(|reader| reader.position()).collect();
    assert_eq!(positions, vec![0, 0, 0]);
    assert_eq!(combined.read(&mut buf).unwrap(), 4);
    assert_eq!(&buf[..4], b"defg");
}

#[test]
fn no_reader_is_polled_without_room() {
    let mut combined = three_parts();
    assert!(combined.reader_to_poll(0).is_none());
    assert!(combined.reader_to_poll(4).is_some());

    let mut output = Vec::new();
    combined.read_to_end(&mut output).unwrap();
    assert!(combined.reader_to_poll(4).is_none());
}

#[test]
fn total_len_passes_on_the_inner_error() {
    let mut part = SizedSource::new(4);
    part.end_queries_allowed = 0;
    let mut combined = MultiReader::new([SizedSource::new(2), part].into_iter());

    let error = combined.total_len().unwrap_err();
    assert_eq!(error.kind(), io::ErrorKind::Other);
    assert_eq!(error.to_string(), "length asked twice");
    assert_eq!(combined.position(), 0);
}

#[test]
fn a_seek_from_the_end_puts_measured_readers_back() {
    let mut combined = three_parts();
    let mut prefix = [0; 2];
    combined.read_exact(&mut prefix).unwrap();

    assert_eq!(combined.seek(SeekFrom::End(0)).unwrap(), 10);
    let positions: Vec<u64> = combined.readers().map(|reader| reader.position()).collect();
    assert_eq!(positions, vec![2, 0, 0]);
    let mut rest = Vec::new();
    assert_eq!(combined.read_to_end(&mut rest).unwrap(), 0);
}

#[test]
fn the_position_follows_a_mixed_run_of_operations() {
    let mut combined = three_parts();
    let mut two = [0; 2];
    combined.read_exact(&mut two).unwrap();
    assert_eq!(combined.position(), 2);

    assert_eq!(combined.total_len().unwrap(), 10);
    assert_eq!(combined.position(), 2);
    assert!(combined.seek(SeekFrom::Current(-3)).is_err());
    assert_eq!(combined.position(), 2);

    assert_eq!(combined.seek(SeekFrom::Start(5)).unwrap(), 5);
    let mut three = [0; 3];
    combined.read_exact(&mut three).unwrap();
    assert_eq!(&three, b"fgh");
    assert_eq!(combined.position(), 8);
    assert_eq!(combined.reader_count(), 3);
    assert_eq!(combined.total_len().unwrap(), 10);
}

#[test]
fn a_refused_seek_and_an_overflow_report_their_kinds() {
    let mut combined = three_parts();
    let refused = combined.seek(SeekFrom::End(-11)).unwrap_err();
    assert_eq!(refused.kind(), io::ErrorKind::InvalidInput);

    let mut huge = MultiReader::new([SizedSource::new(u64::MAX), SizedSource::new(1)].into_iter());
    assert_eq!(huge.total_len().unwrap_err().kind(), io::ErrorKind::InvalidData);
    assert_eq!(huge.seek(SeekFrom::End(0)).unwrap_err().kind(), io::ErrorKind::InvalidData);
}

#[test]
fn a_seek_past_the_end_moves_no_reader() {
    let mut combined = three_parts();
    assert_eq!(combined.total_len().unwrap(), 10);
    let mut one = [0; 1];
    combined.read_exact(&mut one).unwrap();

    assert_eq!(combined.seek(SeekFrom::Start(20)).unwrap(), 20);
    let positions: Vec<u64> = combined.readers().map(|reader| reader.position()).collect();
    assert_eq!(positions, vec![1, 0, 0]);
    assert_eq!(combined.read(&mut one).unwrap(), 0);
}
