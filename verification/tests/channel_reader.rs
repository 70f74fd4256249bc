use fastwarc::channel_reader::ChannelReader;
use fastwarc::stream_io::{IoError, SeekFrom};

/// Fill the reader's window from `messages` the way a blocking receive loop
/// does; returns the window.
fn fill(reader: &mut ChannelReader, messages: &mut Vec<Option<Vec<u8>>>) -> Vec<u8> {
    let mut closed = false;
    while reader.needs_message(closed) {
        let message = if messages.is_empty() { None } else { messages.remove(0) };
        closed = reader.receive(message);
    }
    reader.window().to_vec()
}

#[test]
fn empty_read_does_not_wait_for_input() {
    let mut reader = ChannelReader::new();
    assert_eq!(reader.read(&mut []), 0);
}

#[test]
fn first_window_holds_the_magic_bytes() {
    let mut reader = ChannelReader::new();
    let mut messages = vec![Some(b"".to_vec()), Some(b"WA".to_vec()), Some(b"R".to_vec()), Some(b"C/1.1".to_vec())];
    assert_eq!(fill(&mut reader, &mut messages), b"WARC/1.1");
    assert!(messages.is_empty());
    let mut buf = [0u8; 3];
    assert_eq!(reader.read(&mut buf), 3);
    assert_eq!(&buf, b"WAR");
    assert_eq!(reader.stream_position(), 3);
    reader.consume(100);
    assert_eq!(reader.stream_position(), 8);
    let mut later = vec![Some(b"x".to_vec()), Some(b"yz".to_vec())];
    assert_eq!(fill(&mut reader, &mut later), b"x");
    assert_eq!(later.len(), 1);
}

#[test]
fn closed_channel_ends_the_archive() {
    let mut reader = ChannelReader::new();
    let mut messages = vec![Some(b"ab".to_vec())];
    assert_eq!(fill(&mut reader, &mut messages), b"ab");
    reader.consume(2);
    assert_eq!(fill(&mut reader, &mut messages), b"");
}

#[test]
fn streamed_input_does_not_reposition() {
    let mut reader = ChannelReader::new();
    let mut messages = vec![Some(b"abcdef".to_vec())];
    fill(&mut reader, &mut messages);
    reader.consume(2);
    assert_eq!(reader.seek(SeekFrom::Current(0)), Ok(2));
    assert_eq!(reader.seek(SeekFrom::Start(2)), Ok(2));
    assert_eq!(reader.seek(SeekFrom::Start(0)), Err(IoError::Unsupported));
    assert_eq!(reader.seek(SeekFrom::End(0)), Err(IoError::Unsupported));
    assert_eq!(IoError::Unsupported.message(), "streamed WARC input does not support repositioning");
}
