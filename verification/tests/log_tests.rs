use hexodsp::log::{frame_log_message, split_log_messages, LOG_MESSAGE_END};

#[test]
fn framed_messages_read_back_in_order() {
    let mut stream = frame_log_message(b"Test Log1!");
    assert_eq!(stream.len(), 11);
    assert_eq!(stream[10], LOG_MESSAGE_END);
    stream.extend(frame_log_message(b"Test Log2!"));
    let msgs = split_log_messages(&stream);
    assert_eq!(msgs, vec![b"Test Log1!".to_vec(), b"Test Log2!".to_vec()]);
}

#[test]
fn unfinished_message_is_not_returned() {
    let msgs = split_log_messages(b"ab\xffcd");
    assert_eq!(msgs, vec![b"ab".to_vec()]);
    assert!(split_log_messages(b"").is_empty());
    assert_eq!(split_log_messages(b"\xff\xff"), vec![Vec::<u8>::new(), Vec::<u8>::new()]);
}

#[test]
fn full_buffer_message_has_no_end_byte() {
    let long = vec![b'x'; 511];
    assert_eq!(frame_log_message(&long), long);
    let short = vec![b'y'; 510];
    assert_eq!(frame_log_message(&short).len(), 511);
}

#[test]
fn reader_cuts_overlong_messages() {
    let mut bytes = vec![b'z'; 1025];
    bytes.push(LOG_MESSAGE_END);
    let msgs = split_log_messages(&bytes);
    assert_eq!(msgs.len(), 2);
    assert_eq!(msgs[0].len(), 1024);
    assert!(msgs[1].is_empty());
}
