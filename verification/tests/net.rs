use wakala::net::{read_line, ConnLimiter, LineError, PieceEvent, PieceReader, ReplyError, ReplyReader};

#[test]
fn read_line_terminates_on_bare_lf_as_well_as_crlf() {
    let mut r: &[u8] = b"crlf line\r\nbare-lf line\ntrailing";
    assert_eq!(read_line(&mut r).unwrap(), Some(b"crlf line".to_vec()));
    assert_eq!(read_line(&mut r).unwrap(), Some(b"bare-lf line".to_vec()));
    assert!(read_line(&mut r).is_err());
}

#[test]
fn read_line_a_lone_dot_terminator_is_recognized_whether_crlf_or_bare_lf() {
    let mut a: &[u8] = b".\r\n";
    let mut b: &[u8] = b".\n";
    assert_eq!(read_line(&mut a).unwrap(), Some(b".".to_vec()));
    assert_eq!(read_line(&mut b).unwrap(), Some(b".".to_vec()));
}

#[test]
fn conn_limiter_admits_up_to_max_then_refuses_until_a_slot_is_released() {
    let mut lim = ConnLimiter::new(2);
    let g1 = lim.try_acquire().expect("slot 1");
    let g2 = lim.try_acquire().expect("slot 2");
    assert!(lim.try_acquire().is_none(), "at capacity — a 3rd connection is refused");
    lim.release(g1);
    let g3 = lim.try_acquire().expect("a released slot is claimable again");
    assert!(lim.try_acquire().is_none());
    lim.release(g2);
    lim.release(g3);
    assert!(lim.try_acquire().is_some(), "fully drained back to zero");
}

#[test]
fn a_line_has_a_limit() {
    let long = vec![b'a'; 70_000];
    let mut r: &[u8] = &long;
    assert_eq!(read_line(&mut r), Err(LineError::TooLong));
    let mut r: &[u8] = b"";
    assert_eq!(read_line(&mut r), Ok(None));
}

#[test]
fn a_reply_of_several_lines_is_one_reply() {
    let mut r = ReplyReader::new();
    assert_eq!(r.feed("250-first"), Ok(None));
    assert_eq!(r.feed("250 second"), Ok(Some((250, "first second".to_string()))));
    let mut r = ReplyReader::new();
    assert_eq!(r.feed("no"), Err(ReplyError::Short));
    assert_eq!(r.feed("nope"), Err(ReplyError::NonNumeric));
    assert_eq!(r.feed("+25 ok"), Err(ReplyError::NonNumeric));
}

#[test]
fn a_line_is_the_same_in_whatever_pieces_it_comes() {
    let mut whole = PieceReader::new(100);
    assert_eq!(whole.feed(b"GET / HTTP/1.1\r\nHost: x"), (16, PieceEvent::Complete));
    let mut parts = PieceReader::new(100);
    assert_eq!(parts.feed(b"GET / "), (6, PieceEvent::More));
    assert_eq!(parts.feed(b"HTTP/1.1\r\nHost: x"), (10, PieceEvent::Complete));
    assert_eq!(whole.line(), parts.line());
    let mut long = PieceReader::new(3);
    assert_eq!(long.feed(b"abc"), (3, PieceEvent::More));
    assert_eq!(long.feed(b"d"), (1, PieceEvent::TooLong));
    assert_eq!(PieceReader::new(3).feed(b"abc\n"), (4, PieceEvent::TooLong));
    assert_eq!(PieceReader::new(4).feed(b"abc\n"), (4, PieceEvent::Complete));
}
