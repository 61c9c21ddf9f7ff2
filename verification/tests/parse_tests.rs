use m3u8dl::parse::parse_manifest;
use m3u8dl::parse::ParseError;

#[test]
fn happy_path_relative_uris() {
    let body = b"#EXTM3U\n#EXTINF:4,\n0.ts\n#EXTINF:4,\n1.ts\n#EXT-X-ENDLIST\n";
    let refs = parse_manifest(body, "http://h/p/v.m3u8").unwrap();
    assert_eq!(refs.len(), 2);
    assert_eq!(refs[0].ordinal, 0);
    assert_eq!(refs[0].url, "http://h/p/0.ts");
    assert_eq!(refs[1].ordinal, 1);
    assert_eq!(refs[1].url, "http://h/p/1.ts");
}

#[test]
fn absolute_and_relative_uris_mixed() {
    let body = b"a.ts\nhttp://other/b.ts\n./c.ts\n";
    let refs = parse_manifest(body, "http://h/p/v.m3u8").unwrap();
    assert_eq!(refs.len(), 3);
    assert_eq!(refs[0].url, "http://h/p/a.ts");
    assert_eq!(refs[1].url, "http://other/b.ts");
    assert_eq!(refs[2].url, "http://h/p/c.ts");
}

#[test]
fn ordinals_are_dense_from_zero() {
    let body = b"s0.ts\ns1.ts\ns2.ts\ns3.ts\ns4.ts\n";
    let refs = parse_manifest(body, "http://h/v.m3u8").unwrap();
    assert_eq!(refs.len(), 5);
    for (i, r) in refs.iter().enumerate() {
        assert_eq!(r.ordinal, i);
    }
}

#[test]
fn empty_playlist_is_fatal() {
    let err = parse_manifest(b"", "http://h/v.m3u8").unwrap_err();
    assert_eq!(err, ParseError::EmptyPlaylist);
}

#[test]
fn tags_comments_and_blank_lines_carry_no_segment() {
    let body = b"#EXTM3U\n\n   \n#EXT-X-VERSION:3\n";
    let err = parse_manifest(body, "http://h/v.m3u8").unwrap_err();
    assert_eq!(err, ParseError::EmptyPlaylist);
}

#[test]
fn endlist_tag_is_ignored() {
    let body = b"a.ts\n#EXT-X-ENDLIST\n";
    let refs = parse_manifest(body, "http://h/p/v.m3u8").unwrap();
    assert_eq!(refs.len(), 1);
    assert_eq!(refs[0].url, "http://h/p/a.ts");
}

#[test]
fn crlf_line_endings_are_accepted() {
    let body = b"#EXTM3U\r\na.ts\r\nb.ts\r\n";
    let refs = parse_manifest(body, "http://h/p/v.m3u8").unwrap();
    assert_eq!(refs.len(), 2);
    assert_eq!(refs[0].url, "http://h/p/a.ts");
    assert_eq!(refs[1].url, "http://h/p/b.ts");
}

#[test]
fn unresolvable_line_names_its_line_number() {
    let body = b"#EXTM3U\nhttp://[\n";
    let err = parse_manifest(body, "http://h/p/v.m3u8").unwrap_err();
    assert_eq!(err, ParseError::UnresolvableLine { line: 2 });
}

#[test]
fn non_utf8_line_is_unresolvable() {
    let body = b"\xff\xfe\n";
    let err = parse_manifest(body, "http://h/p/v.m3u8").unwrap_err();
    assert_eq!(err, ParseError::UnresolvableLine { line: 1 });
}

#[test]
fn invalid_base_url_fails_on_first_segment_line() {
    let body = b"a.ts\n";
    let err = parse_manifest(body, "not a url");
    assert_eq!(err.unwrap_err(), ParseError::UnresolvableLine { line: 1 });
}

#[test]
fn parsing_twice_yields_identical_lists() {
    let body = b"#EXTM3U\na.ts\nb.ts\n#EXT-X-ENDLIST\n";
    let first = parse_manifest(body, "http://h/p/v.m3u8").unwrap();
    let second = parse_manifest(body, "http://h/p/v.m3u8").unwrap();
    assert_eq!(first, second);
}
