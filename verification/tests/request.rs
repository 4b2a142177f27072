use sliru_tools::parse_heredoc_request;

#[test]
fn heredoc_request_parses_all_blocks() {
    let text = "<<METHOD\npost\nMETHOD\n<<URL\nhttps://example.test/api\nURL\n<<HEADERS\nAccept: text/plain\nX-Tag: a:b\nHEADERS\n<<COOKIES\nsession: abc\nCOOKIES\n<<BODY\nhello\nworld\nBODY\n<<TIMEOUT\n12\nTIMEOUT\n<<FOLLOW_REDIRECTS\nyes\nFOLLOW_REDIRECTS\n";
    let rd = parse_heredoc_request(text).unwrap();
    assert_eq!(rd.method.as_deref(), Some("post"));
    assert_eq!(rd.url.as_deref(), Some("https://example.test/api"));
    assert_eq!(rd.headers.len(), 2);
    assert_eq!(rd.headers[0].0, "Accept");
    assert_eq!(rd.headers[0].1, "text/plain");
    assert_eq!(rd.headers[1].1, "a:b");
    assert_eq!(rd.cookies.len(), 1);
    assert_eq!(rd.body.as_deref(), Some("hello\nworld"));
    assert_eq!(rd.timeout_secs, Some(12));
    assert_eq!(rd.follow_redirects, Some(true));
}

#[test]
fn heredoc_request_requires_method_and_url() {
    assert!(parse_heredoc_request("<<URL\nhttp://x\nURL\n").is_err());
    assert!(parse_heredoc_request("<<METHOD\nGET\nMETHOD\n").is_err());
}

#[test]
fn heredoc_request_rejects_bad_url_scheme() {
    let text = "<<METHOD\nGET\nMETHOD\n<<URL\nftp://example.test\nURL\n";
    assert!(parse_heredoc_request(text).is_err());
}

#[test]
fn heredoc_request_rejects_unknown_method() {
    let text = "<<METHOD\nFLY\nMETHOD\n<<URL\nhttp://example.test\nURL\n";
    assert!(parse_heredoc_request(text).is_err());
}

#[test]
fn heredoc_request_rejects_bad_timeout() {
    let text = "<<METHOD\nGET\nMETHOD\n<<URL\nhttp://x\nURL\n<<TIMEOUT\nsoon\nTIMEOUT\n";
    assert!(parse_heredoc_request(text).is_err());
}

#[test]
fn heredoc_request_ignores_unknown_blocks() {
    let text = "<<NOTES\nwhatever\nNOTES\n<<METHOD\nGET\nMETHOD\n<<URL\nhttp://x\nURL\n";
    let rd = parse_heredoc_request(text).unwrap();
    assert_eq!(rd.method.as_deref(), Some("GET"));
    assert_eq!(rd.follow_redirects, None);
}

#[test]
fn heredoc_request_follow_redirects_values() {
    let base = "<<METHOD\nGET\nMETHOD\n<<URL\nhttp://x\nURL\n";
    let t = format!("{}<<FOLLOW_REDIRECTS\nFALSE\nFOLLOW_REDIRECTS\n", base);
    let rd = parse_heredoc_request(&t).unwrap();
    assert_eq!(rd.follow_redirects, Some(false));
    let t = format!("{}<<FOLLOW_REDIRECTS\n1\nFOLLOW_REDIRECTS\n", base);
    let rd = parse_heredoc_request(&t).unwrap();
    assert_eq!(rd.follow_redirects, Some(true));
}
