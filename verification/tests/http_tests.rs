use jev_sentinel::http::{
    asset_head, body_length, body_prefix, check_body, decimal_string, find_head_end, head_progress,
    json_head, next_revision, parse_request_head, read_request_head, frame_request, parse_u64, query_id, route, status_head, Asset,
    BodyReject, HeadProgress, HeadReject, Locale, Refusal, Route,
};

#[test]
fn head_end_and_progress() {
    let req = b"GET / HTTP/1.1\r\nHost: localhost\r\n\r\nbody".to_vec();
    assert_eq!(find_head_end(&req), Some(31));
    assert_eq!(head_progress(&req), HeadProgress::Complete(31));
    assert_eq!(head_progress(&b"GET / HTTP/1.1\r\n".to_vec()), HeadProgress::NeedMore);
    assert_eq!(head_progress(&vec![b'a'; 8193]), HeadProgress::TooLarge);
    let mut big = vec![b'a'; 8189];
    big.extend_from_slice(b"\r\n\r\n");
    assert_eq!(head_progress(&big), HeadProgress::TooLarge);
}

#[test]
fn request_heads_are_validated() {
    let h = parse_request_head("POST /api/categories HTTP/1.1\r\nHost: localhost\r\nContent-Length: 42\r\nContent-Type: application/json").unwrap();
    assert_eq!(h.method, "POST");
    assert_eq!(h.target, "/api/categories");
    assert_eq!(h.content_length, Some(42));
    assert!(!h.transfer_encoding);
    let h = parse_request_head("  GET   /x?y=1  HTTP/1.1 \r\ncontent-LENGTH:\t 7 \t\r\nTransfer-Encoding: chunked").unwrap();
    assert_eq!(h.target, "/x?y=1");
    assert_eq!(h.content_length, Some(7));
    assert!(h.transfer_encoding);
    assert_eq!(parse_request_head("").err(), Some(HeadReject::Empty));
    assert_eq!(parse_request_head("GET").err(), Some(HeadReject::MalformedRequestLine));
    assert_eq!(parse_request_head("GET / HTTP/1.1\r\nNoColon").err(), Some(HeadReject::InvalidFieldLine));
    assert_eq!(parse_request_head("GET / HTTP/1.1\r\nHost : x").err(), Some(HeadReject::InvalidFieldSyntax));
    assert_eq!(
        parse_request_head("GET / HTTP/1.1\r\nContent-Length: 1\r\nContent-Length: 1").err(),
        Some(HeadReject::DuplicateContentLength)
    );
    assert_eq!(parse_request_head("GET / HTTP/1.1\r\nContent-Length: +1").err(), Some(HeadReject::InvalidContentLength));
    assert_eq!(parse_request_head("GET / HTTP/1.1\r\nContent-Length: ").err(), Some(HeadReject::InvalidContentLength));
    assert_eq!(
        parse_request_head("GET / HTTP/1.1\r\nContent-Length: 99999999999999999999999").err(),
        Some(HeadReject::InvalidContentLength)
    );
    assert!(parse_request_head("GET / HTTP/1.1\r\n\r\n").is_ok());
}

#[test]
fn bodies_are_bounded() {
    let post = parse_request_head("POST /api/key HTTP/1.1\r\nContent-Length: 8193").unwrap();
    assert_eq!(body_length(&post), Err(BodyReject::PayloadTooLarge));
    let te = parse_request_head("DELETE /api/categories HTTP/1.1\r\nTransfer-Encoding: chunked").unwrap();
    assert_eq!(body_length(&te), Err(BodyReject::UnsupportedTransferEncoding));
    let get = parse_request_head("GET / HTTP/1.1\r\nTransfer-Encoding: chunked\r\nContent-Length: 99999").unwrap();
    assert_eq!(body_length(&get), Ok(0));
    let ok = parse_request_head("POST /api/key HTTP/1.1\r\nContent-Length: 3").unwrap();
    assert_eq!(body_length(&ok), Ok(3));
    let buf = b"POST / HTTP/1.1\r\n\r\nabcdef".to_vec();
    assert_eq!(body_prefix(&buf, 15, 3), b"abc".to_vec());
    assert_eq!(body_prefix(&buf, 15, 10), b"abcdef".to_vec());
    assert_eq!(check_body(&b"ab".to_vec(), 3), Err(BodyReject::IncompleteBody));
    assert_eq!(check_body(&b"abc".to_vec(), 3), Ok(()));
}

#[test]
fn routes_match_method_and_path() {
    assert_eq!(route("GET", "/"), Route::Asset { asset: Asset::Dashboard, head: false });
    assert_eq!(route("HEAD", "/index.html?x"), Route::Asset { asset: Asset::Dashboard, head: true });
    assert_eq!(route("GET", "/dashboard.css"), Route::Asset { asset: Asset::Stylesheet, head: false });
    assert_eq!(route("GET", "/i18n.js"), Route::Asset { asset: Asset::Translations, head: false });
    assert_eq!(route("HEAD", "/locales/pt-BR.json"), Route::Asset { asset: Asset::Locale(Locale::PtBr), head: true });
    for bad in ["/locales/it.json", "/locales/fr", "/locales/zh-TW.json", "/locales/en.json/more", "/locales/", "/locales/../locales/en.json"] {
        assert_eq!(route("GET", bad), Route::NotFound);
    }
    assert_eq!(route("GET", "/api/status"), Route::Status { head: false });
    assert_eq!(route("GET", "/api/categories"), Route::ListCategories);
    assert_eq!(route("DELETE", "/api/categories?id=x"), Route::EditCategories);
    assert_eq!(route("POST", "/api/categories"), Route::EditCategories);
    assert_eq!(route("POST", "/api/categorize"), Route::Categorize);
    assert_eq!(route("GET", "/api/key-status"), Route::KeyStatus);
    assert_eq!(route("POST", "/api/key"), Route::SetKey);
    assert_eq!(route("PUT", "/api/key"), Route::NotFound);
    assert_eq!(route("HEAD", "/api/categories"), Route::NotFound);
}

#[test]
fn responses_have_exact_heads() {
    assert_eq!(
        json_head(200, 2),
        "HTTP/1.1 200 OK\r\nContent-Type: application/json; charset=utf-8\r\nContent-Length: 2\r\nConnection: close\r\nCache-Control: no-store\r\nX-Content-Type-Options: nosniff\r\nAccess-Control-Allow-Origin: *\r\n\r\n"
    );
    assert!(json_head(502, 10).starts_with("HTTP/1.1 502 Bad Gateway\r\n"));
    assert!(json_head(418, 0).starts_with("HTTP/1.1 418 Status\r\n"));
    assert_eq!(
        asset_head(Asset::Translations, 1234),
        "HTTP/1.1 200 OK\r\nContent-Type: text/javascript; charset=utf-8\r\nContent-Length: 1234\r\nConnection: close\r\nCache-Control: no-cache\r\nX-Content-Type-Options: nosniff\r\n\r\n"
    );
    assert!(asset_head(Asset::Dashboard, 1).contains("Cache-Control: no-cache, no-store, must-revalidate\r\nPragma: no-cache\r\nExpires: 0\r\n"));
    assert!(status_head(5).contains("Access-Control-Allow-Origin: *"));
    assert_eq!(Refusal::NotFound.response(), "HTTP/1.1 404 Not Found\r\nContent-Length: 9\r\nConnection: close\r\n\r\nNot Found");
    assert_eq!(
        Refusal::Body(BodyReject::PayloadTooLarge).response(),
        "HTTP/1.1 413 Payload Too Large\r\nContent-Length: 17\r\nConnection: close\r\n\r\nPayload Too Large"
    );
}

#[test]
fn numbers_and_revisions() {
    assert_eq!(decimal_string(0), "0");
    assert_eq!(decimal_string(8192), "8192");
    assert_eq!(decimal_string(u64::MAX), "18446744073709551615");
    assert_eq!(parse_u64("+12"), Some(12));
    assert_eq!(parse_u64("18446744073709551616"), None);
    assert_eq!(parse_u64(""), None);
    assert_eq!(parse_u64("1a"), None);
    assert_eq!(next_revision("0"), "1");
    assert_eq!(next_revision("garbage"), "1");
    assert_eq!(next_revision("18446744073709551615"), "18446744073709551615");
}

#[test]
fn query_ids_are_read_from_the_target() {
    assert_eq!(query_id("/api/categories?id=databases"), Some("databases".to_string()));
    assert_eq!(query_id("/api/categories?x=1&id=a=b"), Some("a".to_string()));
    assert_eq!(query_id("/api/categories?id&id=z"), Some("z".to_string()));
    assert_eq!(query_id("/api/categories"), None);
    assert_eq!(query_id("/api/categories?name=x"), None);
}

#[test]
fn revisions_read_back_and_count_up() {
    for n in [0u64, 9, 10, 99, 12345, u64::MAX - 1] {
        let written = decimal_string(n);
        assert_eq!(parse_u64(&written), Some(n));
        assert_eq!(next_revision(&written), decimal_string(n + 1));
    }
}

#[test]
fn heads_are_read_from_raw_bytes() {
    let mut req = b"GET /caf".to_vec();
    req.push(0xff);
    req.extend_from_slice(b" HTTP/1.1\r\nContent-Length: 3\r\n\r\nabc");
    let end = find_head_end(&req).unwrap();
    let h = read_request_head(&req, end).unwrap();
    assert_eq!(h.method, "GET");
    assert_eq!(h.target, "/caf\u{fffd}");
    assert_eq!(h.content_length, Some(3));
    assert_eq!(read_request_head(&req, 0).err(), Some(HeadReject::Empty));
}

#[test]
fn every_framing_fault_is_refused() {
    let frame = |s: &str| frame_request(&s.as_bytes().to_vec());
    assert!(matches!(frame("GET / HTTP/1.1\r\nHost: x\r\n"), Err(Refusal::IncompleteHead)));
    assert!(matches!(
        frame("POST /api/categories HTTP/1.1\r\nContent-Length: 1\r\nContent-Length: 1\r\n\r\n"),
        Err(Refusal::Head(HeadReject::DuplicateContentLength))
    ));
    assert!(matches!(
        frame("POST /api/categories HTTP/1.1\r\nContent-Length: 1x\r\n\r\n"),
        Err(Refusal::Head(HeadReject::InvalidContentLength))
    ));
    assert!(matches!(
        frame("POST /api/categories HTTP/1.1\r\nHost : x\r\n\r\n"),
        Err(Refusal::Head(HeadReject::InvalidFieldSyntax))
    ));
    assert!(matches!(
        frame("DELETE /api/categories HTTP/1.1\r\nTransfer-Encoding: chunked\r\n\r\n"),
        Err(Refusal::Body(BodyReject::UnsupportedTransferEncoding))
    ));
    match frame("POST /api/categories HTTP/1.1\r\nContent-Length: 3\r\n\r\nab") {
        Ok((h, end, n)) => {
            assert_eq!(h.method, "POST");
            assert_eq!(end, 48);
            assert_eq!(n, 3);
        }
        Err(_) => panic!("expected a framed request"),
    }
    assert!(Refusal::IncompleteHead.response().ends_with("Incomplete Request Headers"));
}
