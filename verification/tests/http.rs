use saba_core::error::Error;
use saba_core::http::HttpResponse;

#[test]
fn test_status_line_only() {
    let raw = "HTTP/1.1 200 OK\n\n".to_string();
    let res = HttpResponse::new(raw).expect("Failed to parse HTTP response");
    assert_eq!("HTTP/1.1", res.version);
    assert_eq!(200, res.status_code);
    assert_eq!("OK", res.reason)
}

#[test]
fn test_one_header() {
    let raw = "HTTP/1.1 200 OK\nDate:xx xx xx\n\n".to_string();
    let res = HttpResponse::new(raw).expect("Failed to parse HTTP response");

    assert_eq!("HTTP/1.1", res.version);
    assert_eq!(200, res.status_code);
    assert_eq!("OK", res.reason);

    assert_eq!(Ok("xx xx xx".to_string()), res.header_value("Date"));
}

#[test]
fn test_two_headers_with_white_space() {
    let raw = "HTTP/1.1 200 OK\nDate: xx xx xx\nContent-Length: 42\n\n".to_string();
    let res = HttpResponse::new(raw).expect("Failed to parse HTTP response");

    assert_eq!("HTTP/1.1", res.version);
    assert_eq!(200, res.status_code);
    assert_eq!("OK", res.reason);

    assert_eq!(Ok("xx xx xx".to_string()), res.header_value("Date"));
    assert_eq!(Ok("42".to_string()), res.header_value("Content-Length"));
}

#[test]
fn http_test_body() {
    let raw = "HTTP/1.1 200 OK\nDate: xx xx xx\n\nbody message".to_string();
    let res = HttpResponse::new(raw).expect("Failed to parse HTTP response");

    assert_eq!("HTTP/1.1", res.version);
    assert_eq!(200, res.status_code);
    assert_eq!("OK", res.reason);

    assert_eq!(Ok("xx xx xx".to_string()), res.header_value("Date"));

    assert_eq!("body message".to_string(), res.body);
}

#[test]
fn test_invalid() {
    let raw = "HTTP/1.1 200 OK".to_string();
    assert!(HttpResponse::new(raw).is_err())
}

#[test]
fn invalid_response_carries_the_text_read() {
    let raw = "  HTTP/1.1 200 OK".to_string();
    assert_eq!(
        Err(Error::Network("Invalid HTTP response: HTTP/1.1 200 OK".to_string())),
        HttpResponse::new(raw)
    );
}

#[test]
fn body_begins_behind_the_first_empty_line() {
    let res = HttpResponse::new("HTTP/1.1 200 OK\n\nbody".to_string())
        .expect("Failed to parse HTTP response");
    assert!(res.headers.is_empty());
    assert_eq!("body", res.body);

    let res = HttpResponse::new("HTTP/1.1 200 OK\n\n".to_string())
        .expect("Failed to parse HTTP response");
    assert!(res.headers.is_empty());
    assert_eq!("", res.body);

    let res = HttpResponse::new("HTTP/1.1 200 OK\n\n\nbody".to_string())
        .expect("Failed to parse HTTP response");
    assert!(res.headers.is_empty());
    assert_eq!("\nbody", res.body);

    let res = HttpResponse::new("HTTP/1.1 200 OK\n\nA: 1\n\nbody".to_string())
        .expect("Failed to parse HTTP response");
    assert!(res.headers.is_empty());
    assert_eq!("A: 1\n\nbody", res.body);

    let res = HttpResponse::new("HTTP/1.1 200 OK\nA: 1\n\n\nbody".to_string())
        .expect("Failed to parse HTTP response");
    assert_eq!(Ok("1".to_string()), res.header_value("A"));
    assert_eq!(1, res.headers.len());
    assert_eq!("\nbody", res.body);
}

#[test]
fn response_without_separator_has_no_header() {
    let raw = "HTTP/1.1 200 OK\nDate: xx xx xx\nbody message".to_string();
    let res = HttpResponse::new(raw).expect("Failed to parse HTTP response");
    assert!(res.headers.is_empty());
    assert_eq!("Date: xx xx xx\nbody message", res.body);
}

#[test]
fn line_feed_before_carriage_return_is_one_line_feed() {
    let raw = "\n \tHTTP/1.1 200 OK\n\rDate: xx\n\r\n\rbody\n\r".to_string();
    let res = HttpResponse::new(raw).expect("Failed to parse HTTP response");
    assert_eq!("HTTP/1.1", res.version);
    assert_eq!(Ok("xx".to_string()), res.header_value("Date"));
    assert_eq!("body\n", res.body);
}

#[test]
fn status_that_is_no_number_is_404() {
    for code in ["abc", "", "-1", "4294967296", "+", "20 0", "2x"] {
        let raw = format!("HTTP/1.1 {} OK\n\n", code);
        match HttpResponse::new(raw) {
            Ok(res) => {
                if code == "20 0" {
                    assert_eq!(20, res.status_code);
                } else {
                    assert_eq!(404, res.status_code, "status {:?}", code);
                }
            }
            Err(_) => assert_eq!("", code),
        }
    }
}

#[test]
fn status_is_read_as_a_decimal_number() {
    for (code, expected) in [("0", 0u32), ("+301", 301), ("007", 7), ("4294967295", u32::MAX)] {
        let raw = format!("HTTP/1.1 {} OK\n\n", code);
        let res = HttpResponse::new(raw).expect("Failed to parse HTTP response");
        assert_eq!(expected, res.status_code);
        assert_eq!(code.parse::<u32>().ok(), Some(res.status_code));
    }
}

#[test]
fn reason_is_the_third_field_only() {
    let raw = "HTTP/1.1 404 Not Found\n\n".to_string();
    let res = HttpResponse::new(raw).expect("Failed to parse HTTP response");
    assert_eq!("Not", res.reason);
}

#[test]
fn status_line_with_two_fields_is_refused() {
    assert!(HttpResponse::new("HTTP/1.1 200\n\n".to_string()).is_err());
    assert!(HttpResponse::new("\n\n".to_string()).is_err());
    assert!(HttpResponse::new("".to_string()).is_err());
}

#[test]
fn header_line_without_colon_is_refused() {
    let raw = "HTTP/1.1 200 OK\nDate xx\n\nbody".to_string();
    assert!(HttpResponse::new(raw).is_err());
}

#[test]
fn header_value_is_cut_at_the_first_colon_and_trimmed() {
    let raw = "HTTP/1.1 200 OK\n  Location \t:  http://a:80/ \u{3000}\nX:\n\n".to_string();
    let res = HttpResponse::new(raw).expect("Failed to parse HTTP response");
    assert_eq!(2, res.headers.len());
    assert_eq!(Ok("http://a:80/".to_string()), res.header_value("Location"));
    assert_eq!(Ok("".to_string()), res.header_value("X"));
}

#[test]
fn first_header_of_a_name_wins() {
    let raw = "HTTP/1.1 200 OK\nA: 1\nB: 2\nA: 3\n\n".to_string();
    let res = HttpResponse::new(raw).expect("Failed to parse HTTP response");
    assert_eq!(res, res.clone());
    assert_eq!(Ok("1".to_string()), res.header_value("A"));
    assert_eq!(Ok("2".to_string()), res.header_value("B"));
}

#[test]
fn missing_header_is_named_in_the_error() {
    let raw = "HTTP/1.1 200 OK\nDate: xx\n\n".to_string();
    let res = HttpResponse::new(raw).expect("Failed to parse HTTP response");
    assert_eq!(
        Err("Failed to find Content-Length in headers".to_string()),
        res.header_value("Content-Length")
    );
    assert_eq!(Err("Failed to find date in headers".to_string()), res.header_value("date"));
}
