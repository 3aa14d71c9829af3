use protohackers::prime::{handle_request, is_prime, is_valid_request, Request, RequestError};

#[test]
fn primes_and_non_primes() {
    let primes: Vec<i32> = (-10..60).filter(|n| is_prime(*n)).collect();
    assert_eq!(
        primes,
        vec![2, 3, 5, 7, 11, 13, 17, 19, 23, 29, 31, 37, 41, 43, 47, 53, 59]
    );
    assert!(is_prime(7919));
    assert!(!is_prime(7917));
    assert!(!is_prime(i32::MIN));
}

#[test]
fn valid_request_names_is_prime() {
    let ok = Request { method: "isPrime".to_string(), number: 3 };
    let bad = Request { method: "isprime".to_string(), number: 3 };
    assert!(is_valid_request(&ok));
    assert!(!is_valid_request(&bad));
}

#[test]
fn request_answers() {
    let r = handle_request(Some(Request { method: "isPrime".to_string(), number: 13 })).unwrap();
    assert_eq!(r.method, "isPrime");
    assert!(r.prime);
    let r = handle_request(Some(Request { method: "isPrime".to_string(), number: 1 })).unwrap();
    assert!(!r.prime);
    assert_eq!(
        handle_request(Some(Request { method: "other".to_string(), number: 13 })).err(),
        Some(RequestError::InvalidRequest)
    );
    assert_eq!(handle_request(None).err(), Some(RequestError::Malformed));
}

#[test]
fn replies_end_in_a_newline_and_errors_close() {
    let (line, last) = protohackers::prime::reply_for(Ok("{\"method\":\"isPrime\",\"prime\":true}".to_string()));
    assert_eq!(line, "{\"method\":\"isPrime\",\"prime\":true}\n");
    assert!(!last);
    let (line, last) = protohackers::prime::reply_for(Err(RequestError::Malformed));
    assert_eq!(line, "{\n");
    assert!(last);
}
