use utils::json::{parse_json, Value};
use utils::prime_time::{is_prime, respond, write_error};

fn exchange(request: &[u8]) -> (Vec<u8>, bool) {
    let mut out = Vec::new();
    let keep_open = respond(request, &mut out);
    (out, keep_open)
}

#[test]
fn numbers_below_two_are_not_prime() {
    for n in [i64::MIN, -7, -5, -1, 0, 1] {
        assert!(!is_prime(n));
    }
}

#[test]
fn small_numbers_are_classified() {
    let primes = [2, 3, 5, 7, 11, 13, 17, 19, 23, 29, 31, 37, 41, 43, 47];
    for n in 0..50 {
        assert_eq!(is_prime(n), primes.contains(&n), "{}", n);
    }
}

#[test]
fn squares_of_primes_are_not_prime() {
    assert!(!is_prime(4));
    assert!(!is_prime(9));
    assert!(!is_prime(25));
    assert!(!is_prime(49));
    assert!(!is_prime(7919 * 7919));
    assert!(!is_prime(94906249 * 94906249));
    assert!(!is_prime(7919 * 7927));
}

#[test]
fn larger_primes_are_found() {
    assert!(is_prime(7919));
    assert!(is_prime(104729));
    assert!(is_prime(2147483647));
    assert!(!is_prime(2147483649));
    assert!(!is_prime(i64::MAX));
}

#[test]
fn a_request_about_a_prime_is_answered_true() {
    let (out, keep_open) = exchange(b"{\"method\":\"isPrime\",\"prime\":7}\n");
    assert_eq!(out, b"{\"method\": \"isPrime\", \"prime\": true}\n");
    assert!(keep_open);
    let parsed = parse_json(&out).unwrap();
    let members = parsed.object().unwrap();
    assert_eq!(members.len(), 2);
    assert_eq!(members.get("method"), Some(&Value::String("isPrime".into())));
    assert_eq!(members.get("prime"), Some(&Value::Bool(true)));
}

#[test]
fn a_request_about_one_is_answered_false() {
    let (out, keep_open) = exchange(b"{\"method\":\"isPrime\",\"prime\":1}\n");
    assert_eq!(out, b"{\"method\": \"isPrime\", \"prime\": false}\n");
    assert!(keep_open);
}

#[test]
fn a_minus_sign_makes_the_request_malformed() {
    let (out, keep_open) = exchange(b"{\"method\":\"isPrime\",\"prime\":-5}\n");
    assert_eq!(out, b"{\"error\": \"malformed request\"}");
    assert!(!keep_open);
}

#[test]
fn a_line_that_is_not_json_is_malformed() {
    for request in [&b"GET / HTTP/1.1\n"[..], b"\n", b"", b"\xff\xfe", b"{\"method\":\"isPrime\""] {
        let (out, keep_open) = exchange(request);
        assert_eq!(out, b"{\"error\": \"malformed request\"}");
        assert!(!keep_open);
    }
}

#[test]
fn a_request_of_another_shape_is_malformed() {
    let requests: [&[u8]; 8] = [
        b"[]\n",
        b"7\n",
        b"{}\n",
        b"{\"method\":\"isPrime\"}\n",
        b"{\"prime\":7}\n",
        b"{\"method\":\"isprime\",\"prime\":7}\n",
        b"{\"method\":\"isPrime\",\"prime\":\"7\"}\n",
        b"{\"method\":\"isPrime\",\"prime\":7.5}\n",
    ];
    for request in requests {
        let (out, keep_open) = exchange(request);
        assert_eq!(out, b"{\"error\": \"malformed request\"}");
        assert!(!keep_open);
    }
}

#[test]
fn other_members_and_the_order_do_not_matter() {
    let (out, keep_open) =
        exchange(b" { \"prime\" : 10 , \"extra\" : [1] , \"method\" : \"isPrime\" } trailing\n");
    assert_eq!(out, b"{\"method\": \"isPrime\", \"prime\": false}\n");
    assert!(keep_open);
}

#[test]
fn the_last_value_of_a_repeated_member_counts() {
    let (out, _) = exchange(b"{\"method\":\"isPrime\",\"prime\":4,\"prime\":5}\n");
    assert_eq!(out, b"{\"method\": \"isPrime\", \"prime\": true}\n");
}

#[test]
fn replies_are_appended() {
    let mut out = Vec::new();
    assert!(respond(b"{\"method\":\"isPrime\",\"prime\":2}\n", &mut out));
    assert!(!respond(b"oops\n", &mut out));
    assert_eq!(
        out,
        b"{\"method\": \"isPrime\", \"prime\": true}\n{\"error\": \"malformed request\"}"
    );
    let mut out = b">".to_vec();
    write_error(&mut out);
    assert_eq!(out, b">{\"error\": \"malformed request\"}");
}
