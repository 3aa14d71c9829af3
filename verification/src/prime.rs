//! Primality requests: a request names a method and a number; a valid one
//! is answered with whether the number is prime.
use vstd::prelude::*;

verus! {

/// A decoded request.
pub struct Request {
    pub method: String,
    pub number: i32,
}

/// The answer to a valid request.
pub struct Response {
    pub method: String,
    pub prime: bool,
}

/// Why a request gets no answer: it did not decode, or names another method.
#[derive(Debug, PartialEq, Eq, Structural)]
pub enum RequestError {
    Malformed,
    InvalidRequest,
}

/// What a client is sent, before the connection is closed, for a request
/// that gets no answer.
pub const MALFORMED_RESPONSE: &'static str = "{\n";

/// The one method that is answered.
pub const METHOD: &'static str = "isPrime";

/// Whether `n` is a prime number.
pub open spec fn spec_is_prime(n: int) -> bool {
    n > 1 && forall|d: int| 2 <= d < n ==> #[trigger] (n % d) != 0
}

/// Whether the request names the method `isPrime`.
pub fn is_valid_request(req: &Request) -> (r: bool)
    ensures
        r == (req.method@ == METHOD@),
{
    let expected = String::from_str(METHOD);
    req.method == expected
}

/// Whether `n` is prime, by trial division.
pub fn is_prime(n: i32) -> (r: bool)
    ensures
        r == spec_is_prime(n as int),
{
    if n <= 1 {
        return false;
    }
    let mut i: i32 = 2;
    while i < n - 1
        invariant
            2 <= i,
            n > 1,
            i <= n - 1 || n == 2,
            forall|d: int| 2 <= d < i ==> #[trigger] ((n as int) % d) != 0,
        decreases n - i,
    {
        if n % i == 0 {
            assert(((n as int) % (i as int)) == 0);
            return false;
        }
        i = i + 1;
    }
    proof {
        if n > 2 {
            assert(i == n - 1);
            assert((n as int) % ((n - 1) as int) == 1) by (nonlinear_arith)
                requires
                    n > 2,
            ;
        }
    }
    true
}

/// The answer to a request, where `parsed` is the request as decoded, or
/// `None` if it did not decode.
pub fn handle_request(parsed: Option<Request>) -> (r: Result<Response, RequestError>)
    ensures
        match parsed {
            None => r == Err::<Response, RequestError>(RequestError::Malformed),
            Some(req) => if req.method@ == METHOD@ {
                r matches Ok(resp) && resp.method@ == METHOD@ && resp.prime == spec_is_prime(
                    req.number as int,
                )
            } else {
                r == Err::<Response, RequestError>(RequestError::InvalidRequest)
            },
        },
{
    let req = match parsed {
        Some(req) => req,
        None => {
            return Err(RequestError::Malformed);
        },
    };
    if !is_valid_request(&req) {
        return Err(RequestError::InvalidRequest);
    }
    Ok(Response { method: String::from_str(METHOD), prime: is_prime(req.number) })
}


/// What a client is sent for one request line and whether the session ends
/// there: an answer, serialized as `json`, goes out as one line and the
/// session goes on; a request without an answer gets `MALFORMED_RESPONSE`
/// and ends the session.
pub fn reply_for(outcome: Result<String, RequestError>) -> (r: (String, bool))
    ensures
        match outcome {
            Ok(json) => r.0@ == json@ + "\n"@ && !r.1,
            Err(_) => r.0@ == MALFORMED_RESPONSE@ && r.1,
        },
{
    match outcome {
        Ok(json) => {
            let mut line = json;
            line.append("\n");
            (line, false)
        },
        Err(_) => (String::from_str(MALFORMED_RESPONSE), true),
    }
}

} // verus!
