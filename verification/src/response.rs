//! Formatting of the response header.
//!
//! The wire format produced is `STATUS-LINE\r\nContent-Length: <n>\r\n\r\n`
//! followed by the body bytes; the status line comes from a small fixed
//! set. Reading body bytes and writing to the connection happen outside
//! this crate - here the header is built, exactly.

use vstd::prelude::*;

verus! {

/// The statuses this core can answer with.
#[derive(Clone, Copy, PartialEq, Eq, Structural, Debug)]
pub enum Status {
    Success,
    NotFound,
}

/// The status line for each status.
pub open spec fn status_line(s: Status) -> Seq<char> {
    match s {
        Status::Success => "HTTP/1.1 200 OK"@,
        Status::NotFound => "HTTP/1.1 404 NOT FOUND"@,
    }
}

/// The character for one decimal digit.
pub open spec fn digit_char(d: int) -> char {
    if d == 0 {
        '0'
    } else if d == 1 {
        '1'
    } else if d == 2 {
        '2'
    } else if d == 3 {
        '3'
    } else if d == 4 {
        '4'
    } else if d == 5 {
        '5'
    } else if d == 6 {
        '6'
    } else if d == 7 {
        '7'
    } else if d == 8 {
        '8'
    } else {
        '9'
    }
}

/// The decimal digits of `n`, most significant first.
pub open spec fn dec_chars(n: nat) -> Seq<char>
    decreases n,
{
    if n < 10 {
        seq![digit_char(n as int)]
    } else {
        dec_chars(n / 10).push(digit_char((n % 10) as int))
    }
}

/// The full response header for `s` with a body of `len` bytes.
pub open spec fn response_header(s: Status, len: nat) -> Seq<char> {
    status_line(s) + "\r\nContent-Length: "@ + dec_chars(len) + "\r\n\r\n"@
}

/// The digits of `ds` read back to front as characters.
spec fn rev_digits(ds: Seq<usize>) -> Seq<char> {
    Seq::new(ds.len(), |i: int| digit_char(ds[ds.len() - 1 - i] as int))
}

fn digit_str(d: usize) -> (r: &'static str)
    requires
        d < 10,
    ensures
        r@ == seq![digit_char(d as int)],
{
    let r: &'static str = if d == 0 {
        "0"
    } else if d == 1 {
        "1"
    } else if d == 2 {
        "2"
    } else if d == 3 {
        "3"
    } else if d == 4 {
        "4"
    } else if d == 5 {
        "5"
    } else if d == 6 {
        "6"
    } else if d == 7 {
        "7"
    } else if d == 8 {
        "8"
    } else {
        "9"
    };
    proof {
        reveal_strlit("0");
        reveal_strlit("1");
        reveal_strlit("2");
        reveal_strlit("3");
        reveal_strlit("4");
        reveal_strlit("5");
        reveal_strlit("6");
        reveal_strlit("7");
        reveal_strlit("8");
        reveal_strlit("9");
        assert(r@ =~= seq![digit_char(d as int)]);
    }
    r
}

/// The decimal representation of `n`.
pub fn dec_string(n: usize) -> (r: String)
    ensures
        r@ == dec_chars(n as nat),
{
    let mut ds: Vec<usize> = Vec::new();
    let mut m = n;
    while m >= 10
        invariant
            forall|t: int| 0 <= t < ds@.len() ==> ds@[t] < 10,
            dec_chars(n as nat) == dec_chars(m as nat) + rev_digits(ds@),
        decreases m,
    {
        let d = m % 10;
        let ghost pre = ds@;
        ds.push(d);
        m = m / 10;
        proof {
            assert(rev_digits(ds@) =~= seq![digit_char(d as int)] + rev_digits(pre));
            assert(dec_chars(n as nat) =~= (dec_chars(m as nat).push(digit_char(d as int)))
                + rev_digits(pre));
            assert(dec_chars(m as nat).push(digit_char(d as int)) + rev_digits(pre)
                =~= dec_chars(m as nat) + (seq![digit_char(d as int)] + rev_digits(pre)));
        }
    }
    let ghost pre = ds@;
    ds.push(m);
    proof {
        assert(rev_digits(ds@) =~= seq![digit_char(m as int)] + rev_digits(pre));
        assert(dec_chars(n as nat) =~= rev_digits(ds@));
    }
    let mut r = String::new();
    let mut i = ds.len();
    while i > 0
        invariant
            i <= ds@.len(),
            forall|t: int| 0 <= t < ds@.len() ==> ds@[t] < 10,
            r@ =~= rev_digits(ds@).take(ds@.len() - i),
        decreases i,
    {
        i = i - 1;
        r.append(digit_str(ds[i]));
        proof {
            assert(r@ =~= rev_digits(ds@).take(ds@.len() - i));
        }
    }
    proof {
        assert(rev_digits(ds@).take(ds@.len() as int) =~= rev_digits(ds@));
    }
    r
}

/// Builds the response header for `status` and a body of `body_len`
/// bytes, exactly in the produced wire format.
pub fn build_header(status: Status, body_len: usize) -> (r: String)
    ensures
        r@ == response_header(status, body_len as nat),
{
    let mut r = match status {
        Status::Success => String::from_str("HTTP/1.1 200 OK"),
        Status::NotFound => String::from_str("HTTP/1.1 404 NOT FOUND"),
    };
    r.append("\r\nContent-Length: ");
    let d = dec_string(body_len);
    r.append(d.as_str());
    r.append("\r\n\r\n");
    proof {
        assert(r@ =~= response_header(status, body_len as nat));
    }
    r
}

} // verus!
