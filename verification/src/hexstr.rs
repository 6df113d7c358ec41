//! Lowercase hexadecimal text for digests: two digits per byte, for display
//! and logging, and the parse back from that form for persisted proofs.

use vstd::prelude::*;
use vstd::string::StrSliceExecFns;

verus! {

/// The lowercase hexadecimal digit of a value below sixteen.
pub open spec fn hex_digit(n: u8) -> char
    recommends
        n < 16,
{
    if n == 0 {
        '0'
    } else if n == 1 {
        '1'
    } else if n == 2 {
        '2'
    } else if n == 3 {
        '3'
    } else if n == 4 {
        '4'
    } else if n == 5 {
        '5'
    } else if n == 6 {
        '6'
    } else if n == 7 {
        '7'
    } else if n == 8 {
        '8'
    } else if n == 9 {
        '9'
    } else if n == 10 {
        'a'
    } else if n == 11 {
        'b'
    } else if n == 12 {
        'c'
    } else if n == 13 {
        'd'
    } else if n == 14 {
        'e'
    } else {
        'f'
    }
}

/// The value of a lowercase hexadecimal digit; sixteen marks every other
/// character.
pub open spec fn hex_val(c: char) -> u8 {
    if c == '0' {
        0
    } else if c == '1' {
        1
    } else if c == '2' {
        2
    } else if c == '3' {
        3
    } else if c == '4' {
        4
    } else if c == '5' {
        5
    } else if c == '6' {
        6
    } else if c == '7' {
        7
    } else if c == '8' {
        8
    } else if c == '9' {
        9
    } else if c == 'a' {
        10
    } else if c == 'b' {
        11
    } else if c == 'c' {
        12
    } else if c == 'd' {
        13
    } else if c == 'e' {
        14
    } else if c == 'f' {
        15
    } else {
        16
    }
}

/// Whether a character is a lowercase hexadecimal digit.
pub open spec fn is_hex_char(c: char) -> bool {
    hex_val(c) < 16
}

/// The lowercase hexadecimal text of a byte sequence: two digits per byte,
/// high digit first.
pub open spec fn hex_of(bytes: Seq<u8>) -> Seq<char>
    decreases bytes.len(),
{
    if bytes.len() == 0 {
        Seq::empty()
    } else {
        seq![hex_digit(bytes[0] / 16), hex_digit(bytes[0] % 16)] + hex_of(bytes.skip(1))
    }
}

/// A hexadecimal digit names its value and nothing else.
proof fn lemma_hex_digit_val(c: char)
    requires
        is_hex_char(c),
    ensures
        hex_digit(hex_val(c)) == c,
{
}

/// Appending a byte appends its two digits.
proof fn lemma_hex_of_push(bytes: Seq<u8>, b: u8)
    ensures
        hex_of(bytes.push(b)) == hex_of(bytes) + seq![hex_digit(b / 16), hex_digit(b % 16)],
    decreases bytes.len(),
{
    if bytes.len() == 0 {
        assert(bytes.push(b).skip(1) =~= Seq::<u8>::empty());
        assert(hex_of(Seq::<u8>::empty()) == Seq::<char>::empty());
        assert(hex_of(bytes) == Seq::<char>::empty());
        assert(bytes.push(b)[0] == b);
        assert(hex_of(bytes.push(b)) =~= hex_of(bytes) + seq![
            hex_digit(b / 16),
            hex_digit(b % 16),
        ]);
    } else {
        lemma_hex_of_push(bytes.skip(1), b);
        assert(bytes.push(b).skip(1) =~= bytes.skip(1).push(b));
        assert(hex_of(bytes.push(b)) =~= hex_of(bytes) + seq![
            hex_digit(b / 16),
            hex_digit(b % 16),
        ]);
    }
}

/// Relies on `String::push`: it appends exactly the given character.
#[verifier::external_body]
fn push_char(s: &mut String, c: char)
    ensures
        final(s)@ == old(s)@ + seq![c],
{
    s.push(c);
}

/// The lowercase hexadecimal digit of a value below sixteen.
fn hex_digit_char(n: u8) -> (c: char)
    requires
        n < 16,
    ensures
        c == hex_digit(n),
{
    if n == 0 {
        '0'
    } else if n == 1 {
        '1'
    } else if n == 2 {
        '2'
    } else if n == 3 {
        '3'
    } else if n == 4 {
        '4'
    } else if n == 5 {
        '5'
    } else if n == 6 {
        '6'
    } else if n == 7 {
        '7'
    } else if n == 8 {
        '8'
    } else if n == 9 {
        '9'
    } else if n == 10 {
        'a'
    } else if n == 11 {
        'b'
    } else if n == 12 {
        'c'
    } else if n == 13 {
        'd'
    } else if n == 14 {
        'e'
    } else {
        'f'
    }
}

/// The value of a lowercase hexadecimal digit, or `None` for any other
/// character.
fn hex_val_of(c: char) -> (r: Option<u8>)
    ensures
        r is Some <==> is_hex_char(c),
        r is Some ==> r.unwrap() == hex_val(c),
{
    if c == '0' {
        Some(0)
    } else if c == '1' {
        Some(1)
    } else if c == '2' {
        Some(2)
    } else if c == '3' {
        Some(3)
    } else if c == '4' {
        Some(4)
    } else if c == '5' {
        Some(5)
    } else if c == '6' {
        Some(6)
    } else if c == '7' {
        Some(7)
    } else if c == '8' {
        Some(8)
    } else if c == '9' {
        Some(9)
    } else if c == 'a' {
        Some(10)
    } else if c == 'b' {
        Some(11)
    } else if c == 'c' {
        Some(12)
    } else if c == 'd' {
        Some(13)
    } else if c == 'e' {
        Some(14)
    } else if c == 'f' {
        Some(15)
    } else {
        None
    }
}

/// Renders a digest — any byte sequence — as lowercase hexadecimal text.
pub fn digest_to_hex(digest: &Vec<u8>) -> (r: String)
    ensures
        r@ == hex_of(digest@),
{
    let mut r = String::new();
    let mut i: usize = 0;
    proof {
        assert(digest@.skip(0) =~= digest@);
    }
    while i < digest.len()
        invariant
            i <= digest@.len(),
            r@ + hex_of(digest@.skip(i as int)) =~= hex_of(digest@),
        decreases digest@.len() - i,
    {
        let b = digest[i];
        push_char(&mut r, hex_digit_char(b / 16));
        push_char(&mut r, hex_digit_char(b % 16));
        proof {
            assert(digest@.skip(i as int).skip(1) =~= digest@.skip(i as int + 1));
        }
        i = i + 1;
    }
    proof {
        assert(digest@.skip(digest@.len() as int) =~= Seq::<u8>::empty());
        assert(r@ =~= hex_of(digest@));
    }
    r
}

/// Parses lowercase hexadecimal text back into bytes. The parse succeeds
/// exactly on text of even length whose characters are all lowercase
/// hexadecimal digits, and returns the bytes whose rendering is the input.
pub fn digest_from_hex(text: &str) -> (r: Option<Vec<u8>>)
    ensures
        r is Some <==> (text@.len() % 2 == 0 && (forall|j: int|
            0 <= j < text@.len() ==> is_hex_char(#[trigger] text@[j]))),
        r is Some ==> hex_of(r.unwrap()@) == text@,
{
    let n = text.unicode_len();
    if n % 2 != 0 {
        return None;
    }
    let mut out: Vec<u8> = Vec::new();
    let mut i: usize = 0;
    proof {
        assert(hex_of(out@) =~= text@.take(0));
    }
    while i < n
        invariant
            i <= n,
            i % 2 == 0,
            n % 2 == 0,
            n == text@.len(),
            forall|j: int| 0 <= j < i ==> is_hex_char(#[trigger] text@[j]),
            hex_of(out@) =~= text@.take(i as int),
        decreases n - i,
    {
        assert(i + 1 < n);
        let c1 = text.get_char(i);
        let c2 = text.get_char(i + 1);
        let hi = match hex_val_of(c1) {
            Some(v) => v,
            None => {
                return None;
            },
        };
        let lo = match hex_val_of(c2) {
            Some(v) => v,
            None => {
                return None;
            },
        };
        let b = hi * 16 + lo;
        let ghost prev = out@;
        out.push(b);
        proof {
            lemma_hex_of_push(prev, b);
            lemma_hex_digit_val(c1);
            lemma_hex_digit_val(c2);
            assert(b / 16 == hi && b % 16 == lo);
            assert(text@.take(i as int + 2) =~= text@.take(i as int).push(c1).push(c2));
            assert(hex_of(out@) =~= text@.take(i as int + 2));
        }
        i = i + 2;
    }
    proof {
        assert(text@.take(n as int) =~= text@);
    }
    Some(out)
}

} // verus!
