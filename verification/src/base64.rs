//! Standard base64 encoding with `=` padding, for HTTP basic authentication.
use vstd::prelude::*;
use crate::text::push_char;

verus! {

/// The base64 alphabet: `A-Z`, `a-z`, `0-9`, `+`, `/`.
pub open spec fn b64_char(i: int) -> char {
    if i < 26 {
        ('A' as int + i) as char
    } else if i < 52 {
        ('a' as int + (i - 26)) as char
    } else if i < 62 {
        ('0' as int + (i - 52)) as char
    } else if i == 62 {
        '+'
    } else {
        '/'
    }
}

/// The four characters for a group of one to three bytes (missing bytes count as
/// zero; a group of `k` bytes keeps `k + 1` characters and is padded with `=`).
pub open spec fn b64_group(b0: int, b1: int, b2: int, k: int) -> Seq<char> {
    seq![
        b64_char(b0 / 4),
        b64_char((b0 % 4) * 16 + b1 / 16),
        if k > 1 { b64_char((b1 % 16) * 4 + b2 / 64) } else { '=' },
        if k > 2 { b64_char(b2 % 64) } else { '=' },
    ]
}

/// Base64 of `s`, three bytes at a time.
pub open spec fn base64_spec(s: Seq<u8>) -> Seq<char>
    decreases s.len(),
{
    if s.len() == 0 {
        Seq::empty()
    } else if s.len() >= 3 {
        b64_group(s[0] as int, s[1] as int, s[2] as int, 3) + base64_spec(s.skip(3))
    } else if s.len() == 2 {
        b64_group(s[0] as int, s[1] as int, 0, 2)
    } else {
        b64_group(s[0] as int, 0, 0, 1)
    }
}

fn b64_char_exec(i: u32) -> (c: char)
    requires
        i < 64,
    ensures
        c == b64_char(i as int),
{
    if i < 26 {
        ((65 + i) as u8) as char
    } else if i < 52 {
        ((97 + (i - 26)) as u8) as char
    } else if i < 62 {
        ((48 + (i - 52)) as u8) as char
    } else if i == 62 {
        '+'
    } else {
        '/'
    }
}

proof fn lemma_base64_skip(s: Seq<u8>, i: int)
    requires
        0 <= i,
        i + 3 <= s.len(),
    ensures
        base64_spec(s.skip(i)) == b64_group(s[i] as int, s[i + 1] as int, s[i + 2] as int, 3)
            + base64_spec(s.skip(i + 3)),
{
    let t = s.skip(i);
    assert(t.skip(3) =~= s.skip(i + 3));
}

/// Encodes `input` as standard base64 with padding.
pub fn base64_encode(input: &[u8]) -> (out: String)
    ensures
        out@ == base64_spec(input@),
{
    let mut out = String::new();
    let n = input.len();
    let mut i: usize = 0;
    assert(input@.skip(0) =~= input@);
    while i < n
        invariant
            n == input@.len(),
            i <= n,
            base64_spec(input@) == out@ + base64_spec(input@.skip(i as int)),
        decreases n - i,
    {
        let k = if n - i >= 3 { 3 } else { n - i };
        let b0 = input[i] as u32;
        let b1 = if k > 1 { input[i + 1] as u32 } else { 0 };
        let b2 = if k > 2 { input[i + 2] as u32 } else { 0 };
        let ghost before = out@;
        push_char(&mut out, b64_char_exec(b0 / 4));
        push_char(&mut out, b64_char_exec((b0 % 4) * 16 + b1 / 16));
        if k > 1 {
            push_char(&mut out, b64_char_exec((b1 % 16) * 4 + b2 / 64));
        } else {
            push_char(&mut out, '=');
        }
        if k > 2 {
            push_char(&mut out, b64_char_exec(b2 % 64));
        } else {
            push_char(&mut out, '=');
        }
        proof {
            let g = b64_group(b0 as int, b1 as int, b2 as int, k as int);
            assert(out@ =~= before + g);
            let t = input@.skip(i as int);
            if k == 3 {
                lemma_base64_skip(input@, i as int);
            } else {
                assert(t.len() == k);
                assert(t[0] == input@[i as int]);
                if k == 2 {
                    assert(t[1] == input@[i + 1]);
                }
                assert(input@.skip(i + k) =~= Seq::<u8>::empty());
                assert(base64_spec(t) == g);
            }
        }
        i = i + k;
    }
    assert(input@.skip(n as int) =~= Seq::<u8>::empty());
    out
}

/// Base64 output is four characters for every started group of three bytes:
/// `(n + 2) / 3 * 4` for `n` input bytes.
pub proof fn lemma_base64_len(s: Seq<u8>)
    ensures
        base64_spec(s).len() == (s.len() + 2) / 3 * 4,
    decreases s.len(),
{
    if s.len() >= 3 {
        lemma_base64_len(s.skip(3));
    }
}

} // verus!
