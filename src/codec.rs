//! The escape codec used on the wire with the helper process.
//!
//! Encoding replaces a backslash by two backslashes, a newline by `\n` and a tab
//! by `\t`; every other character passes through unchanged.

use vstd::prelude::*;

verus! {

/// The characters that stand for `c` in encoded text.
pub open spec fn escape_char(c: char) -> Seq<char> {
    if c == '\\' {
        seq!['\\', '\\']
    } else if c == '\n' {
        seq!['\\', 'n']
    } else if c == '\t' {
        seq!['\\', 't']
    } else {
        seq![c]
    }
}

/// The character that the escape sequence `\x` stands for, if any.
pub open spec fn unescape_char(x: char) -> Option<char> {
    if x == '\\' {
        Some('\\')
    } else if x == 'n' {
        Some('\n')
    } else if x == 't' {
        Some('\t')
    } else {
        None
    }
}

/// The encoding of a whole string.
pub open spec fn encoded(s: Seq<char>) -> Seq<char>
    decreases s.len(),
{
    if s.len() == 0 {
        seq![]
    } else {
        escape_char(s[0]) + encoded(s.drop_first())
    }
}

/// `p` followed by the decoded text, or `None` where decoding failed.
pub open spec fn prefixed(p: Seq<char>, r: Option<Seq<char>>) -> Option<Seq<char>> {
    match r {
        Some(t) => Some(p + t),
        None => None,
    }
}

/// The decoding of a whole string: `None` where a backslash is last or is
/// followed by anything but a backslash, `n` or `t`.
pub open spec fn decoded(s: Seq<char>) -> Option<Seq<char>>
    decreases s.len(),
{
    if s.len() == 0 {
        Some(seq![])
    } else if s[0] != '\\' {
        prefixed(seq![s[0]], decoded(s.drop_first()))
    } else if s.len() >= 2 && unescape_char(s[1]) is Some {
        prefixed(seq![unescape_char(s[1])->0], decoded(s.subrange(2, s.len() as int)))
    } else {
        None
    }
}

/// Why an encoded string could not be decoded.
#[derive(Debug, PartialEq, Eq)]
pub struct DecodeError {
    /// The text that failed to decode.
    pub text: String,
}

/// Relies on `String::push`: appends one character.
#[verifier::external_body]
pub(crate) fn push_char(s: &mut String, c: char)
    ensures
        final(s)@ == old(s)@.push(c),
{
    s.push(c)
}

/// Encode `s` for the helper process.
pub fn encode_string(s: &str) -> (r: String)
    ensures
        r@ == encoded(s@),
{
    let n = s.unicode_len();
    let mut out = String::new();
    let mut i: usize = 0;
    proof {
        assert(s@.subrange(0, n as int) =~= s@);
        assert(out@ + encoded(s@) =~= encoded(s@));
    }
    while i < n
        invariant
            n == s@.len(),
            i <= n,
            encoded(s@) == out@ + encoded(s@.subrange(i as int, n as int)),
        decreases n - i,
    {
        let c = s.get_char(i);
        proof {
            let rest = s@.subrange(i as int, n as int);
            assert(rest.drop_first() =~= s@.subrange(i + 1, n as int));
            assert(out@ + encoded(rest) =~= out@ + escape_char(c) + encoded(
                s@.subrange(i + 1, n as int),
            ));
        }
        if c == '\\' {
            push_char(&mut out, '\\');
            push_char(&mut out, '\\');
        } else if c == '\n' {
            push_char(&mut out, '\\');
            push_char(&mut out, 'n');
        } else if c == '\t' {
            push_char(&mut out, '\\');
            push_char(&mut out, 't');
        } else {
            push_char(&mut out, c);
        }
        i = i + 1;
    }
    proof {
        assert(s@.subrange(n as int, n as int) =~= Seq::<char>::empty());
        assert(out@ + Seq::<char>::empty() =~= out@);
    }
    out
}

proof fn lemma_prefixed_assoc(a: Seq<char>, b: Seq<char>, r: Option<Seq<char>>)
    ensures
        prefixed(a, prefixed(b, r)) == prefixed(a + b, r),
{
    if let Some(t) = r {
        assert(a + (b + t) =~= (a + b) + t);
    }
}

/// Decode text received from the helper process.
pub fn decode_string(s: &str) -> (r: Result<String, DecodeError>)
    ensures
        match decoded(s@) {
            Some(t) => r is Ok && r->Ok_0@ == t,
            None => r is Err && r->Err_0.text@ == s@,
        },
{
    let n = s.unicode_len();
    let mut out = String::new();
    let mut i: usize = 0;
    proof {
        assert(s@.subrange(0, n as int) =~= s@);
        lemma_prefixed_assoc(seq![], seq![], decoded(s@));
        assert(Seq::<char>::empty() + Seq::<char>::empty() =~= Seq::<char>::empty());
        if let Some(t) = decoded(s@) {
            assert(out@ + t =~= t);
        }
    }
    while i < n
        invariant
            n == s@.len(),
            i <= n,
            decoded(s@) == prefixed(out@, decoded(s@.subrange(i as int, n as int))),
        decreases n - i,
    {
        let ghost rest = s@.subrange(i as int, n as int);
        let c = s.get_char(i);
        if c != '\\' {
            proof {
                assert(rest.drop_first() =~= s@.subrange(i + 1, n as int));
                lemma_prefixed_assoc(out@, seq![c], decoded(rest.drop_first()));
            }
            push_char(&mut out, c);
            i = i + 1;
        } else {
            if i + 1 >= n {
                return Err(DecodeError { text: s.to_owned() });
            }
            let x = s.get_char(i + 1);
            let d = if x == '\\' {
                '\\'
            } else if x == 'n' {
                '\n'
            } else if x == 't' {
                '\t'
            } else {
                return Err(DecodeError { text: s.to_owned() });
            };
            proof {
                assert(rest.subrange(2, rest.len() as int) =~= s@.subrange(i + 2, n as int));
                lemma_prefixed_assoc(out@, seq![d], decoded(s@.subrange(i + 2, n as int)));
            }
            push_char(&mut out, d);
            i = i + 2;
        }
    }
    proof {
        assert(s@.subrange(n as int, n as int) =~= Seq::<char>::empty());
        assert(out@ + Seq::<char>::empty() =~= out@);
    }
    Ok(out)
}

/// Decoding an encoded string gives the string back.
pub proof fn lemma_decode_encode(s: Seq<char>)
    ensures
        decoded(encoded(s)) == Some(s),
    decreases s.len(),
{
    if s.len() > 0 {
        let c = s[0];
        let rest = s.drop_first();
        lemma_decode_encode(rest);
        let e = encoded(s);
        assert(e == escape_char(c) + encoded(rest));
        if c == '\\' || c == '\n' || c == '\t' {
            assert(e.subrange(2, e.len() as int) =~= encoded(rest));
        } else {
            assert(e.drop_first() =~= encoded(rest));
        }
        assert(seq![c] + rest =~= s);
    }
}

/// Encoding is injective: two strings with the same encoding are equal.
pub proof fn lemma_encode_injective(a: Seq<char>, b: Seq<char>)
    requires
        encoded(a) == encoded(b),
    ensures
        a == b,
{
    lemma_decode_encode(a);
    lemma_decode_encode(b);
}

} // verus!
