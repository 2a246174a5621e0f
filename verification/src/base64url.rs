//! Base64 with the URL-safe alphabet and no padding, for bytes that travel as
//! text.
use vstd::prelude::*;
use crate::error::{ErrorCode, GfsError};

verus! {

/// The character of a six-bit value.
pub open spec fn sextet_char(v: nat) -> char {
    if v < 26 {
        (65 + v) as char
    } else if v < 52 {
        (71 + v) as char
    } else if v < 62 {
        (v - 4) as char
    } else if v == 62 {
        '-'
    } else {
        '_'
    }
}

/// The six-bit value of a character, or 64 for one outside the alphabet.
pub open spec fn sextet_value(c: char) -> nat {
    if 65 <= c as nat <= 90 {
        (c as nat - 65) as nat
    } else if 97 <= c as nat <= 122 {
        (c as nat - 71) as nat
    } else if 48 <= c as nat <= 57 {
        (c as nat + 4) as nat
    } else if c == '-' {
        62
    } else if c == '_' {
        63
    } else {
        64
    }
}

/// Three bytes become four characters; a rest of one byte becomes two
/// characters and a rest of two bytes three.
pub open spec fn b64url(bytes: Seq<u8>) -> Seq<char>
    decreases bytes.len(),
{
    if bytes.len() == 0 {
        Seq::empty()
    } else if bytes.len() == 1 {
        let a = bytes[0] as nat;
        seq![sextet_char(a / 4), sextet_char((a % 4) * 16)]
    } else if bytes.len() == 2 {
        let a = bytes[0] as nat;
        let b = bytes[1] as nat;
        seq![
            sextet_char(a / 4),
            sextet_char((a % 4) * 16 + b / 16),
            sextet_char((b % 16) * 4),
        ]
    } else {
        group(bytes[0], bytes[1], bytes[2]) + b64url(bytes.skip(3))
    }
}

/// The four characters of three bytes.
pub open spec fn group(x: u8, y: u8, z: u8) -> Seq<char> {
    let a = x as nat;
    let b = y as nat;
    let c = z as nat;
    seq![
        sextet_char(a / 4),
        sextet_char((a % 4) * 16 + b / 16),
        sextet_char((b % 16) * 4 + c / 64),
        sextet_char(c % 64),
    ]
}

/// What a text decodes to: `None` when a character is outside the alphabet or
/// one character is left over.
pub open spec fn b64url_decoded(text: Seq<char>) -> Option<Seq<u8>>
    decreases text.len(),
{
    if text.len() == 0 {
        Some(Seq::empty())
    } else if text.len() == 1 {
        None
    } else {
        let p = sextet_value(text[0]);
        let q = sextet_value(text[1]);
        if p >= 64 || q >= 64 {
            None
        } else if text.len() == 2 {
            Some(seq![(p * 4 + q / 16) as u8])
        } else {
            let r = sextet_value(text[2]);
            if r >= 64 {
                None
            } else if text.len() == 3 {
                Some(seq![(p * 4 + q / 16) as u8, ((q % 16) * 16 + r / 4) as u8])
            } else {
                let s = sextet_value(text[3]);
                if s >= 64 {
                    None
                } else {
                    match b64url_decoded(text.skip(4)) {
                        None => None,
                        Some(rest) => Some(
                            seq![
                                (p * 4 + q / 16) as u8,
                                ((q % 16) * 16 + r / 4) as u8,
                                ((r % 4) * 64 + s) as u8,
                            ] + rest,
                        ),
                    }
                }
            }
        }
    }
}

proof fn lemma_sextet(v: nat)
    requires
        v < 64,
    ensures
        sextet_value(sextet_char(v)) == v,
        '\0' <= sextet_char(v) <= '\u{7f}',
{
}

proof fn lemma_alphabet_is_ascii(c: char)
    requires
        sextet_value(c) < 64,
    ensures
        '\0' <= c <= '\u{7f}',
{
    assert(c as nat <= 122);
    assert(c as u32 <= 122);
    assert(c <= 'z');
}

/// Decoding an encoded byte string gives it back.
pub proof fn law_b64url_round_trip(bytes: Seq<u8>)
    ensures
        b64url_decoded(b64url(bytes)) == Some(bytes),
    decreases bytes.len(),
{
    let text = b64url(bytes);
    if bytes.len() == 0 {
        assert(bytes =~= Seq::<u8>::empty());
    } else if bytes.len() == 1 {
        let a = bytes[0] as nat;
        lemma_sextet(a / 4);
        lemma_sextet((a % 4) * 16);
        assert(bytes =~= seq![bytes[0]]);
        assert(b64url_decoded(text)->0 =~= bytes);
    } else if bytes.len() == 2 {
        let a = bytes[0] as nat;
        let b = bytes[1] as nat;
        lemma_sextet(a / 4);
        lemma_sextet((a % 4) * 16 + b / 16);
        lemma_sextet((b % 16) * 4);
        assert(b64url_decoded(text)->0 =~= bytes);
    } else {
        let a = bytes[0] as nat;
        let b = bytes[1] as nat;
        let c = bytes[2] as nat;
        lemma_sextet(a / 4);
        lemma_sextet((a % 4) * 16 + b / 16);
        lemma_sextet((b % 16) * 4 + c / 64);
        lemma_sextet(c % 64);
        law_b64url_round_trip(bytes.skip(3));
        assert(text.skip(4) =~= b64url(bytes.skip(3)));
        assert(b64url_decoded(text)->0 =~= bytes);
    }
}

fn push_sextet(out: &mut String, v: u8)
    requires
        v < 64,
    ensures
        final(out)@ == old(out)@.push(sextet_char(v as nat)),
{
    let table = "ABCDEFGHIJKLMNOPQRSTUVWXYZabcdefghijklmnopqrstuvwxyz0123456789-_";
    proof {
        reveal_strlit("ABCDEFGHIJKLMNOPQRSTUVWXYZabcdefghijklmnopqrstuvwxyz0123456789-_");
        lemma_table(table@, v as nat);
    }
    let i = v as usize;
    let one = table.substring_char(i, i + 1);
    out.append(one);
    assert(one@ =~= seq![sextet_char(v as nat)]);
    assert(out@ =~= old(out)@.push(sextet_char(v as nat)));
}

proof fn lemma_table(table: Seq<char>, v: nat)
    requires
        table == "ABCDEFGHIJKLMNOPQRSTUVWXYZabcdefghijklmnopqrstuvwxyz0123456789-_"@,
        v < 64,
    ensures
        table.len() == 64,
        table[v as int] == sextet_char(v),
{
    reveal_strlit("ABCDEFGHIJKLMNOPQRSTUVWXYZabcdefghijklmnopqrstuvwxyz0123456789-_");
}

/// The text of a byte string.
pub fn b64url_encode(bytes: &[u8]) -> (res: String)
    ensures
        res@ == b64url(bytes@),
{
    let mut out = String::new();
    let mut i: usize = 0;
    assert(bytes@.skip(0) =~= bytes@);
    assert(out@ + b64url(bytes@.skip(0)) =~= b64url(bytes@));
    while bytes.len() - i >= 3
        invariant
            i <= bytes@.len(),
            out@ + b64url(bytes@.skip(i as int)) == b64url(bytes@),
        decreases bytes.len() - i,
    {
        let a: u8 = bytes[i];
        let b: u8 = bytes[i + 1];
        let c: u8 = bytes[i + 2];
        let ghost before = out@;
        push_sextet(&mut out, a / 4);
        push_sextet(&mut out, (a % 4) * 16 + b / 16);
        push_sextet(&mut out, (b % 16) * 4 + c / 64);
        push_sextet(&mut out, c % 64);
        proof {
            let rest = bytes@.skip(i as int);
            assert(out@ =~= before + group(a, b, c));
            assert(rest.skip(3) =~= bytes@.skip(i + 3));
            assert(b64url(rest) == group(a, b, c) + b64url(bytes@.skip(i + 3)));
            assert(out@ + b64url(bytes@.skip(i + 3)) =~= before + b64url(rest));
        }
        i = i + 3;
    }
    let ghost rest = bytes@.skip(i as int);
    let ghost before = out@;
    if bytes.len() - i == 1 {
        let a: u8 = bytes[i];
        push_sextet(&mut out, a / 4);
        push_sextet(&mut out, (a % 4) * 16);
        assert(out@ =~= before + b64url(rest));
    } else if bytes.len() - i == 2 {
        let a: u8 = bytes[i];
        let b: u8 = bytes[i + 1];
        push_sextet(&mut out, a / 4);
        push_sextet(&mut out, (a % 4) * 16 + b / 16);
        push_sextet(&mut out, (b % 16) * 4);
        assert(out@ =~= before + b64url(rest));
    } else {
        assert(out@ =~= before + b64url(rest));
    }
    out
}

fn sextet_of(b: u8) -> (res: u8)
    requires
        b < 128,
    ensures
        res == sextet_value(b as char),
        res <= 64,
{
    if 65 <= b && b <= 90 {
        b - 65
    } else if 97 <= b && b <= 122 {
        b - 71
    } else if 48 <= b && b <= 57 {
        b + 4
    } else if b == 45 {
        62
    } else if b == 95 {
        63
    } else {
        64
    }
}

proof fn lemma_decode_reads_alphabet(text: Seq<char>)
    requires
        b64url_decoded(text) is Some,
    ensures
        forall|i: int| 0 <= i < text.len() ==> sextet_value(#[trigger] text[i]) < 64,
    decreases text.len(),
{
    if text.len() >= 4 {
        lemma_decode_reads_alphabet(text.skip(4));
        assert forall|i: int| 0 <= i < text.len() implies sextet_value(#[trigger] text[i]) < 64 by {
            if i >= 4 {
                assert(text.skip(4)[i - 4] == text[i]);
            }
        }
    }
}

/// The byte string a text encodes.
pub fn b64url_decode(text: &str) -> (res: Result<Vec<u8>, GfsError>)
    ensures
        match b64url_decoded(text@) {
            Some(bytes) => res matches Ok(out) && out@ == bytes,
            None => res matches Err(e) && e.reads(ErrorCode::InvalidArgument, "not base64url"@),
        },
{
    broadcast use vstd::string::is_ascii_spec_bytes;

    if !text.is_ascii() {
        proof {
            if b64url_decoded(text@) is Some {
                lemma_decode_reads_alphabet(text@);
                assert forall|i: int| 0 <= i < text@.len() implies '\0' <= #[trigger] text@[i]
                    <= '\u{7f}' by {
                    lemma_alphabet_is_ascii(text@[i]);
                }
                assert(text.is_ascii());
            }
        }
        return Err(GfsError::invalid("not base64url"));
    }
    let bytes = text.as_bytes();
    let n = bytes.len();
    assert(n == text@.len());
    assert forall|k: int| 0 <= k < n implies bytes@[k] < 128 && bytes@[k] as char == #[trigger] text@[k] by {
        assert('\0' <= text@[k] <= '\u{7f}');
    }
    let mut out: Vec<u8> = Vec::new();
    let mut i: usize = 0;
    assert(text@.skip(0) =~= text@);
    proof {
        match b64url_decoded(text@) {
            Some(v) => {
                assert(Seq::<u8>::empty() + v =~= v);
            },
            None => {},
        }
    }
    loop
        invariant
            i <= n,
            n == bytes@.len() == text@.len(),
            forall|k: int| 0 <= k < n ==> bytes@[k] < 128 && bytes@[k] as char == #[trigger] text@[k],
            b64url_decoded(text@) == (match b64url_decoded(text@.skip(i as int)) {
                Some(rest) => Some(out@ + rest),
                None => None,
            }),
        decreases n - i,
    {
        let ghost rest = text@.skip(i as int);
        let left = n - i;
        if left == 0 {
            assert(out@ + Seq::<u8>::empty() =~= out@);
            return Ok(out);
        }
        if left == 1 {
            return Err(GfsError::invalid("not base64url"));
        }
        assert(rest[0] == text@[i as int] && rest[1] == text@[i + 1]);
        let p = sextet_of(bytes[i]);
        let q = sextet_of(bytes[i + 1]);
        if p >= 64 || q >= 64 {
            return Err(GfsError::invalid("not base64url"));
        }
        let ghost before = out@;
        out.push(p * 4 + q / 16);
        if left == 2 {
            assert(out@ =~= before + seq![(p as nat * 4 + q as nat / 16) as u8]);
            return Ok(out);
        }
        assert(rest[2] == text@[i + 2]);
        let r = sextet_of(bytes[i + 2]);
        if r >= 64 {
            return Err(GfsError::invalid("not base64url"));
        }
        out.push((q % 16) * 16 + r / 4);
        if left == 3 {
            assert(out@ =~= before + b64url_decoded(rest)->0);
            return Ok(out);
        }
        assert(rest[3] == text@[i + 3]);
        let s = sextet_of(bytes[i + 3]);
        if s >= 64 {
            return Err(GfsError::invalid("not base64url"));
        }
        out.push((r % 4) * 64 + s);
        proof {
            let three = seq![
                (p as nat * 4 + q as nat / 16) as u8,
                ((q as nat % 16) * 16 + r as nat / 4) as u8,
                ((r as nat % 4) * 64 + s as nat) as u8,
            ];
            assert(out@ =~= before + three);
            assert(rest.skip(4) =~= text@.skip(i + 4));
            match b64url_decoded(text@.skip(i + 4)) {
                Some(v) => {
                    assert(before + (three + v) =~= out@ + v);
                },
                None => {},
            }
        }
        i = i + 4;
    }
}

} // verus!
