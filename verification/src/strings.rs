//! Text operations.
use vstd::prelude::*;

verus! {

/// Whether a text begins with another.
pub open spec fn begins(text: Seq<char>, prefix: Seq<char>) -> bool {
    prefix.len() <= text.len() && text.take(prefix.len() as int) == prefix
}

/// What follows a prefix.
pub open spec fn after_prefix(text: Seq<char>, prefix: Seq<char>) -> Option<Seq<char>> {
    if begins(text, prefix) {
        Some(text.skip(prefix.len() as int))
    } else {
        None
    }
}

/// Optional text as its meaning.
pub open spec fn opt_view(s: Option<String>) -> Option<Seq<char>> {
    match s {
        Some(s) => Some(s@),
        None => None,
    }
}

/// What follows a prefix.
pub fn strip_text(text: &str, prefix: &str) -> (res: Option<String>)
    ensures
        opt_view(res) == after_prefix(text@, prefix@),
{
    let n = text.unicode_len();
    let m = prefix.unicode_len();
    if m > n {
        return None;
    }
    let head = text.substring_char(0, m).to_owned();
    assert(text@.subrange(0, m as int) =~= text@.take(m as int));
    if head == prefix.to_owned() {
        let rest = text.substring_char(m, n).to_owned();
        assert(rest@ =~= text@.skip(m as int));
        Some(rest)
    } else {
        None
    }
}

/// Where a character first stands from `k` on; the length when it does not.
pub open spec fn find_char(text: Seq<char>, c: char, k: int) -> int
    decreases text.len() - k,
{
    if k >= text.len() || k < 0 {
        text.len() as int
    } else if text[k] == c {
        k
    } else {
        find_char(text, c, k + 1)
    }
}

/// Where a character first stands; the length when it does not.
pub fn char_position(text: &str, c: char) -> (res: usize)
    ensures
        res == find_char(text@, c, 0),
        res <= text@.len(),
{
    let n = text.unicode_len();
    let mut k: usize = 0;
    while k < n
        invariant
            n == text@.len(),
            k <= n,
            find_char(text@, c, 0) == find_char(text@, c, k as int),
        decreases n - k,
    {
        if text.get_char(k) == c {
            return k;
        }
        k = k + 1;
    }
    k
}

/// A text without the characters `c` at its end.
pub open spec fn without_trailing(text: Seq<char>, c: char) -> Seq<char>
    decreases text.len(),
{
    if text.len() > 0 && text.last() == c {
        without_trailing(text.drop_last(), c)
    } else {
        text
    }
}

/// A text without the characters `c` at its end.
pub fn trim_end_char(text: &str, c: char) -> (res: String)
    ensures
        res@ == without_trailing(text@, c),
{
    let mut n = text.unicode_len();
    assert(text@.take(n as int) =~= text@);
    while n > 0 && text.get_char(n - 1) == c
        invariant
            n <= text@.len(),
            without_trailing(text@, c) == without_trailing(text@.take(n as int), c),
        decreases n,
    {
        assert(text@.take(n as int).drop_last() =~= text@.take(n - 1));
        n = n - 1;
    }
    assert(text@.subrange(0, n as int) =~= text@.take(n as int));
    text.substring_char(0, n).to_owned()
}

/// A path with a name below it.
pub open spec fn joined_text(dir: Seq<char>, name: Seq<char>) -> Seq<char> {
    if dir.len() == 0 || dir.last() == '/' {
        dir + name
    } else {
        dir + "/"@ + name
    }
}

/// A path with a relative name below it.
pub fn join_text(dir: &str, name: &str) -> (res: String)
    ensures
        res@ == joined_text(dir@, name@),
{
    let n = dir.unicode_len();
    let mut out = dir.to_owned();
    if n > 0 && dir.get_char(n - 1) != '/' {
        out.append("/");
    }
    out.append(name);
    out
}

/// Whether a character is Unicode white space.
pub open spec fn white_space(c: char) -> bool {
    let u = c as u32;
    9 <= u <= 13 || u == 0x20 || u == 0x85 || u == 0xa0 || u == 0x1680 || 0x2000 <= u <= 0x200a || u
        == 0x2028 || u == 0x2029 || u == 0x202f || u == 0x205f || u == 0x3000
}

fn is_white_space(c: char) -> (res: bool)
    ensures
        res == white_space(c),
{
    let u = c as u32;
    (9 <= u && u <= 13) || u == 0x20 || u == 0x85 || u == 0xa0 || u == 0x1680 || (0x2000 <= u && u
        <= 0x200a) || u == 0x2028 || u == 0x2029 || u == 0x202f || u == 0x205f || u == 0x3000
}

/// A text without the white space at its end.
pub open spec fn trimmed_end(text: Seq<char>) -> Seq<char>
    decreases text.len(),
{
    if text.len() > 0 && white_space(text.last()) {
        trimmed_end(text.drop_last())
    } else {
        text
    }
}

/// A text without the white space at its ends.
pub open spec fn trimmed(text: Seq<char>) -> Seq<char>
    decreases text.len(),
{
    if text.len() > 0 && white_space(text[0]) {
        trimmed(text.skip(1))
    } else {
        trimmed_end(text)
    }
}

/// A text without the white space at its ends.
pub fn trim_text(text: &str) -> (res: String)
    ensures
        res@ == trimmed(text@),
{
    let n = text.unicode_len();
    let mut a: usize = 0;
    assert(text@.skip(0) =~= text@);
    while a < n && is_white_space(text.get_char(a))
        invariant
            n == text@.len(),
            a <= n,
            trimmed(text@) == trimmed(text@.skip(a as int)),
        decreases n - a,
    {
        assert(text@.skip(a as int)[0] == text@[a as int]);
        assert(text@.skip(a as int).skip(1) =~= text@.skip(a + 1));
        a = a + 1;
    }
    let ghost rest = text@.skip(a as int);
    assert(trimmed(text@) == trimmed_end(rest)) by {
        if a < n {
            assert(rest[0] == text@[a as int]);
        }
    }
    let mut b: usize = n;
    assert(text@.subrange(a as int, b as int) =~= rest);
    while b > a && is_white_space(text.get_char(b - 1))
        invariant
            n == text@.len(),
            a <= b <= n,
            trimmed_end(rest) == trimmed_end(text@.subrange(a as int, b as int)),
        decreases b,
    {
        let ghost now = text@.subrange(a as int, b as int);
        assert(now.last() == text@[b - 1]);
        assert(now.drop_last() =~= text@.subrange(a as int, b - 1));
        b = b - 1;
    }
    assert(b > a ==> text@.subrange(a as int, b as int).last() == text@[b - 1]);
    text.substring_char(a, b).to_owned()
}

/// The text at a key of a JSON object; none when the bytes are no JSON, no
/// object, lack the key, or hold something else there.
pub uninterp spec fn json_text(bytes: Seq<u8>, key: Seq<char>) -> Option<Seq<char>>;

/// Calls `serde_json::from_slice`, and `get` and `as_str` on the value it
/// gives. Claims that the result is a function of the bytes and the key.
#[verifier::external_body]
pub(crate) fn json_text_field(bytes: &[u8], key: &str) -> (res: Option<String>)
    ensures
        opt_view(res) == json_text(bytes@, key@),
{
    let value: serde_json::Value = serde_json::from_slice(bytes).ok()?;
    Some(value.get(key)?.as_str()?.to_string())
}

} // verus!
