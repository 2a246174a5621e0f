//! Byte-string primitives: lexicographic order, equality, big-endian words.
use vstd::prelude::*;

verus! {

/// Whether `a` precedes `b` in byte order, given that they agree before `i`.
pub open spec fn lex_lt_from(a: Seq<u8>, b: Seq<u8>, i: nat) -> bool
    decreases a.len() - i,
{
    if i >= b.len() {
        false
    } else if i >= a.len() {
        true
    } else if a[i as int] != b[i as int] {
        a[i as int] < b[i as int]
    } else {
        lex_lt_from(a, b, i + 1)
    }
}

/// Byte order on whole strings: the first difference decides, and a proper
/// prefix comes first.
pub open spec fn lex_lt(a: Seq<u8>, b: Seq<u8>) -> bool {
    lex_lt_from(a, b, 0)
}

/// Byte order is irreflexive.
pub proof fn lemma_lex_irreflexive(a: Seq<u8>, i: nat)
    ensures
        !lex_lt_from(a, a, i),
    decreases a.len() - i,
{
    if i < a.len() {
        lemma_lex_irreflexive(a, i + 1);
    }
}

proof fn lemma_lex_transitive_from(a: Seq<u8>, b: Seq<u8>, c: Seq<u8>, i: nat)
    requires
        lex_lt_from(a, b, i),
        lex_lt_from(b, c, i),
    ensures
        lex_lt_from(a, c, i),
    decreases a.len() - i,
{
    if i < a.len() && i < b.len() && i < c.len() && a[i as int] == b[i as int]
        && b[i as int] == c[i as int] {
        lemma_lex_transitive_from(a, b, c, i + 1);
    }
}

/// Byte order is transitive.
pub proof fn lemma_lex_transitive(a: Seq<u8>, b: Seq<u8>, c: Seq<u8>)
    requires
        lex_lt(a, b),
        lex_lt(b, c),
    ensures
        lex_lt(a, c),
{
    lemma_lex_transitive_from(a, b, c, 0);
}

proof fn lemma_lex_total_from(a: Seq<u8>, b: Seq<u8>, i: nat)
    requires
        i <= a.len(),
        i <= b.len(),
        forall|k: int| 0 <= k < i ==> a[k] == b[k],
        !lex_lt_from(a, b, i),
        !lex_lt_from(b, a, i),
    ensures
        a == b,
    decreases a.len() - i,
{
    if i < a.len() && i < b.len() {
        lemma_lex_total_from(a, b, i + 1);
    } else {
        assert(a =~= b);
    }
}

/// Byte order is total: two strings neither of which precedes the other are
/// the same string.
pub proof fn lemma_lex_total(a: Seq<u8>, b: Seq<u8>)
    ensures
        lex_lt(a, b) || lex_lt(b, a) || a == b,
{
    if !lex_lt(a, b) && !lex_lt(b, a) {
        lemma_lex_total_from(a, b, 0);
    }
}

/// Byte order is asymmetric.
pub proof fn lemma_lex_asymmetric(a: Seq<u8>, b: Seq<u8>)
    requires
        lex_lt(a, b),
    ensures
        !lex_lt(b, a),
{
    if lex_lt(b, a) {
        lemma_lex_transitive(a, b, a);
        lemma_lex_irreflexive(a, 0);
    }
}

/// `a < b` in byte order.
pub fn bytes_lt(a: &[u8], b: &[u8]) -> (res: bool)
    ensures
        res == lex_lt(a@, b@),
{
    let mut i: usize = 0;
    while i < a.len() && i < b.len() && a[i] == b[i]
        invariant
            i <= a.len(),
            i <= b.len(),
            lex_lt(a@, b@) == lex_lt_from(a@, b@, i as nat),
        decreases a.len() - i,
    {
        i = i + 1;
    }
    if i >= b.len() {
        false
    } else if i >= a.len() {
        true
    } else {
        a[i] < b[i]
    }
}

/// Whether two byte strings are the same.
pub fn bytes_eq(a: &[u8], b: &[u8]) -> (res: bool)
    ensures
        res == (a@ == b@),
{
    if a.len() != b.len() {
        return false;
    }
    let mut i: usize = 0;
    while i < a.len()
        invariant
            i <= a.len(),
            a.len() == b.len(),
            forall|k: int| 0 <= k < i ==> a[k] == b[k],
        decreases a.len() - i,
    {
        if a[i] != b[i] {
            return false;
        }
        i = i + 1;
    }
    assert(a@ =~= b@);
    true
}

/// An owned copy of a byte string.
pub fn copy_bytes(a: &[u8]) -> (res: Vec<u8>)
    ensures
        res@ == a@,
{
    let mut out: Vec<u8> = Vec::new();
    append_bytes(&mut out, a);
    assert(out@ =~= a@);
    out
}

/// Append one byte string to another.
pub fn append_bytes(out: &mut Vec<u8>, tail: &[u8])
    ensures
        final(out)@ == old(out)@ + tail@,
{
    out.extend_from_slice(tail);
    assert(out@ =~= old(out)@ + tail@);
}

/// The part of `a` from `from` up to `to`.
pub fn sub_bytes(a: &[u8], from: usize, to: usize) -> (res: Vec<u8>)
    requires
        from <= to <= a@.len(),
    ensures
        res@ == a@.subrange(from as int, to as int),
{
    let mut out: Vec<u8> = Vec::new();
    let mut i: usize = from;
    while i < to
        invariant
            from <= i <= to <= a@.len(),
            out@ == a@.subrange(from as int, i as int),
        decreases to - i,
    {
        out.push(a[i]);
        i = i + 1;
        assert(out@ =~= a@.subrange(from as int, i as int));
    }
    out
}

/// Append `count` zero bytes.
pub fn append_zeros(out: &mut Vec<u8>, count: usize)
    ensures
        final(out)@ == old(out)@ + zeros(count as nat),
{
    let mut i: usize = 0;
    while i < count
        invariant
            i <= count,
            out@ == old(out)@ + zeros(i as nat),
        decreases count - i,
    {
        out.push(0);
        i = i + 1;
        assert(out@ =~= old(out)@ + zeros(i as nat));
    }
    assert(out@ =~= old(out)@ + zeros(count as nat));
}

/// A run of zero bytes.
pub open spec fn zeros(count: nat) -> Seq<u8> {
    Seq::new(count, |i: int| 0u8)
}

/// Whether `a` begins with `prefix`.
pub open spec fn has_prefix(a: Seq<u8>, prefix: Seq<u8>) -> bool {
    prefix.len() <= a.len() && a.subrange(0, prefix.len() as int) == prefix
}

/// Whether `a` begins with `prefix`.
pub fn starts_with(a: &[u8], prefix: &[u8]) -> (res: bool)
    ensures
        res == has_prefix(a@, prefix@),
{
    if prefix.len() > a.len() {
        return false;
    }
    let mut i: usize = 0;
    while i < prefix.len()
        invariant
            i <= prefix.len() <= a.len(),
            forall|k: int| 0 <= k < i ==> a[k] == prefix[k],
        decreases prefix.len() - i,
    {
        if a[i] != prefix[i] {
            assert(a@.subrange(0, prefix.len() as int)[i as int] != prefix@[i as int]);
            return false;
        }
        i = i + 1;
    }
    assert(a@.subrange(0, prefix.len() as int) =~= prefix@);
    true
}

/// The index of the first `needle` at or after `from`, or the length when
/// there is none.
pub open spec fn find_byte(a: Seq<u8>, needle: u8, from: nat) -> nat
    decreases a.len() - from,
{
    if from >= a.len() {
        a.len()
    } else if a[from as int] == needle {
        from
    } else {
        find_byte(a, needle, from + 1)
    }
}

/// What [`find_byte`] finds: the first occurrence, with none before it.
pub proof fn lemma_find_byte(a: Seq<u8>, needle: u8, from: nat)
    requires
        from <= a.len(),
    ensures
        from <= find_byte(a, needle, from) <= a.len(),
        find_byte(a, needle, from) < a.len() ==> a[find_byte(a, needle, from) as int] == needle,
        forall|k: int| from <= k < find_byte(a, needle, from) ==> a[k] != needle,
    decreases a.len() - from,
{
    if from < a.len() && a[from as int] != needle {
        lemma_find_byte(a, needle, from + 1);
    }
}

/// The index of the first `needle` at or after `from`, or the length.
pub fn position_from(a: &[u8], needle: u8, from: usize) -> (res: usize)
    requires
        from <= a@.len(),
    ensures
        res == find_byte(a@, needle, from as nat),
        from <= res <= a@.len(),
        res < a@.len() ==> a@[res as int] == needle,
        forall|k: int| from <= k < res ==> a@[k] != needle,
{
    let mut i: usize = from;
    while i < a.len() && a[i] != needle
        invariant
            from <= i <= a@.len(),
            find_byte(a@, needle, from as nat) == find_byte(a@, needle, i as nat),
            forall|k: int| from <= k < i ==> a@[k] != needle,
        decreases a.len() - i,
    {
        i = i + 1;
    }
    i
}

/// The pieces of `a` between occurrences of `sep`: one more than there are
/// occurrences.
pub open spec fn split_on(a: Seq<u8>, sep: u8) -> Seq<Seq<u8>>
    decreases a.len(),
{
    let i = find_byte(a, sep, 0) as int;
    if i >= a.len() {
        seq![a]
    } else {
        seq![a.subrange(0, i)] + split_on(a.skip(i + 1), sep)
    }
}

/// Byte strings as sequences.
pub open spec fn views(a: Seq<Vec<u8>>) -> Seq<Seq<u8>> {
    Seq::new(a.len(), |i: int| a[i]@)
}

proof fn lemma_find_in_tail(a: Seq<u8>, sep: u8, from: nat, i: nat)
    requires
        from <= a.len(),
        i <= a.len() - from,
    ensures
        find_byte(a.skip(from as int), sep, i) + from == find_byte(a, sep, i + from),
    decreases a.len() - from - i,
{
    if i < a.len() - from && a[(i + from) as int] != sep {
        lemma_find_in_tail(a, sep, from, i + 1);
    }
}

/// The pieces of `a` between occurrences of `sep`.
pub fn split_bytes(a: &[u8], sep: u8) -> (res: Vec<Vec<u8>>)
    ensures
        views(res@) == split_on(a@, sep),
        res@.len() > 0,
{
    let mut out: Vec<Vec<u8>> = Vec::new();
    let mut from: usize = 0;
    assert(a@.skip(0) =~= a@);
    assert(views(out@) + split_on(a@.skip(0), sep) =~= split_on(a@, sep));
    loop
        invariant
            from <= a@.len(),
            views(out@) + split_on(a@.skip(from as int), sep) == split_on(a@, sep),
        decreases a@.len() - from,
    {
        let ghost rest = a@.skip(from as int);
        let ghost before = views(out@);
        let i = position_from(a, sep, from);
        proof {
            lemma_find_in_tail(a@, sep, from as nat, 0);
            assert(find_byte(rest, sep, 0) == i - from);
        }
        out.push(sub_bytes(a, from, i));
        assert(views(out@) =~= before.push(a@.subrange(from as int, i as int)));
        assert(a@.subrange(from as int, i as int) =~= rest.subrange(0, i - from));
        if i >= a.len() {
            assert(rest =~= rest.subrange(0, i - from));
            assert(views(out@) =~= split_on(a@, sep));
            return out;
        }
        proof {
            assert(rest.skip(i - from + 1) =~= a@.skip(i + 1));
            assert(split_on(rest, sep) =~= seq![rest.subrange(0, i - from)] + split_on(
                a@.skip(i + 1),
                sep,
            ));
            assert(views(out@) + split_on(a@.skip(i + 1), sep) =~= split_on(a@, sep));
        }
        from = i + 1;
    }
}

/// The pieces of two byte strings joined by the separator are the pieces of
/// the one, then those of the other.
pub proof fn lemma_split_joined(a: Seq<u8>, b: Seq<u8>, sep: u8)
    ensures
        split_on(a + seq![sep] + b, sep) == split_on(a, sep) + split_on(b, sep),
    decreases a.len(),
{
    let whole = a + seq![sep] + b;
    lemma_find_byte(a, sep, 0);
    lemma_find_byte(whole, sep, 0);
    let i = find_byte(a, sep, 0) as int;
    let j = find_byte(whole, sep, 0) as int;
    assert(whole[a.len() as int] == sep);
    assert(forall|k: int| 0 <= k < a.len() ==> whole[k] == a[k]);
    assert(i == j);
    if i >= a.len() {
        assert(whole.subrange(0, i) =~= a);
        assert(whole.skip(i + 1) =~= b);
    } else {
        let rest = a.skip(i + 1);
        assert(whole.subrange(0, i) =~= a.subrange(0, i));
        assert(whole.skip(i + 1) =~= rest + seq![sep] + b);
        lemma_split_joined(rest, b, sep);
        lemma_concat_assoc(seq![a.subrange(0, i)], split_on(rest, sep), split_on(b, sep));
    }
}

/// Appending in two steps is appending once.
pub proof fn lemma_concat_assoc<T>(a: Seq<T>, b: Seq<T>, c: Seq<T>)
    ensures
        a + b + c == a + (b + c),
{
    assert(a + b + c =~= a + (b + c));
}

/// Runs of zeros join.
pub proof fn lemma_zeros_join(a: nat, b: nat)
    ensures
        zeros(a) + zeros(b) == zeros(a + b),
{
    assert(zeros(a) + zeros(b) =~= zeros(a + b));
}

/// A 32-bit word, most significant byte first.
pub open spec fn be32(n: u32) -> Seq<u8> {
    seq![(n >> 24) as u8, (n >> 16) as u8, (n >> 8) as u8, n as u8]
}

/// A 64-bit word, most significant byte first.
pub open spec fn be64(n: u64) -> Seq<u8> {
    be32((n >> 32) as u32) + be32(n as u32)
}

/// A 16-bit word, most significant byte first.
pub open spec fn be16(n: u16) -> Seq<u8> {
    seq![(n >> 8) as u8, n as u8]
}

/// The word four bytes encode, most significant first.
pub open spec fn be32_value(a: u8, b: u8, c: u8, d: u8) -> u32 {
    ((a as u32) << 24) | ((b as u32) << 16) | ((c as u32) << 8) | (d as u32)
}

/// The 32-bit word at `pos`.
pub open spec fn be32_at(a: Seq<u8>, pos: int) -> u32 {
    be32_value(a[pos], a[pos + 1], a[pos + 2], a[pos + 3])
}

/// The 16-bit word two bytes encode, most significant first.
pub open spec fn be16_value(a: u8, b: u8) -> u16 {
    ((a as u16) << 8) | (b as u16)
}

/// Append a 32-bit word.
pub fn push_be32(out: &mut Vec<u8>, n: u32)
    ensures
        final(out)@ == old(out)@ + be32(n),
{
    out.push((n >> 24) as u8);
    out.push((n >> 16) as u8);
    out.push((n >> 8) as u8);
    out.push(n as u8);
    assert(out@ =~= old(out)@ + be32(n));
}

/// Append a 64-bit word.
pub fn push_be64(out: &mut Vec<u8>, n: u64)
    ensures
        final(out)@ == old(out)@ + be64(n),
{
    push_be32(out, (n >> 32) as u32);
    push_be32(out, n as u32);
    assert(out@ =~= old(out)@ + be64(n));
}

/// Append a 16-bit word.
pub fn push_be16(out: &mut Vec<u8>, n: u16)
    ensures
        final(out)@ == old(out)@ + be16(n),
{
    out.push((n >> 8) as u8);
    out.push(n as u8);
    assert(out@ =~= old(out)@ + be16(n));
}

/// The 32-bit word at `pos`.
pub fn read_be32(a: &[u8], pos: usize) -> (res: u32)
    requires
        pos + 4 <= a@.len(),
    ensures
        res == be32_at(a@, pos as int),
{
    ((a[pos] as u32) << 24) | ((a[pos + 1] as u32) << 16) | ((a[pos + 2] as u32) << 8) | (a[pos
        + 3] as u32)
}

/// The 16-bit word at `pos`.
pub fn read_be16(a: &[u8], pos: usize) -> (res: u16)
    requires
        pos + 2 <= a@.len(),
    ensures
        res == be16_value(a@[pos as int], a@[pos + 1]),
{
    ((a[pos] as u16) << 8) | (a[pos + 1] as u16)
}

} // verus!
