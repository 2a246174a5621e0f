//! EWAH-compressed bitmaps, in Git's serialized form: the bit count, the word
//! count, the words, and the index of the last run-length word.
//!
//! Runs of all-zero or all-one words collapse into the run-length word before
//! a stretch of literal words. Bit 0 of a run-length word is the run's bit,
//! bits 1-32 its length, bits 33-63 how many literal words follow.
use vstd::prelude::*;
use crate::bytes::{be32, be64, push_be32, push_be64};

verus! {

/// The longest run one run-length word records.
pub const MAX_RUN: u64 = 0xFFFF_FFFF;

/// The most literal words one run-length word announces.
pub const MAX_LITERALS: u64 = 0x7FFF_FFFF;

/// The low `k` bits of the word that holds `bits[base..]`.
pub open spec fn packed(bits: Seq<bool>, base: int, k: nat) -> u64
    decreases k,
{
    if k == 0 {
        0
    } else {
        let low = packed(bits, base, (k - 1) as nat);
        if base + k - 1 < bits.len() && bits[base + k - 1] {
            low | (1u64 << ((k - 1) as u64))
        } else {
            low
        }
    }
}

/// The bitmap as 64-bit words, the first bit lowest.
pub open spec fn plain_words(bits: Seq<bool>) -> Seq<u64> {
    Seq::new(((bits.len() + 63) / 64) as nat, |w: int| packed(bits, 64 * w, 64))
}

/// The word a run of `bit` repeats.
pub open spec fn fill(bit: u64) -> u64 {
    if bit == 1 {
        u64::MAX
    } else {
        0
    }
}

/// The run bit chosen at `i`.
pub open spec fn run_bit_at(plain: Seq<u64>, i: int) -> u64 {
    if i < plain.len() && plain[i] == u64::MAX {
        1
    } else {
        0
    }
}

/// How many words from `i` on equal `word`, at most `cap`.
pub open spec fn run_len(plain: Seq<u64>, i: int, word: u64, cap: nat) -> nat
    decreases cap,
{
    if cap == 0 || i < 0 || i >= plain.len() || plain[i] != word {
        0
    } else {
        1 + run_len(plain, i + 1, word, (cap - 1) as nat)
    }
}

/// How many words from `i` on are neither all zeros nor all ones, at most `cap`.
pub open spec fn literal_len(plain: Seq<u64>, i: int, cap: nat) -> nat
    decreases cap,
{
    if cap == 0 || i < 0 || i >= plain.len() || plain[i] == 0 || plain[i] == u64::MAX {
        0
    } else {
        1 + literal_len(plain, i + 1, (cap - 1) as nat)
    }
}

/// A run-length word.
pub open spec fn header(bit: u64, run: u64, literals: u64) -> u64 {
    bit | (run << 1) | (literals << 33)
}

/// Where the literals of the stretch that starts at `i` begin.
pub open spec fn literals_start(plain: Seq<u64>, i: int) -> int {
    i + run_len(plain, i, fill(run_bit_at(plain, i)), MAX_RUN as nat)
}

/// Where the stretch that starts at `i` ends.
pub open spec fn stretch_end(plain: Seq<u64>, i: int) -> int {
    literals_start(plain, i) + literal_len(plain, literals_start(plain, i), MAX_LITERALS as nat)
}

/// The words of the stretch that starts at `i`.
pub open spec fn stretch(plain: Seq<u64>, i: int) -> Seq<u64> {
    let start = literals_start(plain, i);
    let end = stretch_end(plain, i);
    seq![header(run_bit_at(plain, i), (start - i) as u64, (end - start) as u64)] + plain.subrange(
        start,
        end,
    )
}

/// The compressed words of `plain[i..]`: at least one stretch.
pub open spec fn ewah_words(plain: Seq<u64>, i: int) -> Seq<u64>
    decreases plain.len() - i,
{
    let end = stretch_end(plain, i);
    if 0 <= i < end < plain.len() {
        stretch(plain, i) + ewah_words(plain, end)
    } else {
        stretch(plain, i)
    }
}

/// The index of the last run-length word among the words of `plain[i..]`,
/// which begin at index `at`.
pub open spec fn last_header(plain: Seq<u64>, i: int, at: int) -> int
    decreases plain.len() - i,
{
    let end = stretch_end(plain, i);
    if 0 <= i < end < plain.len() {
        last_header(plain, end, at + stretch(plain, i).len())
    } else {
        at
    }
}

/// Words in serialized form.
pub open spec fn words_bytes(words: Seq<u64>) -> Seq<u8>
    decreases words.len(),
{
    if words.len() == 0 {
        Seq::empty()
    } else {
        words_bytes(words.drop_last()) + be64(words.last())
    }
}

/// The serialized bitmap.
pub open spec fn ewah_bytes(bits: Seq<bool>) -> Seq<u8> {
    let plain = plain_words(bits);
    let words = ewah_words(plain, 0);
    be32(bits.len() as u32) + be32(words.len() as u32) + words_bytes(words) + be32(
        last_header(plain, 0, 0) as u32,
    )
}

/// The plain words that compressed words stand for.
pub open spec fn ewah_expand(words: Seq<u64>) -> Seq<u64>
    decreases words.len(),
{
    if words.len() == 0 {
        Seq::empty()
    } else {
        let h = words[0];
        let run = ((h >> 1) & 0xFFFF_FFFF) as nat;
        let literals = (h >> 33) as nat;
        if literals >= words.len() {
            Seq::empty()
        } else {
            Seq::new(run, |k: int| fill(h & 1)) + words.subrange(1, 1 + literals as int)
                + ewah_expand(words.skip(1 + literals as int))
        }
    }
}

proof fn lemma_run_len(plain: Seq<u64>, i: int, word: u64, cap: nat)
    requires
        0 <= i <= plain.len(),
    ensures
        run_len(plain, i, word, cap) <= cap,
        i + run_len(plain, i, word, cap) <= plain.len(),
        forall|k: int| i <= k < i + run_len(plain, i, word, cap) ==> plain[k] == word,
        cap > 0 && i < plain.len() && plain[i] == word ==> run_len(plain, i, word, cap) > 0,
    decreases cap,
{
    if !(cap == 0 || i >= plain.len() || plain[i] != word) {
        lemma_run_len(plain, i + 1, word, (cap - 1) as nat);
    }
}

proof fn lemma_literal_len(plain: Seq<u64>, i: int, cap: nat)
    requires
        0 <= i <= plain.len(),
    ensures
        literal_len(plain, i, cap) <= cap,
        i + literal_len(plain, i, cap) <= plain.len(),
        cap > 0 && i < plain.len() && plain[i] != 0 && plain[i] != u64::MAX ==> literal_len(
            plain,
            i,
            cap,
        ) > 0,
    decreases cap,
{
    if !(cap == 0 || i >= plain.len() || plain[i] == 0 || plain[i] == u64::MAX) {
        lemma_literal_len(plain, i + 1, (cap - 1) as nat);
    }
}

proof fn lemma_stretch(plain: Seq<u64>, i: int)
    requires
        0 <= i <= plain.len(),
    ensures
        i <= literals_start(plain, i) <= stretch_end(plain, i) <= plain.len(),
        literals_start(plain, i) - i <= MAX_RUN,
        stretch_end(plain, i) - literals_start(plain, i) <= MAX_LITERALS,
        i < plain.len() ==> i < stretch_end(plain, i),
        forall|k: int|
            i <= k < literals_start(plain, i) ==> plain[k] == fill(run_bit_at(plain, i)),
{
    lemma_run_len(plain, i, fill(run_bit_at(plain, i)), MAX_RUN as nat);
    lemma_literal_len(plain, literals_start(plain, i), MAX_LITERALS as nat);
}

proof fn lemma_header_fields(bit: u64, run: u64, literals: u64)
    requires
        bit <= 1,
        run <= MAX_RUN,
        literals <= MAX_LITERALS,
    ensures
        header(bit, run, literals) & 1 == bit,
        (header(bit, run, literals) >> 1) & 0xFFFF_FFFF == run,
        header(bit, run, literals) >> 33 == literals,
{
    assert((bit | (run << 1) | (literals << 33)) & 1 == bit && ((bit | (run << 1) | (literals << 33))
        >> 1) & 0xFFFF_FFFF == run && (bit | (run << 1) | (literals << 33)) >> 33 == literals)
        by (bit_vector)
        requires
            bit <= 1,
            run <= 0xFFFF_FFFF,
            literals <= 0x7FFF_FFFF,
    ;
}

/// Expanding the compressed words gives back the plain words.
pub proof fn law_ewah_expands_to_the_words(plain: Seq<u64>, i: int)
    requires
        0 <= i <= plain.len(),
    ensures
        ewah_expand(ewah_words(plain, i)) == plain.skip(i),
    decreases plain.len() - i,
{
    lemma_stretch(plain, i);
    let start = literals_start(plain, i);
    let end = stretch_end(plain, i);
    let bit = run_bit_at(plain, i);
    let words = ewah_words(plain, i);
    let h = header(bit, (start - i) as u64, (end - start) as u64);
    lemma_header_fields(bit, (start - i) as u64, (end - start) as u64);
    assert(words[0] == h);
    let literals = (end - start) as int;
    let more = 0 <= i < end < plain.len();
    let tail: Seq<u64> = if more {
        ewah_words(plain, end)
    } else {
        Seq::empty()
    };
    assert(words =~= stretch(plain, i) + tail);
    assert(stretch(plain, i).len() == 1 + literals);
    assert(words.subrange(1, 1 + literals) =~= plain.subrange(start, end));
    assert(words.skip(1 + literals) =~= tail);
    let filled = Seq::new((start - i) as nat, |k: int| fill(bit));
    assert(filled =~= plain.subrange(i, start));
    if more {
        law_ewah_expands_to_the_words(plain, end);
    } else {
        assert(ewah_expand(tail) =~= Seq::<u64>::empty());
    }
    assert(ewah_expand(words) =~= filled + plain.subrange(start, end) + ewah_expand(tail));
    assert(ewah_expand(words) =~= plain.skip(i));
}

/// Compressed words are at most twice as many as plain ones, and one more.
pub proof fn lemma_compressed_len(plain: Seq<u64>, i: int)
    requires
        0 <= i <= plain.len(),
    ensures
        ewah_words(plain, i).len() <= 2 * (plain.len() - i) + 1,
    decreases plain.len() - i,
{
    lemma_stretch(plain, i);
    let end = stretch_end(plain, i);
    if 0 <= i < end < plain.len() {
        lemma_compressed_len(plain, end);
    }
}

proof fn lemma_packed_bit(bits: Seq<bool>, base: int, k: nat, b: u64)
    requires
        k <= 64,
        b < 64,
    ensures
        (packed(bits, base, k) >> b) & 1 == (if b < k && base + b < bits.len() && bits[base + b] {
            1u64
        } else {
            0u64
        }),
    decreases k,
{
    if k == 0 {
        assert((0u64 >> b) & 1 == 0) by (bit_vector);
    } else {
        let low = packed(bits, base, (k - 1) as nat);
        lemma_packed_bit(bits, base, (k - 1) as nat, b);
        let m = (k - 1) as u64;
        assert(((low | (1u64 << m)) >> b) & 1 == (if b == m {
            1u64
        } else {
            (low >> b) & 1
        })) by (bit_vector)
            requires
                b < 64,
                m < 64,
        ;
    }
}

/// Bit `i` of the bitmap is bit `i % 64` of plain word `i / 64`.
pub proof fn law_plain_words_hold_the_bits(bits: Seq<bool>, i: int)
    requires
        0 <= i < bits.len(),
    ensures
        i / 64 < plain_words(bits).len(),
        ((plain_words(bits)[i / 64] >> ((i % 64) as u64)) & 1 == 1) == bits[i],
{
    lemma_packed_bit(bits, 64 * (i / 64), 64, (i % 64) as u64);
}

proof fn lemma_packed_past_end(bits: Seq<bool>, base: int, k: nat, from: nat)
    requires
        from <= k,
        base + from >= bits.len(),
    ensures
        packed(bits, base, k) == packed(bits, base, from),
    decreases k,
{
    if from < k {
        lemma_packed_past_end(bits, base, (k - 1) as nat, from);
    }
}

/// The bitmap as words.
fn pack(bits: &[bool]) -> (res: Vec<u64>)
    ensures
        res@ == plain_words(bits@),
{
    let mut out: Vec<u64> = Vec::new();
    let mut i: usize = 0;
    while i < bits.len()
        invariant
            i <= bits@.len(),
            i < bits@.len() ==> i == 64 * out@.len(),
            i == bits@.len() ==> out@.len() == (bits@.len() + 63) / 64,
            forall|w: int| 0 <= w < out@.len() ==> #[trigger] out@[w] == packed(bits@, 64 * w, 64),
        decreases bits.len() - i,
    {
        let mut word: u64 = 0;
        let mut k: u64 = 0;
        let ghost base = i as int;
        while k < 64 && i < bits.len()
            invariant
                k <= 64,
                i == base + k,
                i <= bits@.len(),
                word == packed(bits@, base, k as nat),
            decreases 64 - k,
        {
            if bits[i] {
                word = word | (1u64 << k);
            }
            k = k + 1;
            i = i + 1;
        }
        proof {
            if k < 64 {
                lemma_packed_past_end(bits@, base, 64, k as nat);
            }
        }
        out.push(word);
    }
    assert(out@ =~= plain_words(bits@));
    out
}

proof fn lemma_words_bytes_push(words: Seq<u64>, w: u64)
    ensures
        words_bytes(words.push(w)) == words_bytes(words) + be64(w),
{
    assert(words.push(w).drop_last() =~= words);
}

/// The serialized bitmap of `bits`.
pub fn ewah(bits: &[bool]) -> (res: Vec<u8>)
    ensures
        res@ == ewah_bytes(bits@),
{
    let plain = pack(bits);
    let ghost p = plain@;
    let mut words: Vec<u64> = Vec::new();
    let mut last_rlw: usize = 0;
    let mut i: usize = 0;
    let ghost goal = ewah_words(p, 0);
    let ghost goal_last = last_header(p, 0, 0);
    let mut done: bool = false;
    while !done
        invariant
            p == plain@,
            i <= p.len(),
            !done ==> goal == words@ + ewah_words(p, i as int),
            !done ==> goal_last == last_header(p, i as int, words@.len() as int),
            !done ==> (i < p.len() || words@.len() == 0),
            done ==> goal == words@,
            done ==> goal_last == last_rlw,
        decreases (if done { 0int } else { 1 + p.len() - i }),
    {
        proof {
            lemma_stretch(p, i as int);
        }
        let ghost from = i as int;
        let bit: u64 = if i < plain.len() && plain[i] == u64::MAX {
            1
        } else {
            0
        };
        let word: u64 = if bit == 1 {
            u64::MAX
        } else {
            0
        };
        let mut run: u64 = 0;
        while run < MAX_RUN && i < plain.len() && plain[i] == word
            invariant
                p == plain@,
                run <= MAX_RUN,
                i == from + run,
                i <= p.len(),
                word == fill(run_bit_at(p, from)),
                literals_start(p, from) == i + run_len(p, i as int, word, (MAX_RUN - run) as nat),
            decreases MAX_RUN - run,
        {
            run = run + 1;
            i = i + 1;
        }
        let start = i;
        let mut literals: u64 = 0;
        assert(literals_start(p, from) == start);
        while i < plain.len() && literals < MAX_LITERALS && plain[i] != 0 && plain[i] != u64::MAX
            invariant
                p == plain@,
                literals <= MAX_LITERALS,
                i == start + literals,
                i <= p.len(),
                stretch_end(p, from) == i + literal_len(
                    p,
                    i as int,
                    (MAX_LITERALS - literals) as nat,
                ),
            decreases p.len() - i,
        {
            literals = literals + 1;
            i = i + 1;
        }
        assert(stretch_end(p, from) == i);
        last_rlw = words.len();
        let ghost before = words@;
        words.push(bit | (run << 1) | (literals << 33));
        let mut k: usize = start;
        while k < i
            invariant
                p == plain@,
                start <= k <= i <= p.len(),
                words@ == before.push(header(bit, run, literals)) + p.subrange(start as int, k as int),
            decreases i - k,
        {
            words.push(plain[k]);
            k = k + 1;
            assert(words@ =~= before.push(header(bit, run, literals)) + p.subrange(
                start as int,
                k as int,
            ));
        }
        proof {
            assert(words@ =~= before + stretch(p, from));
            if i < p.len() {
                assert(ewah_words(p, from) == stretch(p, from) + ewah_words(p, i as int));
                assert(goal =~= words@ + ewah_words(p, i as int));
            } else {
                assert(ewah_words(p, from) == stretch(p, from));
                assert(goal =~= words@);
            }
        }
        done = i >= plain.len();
    }
    let mut out: Vec<u8> = Vec::new();
    push_be32(&mut out, bits.len() as u32);
    push_be32(&mut out, words.len() as u32);
    let ghost head = out@;
    let mut k: usize = 0;
    assert(out@ =~= head + words_bytes(words@.take(0)));
    while k < words.len()
        invariant
            k <= words@.len(),
            out@ == head + words_bytes(words@.take(k as int)),
        decreases words.len() - k,
    {
        push_be64(&mut out, words[k]);
        proof {
            lemma_words_bytes_push(words@.take(k as int), words@[k as int]);
            assert(words@.take(k + 1) =~= words@.take(k as int).push(words@[k as int]));
            assert(out@ =~= head + words_bytes(words@.take(k + 1)));
        }
        k = k + 1;
    }
    assert(words@.take(k as int) =~= words@);
    push_be32(&mut out, last_rlw as u32);
    assert(out@ =~= ewah_bytes(bits@));
    out
}

} // verus!
