use vstd::prelude::*;
use vstd::string::StringSliceAdditionalSpecFns;
use vstd::utf8::{encode_utf8, is_ascii_chars, is_ascii_chars_encode_utf8};

verus! {

/// A dictionary entry of at most eight one-byte letters, packed into 64 bits
/// with the first letter in the highest byte used.
#[derive(Debug, PartialEq, Eq, Hash, Clone, Copy, Structural)]
pub struct Word {
    pub inner: u64,
}

impl View for Word {
    type V = Seq<u8>;

    open spec fn view(&self) -> Seq<u8> {
        letters(self.inner)
    }
}

/// The letters that a code stands for: its bytes from the highest one that
/// is not zero down to the lowest, first letter first.
pub open spec fn letters(code: u64) -> Seq<u8>
    decreases code,
{
    if code == 0 {
        Seq::empty()
    } else {
        letters(code / 256).push((code % 256) as u8)
    }
}

/// The code of a sequence of bytes: each byte moves the code up by eight
/// bits and takes the lowest place, so the first letter stands highest.
/// Only 64 bits are kept: of more than eight bytes, the last eight count.
pub open spec fn pack(bytes: Seq<u8>) -> u64
    decreases bytes.len(),
{
    if bytes.len() == 0 {
        0
    } else {
        ((pack(bytes.drop_last()) % 0x100_0000_0000_0000) * 256 + bytes.last()) as u64
    }
}

/// The text that a sequence of letters spells: each byte as the character
/// with that number.
pub open spec fn spelled(letters: Seq<u8>) -> Seq<char> {
    letters.map_values(|b: u8| b as char)
}

/// Two letter sequences agree everywhere but at position `at`.
pub open spec fn differ_only_at(a: Seq<u8>, b: Seq<u8>, at: int) -> bool {
    &&& a.len() == b.len()
    &&& 0 <= at < a.len()
    &&& a[at] != b[at]
    &&& forall|j: int| 0 <= j < a.len() && j != at ==> a[j] == b[j]
}

/// Two words are adjacent when they have the same number of letters and
/// differ in exactly one position.
pub open spec fn adjacent(a: Word, b: Word) -> bool {
    exists|at: int| differ_only_at(a@, b@, at)
}

/// 256 to the power `n`: the number of codes of at most `n` letters.
pub open spec fn span(n: nat) -> nat
    decreases n,
{
    if n == 0 {
        1
    } else {
        256 * span((n - 1) as nat)
    }
}

impl Word {
    /// The word whose letters are `bytes`: their code.
    pub fn from_bytes(bytes: &[u8]) -> (word: Word)
        ensures
            word.inner == pack(bytes@),
    {
        let mut acc: u64 = 0;
        let mut i: usize = 0;
        while i < bytes.len()
            invariant
                i <= bytes.len(),
                acc == pack(bytes@.subrange(0, i as int)),
            decreases bytes.len() - i,
        {
            let byte: u64 = bytes[i] as u64;
            let ghost before = acc;
            proof {
                assert(before << 8 == (before % 0x100_0000_0000_0000) * 256) by (bit_vector);
                let upto = bytes@.subrange(0, i + 1);
                assert(upto.drop_last() =~= bytes@.subrange(0, i as int));
                assert(upto.last() == bytes@[i as int]);
            }
            acc = (acc << 8) + byte;
            i = i + 1;
        }
        assert(bytes@.subrange(0, i as int) =~= bytes@);
        Word { inner: acc }
    }

    /// The word that `s` spells: the code of its bytes.
    pub fn from(s: &str) -> (word: Word)
        ensures
            word.inner == pack(s.spec_bytes()),
    {
        Word::from_bytes(s.as_bytes())
    }

    /// The text that the word spells.
    pub fn to_string(&self) -> (text: String)
        ensures
            text@ == spelled(self@),
    {
        let mut low_first: Vec<u8> = Vec::new();
        let mut n: u64 = self.inner;
        while n > 0
            invariant
                self@ == letters(n) + low_first@.reverse(),
            decreases n,
        {
            let ghost n0 = n;
            let c: u8 = (n & 255) as u8;
            n = n >> 8;
            proof {
                assert(n0 & 255 == n0 % 256 && n0 >> 8 == n0 / 256) by (bit_vector);
                assert(letters(n0) == letters(n).push(c));
                assert(letters(n).push(c) + low_first@.reverse() =~= letters(n) + low_first@.push(
                    c,
                ).reverse());
            }
            low_first.push(c);
        }
        assert(self@ =~= low_first@.reverse());
        let mut text = String::new();
        let mut i: usize = low_first.len();
        while i > 0
            invariant
                i <= low_first.len(),
                self@ == low_first@.reverse(),
                text@ == spelled(self@.subrange(0, low_first.len() - i)),
            decreases i,
        {
            i = i - 1;
            let c: u8 = low_first[i];
            proof {
                let upto = self@.subrange(0, low_first.len() - i);
                assert(upto =~= self@.subrange(0, low_first.len() - i - 1).push(c));
                assert(spelled(upto) =~= spelled(self@.subrange(0, low_first.len() - i - 1)).push(
                    c as char,
                ));
            }
            text.push(c as char);
        }
        assert(self@.subrange(0, low_first.len() as int) =~= self@);
        text
    }

    /// Whether the two words have the same length and differ in exactly one
    /// letter. Compares from the last letter towards the first.
    pub fn is_adjacent(&self, other: Word) -> (r: bool)
        ensures
            r == adjacent(*self, other),
    {
        let mut n: u64 = self.inner;
        let mut m: u64 = other.inner;
        let ghost mut tail: Seq<u8> = Seq::empty();
        while n > 0 && m > 0
            invariant
                self@ == letters(n) + tail,
                other@ == letters(m) + tail,
            decreases n,
        {
            let c: u64 = n & 255;
            let d: u64 = m & 255;
            let ghost n0 = n;
            let ghost m0 = m;
            n = n >> 8;
            m = m >> 8;
            proof {
                assert(n0 & 255 == n0 % 256 && n0 >> 8 == n0 / 256) by (bit_vector);
                assert(m0 & 255 == m0 % 256 && m0 >> 8 == m0 / 256) by (bit_vector);
                assert(letters(n0) == letters(n).push(c as u8));
                assert(letters(m0) == letters(m).push(d as u8));
            }
            if c != d {
                proof {
                    let at = letters(n).len() as int;
                    if n == m {
                        assert(self@ =~= letters(n).push(c as u8) + tail);
                        assert(other@ =~= letters(n).push(d as u8) + tail);
                        assert(differ_only_at(self@, other@, at));
                    } else {
                        if adjacent(*self, other) {
                            let k = choose|k: int| differ_only_at(self@, other@, k);
                            assert(letters(n).len() == letters(m).len());
                            assert(self@[at] == c as u8);
                            assert(other@[at] == d as u8);
                            assert(k == at);
                            assert forall|j: int| 0 <= j < letters(n).len() implies letters(n)[j]
                                == letters(m)[j] by {
                                assert(self@[j] == letters(n)[j]);
                                assert(other@[j] == letters(m)[j]);
                            }
                            assert(letters(n) =~= letters(m));
                            lemma_letters_injective(n, m);
                        }
                    }
                }
                return n == m;
            }
            proof {
                assert(self@ =~= letters(n) + (seq![c as u8] + tail));
                assert(other@ =~= letters(m) + (seq![c as u8] + tail));
                tail = seq![c as u8] + tail;
            }
        }
        proof {
            if adjacent(*self, other) {
                let k = choose|k: int| differ_only_at(self@, other@, k);
                assert(letters(n).len() == letters(m).len());
                assert(n == 0 && m == 0) by {
                    if n != 0 {
                        assert(letters(n).len() == letters(n / 256).len() + 1);
                    }
                    if m != 0 {
                        assert(letters(m).len() == letters(m / 256).len() + 1);
                    }
                }
                assert(self@ =~= other@);
            }
        }
        false
    }
}

/// `String::push` appends the character to the end of the string.
pub assume_specification[ String::push ](text: &mut String, ch: char)
    ensures
        final(text)@ == old(text)@.push(ch),
;

/// No word is adjacent to itself.
pub proof fn lemma_adjacent_is_irreflexive(w: Word)
    ensures
        !adjacent(w, w),
{
}

/// Adjacency does not depend on the order of the two words.
pub proof fn lemma_adjacent_is_symmetric(a: Word, b: Word)
    ensures
        adjacent(a, b) == adjacent(b, a),
{
    if adjacent(a, b) {
        let at = choose|at: int| differ_only_at(a@, b@, at);
        assert(differ_only_at(b@, a@, at));
    }
    if adjacent(b, a) {
        let at = choose|at: int| differ_only_at(b@, a@, at);
        assert(differ_only_at(a@, b@, at));
    }
}

/// Different codes stand for different letter sequences.
pub proof fn lemma_letters_injective(x: u64, y: u64)
    requires
        letters(x) == letters(y),
    ensures
        x == y,
    decreases x,
{
    if x == 0 {
        if y != 0 {
            assert(letters(y).len() == letters(y / 256).len() + 1);
        }
    } else {
        assert(letters(x).len() == letters(x / 256).len() + 1);
        if y == 0 {
        } else {
            let lx = letters(x / 256);
            let ly = letters(y / 256);
            assert(letters(x).last() == (x % 256) as u8);
            assert(letters(y).last() == (y % 256) as u8);
            assert(letters(x).drop_last() =~= lx);
            assert(letters(y).drop_last() =~= ly);
            lemma_letters_injective(x / 256, y / 256);
        }
    }
}

/// The code of `n` bytes is below 256 to the power `n`.
pub proof fn lemma_pack_is_below_span(bytes: Seq<u8>)
    ensures
        pack(bytes) < span(bytes.len()),
    decreases bytes.len(),
{
    if bytes.len() > 0 {
        lemma_pack_is_below_span(bytes.drop_last());
    }
}

/// At most eight bytes, the first of them not zero, are the letters of
/// their code.
pub proof fn lemma_letters_of_pack(bytes: Seq<u8>)
    requires
        bytes.len() <= 8,
        bytes.len() > 0 ==> bytes[0] != 0,
    ensures
        letters(pack(bytes)) == bytes,
    decreases bytes.len(),
{
    if bytes.len() == 0 {
        assert(letters(0) =~= bytes);
    } else {
        let front = bytes.drop_last();
        lemma_pack_is_below_span(front);
        assert(span(front.len()) <= 0x100_0000_0000_0000) by {
            lemma_spans();
        }
        assert(pack(bytes) == pack(front) * 256 + bytes.last());
        if front.len() > 0 {
            assert(front[0] == bytes[0]);
            lemma_letters_of_pack(front);
            assert(letters(pack(front)).len() > 0);
            assert(pack(front) != 0);
        } else {
            assert(bytes.last() == bytes[0]);
            assert(letters(0) =~= front);
        }
        assert(pack(bytes) != 0);
        assert(pack(bytes) / 256 == pack(front));
        assert(pack(bytes) % 256 == bytes.last());
        assert(letters(pack(bytes)) =~= bytes);
    }
}

/// Two texts of at most eight bytes, neither starting with a zero byte,
/// make the same word only if they are the same text.
pub proof fn lemma_pack_tells_texts_apart(a: Seq<u8>, b: Seq<u8>)
    requires
        a.len() <= 8,
        b.len() <= 8,
        a.len() > 0 ==> a[0] != 0,
        b.len() > 0 ==> b[0] != 0,
        pack(a) == pack(b),
    ensures
        a == b,
{
    lemma_letters_of_pack(a);
    lemma_letters_of_pack(b);
}

/// Text survives the codec: ASCII text of at most eight characters, none
/// of them the null character, is what the word made from it spells.
pub proof fn lemma_text_round_trip(text: Seq<char>)
    requires
        text.len() <= 8,
        is_ascii_chars(text),
        forall|i: int| 0 <= i < text.len() ==> text[i] != '\0',
    ensures
        spelled(letters(pack(encode_utf8(text)))) == text,
{
    let bytes = encode_utf8(text);
    is_ascii_chars_encode_utf8(text);
    if text.len() > 0 {
        assert(text[0] as u8 == bytes[0]);
        assert(text[0] != '\0');
    }
    lemma_letters_of_pack(bytes);
    assert forall|i: int| 0 <= i < text.len() implies spelled(bytes)[i] == text[i] by {
        assert(text[i] as u8 == bytes[i]);
    }
    assert(spelled(bytes) =~= text);
}

/// The lowest `k` bytes of a code are the code of the last `k` bytes.
pub proof fn lemma_pack_low_bytes(bytes: Seq<u8>, k: nat)
    requires
        k <= 8,
        k <= bytes.len(),
    ensures
        (pack(bytes) as int) % (span(k) as int) == pack(
            bytes.subrange(bytes.len() - k, bytes.len() as int),
        ),
    decreases k,
{
    lemma_spans();
    let tail = bytes.subrange(bytes.len() - k, bytes.len() as int);
    if k == 0 {
        assert(tail =~= Seq::<u8>::empty());
    } else {
        let front = bytes.drop_last();
        let short = tail.drop_last();
        assert(short =~= front.subrange(front.len() - (k - 1), front.len() as int));
        assert(tail.last() == bytes.last());
        lemma_pack_low_bytes(front, (k - 1) as nat);
        lemma_pack_is_below_span(short);
        let x = pack(front) as int;
        let y = pack(short) as int;
        let low = bytes.last() as int;
        let cut = span((k - 1) as nat) as int;
        let times = span((8 - k) as nat) as int;
        assert(cut * times == 0x100_0000_0000_0000 && cut * 256 == span(k)) by {
            if k == 1 {
            } else if k == 2 {
            } else if k == 3 {
            } else if k == 4 {
            } else if k == 5 {
            } else if k == 6 {
            } else if k == 7 {
            } else {
                assert(k == 8);
            }
        }
        assert(pack(bytes) == (x % 0x100_0000_0000_0000) * 256 + low);
        assert(pack(tail) == y * 256 + low);
        lemma_cut_commutes_with_shift(x, low, cut, times);
    }
}

/// Of more than eight bytes, only the last eight count for the code.
pub proof fn lemma_pack_keeps_last_eight(bytes: Seq<u8>)
    requires
        bytes.len() >= 8,
    ensures
        pack(bytes) == pack(bytes.subrange(bytes.len() - 8, bytes.len() as int)),
{
    lemma_spans();
    lemma_pack_low_bytes(bytes, 8);
}

/// The spans of zero to eight letters.
proof fn lemma_spans()
    ensures
        span(0) == 1,
        span(1) == 0x100,
        span(2) == 0x1_0000,
        span(3) == 0x100_0000,
        span(4) == 0x1_0000_0000,
        span(5) == 0x100_0000_0000,
        span(6) == 0x1_0000_0000_0000,
        span(7) == 0x100_0000_0000_0000,
        span(8) == 0x1_0000_0000_0000_0000,
{
    assert(span(0) == 1);
    assert(span(1) == 256 * span(0));
    assert(span(2) == 256 * span(1));
    assert(span(3) == 256 * span(2));
    assert(span(4) == 256 * span(3));
    assert(span(5) == 256 * span(4));
    assert(span(6) == 256 * span(5));
    assert(span(7) == 256 * span(6));
    assert(span(8) == 256 * span(7));
}

/// Moving a number up by one byte and cutting it off one byte higher is
/// cutting it off first and moving it up then.
proof fn lemma_cut_commutes_with_shift(x: int, low: int, cut: int, times: int)
    requires
        0 <= x,
        0 <= low < 256,
        0 < cut,
        0 < times,
    ensures
        ((x % (cut * times)) * 256 + low) % (cut * 256) == (x % cut) * 256 + low,
{
    let kept = x % (cut * times);
    vstd::arithmetic::div_mod::lemma_mod_mod(x, cut, times);
    assert(kept % cut == x % cut);
    vstd::arithmetic::div_mod::lemma_fundamental_div_mod(kept, cut);
    let q = kept / cut;
    let r = kept % cut;
    assert(0 <= r < cut) by {
        vstd::arithmetic::div_mod::lemma_mod_bound(kept, cut);
    }
    assert(kept * 256 + low == q * (cut * 256) + (r * 256 + low)) by (nonlinear_arith)
        requires
            kept == cut * q + r,
    ;
    assert(0 <= r * 256 + low < cut * 256) by (nonlinear_arith)
        requires
            0 <= r < cut,
            0 <= low < 256,
    ;
    vstd::arithmetic::div_mod::lemma_fundamental_div_mod_converse(
        kept * 256 + low,
        cut * 256,
        q,
        r * 256 + low,
    );
}

} // verus!
