//! The one-time-password codec: RFC 4648 base32 with `=` padding, written
//! and proved here bit by bit, and a thin policy over the HMAC-based
//! code primitive — a code for "now", validation against a ±1 window of
//! 30 seconds, and the seconds left until the next rotation.

use vstd::prelude::*;
use vstd::string::StrSliceExecFns;
use vstd::string::StringExecFns;

use crate::error::VaultError;
use crate::trusted::{hotp_digits, now_timestamp, totp_code};

verus! {

// ---------------------------------------------------------------------------
// The bit-sequence model.
// ---------------------------------------------------------------------------

/// The bits of a byte, most significant first.
pub open spec fn byte_bits(b: u8) -> Seq<bool> {
    Seq::new(8, |i: int| (b >> ((7 - i) as u8)) & 1 == 1)
}

/// The 5 bits of a base32 symbol value, most significant first.
pub open spec fn sym_bits(v: u8) -> Seq<bool> {
    Seq::new(5, |i: int| (v >> ((4 - i) as u8)) & 1 == 1)
}

/// The low `k` bits of a 32-bit accumulator, most significant first.
pub open spec fn acc_bits(v: u32, k: u32) -> Seq<bool> {
    Seq::new(k as nat, |i: int| (v >> ((k - 1 - i) as u32)) & 1 == 1)
}

/// `k` zero bits.
pub open spec fn zero_bits(k: nat) -> Seq<bool> {
    Seq::new(k, |i: int| false)
}

/// All bits of a byte sequence.
pub open spec fn bytes_bits(s: Seq<u8>) -> Seq<bool>
    decreases s.len(),
{
    if s.len() == 0 {
        Seq::<bool>::empty()
    } else {
        bytes_bits(s.drop_last()) + byte_bits(s.last())
    }
}

/// A character of the base32 alphabet, upper or lower case.
pub open spec fn is_b32_sym(c: char) -> bool {
    ('A' <= c && c <= 'Z') || ('a' <= c && c <= 'z') || ('2' <= c && c <= '7')
}

/// A character the encoder may emit: the RFC 4648 alphabet proper,
/// upper case only.
pub open spec fn is_upper_sym(c: char) -> bool {
    ('A' <= c && c <= 'Z') || ('2' <= c && c <= '7')
}

/// The 5-bit value of a base32 symbol.
pub open spec fn b32_val(c: char) -> u8 {
    if 'A' <= c && c <= 'Z' {
        ((c as u32) - 65) as u8
    } else if 'a' <= c && c <= 'z' {
        ((c as u32) - 97) as u8
    } else {
        ((c as u32) - 50 + 26) as u8
    }
}

/// All bits of a run of base32 symbols.
pub open spec fn chars_bits(s: Seq<char>) -> Seq<bool>
    decreases s.len(),
{
    if s.len() == 0 {
        Seq::<bool>::empty()
    } else {
        chars_bits(s.drop_last()) + sym_bits(b32_val(s.last()))
    }
}

/// A byte sequence carries 8 bits a byte.
pub proof fn lemma_bytes_bits_len(s: Seq<u8>)
    ensures
        bytes_bits(s).len() == 8 * s.len(),
    decreases s.len(),
{
    if s.len() > 0 {
        lemma_bytes_bits_len(s.drop_last());
    }
}

/// A symbol run carries 5 bits a symbol.
pub proof fn lemma_chars_bits_len(s: Seq<char>)
    ensures
        chars_bits(s).len() == 5 * s.len(),
    decreases s.len(),
{
    if s.len() > 0 {
        lemma_chars_bits_len(s.drop_last());
    }
}

/// Equal bit sequences of equal byte counts come from equal bytes.
pub proof fn lemma_bytes_bits_injective(a: Seq<u8>, b: Seq<u8>)
    requires
        a.len() == b.len(),
        bytes_bits(a) == bytes_bits(b),
    ensures
        a == b,
    decreases a.len(),
{
    if a.len() > 0 {
        lemma_bytes_bits_len(a.drop_last());
        lemma_bytes_bits_len(b.drop_last());
        let x = a.last();
        let y = b.last();
        assert(byte_bits(x) =~= bytes_bits(a).skip(8 * a.len() - 8)) by {
            assert(bytes_bits(a) == bytes_bits(a.drop_last()) + byte_bits(x));
        }
        assert(byte_bits(y) =~= bytes_bits(b).skip(8 * b.len() - 8)) by {
            assert(bytes_bits(b) == bytes_bits(b.drop_last()) + byte_bits(y));
        }
        assert(byte_bits(x) == byte_bits(y));
        assert(x == y) by {
            assert(byte_bits(x)[0] == byte_bits(y)[0]);
            assert(byte_bits(x)[1] == byte_bits(y)[1]);
            assert(byte_bits(x)[2] == byte_bits(y)[2]);
            assert(byte_bits(x)[3] == byte_bits(y)[3]);
            assert(byte_bits(x)[4] == byte_bits(y)[4]);
            assert(byte_bits(x)[5] == byte_bits(y)[5]);
            assert(byte_bits(x)[6] == byte_bits(y)[6]);
            assert(byte_bits(x)[7] == byte_bits(y)[7]);
            assert(x == y) by (bit_vector)
                requires
                    ((x >> 7u8) & 1 == 1) == ((y >> 7u8) & 1 == 1),
                    ((x >> 6u8) & 1 == 1) == ((y >> 6u8) & 1 == 1),
                    ((x >> 5u8) & 1 == 1) == ((y >> 5u8) & 1 == 1),
                    ((x >> 4u8) & 1 == 1) == ((y >> 4u8) & 1 == 1),
                    ((x >> 3u8) & 1 == 1) == ((y >> 3u8) & 1 == 1),
                    ((x >> 2u8) & 1 == 1) == ((y >> 2u8) & 1 == 1),
                    ((x >> 1u8) & 1 == 1) == ((y >> 1u8) & 1 == 1),
                    ((x >> 0u8) & 1 == 1) == ((y >> 0u8) & 1 == 1),
            ;
        }
        assert(bytes_bits(a.drop_last()) =~= bytes_bits(b.drop_last())) by {
            assert(bytes_bits(a.drop_last()) =~= bytes_bits(a).take(8 * a.len() - 8));
            assert(bytes_bits(b.drop_last()) =~= bytes_bits(b).take(8 * b.len() - 8));
        }
        lemma_bytes_bits_injective(a.drop_last(), b.drop_last());
        assert forall|j: int| 0 <= j < a.len() implies a[j] == b[j] by {
            if j < a.len() - 1 {
                assert(a.drop_last()[j] == b.drop_last()[j]);
            }
        }
        assert(a =~= b);
    } else {
        assert(a =~= b);
    }
}

// ---------------------------------------------------------------------------
// Accumulator lemmas: how the 32-bit window relates to the bit model.
// ---------------------------------------------------------------------------

/// Shifting `w` fresh bits into the accumulator appends them.
pub proof fn lemma_acc_shift_in(v: u32, k: u32, b: u32, w: u32)
    requires
        k + w <= 32,
        w >= 1,
        v < (1u32 << k),
        b < (1u32 << w),
    ensures
        acc_bits((v << w) | b, (k + w) as u32) == acc_bits(v, k) + acc_bits(b, w),
{
    let lhs = acc_bits((v << w) | b, (k + w) as u32);
    let rhs = acc_bits(v, k) + acc_bits(b, w);
    assert forall|i: int| 0 <= i < k + w implies lhs[i] == rhs[i] by {
        let j: u32 = i as u32;
        if i < k {
            assert((((v << w) | b) >> ((k + w - 1 - j) as u32)) & 1 == (v >> ((k - 1 - j) as u32)) & 1)
                by (bit_vector)
                requires
                    k + w <= 32,
                    w >= 1,
                    j < k,
                    v < (1u32 << k),
                    b < (1u32 << w),
            ;
        } else {
            assert((((v << w) | b) >> ((k + w - 1 - j) as u32)) & 1 == (b >> ((w - 1 - (j - k)) as u32)) & 1)
                by (bit_vector)
                requires
                    k + w <= 32,
                    w >= 1,
                    k <= j < k + w,
                    v < (1u32 << k),
                    b < (1u32 << w),
            ;
        }
    }
    assert(lhs =~= rhs);
}

/// Splitting the accumulator takes the top `w` bits off the front; `lo`
/// is the accumulator reduced to its low `k - w` bits.
pub proof fn lemma_acc_split(v: u32, k: u32, w: u32, lo: u32)
    requires
        w <= k,
        k <= 31,
        v < (1u32 << k),
        lo == v % (1u32 << ((k - w) as u32)),
    ensures
        acc_bits(v, k) == acc_bits(v >> ((k - w) as u32), w) + acc_bits(lo, (k - w) as u32),
        lo < (1u32 << ((k - w) as u32)),
{
    let lhs = acc_bits(v, k);
    let rhs = acc_bits(v >> ((k - w) as u32), w) + acc_bits(lo, (k - w) as u32);
    assert(lo < (1u32 << ((k - w) as u32))) by (bit_vector)
        requires
            w <= k,
            k <= 31,
            lo == v % (1u32 << ((k - w) as u32)),
    ;
    assert forall|i: int| 0 <= i < k implies lhs[i] == rhs[i] by {
        let j: u32 = i as u32;
        if i < w {
            assert(((v >> ((k - w) as u32)) >> ((w - 1 - j) as u32)) & 1 == (v >> ((k - 1 - j) as u32)) & 1) by (bit_vector)
                requires
                    w <= k,
                    k <= 31,
                    j < w,
            ;
        } else {
            assert((lo >> ((k - w - 1 - (j - w)) as u32)) & 1 == (v >> ((k - 1 - j) as u32)) & 1) by (bit_vector)
                requires
                    w <= k,
                    k <= 31,
                    w <= j < k,
                    lo == v % (1u32 << ((k - w) as u32)),
            ;
        }
    }
    assert(lhs =~= rhs);
}

/// A byte's bits are the low 8 accumulator bits of its value.
pub proof fn lemma_byte_bits_acc(b: u8)
    ensures
        byte_bits(b) == acc_bits(b as u32, 8),
{
    assert forall|i: int| 0 <= i < 8 implies byte_bits(b)[i] == acc_bits(b as u32, 8)[i] by {
        let j: u8 = (7 - i) as u8;
        assert(((b >> j) & 1 == 1) == (((b as u32) >> ((j as u32))) & 1 == 1)) by (bit_vector)
            requires
                j < 8,
        ;
        assert((7 - i) as u32 == j as u32);
    }
    assert(byte_bits(b) =~= acc_bits(b as u32, 8));
}

/// A symbol's bits are the low 5 accumulator bits of its value.
pub proof fn lemma_sym_bits_acc(v: u8)
    ensures
        sym_bits(v) == acc_bits(v as u32, 5),
{
    assert forall|i: int| 0 <= i < 5 implies sym_bits(v)[i] == acc_bits(v as u32, 5)[i] by {
        let j: u8 = (4 - i) as u8;
        assert(((v >> j) & 1 == 1) == (((v as u32) >> ((j as u32))) & 1 == 1)) by (bit_vector)
            requires
                j < 5,
        ;
        assert((4 - i) as u32 == j as u32);
    }
    assert(sym_bits(v) =~= acc_bits(v as u32, 5));
}

/// The final partial symbol of the encoder: the remaining bits, shifted
/// to the top of a 5-bit window, are those bits followed by zeros.
pub proof fn lemma_acc_pad_sym(v: u32, k: u32)
    requires
        1 <= k < 5,
        v < (1u32 << k),
    ensures
        acc_bits(((v << ((5 - k) as u32)) & 0x1f), 5) == acc_bits(v, k) + zero_bits((5 - k) as nat),
{
    let lhs = acc_bits(((v << ((5 - k) as u32)) & 0x1f), 5);
    let rhs = acc_bits(v, k) + zero_bits((5 - k) as nat);
    assert forall|i: int| 0 <= i < 5 implies lhs[i] == rhs[i] by {
        let j: u32 = i as u32;
        if i < k {
            assert((((v << ((5 - k) as u32)) & 0x1f) >> ((4 - j) as u32)) & 1 == (v >> ((k - 1 - j) as u32)) & 1)
                by (bit_vector)
                requires
                    1 <= k < 5,
                    j < k,
                    v < (1u32 << k),
            ;
        } else {
            assert((((v << ((5 - k) as u32)) & 0x1f) >> ((4 - j) as u32)) & 1 == 0) by (bit_vector)
                requires
                    1 <= k < 5,
                    k <= j < 5,
                    v < (1u32 << k),
            ;
        }
    }
    assert(lhs =~= rhs);
}

// ---------------------------------------------------------------------------
// Cleaning: what the decoder consumes from its input.
// ---------------------------------------------------------------------------

/// The characters with spaces dropped.
pub open spec fn spaces_removed(s: Seq<char>) -> Seq<char>
    decreases s.len(),
{
    if s.len() == 0 {
        Seq::<char>::empty()
    } else if s.last() == ' ' {
        spaces_removed(s.drop_last())
    } else {
        spaces_removed(s.drop_last()) + seq![s.last()]
    }
}

/// The position of the first `=`, or the length when there is none.
pub open spec fn eq_stop(s: Seq<char>) -> int
    decreases s.len(),
{
    if s.len() == 0 {
        0
    } else if s[0] == '=' {
        0
    } else {
        1 + eq_stop(s.drop_first())
    }
}

/// The symbols the decoder consumes: everything before the first `=`,
/// with spaces dropped.
pub open spec fn b32_payload(s: Seq<char>) -> Seq<char> {
    spaces_removed(s.take(eq_stop(s)))
}

/// Every consumed symbol is from the alphabet: the input decodes.
pub open spec fn b32_valid(s: Seq<char>) -> bool {
    forall|j: int| 0 <= j < b32_payload(s).len() ==> is_b32_sym(#[trigger] b32_payload(s)[j])
}

/// Where the first `=` sits.
pub proof fn lemma_eq_stop(s: Seq<char>)
    ensures
        0 <= eq_stop(s) <= s.len(),
        forall|j: int| 0 <= j < eq_stop(s) ==> s[j] != '=',
        eq_stop(s) < s.len() ==> s[eq_stop(s)] == '=',
    decreases s.len(),
{
    if s.len() > 0 && s[0] != '=' {
        lemma_eq_stop(s.drop_first());
        assert forall|j: int| 0 <= j < eq_stop(s) implies s[j] != '=' by {
            if j >= 1 {
                assert(s.drop_first()[j - 1] != '=');
            }
        }
        if eq_stop(s) < s.len() {
            assert(s.drop_first()[eq_stop(s) - 1] == '=');
        }
    }
}

/// A prefix with no `=` followed by `=` (or the end) pins the stop down.
pub proof fn lemma_eq_stop_at(s: Seq<char>, i: int)
    requires
        0 <= i <= s.len(),
        forall|j: int| 0 <= j < i ==> s[j] != '=',
        i < s.len() ==> s[i] == '=',
    ensures
        eq_stop(s) == i,
{
    lemma_eq_stop(s);
    if eq_stop(s) < i {
        assert(s[eq_stop(s)] != '=');
    }
    if eq_stop(s) > i {
        assert(s[i] != '=');
    }
}

/// Dropping spaces from a space-free run changes nothing.
pub proof fn lemma_spaces_removed_id(s: Seq<char>)
    requires
        forall|j: int| 0 <= j < s.len() ==> s[j] != ' ',
    ensures
        spaces_removed(s) == s,
    decreases s.len(),
{
    if s.len() > 0 {
        lemma_spaces_removed_id(s.drop_last());
        assert(spaces_removed(s) =~= s);
    } else {
        assert(spaces_removed(s) =~= s);
    }
}

/// A consumed non-space character shows up in the cleaned run, right
/// after the cleaned prefix before it.
pub proof fn lemma_spaces_removed_extends(s: Seq<char>, i: int, k: int)
    requires
        0 <= i < k <= s.len(),
        s[i] != ' ',
    ensures
        spaces_removed(s.take(k)).len() > spaces_removed(s.take(i)).len(),
        spaces_removed(s.take(k))[spaces_removed(s.take(i)).len() as int] == s[i],
    decreases k,
{
    if k == i + 1 {
        assert(s.take(k).drop_last() =~= s.take(i));
        assert(s.take(k).last() == s[i]);
        assert(spaces_removed(s.take(k)) == spaces_removed(s.take(i)) + seq![s[i]]);
    } else {
        lemma_spaces_removed_extends(s, i, k - 1);
        assert(s.take(k).drop_last() =~= s.take(k - 1));
        let p = spaces_removed(s.take(k - 1));
        if s.take(k).last() == ' ' {
            assert(spaces_removed(s.take(k)) == p);
        } else {
            assert(spaces_removed(s.take(k)) == p + seq![s.take(k).last()]);
        }
    }
}


// ---------------------------------------------------------------------------
// The alphabet, one symbol at a time.
// ---------------------------------------------------------------------------

/// Append the base32 symbol of a 5-bit value: `A`-`Z` for 0 to 25,
/// `2`-`7` for 26 to 31.
fn push_sym(s: &mut String, v: u8)
    requires
        v < 32,
    ensures
        final(s)@.len() == old(s)@.len() + 1,
        final(s)@.take(old(s)@.len() as int) == old(s)@,
        is_upper_sym(final(s)@.last()),
        b32_val(final(s)@.last()) == v,
        final(s)@.last() != '=',
        final(s)@.last() != ' ',
{
    if v == 0 {
        proof {
            reveal_strlit("A");
        }
        s.append("A");
        proof {
            assert(s@ =~= old(s)@ + "A"@);
            assert(s@.last() == 'A');
            assert(s@.take(old(s)@.len() as int) =~= old(s)@);
        }
    } else if v == 1 {
        proof {
            reveal_strlit("B");
        }
        s.append("B");
        proof {
            assert(s@ =~= old(s)@ + "B"@);
            assert(s@.last() == 'B');
            assert(s@.take(old(s)@.len() as int) =~= old(s)@);
        }
    } else if v == 2 {
        proof {
            reveal_strlit("C");
        }
        s.append("C");
        proof {
            assert(s@ =~= old(s)@ + "C"@);
            assert(s@.last() == 'C');
            assert(s@.take(old(s)@.len() as int) =~= old(s)@);
        }
    } else if v == 3 {
        proof {
            reveal_strlit("D");
        }
        s.append("D");
        proof {
            assert(s@ =~= old(s)@ + "D"@);
            assert(s@.last() == 'D');
            assert(s@.take(old(s)@.len() as int) =~= old(s)@);
        }
    } else if v == 4 {
        proof {
            reveal_strlit("E");
        }
        s.append("E");
        proof {
            assert(s@ =~= old(s)@ + "E"@);
            assert(s@.last() == 'E');
            assert(s@.take(old(s)@.len() as int) =~= old(s)@);
        }
    } else if v == 5 {
        proof {
            reveal_strlit("F");
        }
        s.append("F");
        proof {
            assert(s@ =~= old(s)@ + "F"@);
            assert(s@.last() == 'F');
            assert(s@.take(old(s)@.len() as int) =~= old(s)@);
        }
    } else if v == 6 {
        proof {
            reveal_strlit("G");
        }
        s.append("G");
        proof {
            assert(s@ =~= old(s)@ + "G"@);
            assert(s@.last() == 'G');
            assert(s@.take(old(s)@.len() as int) =~= old(s)@);
        }
    } else if v == 7 {
        proof {
            reveal_strlit("H");
        }
        s.append("H");
        proof {
            assert(s@ =~= old(s)@ + "H"@);
            assert(s@.last() == 'H');
            assert(s@.take(old(s)@.len() as int) =~= old(s)@);
        }
    } else if v == 8 {
        proof {
            reveal_strlit("I");
        }
        s.append("I");
        proof {
            assert(s@ =~= old(s)@ + "I"@);
            assert(s@.last() == 'I');
            assert(s@.take(old(s)@.len() as int) =~= old(s)@);
        }
    } else if v == 9 {
        proof {
            reveal_strlit("J");
        }
        s.append("J");
        proof {
            assert(s@ =~= old(s)@ + "J"@);
            assert(s@.last() == 'J');
            assert(s@.take(old(s)@.len() as int) =~= old(s)@);
        }
    } else if v == 10 {
        proof {
            reveal_strlit("K");
        }
        s.append("K");
        proof {
            assert(s@ =~= old(s)@ + "K"@);
            assert(s@.last() == 'K');
            assert(s@.take(old(s)@.len() as int) =~= old(s)@);
        }
    } else if v == 11 {
        proof {
            reveal_strlit("L");
        }
        s.append("L");
        proof {
            assert(s@ =~= old(s)@ + "L"@);
            assert(s@.last() == 'L');
            assert(s@.take(old(s)@.len() as int) =~= old(s)@);
        }
    } else if v == 12 {
        proof {
            reveal_strlit("M");
        }
        s.append("M");
        proof {
            assert(s@ =~= old(s)@ + "M"@);
            assert(s@.last() == 'M');
            assert(s@.take(old(s)@.len() as int) =~= old(s)@);
        }
    } else if v == 13 {
        proof {
            reveal_strlit("N");
        }
        s.append("N");
        proof {
            assert(s@ =~= old(s)@ + "N"@);
            assert(s@.last() == 'N');
            assert(s@.take(old(s)@.len() as int) =~= old(s)@);
        }
    } else if v == 14 {
        proof {
            reveal_strlit("O");
        }
        s.append("O");
        proof {
            assert(s@ =~= old(s)@ + "O"@);
            assert(s@.last() == 'O');
            assert(s@.take(old(s)@.len() as int) =~= old(s)@);
        }
    } else if v == 15 {
        proof {
            reveal_strlit("P");
        }
        s.append("P");
        proof {
            assert(s@ =~= old(s)@ + "P"@);
            assert(s@.last() == 'P');
            assert(s@.take(old(s)@.len() as int) =~= old(s)@);
        }
    } else if v == 16 {
        proof {
            reveal_strlit("Q");
        }
        s.append("Q");
        proof {
            assert(s@ =~= old(s)@ + "Q"@);
            assert(s@.last() == 'Q');
            assert(s@.take(old(s)@.len() as int) =~= old(s)@);
        }
    } else if v == 17 {
        proof {
            reveal_strlit("R");
        }
        s.append("R");
        proof {
            assert(s@ =~= old(s)@ + "R"@);
            assert(s@.last() == 'R');
            assert(s@.take(old(s)@.len() as int) =~= old(s)@);
        }
    } else if v == 18 {
        proof {
            reveal_strlit("S");
        }
        s.append("S");
        proof {
            assert(s@ =~= old(s)@ + "S"@);
            assert(s@.last() == 'S');
            assert(s@.take(old(s)@.len() as int) =~= old(s)@);
        }
    } else if v == 19 {
        proof {
            reveal_strlit("T");
        }
        s.append("T");
        proof {
            assert(s@ =~= old(s)@ + "T"@);
            assert(s@.last() == 'T');
            assert(s@.take(old(s)@.len() as int) =~= old(s)@);
        }
    } else if v == 20 {
        proof {
            reveal_strlit("U");
        }
        s.append("U");
        proof {
            assert(s@ =~= old(s)@ + "U"@);
            assert(s@.last() == 'U');
            assert(s@.take(old(s)@.len() as int) =~= old(s)@);
        }
    } else if v == 21 {
        proof {
            reveal_strlit("V");
        }
        s.append("V");
        proof {
            assert(s@ =~= old(s)@ + "V"@);
            assert(s@.last() == 'V');
            assert(s@.take(old(s)@.len() as int) =~= old(s)@);
        }
    } else if v == 22 {
        proof {
            reveal_strlit("W");
        }
        s.append("W");
        proof {
            assert(s@ =~= old(s)@ + "W"@);
            assert(s@.last() == 'W');
            assert(s@.take(old(s)@.len() as int) =~= old(s)@);
        }
    } else if v == 23 {
        proof {
            reveal_strlit("X");
        }
        s.append("X");
        proof {
            assert(s@ =~= old(s)@ + "X"@);
            assert(s@.last() == 'X');
            assert(s@.take(old(s)@.len() as int) =~= old(s)@);
        }
    } else if v == 24 {
        proof {
            reveal_strlit("Y");
        }
        s.append("Y");
        proof {
            assert(s@ =~= old(s)@ + "Y"@);
            assert(s@.last() == 'Y');
            assert(s@.take(old(s)@.len() as int) =~= old(s)@);
        }
    } else if v == 25 {
        proof {
            reveal_strlit("Z");
        }
        s.append("Z");
        proof {
            assert(s@ =~= old(s)@ + "Z"@);
            assert(s@.last() == 'Z');
            assert(s@.take(old(s)@.len() as int) =~= old(s)@);
        }
    } else if v == 26 {
        proof {
            reveal_strlit("2");
        }
        s.append("2");
        proof {
            assert(s@ =~= old(s)@ + "2"@);
            assert(s@.last() == '2');
            assert(s@.take(old(s)@.len() as int) =~= old(s)@);
        }
    } else if v == 27 {
        proof {
            reveal_strlit("3");
        }
        s.append("3");
        proof {
            assert(s@ =~= old(s)@ + "3"@);
            assert(s@.last() == '3');
            assert(s@.take(old(s)@.len() as int) =~= old(s)@);
        }
    } else if v == 28 {
        proof {
            reveal_strlit("4");
        }
        s.append("4");
        proof {
            assert(s@ =~= old(s)@ + "4"@);
            assert(s@.last() == '4');
            assert(s@.take(old(s)@.len() as int) =~= old(s)@);
        }
    } else if v == 29 {
        proof {
            reveal_strlit("5");
        }
        s.append("5");
        proof {
            assert(s@ =~= old(s)@ + "5"@);
            assert(s@.last() == '5');
            assert(s@.take(old(s)@.len() as int) =~= old(s)@);
        }
    } else if v == 30 {
        proof {
            reveal_strlit("6");
        }
        s.append("6");
        proof {
            assert(s@ =~= old(s)@ + "6"@);
            assert(s@.last() == '6');
            assert(s@.take(old(s)@.len() as int) =~= old(s)@);
        }
    } else if v == 31 {
        proof {
            reveal_strlit("7");
        }
        s.append("7");
        proof {
            assert(s@ =~= old(s)@ + "7"@);
            assert(s@.last() == '7');
            assert(s@.take(old(s)@.len() as int) =~= old(s)@);
        }
    } else {
        proof {
            assert(false);
        }
    }
}

/// Every character of a cleaned run occurs in the original, away from a
/// space.
pub proof fn lemma_spaces_removed_elems(t: Seq<char>)
    ensures
        forall|j: int|
            0 <= j < spaces_removed(t).len() ==> exists|q: int|
                0 <= q < t.len() && t[q] == #[trigger] spaces_removed(t)[j] && t[q] != ' ',
    decreases t.len(),
{
    if t.len() > 0 {
        lemma_spaces_removed_elems(t.drop_last());
        assert forall|j: int| 0 <= j < spaces_removed(t).len() implies exists|q: int|
            0 <= q < t.len() && t[q] == #[trigger] spaces_removed(t)[j] && t[q] != ' ' by {
            let p = spaces_removed(t.drop_last());
            if t.last() != ' ' && j == p.len() {
                assert(t[t.len() - 1] == spaces_removed(t)[j]);
            } else {
                assert(spaces_removed(t)[j] == p[j]);
                let q = choose|q: int|
                    0 <= q < t.drop_last().len() && t.drop_last()[q] == p[j] && t.drop_last()[q]
                        != ' ';
                assert(t[q] == spaces_removed(t)[j] && t[q] != ' ');
            }
        }
    }
}

/// Wrapping up a decode: with fewer than 8 bits left over, the bytes put
/// out are exactly the leading whole bytes of the consumed bits.
pub proof fn lemma_decode_finish(p: Seq<char>, out: Seq<u8>, bits: u32, bc: u32)
    requires
        bc < 8,
        8 * out.len() + bc == 5 * p.len(),
        bytes_bits(out) + acc_bits(bits, bc) == chars_bits(p),
    ensures
        out.len() == (5 * p.len()) / 8,
        bytes_bits(out) == chars_bits(p).take(8 * out.len() as int),
    decreases 0int,
{
    lemma_bytes_bits_len(out);
    lemma_chars_bits_len(p);
    assert(out.len() == (5 * p.len()) / 8) by (nonlinear_arith)
        requires
            bc < 8,
            8 * out.len() + bc == 5 * p.len(),
    ;
    assert(bytes_bits(out) =~= chars_bits(p).take(8 * out.len() as int));
}


// ---------------------------------------------------------------------------
// The decoder.
// ---------------------------------------------------------------------------

/// Decode a base32 string: case-insensitive, spaces ignored anywhere,
/// reading stops at the first `=`.  Any other character outside the
/// alphabet is rejected with `InvalidSecret`.  The bytes are the consumed
/// symbols' bits taken 8 at a time, a trailing remainder dropped.
pub fn decode_base32(input: &str) -> (r: Result<Vec<u8>, VaultError>)
    ensures
        match r {
            Result::Ok(out) => {
                &&& b32_valid(input@)
                &&& out@.len() == (5 * b32_payload(input@).len()) / 8
                &&& bytes_bits(out@) == chars_bits(b32_payload(input@)).take(8 * out@.len() as int)
            },
            Result::Err(e) => !b32_valid(input@) && (e matches VaultError::InvalidSecret(_)),
        },
{
    let ghost s = input@;
    let n = input.unicode_len();
    let mut i: usize = 0;
    let mut bits: u32 = 0;
    let mut bit_count: u32 = 0;
    let mut out: Vec<u8> = Vec::new();
    proof {
        assert(s.take(0) =~= Seq::<char>::empty());
        assert(acc_bits(0u32, 0u32) =~= Seq::<bool>::empty());
        assert(bytes_bits(out@) + acc_bits(0u32, 0u32) =~= chars_bits(spaces_removed(s.take(0))));
        assert(0u32 < (1u32 << 0u32)) by (bit_vector);
    }
    while i < n
        invariant
            s == input@,
            n == s.len(),
            i <= n,
            forall|j: int| 0 <= j < i ==> s[j] != '=',
            forall|j: int| 0 <= j < i && s[j] != ' ' ==> is_b32_sym(#[trigger] s[j]),
            bit_count < 8,
            bits < (1u32 << bit_count),
            8 * out@.len() + bit_count == 5 * spaces_removed(s.take(i as int)).len(),
            bytes_bits(out@) + acc_bits(bits, bit_count) == chars_bits(
                spaces_removed(s.take(i as int)),
            ),
        decreases n - i,
    {
        let c = input.get_char(i);
        let cv: u32 = c as u32;
        if c == '=' {
            proof {
                lemma_eq_stop_at(s, i as int);
                lemma_spaces_removed_elems(s.take(i as int));
                assert forall|j: int| 0 <= j < b32_payload(s).len() implies is_b32_sym(
                    #[trigger] b32_payload(s)[j],
                ) by {
                    let p = spaces_removed(s.take(i as int));
                    let q = choose|q: int|
                        0 <= q < s.take(i as int).len() && s.take(i as int)[q] == p[j] && s.take(
                            i as int,
                        )[q] != ' ';
                    assert(s[q] == p[j] && s[q] != ' ');
                }
                lemma_decode_finish(b32_payload(s), out@, bits, bit_count);
            }
            return Result::Ok(out);
        } else if c == ' ' {
            proof {
                assert(s.take(i + 1).drop_last() =~= s.take(i as int));
                assert(s.take(i + 1).last() == ' ');
                assert(spaces_removed(s.take(i + 1)) == spaces_removed(s.take(i as int)));
            }
            i = i + 1;
        } else {
            let v: u8;
            if 65 <= cv && cv <= 90 {
                v = (cv - 65) as u8;
            } else if 97 <= cv && cv <= 122 {
                v = (cv - 97) as u8;
            } else if 50 <= cv && cv <= 55 {
                v = (cv - 50 + 26) as u8;
            } else {
                proof {
                    lemma_eq_stop(s);
                    assert(eq_stop(s) > i) by {
                        if eq_stop(s) <= i {
                            assert(s[eq_stop(s)] == '=');
                        }
                    }
                    lemma_spaces_removed_extends(s, i as int, eq_stop(s));
                    let idx = spaces_removed(s.take(i as int)).len() as int;
                    assert(b32_payload(s)[idx] == s[i as int]);
                    assert(!is_b32_sym(s[i as int]));
                    assert(!b32_valid(s));
                }
                return Result::Err(
                    VaultError::InvalidSecret("not a base32 character".to_owned()),
                );
            }
            proof {
                assert(is_b32_sym(c));
                assert(b32_val(c) == v);
                assert(v < 32);
                assert((v as u32) < (1u32 << 5u32)) by (bit_vector)
                    requires
                        v < 32,
                ;
            }
            let ghost bits0 = bits;
            let ghost k0 = bit_count;
            let ghost out0 = out@;
            bits = (bits << 5) | (v as u32);
            bit_count = bit_count + 5;
            proof {
                lemma_acc_shift_in(bits0, k0, v as u32, 5);
                lemma_sym_bits_acc(v);
                assert(bits < (1u32 << bit_count)) by (bit_vector)
                    requires
                        bits == (bits0 << 5u32) | (v as u32),
                        bit_count == k0 + 5,
                        k0 < 8,
                        bits0 < (1u32 << k0),
                        v < 32,
                ;
                let p0 = spaces_removed(s.take(i as int));
                let p1 = spaces_removed(s.take(i + 1));
                assert(s.take(i + 1).drop_last() =~= s.take(i as int));
                assert(s.take(i + 1).last() == c);
                assert(p1 == p0 + seq![c]);
                assert(p1.drop_last() =~= p0);
                assert(chars_bits(p1) == chars_bits(p0) + sym_bits(v));
                assert(bytes_bits(out@) + acc_bits(bits, bit_count) =~= chars_bits(p1));
            }
            if bit_count >= 8 {
                let ghost bits1 = bits;
                let ghost k1 = bit_count;
                bit_count = bit_count - 8;
                proof {
                    assert((1u32 << bit_count) > 0) by (bit_vector)
                        requires
                            bit_count < 32,
                    ;
                }
                let byte: u8 = (bits >> bit_count) as u8;
                bits = bits % (1u32 << bit_count);
                proof {
                    lemma_acc_split(bits1, k1, 8, bits);
                    assert((byte as u32) == bits1 >> ((k1 - 8) as u32)) by (bit_vector)
                        requires
                            byte == (bits1 >> bit_count) as u8,
                            bit_count == k1 - 8,
                            8 <= k1 <= 12,
                            bits1 < (1u32 << k1),
                    ;
                    lemma_byte_bits_acc(byte);
                    assert(byte_bits(byte) == acc_bits(bits1 >> ((k1 - 8) as u32), 8));
                    let outv = out@;
                    assert(bytes_bits(outv.push(byte)) == bytes_bits(outv) + byte_bits(byte)) by {
                        assert(outv.push(byte).drop_last() =~= outv);
                        assert(outv.push(byte).last() == byte);
                    }
                }
                out.push(byte);
                proof {
                    let p1 = spaces_removed(s.take(i + 1));
                    assert(bytes_bits(out@) + acc_bits(bits, bit_count) =~= chars_bits(p1));
                }
            }
            i = i + 1;
        }
    }
    proof {
        lemma_eq_stop_at(s, n as int);
        assert(s.take(n as int) =~= s);
        lemma_spaces_removed_elems(s);
        assert forall|j: int| 0 <= j < b32_payload(s).len() implies is_b32_sym(
            #[trigger] b32_payload(s)[j],
        ) by {
            let p = spaces_removed(s);
            let q = choose|q: int| 0 <= q < s.len() && s[q] == p[j] && s[q] != ' ';
            assert(s[q] == p[j] && s[q] != ' ');
        }
        assert(b32_payload(s) == spaces_removed(s.take(n as int)));
        lemma_decode_finish(b32_payload(s), out@, bits, bit_count);
    }
    Result::Ok(out)
}


// ---------------------------------------------------------------------------
// The encoder.
// ---------------------------------------------------------------------------

/// Encode bytes as base32: the data symbols carry the input's bits with
/// up to four zero bits appended, and `=` padding extends the result to
/// a multiple of eight symbols.
#[verifier::rlimit(60)]
pub fn encode_base32(input: &[u8]) -> (r: String)
    ensures
        ({
            let m0 = eq_stop(r@);
            &&& r@.len() % 8 == 0
            &&& 0 <= m0 <= r@.len()
            &&& r@.len() == m0 + ((8 - (m0 % 8)) % 8)
            &&& forall|j: int| 0 <= j < m0 ==> is_upper_sym(#[trigger] r@[j])
            &&& forall|j: int| m0 <= j < r@.len() ==> r@[j] == '='
            &&& 0 <= 5 * m0 - 8 * input@.len() < 5
            &&& chars_bits(r@.take(m0)) == bytes_bits(input@) + zero_bits(
                (5 * m0 - 8 * input@.len()) as nat,
            )
        }),
{
    let ghost src = input@;
    let n = input.len();
    let mut result = String::new();
    let mut m: u128 = 0;
    let mut bits: u32 = 0;
    let mut bit_count: u32 = 0;
    let mut i: usize = 0;
    proof {
        assert(src.take(0) =~= Seq::<u8>::empty());
        assert(acc_bits(0u32, 0u32) =~= Seq::<bool>::empty());
        assert(chars_bits(result@) + acc_bits(0u32, 0u32) =~= bytes_bits(src.take(0)));
        assert(0u32 < (1u32 << 0u32)) by (bit_vector);
    }
    while i < n
        invariant
            src == input@,
            n == src.len(),
            i <= n,
            m == result@.len(),
            bit_count < 5,
            bits < (1u32 << bit_count),
            forall|j: int|
                0 <= j < result@.len() ==> is_upper_sym(#[trigger] result@[j]) && result@[j] != '='
                    && result@[j] != ' ',
            5 * result@.len() + bit_count == 8 * i,
            chars_bits(result@) + acc_bits(bits, bit_count) == bytes_bits(src.take(i as int)),
        decreases n - i,
    {
        let b = input[i];
        let ghost bits0 = bits;
        let ghost k0 = bit_count;
        bits = (bits << 8) | (b as u32);
        bit_count = bit_count + 8;
        proof {
            assert((b as u32) < (1u32 << 8u32)) by (bit_vector);
            lemma_acc_shift_in(bits0, k0, b as u32, 8);
            lemma_byte_bits_acc(b);
            assert(bits < (1u32 << bit_count)) by (bit_vector)
                requires
                    bits == (bits0 << 8u32) | (b as u32),
                    bit_count == k0 + 8,
                    k0 < 5,
                    bits0 < (1u32 << k0),
            ;
            assert(src.take(i + 1).drop_last() =~= src.take(i as int));
            assert(src.take(i + 1).last() == b);
            assert(bytes_bits(src.take(i + 1)) == bytes_bits(src.take(i as int)) + byte_bits(b));
            assert(chars_bits(result@) + acc_bits(bits, bit_count) =~= bytes_bits(src.take(i + 1)));
        }
        while bit_count >= 5
            invariant
                src == input@,
                i < n,
                n == src.len(),
                m == result@.len(),
                bit_count < 13,
                bits < (1u32 << bit_count),
                forall|j: int|
                    0 <= j < result@.len() ==> is_upper_sym(#[trigger] result@[j]) && result@[j]
                        != '=' && result@[j] != ' ',
                5 * result@.len() + bit_count == 8 * (i + 1),
                chars_bits(result@) + acc_bits(bits, bit_count) == bytes_bits(src.take(i + 1)),
            decreases bit_count,
        {
            let ghost bits1 = bits;
            let ghost k1 = bit_count;
            bit_count = bit_count - 5;
            proof {
                assert((1u32 << bit_count) > 0) by (bit_vector)
                    requires
                        bit_count < 32,
                ;
            }
            let v: u8 = ((bits >> bit_count) & 0x1f) as u8;
            bits = bits % (1u32 << bit_count);
            proof {
                lemma_acc_split(bits1, k1, 5, bits);
                assert((v as u32) == bits1 >> ((k1 - 5) as u32) && v < 32) by (bit_vector)
                    requires
                        v == ((bits1 >> bit_count) & 0x1f) as u8,
                        bit_count == k1 - 5,
                        5 <= k1 <= 12,
                        bits1 < (1u32 << k1),
                ;
                lemma_sym_bits_acc(v);
            }
            let ghost res0 = result@;
            push_sym(&mut result, v);
            m = m + 1;
            proof {
                assert(result@.drop_last() =~= res0);
                assert(chars_bits(result@) == chars_bits(res0) + sym_bits(v));
                assert(chars_bits(result@) + acc_bits(bits, bit_count) =~= bytes_bits(
                    src.take(i + 1),
                ));
                assert forall|jj: int| 0 <= jj < result@.len() implies is_upper_sym(
                    #[trigger] result@[jj],
                ) && result@[jj] != '=' && result@[jj] != ' ' by {
                    if jj < res0.len() {
                        assert(result@[jj] == res0[jj]);
                    }
                }
            }
        }
        i = i + 1;
    }
    proof {
        assert(src.take(n as int) =~= src);
    }
    if bit_count > 0 {
        let v: u8 = ((bits << (5 - bit_count)) & 0x1f) as u8;
        proof {
            lemma_acc_pad_sym(bits, bit_count);
            assert((v as u32) == ((bits << ((5 - bit_count) as u32)) & 0x1f) && v < 32)
                by (bit_vector)
                requires
                    v == ((bits << ((5 - bit_count) as u32)) & 0x1f) as u8,
                    1 <= bit_count < 5,
            ;
            lemma_sym_bits_acc(v);
        }
        let ghost res0 = result@;
        push_sym(&mut result, v);
        m = m + 1;
        proof {
            assert(result@.drop_last() =~= res0);
            assert(chars_bits(result@) == chars_bits(res0) + sym_bits(v));
            assert(chars_bits(result@) =~= bytes_bits(src) + zero_bits(
                (5 * result@.len() - 8 * src.len()) as nat,
            ));
            assert forall|jj: int| 0 <= jj < result@.len() implies is_upper_sym(
                #[trigger] result@[jj],
            ) && result@[jj] != '=' && result@[jj] != ' ' by {
                if jj < res0.len() {
                    assert(result@[jj] == res0[jj]);
                }
            }
        }
    } else {
        proof {
            assert(acc_bits(bits, 0u32) =~= Seq::<bool>::empty());
            assert(zero_bits(0) =~= Seq::<bool>::empty());
            assert(chars_bits(result@) =~= bytes_bits(src) + zero_bits(
                (5 * result@.len() - 8 * src.len()) as nat,
            ));
        }
    }
    let ghost data = result@;
    let ghost m0 = result@.len() as int;
    let pad: u128 = (8 - (m % 8)) % 8;
    let mut j: u128 = 0;
    proof {
        assert(data.take(m0) =~= data);
        assert(forall|k: int|
            0 <= k < m0 ==> is_upper_sym(#[trigger] data[k]) && data[k] != '=');
    }
    while j < pad
        invariant
            j <= pad,
            pad < 8,
            m0 == data.len(),
            result@.len() == m0 + j,
            result@.take(m0) == data,
            forall|k: int| m0 <= k < result@.len() ==> result@[k] == '=',
        decreases pad - j,
    {
        proof {
            reveal_strlit("=");
        }
        let ghost res0 = result@;
        result.append("=");
        j = j + 1;
        proof {
            assert("="@.len() == 1 && "="@[0] == '=');
            assert(result@ == res0 + "="@);
            assert(result@.take(m0) =~= data);
            assert forall|k: int| m0 <= k < result@.len() implies result@[k] == '=' by {
                if k < res0.len() {
                    assert(result@[k] == res0[k]);
                } else {
                    assert(result@[k] == "="@[0]);
                }
            }
        }
    }
    proof {
        assert(result@.len() % 8 == 0) by {
            assert(m0 == m as int);
            assert(pad as int == (8 - (m0 % 8)) % 8);
            assert(result@.len() == m0 + pad);
        }
        assert forall|k: int| 0 <= k < m0 implies (#[trigger] result@[k]) == data[k] by {
            assert(result@.take(m0)[k] == data[k]);
        }
        assert forall|k: int| 0 <= k < m0 implies (#[trigger] result@[k]) != '=' by {
            assert(result@[k] == data[k]);
            assert(is_upper_sym(data[k]) && data[k] != '=');
        }
        lemma_eq_stop_at(result@, m0);
        assert(result@.len() == m0 + ((8 - (m0 % 8)) % 8)) by {
            assert(result@.len() == m0 + pad);
            assert(pad as int == (8 - ((m as int) % 8)) % 8);
            assert(m as int == m0);
        }
        assert(result@.take(m0) == data);
    }
    result
}


// ---------------------------------------------------------------------------
// The round trip.
// ---------------------------------------------------------------------------

/// Decoding an encoding gives the original bytes back.  The hypotheses
/// are exactly what `encode_base32` promises of its result on `bytes`
/// and what `decode_base32` promises of its result on that string; the
/// conclusion holds for every byte sequence, the empty one too.
pub proof fn lemma_decode_inverts_encode(bytes: Seq<u8>, enc: Seq<char>, dec: Seq<u8>)
    requires
        ({
            let m0 = eq_stop(enc);
            &&& enc.len() % 8 == 0
            &&& forall|j: int| 0 <= j < m0 ==> is_upper_sym(#[trigger] enc[j])
            &&& forall|j: int| m0 <= j < enc.len() ==> enc[j] == '='
            &&& 0 <= 5 * m0 - 8 * bytes.len() < 5
            &&& chars_bits(enc.take(m0)) == bytes_bits(bytes) + zero_bits(
                (5 * m0 - 8 * bytes.len()) as nat,
            )
        }),
        dec.len() == (5 * b32_payload(enc).len()) / 8,
        bytes_bits(dec) == chars_bits(b32_payload(enc)).take(8 * dec.len() as int),
    ensures
        dec == bytes,
{
    let m0 = eq_stop(enc);
    lemma_eq_stop(enc);
    let p = enc.take(m0);
    assert forall|j: int| 0 <= j < p.len() implies p[j] != ' ' by {
        assert(is_upper_sym(enc[j]));
    }
    lemma_spaces_removed_id(p);
    assert(b32_payload(enc) == p);
    lemma_chars_bits_len(p);
    lemma_bytes_bits_len(bytes);
    lemma_bytes_bits_len(dec);
    let pad = 5 * m0 - 8 * bytes.len();
    assert(dec.len() == bytes.len()) by (nonlinear_arith)
        requires
            dec.len() == (5 * m0) / 8,
            5 * m0 == 8 * bytes.len() + pad,
            0 <= pad < 5,
    ;
    assert(bytes_bits(dec) =~= bytes_bits(bytes)) by {
        assert(chars_bits(p) == bytes_bits(bytes) + zero_bits(pad as nat));
        assert(bytes_bits(dec) == chars_bits(p).take(8 * dec.len() as int));
    }
    lemma_bytes_bits_injective(dec, bytes);
}

// ---------------------------------------------------------------------------
// The policy over the one-time-password primitive.
// ---------------------------------------------------------------------------

/// A candidate matches somewhere in the tolerated window: the 30-second
/// step at `now`, the one before it, or the one after it.
pub open spec fn totp_window_match(secret: Seq<u8>, candidate: Seq<char>, now: u64) -> bool {
    ||| candidate == totp_code(secret, now / 30)
    ||| now >= 30 && candidate == totp_code(secret, ((now - 30) / 30) as u64)
    ||| now + 30 <= u64::MAX && candidate == totp_code(secret, (((now + 30) as u64) / 30) as u64)
}


/// A code generated at `t` is accepted by the ±1-step window at any
/// instant `t2` within 29 seconds of `t`.  (Within a second of the
/// far end of the 64-bit clock the look-ahead step cannot be formed;
/// real clocks never get there.)
pub proof fn lemma_code_validates_within_window(secret: Seq<u8>, t: u64, t2: u64)
    requires
        t <= t2 + 29,
        t2 <= t + 29,
        t2 + 30 <= u64::MAX,
    ensures
        totp_window_match(secret, totp_code(secret, t / 30), t2),
{
    let a = t / 30;
    let b = t2 / 30;
    assert(b <= a + 1 && a <= b + 1) by (nonlinear_arith)
        requires
            t <= t2 + 29,
            t2 <= t + 29,
            a == t / 30,
            b == t2 / 30,
    ;
    if a == b {
    } else if a + 1 == b {
        assert(t2 >= 30) by (nonlinear_arith)
            requires
                b == t2 / 30,
                b >= 1,
        ;
        assert((t2 - 30) / 30 == b - 1) by (nonlinear_arith)
            requires
                t2 >= 30,
                b == t2 / 30,
        ;
        assert(totp_code(secret, t / 30) == totp_code(secret, ((t2 - 30) / 30) as u64));
    } else {
        assert(a == b + 1);
        assert((t2 + 30) / 30 == b + 1) by (nonlinear_arith)
            requires
                b == t2 / 30,
                t2 + 30 <= u64::MAX,
        ;
        assert(totp_code(secret, t / 30) == totp_code(secret, (((t2 + 30) as u64) / 30) as u64));
    }
}

/// The 6-digit code for a raw secret at time `now`: decimal digits
/// only, left-zero-padded.
pub fn generate_code(secret_bytes: &Vec<u8>, now: u64) -> (r: String)
    ensures
        r@ == totp_code(secret_bytes@, now / 30),
        r@.len() == 6,
        forall|i: int| 0 <= i < r@.len() ==> '0' <= #[trigger] r@[i] && r@[i] <= '9',
{
    hotp_digits(secret_bytes, now)
}

/// Whether `candidate` is the code for a raw secret at time `now`, at
/// the step before it, or at the step after it — three checks, first
/// match wins.
pub fn validate_code(secret_bytes: &Vec<u8>, candidate: &str, now: u64) -> (r: bool)
    ensures
        r == totp_window_match(secret_bytes@, candidate@, now),
{
    let c0 = generate_code(secret_bytes, now);
    if crate::util::chars_equal(c0.as_str(), candidate) {
        return true;
    }
    if now >= 30 {
        let c1 = generate_code(secret_bytes, now - 30);
        if crate::util::chars_equal(c1.as_str(), candidate) {
            return true;
        }
    }
    if now <= u64::MAX - 30 {
        let c2 = generate_code(secret_bytes, now + 30);
        if crate::util::chars_equal(c2.as_str(), candidate) {
            return true;
        }
    }
    false
}

/// The code is the primitive's output for the secret's decoded bytes at
/// some 30-second window: what `generate_totp` can promise of a clock it
/// does not choose.
pub open spec fn code_verdict(secret: Seq<char>, code: Seq<char>) -> bool {
    exists|bytes: Seq<u8>, w: u64|
        #![trigger totp_code(bytes, w)]
        {
            &&& bytes.len() == (5 * b32_payload(secret).len()) / 8
            &&& bytes_bits(bytes) == chars_bits(b32_payload(secret)).take(8 * bytes.len() as int)
            &&& code == totp_code(bytes, w)
        }
}

/// Generate a code for a base32 secret at the current instant.  A
/// malformed secret is rejected with `InvalidSecret`; a clock before the
/// Unix epoch with `EncryptionError`.  The decoded secret buffer is
/// wiped before this returns.
pub fn generate_totp(secret: &str) -> (r: Result<String, VaultError>)
    ensures
        match r {
            Result::Ok(code) => {
                &&& b32_valid(secret@)
                &&& code@.len() == 6
                &&& forall|i: int| 0 <= i < code@.len() ==> '0' <= #[trigger] code@[i] && code@[i]
                    <= '9'
                &&& code_verdict(secret@, code@)
            },
            Result::Err(e) => match e {
                VaultError::InvalidSecret(_) => !b32_valid(secret@),
                VaultError::EncryptionError(_) => b32_valid(secret@),
                _ => false,
            },
        },
{
    match decode_base32(secret) {
        Result::Err(e) => Result::Err(e),
        Result::Ok(mut bytes) => {
            let t = crate::trusted::now_timestamp();
            if t < 0 {
                crate::trusted::wipe_bytes(&mut bytes);
                return Result::Err(
                    VaultError::EncryptionError("the clock is before the Unix epoch".to_owned()),
                );
            }
            let code = generate_code(&bytes, t as u64);
            proof {
                let ghost w: u64 = (t as u64) / 30;
                assert(code@ == totp_code(bytes@, w));
                assert(code_verdict(secret@, code@));
            }
            crate::trusted::wipe_bytes(&mut bytes);
            Result::Ok(code)
        },
    }
}

/// The verdict `b` is the window decision for the secret's decoded
/// bytes at some instant: what `validate_totp` can promise of a clock it
/// does not choose.
pub open spec fn window_verdict(secret: Seq<char>, code: Seq<char>, b: bool) -> bool {
    exists|bytes: Seq<u8>, t: u64|
        #![trigger totp_window_match(bytes, code, t)]
        {
            &&& bytes.len() == (5 * b32_payload(secret).len()) / 8
            &&& bytes_bits(bytes) == chars_bits(b32_payload(secret)).take(8 * bytes.len() as int)
            &&& b == totp_window_match(bytes, code, t)
        }
}

/// Validate a candidate code for a base32 secret at the current instant,
/// against the ±1 window of 30 seconds.  A malformed secret is rejected
/// with `InvalidSecret`; a clock before the Unix epoch with
/// `EncryptionError`.  The decoded secret buffer is wiped before this
/// returns.
pub fn validate_totp(secret: &str, code: &str) -> (r: Result<bool, VaultError>)
    ensures
        match r {
            Result::Ok(b) => b32_valid(secret@) && window_verdict(secret@, code@, b),
            Result::Err(e) => match e {
                VaultError::InvalidSecret(_) => !b32_valid(secret@),
                VaultError::EncryptionError(_) => b32_valid(secret@),
                _ => false,
            },
        },
{
    match decode_base32(secret) {
        Result::Err(e) => Result::Err(e),
        Result::Ok(mut bytes) => {
            let t = crate::trusted::now_timestamp();
            if t < 0 {
                crate::trusted::wipe_bytes(&mut bytes);
                return Result::Err(
                    VaultError::EncryptionError("the clock is before the Unix epoch".to_owned()),
                );
            }
            let ok = validate_code(&bytes, code, t as u64);
            proof {
                let ghost w: u64 = t as u64;
                assert(ok == totp_window_match(bytes@, code@, w));
                assert(window_verdict(secret@, code@, ok));
            }
            crate::trusted::wipe_bytes(&mut bytes);
            Result::Ok(ok)
        },
    }
}

/// Seconds until the next 30-second boundary after `now`: never zero,
/// at most thirty.
pub fn get_remaining_seconds_at(now: u64) -> (r: u64)
    ensures
        r == 30 - now % 30,
        1 <= r <= 30,
{
    30 - now % 30
}

/// Seconds until the next code rotation, from the current clock; a
/// clock before the Unix epoch counts as the epoch itself.
pub fn get_remaining_seconds() -> (r: u64)
    ensures
        1 <= r <= 30,
{
    let t = crate::trusted::now_timestamp();
    let u: u64 = if t < 0 {
        0
    } else {
        t as u64
    };
    get_remaining_seconds_at(u)
}

} // verus!
