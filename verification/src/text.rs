//! Byte-level text utilities: ASCII classification and case folding,
//! splitting on a separator, whitespace tokenization, and decimal /
//! hexadecimal numeral parsing.
//!
//! Registry files are plain text; all of the formats involved are ASCII,
//! so every operation here works on byte sequences.

use vstd::prelude::*;

verus! {

/// ASCII whitespace: space, tab, line feed, vertical tab, form feed,
/// carriage return.
pub open spec fn is_space(b: u8) -> bool {
    b == 32 || b == 9 || b == 10 || b == 11 || b == 12 || b == 13
}

/// ASCII decimal digit.
pub open spec fn is_digit(b: u8) -> bool {
    48 <= b && b <= 57
}

/// ASCII hexadecimal digit, either case.
pub open spec fn is_hex_digit(b: u8) -> bool {
    is_digit(b) || (97 <= b && b <= 102) || (65 <= b && b <= 70)
}

/// Value of a hexadecimal digit.
pub open spec fn hex_digit_val(b: u8) -> int {
    if is_digit(b) {
        b - 48
    } else if 97 <= b && b <= 102 {
        b - 87
    } else {
        b - 55
    }
}

/// ASCII lower-casing of one byte.
pub open spec fn to_lower(b: u8) -> u8 {
    if 65 <= b && b <= 90 {
        (b + 32) as u8
    } else {
        b
    }
}

/// ASCII upper-casing of one byte.
pub open spec fn to_upper(b: u8) -> u8 {
    if 97 <= b && b <= 122 {
        (b - 32) as u8
    } else {
        b
    }
}

/// ASCII lower-casing of a byte sequence.
pub open spec fn spec_lower(s: Seq<u8>) -> Seq<u8> {
    s.map_values(|b: u8| to_lower(b))
}

/// ASCII upper-casing of a byte sequence.
pub open spec fn spec_upper(s: Seq<u8>) -> Seq<u8> {
    s.map_values(|b: u8| to_upper(b))
}

/// ASCII lower-case a byte string.
pub fn lower_bytes(s: &[u8]) -> (r: Vec<u8>)
    ensures
        r@ == spec_lower(s@),
{
    let mut r: Vec<u8> = Vec::new();
    let mut i: usize = 0;
    while i < s.len()
        invariant
            i <= s@.len(),
            r@ =~= spec_lower(s@).take(i as int),
        decreases s@.len() - i,
    {
        let b = s[i];
        if 65 <= b && b <= 90 {
            r.push(b + 32);
        } else {
            r.push(b);
        }
        i = i + 1;
    }
    assert(r@ =~= spec_lower(s@));
    r
}

/// ASCII upper-case a byte string.
pub fn upper_bytes(s: &[u8]) -> (r: Vec<u8>)
    ensures
        r@ == spec_upper(s@),
{
    let mut r: Vec<u8> = Vec::new();
    let mut i: usize = 0;
    while i < s.len()
        invariant
            i <= s@.len(),
            r@ =~= spec_upper(s@).take(i as int),
        decreases s@.len() - i,
    {
        let b = s[i];
        if 97 <= b && b <= 122 {
            r.push(b - 32);
        } else {
            r.push(b);
        }
        i = i + 1;
    }
    assert(r@ =~= spec_upper(s@));
    r
}

/// The pieces of `s` between occurrences of the separator `sep`, in
/// order. As with textual line/field splitting, an empty input yields one
/// empty piece, and `n` separators always yield `n + 1` pieces.
pub open spec fn spec_split(s: Seq<u8>, sep: u8) -> Seq<Seq<u8>>
    decreases s.len(),
{
    if s.len() == 0 {
        seq![Seq::<u8>::empty()]
    } else if s[0] == sep {
        seq![Seq::<u8>::empty()] + spec_split(s.skip(1), sep)
    } else {
        let r = spec_split(s.skip(1), sep);
        seq![seq![s[0]] + r[0]] + r.skip(1)
    }
}

/// Index of the first occurrence of `sep` in `s`, or `s.len()` if none.
pub open spec fn first_sep(s: Seq<u8>, sep: u8) -> int
    decreases s.len(),
{
    if s.len() == 0 {
        0
    } else if s[0] == sep {
        0
    } else {
        1 + first_sep(s.skip(1), sep)
    }
}

pub proof fn lemma_first_sep(s: Seq<u8>, sep: u8)
    ensures
        0 <= first_sep(s, sep) <= s.len(),
        first_sep(s, sep) < s.len() ==> s[first_sep(s, sep)] == sep,
        forall|k: int| 0 <= k < first_sep(s, sep) ==> s[k] != sep,
    decreases s.len(),
{
    if s.len() == 0 {
    } else if s[0] == sep {
    } else {
        lemma_first_sep(s.skip(1), sep);
        assert forall|k: int| 0 <= k < first_sep(s, sep) implies s[k] != sep by {
            if k > 0 {
                assert(s.skip(1)[k - 1] == s[k]);
            }
        }
    }
}

/// Any index with the first-occurrence properties is `first_sep`.
pub proof fn lemma_first_sep_unique(s: Seq<u8>, sep: u8, i: int)
    requires
        0 <= i <= s.len(),
        i < s.len() ==> s[i] == sep,
        forall|k: int| 0 <= k < i ==> s[k] != sep,
    ensures
        i == first_sep(s, sep),
{
    lemma_first_sep(s, sep);
    let f = first_sep(s, sep);
    if i < f {
        assert(s[i] != sep);
    } else if f < i {
        assert(s[f] != sep);
    }
}

/// A split is the piece before the first separator, followed by the split
/// of what comes after it.
pub proof fn lemma_split_step(s: Seq<u8>, sep: u8)
    ensures
        first_sep(s, sep) == s.len() ==> spec_split(s, sep) =~~= seq![s],
        first_sep(s, sep) < s.len() ==> spec_split(s, sep) =~~= seq![
            s.take(first_sep(s, sep)),
        ] + spec_split(s.skip(first_sep(s, sep) + 1), sep),
    decreases s.len(),
{
    lemma_first_sep(s, sep);
    let f = first_sep(s, sep);
    if s.len() == 0 {
        assert(spec_split(s, sep) =~~= seq![s]);
    } else if s[0] == sep {
        assert(s.take(0int) =~= Seq::<u8>::empty());
        assert(spec_split(s, sep) =~~= seq![s.take(0int)] + spec_split(s.skip(1), sep));
    } else {
        lemma_split_step(s.skip(1), sep);
        lemma_first_sep(s.skip(1), sep);
        let f1 = first_sep(s.skip(1), sep);
        assert(f == 1 + f1);
        let r = spec_split(s.skip(1), sep);
        if f1 == s.skip(1).len() {
            assert(r =~~= seq![s.skip(1)]);
            assert(seq![s[0]] + r[0] =~= s);
            assert(spec_split(s, sep) =~~= seq![s]);
        } else {
            assert(r =~~= seq![s.skip(1).take(f1)] + spec_split(s.skip(1).skip(f1 + 1), sep));
            assert(seq![s[0]] + r[0] =~= s.take(f));
            assert(s.skip(1).skip(f1 + 1) =~= s.skip(f + 1));
            assert(r.skip(1) =~~= spec_split(s.skip(f + 1), sep));
        }
    }
}

/// Split a byte string on a separator byte.
pub fn split_bytes(s: &[u8], sep: u8) -> (r: Vec<Vec<u8>>)
    ensures
        r.deep_view() == spec_split(s@, sep),
{
    let mut r: Vec<Vec<u8>> = Vec::new();
    let mut start: usize = 0;
    let mut i: usize = 0;
    proof {
        assert(s@.skip(0int) =~= s@);
        assert(r.deep_view() + spec_split(s@, sep) =~~= spec_split(s@, sep));
    }
    while i < s.len()
        invariant
            0 <= start <= i <= s@.len(),
            forall|k: int| start <= k < i ==> s@[k] != sep,
            spec_split(s@, sep) =~~= r.deep_view() + spec_split(s@.skip(start as int), sep),
        decreases s@.len() - i,
    {
        if s[i] == sep {
            let ghost pre = r.deep_view();
            let ghost rem = s@.skip(start as int);
            proof {
                assert forall|k: int| 0 <= k < i - start implies rem[k] != sep by {
                    assert(rem[k] == s@[start + k]);
                }
                lemma_first_sep_unique(rem, sep, i - start);
                lemma_split_step(rem, sep);
                assert(rem.take(i - start) =~= s@.subrange(start as int, i as int));
                assert(rem.skip(i - start + 1) =~= s@.skip(i + 1));
            }
            let piece = vstd::slice::slice_to_vec(vstd::slice::slice_subrange(s, start, i));
            r.push(piece);
            proof {
                assert(r.deep_view() =~~= pre.push(s@.subrange(start as int, i as int)));
                assert(spec_split(s@, sep) =~~= r.deep_view() + spec_split(s@.skip(i + 1), sep));
            }
            start = i + 1;
        }
        i = i + 1;
    }
    let ghost pre = r.deep_view();
    let ghost rem = s@.skip(start as int);
    proof {
        assert forall|k: int| 0 <= k < rem.len() implies rem[k] != sep by {
            assert(rem[k] == s@[start + k]);
        }
        lemma_first_sep_unique(rem, sep, rem.len() as int);
        lemma_split_step(rem, sep);
    }
    let piece = vstd::slice::slice_to_vec(vstd::slice::slice_subrange(s, start, s.len()));
    r.push(piece);
    proof {
        assert(r.deep_view() =~~= pre.push(s@.skip(start as int)));
        assert(r.deep_view() =~~= spec_split(s@, sep));
    }
    r
}

/// Decide whether a byte is ASCII whitespace.
pub fn is_space_byte(b: u8) -> (r: bool)
    ensures
        r == is_space(b),
{
    b == 32 || b == 9 || b == 10 || b == 11 || b == 12 || b == 13
}

/// Index of the first whitespace byte in `s`, or `s.len()` if none.
pub open spec fn first_space(s: Seq<u8>) -> int
    decreases s.len(),
{
    if s.len() == 0 {
        0
    } else if is_space(s[0]) {
        0
    } else {
        1 + first_space(s.skip(1))
    }
}

pub proof fn lemma_first_space(s: Seq<u8>)
    ensures
        0 <= first_space(s) <= s.len(),
        first_space(s) < s.len() ==> is_space(s[first_space(s)]),
        forall|k: int| 0 <= k < first_space(s) ==> !is_space(s[k]),
    decreases s.len(),
{
    if s.len() == 0 {
    } else if is_space(s[0]) {
    } else {
        lemma_first_space(s.skip(1));
        assert forall|k: int| 0 <= k < first_space(s) implies !is_space(s[k]) by {
            if k > 0 {
                assert(s.skip(1)[k - 1] == s[k]);
            }
        }
    }
}

/// Any index with the first-whitespace properties is `first_space`.
pub proof fn lemma_first_space_unique(s: Seq<u8>, i: int)
    requires
        0 <= i <= s.len(),
        i < s.len() ==> is_space(s[i]),
        forall|k: int| 0 <= k < i ==> !is_space(s[k]),
    ensures
        i == first_space(s),
{
    lemma_first_space(s);
    let f = first_space(s);
    if i < f {
        assert(!is_space(s[i]));
    } else if f < i {
        assert(!is_space(s[f]));
    }
}

/// The maximal runs of non-whitespace bytes in `s`, in order, as yielded
/// by whitespace tokenization; leading, trailing and repeated whitespace
/// produce no empty tokens.
pub open spec fn spec_tokens(s: Seq<u8>) -> Seq<Seq<u8>>
    decreases s.len(),
{
    if s.len() == 0 {
        Seq::empty()
    } else if is_space(s[0]) {
        spec_tokens(s.skip(1))
    } else {
        let r = spec_tokens(s.skip(1));
        if s.len() > 1 && !is_space(s[1]) {
            seq![seq![s[0]] + r[0]] + r.skip(1)
        } else {
            seq![seq![s[0]]] + r
        }
    }
}

/// Tokenization takes the run up to the first whitespace byte as the first
/// token, then tokenizes the rest.
pub proof fn lemma_tokens_step(s: Seq<u8>)
    ensures
        s.len() > 0 && !is_space(s[0]) ==> spec_tokens(s) =~~= seq![s.take(first_space(s))]
            + spec_tokens(s.skip(first_space(s))),
    decreases s.len(),
{
    if s.len() > 0 && !is_space(s[0]) {
        lemma_first_space(s);
        lemma_first_space(s.skip(1));
        let f = first_space(s);
        let f1 = first_space(s.skip(1));
        assert(f == 1 + f1);
        let r = spec_tokens(s.skip(1));
        if s.len() > 1 && !is_space(s[1]) {
            lemma_tokens_step(s.skip(1));
            assert(r =~~= seq![s.skip(1).take(f1)] + spec_tokens(s.skip(1).skip(f1)));
            assert(seq![s[0]] + r[0] =~= s.take(f));
            assert(s.skip(1).skip(f1) =~= s.skip(f));
            assert(r.skip(1) =~~= spec_tokens(s.skip(f)));
        } else {
            assert(f == 1);
            assert(seq![s[0]] =~= s.take(1));
            if s.len() == 1 {
                assert(s.skip(1).len() == 0);
                assert(spec_tokens(s) =~~= seq![s.take(1)] + spec_tokens(s.skip(1)));
            } else {
                assert(spec_tokens(s) =~~= seq![s.take(1)] + spec_tokens(s.skip(1)));
            }
        }
    }
}

/// Split a byte string into its whitespace-separated tokens.
pub fn tokenize(s: &[u8]) -> (r: Vec<Vec<u8>>)
    ensures
        r.deep_view() == spec_tokens(s@),
{
    let mut r: Vec<Vec<u8>> = Vec::new();
    let mut i: usize = 0;
    proof {
        assert(s@.skip(0int) =~= s@);
        assert(r.deep_view() + spec_tokens(s@) =~~= spec_tokens(s@));
    }
    while i < s.len()
        invariant
            0 <= i <= s@.len(),
            spec_tokens(s@) =~~= r.deep_view() + spec_tokens(s@.skip(i as int)),
        decreases s@.len() - i,
    {
        if is_space_byte(s[i]) {
            proof {
                assert(s@.skip(i as int).skip(1) =~= s@.skip(i + 1));
            }
            i = i + 1;
        } else {
            let start: usize = i;
            let mut j: usize = i + 1;
            while j < s.len() && !is_space_byte(s[j])
                invariant
                    start < j <= s@.len(),
                    forall|k: int| start <= k < j ==> !is_space(s@[k]),
                decreases s@.len() - j,
            {
                j = j + 1;
            }
            let ghost pre = r.deep_view();
            let ghost rem = s@.skip(start as int);
            proof {
                assert forall|k: int| 0 <= k < j - start implies !is_space(rem[k]) by {
                    assert(rem[k] == s@[start + k]);
                }
                if j < s.len() {
                    assert(rem[j - start] == s@[j as int]);
                }
                lemma_first_space_unique(rem, j - start);
                lemma_tokens_step(rem);
                assert(rem.take(j - start) =~= s@.subrange(start as int, j as int));
                assert(rem.skip(j - start) =~= s@.skip(j as int));
            }
            let piece = vstd::slice::slice_to_vec(vstd::slice::slice_subrange(s, start, j));
            r.push(piece);
            proof {
                assert(r.deep_view() =~~= pre.push(s@.subrange(start as int, j as int)));
                assert(spec_tokens(s@) =~~= r.deep_view() + spec_tokens(s@.skip(j as int)));
            }
            i = j;
        }
    }
    proof {
        assert(s@.skip(s@.len() as int).len() == 0);
        assert(r.deep_view() =~~= spec_tokens(s@));
    }
    r
}

/// Whether every byte of `s` is a decimal digit.
pub open spec fn all_digits(s: Seq<u8>) -> bool {
    forall|k: int| 0 <= k < s.len() ==> is_digit(s[k])
}

/// The integer that a sequence of decimal digits denotes.
pub open spec fn digits_val(s: Seq<u8>) -> int
    decreases s.len(),
{
    if s.len() == 0 {
        0
    } else {
        digits_val(s.drop_last()) * 10 + (s.last() - 48)
    }
}

pub proof fn lemma_digits_val_take_step(s: Seq<u8>, i: int)
    requires
        0 <= i < s.len(),
    ensures
        digits_val(s.take(i + 1)) == digits_val(s.take(i)) * 10 + (s[i] - 48),
{
    assert(s.take(i + 1).drop_last() =~= s.take(i));
    assert(s.take(i + 1).last() == s[i]);
}

/// On digit strings, the denoted value never shrinks as digits are
/// appended.
pub proof fn lemma_digits_val_mono(s: Seq<u8>, i: int)
    requires
        0 <= i <= s.len(),
        all_digits(s),
    ensures
        0 <= digits_val(s.take(i)) <= digits_val(s),
    decreases s.len() - i,
{
    if i == s.len() {
        assert(s.take(i) =~= s);
        lemma_digits_val_nonneg(s);
    } else {
        lemma_digits_val_mono(s, i + 1);
        lemma_digits_val_take_step(s, i);
        lemma_digits_val_nonneg(s.take(i));
    }
}

pub proof fn lemma_digits_val_nonneg(s: Seq<u8>)
    requires
        all_digits(s),
    ensures
        digits_val(s) >= 0,
    decreases s.len(),
{
    if s.len() > 0 {
        assert(all_digits(s.drop_last()));
        lemma_digits_val_nonneg(s.drop_last());
    }
}

/// What a token denotes as an unsigned 8-bit integer: a non-empty string
/// of decimal digits whose value is at most 255 (leading zeros allowed),
/// or nothing.
pub open spec fn spec_parse_u8(s: Seq<u8>) -> Option<u8> {
    if s.len() >= 1 && all_digits(s) && digits_val(s) <= 255 {
        Some(digits_val(s) as u8)
    } else {
        None
    }
}

/// Parse a token as an unsigned 8-bit decimal integer.
pub fn parse_u8(s: &[u8]) -> (r: Option<u8>)
    ensures
        r == spec_parse_u8(s@),
{
    if s.len() == 0 {
        return None;
    }
    let mut acc: u16 = 0;
    let mut i: usize = 0;
    while i < s.len()
        invariant
            0 <= i <= s@.len(),
            forall|k: int| 0 <= k < i ==> is_digit(s@[k]),
            acc == digits_val(s@.take(i as int)),
            acc <= 255,
        decreases s@.len() - i,
    {
        let b = s[i];
        if b < 48 || b > 57 {
            return None;
        }
        proof {
            lemma_digits_val_take_step(s@, i as int);
        }
        let d: u16 = (b - 48) as u16;
        let next: u16 = acc * 10 + d;
        if next > 255 {
            proof {
                if all_digits(s@) {
                    lemma_digits_val_mono(s@, i + 1);
                }
            }
            return None;
        }
        acc = next;
        i = i + 1;
    }
    proof {
        assert(s@.take(i as int) =~= s@);
    }
    Some(acc as u8)
}

} // verus!
