//! Byte-level encoding primitives shared by every record and key codec:
//! joining and splitting on a separator byte, escaping arbitrary byte
//! strings so that they become separator-free, and a decimal codec for
//! unsigned numbers.  Each encoder comes with a proof that decoding
//! inverts it.

use vstd::prelude::*;
use vstd::string::StrSliceExecFns;

verus! {

/// Separator between the components of one encoded identifier.
pub const UNIT_SEP: u8 = 0x1F;

/// Separator between the entries of one encoded record.
pub const REC_SEP: u8 = 0x1E;

/// Escape byte used to make arbitrary byte strings separator-free.
pub const ESCAPE: u8 = 0x1B;

pub open spec fn sep_free(s: Seq<u8>, sep: u8) -> bool {
    forall|i: int| 0 <= i < s.len() ==> s[i] != sep
}

/// The parts joined with `sep` between consecutive parts.
pub open spec fn join_bytes(parts: Seq<Seq<u8>>, sep: u8) -> Seq<u8>
    decreases parts.len(),
{
    if parts.len() == 0 {
        Seq::empty()
    } else if parts.len() == 1 {
        parts[0]
    } else {
        parts[0] + seq![sep] + join_bytes(parts.drop_first(), sep)
    }
}

/// The maximal separator-free chunks of `s`; always at least one part,
/// and `n` separators yield `n + 1` parts.
pub open spec fn split_bytes(s: Seq<u8>, sep: u8) -> Seq<Seq<u8>>
    decreases s.len(),
{
    if s.len() == 0 {
        seq![Seq::<u8>::empty()]
    } else if s[0] == sep {
        seq![Seq::<u8>::empty()] + split_bytes(s.drop_first(), sep)
    } else {
        let r = split_bytes(s.drop_first(), sep);
        seq![seq![s[0]] + r[0]] + r.drop_first()
    }
}

pub proof fn lemma_split_len(s: Seq<u8>, sep: u8)
    ensures
        split_bytes(s, sep).len() >= 1,
    decreases s.len(),
{
    if s.len() != 0 {
        lemma_split_len(s.drop_first(), sep);
    }
}

/// Splitting a separator-free string yields exactly that one part.
pub proof fn lemma_split_sep_free(s: Seq<u8>, sep: u8)
    requires
        sep_free(s, sep),
    ensures
        split_bytes(s, sep) =~~= seq![s],
    decreases s.len(),
{
    if s.len() != 0 {
        assert(sep_free(s.drop_first(), sep));
        lemma_split_sep_free(s.drop_first(), sep);
        assert(seq![s[0]] + s.drop_first() =~= s);
    }
}

/// Splitting `a + [sep] + t` with `a` separator-free peels off `a`.
pub proof fn lemma_split_prefix(a: Seq<u8>, t: Seq<u8>, sep: u8)
    requires
        sep_free(a, sep),
    ensures
        split_bytes(a + seq![sep] + t, sep) =~~= seq![a] + split_bytes(t, sep),
    decreases a.len(),
{
    let s = a + seq![sep] + t;
    if a.len() == 0 {
        assert(s =~= seq![sep] + t);
        assert(s[0] == sep);
        assert(s.drop_first() =~= t);
    } else {
        assert(s[0] == a[0]);
        assert(s[0] != sep);
        assert(sep_free(a.drop_first(), sep));
        lemma_split_prefix(a.drop_first(), t, sep);
        assert(s.drop_first() =~= a.drop_first() + seq![sep] + t);
        let r = split_bytes(s.drop_first(), sep);
        lemma_split_len(t, sep);
        assert(r =~~= seq![a.drop_first()] + split_bytes(t, sep));
        assert(seq![s[0]] + r[0] =~= a);
        assert(r.drop_first() =~~= split_bytes(t, sep));
    }
}

/// Round trip: splitting a join of separator-free parts restores the parts.
pub proof fn lemma_split_join(parts: Seq<Seq<u8>>, sep: u8)
    requires
        parts.len() >= 1,
        forall|i: int| 0 <= i < parts.len() ==> sep_free(#[trigger] parts[i], sep),
    ensures
        split_bytes(join_bytes(parts, sep), sep) =~~= parts,
    decreases parts.len(),
{
    if parts.len() == 1 {
        lemma_split_sep_free(parts[0], sep);
    } else {
        lemma_split_join(parts.drop_first(), sep);
        lemma_split_prefix(parts[0], join_bytes(parts.drop_first(), sep), sep);
    }
}

fn split_from(s: &Vec<u8>, sep: u8, i: usize) -> (r: Vec<Vec<u8>>)
    requires
        i <= s.len(),
    ensures
        r.deep_view() == split_bytes(s@.skip(i as int), sep),
    decreases s.len() - i,
{
    if i == s.len() {
        let mut r: Vec<Vec<u8>> = Vec::new();
        r.push(Vec::new());
        proof {
            assert(s@.skip(i as int) =~= Seq::<u8>::empty());
            assert(r.deep_view() =~~= split_bytes(s@.skip(i as int), sep));
        }
        r
    } else {
        let b = s[i];
        let tail = split_from(s, sep, i + 1);
        let ghost whole = s@.skip(i as int);
        proof {
            assert(whole[0] == s@[i as int]);
            assert(whole.drop_first() =~= s@.skip(i as int + 1));
        }
        if b == sep {
            let mut r = tail;
            r.insert(0, Vec::new());
            proof {
                assert(r.deep_view() =~~= split_bytes(whole, sep));
            }
            r
        } else {
            let mut r = tail;
            proof {
                lemma_split_len(s@.skip(i as int + 1), sep);
            }
            let mut first = r.remove(0);
            first.insert(0, b);
            r.insert(0, first);
            proof {
                assert(r.deep_view() =~~= split_bytes(whole, sep));
            }
            r
        }
    }
}

/// Splits `s` into its maximal separator-free chunks.
pub fn split_vec(s: &Vec<u8>, sep: u8) -> (r: Vec<Vec<u8>>)
    ensures
        r.deep_view() == split_bytes(s@, sep),
        r.len() >= 1,
{
    let r = split_from(s, sep, 0);
    proof {
        assert(s@.skip(0) =~= s@);
        lemma_split_len(s@, sep);
    }
    r
}

fn join_from(parts: &Vec<Vec<u8>>, sep: u8, i: usize) -> (r: Vec<u8>)
    requires
        i <= parts.len(),
    ensures
        r@ == join_bytes(parts.deep_view().skip(i as int), sep),
    decreases parts.len() - i,
{
    let ghost rest = parts.deep_view().skip(i as int);
    if i == parts.len() {
        proof {
            assert(rest =~= Seq::<Seq<u8>>::empty());
        }
        Vec::new()
    } else if i + 1 == parts.len() {
        let r = parts[i].clone();
        proof {
            assert(rest.len() == 1);
            assert(rest[0] == parts.deep_view()[i as int]);
            assert(r@ == parts.deep_view()[i as int]);
        }
        r
    } else {
        let mut r = parts[i].clone();
        r.push(sep);
        let mut tail = join_from(parts, sep, i + 1);
        r.append(&mut tail);
        proof {
            assert(rest[0] == parts.deep_view()[i as int]);
            assert(rest.drop_first() =~= parts.deep_view().skip(i as int + 1));
            assert(r@ =~= join_bytes(rest, sep));
        }
        r
    }
}

/// Joins the parts with `sep` between consecutive parts.
pub fn join_vec(parts: &Vec<Vec<u8>>, sep: u8) -> (r: Vec<u8>)
    ensures
        r@ == join_bytes(parts.deep_view(), sep),
{
    let r = join_from(parts, sep, 0);
    proof {
        assert(parts.deep_view().skip(0) =~= parts.deep_view());
    }
    r
}

/// One byte of the escaped form: the escape byte and the two separators
/// are written as `ESCAPE` followed by the byte shifted up by 0x40;
/// every other byte stands for itself.
pub open spec fn esc_byte(b: u8) -> Seq<u8> {
    if b == ESCAPE || b == UNIT_SEP || b == REC_SEP {
        seq![ESCAPE, (b + 0x40) as u8]
    } else {
        seq![b]
    }
}

pub open spec fn escape_bytes(s: Seq<u8>) -> Seq<u8>
    decreases s.len(),
{
    if s.len() == 0 {
        Seq::empty()
    } else {
        esc_byte(s[0]) + escape_bytes(s.drop_first())
    }
}

pub open spec fn is_escape_code(b: u8) -> bool {
    b == 0x5B || b == 0x5E || b == 0x5F
}

pub open spec fn unescape_bytes(s: Seq<u8>) -> Option<Seq<u8>>
    decreases s.len(),
{
    if s.len() == 0 {
        Some(Seq::empty())
    } else if s[0] == ESCAPE {
        if s.len() >= 2 && is_escape_code(s[1]) {
            match unescape_bytes(s.skip(2)) {
                Some(t) => Some(seq![(s[1] - 0x40) as u8] + t),
                None => None,
            }
        } else {
            None
        }
    } else {
        match unescape_bytes(s.drop_first()) {
            Some(t) => Some(seq![s[0]] + t),
            None => None,
        }
    }
}

/// Escaped strings are free of both separators.
pub proof fn lemma_escape_sep_free(s: Seq<u8>)
    ensures
        sep_free(escape_bytes(s), UNIT_SEP),
        sep_free(escape_bytes(s), REC_SEP),
    decreases s.len(),
{
    if s.len() != 0 {
        lemma_escape_sep_free(s.drop_first());
        assert forall|i: int| 0 <= i < escape_bytes(s).len() implies escape_bytes(s)[i]
            != UNIT_SEP && escape_bytes(s)[i] != REC_SEP by {
            let head = esc_byte(s[0]);
            if i >= head.len() {
                assert(escape_bytes(s)[i] == escape_bytes(s.drop_first())[i - head.len()]);
            }
        }
    }
}

/// Round trip: unescaping an escaped string restores it.
pub proof fn lemma_unescape_escape(s: Seq<u8>)
    ensures
        unescape_bytes(escape_bytes(s)) == Some(s),
    decreases s.len(),
{
    if s.len() == 0 {
        assert(escape_bytes(s) =~= Seq::<u8>::empty());
    } else {
        lemma_unescape_escape(s.drop_first());
        let e = escape_bytes(s);
        let head = esc_byte(s[0]);
        if s[0] == ESCAPE || s[0] == UNIT_SEP || s[0] == REC_SEP {
            assert(e[0] == ESCAPE);
            assert(e[1] == (s[0] + 0x40) as u8);
            assert(is_escape_code(e[1]));
            assert(e.skip(2) =~= escape_bytes(s.drop_first()));
            assert(unescape_bytes(e).unwrap() =~= s);
        } else {
            assert(e[0] == s[0]);
            assert(e.drop_first() =~= escape_bytes(s.drop_first()));
            assert(unescape_bytes(e).unwrap() =~= s);
        }
    }
}

/// Escapes a byte string so that it contains neither separator.
pub fn escape_vec(s: &Vec<u8>) -> (r: Vec<u8>)
    ensures
        r@ == escape_bytes(s@),
{
    let r = escape_from(s, 0);
    proof {
        assert(s@.skip(0) =~= s@);
    }
    r
}

fn escape_from(s: &Vec<u8>, i: usize) -> (r: Vec<u8>)
    requires
        i <= s.len(),
    ensures
        r@ == escape_bytes(s@.skip(i as int)),
    decreases s.len() - i,
{
    let ghost rest = s@.skip(i as int);
    if i == s.len() {
        proof {
            assert(rest =~= Seq::<u8>::empty());
        }
        Vec::new()
    } else {
        let b = s[i];
        let mut r = escape_from(s, i + 1);
        proof {
            assert(rest[0] == s@[i as int]);
            assert(rest.drop_first() =~= s@.skip(i as int + 1));
        }
        if b == ESCAPE || b == UNIT_SEP || b == REC_SEP {
            r.insert(0, b + 0x40);
            r.insert(0, ESCAPE);
        } else {
            r.insert(0, b);
        }
        proof {
            assert(r@ =~= escape_bytes(rest));
        }
        r
    }
}

/// Undoes [`escape_vec`]; `None` on a malformed escape sequence.
pub fn unescape_vec(s: &Vec<u8>) -> (r: Option<Vec<u8>>)
    ensures
        match r {
            Some(v) => unescape_bytes(s@) == Some(v@),
            None => unescape_bytes(s@) is None,
        },
{
    let r = unescape_from(s, 0);
    proof {
        assert(s@.skip(0) =~= s@);
    }
    r
}

fn unescape_from(s: &Vec<u8>, i: usize) -> (r: Option<Vec<u8>>)
    requires
        i <= s.len(),
    ensures
        match r {
            Some(v) => unescape_bytes(s@.skip(i as int)) == Some(v@),
            None => unescape_bytes(s@.skip(i as int)) is None,
        },
    decreases s.len() - i,
{
    let ghost rest = s@.skip(i as int);
    if i == s.len() {
        proof {
            assert(rest =~= Seq::<u8>::empty());
        }
        Some(Vec::new())
    } else {
        let b = s[i];
        proof {
            assert(rest[0] == s@[i as int]);
        }
        if b == ESCAPE {
            if i + 1 == s.len() {
                return None;
            }
            let code = s[i + 1];
            proof {
                assert(rest.len() >= 2);
                assert(rest[1] == s@[i as int + 1]);
            }
            if !(code == 0x5B || code == 0x5E || code == 0x5F) {
                return None;
            }
            let tail = unescape_from(s, i + 2);
            proof {
                assert(rest.skip(2) =~= s@.skip(i as int + 2));
            }
            match tail {
                Some(mut v) => {
                    v.insert(0, code - 0x40);
                    proof {
                        assert(v@ =~= unescape_bytes(rest).unwrap());
                    }
                    Some(v)
                },
                None => None,
            }
        } else {
            let tail = unescape_from(s, i + 1);
            proof {
                assert(rest.drop_first() =~= s@.skip(i as int + 1));
            }
            match tail {
                Some(mut v) => {
                    v.insert(0, b);
                    proof {
                        assert(v@ =~= unescape_bytes(rest).unwrap());
                    }
                    Some(v)
                },
                None => None,
            }
        }
    }
}

pub open spec fn is_digit(b: u8) -> bool {
    0x30 <= b <= 0x39
}

pub open spec fn digit_val(b: u8) -> nat {
    (b - 0x30) as nat
}

pub open spec fn is_digit_seq(s: Seq<u8>) -> bool {
    forall|i: int| 0 <= i < s.len() ==> is_digit(#[trigger] s[i])
}

/// The number a digit string denotes, most significant digit first.
pub open spec fn digits_val(s: Seq<u8>) -> nat
    decreases s.len(),
{
    if s.len() == 0 {
        0
    } else {
        digits_val(s.drop_last()) * 10 + digit_val(s.last())
    }
}

/// The decimal digit string of `n`, without leading zeros.
pub open spec fn dec_digits(n: nat) -> Seq<u8>
    decreases n,
{
    if n < 10 {
        seq![(0x30 + n) as u8]
    } else {
        dec_digits(n / 10) + seq![(0x30 + n % 10) as u8]
    }
}

/// A decimal digit string parsed as a `u64`; `None` when the string is
/// empty, holds a non-digit, or denotes a number above `u64::MAX`.
pub open spec fn parse_u64(s: Seq<u8>) -> Option<u64> {
    if s.len() > 0 && is_digit_seq(s) && digits_val(s) <= u64::MAX {
        Some(digits_val(s) as u64)
    } else {
        None
    }
}

/// Round trip: the digit string of `n` parses back to `n`.
pub proof fn lemma_dec_digits_val(n: nat)
    ensures
        dec_digits(n).len() >= 1,
        is_digit_seq(dec_digits(n)),
        digits_val(dec_digits(n)) == n,
    decreases n,
{
    if n < 10 {
        let d = dec_digits(n);
        assert(d =~= seq![(0x30 + n) as u8]);
        assert(d.len() == 1);
        assert(digits_val(d) == digits_val(d.drop_last()) * 10 + digit_val(d.last()));
        assert(d.drop_last() =~= Seq::<u8>::empty());
        assert(digits_val(d.drop_last()) == 0);
        assert(d.last() == (0x30 + n) as u8);
        assert(digit_val((0x30 + n) as u8) == n);
    } else {
        lemma_dec_digits_val(n / 10);
        let d = dec_digits(n);
        assert(d.drop_last() =~= dec_digits(n / 10));
        assert(d.last() == (0x30 + n % 10) as u8);
        assert(digits_val(d) == (n / 10) * 10 + n % 10);
        assert((n / 10) * 10 + n % 10 == n) by {
            vstd::arithmetic::div_mod::lemma_fundamental_div_mod(n as int, 10);
        }
    }
}

/// `n` written in decimal.
pub fn dec_of_u64(n: u64) -> (r: Vec<u8>)
    ensures
        r@ == dec_digits(n as nat),
    decreases n,
{
    if n < 10 {
        let mut r: Vec<u8> = Vec::new();
        r.push(0x30 + n as u8);
        proof {
            assert(r@ =~= dec_digits(n as nat));
        }
        r
    } else {
        let mut r = dec_of_u64(n / 10);
        r.push(0x30 + (n % 10) as u8);
        proof {
            assert(r@ =~= dec_digits(n as nat));
        }
        r
    }
}

/// Parses a decimal digit string as a `u64`.
#[verifier::loop_isolation(false)]
pub fn parse_dec_u64(s: &Vec<u8>) -> (r: Option<u64>)
    ensures
        r == parse_u64(s@),
{
    if s.len() == 0 {
        return None;
    }
    let mut acc: u64 = 0;
    let mut i: usize = 0;
    while i < s.len()
        invariant
            i <= s.len(),
            s.len() >= 1,
            is_digit_seq(s@.take(i as int)),
            acc == digits_val(s@.take(i as int)),
        decreases s.len() - i,
    {
        let b = s[i];
        if b < 0x30 || b > 0x39 {
            proof {
                assert(!is_digit(s@[i as int]));
            }
            return None;
        }
        let d = b - 0x30;
        proof {
            assert(s@.take(i as int + 1).drop_last() =~= s@.take(i as int));
            assert(s@.take(i as int + 1).last() == s@[i as int]);
        }
        if acc > (u64::MAX - d as u64) / 10 {
            proof {
                let over = s@.take(i as int + 1);
                assert(digits_val(over) > u64::MAX);
                lemma_digits_val_prefix_le(s@, i as int + 1);
            }
            return None;
        }
        acc = acc * 10 + d as u64;
        i = i + 1;
    }
    proof {
        assert(s@.take(i as int) =~= s@);
    }
    Some(acc)
}

/// The value of a digit string is at least the value of any prefix.
proof fn lemma_digits_val_prefix_le(s: Seq<u8>, j: int)
    requires
        0 <= j <= s.len(),
    ensures
        digits_val(s.take(j)) <= digits_val(s),
    decreases s.len() - j,
{
    if j < s.len() {
        lemma_digits_val_prefix_le(s, j + 1);
        assert(s.take(j + 1).drop_last() =~= s.take(j));
        assert(digits_val(s.take(j + 1)) == digits_val(s.take(j)) * 10 + digit_val(
            s.take(j + 1).last(),
        ));
        assert(digits_val(s.take(j)) * 10 >= digits_val(s.take(j)));
    } else {
        assert(s.take(j) =~= s);
    }
}

/// Joining the parts of a split restores the original string.
pub proof fn lemma_join_split(s: Seq<u8>, sep: u8)
    ensures
        join_bytes(split_bytes(s, sep), sep) =~= s,
    decreases s.len(),
{
    if s.len() == 0 {
    } else if s[0] == sep {
        lemma_join_split(s.drop_first(), sep);
        lemma_split_len(s.drop_first(), sep);
        let parts = split_bytes(s, sep);
        assert(parts.drop_first() =~~= split_bytes(s.drop_first(), sep));
        assert(join_bytes(parts, sep) =~= seq![sep] + join_bytes(parts.drop_first(), sep));
    } else {
        lemma_join_split(s.drop_first(), sep);
        lemma_split_len(s.drop_first(), sep);
        let r = split_bytes(s.drop_first(), sep);
        let parts = split_bytes(s, sep);
        assert(parts[0] == seq![s[0]] + r[0]);
        assert(parts.drop_first() =~~= r.drop_first());
        if r.len() == 1 {
            assert(join_bytes(r, sep) == r[0]);
            assert(parts.len() == 1);
            assert(join_bytes(parts, sep) =~= seq![s[0]] + s.drop_first());
        } else {
            assert(join_bytes(parts, sep) =~= seq![s[0]] + join_bytes(r, sep));
        }
    }
}

/// Every part of a split is separator-free.
pub proof fn lemma_split_parts_sep_free(s: Seq<u8>, sep: u8)
    ensures
        forall|i: int|
            0 <= i < split_bytes(s, sep).len() ==> sep_free(
                #[trigger] split_bytes(s, sep)[i],
                sep,
            ),
    decreases s.len(),
{
    if s.len() == 0 {
    } else if s[0] == sep {
        lemma_split_parts_sep_free(s.drop_first(), sep);
    } else {
        lemma_split_parts_sep_free(s.drop_first(), sep);
        lemma_split_len(s.drop_first(), sep);
        let r = split_bytes(s.drop_first(), sep);
        let parts = split_bytes(s, sep);
        assert forall|i: int| 0 <= i < parts.len() implies sep_free(#[trigger] parts[i], sep) by {
            if i == 0 {
                assert(parts[0] == seq![s[0]] + r[0]);
                assert(sep_free(r[0], sep));
                assert forall|j: int| 0 <= j < parts[0].len() implies parts[0][j] != sep by {
                    if j > 0 {
                        assert(parts[0][j] == r[0][j - 1]);
                    }
                }
            } else {
                assert(parts[i] == r[i]);
            }
        }
    }
}

/// The deep view of a byte vector is its view.
pub broadcast proof fn lemma_vec_u8_deep_view(v: Vec<u8>)
    ensures
        #[trigger] v.deep_view() == v@,
{
    assert(v.deep_view() =~= v@);
}

/// Whether `b` occurs in `s`.
#[verifier::loop_isolation(false)]
pub fn bytes_has(s: &Vec<u8>, b: u8) -> (r: bool)
    ensures
        r == !sep_free(s@, b),
{
    let mut i: usize = 0;
    while i < s.len()
        invariant
            i <= s.len(),
            forall|j: int| 0 <= j < i ==> s@[j] != b,
        decreases s.len() - i,
    {
        if s[i] == b {
            return true;
        }
        i = i + 1;
    }
    false
}

/// The UTF-8 bytes of `s`.
pub fn str_to_bytes(s: &str) -> (r: Vec<u8>)
    ensures
        r@ == vstd::utf8::encode_utf8(s@),
{
    s.as_bytes_vec()
}

/// Relies on std's `String::from_utf8`: it succeeds exactly on valid
/// UTF-8 input and returns the string that those bytes encode.
#[verifier::external_body]
pub(crate) fn string_from_utf8(v: &Vec<u8>) -> (r: Option<String>)
    ensures
        match r {
            Some(s) => vstd::utf8::encode_utf8(s@) == v@,
            None => !vstd::utf8::valid_utf8(v@),
        },
{
    String::from_utf8(v.clone()).ok()
}

/// Byte-for-byte equality of two byte vectors.
#[verifier::loop_isolation(false)]
pub fn bytes_eq(a: &Vec<u8>, b: &Vec<u8>) -> (r: bool)
    ensures
        r == (a@ == b@),
{
    if a.len() != b.len() {
        return false;
    }
    let mut i: usize = 0;
    while i < a.len()
        invariant
            i <= a.len(),
            a@.len() == b@.len(),
            forall|j: int| 0 <= j < i ==> a@[j] == b@[j],
        decreases a.len() - i,
    {
        if a[i] != b[i] {
            return false;
        }
        i = i + 1;
    }
    proof {
        assert(a@ =~= b@);
    }
    true
}

/// Character-for-character string equality, specified over the views.
#[verifier::loop_isolation(false)]
pub fn str_eq(a: &str, b: &str) -> (r: bool)
    ensures
        r == (a@ == b@),
{
    let alen = a.unicode_len();
    let blen = b.unicode_len();
    if alen != blen {
        return false;
    }
    let mut i: usize = 0;
    while i < alen
        invariant
            i <= alen,
            alen == a@.len(),
            alen == b@.len(),
            forall|j: int| 0 <= j < i ==> a@[j] == b@[j],
        decreases alen - i,
    {
        if a.get_char(i) != b.get_char(i) {
            return false;
        }
        i = i + 1;
    }
    proof {
        assert(a@ =~= b@);
    }
    true
}

} // verus!
