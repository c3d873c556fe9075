//! The error taxonomy of the value-balance binding-signature protocol
//! built on the commitment gadgets, and its conversions to and from
//! generic error representations.
//!
//! The closed set of failure kinds is `BindingSignatureError`.  Every
//! variant converts to a `GenericError` record — a numeric failure code, a
//! source tag, a message and machine payloads — and back without losing its
//! discriminant or its structured payload; `lemma_error_round_trip` states
//! that exactly.  The conversions through `std::io::Error` carry the
//! structure as rendered text: `describe` pins each structured variant's
//! text, `from_description` provably recovers the variant and its payload
//! from that text, and `lemma_description_round_trip` ties the two
//! together.

use vstd::prelude::*;
use vstd::string::StringExecFns;

use crate::pedersen::CommitmentError;

verus! {

#[verifier::external_type_specification]
#[verifier::external_body]
pub struct ExAnyhowError(anyhow::Error);

#[verifier::external_type_specification]
#[verifier::external_body]
pub struct ExIoError(std::io::Error);

/// Failure of a value-balance binding-signature computation.  Each variant
/// is a terminal, owned value; all failures here are deterministic
/// functions of their inputs, so none is recoverable by retrying the same
/// inputs.
#[derive(Debug)]
pub enum BindingSignatureError {
    /// An uncategorized failure from a lower layer.
    AnyhowError(anyhow::Error),
    /// The underlying commitment scheme rejected an operation.
    CommitmentError(CommitmentError),
    /// A failure attributable to a named subsystem: source tag and message.
    Crate(String, String),
    /// An ad hoc failure without a structured cause.
    Message(String),
    /// A point presented as a commitment output is not in the curve's
    /// prime-order subgroup; carries the offending point's encoding.
    NotInCorrectSubgroupOnCurve(Vec<u8>),
    /// The proved value balance falls outside the protocol's permitted
    /// range; carries the offending balance.
    OutOfBounds(i64),
}

/// A generic "operation failed" record for embedding in non-specialized
/// error contexts: a numeric failure code, a source tag, a human-readable
/// message, and the machine payloads a structured failure carries.
#[derive(Clone, Debug)]
pub struct GenericError {
    pub code: u64,
    pub source: String,
    pub message: String,
    pub point: Vec<u8>,
    pub balance: i64,
    pub length: usize,
}

/// The failure code of each variant in the generic representation.
pub open spec fn variant_code(e: BindingSignatureError) -> int {
    match e {
        BindingSignatureError::AnyhowError(_) => 1,
        BindingSignatureError::CommitmentError(_) => 2,
        BindingSignatureError::Crate(_, _) => 3,
        BindingSignatureError::Message(_) => 4,
        BindingSignatureError::NotInCorrectSubgroupOnCurve(_) => 5,
        BindingSignatureError::OutOfBounds(_) => 6,
    }
}

/// The generic record `g` faithfully represents the error `e`: it carries
/// `e`'s failure code, and the structured payload of every variant whose
/// content the error itself determines.  (The wrapped foreign cause of
/// `AnyhowError` only surfaces as whatever message its own formatting
/// reports.)
pub open spec fn represents(e: BindingSignatureError, g: GenericError) -> bool {
    &&& g.code == variant_code(e)
    &&& match e {
        BindingSignatureError::AnyhowError(_) => true,
        BindingSignatureError::CommitmentError(c) => c matches CommitmentError::IncorrectInputLength(
            n,
        ) && g.length == n,
        BindingSignatureError::Crate(s, m) => g.source@ == s@ && g.message@ == m@,
        BindingSignatureError::Message(m) => g.message@ == m@,
        BindingSignatureError::NotInCorrectSubgroupOnCurve(p) => g.point@ == p@,
        BindingSignatureError::OutOfBounds(b) => g.balance == b,
    }
}

/// The error `r` is what recovering from the generic record `g` yields:
/// the variant named by `g`'s code, rebuilt from `g`'s payloads, with
/// unknown codes collapsing to the free-form `Message` variant.
pub open spec fn recovers(g: GenericError, r: BindingSignatureError) -> bool {
    if g.code == 1 {
        r matches BindingSignatureError::AnyhowError(_)
    } else if g.code == 2 {
        r matches BindingSignatureError::CommitmentError(c)
            && c matches CommitmentError::IncorrectInputLength(n) && n == g.length
    } else if g.code == 3 {
        r matches BindingSignatureError::Crate(s, m) && s@ == g.source@ && m@ == g.message@
    } else if g.code == 4 {
        r matches BindingSignatureError::Message(m) && m@ == g.message@
    } else if g.code == 5 {
        r matches BindingSignatureError::NotInCorrectSubgroupOnCurve(p) && p@ == g.point@
    } else if g.code == 6 {
        r matches BindingSignatureError::OutOfBounds(b) && b == g.balance
    } else {
        r matches BindingSignatureError::Message(m) && m@ == g.message@
    }
}

/// The two errors agree on their discriminant and on every structured
/// payload; only the opaque foreign cause of `AnyhowError` is compared by
/// discriminant alone.
pub open spec fn same_error_content(e: BindingSignatureError, r: BindingSignatureError) -> bool {
    &&& variant_code(r) == variant_code(e)
    &&& match e {
        BindingSignatureError::AnyhowError(_) => true,
        BindingSignatureError::CommitmentError(c) => r matches BindingSignatureError::CommitmentError(
            c2,
        ) && c2 == c,
        BindingSignatureError::Crate(s, m) => r matches BindingSignatureError::Crate(s2, m2) && s2@
            == s@ && m2@ == m@,
        BindingSignatureError::Message(m) => r matches BindingSignatureError::Message(m2) && m2@
            == m@,
        BindingSignatureError::NotInCorrectSubgroupOnCurve(p) => r matches BindingSignatureError::NotInCorrectSubgroupOnCurve(
            p2,
        ) && p2@ == p@,
        BindingSignatureError::OutOfBounds(b) => r matches BindingSignatureError::OutOfBounds(b2)
            && b2 == b,
    }
}

/// Round trip through the generic representation: converting any error to
/// a generic record and recovering an error from that record preserves the
/// discriminant and every structured payload.
pub proof fn lemma_error_round_trip(
    e: BindingSignatureError,
    g: GenericError,
    r: BindingSignatureError,
)
    requires
        represents(e, g),
        recovers(g, r),
    ensures
        same_error_content(e, r),
{
}

/// Relies on anyhow's Display formatting of `anyhow::Error`: the
/// top-level message of the wrapped cause.
#[verifier::external_body]
fn anyhow_error_text(error: &anyhow::Error) -> String {
    format!("{}", error)
}

/// Relies on `anyhow::Error::msg`: wraps a plain message as an
/// `anyhow::Error`.
#[verifier::external_body]
fn anyhow_error_from_text(message: &String) -> anyhow::Error {
    anyhow::Error::msg(message.clone())
}

/// Relies on std's Display formatting of `std::io::Error`: the error's
/// message — for an error built by `std::io::Error::new`, the text it was
/// built from.
#[verifier::external_body]
fn io_error_message(error: &std::io::Error) -> String {
    format!("{}", error)
}

/// Relies on `std::io::Error::new`: wraps a plain message as an I/O error
/// of kind `Other`.
#[verifier::external_body]
fn io_error_from_text(message: String) -> std::io::Error {
    std::io::Error::new(std::io::ErrorKind::Other, message)
}

/// The character of one decimal digit.
pub open spec fn decimal_digit(d: int) -> char {
    if d == 0 {
        '0'
    } else if d == 1 {
        '1'
    } else if d == 2 {
        '2'
    } else if d == 3 {
        '3'
    } else if d == 4 {
        '4'
    } else if d == 5 {
        '5'
    } else if d == 6 {
        '6'
    } else if d == 7 {
        '7'
    } else if d == 8 {
        '8'
    } else {
        '9'
    }
}

/// The decimal rendering of a nonnegative integer, most significant digit
/// first.
pub open spec fn decimal_of_nat(n: int) -> Seq<char>
    decreases n,
{
    if n < 10 {
        seq![decimal_digit(n)]
    } else {
        decimal_of_nat(n / 10).push(decimal_digit(n % 10))
    }
}

/// The decimal rendering of a signed balance: a minus sign before the
/// magnitude when it is negative.
pub open spec fn decimal_of_int(v: int) -> Seq<char> {
    if v < 0 {
        seq!['-'] + decimal_of_nat(-v)
    } else {
        decimal_of_nat(v)
    }
}

/// The rendering of the first `j` bytes of a point encoding: decimal
/// values separated by ", ".
pub open spec fn byte_items_text(s: Seq<u8>, j: int) -> Seq<char>
    decreases j,
{
    if j <= 0 {
        Seq::empty()
    } else if j == 1 {
        decimal_of_nat(s[0] as int)
    } else {
        byte_items_text(s, j - 1) + seq![',', ' '] + decimal_of_nat(s[j - 1] as int)
    }
}

/// The rendering of a point encoding: the byte values in brackets, as the
/// offending point appears in the error text.
pub open spec fn point_encoding_text(s: Seq<u8>) -> Seq<char> {
    seq!['['] + byte_items_text(s, s.len() as int) + seq![']']
}

/// The numeric value of a decimal digit character, negative for any other
/// character.
pub open spec fn digit_value(c: char) -> int {
    if c == '0' {
        0
    } else if c == '1' {
        1
    } else if c == '2' {
        2
    } else if c == '3' {
        3
    } else if c == '4' {
        4
    } else if c == '5' {
        5
    } else if c == '6' {
        6
    } else if c == '7' {
        7
    } else if c == '8' {
        8
    } else if c == '9' {
        9
    } else {
        -1
    }
}

/// Every character of the sequence is a decimal digit.
pub open spec fn all_digits(t: Seq<char>) -> bool {
    forall|i: int| 0 <= i < t.len() ==> digit_value(#[trigger] t[i]) >= 0
}

/// The number a digit sequence denotes, read most significant digit
/// first, folded onto an accumulator.
pub open spec fn digits_fold(acc: int, t: Seq<char>) -> int
    decreases t.len(),
{
    if t.len() == 0 {
        acc
    } else {
        digits_fold(10 * acc + digit_value(t[0]), t.skip(1))
    }
}

/// Folding a concatenation folds the parts in order.
proof fn lemma_digits_fold_concat(acc: int, t1: Seq<char>, t2: Seq<char>)
    ensures
        digits_fold(acc, t1 + t2) == digits_fold(digits_fold(acc, t1), t2),
    decreases t1.len(),
{
    if t1.len() == 0 {
        assert(t1 + t2 =~= t2);
    } else {
        assert((t1 + t2).skip(1) =~= t1.skip(1) + t2);
        lemma_digits_fold_concat(10 * acc + digit_value(t1[0]), t1.skip(1), t2);
    }
}

/// Folding digits never decreases a nonnegative accumulator.
proof fn lemma_digits_fold_lower_bound(acc: int, t: Seq<char>)
    requires
        0 <= acc,
        all_digits(t),
    ensures
        digits_fold(acc, t) >= acc,
    decreases t.len(),
{
    if t.len() > 0 {
        assert(digit_value(t[0]) >= 0);
        assert(all_digits(t.skip(1))) by {
            assert(forall|i: int|
                0 <= i < t.skip(1).len() ==> digit_value(#[trigger] t.skip(1)[i]) >= 0) by {
                assert(forall|i: int| 0 <= i < t.skip(1).len() ==> t.skip(1)[i] == t[i + 1]);
            }
        }
        lemma_digits_fold_lower_bound(10 * acc + digit_value(t[0]), t.skip(1));
    }
}

/// The decimal rendering of a nonnegative number is a nonempty digit
/// sequence that folds back to the number.
proof fn lemma_decimal_of_nat_digits(n: int)
    requires
        0 <= n,
    ensures
        all_digits(decimal_of_nat(n)),
        digits_fold(0, decimal_of_nat(n)) == n,
        decimal_of_nat(n).len() >= 1,
    decreases n,
{
    if n < 10 {
        assert(seq![decimal_digit(n)].skip(1) =~= Seq::<char>::empty());
        assert(digit_value(decimal_digit(n)) == n);
        assert(digits_fold(0, seq![decimal_digit(n)]) == digits_fold(
            digit_value(decimal_digit(n)),
            seq![decimal_digit(n)].skip(1),
        ));
    } else {
        lemma_decimal_of_nat_digits(n / 10);
        let head = decimal_of_nat(n / 10);
        let last = decimal_digit(n % 10);
        assert(head.push(last) =~= head + seq![last]);
        lemma_digits_fold_concat(0, head, seq![last]);
        assert(seq![last].skip(1) =~= Seq::<char>::empty());
        assert(digit_value(last) == n % 10);
        assert(digits_fold(digits_fold(0, head), seq![last]) == digits_fold(
            10 * digits_fold(0, head) + digit_value(last),
            seq![last].skip(1),
        ));
        vstd::arithmetic::div_mod::lemma_fundamental_div_mod(n, 10);
        assert(all_digits(head.push(last))) by {
            assert(forall|i: int|
                0 <= i < head.len() ==> digit_value(#[trigger] head.push(last)[i]) >= 0) by {
                assert(forall|i: int| 0 <= i < head.len() ==> head.push(last)[i] == head[i]);
            }
        }
    }
}

/// Character-for-character comparison of a slice of `text` with `other`.
fn text_eq_range(text: &str, from: usize, to: usize, other: &str) -> (r: bool)
    requires
        from <= to <= text@.len(),
    ensures
        r == (text@.subrange(from as int, to as int) == other@),
{
    let other_len: usize = other.unicode_len();
    if to - from != other_len {
        return false;
    }
    let mut k: usize = 0;
    while k < other_len
        invariant
            k <= other_len,
            from + other_len <= to <= text@.len(),
            to - from == other_len,
            other_len == other@.len(),
            forall|i: int| 0 <= i < k ==> text@[from + i] == other@[i],
        decreases other_len - k,
    {
        if text.get_char(from + k) != other.get_char(k) {
            return false;
        }
        k += 1;
    }
    proof {
        assert(text@.subrange(from as int, to as int) =~= other@);
    }
    true
}

/// Whether `text` begins with `prefix`.
fn text_starts_with(text: &str, prefix: &str) -> (r: bool)
    ensures
        r == (text@.len() >= prefix@.len() && text@.subrange(0, prefix@.len() as int)
            == prefix@),
{
    let text_len: usize = text.unicode_len();
    let prefix_len: usize = prefix.unicode_len();
    if text_len < prefix_len {
        return false;
    }
    text_eq_range(text, 0, prefix_len, prefix)
}

/// The numeric value of one character, or `None` for a non-digit.
fn char_digit(c: char) -> (r: Option<u64>)
    ensures
        match r {
            Some(v) => digit_value(c) == v && v < 10,
            None => digit_value(c) < 0,
        },
{
    if c == '0' {
        Some(0)
    } else if c == '1' {
        Some(1)
    } else if c == '2' {
        Some(2)
    } else if c == '3' {
        Some(3)
    } else if c == '4' {
        Some(4)
    } else if c == '5' {
        Some(5)
    } else if c == '6' {
        Some(6)
    } else if c == '7' {
        Some(7)
    } else if c == '8' {
        Some(8)
    } else if c == '9' {
        Some(9)
    } else {
        None
    }
}

/// Parses the characters of `text` from `from` to `to` as an unsigned
/// decimal number.  Returns the folded value exactly when the range is a
/// nonempty run of digits whose value fits in a `u64`.
fn parse_decimal_digits(text: &str, from: usize, to: usize) -> (r: Option<u64>)
    requires
        from <= to <= text@.len(),
    ensures
        match r {
            Some(v) => {
                &&& from < to
                &&& all_digits(text@.subrange(from as int, to as int))
                &&& v as int == digits_fold(0, text@.subrange(from as int, to as int))
            },
            None => {
                ||| !(from < to)
                ||| !all_digits(text@.subrange(from as int, to as int))
                ||| digits_fold(0, text@.subrange(from as int, to as int)) > u64::MAX as int
            },
        },
{
    if from >= to {
        return None;
    }
    let ghost seg = text@.subrange(from as int, to as int);
    let mut acc: u64 = 0;
    let mut j: usize = from;
    while j < to
        invariant
            from <= j <= to <= text@.len(),
            from < to,
            seg == text@.subrange(from as int, to as int),
            all_digits(text@.subrange(from as int, j as int)),
            acc as int == digits_fold(0, text@.subrange(from as int, j as int)),
        decreases to - j,
    {
        let c = text.get_char(j);
        let ghost pref = text@.subrange(from as int, j as int);
        let ghost pref1 = text@.subrange(from as int, j as int + 1);
        proof {
            assert(pref1 =~= pref + seq![text@[j as int]]);
            lemma_digits_fold_concat(0, pref, seq![text@[j as int]]);
            assert(seq![text@[j as int]].skip(1) =~= Seq::<char>::empty());
            assert(digits_fold(digits_fold(0, pref), seq![text@[j as int]]) == digits_fold(
                10 * digits_fold(0, pref) + digit_value(text@[j as int]),
                seq![text@[j as int]].skip(1),
            ));
            assert(digits_fold(0, pref1) == 10 * digits_fold(0, pref) + digit_value(
                text@[j as int],
            ));
        }
        let d: u64;
        match char_digit(c) {
            Some(v) => {
                d = v;
            },
            None => {
                proof {
                    assert(seg[j - from] == text@[j as int]);
                }
                return None;
            },
        }
        if acc > 1844674407370955161 || (acc == 1844674407370955161 && d > 5) {
            proof {
                assert(digits_fold(0, pref1) == 10 * acc + d);
                assert(10 * (acc as int) + d > u64::MAX as int);
                if all_digits(seg) {
                    let rest = text@.subrange(j as int + 1, to as int);
                    assert(seg =~= pref1 + rest);
                    lemma_digits_fold_concat(0, pref1, rest);
                    assert(all_digits(rest)) by {
                        assert(forall|i: int|
                            0 <= i < rest.len() ==> digit_value(#[trigger] rest[i]) >= 0) by {
                            assert(forall|i: int|
                                0 <= i < rest.len() ==> rest[i] == seg[i + (j - from) + 1]);
                        }
                    }
                    lemma_digits_fold_lower_bound(digits_fold(0, pref1), rest);
                }
            }
            return None;
        }
        let ghost acc_before = acc as int;
        acc = acc * 10 + d;
        proof {
            assert(acc as int == 10 * acc_before + d);
            assert(acc as int == digits_fold(0, pref1));
        }
        j += 1;
    }
    Some(acc)
}

/// Splitting a concatenation back into its parts.
proof fn lemma_text_concat_split(p: Seq<char>, s: Seq<char>, t: Seq<char>)
    requires
        t == p + s,
    ensures
        t.len() == p.len() + s.len(),
        t.subrange(0, p.len() as int) == p,
        t.subrange(p.len() as int, t.len() as int) == s,
{
    assert(t.subrange(0, p.len() as int) =~= p);
    assert(t.subrange(p.len() as int, t.len() as int) =~= s);
}

/// Shape of a signed decimal rendering: a nonnegative value renders as its
/// digits, a negative one as a minus sign before the magnitude's digits.
proof fn lemma_decimal_of_int_shape(v: int)
    ensures
        decimal_of_int(v).len() >= 1,
        v >= 0 ==> decimal_of_int(v) == decimal_of_nat(v) && all_digits(decimal_of_int(v))
            && digits_fold(0, decimal_of_int(v)) == v,
        v < 0 ==> decimal_of_int(v)[0] == '-' && decimal_of_int(v).subrange(
            1,
            decimal_of_int(v).len() as int,
        ) == decimal_of_nat(-v) && decimal_of_int(v).len() == 1 + decimal_of_nat(-v).len(),
{
    if v >= 0 {
        lemma_decimal_of_nat_digits(v);
    } else {
        lemma_decimal_of_nat_digits(-v);
        lemma_text_concat_split(seq!['-'], decimal_of_nat(-v), decimal_of_int(v));
    }
}

/// Parses a slice of `text` as the canonical decimal rendering of a `u64`:
/// succeeds exactly on the texts `decimal_of_nat` produces, and returns
/// the rendered value.
fn parse_canonical_u64(text: &str, from: usize, to: usize) -> (r: Option<u64>)
    requires
        from <= to <= text@.len(),
    ensures
        match r {
            Some(v) => text@.subrange(from as int, to as int) == decimal_of_nat(v as int),
            None => forall|v: u64|
                text@.subrange(from as int, to as int) != decimal_of_nat(v as int),
        },
{
    let ghost seg = text@.subrange(from as int, to as int);
    match parse_decimal_digits(text, from, to) {
        Some(m) => {
            let mut rendered = String::new();
            append_u64_decimal(&mut rendered, m);
            proof {
                assert(rendered@ =~= decimal_of_nat(m as int));
            }
            if text_eq_range(text, from, to, rendered.as_str()) {
                Some(m)
            } else {
                proof {
                    assert forall|v: u64| seg != decimal_of_nat(v as int) by {
                        if seg == decimal_of_nat(v as int) {
                            lemma_decimal_of_nat_digits(v as int);
                        }
                    }
                }
                None
            }
        },
        None => {
            proof {
                assert forall|v: u64| seg != decimal_of_nat(v as int) by {
                    if seg == decimal_of_nat(v as int) {
                        lemma_decimal_of_nat_digits(v as int);
                    }
                }
            }
            None
        },
    }
}

/// Recovers an out-of-bounds balance from its rendered text: succeeds
/// exactly on the texts `balance_text` produces, and returns the rendered
/// balance.
fn recover_balance(text: &str) -> (r: Option<i64>)
    ensures
        match r {
            Some(v) => text@ == balance_text(v as int),
            None => forall|b: i64| text@ != balance_text(b as int),
        },
{
    let prefix = "The value balance is out of bounds: ";
    let ghost pre = prefix@;
    proof {
        assert forall|b: i64| #[trigger] balance_text(b as int) == pre + decimal_of_int(
            b as int,
        ) by {}
    }
    if !text_starts_with(text, prefix) {
        proof {
            assert forall|b: i64| text@ != balance_text(b as int) by {
                if text@ == balance_text(b as int) {
                    lemma_text_concat_split(pre, decimal_of_int(b as int), text@);
                    lemma_decimal_of_int_shape(b as int);
                }
            }
        }
        return None;
    }
    let text_len: usize = text.unicode_len();
    let p_len: usize = prefix.unicode_len();
    if text_len == p_len {
        proof {
            assert forall|b: i64| text@ != balance_text(b as int) by {
                if text@ == balance_text(b as int) {
                    lemma_text_concat_split(pre, decimal_of_int(b as int), text@);
                    lemma_decimal_of_int_shape(b as int);
                }
            }
        }
        return None;
    }
    let first = text.get_char(p_len);
    if first == '-' {
        match parse_canonical_u64(text, p_len + 1, text_len) {
            Some(m) => {
                let ghost seg = text@.subrange(p_len + 1, text_len as int);
                if m == 0 {
                    proof {
                        assert forall|b: i64| text@ != balance_text(b as int) by {
                            if text@ == balance_text(b as int) {
                                lemma_text_concat_split(pre, decimal_of_int(b as int), text@);
                                lemma_decimal_of_int_shape(b as int);
                                lemma_decimal_of_nat_digits(0);
                                if b < 0 {
                                    assert(seg =~= decimal_of_int(b as int).subrange(
                                        1,
                                        decimal_of_int(b as int).len() as int,
                                    ));
                                    lemma_decimal_of_nat_digits(-(b as int));
                                }
                            }
                        }
                    }
                    None
                } else if m <= 9223372036854775807u64 {
                    let v: i64 = -(m as i64);
                    proof {
                        lemma_decimal_of_int_shape(v as int);
                        assert(text@ =~= balance_text(v as int));
                    }
                    Some(v)
                } else if m == 9223372036854775808u64 {
                    proof {
                        lemma_decimal_of_int_shape(i64::MIN as int);
                        assert(text@ =~= balance_text(i64::MIN as int));
                    }
                    Some(i64::MIN)
                } else {
                    proof {
                        assert forall|b: i64| text@ != balance_text(b as int) by {
                            if text@ == balance_text(b as int) {
                                lemma_text_concat_split(pre, decimal_of_int(b as int), text@);
                                lemma_decimal_of_int_shape(b as int);
                                if b < 0 {
                                    assert(seg =~= decimal_of_int(b as int).subrange(
                                        1,
                                        decimal_of_int(b as int).len() as int,
                                    ));
                                    lemma_decimal_of_nat_digits(-(b as int));
                                    lemma_decimal_of_nat_digits(m as int);
                                }
                            }
                        }
                    }
                    None
                }
            },
            None => {
                proof {
                    assert forall|b: i64| text@ != balance_text(b as int) by {
                        if text@ == balance_text(b as int) {
                            lemma_text_concat_split(pre, decimal_of_int(b as int), text@);
                            lemma_decimal_of_int_shape(b as int);
                            if b < 0 {
                                let mv: u64 = (-(b as int)) as u64;
                                assert(mv as int == -(b as int));
                                assert(text@.subrange(p_len + 1, text_len as int)
                                    =~= decimal_of_int(b as int).subrange(
                                    1,
                                    decimal_of_int(b as int).len() as int,
                                ));
                            }
                        }
                    }
                }
                None
            },
        }
    } else {
        match parse_canonical_u64(text, p_len, text_len) {
            Some(m) => {
                if m <= 9223372036854775807u64 {
                    let v: i64 = m as i64;
                    proof {
                        lemma_decimal_of_int_shape(v as int);
                        assert(text@ =~= balance_text(v as int));
                    }
                    Some(v)
                } else {
                    proof {
                        assert forall|b: i64| text@ != balance_text(b as int) by {
                            if text@ == balance_text(b as int) {
                                lemma_text_concat_split(pre, decimal_of_int(b as int), text@);
                                lemma_decimal_of_int_shape(b as int);
                                if b >= 0 {
                                    assert(text@.subrange(p_len as int, text_len as int)
                                        =~= decimal_of_int(b as int));
                                    lemma_decimal_of_nat_digits(b as int);
                                    lemma_decimal_of_nat_digits(m as int);
                                }
                            }
                        }
                    }
                    None
                }
            },
            None => {
                proof {
                    assert forall|b: i64| text@ != balance_text(b as int) by {
                        if text@ == balance_text(b as int) {
                            lemma_text_concat_split(pre, decimal_of_int(b as int), text@);
                            lemma_decimal_of_int_shape(b as int);
                            if b >= 0 {
                                let mv: u64 = (b as int) as u64;
                                assert(mv as int == b as int);
                                assert(text@.subrange(p_len as int, text_len as int)
                                    =~= decimal_of_int(b as int));
                            }
                        }
                    }
                }
                None
            },
        }
    }
}

/// Recovers a rejected input bit count from its rendered text: succeeds
/// exactly on the texts `input_length_text` produces.
fn recover_input_length(text: &str) -> (r: Option<usize>)
    ensures
        match r {
            Some(v) => text@ == input_length_text(v as int),
            None => forall|n: usize| text@ != input_length_text(n as int),
        },
{
    let prefix = "The input length is incorrect: ";
    let ghost pre = prefix@;
    if !text_starts_with(text, prefix) {
        proof {
            assert forall|n: usize| text@ != input_length_text(n as int) by {
                if text@ == input_length_text(n as int) {
                    lemma_text_concat_split(pre, decimal_of_nat(n as int), text@);
                }
            }
        }
        return None;
    }
    let text_len: usize = text.unicode_len();
    let p_len: usize = prefix.unicode_len();
    match parse_canonical_u64(text, p_len, text_len) {
        Some(m) => {
            if m <= usize::MAX as u64 {
                let v: usize = m as usize;
                proof {
                    assert(text@ =~= input_length_text(v as int));
                }
                Some(v)
            } else {
                proof {
                    assert forall|n: usize| text@ != input_length_text(n as int) by {
                        if text@ == input_length_text(n as int) {
                            lemma_text_concat_split(pre, decimal_of_nat(n as int), text@);
                            lemma_decimal_of_nat_digits(n as int);
                            lemma_decimal_of_nat_digits(m as int);
                            assert(text@.subrange(p_len as int, text_len as int)
                                =~= decimal_of_nat(n as int));
                        }
                    }
                }
                None
            }
        },
        None => {
            proof {
                assert forall|n: usize| text@ != input_length_text(n as int) by {
                    if text@ == input_length_text(n as int) {
                        lemma_text_concat_split(pre, decimal_of_nat(n as int), text@);
                        let mv: u64 = (n as int) as u64;
                        assert(mv as int == n as int);
                        assert(text@.subrange(p_len as int, text_len as int) =~= decimal_of_nat(
                            n as int,
                        ));
                    }
                }
            }
            None
        },
    }
}

/// The rendering of the first items only depends on those items.
proof fn lemma_items_depend_on_prefix(a: Seq<u8>, b: Seq<u8>, k: int)
    requires
        0 <= k <= a.len(),
        k <= b.len(),
        a.subrange(0, k) == b.subrange(0, k),
    ensures
        byte_items_text(a, k) == byte_items_text(b, k),
    decreases k,
{
    if k > 0 {
        assert(a.subrange(0, k - 1) =~= a.subrange(0, k).subrange(0, k - 1));
        assert(b.subrange(0, k - 1) =~= b.subrange(0, k).subrange(0, k - 1));
        lemma_items_depend_on_prefix(a, b, k - 1);
        assert(a[k - 1] == a.subrange(0, k)[k - 1]);
        assert(b[k - 1] == b.subrange(0, k)[k - 1]);
    }
}

/// The rendering of the first `k` items is a prefix of the rendering of
/// the first `n`, and strictly shorter when `k < n`.
proof fn lemma_byte_items_prefix(p: Seq<u8>, k: int, n: int)
    requires
        0 <= k <= n <= p.len(),
    ensures
        byte_items_text(p, k).len() <= byte_items_text(p, n).len(),
        byte_items_text(p, n).subrange(0, byte_items_text(p, k).len() as int) == byte_items_text(
            p,
            k,
        ),
        k < n ==> byte_items_text(p, k).len() < byte_items_text(p, n).len(),
    decreases n - k,
{
    if k < n {
        lemma_byte_items_prefix(p, k, n - 1);
        lemma_decimal_of_nat_digits(p[n - 1] as int);
        if n == 1 {
            assert(byte_items_text(p, 0) =~= Seq::<char>::empty());
            assert(byte_items_text(p, 1).subrange(0, 0) =~= Seq::<char>::empty());
        } else {
            let head = byte_items_text(p, n - 1);
            let tail = seq![',', ' '] + decimal_of_nat(p[n - 1] as int);
            assert(byte_items_text(p, n) =~= head + tail);
            assert((head + tail).subrange(0, head.len() as int) =~= head);
            let klen = byte_items_text(p, k).len() as int;
            assert((head + tail).subrange(0, klen) =~= head.subrange(0, klen));
        }
    }
}

/// Where item `k` sits inside the full rendering: its digits, and the
/// separator or the end right after them.
proof fn lemma_item_window(t: Seq<char>, p: Seq<u8>, k: int)
    requires
        0 <= k < p.len(),
        t == byte_items_text(p, p.len() as int),
    ensures
        ({
            let jr = byte_items_text(p, k).len() + (if k > 0 {
                2int
            } else {
                0int
            });
            let rr = decimal_of_nat(p[k] as int).len() as int;
            &&& rr >= 1
            &&& jr + rr <= t.len()
            &&& byte_items_text(p, k + 1).len() == jr + rr
            &&& t.subrange(jr, jr + rr) == decimal_of_nat(p[k] as int)
            &&& all_digits(t.subrange(jr, jr + rr))
            &&& digits_fold(0, t.subrange(jr, jr + rr)) == p[k]
            &&& (k + 1 < p.len() ==> jr + rr + 2 <= t.len() && t[jr + rr] == ',' && t[jr + rr + 1]
                == ' ')
            &&& (k + 1 == p.len() ==> jr + rr == t.len())
        }),
{
    let n = p.len() as int;
    let jr = byte_items_text(p, k).len() + (if k > 0 {
        2int
    } else {
        0int
    });
    let dec = decimal_of_nat(p[k] as int);
    let rr = dec.len() as int;
    lemma_decimal_of_nat_digits(p[k] as int);
    lemma_byte_items_prefix(p, k + 1, n);
    if k == 0 {
        assert(byte_items_text(p, 1) == dec);
    } else {
        assert(byte_items_text(p, k + 1) == byte_items_text(p, k) + seq![',', ' '] + dec);
    }
    assert(byte_items_text(p, k + 1).len() == jr + rr);
    assert(t.subrange(0, jr + rr) == byte_items_text(p, k + 1));
    assert(t.subrange(jr, jr + rr) =~= byte_items_text(p, k + 1).subrange(jr, jr + rr));
    assert(byte_items_text(p, k + 1).subrange(jr, jr + rr) =~= dec);
    if k + 1 < n {
        lemma_byte_items_prefix(p, k + 2, n);
        assert(byte_items_text(p, k + 2) == byte_items_text(p, k + 1) + seq![',', ' ']
            + decimal_of_nat(p[k + 1] as int));
        lemma_decimal_of_nat_digits(p[k + 1] as int);
        assert(t.subrange(0, byte_items_text(p, k + 2).len() as int) == byte_items_text(
            p,
            k + 2,
        ));
        assert(t[jr + rr] == byte_items_text(p, k + 2)[jr + rr]);
        assert(t[jr + rr + 1] == byte_items_text(p, k + 2)[jr + rr + 1]);
    }
}

/// The end of the run of decimal digit characters starting at `from`.
fn scan_digit_run(text: &str, from: usize, to: usize) -> (e: usize)
    requires
        from <= to <= text@.len(),
    ensures
        from <= e <= to,
        all_digits(text@.subrange(from as int, e as int)),
        e < to ==> digit_value(text@[e as int]) < 0,
{
    let mut j: usize = from;
    while j < to
        invariant
            from <= j <= to <= text@.len(),
            all_digits(text@.subrange(from as int, j as int)),
        decreases to - j,
    {
        let c = text.get_char(j);
        match char_digit(c) {
            Some(_) => {
                proof {
                    let pref = text@.subrange(from as int, j as int);
                    let pref1 = text@.subrange(from as int, j as int + 1);
                    assert(pref1 =~= pref.push(text@[j as int]));
                    assert(forall|i: int|
                        0 <= i < pref1.len() ==> digit_value(#[trigger] pref1[i]) >= 0) by {
                        assert(forall|i: int| 0 <= i < pref.len() ==> pref1[i] == pref[i]);
                    }
                }
                j += 1;
            },
            None => {
                return j;
            },
        }
    }
    j
}

/// Parses a slice of `text` as a comma-separated list of canonical
/// decimal byte values: succeeds exactly on the texts `byte_items_text`
/// produces, and returns the rendered bytes.
fn parse_point_items(text: &str, from: usize, to: usize) -> (r: Option<Vec<u8>>)
    requires
        from <= to <= text@.len(),
    ensures
        match r {
            Some(v) => text@.subrange(from as int, to as int) == byte_items_text(
                v@,
                v@.len() as int,
            ) && (forall|p: Seq<u8>|
                text@.subrange(from as int, to as int) == #[trigger] byte_items_text(
                    p,
                    p.len() as int,
                ) ==> v@ == p),
            None => forall|p: Seq<u8>|
                text@.subrange(from as int, to as int) != #[trigger] byte_items_text(
                    p,
                    p.len() as int,
                ),
        },
{
    let ghost t = text@.subrange(from as int, to as int);
    if from == to {
        let out: Vec<u8> = Vec::new();
        proof {
            assert(t =~= byte_items_text(out@, 0));
            assert forall|p: Seq<u8>|
                t == #[trigger] byte_items_text(p, p.len() as int) implies out@ == p by {
                if p.len() > 0 {
                    lemma_byte_items_prefix(p, 0, p.len() as int);
                    lemma_item_window(t, p, 0);
                }
                assert(out@ =~= p);
            }
        }
        return Some(out);
    }
    let mut out: Vec<u8> = Vec::new();
    let mut j: usize = from;
    proof {
        assert(text@.subrange(from as int, from as int) =~= Seq::<char>::empty());
        assert(byte_items_text(out@, 0) =~= Seq::<char>::empty());
        assert(byte_items_text(out@, 0) + Seq::<char>::empty() =~= Seq::<char>::empty());
        assert forall|p: Seq<u8>|
            t == #[trigger] byte_items_text(p, p.len() as int) implies 0 < p.len() && out@
            == p.subrange(0, 0) by {
            if p.len() == 0 {
                assert(byte_items_text(p, 0) =~= Seq::<char>::empty());
            }
            assert(out@ =~= p.subrange(0, 0));
        }
    }
    while j < to
        invariant
            from <= j <= to <= text@.len(),
            from < to,
            t == text@.subrange(from as int, to as int),
            text@.subrange(from as int, j as int) == byte_items_text(out@, out@.len() as int) + (
            if out@.len() > 0 {
                seq![',', ' ']
            } else {
                Seq::<char>::empty()
            }),
            forall|p: Seq<u8>|
                t == #[trigger] byte_items_text(p, p.len() as int) ==> out@.len() < p.len()
                    && out@ == p.subrange(0, out@.len() as int) && j - from == byte_items_text(
                    p,
                    out@.len() as int,
                ).len() + (if out@.len() > 0 {
                    2int
                } else {
                    0int
                }),
        decreases to - j,
    {
        let ghost k = out@.len() as int;
        let e = scan_digit_run(text, j, to);
        proof {
            assert forall|p: Seq<u8>|
                t == #[trigger] byte_items_text(p, p.len() as int) implies ({
                let jr = j - from;
                let rr = decimal_of_nat(p[k] as int).len() as int;
                &&& e - from == jr + rr
                &&& text@.subrange(j as int, e as int) == decimal_of_nat(p[k] as int)
            }) by {
                lemma_item_window(t, p, k);
                let jr = j - from;
                let rr = decimal_of_nat(p[k] as int).len() as int;
                assert(t.subrange(jr, jr + rr) =~= text@.subrange(j as int, j + rr));
                // The scan stops exactly at the end of the item's digits.
                if e - from < jr + rr {
                    assert(digit_value(t.subrange(jr, jr + rr)[e - from - jr]) >= 0);
                    assert(t.subrange(jr, jr + rr)[e - from - jr] == text@[e as int]);
                } else if e - from > jr + rr {
                    if k + 1 < p.len() {
                        assert(text@[from + jr + rr] == t[jr + rr]);
                        assert(text@.subrange(j as int, e as int)[jr + rr - jr] == text@[from + jr
                            + rr]);
                        assert(digit_value(text@.subrange(j as int, e as int)[jr + rr - jr])
                            >= 0);
                    }
                }
                assert(text@.subrange(j as int, e as int) =~= t.subrange(jr, jr + rr));
            }
        }
        if e == j {
            proof {
                assert forall|p: Seq<u8>|
                    t != #[trigger] byte_items_text(p, p.len() as int) by {
                    if t == byte_items_text(p, p.len() as int) {
                        lemma_item_window(t, p, k);
                    }
                }
            }
            return None;
        }
        match parse_canonical_u64(text, j, e) {
            Some(m) => {
                if m > 255 {
                    proof {
                        assert forall|p: Seq<u8>|
                            t != #[trigger] byte_items_text(p, p.len() as int) by {
                            if t == byte_items_text(p, p.len() as int) {
                                lemma_item_window(t, p, k);
                                lemma_decimal_of_nat_digits(p[k] as int);
                                lemma_decimal_of_nat_digits(m as int);
                            }
                        }
                    }
                    return None;
                }
                let item: u8 = m as u8;
                let ghost out_before = out@;
                out.push(item);
                proof {
                    assert(out_before.subrange(0, k) =~= out@.subrange(0, k));
                    lemma_items_depend_on_prefix(out_before, out@, k);
                    if k == 0 {
                        assert(byte_items_text(out@, 1) == decimal_of_nat(out@[0] as int));
                    } else {
                        assert(byte_items_text(out@, k + 1) == byte_items_text(out@, k) + seq![
                            ',',
                            ' ',
                        ] + decimal_of_nat(out@[k] as int));
                    }
                    assert(text@.subrange(from as int, e as int) =~= text@.subrange(
                        from as int,
                        j as int,
                    ) + text@.subrange(j as int, e as int));
                    assert(text@.subrange(from as int, e as int) == byte_items_text(
                        out@,
                        out@.len() as int,
                    ));
                }
                if e == to {
                    proof {
                        assert forall|p: Seq<u8>|
                            t == #[trigger] byte_items_text(p, p.len() as int) implies out@
                            == p by {
                            lemma_item_window(t, p, k);
                            if k + 1 < p.len() {
                                assert(false);
                            }
                            assert(p[k] == m) by {
                                lemma_decimal_of_nat_digits(p[k] as int);
                                lemma_decimal_of_nat_digits(m as int);
                            }
                            assert(out@ =~= p);
                        }
                    }
                    return Some(out);
                }
                let c1 = text.get_char(e);
                let c2_ok: bool = if e + 1 < to {
                    text.get_char(e + 1) == ' '
                } else {
                    false
                };
                if c1 != ',' || !c2_ok {
                    proof {
                        assert forall|p: Seq<u8>|
                            t != #[trigger] byte_items_text(p, p.len() as int) by {
                            if t == byte_items_text(p, p.len() as int) {
                                lemma_item_window(t, p, k);
                                assert(e - from < t.len());
                                assert(k + 1 < p.len());
                                assert(text@[e as int] == t[e - from]);
                                assert(text@[e as int + 1] == t[e - from + 1]);
                            }
                        }
                    }
                    return None;
                }
                proof {
                    assert forall|p: Seq<u8>|
                        t == #[trigger] byte_items_text(p, p.len() as int) implies out@.len()
                        < p.len() && out@ == p.subrange(0, out@.len() as int) && (e + 2) - from
                        == byte_items_text(p, out@.len() as int).len() + 2 by {
                        lemma_item_window(t, p, k);
                        assert(k + 1 < p.len());
                        assert(p[k] == m) by {
                            lemma_decimal_of_nat_digits(p[k] as int);
                            lemma_decimal_of_nat_digits(m as int);
                        }
                        assert(out@ =~= p.subrange(0, k + 1));
                    }
                    assert(text@.subrange(from as int, e as int + 2) =~= text@.subrange(
                        from as int,
                        e as int,
                    ) + seq![text@[e as int], text@[e as int + 1]]);
                    assert(seq![text@[e as int], text@[e as int + 1]] =~= seq![',', ' ']);
                }
                j = e + 2;
            },
            None => {
                proof {
                    assert forall|p: Seq<u8>|
                        t != #[trigger] byte_items_text(p, p.len() as int) by {
                        if t == byte_items_text(p, p.len() as int) {
                            lemma_item_window(t, p, k);
                            let mv: u64 = p[k] as u64;
                            assert(mv as int == p[k] as int);
                        }
                    }
                }
                return None;
            },
        }
    }
    // The text ends right after a separator: no rendering does.
    proof {
        assert forall|p: Seq<u8>| t != #[trigger] byte_items_text(p, p.len() as int) by {
            if t == byte_items_text(p, p.len() as int) {
                let k = out@.len() as int;
                lemma_item_window(t, p, k);
            }
        }
    }
    None
}

/// The signed decimal rendering determines the value.
proof fn lemma_decimal_of_int_injective(a: int, b: int)
    requires
        decimal_of_int(a) == decimal_of_int(b),
    ensures
        a == b,
{
    lemma_decimal_of_int_shape(a);
    lemma_decimal_of_int_shape(b);
    if a >= 0 && b >= 0 {
        lemma_decimal_of_nat_digits(a);
        lemma_decimal_of_nat_digits(b);
    } else if a < 0 && b < 0 {
        lemma_decimal_of_nat_digits(-a);
        lemma_decimal_of_nat_digits(-b);
        assert(decimal_of_int(a).subrange(1, decimal_of_int(a).len() as int) == decimal_of_int(
            b,
        ).subrange(1, decimal_of_int(b).len() as int));
    } else if a >= 0 && b < 0 {
        assert(digit_value(decimal_of_int(a)[0]) >= 0);
        assert(decimal_of_int(b)[0] == '-');
    } else {
        assert(digit_value(decimal_of_int(b)[0]) >= 0);
        assert(decimal_of_int(a)[0] == '-');
    }
}

/// Recovers an offending point encoding from its rendered text: succeeds
/// exactly on the texts `subgroup_point_text` produces, and returns the
/// rendered bytes.
fn recover_point(text: &str) -> (r: Option<Vec<u8>>)
    ensures
        match r {
            Some(v) => text@ == subgroup_point_text(v@) && (forall|p: Seq<u8>|
                text@ == #[trigger] subgroup_point_text(p) ==> v@ == p),
            None => forall|p: Seq<u8>| text@ != #[trigger] subgroup_point_text(p),
        },
{
    let prefix = "Affine point is not in the correct subgroup on curve ";
    let ghost pre = prefix@;
    if !text_starts_with(text, prefix) {
        proof {
            assert forall|p: Seq<u8>| text@ != #[trigger] subgroup_point_text(p) by {
                if text@ == subgroup_point_text(p) {
                    lemma_text_concat_split(pre, point_encoding_text(p), text@);
                }
            }
        }
        return None;
    }
    let text_len: usize = text.unicode_len();
    let p_len: usize = prefix.unicode_len();
    if text_len - p_len < 2 {
        proof {
            assert forall|p: Seq<u8>| text@ != #[trigger] subgroup_point_text(p) by {
                if text@ == subgroup_point_text(p) {
                    lemma_text_concat_split(pre, point_encoding_text(p), text@);
                }
            }
        }
        return None;
    }
    let open_ok = text.get_char(p_len) == '[';
    let close_ok = text.get_char(text_len - 1) == ']';
    if !open_ok || !close_ok {
        proof {
            assert forall|p: Seq<u8>| text@ != #[trigger] subgroup_point_text(p) by {
                if text@ == subgroup_point_text(p) {
                    lemma_text_concat_split(pre, point_encoding_text(p), text@);
                    let enc = point_encoding_text(p);
                    assert(text@[p_len as int] == enc[0]);
                    assert(text@[text_len - 1] == enc[enc.len() - 1]);
                    assert(enc[0] == '[');
                    assert(enc[enc.len() - 1] == ']');
                }
            }
        }
        return None;
    }
    proof {
        assert forall|p: Seq<u8>|
            text@ == #[trigger] subgroup_point_text(p) implies text@.subrange(
            p_len + 1,
            text_len - 1,
        ) == byte_items_text(p, p.len() as int) by {
            lemma_text_concat_split(pre, point_encoding_text(p), text@);
            let enc = point_encoding_text(p);
            assert(enc.subrange(1, enc.len() - 1) =~= byte_items_text(p, p.len() as int));
            assert(text@.subrange(p_len + 1, text_len - 1) =~= enc.subrange(1, enc.len() - 1));
        }
    }
    match parse_point_items(text, p_len + 1, text_len - 1) {
        Some(v) => {
            proof {
                assert(text@ =~= pre + (seq!['['] + byte_items_text(v@, v@.len() as int) + seq![
                    ']',
                ]));
            }
            Some(v)
        },
        None => {
            proof {
                assert forall|p: Seq<u8>| text@ != #[trigger] subgroup_point_text(p) by {}
            }
            None
        },
    }
}

/// The rendered text of an out-of-bounds value balance.
pub open spec fn balance_text(b: int) -> Seq<char> {
    "The value balance is out of bounds: "@ + decimal_of_int(b)
}

/// The rendered text of a rejected input bit count.
pub open spec fn input_length_text(n: int) -> Seq<char> {
    "The input length is incorrect: "@ + decimal_of_nat(n)
}

/// The rendered text of a point outside the prime-order subgroup.
pub open spec fn subgroup_point_text(p: Seq<u8>) -> Seq<char> {
    "Affine point is not in the correct subgroup on curve "@ + point_encoding_text(p)
}

/// The error's rendered text: each variant's payload appears in it, so
/// the text alone identifies the structured variants.  Only the wrapped
/// foreign cause's text is left open.
pub open spec fn described_as(e: BindingSignatureError, t: Seq<char>) -> bool {
    match e {
        BindingSignatureError::AnyhowError(_) => true,
        BindingSignatureError::CommitmentError(c) => (c
            matches CommitmentError::IncorrectInputLength(n) && t == input_length_text(n as int)),
        BindingSignatureError::Crate(s, m) => t == s@ + ": "@ + m@,
        BindingSignatureError::Message(m) => t == m@,
        BindingSignatureError::NotInCorrectSubgroupOnCurve(p) => t == subgroup_point_text(p@),
        BindingSignatureError::OutOfBounds(b) => t == balance_text(b as int),
    }
}

/// What recovering an error from a rendered text yields: each structured
/// variant's text maps back to that variant with its payload, any other
/// text to the named-source variant tagged with the I/O subsystem and
/// carrying the text unchanged.
pub open spec fn recovers_description(t: Seq<char>, r: BindingSignatureError) -> bool {
    &&& forall|b: i64|
        t == balance_text(b as int) ==> (r matches BindingSignatureError::OutOfBounds(v) && v == b)
    &&& forall|n: usize|
        t == input_length_text(n as int) ==> (r matches BindingSignatureError::CommitmentError(c)
            && c == CommitmentError::IncorrectInputLength(n))
    &&& forall|p: Seq<u8>|
        t == subgroup_point_text(p) ==> (r
            matches BindingSignatureError::NotInCorrectSubgroupOnCurve(q) && q@ == p)
    &&& (r matches BindingSignatureError::OutOfBounds(v) ==> t == balance_text(v as int))
    &&& (r matches BindingSignatureError::CommitmentError(c) ==> (c
        matches CommitmentError::IncorrectInputLength(n) && t == input_length_text(n as int)))
    &&& (r matches BindingSignatureError::NotInCorrectSubgroupOnCurve(q) ==> t
        == subgroup_point_text(q@))
    &&& (r matches BindingSignatureError::Crate(s, m) ==> s@ == "std::io"@ && m@ == t)
    &&& !(r matches BindingSignatureError::Message(_))
    &&& !(r matches BindingSignatureError::AnyhowError(_))
}

/// Round trip of a structured error through its rendered text: rendering
/// an error and recovering an error from that text restores the
/// discriminant and the exact payload of every structured variant.  This
/// is the guarantee behind collapsing into and recovering from a plain
/// I/O error, whose message carries the text.
pub proof fn lemma_description_round_trip(
    e: BindingSignatureError,
    t: Seq<char>,
    r: BindingSignatureError,
)
    requires
        described_as(e, t),
        recovers_description(t, r),
    ensures
        e matches BindingSignatureError::OutOfBounds(b) ==> (r
            matches BindingSignatureError::OutOfBounds(v) && v == b),
        e matches BindingSignatureError::CommitmentError(c) ==> (r
            matches BindingSignatureError::CommitmentError(c2) && c2 == c),
        e matches BindingSignatureError::NotInCorrectSubgroupOnCurve(p) ==> (r
            matches BindingSignatureError::NotInCorrectSubgroupOnCurve(q) && q@ == p@),
{
}

/// Appends one decimal digit character.
fn append_digit(out: &mut String, d: u64)
    requires
        d < 10,
    ensures
        final(out)@ == old(out)@ + seq![decimal_digit(d as int)],
{
    if d == 0 {
        out.append("0");
        proof {
            reveal_strlit("0");
            assert("0"@ =~= seq!['0']);
        }
    } else if d == 1 {
        out.append("1");
        proof {
            reveal_strlit("1");
            assert("1"@ =~= seq!['1']);
        }
    } else if d == 2 {
        out.append("2");
        proof {
            reveal_strlit("2");
            assert("2"@ =~= seq!['2']);
        }
    } else if d == 3 {
        out.append("3");
        proof {
            reveal_strlit("3");
            assert("3"@ =~= seq!['3']);
        }
    } else if d == 4 {
        out.append("4");
        proof {
            reveal_strlit("4");
            assert("4"@ =~= seq!['4']);
        }
    } else if d == 5 {
        out.append("5");
        proof {
            reveal_strlit("5");
            assert("5"@ =~= seq!['5']);
        }
    } else if d == 6 {
        out.append("6");
        proof {
            reveal_strlit("6");
            assert("6"@ =~= seq!['6']);
        }
    } else if d == 7 {
        out.append("7");
        proof {
            reveal_strlit("7");
            assert("7"@ =~= seq!['7']);
        }
    } else if d == 8 {
        out.append("8");
        proof {
            reveal_strlit("8");
            assert("8"@ =~= seq!['8']);
        }
    } else {
        out.append("9");
        proof {
            reveal_strlit("9");
            assert("9"@ =~= seq!['9']);
        }
    }
}

/// Appends the decimal rendering of `n`.
fn append_u64_decimal(out: &mut String, n: u64)
    ensures
        final(out)@ == old(out)@ + decimal_of_nat(n as int),
    decreases n,
{
    if n >= 10 {
        append_u64_decimal(out, n / 10);
        append_digit(out, n % 10);
        proof {
            assert(out@ =~= old(out)@ + decimal_of_nat(n as int));
        }
    } else {
        append_digit(out, n);
    }
}

/// Appends the decimal rendering of a signed balance, the sign included.
fn append_i64_decimal(out: &mut String, v: i64)
    ensures
        final(out)@ == old(out)@ + decimal_of_int(v as int),
{
    if v < 0 {
        out.append("-");
        let wide: i128 = -(v as i128);
        let magnitude: u64 = wide as u64;
        append_u64_decimal(out, magnitude);
        proof {
            reveal_strlit("-");
            assert("-"@ =~= seq!['-']);
            assert(out@ =~= old(out)@ + decimal_of_int(v as int));
        }
    } else {
        append_u64_decimal(out, v as u64);
    }
}

/// Appends the rendering of a point encoding.
fn append_point_encoding(out: &mut String, bytes: &Vec<u8>)
    ensures
        final(out)@ == old(out)@ + point_encoding_text(bytes@),
{
    out.append("[");
    proof {
        reveal_strlit("[");
        assert("["@ =~= seq!['[']);
    }
    let n: usize = bytes.len();
    let mut j: usize = 0;
    while j < n
        invariant
            j <= n,
            n == bytes@.len(),
            out@ == old(out)@ + seq!['['] + byte_items_text(bytes@, j as int),
        decreases n - j,
    {
        if j > 0 {
            out.append(", ");
            proof {
                reveal_strlit(", ");
                assert(", "@ =~= seq![',', ' ']);
            }
        }
        append_u64_decimal(out, bytes[j] as u64);
        proof {
            assert(out@ =~= old(out)@ + seq!['['] + byte_items_text(bytes@, j as int + 1));
        }
        j += 1;
    }
    out.append("]");
    proof {
        reveal_strlit("]");
        assert("]"@ =~= seq![']']);
        assert(out@ =~= old(out)@ + point_encoding_text(bytes@));
    }
}

impl BindingSignatureError {
    /// The variant's failure code, as the generic representation carries
    /// it.
    pub fn code(&self) -> (c: u64)
        ensures
            c == variant_code(*self),
    {
        match self {
            BindingSignatureError::AnyhowError(_) => 1,
            BindingSignatureError::CommitmentError(_) => 2,
            BindingSignatureError::Crate(_, _) => 3,
            BindingSignatureError::Message(_) => 4,
            BindingSignatureError::NotInCorrectSubgroupOnCurve(_) => 5,
            BindingSignatureError::OutOfBounds(_) => 6,
        }
    }

    /// Converts the error to its generic representation.  Pure and total;
    /// lossless for every structured variant.
    pub fn to_generic(&self) -> (r: GenericError)
        ensures
            represents(*self, r),
    {
        match self {
            BindingSignatureError::AnyhowError(cause) => GenericError {
                code: 1,
                source: String::new(),
                message: anyhow_error_text(cause),
                point: Vec::new(),
                balance: 0,
                length: 0,
            },
            BindingSignatureError::CommitmentError(CommitmentError::IncorrectInputLength(n)) => GenericError {
                code: 2,
                source: String::new(),
                message: String::new(),
                point: Vec::new(),
                balance: 0,
                length: *n,
            },
            BindingSignatureError::Crate(s, m) => GenericError {
                code: 3,
                source: s.clone(),
                message: m.clone(),
                point: Vec::new(),
                balance: 0,
                length: 0,
            },
            BindingSignatureError::Message(m) => GenericError {
                code: 4,
                source: String::new(),
                message: m.clone(),
                point: Vec::new(),
                balance: 0,
                length: 0,
            },
            BindingSignatureError::NotInCorrectSubgroupOnCurve(p) => GenericError {
                code: 5,
                source: String::new(),
                message: String::new(),
                point: clone_bytes(p),
                balance: 0,
                length: 0,
            },
            BindingSignatureError::OutOfBounds(b) => GenericError {
                code: 6,
                source: String::new(),
                message: String::new(),
                point: Vec::new(),
                balance: *b,
                length: 0,
            },
        }
    }

    /// Recovers an error from its generic representation.  Pure and total:
    /// the variant named by the code is rebuilt from the record's
    /// payloads, and an unknown code collapses to the free-form `Message`
    /// variant.
    pub fn from_generic(g: &GenericError) -> (r: BindingSignatureError)
        ensures
            recovers(*g, r),
    {
        if g.code == 1 {
            BindingSignatureError::AnyhowError(anyhow_error_from_text(&g.message))
        } else if g.code == 2 {
            BindingSignatureError::CommitmentError(CommitmentError::IncorrectInputLength(g.length))
        } else if g.code == 3 {
            BindingSignatureError::Crate(g.source.clone(), g.message.clone())
        } else if g.code == 4 {
            BindingSignatureError::Message(g.message.clone())
        } else if g.code == 5 {
            BindingSignatureError::NotInCorrectSubgroupOnCurve(clone_bytes(&g.point))
        } else if g.code == 6 {
            BindingSignatureError::OutOfBounds(g.balance)
        } else {
            BindingSignatureError::Message(g.message.clone())
        }
    }

    /// The error's rendered text, used when the error is collapsed into a
    /// plain I/O error: each variant's payload appears in it — the
    /// rejected bit count, the offending point's byte encoding, the exact
    /// out-of-bounds balance.  Only the wrapped foreign cause renders as
    /// whatever its own formatting reports.
    pub fn describe(&self) -> (r: String)
        ensures
            described_as(*self, r@),
    {
        match self {
            BindingSignatureError::AnyhowError(cause) => anyhow_error_text(cause),
            BindingSignatureError::CommitmentError(CommitmentError::IncorrectInputLength(n)) => {
                let mut text = "The input length is incorrect: ".to_owned();
                append_u64_decimal(&mut text, *n as u64);
                text
            },
            BindingSignatureError::Crate(s, m) => s.clone().concat(": ").concat(m.as_str()),
            BindingSignatureError::Message(m) => m.clone(),
            BindingSignatureError::NotInCorrectSubgroupOnCurve(p) => {
                let mut text = "Affine point is not in the correct subgroup on curve ".to_owned();
                append_point_encoding(&mut text, p);
                text
            },
            BindingSignatureError::OutOfBounds(b) => {
                let mut text = "The value balance is out of bounds: ".to_owned();
                append_i64_decimal(&mut text, *b);
                text
            },
        }
    }

    /// Collapses the error into a plain I/O error whose message is the
    /// rendered text; since that text carries every structured payload,
    /// `from_io_error` can rebuild the structured variants from it.
    pub fn into_io_error(self) -> std::io::Error {
        io_error_from_text(self.describe())
    }

    /// Recovers a binding-signature failure from an error text: the texts
    /// the structured variants render to map back to those variants with
    /// their exact payloads, and any other text becomes a failure
    /// attributed to the I/O subsystem, carrying the text unchanged.
    pub fn from_description(text: &String) -> (r: BindingSignatureError)
        ensures
            recovers_description(text@, r),
    {
        let balance_prefix = "The value balance is out of bounds: ";
        let length_prefix = "The input length is incorrect: ";
        let subgroup_prefix = "Affine point is not in the correct subgroup on curve ";
        proof {
            reveal_strlit("The value balance is out of bounds: ");
            reveal_strlit("The input length is incorrect: ");
            reveal_strlit("Affine point is not in the correct subgroup on curve ");
        }
        match recover_balance(text.as_str()) {
            Some(v) => {
                proof {
                    assert forall|b: i64| text@ == balance_text(b as int) implies v == b by {
                        lemma_text_concat_split(
                            balance_prefix@,
                            decimal_of_int(b as int),
                            text@,
                        );
                        lemma_text_concat_split(
                            balance_prefix@,
                            decimal_of_int(v as int),
                            text@,
                        );
                        lemma_decimal_of_int_injective(b as int, v as int);
                    }
                    assert forall|n: usize| text@ != input_length_text(n as int) by {
                        if text@ == input_length_text(n as int) {
                            lemma_text_concat_split(
                                length_prefix@,
                                decimal_of_nat(n as int),
                                text@,
                            );
                            lemma_text_concat_split(
                                balance_prefix@,
                                decimal_of_int(v as int),
                                text@,
                            );
                            assert(text@[4] == balance_prefix@[4]);
                            assert(text@[4] == length_prefix@[4]);
                        }
                    }
                    assert forall|p: Seq<u8>| text@ != subgroup_point_text(p) by {
                        if text@ == subgroup_point_text(p) {
                            lemma_text_concat_split(subgroup_prefix@, point_encoding_text(p), text@);
                            lemma_text_concat_split(
                                balance_prefix@,
                                decimal_of_int(v as int),
                                text@,
                            );
                            assert(text@[0] == balance_prefix@[0]);
                            assert(text@[0] == subgroup_prefix@[0]);
                        }
                    }
                }
                return BindingSignatureError::OutOfBounds(v);
            },
            None => {},
        }
        match recover_input_length(text.as_str()) {
            Some(n) => {
                proof {
                    assert forall|n2: usize| text@ == input_length_text(n2 as int) implies n
                        == n2 by {
                        lemma_text_concat_split(length_prefix@, decimal_of_nat(n2 as int), text@);
                        lemma_text_concat_split(length_prefix@, decimal_of_nat(n as int), text@);
                        lemma_decimal_of_nat_digits(n as int);
                        lemma_decimal_of_nat_digits(n2 as int);
                    }
                    assert forall|p: Seq<u8>| text@ != subgroup_point_text(p) by {
                        if text@ == subgroup_point_text(p) {
                            lemma_text_concat_split(subgroup_prefix@, point_encoding_text(p), text@);
                            lemma_text_concat_split(
                                length_prefix@,
                                decimal_of_nat(n as int),
                                text@,
                            );
                            assert(text@[0] == length_prefix@[0]);
                            assert(text@[0] == subgroup_prefix@[0]);
                        }
                    }
                }
                return BindingSignatureError::CommitmentError(
                    CommitmentError::IncorrectInputLength(n),
                );
            },
            None => {},
        }
        match recover_point(text.as_str()) {
            Some(point) => {
                return BindingSignatureError::NotInCorrectSubgroupOnCurve(point);
            },
            None => {},
        }
        BindingSignatureError::Crate("std::io".to_owned(), text.clone())
    }

    /// Wraps a plain I/O error as a binding-signature failure: the error's
    /// message is recovered as `from_description` does, so an error that
    /// `into_io_error` produced comes back as the structured variant it
    /// came from.  What holds of the result holds whatever message the
    /// I/O error carried.
    pub fn from_io_error(error: std::io::Error) -> (r: BindingSignatureError)
        ensures
            r matches BindingSignatureError::Crate(s, _) ==> s@ == "std::io"@,
            !(r matches BindingSignatureError::Message(_)),
            !(r matches BindingSignatureError::AnyhowError(_)),
    {
        let text = io_error_message(&error);
        BindingSignatureError::from_description(&text)
    }
}

impl From<anyhow::Error> for BindingSignatureError {
    /// An uncategorized lower-layer failure enters the taxonomy wrapped,
    /// unchanged.
    fn from(error: anyhow::Error) -> Self {
        BindingSignatureError::AnyhowError(error)
    }
}

impl vstd::std_specs::convert::FromSpecImpl<anyhow::Error> for BindingSignatureError {
    open spec fn obeys_from_spec() -> bool {
        true
    }

    open spec fn from_spec(v: anyhow::Error) -> Self {
        BindingSignatureError::AnyhowError(v)
    }
}

impl From<CommitmentError> for BindingSignatureError {
    /// A rejection by the underlying commitment scheme enters the
    /// taxonomy wrapped, unchanged.
    fn from(error: CommitmentError) -> Self {
        BindingSignatureError::CommitmentError(error)
    }
}

impl vstd::std_specs::convert::FromSpecImpl<CommitmentError> for BindingSignatureError {
    open spec fn obeys_from_spec() -> bool {
        true
    }

    open spec fn from_spec(v: CommitmentError) -> Self {
        BindingSignatureError::CommitmentError(v)
    }
}

impl From<std::io::Error> for BindingSignatureError {
    /// A plain I/O error enters the taxonomy as a failure attributed to
    /// the I/O subsystem.
    fn from(error: std::io::Error) -> Self {
        BindingSignatureError::from_io_error(error)
    }
}

impl vstd::std_specs::convert::FromSpecImpl<std::io::Error> for BindingSignatureError {
    open spec fn obeys_from_spec() -> bool {
        false
    }

    open spec fn from_spec(v: std::io::Error) -> Self {
        arbitrary()
    }
}

impl From<BindingSignatureError> for std::io::Error {
    /// The taxonomy collapses into a plain I/O error carrying the
    /// description.
    fn from(error: BindingSignatureError) -> Self {
        error.into_io_error()
    }
}

impl vstd::std_specs::convert::FromSpecImpl<BindingSignatureError> for std::io::Error {
    open spec fn obeys_from_spec() -> bool {
        false
    }

    open spec fn from_spec(v: BindingSignatureError) -> Self {
        arbitrary()
    }
}

/// A byte-for-byte copy of a point encoding.
fn clone_bytes(bytes: &Vec<u8>) -> (r: Vec<u8>)
    ensures
        r@ == bytes@,
{
    let mut copied: Vec<u8> = Vec::new();
    let n: usize = bytes.len();
    let mut b: usize = 0;
    while b < n
        invariant
            b <= n,
            n == bytes@.len(),
            copied@.len() == b,
            forall|i: int| 0 <= i < b ==> copied@[i] == bytes@[i],
        decreases n - b,
    {
        copied.push(bytes[b]);
        b += 1;
    }
    proof {
        assert(copied@ =~= bytes@);
    }
    copied
}

/// The protocol's permitted range for a value balance: its magnitude must
/// itself be representable, so the one excluded 64-bit value is
/// `i64::MIN` — equivalently, the wrap-around of `i64::MAX + 1`.
pub open spec fn value_balance_in_bounds(balance: int) -> bool {
    -(i64::MAX as int) <= balance <= i64::MAX as int
}

/// Checks a value balance against the protocol's bound: returns it
/// unchanged when it is in bounds, and surfaces the exact offending value
/// as `OutOfBounds` when it is not.
pub fn validate_value_balance(balance: i64) -> (r: Result<i64, BindingSignatureError>)
    ensures
        value_balance_in_bounds(balance as int) ==> (r matches Ok(v) && v == balance),
        !value_balance_in_bounds(balance as int) ==> (r matches Err(e)
            && e matches BindingSignatureError::OutOfBounds(b) && b == balance),
{
    if balance == i64::MIN {
        Err(BindingSignatureError::OutOfBounds(balance))
    } else {
        Ok(balance)
    }
}

} // verus!
