//! The identifier grammar: a cluster node is written `n<digits>`, an external
//! client `c<digits>`, where the digits are the decimal form of a 32-bit
//! unsigned number.

use vstd::prelude::*;

verus! {

/// Why a piece of text failed to parse as an identifier.
#[derive(Debug, PartialEq, Eq, Clone, Copy, Structural)]
pub enum IDParseError {
    /// The digit characters were absent, or named a number above 32 bits.
    FailedParseInt,
    /// The text was empty (or nothing but whitespace).
    EmptyID,
    /// The leading character was neither `n` nor `c` (in either case).
    UnknownIDType,
}

/// A participant identifier: a cluster node or an external client.
#[derive(Debug, PartialEq, Eq, Clone, Copy, Structural)]
pub enum ID {
    Node(u32),
    Client(u32),
}

/// An ASCII decimal digit.
pub open spec fn is_digit(c: char) -> bool {
    '0' as u32 <= c as u32 && c as u32 <= '9' as u32
}

/// The numeric value of a decimal digit character.
pub open spec fn digit_val(c: char) -> nat {
    (c as u32 - '0' as u32) as nat
}

/// The digit character for a value below ten.
pub open spec fn digit_char(d: nat) -> char {
    if d == 0 {
        '0'
    } else if d == 1 {
        '1'
    } else if d == 2 {
        '2'
    } else if d == 3 {
        '3'
    } else if d == 4 {
        '4'
    } else if d == 5 {
        '5'
    } else if d == 6 {
        '6'
    } else if d == 7 {
        '7'
    } else if d == 8 {
        '8'
    } else {
        '9'
    }
}

/// The decimal digit string of `n`: no sign, no padding, no leading zeros.
pub open spec fn dec_seq(n: nat) -> Seq<char>
    decreases n,
{
    if n < 10 {
        seq![digit_char(n)]
    } else {
        dec_seq(n / 10) + seq![digit_char(n % 10)]
    }
}

/// The number named by a digit string (most significant digit first).
pub open spec fn dec_val(s: Seq<char>) -> nat
    decreases s.len(),
{
    if s.len() == 0 {
        0
    } else {
        dec_val(s.drop_last()) * 10 + digit_val(s.last())
    }
}

proof fn lemma_digit_char_val(d: nat)
    requires
        d < 10,
    ensures
        is_digit(digit_char(d)),
        digit_val(digit_char(d)) == d,
{
}

/// Every character of a decimal digit string is a digit.
proof fn lemma_dec_seq_digits(n: nat)
    ensures
        dec_seq(n).len() >= 1,
        forall|i: int| 0 <= i < dec_seq(n).len() ==> is_digit(#[trigger] dec_seq(n)[i]),
    decreases n,
{
    if n < 10 {
        lemma_digit_char_val(n);
    } else {
        lemma_dec_seq_digits(n / 10);
        lemma_digit_char_val(n % 10);
        assert forall|i: int| 0 <= i < dec_seq(n).len() implies is_digit(
            #[trigger] dec_seq(n)[i],
        ) by {
            if i < dec_seq(n / 10).len() {
                assert(dec_seq(n)[i] == dec_seq(n / 10)[i]);
            }
        }
    }
}

/// Reading a decimal digit string back gives the number it was written from.
proof fn lemma_dec_val_of_dec_seq(n: nat)
    ensures
        dec_val(dec_seq(n)) == n,
    decreases n,
{
    reveal_with_fuel(dec_val, 3);
    if n < 10 {
        lemma_digit_char_val(n);
        assert(dec_seq(n).drop_last() =~= Seq::<char>::empty());
    } else {
        lemma_dec_val_of_dec_seq(n / 10);
        lemma_digit_char_val(n % 10);
        assert(dec_seq(n).drop_last() =~= dec_seq(n / 10));
        assert(dec_val(dec_seq(n)) == dec_val(dec_seq(n / 10)) * 10 + digit_val(
            digit_char(n % 10),
        ));
        vstd::arithmetic::div_mod::lemma_fundamental_div_mod(n as int, 10);
    }
}

/// Appends the decimal digits of `n` to `out`.
fn push_decimal_u32(n: u32, out: &mut String)
    ensures
        final(out)@ == old(out)@ + dec_seq(n as nat),
    decreases n,
{
    if n >= 10 {
        push_decimal_u32(n / 10, out);
    }
    push_digit((n % 10) as u8, out);
    proof {
        if n >= 10 {
            assert(out@ == old(out)@ + dec_seq(n as nat / 10) + seq![
                digit_char(n as nat % 10),
            ]);
            assert(out@ =~= old(out)@ + dec_seq(n as nat));
        } else {
            assert(out@ =~= old(out)@ + dec_seq(n as nat));
        }
    }
}

/// Appends the decimal digits of `n` to `out`.
pub(crate) fn push_decimal_u128(n: u128, out: &mut String)
    ensures
        final(out)@ == old(out)@ + dec_seq(n as nat),
    decreases n,
{
    if n >= 10 {
        push_decimal_u128(n / 10, out);
    }
    push_digit((n % 10) as u8, out);
    proof {
        if n >= 10 {
            assert(out@ == old(out)@ + dec_seq(n as nat / 10) + seq![
                digit_char(n as nat % 10),
            ]);
            assert(out@ =~= old(out)@ + dec_seq(n as nat));
        } else {
            assert(out@ =~= old(out)@ + dec_seq(n as nat));
        }
    }
}

/// Appends the one digit character for `d` to `out`.
fn push_digit(d: u8, out: &mut String)
    requires
        d < 10,
    ensures
        final(out)@ == old(out)@ + seq![digit_char(d as nat)],
{
    proof {
        reveal_strlit("0");
        reveal_strlit("1");
        reveal_strlit("2");
        reveal_strlit("3");
        reveal_strlit("4");
        reveal_strlit("5");
        reveal_strlit("6");
        reveal_strlit("7");
        reveal_strlit("8");
        reveal_strlit("9");
    }
    if d == 0 {
        out.append("0");
    } else if d == 1 {
        out.append("1");
    } else if d == 2 {
        out.append("2");
    } else if d == 3 {
        out.append("3");
    } else if d == 4 {
        out.append("4");
    } else if d == 5 {
        out.append("5");
    } else if d == 6 {
        out.append("6");
    } else if d == 7 {
        out.append("7");
    } else if d == 8 {
        out.append("8");
    } else {
        out.append("9");
    }
    proof {
        assert(out@ =~= old(out)@ + seq![digit_char(d as nat)]);
    }
}

/// An ASCII whitespace character, ignored at either end of an identifier.
pub open spec fn is_space(c: char) -> bool {
    c == ' ' || c == '\t' || c == '\n' || c == '\r'
}

/// `s` without its leading whitespace.
pub open spec fn trim_left(s: Seq<char>) -> Seq<char>
    decreases s.len(),
{
    if s.len() > 0 && is_space(s[0]) {
        trim_left(s.drop_first())
    } else {
        s
    }
}

/// `s` without its trailing whitespace.
pub open spec fn trim_right(s: Seq<char>) -> Seq<char>
    decreases s.len(),
{
    if s.len() > 0 && is_space(s.last()) {
        trim_right(s.drop_last())
    } else {
        s
    }
}

/// `s` without whitespace at either end.
pub open spec fn trimmed(s: Seq<char>) -> Seq<char> {
    trim_right(trim_left(s))
}

/// The digit characters of `s`, concatenated in order; anything else is
/// skipped, wherever it stands.
pub open spec fn digits_of(s: Seq<char>) -> Seq<char> {
    s.filter(|c: char| is_digit(c))
}

/// A variant tag letter, in either case.
pub open spec fn is_tag(c: char) -> bool {
    c == 'n' || c == 'N' || c == 'c' || c == 'C'
}

/// What parsing a piece of text yields: the text is trimmed; an empty rest is
/// refused; the leading character picks the variant (`n`/`N` a node, `c`/`C` a
/// client, anything else refused); the digit characters of the rest, wherever
/// they stand, name the number, refused when absent or above 32 bits.
pub open spec fn parse_spec(s: Seq<char>) -> Result<ID, IDParseError> {
    let t = trimmed(s);
    if t.len() == 0 {
        Err(IDParseError::EmptyID)
    } else if !is_tag(t[0]) {
        Err(IDParseError::UnknownIDType)
    } else {
        let ds = digits_of(t.drop_first());
        if ds.len() == 0 || dec_val(ds) > u32::MAX {
            Err(IDParseError::FailedParseInt)
        } else if t[0] == 'n' || t[0] == 'N' {
            Ok(ID::Node(dec_val(ds) as u32))
        } else {
            Ok(ID::Client(dec_val(ds) as u32))
        }
    }
}

proof fn lemma_trim_left_skip(s: Seq<char>, lo: int)
    requires
        0 <= lo <= s.len(),
        forall|k: int| 0 <= k < lo ==> is_space(#[trigger] s[k]),
        lo < s.len() ==> !is_space(s[lo]),
    ensures
        trim_left(s) =~= s.subrange(lo, s.len() as int),
    decreases lo,
{
    if lo == 0 {
    } else {
        assert(is_space(s[0]));
        lemma_trim_left_skip(s.drop_first(), lo - 1);
        assert(s.drop_first().subrange(lo - 1, s.drop_first().len() as int) =~= s.subrange(
            lo,
            s.len() as int,
        ));
    }
}

proof fn lemma_trim_right_skip(s: Seq<char>, hi: int)
    requires
        0 <= hi <= s.len(),
        forall|k: int| hi <= k < s.len() ==> is_space(#[trigger] s[k]),
        hi > 0 ==> !is_space(s[hi - 1]),
    ensures
        trim_right(s) =~= s.subrange(0, hi),
    decreases s.len() - hi,
{
    if hi == s.len() {
    } else {
        assert(is_space(s.last()));
        lemma_trim_right_skip(s.drop_last(), hi);
        assert(s.drop_last().subrange(0, hi) =~= s.subrange(0, hi));
    }
}

/// One more character extends the digit extraction by that character when it
/// is a digit, and not at all otherwise.
proof fn lemma_digits_of_push(s: Seq<char>, c: char)
    ensures
        is_digit(c) ==> digits_of(s.push(c)) == digits_of(s) + seq![c],
        !is_digit(c) ==> digits_of(s.push(c)) == digits_of(s),
{
    reveal(Seq::filter);
    assert(s.push(c).drop_last() =~= s);
    if is_digit(c) {
        assert(digits_of(s).push(c) =~= digits_of(s) + seq![c]);
    }
}

/// One more digit multiplies the value by ten and adds the digit.
proof fn lemma_dec_val_push(s: Seq<char>, c: char)
    ensures
        dec_val(s.push(c)) == dec_val(s) * 10 + digit_val(c),
{
    assert(s.push(c).drop_last() =~= s);
}

/// Extracting digits from an all-digit string keeps it whole.
proof fn lemma_digits_of_all(s: Seq<char>)
    requires
        forall|i: int| 0 <= i < s.len() ==> is_digit(#[trigger] s[i]),
    ensures
        digits_of(s) == s,
    decreases s.len(),
{
    reveal(Seq::filter);
    if s.len() > 0 {
        lemma_digits_of_all(s.drop_last());
        assert(digits_of(s.drop_last()).push(s.last()) =~= s);
    }
}

fn space_char(c: char) -> (b: bool)
    ensures
        b == is_space(c),
{
    c == ' ' || c == '\t' || c == '\n' || c == '\r'
}

/// The canonical text of an identifier: the tag letter, then the digits.
pub open spec fn id_text(i: ID) -> Seq<char> {
    match i {
        ID::Node(v) => seq!['n'] + dec_seq(v as nat),
        ID::Client(v) => seq!['c'] + dec_seq(v as nat),
    }
}

impl ID {
    /// The canonical textual form, `n<digits>` or `c<digits>`.
    pub fn to_string(&self) -> (r: String)
        ensures
            r@ == id_text(*self),
    {
        let mut out = String::new();
        proof {
            reveal_strlit("n");
            reveal_strlit("c");
        }
        match self {
            ID::Node(v) => {
                out.append("n");
                push_decimal_u32(*v, &mut out);
            },
            ID::Client(v) => {
                out.append("c");
                push_decimal_u32(*v, &mut out);
            },
        }
        proof {
            assert(out@ =~= id_text(*self));
        }
        out
    }

    /// Parses `s` as an identifier; the result is exactly `parse_spec(s@)`.
    pub fn from_str(s: &str) -> (r: Result<ID, IDParseError>)
        ensures
            r == parse_spec(s@),
    {
        let len = s.unicode_len();
        let mut lo: usize = 0;
        while lo < len && space_char(s.get_char(lo))
            invariant
                len == s@.len(),
                lo <= len,
                forall|k: int| 0 <= k < lo ==> is_space(#[trigger] s@[k]),
            decreases len - lo,
        {
            lo += 1;
        }
        let mut hi: usize = len;
        while hi > lo && space_char(s.get_char(hi - 1))
            invariant
                len == s@.len(),
                lo <= hi <= len,
                forall|k: int| hi <= k < len ==> is_space(#[trigger] s@[k]),
            decreases hi,
        {
            hi -= 1;
        }
        let ghost t = trimmed(s@);
        proof {
            lemma_trim_left_skip(s@, lo as int);
            let sub = s@.subrange(lo as int, len as int);
            assert forall|k: int| hi - lo <= k < sub.len() implies is_space(
                #[trigger] sub[k],
            ) by {
                assert(sub[k] == s@[k + lo]);
            }
            if hi > lo {
                assert(!is_space(sub[hi - lo - 1]));
            }
            lemma_trim_right_skip(sub, hi - lo);
            assert(sub.subrange(0, hi - lo) =~= s@.subrange(lo as int, hi as int));
            assert(t =~= s@.subrange(lo as int, hi as int));
        }
        if lo == hi {
            return Err(IDParseError::EmptyID);
        }
        let tag = s.get_char(lo);
        proof {
            assert(t[0] == s@[lo as int]);
        }
        let is_node = tag == 'n' || tag == 'N';
        let is_client = tag == 'c' || tag == 'C';
        if !is_node && !is_client {
            return Err(IDParseError::UnknownIDType);
        }
        let mut i: usize = lo + 1;
        let mut acc: u64 = 0;
        let mut seen = false;
        let mut over = false;
        while i < hi
            invariant
                len == s@.len(),
                lo + 1 <= i <= hi <= len,
                seen <==> digits_of(s@.subrange(lo + 1, i as int)).len() > 0,
                !over ==> acc == dec_val(digits_of(s@.subrange(lo + 1, i as int))) && acc
                    <= u32::MAX,
                over ==> dec_val(digits_of(s@.subrange(lo + 1, i as int))) > u32::MAX,
            decreases hi - i,
        {
            let c = s.get_char(i);
            let ghost pre = s@.subrange(lo + 1, i as int);
            proof {
                assert(s@.subrange(lo + 1, i + 1) =~= pre.push(c));
                lemma_digits_of_push(pre, c);
                lemma_dec_val_push(digits_of(pre), c);
                assert(digits_of(pre) + seq![c] =~= digits_of(pre).push(c));
            }
            let u = c as u32;
            if 48 <= u && u <= 57 {
                if !over {
                    acc = acc * 10 + (u - 48) as u64;
                    if acc > 0xFFFF_FFFFu64 {
                        over = true;
                    }
                }
                seen = true;
            }
            i += 1;
        }
        let ghost ds = digits_of(t.drop_first());
        proof {
            assert(t.drop_first() =~= s@.subrange(lo + 1, hi as int));
        }
        if !seen || over {
            return Err(IDParseError::FailedParseInt);
        }
        let v = acc as u32;
        if is_node {
            Ok(ID::Node(v))
        } else {
            Ok(ID::Client(v))
        }
    }
}

/// Formatting then parsing is the identity: the canonical text of any
/// identifier parses back to that identifier.
pub proof fn lemma_parse_of_format(i: ID)
    ensures
        parse_spec(id_text(i)) == Ok::<ID, IDParseError>(i),
{
    let t = id_text(i);
    let v: nat = match i {
        ID::Node(v) => v as nat,
        ID::Client(v) => v as nat,
    };
    lemma_dec_seq_digits(v);
    lemma_dec_val_of_dec_seq(v);
    assert(t.len() == 1 + dec_seq(v).len());
    assert(t.last() == dec_seq(v)[dec_seq(v).len() - 1]);
    assert(is_digit(t.last()));
    assert(trim_left(t) == t);
    assert(trim_right(t) == t);
    assert(t.drop_first() =~= dec_seq(v));
    lemma_digits_of_all(dec_seq(v));
}

/// A malformed text is refused with the matching error kind: whitespace or
/// nothing at all as `EmptyID`; an unknown tag letter as `UnknownIDType`;
/// missing digits, or digits naming a number above 32 bits, as
/// `FailedParseInt`. Parsing returns the error; it never panics.
pub proof fn lemma_parse_rejects_malformed(s: Seq<char>)
    ensures
        trimmed(s).len() == 0 ==> parse_spec(s) == Err::<ID, IDParseError>(IDParseError::EmptyID),
        trimmed(s).len() > 0 && !is_tag(trimmed(s)[0]) ==> parse_spec(s) == Err::<
            ID,
            IDParseError,
        >(IDParseError::UnknownIDType),
        trimmed(s).len() > 0 && is_tag(trimmed(s)[0]) && digits_of(trimmed(s).drop_first()).len()
            == 0 ==> parse_spec(s) == Err::<ID, IDParseError>(IDParseError::FailedParseInt),
        trimmed(s).len() > 0 && is_tag(trimmed(s)[0]) && dec_val(
            digits_of(trimmed(s).drop_first()),
        ) > u32::MAX ==> parse_spec(s) == Err::<ID, IDParseError>(IDParseError::FailedParseInt),
{
}

} // verus!
