//! Text helpers shared by the reader, the printer and the diagnostics: the
//! characters of a string, UTF-8 widths, and the decimal spelling of an
//! integer in both directions.

use vstd::prelude::*;
use vstd::string::*;

verus! {

/// The number of bytes UTF-8 spends on one character.
pub open spec fn char_width(c: char) -> nat {
    let v = c as u32;
    if v <= 0x7F {
        1
    } else if v <= 0x7FF {
        2
    } else if v <= 0xFFFF {
        3
    } else {
        4
    }
}

/// The byte length of the UTF-8 encoding of `cs`.
pub open spec fn utf8_len(cs: Seq<char>) -> nat
    decreases cs.len(),
{
    if cs.len() == 0 {
        0
    } else {
        utf8_len(cs.drop_last()) + char_width(cs.last())
    }
}

/// The byte offset at which the character with index `i` starts.
pub open spec fn byte_offset(cs: Seq<char>, i: int) -> nat {
    utf8_len(cs.take(i))
}

pub proof fn lemma_utf8_len_push(cs: Seq<char>, c: char)
    ensures
        utf8_len(cs.push(c)) == utf8_len(cs) + char_width(c),
{
    assert(cs.push(c).drop_last() =~= cs);
}

pub proof fn lemma_byte_offset_step(cs: Seq<char>, i: int)
    requires
        0 <= i < cs.len(),
    ensures
        byte_offset(cs, i + 1) == byte_offset(cs, i) + char_width(cs[i]),
{
    assert(cs.take(i + 1) =~= cs.take(i).push(cs[i]));
    lemma_utf8_len_push(cs.take(i), cs[i]);
}

pub proof fn lemma_byte_offset_mono(cs: Seq<char>, i: int, j: int)
    requires
        0 <= i <= j <= cs.len(),
    ensures
        byte_offset(cs, i) <= byte_offset(cs, j),
    decreases j - i,
{
    if i < j {
        lemma_byte_offset_step(cs, j - 1);
        lemma_byte_offset_mono(cs, i, j - 1);
    }
}

/// `char::len_utf8`, by the table it implements.
pub fn width_of(c: char) -> (r: usize)
    ensures
        r == char_width(c),
        1 <= r <= 4,
{
    let v = c as u32;
    if v <= 0x7F {
        1
    } else if v <= 0x7FF {
        2
    } else if v <= 0xFFFF {
        3
    } else {
        4
    }
}

/// The characters of `s`, in order.
pub fn chars_of(s: &str) -> (r: Vec<char>)
    ensures
        r@ == s@,
{
    let mut out: Vec<char> = Vec::new();
    for c in it: s.chars()
        invariant
            out@ == it.seq().take(it.index() as int),
            it.seq() == s@,
    {
        proof {
            assert(it.seq().take(it.index() + 1) =~= it.seq().take(it.index() as int).push(c));
        }
        out.push(c);
    }
    proof {
        assert(s@.take(s@.len() as int) =~= s@);
    }
    out
}

/// `String::push`.
#[verifier::external_body]
pub(crate) fn push_char(s: &mut String, c: char)
    ensures
        final(s)@ == old(s)@.push(c),
{
    s.push(c);
}

/// Append a string.
pub fn push_str(s: &mut String, t: &str)
    ensures
        final(s)@ == old(s)@ + t@,
{
    s.append(t);
}

/// A string holding the characters `cs[from..to]`.
pub fn string_of_range(cs: &[char], from: usize, to: usize) -> (r: String)
    requires
        from <= to <= cs@.len(),
    ensures
        r@ == cs@.subrange(from as int, to as int),
{
    let mut out = String::new();
    let mut i: usize = from;
    while i < to
        invariant
            from <= i <= to <= cs@.len(),
            out@ == cs@.subrange(from as int, i as int),
        decreases to - i,
    {
        proof {
            assert(cs@.subrange(from as int, i + 1) =~= cs@.subrange(from as int, i as int).push(
                cs@[i as int],
            ));
        }
        push_char(&mut out, cs[i]);
        i = i + 1;
    }
    out
}

/// A fresh copy of `s`.
pub fn copy_str(s: &str) -> (r: String)
    ensures
        r@ == s@,
{
    let mut out = String::new();
    push_str(&mut out, s);
    proof {
        assert(Seq::<char>::empty() + s@ =~= s@);
    }
    out
}

/// Two strings hold the same characters.
pub fn str_eq(a: &str, b: &str) -> (r: bool)
    ensures
        r == (a@ == b@),
{
    let x = chars_of(a);
    let y = chars_of(b);
    if x.len() != y.len() {
        return false;
    }
    let mut i: usize = 0;
    while i < x.len()
        invariant
            x@ == a@,
            y@ == b@,
            x@.len() == y@.len(),
            i <= x@.len(),
            forall|j: int| 0 <= j < i ==> x@[j] == y@[j],
        decreases x@.len() - i,
    {
        if x[i] != y[i] {
            return false;
        }
        i = i + 1;
    }
    proof {
        assert(a@ =~= b@);
    }
    true
}

// --- decimal integers --------------------------------------------------------

/// The digit character for `d`, which is below ten.
pub open spec fn digit_char(d: nat) -> char {
    ((d + 48) as u32) as char
}

pub open spec fn is_digit(c: char) -> bool {
    '0' <= c <= '9'
}

pub open spec fn digit_value(c: char) -> nat {
    ((c as u32) - 48) as nat
}

/// The decimal digits of a natural number, most significant first, with no
/// leading zero (and `0` spelled as one digit).
pub open spec fn nat_digits(n: nat) -> Seq<char>
    decreases n,
{
    if n < 10 {
        seq![digit_char(n)]
    } else {
        nat_digits(n / 10).push(digit_char(n % 10))
    }
}

/// How Rust's `Display` spells an integer.
pub open spec fn int_text(i: int) -> Seq<char> {
    if i < 0 {
        seq!['-'] + nat_digits((-i) as nat)
    } else {
        nat_digits(i as nat)
    }
}

/// The value of a run of digits.
pub open spec fn digits_value(cs: Seq<char>) -> nat
    decreases cs.len(),
{
    if cs.len() == 0 {
        0
    } else {
        digits_value(cs.drop_last()) * 10 + digit_value(cs.last())
    }
}

pub open spec fn all_digits(cs: Seq<char>) -> bool {
    forall|k: int| 0 <= k < cs.len() ==> is_digit(#[trigger] cs[k])
}

/// What `str::parse::<i64>` accepts: an optional sign, then one or more ASCII
/// digits, whose value fits.
pub open spec fn is_signed(cs: Seq<char>) -> bool {
    cs.len() > 0 && (cs[0] == '-' || cs[0] == '+')
}

pub open spec fn unsigned_part(cs: Seq<char>) -> Seq<char> {
    if is_signed(cs) {
        cs.drop_first()
    } else {
        cs
    }
}

pub open spec fn parse_i64_spec(cs: Seq<char>) -> Option<int> {
    let ds = unsigned_part(cs);
    if ds.len() == 0 || !all_digits(ds) {
        None
    } else {
        let v: int = if cs[0] == '-' {
            -(digits_value(ds) as int)
        } else {
            digits_value(ds) as int
        };
        if i64::MIN <= v <= i64::MAX {
            Some(v)
        } else {
            None
        }
    }
}

/// The largest magnitude the accumulator tracks exactly; anything at least
/// this large is out of range for every sign.
pub open spec fn cap() -> nat {
    0x1_0000_0000_0000_0000
}

pub open spec fn min_nat(a: nat, b: nat) -> nat {
    if a < b {
        a
    } else {
        b
    }
}

proof fn lemma_all_digits_push(cs: Seq<char>, c: char)
    requires
        all_digits(cs),
        is_digit(c),
    ensures
        all_digits(cs.push(c)),
{
    assert forall|k: int| 0 <= k < cs.push(c).len() implies is_digit(#[trigger] cs.push(c)[k]) by {
        if k < cs.len() {
            assert(cs.push(c)[k] == cs[k]);
        }
    }
}

proof fn lemma_digit_char(d: nat)
    requires
        d < 10,
    ensures
        is_digit(digit_char(d)),
        digit_value(digit_char(d)) == d,
{
    assert(((d + 48) as u32) as char as u32 == (d + 48) as u32);
}

/// The decimal digits of `n` are all digits and denote `n`.
pub proof fn lemma_nat_digits(n: nat)
    ensures
        all_digits(nat_digits(n)),
        digits_value(nat_digits(n)) == n,
        nat_digits(n).len() > 0,
        is_digit(nat_digits(n)[0]),
    decreases n,
{
    if n < 10 {
        lemma_digit_char(n);
        let ds = nat_digits(n);
        assert(ds.drop_last() =~= Seq::<char>::empty());
        assert(ds.last() == digit_char(n));
        assert(digits_value(ds) == digits_value(ds.drop_last()) * 10 + digit_value(ds.last()));
        assert(all_digits(ds));
    } else {
        lemma_nat_digits(n / 10);
        lemma_digit_char(n % 10);
        lemma_all_digits_push(nat_digits(n / 10), digit_char(n % 10));
        let ds = nat_digits(n);
        assert(ds.drop_last() =~= nat_digits(n / 10));
        assert(ds.last() == digit_char(n % 10));
        assert(digits_value(ds) == digits_value(ds.drop_last()) * 10 + digit_value(ds.last()));
        assert((n / 10) * 10 + n % 10 == n);
        assert(ds[0] == nat_digits(n / 10)[0]);
    }
}

/// The text `Display` gives an integer parses back to it.
pub proof fn lemma_int_text_parses(i: int)
    requires
        i64::MIN <= i <= i64::MAX,
    ensures
        parse_i64_spec(int_text(i)) == Some(i),
        int_text(i).len() > 0,
        is_digit(int_text(i)[0]) || (int_text(i)[0] == '-' && int_text(i).len() > 1 && is_digit(int_text(i)[1])),
{
    if i < 0 {
        lemma_nat_digits((-i) as nat);
        let t = int_text(i);
        assert(t[0] == '-');
        assert(unsigned_part(t) =~= nat_digits((-i) as nat));
        assert(t[1] == nat_digits((-i) as nat)[0]);
    } else {
        lemma_nat_digits(i as nat);
        assert(unsigned_part(int_text(i)) =~= nat_digits(i as nat));
    }
}

/// `str::parse::<i64>`, by the grammar it implements.
pub fn parse_i64(s: &[char]) -> (r: Option<i64>)
    ensures
        match r {
            Some(v) => parse_i64_spec(s@) == Some(v as int),
            None => parse_i64_spec(s@) is None,
        },
{
    let n = s.len();
    let neg = n > 0 && s[0] == '-';
    let signed = n > 0 && (s[0] == '-' || s[0] == '+');
    let start: usize = if signed {
        1
    } else {
        0
    };
    let ghost ds = unsigned_part(s@);
    assert(signed == is_signed(s@));
    assert(ds =~= s@.subrange(start as int, n as int));
    if start == n {
        return None;
    }
    let mut acc: u128 = 0;
    let mut i: usize = start;
    while i < n
        invariant
            start <= i <= n,
            n == s@.len(),
            ds == s@.subrange(start as int, n as int),
            ds == unsigned_part(s@),
            all_digits(s@.subrange(start as int, i as int)),
            acc as nat == min_nat(digits_value(s@.subrange(start as int, i as int)), cap()),
        decreases n - i,
    {
        let c = s[i];
        let ghost pre = s@.subrange(start as int, i as int);
        proof {
            assert(s@.subrange(start as int, i + 1) =~= pre.push(c));
            assert(pre.push(c).drop_last() =~= pre);
        }
        if !('0' <= c && c <= '9') {
            proof {
                assert(ds[i - start] == c);
                assert(!is_digit(ds[i - start]));
                assert(!all_digits(ds));
            }
            return None;
        }
        let d = (c as u32 - 48) as u128;
        let next = acc * 10 + d;
        acc = if next >= 0x1_0000_0000_0000_0000 {
            0x1_0000_0000_0000_0000
        } else {
            next
        };
        proof {
            lemma_all_digits_push(pre, c);
            assert(digits_value(pre.push(c)) == digits_value(pre) * 10 + digit_value(c));
            if digits_value(pre) >= cap() {
                assert(digits_value(pre) * 10 + digit_value(c) >= cap()) by (nonlinear_arith)
                    requires
                        digits_value(pre) >= cap(),
                ;
            }
        }
        i = i + 1;
    }
    if neg {
        if acc > 0x8000_0000_0000_0000 {
            None
        } else {
            Some((0i128 - acc as i128) as i64)
        }
    } else {
        if acc > 0x7fff_ffff_ffff_ffff {
            None
        } else {
            Some(acc as i64)
        }
    }
}

/// The decimal digits of `n`, appended.
pub fn push_nat_digits(out: &mut String, n: u128)
    ensures
        final(out)@ == old(out)@ + nat_digits(n as nat),
    decreases n,
{
    if n < 10 {
        push_char(out, ((n as u8) + 48) as char);
        proof {
            assert(old(out)@.push(digit_char(n as nat)) =~= old(out)@ + nat_digits(n as nat));
        }
    } else {
        push_nat_digits(out, n / 10);
        let ghost mid = out@;
        push_char(out, (((n % 10) as u8) + 48) as char);
        proof {
            assert(mid.push(digit_char((n % 10) as nat)) =~= old(out)@ + nat_digits(n as nat));
        }
    }
}

/// Integer `Display`.
pub fn int_to_text(i: i64) -> (r: String)
    ensures
        r@ == int_text(i as int),
{
    let mut out = String::new();
    if i < 0 {
        push_char(&mut out, '-');
        let mag: u64 = (0i128 - i as i128) as u64;
        push_nat_digits(&mut out, mag as u128);
    } else {
        push_nat_digits(&mut out, i as u128);
    }
    proof {
        if i >= 0 {
            assert(Seq::<char>::empty() + nat_digits(i as nat) =~= nat_digits(i as nat));
        }
    }
    out
}

/// `usize` `Display`.
pub fn nat_to_text(n: u64) -> (r: String)
    ensures
        r@ == nat_digits(n as nat),
{
    let mut out = String::new();
    push_nat_digits(&mut out, n as u128);
    proof {
        assert(Seq::<char>::empty() + nat_digits(n as nat) =~= nat_digits(n as nat));
    }
    out
}

/// The width `char_width` gives is the length of the encoding vstd defines.
pub proof fn lemma_scalar_width(c: char)
    ensures
        vstd::utf8::encode_scalar(c as u32).len() == char_width(c),
{
    broadcast use vstd::utf8::char_is_scalar;

    assert(vstd::utf8::is_scalar(c as u32));
}

proof fn lemma_utf8_len_front(cs: Seq<char>)
    requires
        cs.len() > 0,
    ensures
        utf8_len(cs) == char_width(cs[0]) + utf8_len(cs.drop_first()),
    decreases cs.len(),
{
    if cs.len() == 1 {
        assert(cs.drop_last().len() == 0);
        assert(cs.drop_first().len() == 0);
        assert(cs.last() == cs[0]);
        assert(utf8_len(cs) == utf8_len(cs.drop_last()) + char_width(cs.last()));
    } else {
        let dl = cs.drop_last();
        lemma_utf8_len_front(dl);
        assert(dl[0] == cs[0]);
        assert(dl.drop_first() =~= cs.drop_first().drop_last());
        assert(cs.drop_first().last() == cs.last());
        assert(utf8_len(cs) == utf8_len(dl) + char_width(cs.last()));
        assert(utf8_len(cs.drop_first()) == utf8_len(cs.drop_first().drop_last()) + char_width(
            cs.drop_first().last(),
        ));
    }
}

/// `utf8_len` is the length of vstd's `encode_utf8`, which is what `str::len`
/// reports.
pub proof fn lemma_utf8_len_encoding(cs: Seq<char>)
    ensures
        utf8_len(cs) == vstd::utf8::encode_utf8(cs).len(),
    decreases cs.len(),
{
    if cs.len() > 0 {
        lemma_utf8_len_front(cs);
        lemma_utf8_len_encoding(cs.drop_first());
        lemma_scalar_width(cs[0]);
    }
}

/// `a` followed by `b`.
pub fn cat(a: &str, b: &str) -> (r: String)
    ensures
        r@ == a@ + b@,
{
    let mut out = copy_str(a);
    push_str(&mut out, b);
    out
}

/// `a`, `b`, `c`, in that order.
pub fn cat3(a: &str, b: &str, c: &str) -> (r: String)
    ensures
        r@ == a@ + b@ + c@,
{
    let mut out = copy_str(a);
    push_str(&mut out, b);
    push_str(&mut out, c);
    out
}

} // verus!
