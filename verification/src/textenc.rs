//! Character-level encoding primitives for the record format: escaping
//! of the separator characters, and decimal notation for integers. Each
//! encoding comes with its decoder and a proof that decoding undoes
//! encoding.

use vstd::prelude::*;

verus! {

// ---------------------------------------------------------------------
// Escaping. A field may contain any character; records separate fields
// with tabs and end with a newline, so backslash, tab and newline are
// written as two-character escape sequences.
// ---------------------------------------------------------------------

pub open spec fn esc_char(c: char) -> Seq<char> {
    if c == '\\' {
        seq!['\\', '\\']
    } else if c == '\n' {
        seq!['\\', 'n']
    } else if c == '\t' {
        seq!['\\', 't']
    } else {
        seq![c]
    }
}

/// The escaped form of `s`: each character replaced by its escape
/// sequence.
pub open spec fn esc(s: Seq<char>) -> Seq<char>
    decreases s.len(),
{
    if s.len() == 0 {
        Seq::empty()
    } else {
        esc_char(s[0]) + esc(s.drop_first())
    }
}

/// The string an escaped sequence stands for, or `None` where a
/// backslash is not followed by a valid escape code.
pub open spec fn unesc(s: Seq<char>) -> Option<Seq<char>>
    decreases s.len(),
{
    if s.len() == 0 {
        Some(Seq::empty())
    } else if s[0] == '\\' {
        if s.len() >= 2 && (s[1] == '\\' || s[1] == 'n' || s[1] == 't') {
            let c = if s[1] == '\\' {
                '\\'
            } else if s[1] == 'n' {
                '\n'
            } else {
                '\t'
            };
            match unesc(s.skip(2)) {
                Some(rest) => Some(seq![c] + rest),
                None => None,
            }
        } else {
            None
        }
    } else {
        match unesc(s.drop_first()) {
            Some(rest) => Some(seq![s[0]] + rest),
            None => None,
        }
    }
}

/// The escaped form of a single character is its escape sequence.
pub proof fn lemma_esc_single(c: char)
    ensures
        esc(seq![c]) == esc_char(c),
{
    let s = seq![c];
    assert(s.len() == 1);
    assert(s[0] == c);
    assert(s.drop_first() =~= Seq::<char>::empty());
    assert(esc(Seq::<char>::empty()) =~= Seq::<char>::empty());
    assert(esc(s) == esc_char(c) + esc(s.drop_first()));
    assert(esc_char(c) + Seq::<char>::empty() =~= esc_char(c));
}

/// Escaping distributes over concatenation.
pub proof fn lemma_esc_app(a: Seq<char>, b: Seq<char>)
    ensures
        esc(a + b) == esc(a) + esc(b),
    decreases a.len(),
{
    if a.len() == 0 {
        assert(a + b =~= b);
        assert(esc(a) + esc(b) =~= esc(b));
    } else {
        assert((a + b).len() > 0);
        assert((a + b)[0] == a[0]);
        assert((a + b).drop_first() =~= a.drop_first() + b);
        lemma_esc_app(a.drop_first(), b);
        assert(esc_char(a[0]) + (esc(a.drop_first()) + esc(b)) =~= (esc_char(a[0]) + esc(
            a.drop_first(),
        )) + esc(b));
    }
}

/// An escaped string never contains a raw tab or newline.
pub proof fn lemma_esc_no_sep(s: Seq<char>)
    ensures
        forall|i: int| 0 <= i < esc(s).len() ==> esc(s)[i] != '\t' && esc(s)[i] != '\n',
    decreases s.len(),
{
    if s.len() > 0 {
        lemma_esc_no_sep(s.drop_first());
        let head = esc_char(s[0]);
        let tail = esc(s.drop_first());
        assert(esc(s) == head + tail);
        assert forall|i: int| 0 <= i < esc(s).len() implies esc(s)[i] != '\t' && esc(s)[i]
            != '\n' by {
            if i < head.len() {
                assert(esc(s)[i] == head[i]);
            } else {
                assert(esc(s)[i] == tail[i - head.len()]);
            }
        }
    }
}

/// Unescaping undoes escaping.
pub proof fn lemma_unesc_esc(s: Seq<char>)
    ensures
        unesc(esc(s)) == Some(s),
    decreases s.len(),
{
    if s.len() == 0 {
    } else {
        let c = s[0];
        let rest = s.drop_first();
        lemma_unesc_esc(rest);
        let e = esc(s);
        assert(e == esc_char(c) + esc(rest));
        if c == '\\' || c == '\n' || c == '\t' {
            assert(e.len() >= 2);
            assert(e[0] == '\\');
            assert(e.skip(2) =~= esc(rest));
            assert(seq![c] + rest =~= s);
        } else {
            assert(e[0] == c);
            assert(e.drop_first() =~= esc(rest));
            assert(seq![c] + rest =~= s);
        }
    }
}

/// Append the escaped form of `s` to `out`.
pub fn escape_into(out: &mut Vec<char>, s: &str)
    ensures
        final(out)@ == old(out)@ + esc(s@),
{
    let chars = crate::strutil::str_to_chars(s);
    let n: usize = chars.len();
    let ghost base = out@;
    let mut i: usize = 0;
    proof {
        assert(base + esc(chars@.take(0)) =~= base);
    }
    while i < n
        invariant
            i <= n,
            n == chars@.len(),
            chars@ == s@,
            out@ == base + esc(chars@.take(i as int)),
        decreases n - i,
    {
        let c = chars[i];
        if c == '\\' {
            out.push('\\');
            out.push('\\');
        } else if c == '\n' {
            out.push('\\');
            out.push('n');
        } else if c == '\t' {
            out.push('\\');
            out.push('t');
        } else {
            out.push(c);
        }
        proof {
            assert(chars@.take(i + 1) =~= chars@.take(i as int) + seq![chars@[i as int]]);
            lemma_esc_app(chars@.take(i as int), seq![chars@[i as int]]);
            lemma_esc_single(c);
            assert(base + (esc(chars@.take(i as int)) + esc_char(c)) =~= (base + esc(
                chars@.take(i as int),
            )) + esc_char(c));
            assert(out@ == base + esc(chars@.take(i + 1)));
        }
        i = i + 1;
    }
    proof {
        assert(chars@.take(n as int) =~= s@);
    }
}

/// What remains of `unesc` when a decoded prefix `acc` is already fixed.
pub open spec fn unesc_with(acc: Seq<char>, s: Seq<char>) -> Option<Seq<char>> {
    match unesc(s) {
        Some(rest) => Some(acc + rest),
        None => None,
    }
}

/// Decode an escaped field, walking `s` between `from` and `to`.
pub fn unescape_range(s: &[char], from: usize, to: usize) -> (r: Option<Vec<char>>)
    requires
        from <= to <= s@.len(),
    ensures
        match r {
            Some(v) => unesc(s@.subrange(from as int, to as int)) == Some(v@),
            None => unesc(s@.subrange(from as int, to as int)) is None,
        },
{
    let ghost whole = s@.subrange(from as int, to as int);
    let mut acc: Vec<char> = Vec::new();
    let mut i: usize = from;
    while i < to
        invariant
            from <= i <= to <= s@.len(),
            whole == s@.subrange(from as int, to as int),
            unesc_with(acc@, s@.subrange(i as int, to as int)) == unesc_with(
                Seq::<char>::empty(),
                whole,
            ),
        decreases to - i,
    {
        let ghost pre = s@.subrange(i as int, to as int);
        let c = s[i];
        proof {
            assert(pre[0] == c);
        }
        if c == '\\' {
            if i + 1 >= to {
                proof {
                    assert(pre.len() == 1);
                    assert(unesc(pre) is None);
                }
                return None;
            }
            let d = s[i + 1];
            proof {
                assert(pre.len() >= 2);
                assert(pre[1] == d);
            }
            if d == '\\' || d == 'n' || d == 't' {
                let decoded: char = if d == '\\' {
                    '\\'
                } else if d == 'n' {
                    '\n'
                } else {
                    '\t'
                };
                let ghost old_acc = acc@;
                acc.push(decoded);
                proof {
                    assert(pre.skip(2) =~= s@.subrange(i + 2, to as int));
                    assert(old_acc.push(decoded) =~= old_acc + seq![decoded]);
                    if unesc(s@.subrange(i + 2, to as int)) is Some {
                        let rest = unesc(s@.subrange(i + 2, to as int)).unwrap();
                        assert(old_acc + (seq![decoded] + rest) =~= (old_acc + seq![decoded])
                            + rest);
                    }
                }
                i = i + 2;
            } else {
                proof {
                    assert(unesc(pre) is None);
                }
                return None;
            }
        } else {
            let ghost old_acc = acc@;
            acc.push(c);
            proof {
                assert(pre.drop_first() =~= s@.subrange(i + 1, to as int));
                assert(old_acc.push(c) =~= old_acc + seq![c]);
                if unesc(s@.subrange(i + 1, to as int)) is Some {
                    let rest = unesc(s@.subrange(i + 1, to as int)).unwrap();
                    assert(old_acc + (seq![c] + rest) =~= (old_acc + seq![c]) + rest);
                }
            }
            i = i + 1;
        }
    }
    proof {
        assert(s@.subrange(to as int, to as int) =~= Seq::<char>::empty());
        assert(unesc(Seq::<char>::empty()) == Some(Seq::<char>::empty()));
        assert(acc@ + Seq::<char>::empty() =~= acc@);
        assert(Seq::<char>::empty() + acc@ =~= acc@);
    }
    Some(acc)
}

// ---------------------------------------------------------------------
// Decimal notation for unsigned and signed integers.
// ---------------------------------------------------------------------

pub open spec fn is_digit(c: char) -> bool {
    48 <= c as u32 <= 57
}

pub open spec fn digit_val(c: char) -> nat {
    (c as u32 - 48) as nat
}

pub open spec fn char_of_digit(d: nat) -> char {
    if d == 0 {
        '0'
    } else if d == 1 {
        '1'
    } else if d == 2 {
        '2'
    } else if d == 3 {
        '3'
    } else if d == 4 {
        '4'
    } else if d == 5 {
        '5'
    } else if d == 6 {
        '6'
    } else if d == 7 {
        '7'
    } else if d == 8 {
        '8'
    } else {
        '9'
    }
}

pub open spec fn all_digits(s: Seq<char>) -> bool {
    forall|i: int| 0 <= i < s.len() ==> is_digit(s[i])
}

/// The number a digit string denotes.
pub open spec fn dec_value(s: Seq<char>) -> nat
    decreases s.len(),
{
    if s.len() == 0 {
        0
    } else {
        dec_value(s.take(s.len() - 1)) * 10 + digit_val(s[s.len() - 1])
    }
}

/// The canonical decimal notation of `n`: no sign, no leading zeros.
pub open spec fn dec_digits(n: nat) -> Seq<char>
    decreases n,
{
    if n < 10 {
        seq![char_of_digit(n)]
    } else {
        dec_digits(n / 10) + seq![char_of_digit(n % 10)]
    }
}

proof fn lemma_digit_char(d: nat)
    requires
        d < 10,
    ensures
        is_digit(char_of_digit(d)),
        digit_val(char_of_digit(d)) == d,
{
}

/// The canonical notation of `n` is nonempty, all digits, and denotes `n`.
pub proof fn lemma_dec_digits_value(n: nat)
    ensures
        dec_digits(n).len() >= 1,
        all_digits(dec_digits(n)),
        dec_value(dec_digits(n)) == n,
    decreases n,
{
    if n < 10 {
        let s = dec_digits(n);
        lemma_digit_char(n);
        assert(s.len() == 1);
        assert(s[0] == char_of_digit(n));
        assert(s.take(s.len() - 1) =~= Seq::<char>::empty());
        assert(dec_value(Seq::<char>::empty()) == 0);
        assert(dec_value(s) == dec_value(s.take(s.len() - 1)) * 10 + digit_val(s[s.len() - 1]));
    } else {
        lemma_dec_digits_value(n / 10);
        lemma_digit_char(n % 10);
        let s = dec_digits(n);
        let pre = dec_digits(n / 10);
        assert(s == pre + seq![char_of_digit(n % 10)]);
        assert(s.take(s.len() - 1) =~= pre);
        assert(s[s.len() - 1] == char_of_digit(n % 10));
        assert(dec_value(s) == (n / 10) * 10 + n % 10);
        vstd::arithmetic::div_mod::lemma_fundamental_div_mod(n as int, 10);
        assert forall|i: int| 0 <= i < s.len() implies is_digit(s[i]) by {
            if i < pre.len() {
                assert(s[i] == pre[i]);
            }
        }
    }
}

/// Longer digit prefixes never denote smaller numbers.
pub proof fn lemma_dec_value_mono(s: Seq<char>, i: int)
    requires
        0 <= i <= s.len(),
    ensures
        dec_value(s) >= dec_value(s.take(i)),
    decreases s.len() - i,
{
    if i < s.len() {
        lemma_dec_value_mono(s, i + 1);
        let t = s.take(i + 1);
        assert(t.take(t.len() - 1) =~= s.take(i));
        assert(dec_value(t) == dec_value(s.take(i)) * 10 + digit_val(t[t.len() - 1]));
        assert(dec_value(s.take(i)) * 10 >= dec_value(s.take(i)));
    } else {
        assert(s.take(i) =~= s);
    }
}

fn char_of_digit_x(d: u64) -> (r: char)
    requires
        d < 10,
    ensures
        r == char_of_digit(d as nat),
{
    if d == 0 {
        '0'
    } else if d == 1 {
        '1'
    } else if d == 2 {
        '2'
    } else if d == 3 {
        '3'
    } else if d == 4 {
        '4'
    } else if d == 5 {
        '5'
    } else if d == 6 {
        '6'
    } else if d == 7 {
        '7'
    } else if d == 8 {
        '8'
    } else {
        '9'
    }
}

/// Append the decimal notation of `n` to `out`.
pub fn u64_to_dec_into(out: &mut Vec<char>, n: u64)
    ensures
        final(out)@ == old(out)@ + dec_digits(n as nat),
{
    let ghost base = out@;
    let mut rev: Vec<char> = Vec::new();
    let mut m: u64 = n;
    while m >= 10
        invariant
            dec_digits(n as nat) == dec_digits(m as nat) + rev@.reverse(),
        decreases m,
    {
        let ghost m0 = m as nat;
        let ghost rev0 = rev@;
        let d: u64 = m % 10;
        rev.push(char_of_digit_x(d));
        m = m / 10;
        proof {
            assert(dec_digits(m0) == dec_digits(m0 / 10) + seq![char_of_digit(m0 % 10)]);
            assert(rev0.push(char_of_digit(m0 % 10)).reverse() =~= seq![char_of_digit(m0 % 10)]
                + rev0.reverse());
            assert(dec_digits(m as nat) + rev@.reverse() =~= (dec_digits(m0 / 10) + seq![
                char_of_digit(m0 % 10),
            ]) + rev0.reverse());
        }
    }
    out.push(char_of_digit_x(m));
    proof {
        assert(dec_digits(n as nat) == seq![char_of_digit(m as nat)] + rev@.reverse());
        assert(out@ == base + dec_digits(n as nat).take(1));
    }
    let k: usize = rev.len();
    let mut j: usize = 0;
    while j < k
        invariant
            j <= k,
            k == rev@.len(),
            dec_digits(n as nat) == seq![char_of_digit(m as nat)] + rev@.reverse(),
            out@ == base + dec_digits(n as nat).take(1 + j),
        decreases k - j,
    {
        out.push(rev[k - 1 - j]);
        proof {
            let whole = dec_digits(n as nat);
            assert(whole[1 + j] == rev@.reverse()[j as int]);
            assert(whole.take(1 + j + 1) =~= whole.take(1 + j).push(whole[1 + j]));
        }
        j = j + 1;
    }
    proof {
        assert(dec_digits(n as nat).take(1 + k) =~= dec_digits(n as nat));
    }
}

/// The number a field denotes, where a field denotes a number exactly
/// when it is a nonempty string of digits whose value fits in a `u64`.
pub open spec fn parse_dec(s: Seq<char>) -> Option<u64> {
    if s.len() > 0 && all_digits(s) && dec_value(s) <= u64::MAX {
        Some(dec_value(s) as u64)
    } else {
        None
    }
}

/// Decode the decimal field between `from` and `to`.
pub fn parse_dec_range(s: &[char], from: usize, to: usize) -> (r: Option<u64>)
    requires
        from <= to <= s@.len(),
    ensures
        r == parse_dec(s@.subrange(from as int, to as int)),
{
    let ghost fld = s@.subrange(from as int, to as int);
    if from == to {
        return None;
    }
    let mut acc: u64 = 0;
    let mut i: usize = from;
    proof {
        assert(fld.take(0) =~= Seq::<char>::empty());
    }
    while i < to
        invariant
            from <= i <= to <= s@.len(),
            fld == s@.subrange(from as int, to as int),
            all_digits(fld.take(i - from)),
            acc == dec_value(fld.take(i - from)),
        decreases to - i,
    {
        let u: u32 = s[i] as u32;
        proof {
            assert(fld[i - from] == s@[i as int]);
        }
        if u < 48 || u > 57 {
            proof {
                assert(!is_digit(fld[i - from]));
                assert(!all_digits(fld));
            }
            return None;
        }
        let d: u64 = (u - 48) as u64;
        proof {
            assert(d == digit_val(fld[i - from]));
            assert(fld.take(i - from + 1).take(i - from) =~= fld.take(i - from));
            assert(fld.take(i - from + 1)[i - from] == fld[i - from]);
            assert(dec_value(fld.take(i - from + 1)) == dec_value(fld.take(i - from)) * 10
                + digit_val(fld[i - from]));
        }
        if acc > (u64::MAX - d) / 10 {
            proof {
                vstd::arithmetic::div_mod::lemma_fundamental_div_mod((u64::MAX - d) as int, 10);
                assert(acc * 10 + d > u64::MAX);
                lemma_dec_value_mono(fld, i - from + 1);
                assert(fld.take(fld.len() as int) =~= fld);
                assert(dec_value(fld) > u64::MAX);
            }
            return None;
        }
        acc = acc * 10 + d;
        i = i + 1;
    }
    proof {
        assert(fld.take(to - from) =~= fld);
    }
    Some(acc)
}

/// The length of the run of digits that opens `s`.
pub open spec fn digits_prefix_len(s: Seq<char>) -> int
    decreases s.len(),
{
    if s.len() > 0 && is_digit(s[0]) {
        1 + digits_prefix_len(s.drop_first())
    } else {
        0
    }
}

/// A scan that stops at the first non-digit finds the digit prefix.
pub proof fn lemma_digits_prefix(s: Seq<char>, e: int)
    requires
        0 <= e <= s.len(),
        forall|k: int| 0 <= k < e ==> is_digit(#[trigger] s[k]),
        e == s.len() || !is_digit(s[e]),
    ensures
        digits_prefix_len(s) == e,
    decreases e,
{
    if e == 0 {
    } else {
        assert(is_digit(s[0]));
        let q = s.drop_first();
        assert(forall|k: int| 0 <= k < e - 1 ==> #[trigger] q[k] == s[k + 1]);
        if e - 1 < q.len() {
            assert(q[e - 1] == s[e]);
        }
        lemma_digits_prefix(q, e - 1);
    }
}

/// The decimal notation of a signed number: a minus sign for negative
/// values, then the magnitude.
pub open spec fn enc_i64(n: int) -> Seq<char> {
    if n < 0 {
        seq!['-'] + dec_digits((-n) as nat)
    } else {
        dec_digits(n as nat)
    }
}

/// The signed number a field denotes, where it denotes one exactly when
/// it is an optional minus sign and digits whose value fits in an `i64`.
pub open spec fn parse_i64(s: Seq<char>) -> Option<i64> {
    if s.len() > 0 && s[0] == '-' {
        match parse_dec(s.drop_first()) {
            Some(v) => if v <= 0x8000000000000000u64 {
                Some((0 - v as int) as i64)
            } else {
                None
            },
            None => None,
        }
    } else {
        match parse_dec(s) {
            Some(v) => if v <= i64::MAX as u64 {
                Some(v as i64)
            } else {
                None
            },
            None => None,
        }
    }
}

/// Append the decimal notation of the signed `n` to `out`.
pub fn i64_to_dec_into(out: &mut Vec<char>, n: i64)
    ensures
        final(out)@ == old(out)@ + enc_i64(n as int),
{
    let ghost base = out@;
    if n >= 0 {
        u64_to_dec_into(out, n as u64);
    } else {
        out.push('-');
        let mag: u64 = ((-(n + 1)) as u64) + 1;
        proof {
            assert(mag == -(n as int));
        }
        u64_to_dec_into(out, mag);
        proof {
            assert(base.push('-') =~= base + seq!['-']);
            assert((base + seq!['-']) + dec_digits(mag as nat) =~= base + (seq!['-'] + dec_digits(
                mag as nat,
            )));
        }
    }
}

/// Decode the signed decimal field between `from` and `to`.
pub fn parse_i64_range(s: &[char], from: usize, to: usize) -> (r: Option<i64>)
    requires
        from <= to <= s@.len(),
    ensures
        r == parse_i64(s@.subrange(from as int, to as int)),
{
    let ghost fld = s@.subrange(from as int, to as int);
    if from == to {
        return None;
    }
    if s[from] == '-' {
        proof {
            assert(fld[0] == '-');
            assert(fld.drop_first() =~= s@.subrange(from + 1, to as int));
        }
        match parse_dec_range(s, from + 1, to) {
            Some(v) => {
                if v <= 0x8000000000000000u64 {
                    if v == 0 {
                        Some(0i64)
                    } else {
                        Some(-((v - 1) as i64) - 1)
                    }
                } else {
                    None
                }
            },
            None => None,
        }
    } else {
        proof {
            assert(fld[0] != '-');
        }
        match parse_dec_range(s, from, to) {
            Some(v) => {
                if v <= 9223372036854775807u64 {
                    Some(v as i64)
                } else {
                    None
                }
            },
            None => None,
        }
    }
}

/// Decoding undoes encoding for signed numbers.
pub proof fn lemma_parse_enc_i64(n: i64)
    ensures
        parse_i64(enc_i64(n as int)) == Some(n),
{
    if n >= 0 {
        lemma_dec_digits_value(n as nat);
        let s = enc_i64(n as int);
        assert(is_digit(s[0]));
        assert(s[0] as u32 != 45);
        assert('-' as u32 == 45);
        assert(s[0] != '-');
        assert(parse_dec(s) == Some(n as u64));
    } else {
        let mag = (-(n as int)) as nat;
        lemma_dec_digits_value(mag);
        let s = enc_i64(n as int);
        assert(s[0] == '-');
        assert(s.drop_first() =~= dec_digits(mag));
        assert(mag <= 0x8000000000000000);
        assert(parse_dec(dec_digits(mag)) == Some(mag as u64));
    }
}

/// The decimal notation of a signed number contains no tab, newline or
/// backslash.
pub proof fn lemma_enc_i64_plain(n: int)
    ensures
        forall|i: int|
            0 <= i < enc_i64(n).len() ==> enc_i64(n)[i] != '\t' && enc_i64(n)[i] != '\n' && enc_i64(
                n,
            )[i] != '\\',
{
    let digits = if n < 0 {
        dec_digits((-n) as nat)
    } else {
        dec_digits(n as nat)
    };
    if n < 0 {
        lemma_dec_digits_value((-n) as nat);
    } else {
        lemma_dec_digits_value(n as nat);
    }
    assert forall|i: int|
        0 <= i < enc_i64(n).len() implies enc_i64(n)[i] != '\t' && enc_i64(n)[i] != '\n' && enc_i64(
        n,
    )[i] != '\\' by {
        let c = enc_i64(n)[i];
        if n < 0 {
            if i == 0 {
                assert(c == '-');
            } else {
                assert(c == digits[i - 1]);
                assert(is_digit(c));
            }
        } else {
            assert(c == digits[i]);
            assert(is_digit(c));
        }
        assert('\t' as u32 == 9 && '\n' as u32 == 10 && '\\' as u32 == 92 && '-' as u32 == 45);
    }
}

} // verus!
