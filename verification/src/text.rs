//! Characters, decimal numerals and string escaping: the textual ground the
//! document encoding and the staleness annotation are built on.

use vstd::prelude::*;
use vstd::string::StrSliceExecFns;

verus! {

/// Whether `c` is a decimal digit.
pub open spec fn is_digit(c: char) -> bool {
    48 <= c as u32 <= 57
}

/// The numeric value of a digit character.
pub open spec fn digit_val(c: char) -> int {
    c as u32 - 48
}

/// The character for the digit `d`.
pub open spec fn digit_char(d: int) -> char {
    ((d + 48) as u8) as char
}

/// The decimal numeral of `n`, most significant digit first, no sign and no
/// leading zeros.
pub open spec fn dec_digits(n: nat) -> Seq<char>
    decreases n,
{
    if n < 10 {
        seq![digit_char(n as int)]
    } else {
        dec_digits(n / 10).push(digit_char((n % 10) as int))
    }
}

/// The decimal numeral of `v`, with a leading minus sign where `v` is
/// negative.
pub open spec fn dec_int(v: int) -> Seq<char> {
    if v < 0 {
        seq!['-'] + dec_digits((-v) as nat)
    } else {
        dec_digits(v as nat)
    }
}

/// The number a digit string denotes.
pub open spec fn val_of(s: Seq<char>) -> int
    decreases s.len(),
{
    if s.len() == 0 {
        0
    } else {
        val_of(s.drop_last()) * 10 + digit_val(s.last())
    }
}

/// Every character of `s` is a decimal digit.
pub open spec fn all_digits(s: Seq<char>) -> bool {
    forall|i: int| 0 <= i < s.len() ==> is_digit(s[i])
}

/// How many leading characters of `s` are digits.
pub open spec fn digit_prefix_len(s: Seq<char>) -> int
    decreases s.len(),
{
    if s.len() > 0 && is_digit(s[0]) {
        1 + digit_prefix_len(s.drop_first())
    } else {
        0
    }
}

/// The maximal digit prefix of `s` read as a number, with what follows it;
/// nothing where `s` does not start with a digit.
pub open spec fn p_nat(s: Seq<char>) -> Option<(int, Seq<char>)> {
    let k = digit_prefix_len(s);
    if k == 0 {
        None
    } else {
        Some((val_of(s.take(k)), s.skip(k)))
    }
}

pub proof fn lemma_dec_digits_shape(n: nat)
    ensures
        dec_digits(n).len() >= 1,
        all_digits(dec_digits(n)),
    decreases n,
{
    if n < 10 {
        assert(digit_char(n as int) as u32 == n + 48);
    } else {
        lemma_dec_digits_shape(n / 10);
        assert(digit_char((n % 10) as int) as u32 == (n % 10) + 48);
        assert forall|i: int| 0 <= i < dec_digits(n).len() implies is_digit(dec_digits(n)[i]) by {
            if i < dec_digits(n / 10).len() {
                assert(dec_digits(n)[i] == dec_digits(n / 10)[i]);
            }
        }
    }
}

pub proof fn lemma_val_of_push(s: Seq<char>, c: char)
    ensures
        val_of(s.push(c)) == val_of(s) * 10 + digit_val(c),
{
    assert(s.push(c).drop_last() =~= s);
    assert(s.push(c).last() == c);
}

pub proof fn lemma_val_of_dec_digits(n: nat)
    ensures
        val_of(dec_digits(n)) == n,
    decreases n,
{
    if n < 10 {
        let s = dec_digits(n);
        assert(s =~= seq![digit_char(n as int)]);
        assert(s.drop_last() =~= Seq::<char>::empty());
        assert(val_of(s.drop_last()) == 0);
        assert(s.last() == digit_char(n as int));
        assert(digit_char(n as int) as u32 == n + 48);
        assert(digit_val(s.last()) == n);
        assert(val_of(s) == val_of(s.drop_last()) * 10 + digit_val(s.last()));
    } else {
        lemma_val_of_dec_digits(n / 10);
        lemma_val_of_push(dec_digits(n / 10), digit_char((n % 10) as int));
        assert(digit_char((n % 10) as int) as u32 == n % 10 + 48);
        assert(val_of(dec_digits(n)) == (n / 10) * 10 + n % 10);
        vstd::arithmetic::div_mod::lemma_fundamental_div_mod(n as int, 10);
    }
}

pub proof fn lemma_digit_prefix_concat(s: Seq<char>, rest: Seq<char>)
    requires
        all_digits(s),
        rest.len() == 0 || !is_digit(rest[0]),
    ensures
        digit_prefix_len(s + rest) == s.len(),
    decreases s.len(),
{
    if s.len() == 0 {
        assert(s + rest =~= rest);
    } else {
        assert((s + rest)[0] == s[0]);
        assert((s + rest).drop_first() =~= s.drop_first() + rest);
        assert(all_digits(s.drop_first())) by {
            assert(forall|i: int|
                0 <= i < s.drop_first().len() ==> s.drop_first()[i] == s[i + 1]);
        }
        lemma_digit_prefix_concat(s.drop_first(), rest);
    }
}

/// Parsing inverts printing: the numeral of `n`, followed by anything that
/// does not begin with a digit, parses back to exactly `n`.
pub proof fn lemma_p_nat_inverts(n: nat, rest: Seq<char>)
    requires
        rest.len() == 0 || !is_digit(rest[0]),
    ensures
        p_nat(dec_digits(n) + rest) == Some((n as int, rest)),
{
    let s = dec_digits(n);
    lemma_dec_digits_shape(n);
    lemma_digit_prefix_concat(s, rest);
    lemma_val_of_dec_digits(n);
    assert((s + rest).take(s.len() as int) =~= s);
    assert((s + rest).skip(s.len() as int) =~= rest);
}

/// Appends the decimal numeral of `n`.
pub fn push_dec_u64(n: u64, out: &mut Vec<char>)
    ensures
        final(out)@ == old(out)@ + dec_digits(n as nat),
    decreases n,
{
    if n < 10 {
        let c = ((n as u8) + 48) as char;
        out.push(c);
        proof {
            assert(c == digit_char(n as int));
            assert(out@ =~= old(out)@ + dec_digits(n as nat));
        }
    } else {
        push_dec_u64(n / 10, out);
        let d = (((n % 10) as u8) + 48) as char;
        out.push(d);
        proof {
            assert(d == digit_char((n % 10) as int));
            assert(out@ =~= old(out)@ + dec_digits(n as nat));
        }
    }
}

/// Appends the decimal numeral of `v`, sign included.
pub fn push_dec_i64(v: i64, out: &mut Vec<char>)
    ensures
        final(out)@ == old(out)@ + dec_int(v as int),
{
    if v >= 0 {
        push_dec_u64(v as u64, out);
    } else {
        let ghost pre = out@;
        out.push('-');
        let m: u64 = (-(v as i128)) as u64;
        proof {
            assert(m as nat == (-(v as int)) as nat);
        }
        push_dec_u64(m, out);
        proof {
            assert(out@ =~= pre + dec_int(v as int));
        }
    }
}

/// Reads the maximal digit run of `v` starting at `i`: its end, and its
/// value where that value is at most `bound`.
pub fn scan_digits(v: &Vec<char>, i: usize, bound: u64) -> (r: (usize, Option<u64>))
    requires
        i <= v.len(),
    ensures
        i <= r.0 <= v.len(),
        r.0 - i == digit_prefix_len(v@.skip(i as int)),
        all_digits(v@.subrange(i as int, r.0 as int)),
        match r.1 {
            Some(m) => m as int == val_of(v@.subrange(i as int, r.0 as int)) && m <= bound,
            None => val_of(v@.subrange(i as int, r.0 as int)) > bound,
        },
{
    let n = v.len();
    let mut cur: usize = i;
    let mut acc: u64 = 0;
    let mut over: bool = false;
    loop
        invariant
            i <= cur <= n,
            n == v.len(),
            all_digits(v@.subrange(i as int, cur as int)),
            !over ==> acc as int == val_of(v@.subrange(i as int, cur as int)) && acc <= bound,
            over ==> val_of(v@.subrange(i as int, cur as int)) > bound,
        ensures
            i <= cur <= n,
            n == v.len(),
            cur == n || !is_digit(v@[cur as int]),
            all_digits(v@.subrange(i as int, cur as int)),
            !over ==> acc as int == val_of(v@.subrange(i as int, cur as int)) && acc <= bound,
            over ==> val_of(v@.subrange(i as int, cur as int)) > bound,
        decreases n - cur,
    {
        if cur == n {
            break;
        }
        let c = v[cur];
        let cv = c as u32;
        if cv < 48 || cv > 57 {
            break;
        }
        let d: u64 = (cv - 48) as u64;
        proof {
            assert(v@.subrange(i as int, cur + 1 as int) =~= v@.subrange(
                i as int,
                cur as int,
            ).push(c));
            lemma_val_of_push(v@.subrange(i as int, cur as int), c);
        }
        if over {
            proof {
                let prev = val_of(v@.subrange(i as int, cur as int));
                assert(prev * 10 == prev + 9 * prev);
            }
        } else {
            let nv: u128 = (acc as u128) * 10 + (d as u128);
            if nv > bound as u128 {
                over = true;
            } else {
                acc = nv as u64;
            }
        }
        cur += 1;
    }
    proof {
        let run = v@.subrange(i as int, cur as int);
        let rest = v@.skip(cur as int);
        assert(v@.skip(i as int) =~= run + rest);
        if cur < n {
            assert(rest[0] == v@[cur as int]);
        }
        lemma_digit_prefix_concat(run, rest);
    }
    if over {
        (cur, None)
    } else {
        (cur, Some(acc))
    }
}

/// The escaped form of one character inside a quoted string: quote,
/// backslash, newline, carriage return and tab take a two-character escape;
/// every other character stands for itself.
pub open spec fn esc_char(c: char) -> Seq<char> {
    if c == '"' {
        seq!['\\', '"']
    } else if c == '\\' {
        seq!['\\', '\\']
    } else if c == '\n' {
        seq!['\\', 'n']
    } else if c == '\r' {
        seq!['\\', 'r']
    } else if c == '\t' {
        seq!['\\', 't']
    } else {
        seq![c]
    }
}

/// The escaped form of a whole string.
pub open spec fn esc_str(s: Seq<char>) -> Seq<char>
    decreases s.len(),
{
    if s.len() == 0 {
        Seq::empty()
    } else {
        esc_char(s[0]) + esc_str(s.drop_first())
    }
}

/// The character an escape code stands for.
pub open spec fn unesc_char(c: char) -> Option<char> {
    if c == '"' {
        Some('"')
    } else if c == '\\' {
        Some('\\')
    } else if c == 'n' {
        Some('\n')
    } else if c == 'r' {
        Some('\r')
    } else if c == 't' {
        Some('\t')
    } else {
        None
    }
}

/// Reads a quoted string body up to and over its closing quote: the string
/// the body denotes, and what follows the quote. Nothing on an unterminated
/// body or an unknown escape code.
pub open spec fn p_str_body(s: Seq<char>) -> Option<(Seq<char>, Seq<char>)>
    decreases s.len(),
{
    if s.len() == 0 {
        None
    } else if s[0] == '"' {
        Some((Seq::empty(), s.drop_first()))
    } else if s[0] == '\\' {
        if s.len() < 2 {
            None
        } else {
            match unesc_char(s[1]) {
                Some(c) => match p_str_body(s.skip(2)) {
                    Some((t, rest)) => Some((seq![c] + t, rest)),
                    None => None,
                },
                None => None,
            }
        }
    } else {
        match p_str_body(s.drop_first()) {
            Some((t, rest)) => Some((seq![s[0]] + t, rest)),
            None => None,
        }
    }
}

pub proof fn lemma_esc_str_push(s: Seq<char>, c: char)
    ensures
        esc_str(s.push(c)) == esc_str(s) + esc_char(c),
    decreases s.len(),
{
    if s.len() == 0 {
        assert(s.push(c)[0] == c);
        assert(s.push(c).drop_first() =~= Seq::<char>::empty());
        assert(esc_str(s.push(c)) == esc_char(c) + esc_str(s.push(c).drop_first()));
        assert(esc_str(s.push(c).drop_first()) =~= Seq::<char>::empty());
        assert(esc_char(c) + Seq::<char>::empty() =~= esc_char(c));
        assert(esc_str(s) =~= Seq::<char>::empty());
        assert(esc_str(s) + esc_char(c) =~= esc_char(c));
    } else {
        assert(s.push(c)[0] == s[0]);
        assert(s.push(c).drop_first() =~= s.drop_first().push(c));
        lemma_esc_str_push(s.drop_first(), c);
        assert(esc_char(s[0]) + (esc_str(s.drop_first()) + esc_char(c)) =~= (esc_char(s[0])
            + esc_str(s.drop_first())) + esc_char(c));
    }
}

/// Unescaping inverts escaping: the escaped form of `x`, a closing quote,
/// and anything after it read back as exactly `x` and that remainder.
pub proof fn lemma_p_str_inverts(x: Seq<char>, rest: Seq<char>)
    ensures
        p_str_body(esc_str(x) + seq!['"'] + rest) == Some((x, rest)),
    decreases x.len(),
{
    let s = esc_str(x) + seq!['"'] + rest;
    if x.len() == 0 {
        assert(s[0] == '"');
        assert(s.drop_first() =~= rest);
    } else {
        lemma_p_str_inverts(x.drop_first(), rest);
        let c = x[0];
        let tail = esc_str(x.drop_first()) + seq!['"'] + rest;
        assert(esc_str(x) == esc_char(c) + esc_str(x.drop_first()));
        if c == '"' || c == '\\' || c == '\n' || c == '\r' || c == '\t' {
            assert(s[0] == '\\');
            assert(s[1] == esc_char(c)[1]);
            assert(s.skip(2) =~= tail);
            assert(unesc_char(esc_char(c)[1]) == Some(c));
            assert(seq![c] + x.drop_first() =~= x);
        } else {
            assert(s[0] == c);
            assert(s.drop_first() =~= tail);
            assert(seq![c] + x.drop_first() =~= x);
        }
    }
}

/// Appends the characters of `s` unchanged.
pub fn push_str_chars(s: &str, out: &mut Vec<char>)
    ensures
        final(out)@ == old(out)@ + s@,
{
    let n = s.unicode_len();
    let mut i: usize = 0;
    while i < n
        invariant
            n == s@.len(),
            i <= n,
            out@ == old(out)@ + s@.take(i as int),
        decreases n - i,
    {
        let c = s.get_char(i);
        out.push(c);
        proof {
            assert(out@ =~= old(out)@ + s@.take(i + 1 as int));
        }
        i += 1;
    }
    proof {
        assert(s@.take(n as int) =~= s@);
    }
}

/// Appends the escaped form of `s`.
pub fn push_escaped(s: &str, out: &mut Vec<char>)
    ensures
        final(out)@ == old(out)@ + esc_str(s@),
{
    let n = s.unicode_len();
    let mut i: usize = 0;
    while i < n
        invariant
            n == s@.len(),
            i <= n,
            out@ == old(out)@ + esc_str(s@.take(i as int)),
        decreases n - i,
    {
        let c = s.get_char(i);
        proof {
            lemma_esc_str_push(s@.take(i as int), c);
            assert(s@.take(i as int).push(c) =~= s@.take(i + 1 as int));
        }
        if c == '"' {
            out.push('\\');
            out.push('"');
        } else if c == '\\' {
            out.push('\\');
            out.push('\\');
        } else if c == '\n' {
            out.push('\\');
            out.push('n');
        } else if c == '\r' {
            out.push('\\');
            out.push('r');
        } else if c == '\t' {
            out.push('\\');
            out.push('t');
        } else {
            out.push(c);
        }
        proof {
            assert(out@ =~= old(out)@ + esc_str(s@.take(i + 1 as int)));
        }
        i += 1;
    }
    proof {
        assert(s@.take(n as int) =~= s@);
    }
}

/// The characters of `s`, as a vector.
pub fn str_to_chars(s: &str) -> (r: Vec<char>)
    ensures
        r@ == s@,
{
    let n = s.unicode_len();
    let mut out: Vec<char> = Vec::new();
    let mut i: usize = 0;
    while i < n
        invariant
            n == s@.len(),
            i <= n,
            out@ == s@.take(i as int),
        decreases n - i,
    {
        let c = s.get_char(i);
        out.push(c);
        proof {
            assert(out@ =~= s@.take(i + 1 as int));
        }
        i += 1;
    }
    proof {
        assert(s@.take(n as int) =~= s@);
    }
    out
}

/// Relies on std's iterator collection into `String`: collecting a vector
/// of characters yields the string holding exactly those characters.
#[verifier::external_body]
pub fn chars_to_string(v: &Vec<char>) -> (r: String)
    ensures
        r@ == v@,
{
    v.iter().collect()
}

} // verus!
