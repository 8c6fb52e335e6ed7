//! Small verified text utilities: character classification, hexadecimal
//! parsing, decimal formatting, and conversions between `&str`, `Vec<char>`
//! and `String` used by the trace and symbol-table parsers.
use vstd::prelude::*;

verus! {

/// ASCII whitespace, as the field splitters of this crate understand it.
pub open spec fn is_space(c: char) -> bool {
    c == ' ' || c == '\t' || c == '\n' || c == '\r' || c == '\u{000b}' || c == '\u{000c}'
}

/// Numeric value of a hexadecimal digit character, if it is one.
pub open spec fn hex_digit_value(c: char) -> Option<u64> {
    let n = c as u32;
    if 48 <= n && n <= 57 {
        Some((n - 48) as u64)
    } else if 97 <= n && n <= 102 {
        Some((n - 97 + 10) as u64)
    } else if 65 <= n && n <= 70 {
        Some((n - 65 + 10) as u64)
    } else {
        None
    }
}

/// A non-empty run of hexadecimal digits.
pub open spec fn is_hex_seq(s: Seq<char>) -> bool {
    s.len() > 0 && forall|i: int| 0 <= i < s.len() ==> #[trigger] hex_digit_value(s[i]) is Some
}

/// The number written in hexadecimal by `s` (non-digits count as zero).
pub open spec fn hex_value(s: Seq<char>) -> nat
    decreases s.len(),
{
    if s.len() == 0 {
        0
    } else {
        16 * hex_value(s.drop_last()) + (match hex_digit_value(s.last()) {
            Some(d) => d as nat,
            None => 0,
        })
    }
}

proof fn lemma_hex_value_take_step(s: Seq<char>, i: int)
    requires
        0 <= i < s.len(),
    ensures
        hex_value(s.take(i + 1)) == 16 * hex_value(s.take(i)) + (match hex_digit_value(s[i]) {
            Some(d) => d as nat,
            None => 0,
        }),
{
    assert(s.take(i + 1).drop_last() =~= s.take(i));
    assert(s.take(i + 1).last() == s[i]);
}

proof fn lemma_hex_value_take_mono(s: Seq<char>, i: int, j: int)
    requires
        0 <= i <= j <= s.len(),
    ensures
        hex_value(s.take(i)) <= hex_value(s.take(j)),
    decreases j - i,
{
    if i < j {
        lemma_hex_value_take_mono(s, i, j - 1);
        lemma_hex_value_take_step(s, j - 1);
    }
}

/// Convert a string to the vector of its characters.
pub fn to_chars(s: &str) -> (r: Vec<char>)
    ensures
        r@ == s@,
{
    let n: usize = s.unicode_len();
    let mut r: Vec<char> = Vec::new();
    let mut i: usize = 0;
    while i < n
        invariant
            n == s@.len(),
            i <= n,
            r@ == s@.take(i as int),
        decreases n - i,
    {
        let c = s.get_char(i);
        r.push(c);
        assert(s@.take(i + 1) =~= s@.take(i as int).push(s@[i as int]));
        i = i + 1;
    }
    assert(s@.take(n as int) =~= s@);
    r
}

/// Relies on `String::push` from std: appends exactly one character.
#[verifier::external_body]
pub fn push_char(s: &mut String, c: char)
    ensures
        final(s)@ == old(s)@.push(c),
{
    s.push(c);
}

/// Build a `String` out of a character vector.
pub fn string_from_chars(v: &Vec<char>) -> (r: String)
    ensures
        r@ == v@,
{
    let mut r = String::new();
    let mut i: usize = 0;
    while i < v.len()
        invariant
            i <= v@.len(),
            r@ == v@.take(i as int),
        decreases v@.len() - i,
    {
        push_char(&mut r, v[i]);
        assert(v@.take(i + 1) =~= v@.take(i as int).push(v@[i as int]));
        i = i + 1;
    }
    assert(v@.take(v@.len() as int) =~= v@);
    r
}

/// Parse a whole character sequence as an unsigned hexadecimal number.
/// Returns `Some` exactly when the text is a non-empty run of hex digits
/// whose value fits in a `u64`.
pub fn parse_hex_u64(s: &Vec<char>) -> (r: Option<u64>)
    ensures
        match r {
            Some(v) => is_hex_seq(s@) && hex_value(s@) == v,
            None => !is_hex_seq(s@) || hex_value(s@) > u64::MAX,
        },
{
    if s.len() == 0 {
        return None;
    }
    let mut v: u64 = 0;
    let mut i: usize = 0;
    while i < s.len()
        invariant
            i <= s@.len(),
            v == hex_value(s@.take(i as int)),
            forall|k: int| 0 <= k < i ==> #[trigger] hex_digit_value(s@[k]) is Some,
        decreases s@.len() - i,
    {
        let c = s[i];
        let n = c as u32;
        let d: u64 = if 48 <= n && n <= 57 {
            (n - 48) as u64
        } else if 97 <= n && n <= 102 {
            (n - 97 + 10) as u64
        } else if 65 <= n && n <= 70 {
            (n - 65 + 10) as u64
        } else {
            return None;
        };
        assert(hex_digit_value(s@[i as int]) == Some(d));
        if v >= 0x1000_0000_0000_0000 {
            proof {
                lemma_hex_value_take_step(s@, i as int);
                lemma_hex_value_take_mono(s@, i + 1, s@.len() as int);
                assert(s@.take(s@.len() as int) =~= s@);
            }
            return None;
        }
        proof {
            lemma_hex_value_take_step(s@, i as int);
        }
        v = 16 * v + d;
        i = i + 1;
    }
    proof {
        assert(s@.take(s@.len() as int) =~= s@);
    }
    Some(v)
}

/// Character that writes the decimal digit `d`.
pub open spec fn digit_char(d: nat) -> char {
    ((d + 48) as u8) as char
}

/// The decimal writing of `n`, most significant digit first.
pub open spec fn dec_value(n: nat) -> Seq<char>
    decreases n,
{
    if n < 10 {
        seq![digit_char(n)]
    } else {
        dec_value(n / 10).push(digit_char(n % 10))
    }
}

/// Format a `u64` in decimal.
pub fn u64_to_dec_string(n: u64) -> (r: String)
    ensures
        r@ == dec_value(n as nat),
{
    let mut digits: Vec<char> = Vec::new();
    let mut m: u64 = n;
    loop
        invariant
            (m == 0 && digits@.len() == 0) ==> n == 0,
            m > 0 ==> dec_value(n as nat) == dec_value(m as nat) + digits@.reverse(),
            (m == 0 && digits@.len() > 0) ==> dec_value(n as nat) == digits@.reverse(),
        ensures
            dec_value(n as nat) == digits@.reverse(),
        decreases m, (if digits@.len() == 0 { 1int } else { 0int }),
    {
        if m == 0 && digits.len() > 0 {
            break;
        }
        let d: u64 = m % 10;
        let c: char = (48u8 + (d as u8)) as char;
        proof {
            let ghost md = m as nat;
            assert(c == digit_char(md % 10));
            assert(digits@.push(c).reverse() =~= seq![c] + digits@.reverse());
            if md >= 10 {
                assert(dec_value(md) == dec_value(md / 10).push(digit_char(md % 10)));
                assert(dec_value(md / 10).push(digit_char(md % 10)) =~= dec_value(md / 10) + seq![
                    digit_char(md % 10),
                ]);
                assert((dec_value(md / 10) + seq![c]) + digits@.reverse() =~= dec_value(md / 10) + (
                seq![c] + digits@.reverse()));
            } else {
                assert(dec_value(md) =~= seq![digit_char(md)]);
                if m == 0 {
                    assert(n == 0);
                    assert(seq![c] + digits@.reverse() =~= seq![c]);
                } else {
                    assert(dec_value(md) + digits@.reverse() =~= seq![c] + digits@.reverse());
                }
            }
        }
        digits.push(c);
        m = m / 10;
    }
    let mut r = String::new();
    let len = digits.len();
    let mut k: usize = 0;
    while k < len
        invariant
            len == digits@.len(),
            k <= len,
            r@ == digits@.reverse().take(k as int),
        decreases len - k,
    {
        push_char(&mut r, digits[len - 1 - k]);
        proof {
            assert(digits@.reverse()[k as int] == digits@[len - 1 - k]);
            assert(digits@.reverse().take(k + 1) =~= digits@.reverse().take(k as int).push(
                digits@.reverse()[k as int],
            ));
        }
        k = k + 1;
    }
    proof {
        assert(digits@.reverse().take(len as int) =~= digits@.reverse());
    }
    r
}

/// The first position at or after `i` holding `c`, or the length of `s`.
pub open spec fn find_from(s: Seq<char>, i: int, c: char) -> int
    decreases s.len() - i
        when 0 <= i <= s.len()
{
    if i >= s.len() {
        s.len() as int
    } else if s[i] == c {
        i
    } else {
        find_from(s, i + 1, c)
    }
}

proof fn lemma_find_from(s: Seq<char>, i: int, c: char)
    requires
        0 <= i <= s.len(),
    ensures
        i <= find_from(s, i, c) <= s.len(),
        find_from(s, i, c) < s.len() ==> s[find_from(s, i, c)] == c,
        forall|k: int| i <= k < find_from(s, i, c) ==> s[k] != c,
    decreases s.len() - i,
{
    if i < s.len() && s[i] != c {
        lemma_find_from(s, i + 1, c);
    }
}

/// Find the first occurrence of `c` in `s` at or after `start`; the length
/// of `s` when there is none.
pub fn find_char_from(s: &Vec<char>, start: usize, c: char) -> (r: usize)
    requires
        start <= s@.len(),
    ensures
        r == find_from(s@, start as int, c),
        start <= r <= s@.len(),
        r < s@.len() ==> s@[r as int] == c,
        forall|k: int| start <= k < r ==> s@[k] != c,
{
    proof {
        lemma_find_from(s@, start as int, c);
    }
    let mut i: usize = start;
    while i < s.len()
        invariant
            start <= i <= s@.len(),
            forall|k: int| start <= k < i ==> s@[k] != c,
            find_from(s@, start as int, c) >= i,
        decreases s@.len() - i,
    {
        if s[i] == c {
            proof {
                lemma_find_from_at(s@, start as int, i as int, c);
            }
            return i;
        }
        proof {
            lemma_find_from_past(s@, start as int, i as int, c);
        }
        i = i + 1;
    }
    i
}

proof fn lemma_find_from_at(s: Seq<char>, i: int, f: int, c: char)
    requires
        0 <= i <= f < s.len(),
        forall|k: int| i <= k < f ==> s[k] != c,
        s[f] == c,
    ensures
        find_from(s, i, c) == f,
    decreases f - i,
{
    if i < f {
        lemma_find_from_at(s, i + 1, f, c);
    }
}

proof fn lemma_find_from_past(s: Seq<char>, i: int, f: int, c: char)
    requires
        0 <= i <= f < s.len(),
        forall|k: int| i <= k <= f ==> s[k] != c,
    ensures
        find_from(s, i, c) > f,
    decreases f - i,
{
    if i < f {
        lemma_find_from_past(s, i + 1, f, c);
    } else {
        lemma_find_from(s, i + 1, c);
    }
}

/// Does `s` contain `c`?
pub fn contains_char(s: &Vec<char>, c: char) -> (r: bool)
    ensures
        r == s@.contains(c),
{
    let mut i: usize = 0;
    while i < s.len()
        invariant
            i <= s@.len(),
            forall|k: int| 0 <= k < i ==> s@[k] != c,
        decreases s@.len() - i,
    {
        if s[i] == c {
            assert(s@.contains(c)) by {
                assert(s@[i as int] == c);
            }
            return true;
        }
        i = i + 1;
    }
    false
}

/// Does `s` begin with the characters of `p`?
pub fn starts_with_str(s: &Vec<char>, p: &str) -> (r: bool)
    ensures
        r == (s@.len() >= p@.len() && s@.take(p@.len() as int) == p@),
{
    let pc = to_chars(p);
    if s.len() < pc.len() {
        return false;
    }
    let mut i: usize = 0;
    while i < pc.len()
        invariant
            pc@ == p@,
            i <= pc@.len() <= s@.len(),
            forall|k: int| 0 <= k < i ==> s@[k] == p@[k],
        decreases pc@.len() - i,
    {
        if s[i] != pc[i] {
            assert(s@.take(p@.len() as int)[i as int] != p@[i as int]);
            return false;
        }
        i = i + 1;
    }
    assert(s@.take(p@.len() as int) =~= p@);
    true
}

/// Are two character vectors equal?
pub fn chars_equal(a: &Vec<char>, b: &Vec<char>) -> (r: bool)
    ensures
        r == (a@ == b@),
{
    if a.len() != b.len() {
        return false;
    }
    let mut i: usize = 0;
    while i < a.len()
        invariant
            a@.len() == b@.len(),
            i <= a@.len(),
            forall|k: int| 0 <= k < i ==> a@[k] == b@[k],
        decreases a@.len() - i,
    {
        if a[i] != b[i] {
            return false;
        }
        i = i + 1;
    }
    assert(a@ =~= b@);
    true
}

/// Copy the characters of `s` between `from` and `to`.
pub fn subrange_chars(s: &Vec<char>, from: usize, to: usize) -> (r: Vec<char>)
    requires
        from <= to <= s@.len(),
    ensures
        r@ == s@.subrange(from as int, to as int),
{
    let mut r: Vec<char> = Vec::new();
    let mut i: usize = from;
    while i < to
        invariant
            from <= i <= to <= s@.len(),
            r@ == s@.subrange(from as int, i as int),
        decreases to - i,
    {
        r.push(s[i]);
        proof {
            assert(s@.subrange(from as int, i + 1) =~= s@.subrange(from as int, i as int).push(
                s@[i as int],
            ));
        }
        i = i + 1;
    }
    r
}

/// Split at the only `'-'` of `s`: the parts before and after it, or `None`
/// when `s` does not hold exactly one `'-'`.
pub fn split_single_dash(s: &Vec<char>) -> (r: Option<(Vec<char>, Vec<char>)>)
    ensures
        match r {
            Some(parts) => {
                let k = find_from(s@, 0, '-');
                &&& k < s@.len()
                &&& find_from(s@, k + 1, '-') == s@.len()
                &&& parts.0@ == s@.take(k)
                &&& parts.1@ == s@.skip(k + 1)
            },
            None => {
                let k = find_from(s@, 0, '-');
                k == s@.len() || find_from(s@, k + 1, '-') < s@.len()
            },
        },
{
    let k = find_char_from(s, 0, '-');
    if k == s.len() {
        return None;
    }
    let k2 = find_char_from(s, k + 1, '-');
    if k2 < s.len() {
        return None;
    }
    let a = subrange_chars(s, 0, k);
    let b = subrange_chars(s, k + 1, s.len());
    proof {
        assert(a@ =~= s@.take(k as int));
        assert(b@ =~= s@.skip(k + 1));
    }
    Some((a, b))
}

/// `s` split at whitespace runs: the maximal non-whitespace pieces, in
/// order. `cur` is the part of the current piece already read.
pub open spec fn fields_acc(s: Seq<char>, i: int, cur: Seq<char>) -> Seq<Seq<char>>
    decreases s.len() - i
        when 0 <= i <= s.len()
{
    if i >= s.len() {
        if cur.len() > 0 {
            seq![cur]
        } else {
            Seq::empty()
        }
    } else if is_space(s[i]) {
        (if cur.len() > 0 {
            seq![cur]
        } else {
            Seq::empty()
        }) + fields_acc(s, i + 1, Seq::empty())
    } else {
        fields_acc(s, i + 1, cur.push(s[i]))
    }
}

/// The whitespace-separated fields of `s`.
pub open spec fn spec_fields(s: Seq<char>) -> Seq<Seq<char>> {
    fields_acc(s, 0, Seq::empty())
}

/// Split a line into its whitespace-separated fields.
pub fn split_fields(s: &Vec<char>) -> (r: Vec<Vec<char>>)
    ensures
        r.deep_view() == spec_fields(s@),
{
    let mut out: Vec<Vec<char>> = Vec::new();
    let mut cur: Vec<char> = Vec::new();
    let mut i: usize = 0;
    proof {
        assert(out.deep_view() + fields_acc(s@, 0, cur@) =~= fields_acc(s@, 0, Seq::empty()));
    }
    while i < s.len()
        invariant
            i <= s@.len(),
            out.deep_view() + fields_acc(s@, i as int, cur@) == spec_fields(s@),
        decreases s@.len() - i,
    {
        let c = s[i];
        let is_ws = c == ' ' || c == '\t' || c == '\n' || c == '\r' || c == '\u{000b}' || c
            == '\u{000c}';
        if is_ws {
            if cur.len() > 0 {
                let ghost cur0 = cur@;
                let ghost out0 = out.deep_view();
                out.push(cur);
                cur = Vec::new();
                proof {
                    assert(out.deep_view() =~~= out0.push(cur0));
                    assert(out0 + (seq![cur0] + fields_acc(s@, i + 1, Seq::empty())) =~= out0.push(
                        cur0,
                    ) + fields_acc(s@, i + 1, Seq::empty()));
                }
            } else {
                proof {
                    assert(cur@ =~= Seq::<char>::empty());
                    assert(Seq::<Seq<char>>::empty() + fields_acc(s@, i + 1, Seq::empty())
                        =~= fields_acc(s@, i + 1, Seq::empty()));
                }
            }
        } else {
            cur.push(c);
        }
        i = i + 1;
    }
    if cur.len() > 0 {
        let ghost cur0 = cur@;
        let ghost out0 = out.deep_view();
        out.push(cur);
        proof {
            assert(out.deep_view() =~~= out0.push(cur0));
            assert(out0 + seq![cur0] =~= out0.push(cur0));
        }
    } else {
        proof {
            assert(out.deep_view() + Seq::<Seq<char>>::empty() =~= out.deep_view());
        }
    }
    out
}

/// `s` split at each newline: every piece before a `'\n'` (with one trailing
/// `'\r'` dropped), and the non-empty piece after the last newline, if any.
/// `cur` is the part of the current piece already read.
pub open spec fn lines_acc(s: Seq<char>, i: int, cur: Seq<char>) -> Seq<Seq<char>>
    decreases s.len() - i
        when 0 <= i <= s.len()
{
    if i >= s.len() {
        if cur.len() > 0 {
            seq![cur]
        } else {
            Seq::empty()
        }
    } else if s[i] == '\n' {
        seq![strip_cr(cur)] + lines_acc(s, i + 1, Seq::empty())
    } else {
        lines_acc(s, i + 1, cur.push(s[i]))
    }
}

/// `cur` without one trailing carriage return.
pub open spec fn strip_cr(cur: Seq<char>) -> Seq<char> {
    if cur.len() > 0 && cur.last() == '\r' {
        cur.drop_last()
    } else {
        cur
    }
}

/// The lines of `s`.
pub open spec fn spec_lines(s: Seq<char>) -> Seq<Seq<char>> {
    lines_acc(s, 0, Seq::empty())
}

/// Split a text into its lines.
pub fn split_lines(s: &Vec<char>) -> (r: Vec<Vec<char>>)
    ensures
        r.deep_view() == spec_lines(s@),
{
    let mut out: Vec<Vec<char>> = Vec::new();
    let mut cur: Vec<char> = Vec::new();
    let mut i: usize = 0;
    proof {
        assert(out.deep_view() + lines_acc(s@, 0, cur@) =~= lines_acc(s@, 0, Seq::empty()));
    }
    while i < s.len()
        invariant
            i <= s@.len(),
            out.deep_view() + lines_acc(s@, i as int, cur@) == spec_lines(s@),
        decreases s@.len() - i,
    {
        let c = s[i];
        if c == '\n' {
            let ghost cur0 = cur@;
            let ghost out0 = out.deep_view();
            let mut piece = cur;
            cur = Vec::new();
            if piece.len() > 0 && piece[piece.len() - 1] == '\r' {
                let newlen = piece.len() - 1;
                piece.truncate(newlen);
                proof {
                    assert(piece@ =~= cur0.drop_last());
                }
            }
            proof {
                assert(piece@ == strip_cr(cur0));
            }
            out.push(piece);
            proof {
                assert(out.deep_view() =~~= out0.push(strip_cr(cur0)));
                assert(out0 + (seq![strip_cr(cur0)] + lines_acc(s@, i + 1, Seq::empty()))
                    =~= out0.push(strip_cr(cur0)) + lines_acc(s@, i + 1, Seq::empty()));
            }
        } else {
            cur.push(c);
        }
        i = i + 1;
    }
    if cur.len() > 0 {
        let ghost cur0 = cur@;
        let ghost out0 = out.deep_view();
        out.push(cur);
        proof {
            assert(out.deep_view() =~~= out0.push(cur0));
            assert(out0 + seq![cur0] =~= out0.push(cur0));
        }
    } else {
        proof {
            assert(out.deep_view() + Seq::<Seq<char>>::empty() =~= out.deep_view());
        }
    }
    out
}

} // verus!
