//! Character-level utilities shared by the models and the document format:
//! whitespace tests, prefix tests, decimal rendering and parsing, an
//! escaping scheme that keeps every scalar on a single line, and the
//! split of a document into lines.

use vstd::prelude::*;

verus! {

/// A `String` holds exactly the characters that were pushed onto it.
/// Relies on `String::push` appending the given character.
pub assume_specification[ String::push ](s: &mut String, c: char)
    ensures
        final(s)@ == old(s)@.push(c),
;

// ---------------------------------------------------------------------------
// Whitespace
// ---------------------------------------------------------------------------

/// The ASCII whitespace characters recognised when a field is trimmed.
pub open spec fn is_space_char(c: char) -> bool {
    c == ' ' || c == '\t' || c == '\n' || c == '\r' || c == '\u{b}' || c == '\u{c}'
}

/// A string is blank when every character is whitespace; trimming such a
/// string leaves it empty.  The empty string is blank.
pub open spec fn is_blank_seq(s: Seq<char>) -> bool {
    forall|i: int| 0 <= i < s.len() ==> is_space_char(#[trigger] s[i])
}

pub fn char_is_space(c: char) -> (r: bool)
    ensures
        r == is_space_char(c),
{
    c == ' ' || c == '\t' || c == '\n' || c == '\r' || c == '\u{b}' || c == '\u{c}'
}

/// Collect the characters of a string slice into a vector.
pub fn chars_of(s: &str) -> (r: Vec<char>)
    ensures
        r@ == s@,
{
    let mut v: Vec<char> = Vec::new();
    for c in it: s.chars()
        invariant
            it.seq() == s@,
            v@ == it.seq().take(it.index() as int),
    {
        v.push(c);
    }
    proof {
        assert(v@ =~= s@);
    }
    v
}

/// Rebuild a string from a vector of characters.
pub fn string_from_chars(v: &Vec<char>) -> (r: String)
    ensures
        r@ == v@,
{
    let mut s = String::new();
    let mut i: usize = 0;
    while i < v.len()
        invariant
            i <= v.len(),
            s@ == v@.take(i as int),
        decreases v.len() - i,
    {
        s.push(v[i]);
        i = i + 1;
        proof {
            assert(s@ =~= v@.take(i as int));
        }
    }
    proof {
        assert(s@ =~= v@);
    }
    s
}

pub fn is_blank(s: &str) -> (r: bool)
    ensures
        r == is_blank_seq(s@),
{
    let v = chars_of(s);
    let mut i: usize = 0;
    while i < v.len()
        invariant
            v@ == s@,
            i <= v.len(),
            forall|j: int| 0 <= j < i ==> is_space_char(#[trigger] v@[j]),
        decreases v.len() - i,
    {
        if !char_is_space(v[i]) {
            return false;
        }
        i = i + 1;
    }
    true
}

/// Character-by-character equality of two string slices.
pub fn str_eq(a: &str, b: &str) -> (r: bool)
    ensures
        r == (a@ == b@),
{
    let va = chars_of(a);
    let vb = chars_of(b);
    if va.len() != vb.len() {
        return false;
    }
    let mut i: usize = 0;
    while i < va.len()
        invariant
            va@ == a@,
            vb@ == b@,
            va@.len() == vb@.len(),
            i <= va@.len(),
            forall|j: int| 0 <= j < i ==> va@[j] == vb@[j],
        decreases va.len() - i,
    {
        if va[i] != vb[i] {
            return false;
        }
        i = i + 1;
    }
    proof {
        assert(a@ =~= b@);
    }
    true
}

// ---------------------------------------------------------------------------
// Prefixes
// ---------------------------------------------------------------------------

pub open spec fn has_prefix(s: Seq<char>, p: Seq<char>) -> bool {
    p.len() <= s.len() && s.subrange(0, p.len() as int) == p
}

/// Whether the characters of `s` start with the characters of `p`.
pub fn chars_have_prefix(s: &Vec<char>, p: &Vec<char>) -> (r: bool)
    ensures
        r == has_prefix(s@, p@),
{
    if p.len() > s.len() {
        proof {
            assert(!has_prefix(s@, p@));
        }
        return false;
    }
    let mut i: usize = 0;
    while i < p.len()
        invariant
            p.len() <= s.len(),
            i <= p.len(),
            forall|j: int| 0 <= j < i ==> s@[j] == p@[j],
        decreases p.len() - i,
    {
        if s[i] != p[i] {
            proof {
                assert(s@.subrange(0, p@.len() as int)[i as int] != p@[i as int]);
            }
            return false;
        }
        i = i + 1;
    }
    proof {
        assert(s@.subrange(0, p@.len() as int) =~= p@);
    }
    true
}

pub open spec fn has_suffix(s: Seq<char>, p: Seq<char>) -> bool {
    p.len() <= s.len() && s.subrange(s.len() - p.len(), s.len() as int) == p
}

/// Whether the characters of `s` end with the characters of `p`.
pub fn chars_have_suffix(s: &Vec<char>, p: &Vec<char>) -> (r: bool)
    ensures
        r == has_suffix(s@, p@),
{
    if p.len() > s.len() {
        proof {
            assert(!has_suffix(s@, p@));
        }
        return false;
    }
    let base = s.len() - p.len();
    let mut i: usize = 0;
    while i < p.len()
        invariant
            p.len() <= s.len(),
            base == s@.len() - p@.len(),
            i <= p.len(),
            forall|j: int| 0 <= j < i ==> s@[base + j] == p@[j],
        decreases p.len() - i,
    {
        if s[base + i] != p[i] {
            proof {
                assert(s@.subrange(s@.len() - p@.len(), s@.len() as int)[i as int] != p@[
                    i as int
                ]);
            }
            return false;
        }
        i = i + 1;
    }
    proof {
        assert(s@.subrange(s@.len() - p@.len(), s@.len() as int) =~= p@);
    }
    true
}

/// Whether a string ends with the given suffix.
pub fn str_has_suffix(s: &str, suffix: &str) -> (r: bool)
    ensures
        r == has_suffix(s@, suffix@),
{
    let sv = chars_of(s);
    let pv = chars_of(suffix);
    chars_have_suffix(&sv, &pv)
}

// ---------------------------------------------------------------------------
// Decimal numbers
// ---------------------------------------------------------------------------

pub open spec fn is_digit_char(c: char) -> bool {
    '0' <= c && c <= '9'
}

pub open spec fn digit_char(d: int) -> char {
    if d == 0 {
        '0'
    } else if d == 1 {
        '1'
    } else if d == 2 {
        '2'
    } else if d == 3 {
        '3'
    } else if d == 4 {
        '4'
    } else if d == 5 {
        '5'
    } else if d == 6 {
        '6'
    } else if d == 7 {
        '7'
    } else if d == 8 {
        '8'
    } else {
        '9'
    }
}

pub open spec fn digit_of(c: char) -> int {
    c as int - '0' as int
}

/// The decimal rendering of `n`, most significant digit first, with no
/// leading zeros (`0` itself renders as the single digit `0`).
pub open spec fn dec_digits(n: nat) -> Seq<char>
    decreases n,
{
    if n < 10 {
        seq![digit_char(n as int)]
    } else {
        dec_digits(n / 10).push(digit_char((n % 10) as int))
    }
}

pub open spec fn all_digit_chars(s: Seq<char>) -> bool {
    forall|i: int| 0 <= i < s.len() ==> is_digit_char(#[trigger] s[i])
}

/// Numeric value of a digit string, most significant digit first.
pub open spec fn dec_val(s: Seq<char>) -> nat
    decreases s.len(),
{
    if s.len() == 0 {
        0
    } else {
        dec_val(s.drop_last()) * 10 + (if is_digit_char(s.last()) {
            digit_of(s.last()) as nat
        } else {
            0
        })
    }
}

/// A digit string in the exact shape `dec_digits` produces.
pub open spec fn dec_canonical(s: Seq<char>) -> bool {
    s.len() >= 1 && all_digit_chars(s) && (s.len() == 1 || s[0] != '0')
}

pub open spec fn spec_parse_dec(s: Seq<char>) -> Option<nat> {
    if dec_canonical(s) {
        Some(dec_val(s))
    } else {
        None
    }
}

/// Rendering a number and reading it back yields the number.
pub proof fn lemma_dec_digits_canonical(n: nat)
    ensures
        dec_canonical(dec_digits(n)),
        dec_val(dec_digits(n)) == n,
        spec_parse_dec(dec_digits(n)) == Some(n),
        n < 10 ==> dec_digits(n).len() == 1,
        n >= 10 ==> dec_digits(n).len() >= 2,
    decreases n,
{
    assert(forall|d: int| 0 <= d < 10 ==> is_digit_char(#[trigger] digit_char(d)));
    assert(forall|d: int| 0 <= d < 10 ==> digit_of(#[trigger] digit_char(d)) == d);
    if n < 10 {
        let s = dec_digits(n);
        assert(s =~= seq![digit_char(n as int)]);
        assert(s[0] == digit_char(n as int));
        assert(is_digit_char(s[0]));
        assert(s.drop_last() =~= Seq::<char>::empty());
        assert(s.last() == s[0]);
        assert(dec_val(Seq::<char>::empty()) == 0);
        assert(is_digit_char(s.last()));
        assert(dec_val(s) == dec_val(s.drop_last()) * 10 + digit_of(s.last()) as nat);
        assert(dec_val(s) == digit_of(digit_char(n as int)));
    } else {
        lemma_dec_digits_canonical(n / 10);
        let p = dec_digits(n / 10);
        let s = dec_digits(n);
        assert(s =~= p.push(digit_char((n % 10) as int)));
        assert(s.drop_last() =~= p);
        assert(s.last() == digit_char((n % 10) as int));
        assert(dec_val(s) == dec_val(p) * 10 + n % 10);
        assert(n / 10 * 10 + n % 10 == n) by {
            vstd::arithmetic::div_mod::lemma_fundamental_div_mod(n as int, 10);
        }
        assert(s[0] == p[0]);
        if n / 10 < 10 {
            assert(p =~= seq![digit_char((n / 10) as int)]);
            assert(n / 10 >= 1);
            assert(p[0] != '0');
        } else {
            assert(p.len() >= 2);
            assert(p[0] != '0');
        }
        assert(forall|i: int| 0 <= i < s.len() ==> is_digit_char(#[trigger] s[i])) by {
            assert(forall|i: int| 0 <= i < p.len() ==> s[i] == p[i]);
            assert(is_digit_char(s[s.len() - 1]));
        }
    }
}

/// The value of a digit string is at least the value of any prefix of it.
pub proof fn lemma_dec_val_prefix(s: Seq<char>, i: int)
    requires
        0 <= i <= s.len(),
    ensures
        dec_val(s) >= dec_val(s.take(i)),
    decreases s.len() - i,
{
    if i < s.len() {
        lemma_dec_val_prefix(s, i + 1);
        assert(s.take(i + 1).drop_last() =~= s.take(i));
        assert(dec_val(s.take(i + 1)) >= dec_val(s.take(i)));
    } else {
        assert(s.take(i) =~= s);
    }
}

pub fn digit_to_char(d: usize) -> (c: char)
    requires
        d < 10,
    ensures
        c == digit_char(d as int),
{
    if d == 0 {
        '0'
    } else if d == 1 {
        '1'
    } else if d == 2 {
        '2'
    } else if d == 3 {
        '3'
    } else if d == 4 {
        '4'
    } else if d == 5 {
        '5'
    } else if d == 6 {
        '6'
    } else if d == 7 {
        '7'
    } else if d == 8 {
        '8'
    } else {
        '9'
    }
}

pub fn char_is_digit(c: char) -> (r: bool)
    ensures
        r == is_digit_char(c),
{
    '0' <= c && c <= '9'
}

pub fn char_to_digit(c: char) -> (d: usize)
    requires
        is_digit_char(c),
    ensures
        d == digit_of(c),
        d < 10,
{
    (c as u32 - '0' as u32) as usize
}

/// Decimal rendering of `n` as characters.
pub fn usize_to_chars(n: usize) -> (r: Vec<char>)
    ensures
        r@ == dec_digits(n as nat),
    decreases n,
{
    if n < 10 {
        let mut v: Vec<char> = Vec::new();
        v.push(digit_to_char(n));
        proof {
            assert(v@ =~= dec_digits(n as nat));
        }
        v
    } else {
        let mut v = usize_to_chars(n / 10);
        v.push(digit_to_char(n % 10));
        v
    }
}

/// Decimal rendering of `n` as a string.
pub fn usize_to_string(n: usize) -> (r: String)
    ensures
        r@ == dec_digits(n as nat),
{
    let v = usize_to_chars(n);
    string_from_chars(&v)
}

/// Decimal rendering of a 64-bit number as characters.
pub fn u64_to_chars(n: u64) -> (r: Vec<char>)
    ensures
        r@ == dec_digits(n as nat),
    decreases n,
{
    if n < 10 {
        let mut v: Vec<char> = Vec::new();
        v.push(digit_to_char((n % 10) as usize));
        proof {
            assert(v@ =~= dec_digits(n as nat));
        }
        v
    } else {
        let mut v = u64_to_chars(n / 10);
        v.push(digit_to_char((n % 10) as usize));
        v
    }
}

/// Decimal rendering of a 64-bit number as a string.
pub fn u64_to_string(n: u64) -> (r: String)
    ensures
        r@ == dec_digits(n as nat),
{
    let v = u64_to_chars(n);
    string_from_chars(&v)
}

/// Parse the characters `s[from..to]` as a canonical decimal number.
/// Returns `None` exactly when the digits are not canonical or the value
/// does not fit in `usize`.
pub fn parse_dec_range(s: &Vec<char>, from: usize, to: usize) -> (r: Option<usize>)
    requires
        from <= to <= s@.len(),
    ensures
        ({
            let sub = s@.subrange(from as int, to as int);
            match spec_parse_dec(sub) {
                Option::None => r is None,
                Option::Some(n) => if n <= usize::MAX {
                    r == Some(n as usize)
                } else {
                    r is None
                },
            }
        }),
{
    let ghost sub = s@.subrange(from as int, to as int);
    if from == to {
        return None;
    }
    if s[from] == '0' && to - from > 1 {
        proof {
            assert(sub[0] == '0');
        }
        return None;
    }
    let mut acc: usize = 0;
    let mut i: usize = from;
    while i < to
        invariant
            from <= i <= to <= s@.len(),
            sub == s@.subrange(from as int, to as int),
            forall|j: int| 0 <= j < i - from ==> is_digit_char(#[trigger] sub[j]),
            acc == dec_val(sub.take(i - from)),
        decreases to - i,
    {
        let c = s[i];
        proof {
            assert(sub[i - from] == s@[i as int]);
        }
        if !char_is_digit(c) {
            return None;
        }
        let d = char_to_digit(c);
        proof {
            assert(sub.take(i - from + 1).drop_last() =~= sub.take(i - from));
            assert(sub.take(i - from + 1).last() == sub[i - from]);
        }
        if acc > (usize::MAX - d) / 10 {
            proof {
                let q = ((usize::MAX - d) / 10) as int;
                vstd::arithmetic::div_mod::lemma_fundamental_div_mod(
                    usize::MAX as int - d as int,
                    10,
                );
                assert(acc * 10 >= (q + 1) * 10);
                assert(acc * 10 + d > usize::MAX);
                assert(dec_val(sub.take(i - from + 1)) == acc * 10 + d);
                lemma_dec_val_prefix(sub, i - from + 1);
                assert(dec_val(sub) > usize::MAX);
            }
            return None;
        }
        proof {
            let q = ((usize::MAX - d) / 10) as int;
            vstd::arithmetic::div_mod::lemma_fundamental_div_mod(
                usize::MAX as int - d as int,
                10,
            );
            assert(acc * 10 <= q * 10);
            assert(acc * 10 + d <= usize::MAX);
        }
        acc = acc * 10 + d;
        i = i + 1;
    }
    proof {
        assert(sub.take(to - from) =~= sub);
        assert(dec_canonical(sub));
    }
    Some(acc)
}

// ---------------------------------------------------------------------------
// Escaping: keeps any scalar on a single line
// ---------------------------------------------------------------------------

pub open spec fn esc_char(c: char) -> Seq<char> {
    if c == '\\' {
        seq!['\\', '\\']
    } else if c == '\n' {
        seq!['\\', 'n']
    } else {
        seq![c]
    }
}

/// Escaped form of a string: backslashes are doubled and newlines become
/// `\n`, so the result never contains a newline.
pub open spec fn esc(s: Seq<char>) -> Seq<char>
    decreases s.len(),
{
    if s.len() == 0 {
        Seq::empty()
    } else {
        esc_char(s[0]) + esc(s.drop_first())
    }
}

/// Inverse of `esc`; `None` on a dangling or unknown escape.
pub open spec fn unesc(s: Seq<char>) -> Option<Seq<char>>
    decreases s.len(),
{
    if s.len() == 0 {
        Some(Seq::empty())
    } else if s[0] == '\\' {
        if s.len() >= 2 && (s[1] == '\\' || s[1] == 'n') {
            let c = if s[1] == '\\' {
                '\\'
            } else {
                '\n'
            };
            match unesc(s.skip(2)) {
                Option::Some(t) => Some(seq![c] + t),
                Option::None => None,
            }
        } else {
            None
        }
    } else {
        match unesc(s.skip(1)) {
            Option::Some(t) => Some(seq![s[0]] + t),
            Option::None => None,
        }
    }
}

pub proof fn lemma_esc_concat(a: Seq<char>, b: Seq<char>)
    ensures
        esc(a + b) == esc(a) + esc(b),
    decreases a.len(),
{
    if a.len() == 0 {
        assert(a + b =~= b);
        assert(esc(a) + esc(b) =~= esc(b));
    } else {
        lemma_esc_concat(a.drop_first(), b);
        assert((a + b).drop_first() =~= a.drop_first() + b);
        assert((a + b)[0] == a[0]);
        assert(esc(a + b) =~= esc_char(a[0]) + (esc(a.drop_first()) + esc(b)));
        assert(esc_char(a[0]) + (esc(a.drop_first()) + esc(b)) =~= (esc_char(a[0]) + esc(
            a.drop_first(),
        )) + esc(b));
    }
}

/// The escaped form of a string never contains a newline.
pub proof fn lemma_esc_no_newline(s: Seq<char>)
    ensures
        forall|i: int| 0 <= i < esc(s).len() ==> #[trigger] esc(s)[i] != '\n',
    decreases s.len(),
{
    if s.len() != 0 {
        lemma_esc_no_newline(s.drop_first());
        let e = esc(s);
        let h = esc_char(s[0]);
        let t = esc(s.drop_first());
        assert(forall|i: int| 0 <= i < h.len() ==> #[trigger] h[i] != '\n');
        assert(forall|i: int|
            0 <= i < e.len() ==> #[trigger] e[i] == if i < h.len() {
                h[i]
            } else {
                t[i - h.len()]
            });
    }
}

/// Escaping then unescaping recovers the original string.
pub proof fn lemma_unesc_esc(s: Seq<char>)
    ensures
        unesc(esc(s)) == Some(s),
    decreases s.len(),
{
    if s.len() == 0 {
        assert(esc(s) =~= Seq::<char>::empty());
    } else {
        lemma_unesc_esc(s.drop_first());
        let e = esc(s);
        let h = esc_char(s[0]);
        let t = esc(s.drop_first());
        assert(e =~= h + t);
        if s[0] == '\\' || s[0] == '\n' {
            assert(h.len() == 2);
            assert(e[0] == '\\');
            assert(e.skip(2) =~= t);
            assert(unesc(e) == Some(seq![s[0]] + s.drop_first()));
        } else {
            assert(h.len() == 1);
            assert(e[0] == s[0]);
            assert(e[0] != '\\');
            assert(e.skip(1) =~= t);
            assert(unesc(e) == Some(seq![s[0]] + s.drop_first()));
        }
        assert(seq![s[0]] + s.drop_first() =~= s);
    }
}

/// Append the escaped form of `s` to `out`.
pub fn esc_append(out: &mut Vec<char>, s: &Vec<char>)
    ensures
        final(out)@ == old(out)@ + esc(s@),
{
    let ghost orig = out@;
    let mut i: usize = 0;
    while i < s.len()
        invariant
            i <= s.len(),
            out@ == orig + esc(s@.take(i as int)),
        decreases s.len() - i,
    {
        let c = s[i];
        proof {
            assert(s@.take(i + 1).drop_last() =~= s@.take(i as int));
            lemma_esc_concat(s@.take(i as int), seq![s@[i as int]]);
            assert(s@.take(i + 1) =~= s@.take(i as int) + seq![s@[i as int]]);
            assert(esc(seq![s@[i as int]]) =~= esc_char(s@[i as int]) + esc(
                seq![s@[i as int]].drop_first(),
            ));
            assert(seq![s@[i as int]].drop_first() =~= Seq::<char>::empty());
            assert(esc(seq![s@[i as int]]) =~= esc_char(s@[i as int]));
        }
        if c == '\\' {
            out.push('\\');
            out.push('\\');
        } else if c == '\n' {
            out.push('\\');
            out.push('n');
        } else {
            out.push(c);
        }
        proof {
            assert(out@ =~= orig + esc(s@.take(i + 1)));
        }
        i = i + 1;
    }
    proof {
        assert(s@.take(s@.len() as int) =~= s@);
    }
}

/// Unescape the characters `s[from..to]`.
pub fn unesc_range(s: &Vec<char>, from: usize, to: usize) -> (r: Option<Vec<char>>)
    requires
        from <= to <= s@.len(),
    ensures
        ({
            let sub = s@.subrange(from as int, to as int);
            match r {
                Option::Some(v) => unesc(sub) == Some(v@),
                Option::None => unesc(sub) is None,
            }
        }),
{
    let ghost sub = s@.subrange(from as int, to as int);
    let mut out: Vec<char> = Vec::new();
    let mut i: usize = from;
    proof {
        assert(sub.skip(0) =~= sub);
        if unesc(sub) is Some {
            assert(Seq::<char>::empty() + unesc(sub)->Some_0 =~= unesc(sub)->Some_0);
        }
    }
    while i < to
        invariant
            from <= i <= to <= s@.len(),
            sub == s@.subrange(from as int, to as int),
            ({
                let tail = sub.skip(i - from);
                match unesc(tail) {
                    Option::Some(t) => unesc(sub) == Some(out@ + t),
                    Option::None => unesc(sub) is None,
                }
            }),
        decreases to - i,
    {
        let ghost tail = sub.skip(i - from);
        let c = s[i];
        proof {
            assert(tail[0] == s@[i as int]);
        }
        if c == '\\' {
            if i + 1 < to {
                let c2 = s[i + 1];
                proof {
                    assert(tail[1] == s@[i + 1]);
                }
                if c2 == '\\' || c2 == 'n' {
                    let u = if c2 == '\\' {
                        '\\'
                    } else {
                        '\n'
                    };
                    let ghost out_pre = out@;
                    out.push(u);
                    proof {
                        assert(tail.skip(2) =~= sub.skip(i + 2 - from));
                        let t2 = unesc(tail.skip(2));
                        if t2 is Some {
                            assert(unesc(tail) == Some(seq![u] + t2->Some_0));
                            assert(out@ =~= out_pre + seq![u]);
                            assert((out_pre + seq![u]) + t2->Some_0 =~= out_pre + (seq![u]
                                + t2->Some_0));
                        }
                    }
                    i = i + 2;
                } else {
                    proof {
                        assert(unesc(tail) is None);
                    }
                    return None;
                }
            } else {
                proof {
                    assert(tail.len() == 1);
                    assert(unesc(tail) is None);
                }
                return None;
            }
        } else {
            let ghost out_pre = out@;
            out.push(c);
            proof {
                assert(tail.skip(1) =~= sub.skip(i + 1 - from));
                let t2 = unesc(tail.skip(1));
                if t2 is Some {
                    assert(unesc(tail) == Some(seq![c] + t2->Some_0));
                    assert(out@ =~= out_pre + seq![c]);
                    assert((out_pre + seq![c]) + t2->Some_0 =~= out_pre + (seq![c] + t2->Some_0));
                }
            }
            i = i + 1;
        }
    }
    proof {
        assert(sub.skip(to - from) =~= Seq::<char>::empty());
        assert(unesc(sub.skip(to - from)) == Some(Seq::<char>::empty()));
        assert(out@ + Seq::<char>::empty() =~= out@);
    }
    Some(out)
}

// ---------------------------------------------------------------------------
// Lines
// ---------------------------------------------------------------------------

pub open spec fn line_has_no_newline(l: Seq<char>) -> bool {
    forall|i: int| 0 <= i < l.len() ==> #[trigger] l[i] != '\n'
}

/// A document is its lines joined with a trailing newline after each line.
pub open spec fn join_lines(ls: Seq<Seq<char>>) -> Seq<char>
    decreases ls.len(),
{
    if ls.len() == 0 {
        Seq::empty()
    } else {
        ls[0] + seq!['\n'] + join_lines(ls.drop_first())
    }
}

/// The longest newline-free prefix of `s`.
pub open spec fn head_line(s: Seq<char>) -> Seq<char>
    decreases s.len(),
{
    if s.len() == 0 {
        Seq::empty()
    } else if s[0] == '\n' {
        Seq::empty()
    } else {
        seq![s[0]] + head_line(s.drop_first())
    }
}

pub proof fn lemma_head_line_props(s: Seq<char>)
    ensures
        head_line(s).len() <= s.len(),
        head_line(s) == s.take(head_line(s).len() as int),
        line_has_no_newline(head_line(s)),
        head_line(s).len() < s.len() ==> s[head_line(s).len() as int] == '\n',
    decreases s.len(),
{
    if s.len() == 0 || s[0] == '\n' {
        assert(head_line(s) =~= s.take(0));
    } else {
        lemma_head_line_props(s.drop_first());
        let h = head_line(s);
        let ht = head_line(s.drop_first());
        assert(h =~= seq![s[0]] + ht);
        assert(h =~= s.take(h.len() as int));
        assert(forall|i: int| 0 <= i < h.len() ==> #[trigger] h[i] != '\n') by {
            assert(forall|i: int| 1 <= i < h.len() ==> #[trigger] h[i] == ht[i - 1]);
        }
    }
}

pub open spec fn split_lines(s: Seq<char>) -> Seq<Seq<char>>
    decreases s.len(),
{
    if s.len() == 0 {
        Seq::empty()
    } else {
        let h = head_line(s);
        if h.len() >= s.len() {
            seq![h]
        } else {
            seq![h] + split_lines(s.skip(h.len() as int + 1))
        }
    }
}

/// `head_line` recovers a newline-free line placed before a newline.
pub proof fn lemma_head_line_of_joined(l: Seq<char>, rest: Seq<char>)
    requires
        line_has_no_newline(l),
    ensures
        head_line(l + seq!['\n'] + rest) == l,
    decreases l.len(),
{
    let s = l + seq!['\n'] + rest;
    if l.len() == 0 {
        assert(s[0] == '\n');
        assert(head_line(s) =~= l);
    } else {
        assert(l.drop_first() + seq!['\n'] + rest =~= s.drop_first());
        lemma_head_line_of_joined(l.drop_first(), rest);
        assert(s[0] == l[0]);
        assert(s[0] != '\n');
        assert(head_line(s) =~= seq![l[0]] + l.drop_first());
        assert(seq![l[0]] + l.drop_first() =~= l);
    }
}

/// Splitting a joined document recovers exactly the lines, provided no
/// line contains a newline.
pub proof fn lemma_split_join(ls: Seq<Seq<char>>)
    requires
        forall|i: int| 0 <= i < ls.len() ==> line_has_no_newline(#[trigger] ls[i]),
    ensures
        split_lines(join_lines(ls)) == ls,
    decreases ls.len(),
{
    if ls.len() == 0 {
        assert(split_lines(join_lines(ls)) =~= ls);
    } else {
        let s = join_lines(ls);
        let l = ls[0];
        let rest = join_lines(ls.drop_first());
        assert(s =~= l + seq!['\n'] + rest);
        lemma_head_line_of_joined(l, rest);
        assert(head_line(s) == l);
        assert(s.len() == l.len() + 1 + rest.len());
        assert(head_line(s).len() < s.len());
        assert(s.skip(l.len() as int + 1) =~= rest);
        lemma_split_join(ls.drop_first());
        assert(split_lines(s) =~= seq![l] + split_lines(rest));
        assert(seq![l] + ls.drop_first() =~= ls);
    }
}

/// Split a document into its lines.  A final fragment not terminated by a
/// newline counts as a line of its own.
pub fn split_lines_exec(text: &Vec<char>) -> (r: Vec<Vec<char>>)
    ensures
        r@.len() == split_lines(text@).len(),
        forall|i: int| 0 <= i < r@.len() ==> #[trigger] r@[i]@ == split_lines(text@)[i],
{
    let mut res: Vec<Vec<char>> = Vec::new();
    let mut cur: Vec<char> = Vec::new();
    let mut i: usize = 0;
    proof {
        assert(Seq::<char>::empty() + text@.skip(0) =~= text@);
        assert(res@.map_values(|v: Vec<char>| v@) + split_lines(text@) =~= split_lines(text@));
    }
    while i < text.len()
        invariant
            i <= text@.len(),
            line_has_no_newline(cur@),
            split_lines(text@) == res@.map_values(|v: Vec<char>| v@) + split_lines(
                cur@ + text@.skip(i as int),
            ),
        decreases text.len() - i,
    {
        let c = text[i];
        let ghost pre = cur@;
        let ghost restnow = text@.skip(i as int);
        let ghost restnext = text@.skip(i + 1);
        if c == '\n' {
            let done = cur;
            cur = Vec::new();
            res.push(done);
            proof {
                assert(pre + restnow =~= pre + seq!['\n'] + restnext);
                lemma_head_line_of_joined(pre, restnext);
                let s = pre + seq!['\n'] + restnext;
                assert(head_line(s) == pre);
                assert(head_line(s).len() < s.len());
                assert(s.skip(pre.len() as int + 1) =~= restnext);
                assert(split_lines(s) =~= seq![pre] + split_lines(restnext));
                assert(res@.map_values(|v: Vec<char>| v@) =~= res@.drop_last().map_values(
                    |v: Vec<char>| v@,
                ) + seq![pre]);
                assert(cur@ + restnext =~= restnext);
                assert(res@.map_values(|v: Vec<char>| v@) + split_lines(cur@ + restnext)
                    =~= res@.drop_last().map_values(|v: Vec<char>| v@) + (seq![pre] + split_lines(
                    restnext,
                )));
            }
        } else {
            cur.push(c);
            proof {
                assert(restnow[0] == c);
                assert(pre + restnow =~= (pre + seq![c]) + restnext);
                assert(cur@ =~= pre + seq![c]);
            }
        }
        i = i + 1;
    }
    proof {
        assert(text@.skip(text@.len() as int) =~= Seq::<char>::empty());
        assert(cur@ + Seq::<char>::empty() =~= cur@);
    }
    if cur.len() > 0 {
        proof {
            lemma_head_line_props(cur@);
            assert(head_line(cur@) =~= cur@);
            assert(split_lines(cur@) =~= seq![cur@]);
            assert(res@.push(cur).map_values(|v: Vec<char>| v@) =~= res@.map_values(
                |v: Vec<char>| v@,
            ) + seq![cur@]);
        }
        res.push(cur);
    } else {
        proof {
            assert(cur@ =~= Seq::<char>::empty());
            assert(split_lines(cur@) =~= Seq::<Seq<char>>::empty());
            assert(res@.map_values(|v: Vec<char>| v@) + Seq::<Seq<char>>::empty()
                =~= res@.map_values(|v: Vec<char>| v@));
        }
    }
    proof {
        assert(forall|i: int|
            0 <= i < res@.len() ==> #[trigger] res@[i]@ == res@.map_values(|v: Vec<char>| v@)[i]);
    }
    res
}

} // verus!
