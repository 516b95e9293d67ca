//! Character-level pieces of the assembler: lines, tokens and literals.

use vstd::prelude::*;
use vstd::string::StrSliceExecFns;

verus! {

/// The characters that Rust's `char::is_whitespace` accepts (Unicode `White_Space`).
pub open spec fn spec_is_whitespace(c: char) -> bool {
    ('\t' <= c && c <= '\r') || c == ' ' || c == '\u{85}' || c == '\u{a0}' || c == '\u{1680}'
        || ('\u{2000}' <= c && c <= '\u{200a}') || c == '\u{2028}' || c == '\u{2029}'
        || c == '\u{202f}' || c == '\u{205f}' || c == '\u{3000}'
}

pub fn is_whitespace(c: char) -> (r: bool)
    ensures
        r == spec_is_whitespace(c),
{
    ('\t' <= c && c <= '\r') || c == ' ' || c == '\u{85}' || c == '\u{a0}' || c == '\u{1680}'
        || ('\u{2000}' <= c && c <= '\u{200a}') || c == '\u{2028}' || c == '\u{2029}'
        || c == '\u{202f}' || c == '\u{205f}' || c == '\u{3000}'
}

/// The characters of label names: upper-case letters, digits and `_`.
pub open spec fn spec_is_label_char(c: char) -> bool {
    ('A' <= c && c <= 'Z') || ('0' <= c && c <= '9') || c == '_'
}

pub fn is_label_character(c: char) -> (r: bool)
    ensures
        r == spec_is_label_char(c),
{
    ('A' <= c && c <= 'Z') || ('0' <= c && c <= '9') || c == '_'
}

pub open spec fn all_label_chars(s: Seq<char>) -> bool {
    forall|i: int| 0 <= i < s.len() ==> spec_is_label_char(#[trigger] s[i])
}

/// The text split at each `'\n'`, as `str::split("\n")` does.
pub open spec fn split_lines(s: Seq<char>) -> Seq<Seq<char>>
    decreases s.len(),
{
    if s.len() == 0 {
        seq![Seq::<char>::empty()]
    } else {
        let l = split_lines(s.drop_last());
        if s.last() == '\n' {
            l.push(Seq::<char>::empty())
        } else {
            l.update(l.len() - 1, l.last().push(s.last()))
        }
    }
}

/// The maximal runs of non-whitespace characters, and whether the text ends inside one.
pub open spec fn tokenize(s: Seq<char>) -> (Seq<Seq<char>>, bool)
    decreases s.len(),
{
    if s.len() == 0 {
        (Seq::empty(), false)
    } else {
        let (t, inside) = tokenize(s.drop_last());
        let c = s.last();
        if spec_is_whitespace(c) {
            (t, false)
        } else if inside && t.len() > 0 {
            (t.update(t.len() - 1, t.last().push(c)), true)
        } else {
            (t.push(seq![c]), true)
        }
    }
}

/// The whitespace-separated tokens of a line, as `str::split_whitespace` gives them.
pub open spec fn tokens(s: Seq<char>) -> Seq<Seq<char>> {
    tokenize(s).0
}

pub open spec fn deep(v: Seq<Vec<char>>) -> Seq<Seq<char>> {
    v.map_values(|x: Vec<char>| x@)
}

/// The characters of a string.
pub fn chars_of(s: &str) -> (r: Vec<char>)
    ensures
        r@ == s@,
{
    let n = s.unicode_len();
    let mut r: Vec<char> = Vec::new();
    let mut i: usize = 0;
    while i < n
        invariant
            n == s@.len(),
            i <= n,
            r@ == s@.take(i as int),
        decreases n - i,
    {
        r.push(s.get_char(i));
        i = i + 1;
        assert(r@ =~= s@.take(i as int));
    }
    assert(s@.take(n as int) =~= s@);
    r
}

/// The text split into lines at each `'\n'`.
pub fn lines_of(s: &Vec<char>) -> (r: Vec<Vec<char>>)
    ensures
        deep(r@) == split_lines(s@),
{
    let mut lines: Vec<Vec<char>> = Vec::new();
    let mut cur: Vec<char> = Vec::new();
    let mut i: usize = 0;
    while i < s.len()
        invariant
            i <= s@.len(),
            deep(lines@).push(cur@) == split_lines(s@.take(i as int)),
        decreases s.len() - i,
    {
        let c = s[i];
        let ghost before = s@.take(i as int);
        assert(s@.take(i + 1).drop_last() =~= before);
        if c == '\n' {
            lines.push(cur);
            cur = Vec::new();
            assert(deep(lines@).push(cur@) =~= split_lines(before).push(Seq::<char>::empty()));
        } else {
            let ghost old_lines = deep(lines@);
            cur.push(c);
            assert(deep(lines@).push(cur@) =~= split_lines(before).update(split_lines(before).len() - 1, split_lines(before).last().push(c)));
        }
        i = i + 1;
    }
    lines.push(cur);
    assert(s@.take(s@.len() as int) =~= s@);
    lines
}

/// The whitespace-separated tokens of a line.
pub fn tokens_of(s: &Vec<char>) -> (r: Vec<Vec<char>>)
    ensures
        deep(r@) == tokens(s@),
{
    let mut toks: Vec<Vec<char>> = Vec::new();
    let mut inside = false;
    let mut i: usize = 0;
    while i < s.len()
        invariant
            i <= s@.len(),
            tokenize(s@.take(i as int)) == (deep(toks@), inside),
        decreases s.len() - i,
    {
        let c = s[i];
        let ghost before = s@.take(i as int);
        assert(s@.take(i + 1).drop_last() =~= before);
        if is_whitespace(c) {
            inside = false;
        } else if inside && toks.len() > 0 {
            let last = toks.len() - 1;
            let mut t = toks.remove(last);
            t.push(c);
            toks.push(t);
            assert(deep(toks@) =~= tokenize(before).0.update(tokenize(before).0.len() - 1, tokenize(before).0.last().push(c)));
        } else {
            let mut t: Vec<char> = Vec::new();
            t.push(c);
            toks.push(t);
            assert(t@ =~= seq![c]);
            assert(deep(toks@) =~= tokenize(before).0.push(seq![c]));
            inside = true;
        }
        i = i + 1;
    }
    assert(s@.take(s@.len() as int) =~= s@);
    toks
}

/// Whether two character sequences are equal.
pub fn chars_eq(a: &Vec<char>, b: &Vec<char>) -> (r: bool)
    ensures
        r == (a@ == b@),
{
    if a.len() != b.len() {
        return false;
    }
    let mut i: usize = 0;
    while i < a.len()
        invariant
            a@.len() == b@.len(),
            i <= a@.len(),
            a@.take(i as int) == b@.take(i as int),
        decreases a.len() - i,
    {
        if a[i] != b[i] {
            assert(a@[i as int] != b@[i as int]);
            return false;
        }
        i = i + 1;
        assert(a@.take(i as int) =~= b@.take(i as int));
    }
    assert(a@ =~= a@.take(i as int));
    assert(b@ =~= b@.take(i as int));
    true
}

/// Whether a token spells the given text.
pub fn token_is(t: &Vec<char>, s: &str) -> (r: bool)
    ensures
        r == (t@ == s@),
{
    let c = chars_of(s);
    chars_eq(t, &c)
}

/// The value of a digit in `base` (10 or 16).
pub open spec fn digit_value(c: char, base: nat) -> Option<nat> {
    if '0' <= c && c <= '9' {
        Some((c as nat - '0' as nat) as nat)
    } else if base == 16 && 'a' <= c && c <= 'f' {
        Some((c as nat - 'a' as nat + 10) as nat)
    } else if base == 16 && 'A' <= c && c <= 'F' {
        Some((c as nat - 'A' as nat + 10) as nat)
    } else {
        None
    }
}

/// The number that a run of digits spells, if all are digits.
pub open spec fn digits_value(s: Seq<char>, base: nat) -> Option<nat>
    decreases s.len(),
{
    if s.len() == 0 {
        Some(0)
    } else {
        match (digits_value(s.drop_last(), base), digit_value(s.last(), base)) {
            (Some(a), Some(d)) => Some(a * base + d),
            _ => None,
        }
    }
}

/// `s` without one leading `+`.
pub open spec fn unsigned_body(s: Seq<char>) -> Seq<char> {
    if s.len() > 0 && s[0] == '+' {
        s.skip(1)
    } else {
        s
    }
}

/// What `u32::from_str_radix(s, base)` gives: an optional `+`, then at least
/// one digit, and a value that fits in 32 bits.
pub open spec fn parse_unsigned(s: Seq<char>, base: nat) -> Option<nat> {
    let body = unsigned_body(s);
    if body.len() == 0 {
        None
    } else {
        match digits_value(body, base) {
            Some(v) => if v <= u32::MAX {
                Some(v)
            } else {
                None
            },
            None => None,
        }
    }
}

/// What `s.parse::<i32>()` gives: an optional sign, then at least one decimal
/// digit, and a value that fits in 32 signed bits.
pub open spec fn parse_signed(s: Seq<char>) -> Option<int> {
    if s.len() > 0 && s[0] == '-' {
        let body = s.skip(1);
        if body.len() == 0 {
            None
        } else {
            match digits_value(body, 10) {
                Some(v) => if v <= 0x8000_0000 {
                    Some(-v)
                } else {
                    None
                },
                None => None,
            }
        }
    } else {
        match parse_unsigned(s, 10) {
            Some(v) => if v <= 0x7fff_ffff {
                Some(v as int)
            } else {
                None
            },
            None => None,
        }
    }
}

proof fn lemma_digits_prefix(s: Seq<char>, base: nat, k: int)
    requires
        0 <= k <= s.len(),
        base >= 1,
        digits_value(s, base) is Some,
    ensures
        digits_value(s.take(k), base) is Some,
        digits_value(s.take(k), base)->Some_0 <= digits_value(s, base)->Some_0,
    decreases s.len(),
{
    if k < s.len() {
        assert(s.drop_last().take(k) =~= s.take(k));
        lemma_digits_prefix(s.drop_last(), base, k);
        let a = digits_value(s.drop_last(), base)->Some_0;
        let d = digit_value(s.last(), base)->Some_0;
        assert(a * base + d >= a) by (nonlinear_arith)
            requires
                base >= 1,
                d >= 0,
                a >= 0,
        ;
    } else {
        assert(s.take(k) =~= s);
    }
}

fn digit_of(c: char, base: u32) -> (r: Option<u32>)
    requires
        base == 10 || base == 16,
    ensures
        r matches Some(d) ==> digit_value(c, base as nat) == Some(d as nat) && d < base,
        r is None ==> digit_value(c, base as nat) is None,
{
    if '0' <= c && c <= '9' {
        Some((c as u32) - ('0' as u32))
    } else if base == 16 && 'a' <= c && c <= 'f' {
        Some((c as u32) - ('a' as u32) + 10)
    } else if base == 16 && 'A' <= c && c <= 'F' {
        Some((c as u32) - ('A' as u32) + 10)
    } else {
        None
    }
}

/// The value of `s[from..]` as digits in `base`, if all are digits and it is at most `limit`.
fn digits_at_most(s: &Vec<char>, from: usize, base: u32, limit: u64) -> (r: Option<u64>)
    requires
        base == 10 || base == 16,
        from <= s@.len(),
        limit <= 0x1_0000_0000,
    ensures
        r matches Some(v) ==> digits_value(s@.skip(from as int), base as nat) == Some(v as nat) && v <= limit,
        r is None ==> match digits_value(s@.skip(from as int), base as nat) {
            Some(v) => v > limit,
            None => true,
        },
{
    let mut acc: u64 = 0;
    let mut i: usize = from;
    while i < s.len()
        invariant
            base == 10 || base == 16,
            from <= i <= s@.len(),
            limit <= 0x1_0000_0000,
            acc <= limit,
            digits_value(s@.subrange(from as int, i as int), base as nat) == Some(acc as nat),
        decreases s.len() - i,
    {
        let ghost pre = s@.subrange(from as int, i as int);
        let ghost next = s@.subrange(from as int, i + 1);
        assert(next.drop_last() =~= pre);
        match digit_of(s[i], base) {
            None => {
                proof {
                    let whole = s@.skip(from as int);
                    if digits_value(whole, base as nat) is Some {
                        lemma_digits_prefix(whole, base as nat, i + 1 - from);
                        assert(whole.take(i + 1 - from) =~= next);
                    }
                }
                return None;
            },
            Some(d) => {
                assert(acc * (base as u64) <= 0x1_0000_0000 * 16) by (nonlinear_arith)
                    requires
                        acc <= 0x1_0000_0000,
                        base <= 16,
                ;
                let v = acc * (base as u64) + d as u64;
                if v > limit {
                    proof {
                        let whole = s@.skip(from as int);
                        if digits_value(whole, base as nat) is Some {
                            lemma_digits_prefix(whole, base as nat, i + 1 - from);
                            assert(whole.take(i + 1 - from) =~= next);
                        }
                    }
                    return None;
                }
                acc = v;
            },
        }
        i = i + 1;
    }
    assert(s@.subrange(from as int, i as int) =~= s@.skip(from as int));
    Some(acc)
}

/// `u32::from_str_radix(s, base)` for base 10 or 16.
pub fn parse_unsigned_exec(s: &Vec<char>, from: usize, base: u32) -> (r: Option<u32>)
    requires
        base == 10 || base == 16,
        from <= s@.len(),
    ensures
        r matches Some(v) ==> parse_unsigned(s@.skip(from as int), base as nat) == Some(v as nat),
        r is None ==> parse_unsigned(s@.skip(from as int), base as nat) is None,
{
    let ghost t = s@.skip(from as int);
    let start = if from < s.len() && s[from] == '+' { from + 1 } else { from };
    proof {
        assert(unsigned_body(t) =~= s@.skip(start as int));
    }
    if start >= s.len() {
        return None;
    }
    match digits_at_most(s, start, base, 0xFFFF_FFFF) {
        Some(v) => Some(v as u32),
        None => None,
    }
}

/// `s.parse::<i32>()`.
pub fn parse_signed_exec(s: &Vec<char>) -> (r: Option<i64>)
    ensures
        r matches Some(v) ==> parse_signed(s@) == Some(v as int),
        r is None ==> parse_signed(s@) is None,
{
    if s.len() > 0 && s[0] == '-' {
        if s.len() == 1 {
            return None;
        }
        match digits_at_most(s, 1, 10, 0x8000_0000) {
            Some(v) => Some(-(v as i64)),
            None => None,
        }
    } else {
        match parse_unsigned_exec(s, 0, 10) {
            Some(v) => {
                assert(s@.skip(0) =~= s@);
                if v <= 0x7fff_ffff {
                    Some(v as i64)
                } else {
                    None
                }
            },
            None => {
                assert(s@.skip(0) =~= s@);
                None
            },
        }
    }
}

} // verus!
