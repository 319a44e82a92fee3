//! Character level string helpers shared by the other modules.

use vstd::prelude::*;

verus! {

/// The character of one decimal digit.
pub open spec fn digit_char(d: nat) -> char {
    (48 + d) as char
}

/// The decimal representation of a natural number, most significant digit first.
pub open spec fn decimal_digits(n: nat) -> Seq<char>
    decreases n,
{
    if n < 10 {
        seq![digit_char(n)]
    } else {
        decimal_digits(n / 10).push(digit_char(n % 10))
    }
}

/// The decimal representation of a signed integer, with a leading `-` when negative.
pub open spec fn signed_decimal(n: int) -> Seq<char> {
    if n < 0 {
        seq!['-'] + decimal_digits((-n) as nat)
    } else {
        decimal_digits(n as nat)
    }
}

/// `String::push`: appends one character at the end.
#[verifier::external_body]
pub(crate) fn push_char(s: &mut String, c: char)
    ensures
        final(s)@ == old(s)@.push(c),
{
    s.push(c);
}

fn digit(d: u64) -> (c: char)
    requires
        d < 10,
    ensures
        c == digit_char(d as nat),
{
    let b: u8 = 48u8 + (d as u8);
    b as char
}

/// Appends the decimal representation of `n`.
pub fn append_decimal(s: &mut String, n: u64)
    ensures
        final(s)@ == old(s)@ + decimal_digits(n as nat),
    decreases n,
{
    if n >= 10 {
        append_decimal(s, n / 10);
    }
    let ghost before = s@;
    let c = digit(n % 10);
    push_char(s, c);
    assert(s@ =~= before.push(c));
    assert(old(s)@ + decimal_digits(n as nat) =~= s@);
}

} // verus!

verus! {

/// `true` for the characters that Unicode gives the `White_Space` property, which is
/// what `char::is_whitespace` tests.
pub open spec fn is_white_space(c: char) -> bool {
    ||| ('\u{9}' <= c && c <= '\u{d}')
    ||| c == ' '
    ||| c == '\u{85}'
    ||| c == '\u{a0}'
    ||| c == '\u{1680}'
    ||| ('\u{2000}' <= c && c <= '\u{200a}')
    ||| c == '\u{2028}'
    ||| c == '\u{2029}'
    ||| c == '\u{202f}'
    ||| c == '\u{205f}'
    ||| c == '\u{3000}'
}

/// The ASCII lower case form of one character; other characters stay as they are.
pub open spec fn ascii_lower(c: char) -> char {
    if 'A' <= c && c <= 'Z' {
        ((c as int) + 32) as char
    } else {
        c
    }
}

/// The ASCII lower case form of a text, character by character.
pub open spec fn ascii_lowercase(s: Seq<char>) -> Seq<char> {
    s.map_values(|c: char| ascii_lower(c))
}

/// Lower casing turns each ASCII capital into its small letter (32 code points
/// on) and keeps every other character, so the result holds no ASCII capital.
pub proof fn ascii_lowercase_lowers_only_capitals(s: Seq<char>)
    ensures
        ascii_lowercase(s).len() == s.len(),
        forall|i: int| 0 <= i < s.len() ==> !('A' <= #[trigger] ascii_lowercase(s)[i] <= 'Z'),
        forall|i: int| 0 <= i < s.len() && 'A' <= s[i] <= 'Z' ==> #[trigger] ascii_lowercase(s)[i] as int == s[i] as int + 32,
        forall|i: int| 0 <= i < s.len() && !('A' <= s[i] <= 'Z') ==> #[trigger] ascii_lowercase(s)[i] == s[i],
{
}

/// `s` without its leading characters that satisfy `p`.
pub open spec fn trim_start_by(s: Seq<char>, p: spec_fn(char) -> bool) -> Seq<char>
    decreases s.len(),
{
    if s.len() > 0 && p(s[0]) {
        trim_start_by(s.drop_first(), p)
    } else {
        s
    }
}

/// `s` without its trailing characters that satisfy `p`.
pub open spec fn trim_end_by(s: Seq<char>, p: spec_fn(char) -> bool) -> Seq<char>
    decreases s.len(),
{
    if s.len() > 0 && p(s.last()) {
        trim_end_by(s.drop_last(), p)
    } else {
        s
    }
}

/// `s` without the characters satisfying `p` at either end.
pub open spec fn trim_by(s: Seq<char>, p: spec_fn(char) -> bool) -> Seq<char> {
    trim_end_by(trim_start_by(s, p), p)
}

/// The characters that a trim removes: white space, or the double quote.
pub open spec fn trim_pred(quotes: bool) -> spec_fn(char) -> bool {
    if quotes {
        |c: char| c == '"'
    } else {
        |c: char| is_white_space(c)
    }
}

/// `s` without white space at either end (what `str::trim` gives).
pub open spec fn trim_white(s: Seq<char>) -> Seq<char> {
    trim_by(s, trim_pred(false))
}

/// `s` without double quote characters at either end (what `trim_matches('"')` gives).
pub open spec fn trim_quotes(s: Seq<char>) -> Seq<char> {
    trim_by(s, trim_pred(true))
}

/// `prefix` is the beginning of `s`.
pub open spec fn has_prefix(s: Seq<char>, prefix: Seq<char>) -> bool {
    prefix.len() <= s.len() && s.subrange(0, prefix.len() as int) == prefix
}

/// The copy of a text as a vector of its characters.
pub fn chars_of(s: &str) -> (v: Vec<char>)
    ensures
        v@ == s@,
{
    let n = s.unicode_len();
    let mut v: Vec<char> = Vec::new();
    let mut i: usize = 0;
    while i < n
        invariant
            n == s@.len(),
            i <= n,
            v@ == s@.subrange(0, i as int),
        decreases n - i,
    {
        v.push(s.get_char(i));
        i = i + 1;
        assert(v@ =~= s@.subrange(0, i as int));
    }
    assert(s@.subrange(0, n as int) =~= s@);
    v
}

/// The text made of the characters `chars[from..to]`.
pub fn string_from_range(chars: &Vec<char>, from: usize, to: usize) -> (s: String)
    requires
        from <= to <= chars.len(),
    ensures
        s@ == chars@.subrange(from as int, to as int),
{
    let mut s = String::new();
    let mut i = from;
    while i < to
        invariant
            from <= i <= to <= chars.len(),
            s@ == chars@.subrange(from as int, i as int),
        decreases to - i,
    {
        push_char(&mut s, chars[i]);
        i = i + 1;
        assert(s@ =~= chars@.subrange(from as int, i as int));
    }
    s
}

/// The text made of all of `chars`.
pub fn string_from_chars(chars: &Vec<char>) -> (s: String)
    ensures
        s@ == chars@,
{
    let s = string_from_range(chars, 0, chars.len());
    assert(chars@.subrange(0, chars@.len() as int) =~= chars@);
    s
}

/// Whether two texts are equal, character by character.
pub fn text_eq(a: &str, b: &str) -> (same: bool)
    ensures
        same == (a@ == b@),
{
    let x = chars_of(a);
    let y = chars_of(b);
    if x.len() != y.len() {
        return false;
    }
    let mut i: usize = 0;
    while i < x.len()
        invariant
            x.len() == y.len(),
            x@ == a@,
            y@ == b@,
            i <= x.len(),
            forall|j: int| 0 <= j < i ==> x@[j] == y@[j],
        decreases x.len() - i,
    {
        if x[i] != y[i] {
            return false;
        }
        i = i + 1;
    }
    assert(x@ =~= y@);
    true
}

/// Whether `s` begins with `prefix`.
pub fn starts_with(s: &str, prefix: &str) -> (yes: bool)
    ensures
        yes == has_prefix(s@, prefix@),
{
    let x = chars_of(s);
    let p = chars_of(prefix);
    if p.len() > x.len() {
        return false;
    }
    let mut i: usize = 0;
    while i < p.len()
        invariant
            p.len() <= x.len(),
            x@ == s@,
            p@ == prefix@,
            i <= p.len(),
            forall|j: int| 0 <= j < i ==> x@[j] == p@[j],
        decreases p.len() - i,
    {
        if x[i] != p[i] {
            assert(s@.subrange(0, prefix@.len() as int)[i as int] != prefix@[i as int]);
            return false;
        }
        i = i + 1;
    }
    assert(s@.subrange(0, prefix@.len() as int) =~= prefix@);
    true
}

/// Decimal digits hold no line break.
pub proof fn lemma_decimal_digits_lack_break(n: nat)
    ensures
        !decimal_digits(n).contains('\n'),
    decreases n,
{
    if n < 10 {
        assert(decimal_digits(n)[0] == digit_char(n));
    } else {
        lemma_decimal_digits_lack_break(n / 10);
        lemma_concat_contains(decimal_digits(n / 10), seq![digit_char(n % 10)], '\n');
        assert(decimal_digits(n) =~= decimal_digits(n / 10) + seq![digit_char(n % 10)]);
    }
}

/// Decimal digits are all characters `0` to `9`.
pub proof fn lemma_decimal_digits_are_digits(n: nat)
    ensures
        forall|i: int| 0 <= i < decimal_digits(n).len() ==> '0' <= #[trigger] decimal_digits(n)[i] <= '9',
    decreases n,
{
    if n >= 10 {
        lemma_decimal_digits_are_digits(n / 10);
        assert(decimal_digits(n) =~= decimal_digits(n / 10).push(digit_char(n % 10)));
    }
}

/// Reading the decimal digits of a number gives the number back.
pub proof fn lemma_decimal_digits_read_back(n: nat)
    ensures
        digits_value(decimal_digits(n), 10) == Some(n),
        decimal_digits(n).len() >= 1,
        '0' <= decimal_digits(n)[0] <= '9',
    decreases n,
{
    let d = decimal_digits(n);
    let k = n % 10;
    assert(digit_value(digit_char(k)) == Some(k));
    if n < 10 {
        assert(d.drop_last() =~= Seq::<char>::empty());
        assert(d.last() == digit_char(k));
        assert(digits_value(d.drop_last(), 10) == Some(0nat));
    } else {
        lemma_decimal_digits_read_back(n / 10);
        assert(d.drop_last() =~= decimal_digits(n / 10));
        assert(d.last() == digit_char(k));
        assert(d[0] == decimal_digits(n / 10)[0]);
        assert((n / 10) * 10 + k == n);
    }
}

/// Whether `c` has the Unicode `White_Space` property.
pub fn white_space(c: char) -> (yes: bool)
    ensures
        yes == is_white_space(c),
{
    ('\u{9}' <= c && c <= '\u{d}') || c == ' ' || c == '\u{85}' || c == '\u{a0}'
        || c == '\u{1680}' || ('\u{2000}' <= c && c <= '\u{200a}') || c == '\u{2028}'
        || c == '\u{2029}' || c == '\u{202f}' || c == '\u{205f}' || c == '\u{3000}'
}

/// The ASCII lower case form of one character.
pub fn lower_char(c: char) -> (l: char)
    ensures
        l == ascii_lower(c),
{
    if 'A' <= c && c <= 'Z' {
        let b: u8 = (c as u8) + 32;
        b as char
    } else {
        c
    }
}

/// The ASCII lower case form of a text (`str::to_ascii_lowercase`).
pub fn to_ascii_lowercase(s: &str) -> (l: String)
    ensures
        l@ == ascii_lowercase(s@),
{
    let x = chars_of(s);
    let mut out = String::new();
    let mut i: usize = 0;
    while i < x.len()
        invariant
            x@ == s@,
            i <= x.len(),
            out@ == ascii_lowercase(s@.subrange(0, i as int)),
        decreases x.len() - i,
    {
        let l = lower_char(x[i]);
        push_char(&mut out, l);
        i = i + 1;
        assert(out@ =~= ascii_lowercase(s@.subrange(0, i as int)));
    }
    assert(s@.subrange(0, x.len() as int) =~= s@);
    out
}

} // verus!

verus! {

proof fn lemma_trim_start_at(s: Seq<char>, p: spec_fn(char) -> bool, k: int)
    requires
        0 <= k <= s.len(),
        forall|j: int| 0 <= j < k ==> p(s[j]),
        k == s.len() || !p(s[k]),
    ensures
        trim_start_by(s, p) == s.subrange(k, s.len() as int),
    decreases k,
{
    if k == 0 {
        assert(s.subrange(0, s.len() as int) =~= s);
    } else {
        let t = s.drop_first();
        assert forall|j: int| 0 <= j < k - 1 implies p(t[j]) by {
            assert(t[j] == s[j + 1]);
        }
        if k < s.len() {
            assert(t[k - 1] == s[k]);
        }
        lemma_trim_start_at(t, p, k - 1);
        assert(t.subrange(k - 1, t.len() as int) =~= s.subrange(k, s.len() as int));
    }
}

proof fn lemma_trim_end_at(s: Seq<char>, p: spec_fn(char) -> bool, k: int)
    requires
        0 <= k <= s.len(),
        forall|j: int| k <= j < s.len() ==> p(s[j]),
        k == 0 || !p(s[k - 1]),
    ensures
        trim_end_by(s, p) == s.subrange(0, k),
    decreases s.len() - k,
{
    if k == s.len() {
        assert(s.subrange(0, k) =~= s);
    } else {
        let t = s.drop_last();
        assert forall|j: int| k <= j < t.len() implies p(t[j]) by {
            assert(t[j] == s[j]);
        }
        if k > 0 {
            assert(t[k - 1] == s[k - 1]);
        }
        lemma_trim_end_at(t, p, k);
        assert(t.subrange(0, k) =~= s.subrange(0, k));
    }
}

fn trim_matches_char(c: char, quotes: bool) -> (yes: bool)
    ensures
        yes == trim_pred(quotes)(c),
{
    if quotes {
        c == '"'
    } else {
        white_space(c)
    }
}

/// The characters of `v` without white space (or, with `quotes`, double quotes)
/// at either end.
pub fn trim_chars(v: &Vec<char>, quotes: bool) -> (t: Vec<char>)
    ensures
        t@ == trim_by(v@, trim_pred(quotes)),
{
    let ghost p = trim_pred(quotes);
    let n = v.len();
    let mut lo: usize = 0;
    while lo < n && trim_matches_char(v[lo], quotes)
        invariant
            n == v.len(),
            p == trim_pred(quotes),
            lo <= n,
            forall|j: int| 0 <= j < lo ==> p(v@[j]),
        decreases n - lo,
    {
        lo = lo + 1;
    }
    proof {
        lemma_trim_start_at(v@, p, lo as int);
    }
    let ghost mid = v@.subrange(lo as int, n as int);
    let mut hi: usize = n;
    while hi > lo && trim_matches_char(v[hi - 1], quotes)
        invariant
            n == v.len(),
            p == trim_pred(quotes),
            lo <= hi <= n,
            forall|j: int| hi <= j < n ==> p(v@[j]),
        decreases hi - lo,
    {
        hi = hi - 1;
    }
    proof {
        assert forall|j: int| hi - lo <= j < mid.len() implies p(mid[j]) by {
            assert(mid[j] == v@[j + lo]);
        }
        if hi > lo {
            assert(mid[hi - lo - 1] == v@[hi - 1]);
        }
        lemma_trim_end_at(mid, p, hi - lo);
        assert(mid.subrange(0, hi - lo) =~= v@.subrange(lo as int, hi as int));
    }
    let mut t: Vec<char> = Vec::new();
    let mut i = lo;
    while i < hi
        invariant
            n == v.len(),
            lo <= i <= hi <= n,
            t@ == v@.subrange(lo as int, i as int),
        decreases hi - i,
    {
        t.push(v[i]);
        i = i + 1;
        assert(t@ =~= v@.subrange(lo as int, i as int));
    }
    t
}

/// `str::trim` followed by `trim_matches('"')`: the form in which device
/// properties keep their case.
pub fn trim_value(s: &str) -> (t: String)
    ensures
        t@ == trim_quotes(trim_white(s@)),
{
    let v = chars_of(s);
    let w = trim_chars(&v, false);
    let q = trim_chars(&w, true);
    string_from_chars(&q)
}

} // verus!

verus! {

/// The value of one digit character in bases up to 36 (`char::to_digit`'s table).
pub open spec fn digit_value(c: char) -> Option<nat> {
    if '0' <= c && c <= '9' {
        Some((c as int - '0' as int) as nat)
    } else if 'a' <= c && c <= 'z' {
        Some((c as int - 'a' as int + 10) as nat)
    } else if 'A' <= c && c <= 'Z' {
        Some((c as int - 'A' as int + 10) as nat)
    } else {
        None
    }
}

/// The value of a string of digits in base `radix`; `None` when some character
/// is not a digit of that base. The empty string has the value 0.
pub open spec fn digits_value(s: Seq<char>, radix: nat) -> Option<nat>
    decreases s.len(),
{
    if s.len() == 0 {
        Some(0)
    } else {
        match (digits_value(s.drop_last(), radix), digit_value(s.last())) {
            (Some(v), Some(d)) => if d < radix {
                Some(v * radix + d)
            } else {
                None
            },
            _ => None,
        }
    }
}

/// An unsigned integer as `from_str_radix` reads it: an optional leading `+`,
/// then at least one digit of the base, and a value no larger than `max`.
pub open spec fn parse_unsigned(s: Seq<char>, radix: nat, max: nat) -> Option<nat> {
    if s.len() == 0 {
        None
    } else {
        let body = if s[0] == '+' {
            s.drop_first()
        } else {
            s
        };
        if body.len() == 0 {
            None
        } else {
            match digits_value(body, radix) {
                Some(v) => if v <= max {
                    Some(v)
                } else {
                    None
                },
                None => None,
            }
        }
    }
}

fn digit_of(c: char, radix: u32) -> (d: Option<u32>)
    requires
        2 <= radix <= 36,
    ensures
        match d {
            Some(v) => digit_value(c) == Some(v as nat) && v < radix,
            None => digit_value(c).is_none() || digit_value(c).unwrap() >= radix,
        },
{
    let code = c as u32;
    let v: u32 = if '0' <= c && c <= '9' {
        code - 48
    } else if 'a' <= c && c <= 'z' {
        code - 97 + 10
    } else if 'A' <= c && c <= 'Z' {
        code - 65 + 10
    } else {
        return None;
    };
    if v < radix {
        Some(v)
    } else {
        None
    }
}

proof fn lemma_digits_none_stays(s: Seq<char>, radix: nat, k: int)
    requires
        0 <= k <= s.len(),
        digits_value(s.subrange(0, k), radix).is_none(),
    ensures
        digits_value(s, radix).is_none(),
    decreases s.len() - k,
{
    if k < s.len() {
        assert(s.drop_last().subrange(0, k) =~= s.subrange(0, k));
        lemma_digits_none_stays(s.drop_last(), radix, k);
    } else {
        assert(s.subrange(0, k) =~= s);
    }
}

/// Reads `chars[from..]` as an unsigned integer in base `radix` no larger than `max`
/// (`from_str_radix` for an unsigned type whose largest value is `max`).
pub fn parse_unsigned_from(chars: &Vec<char>, from: usize, radix: u32, max: u32) -> (r: Option<u32>)
    requires
        from <= chars.len(),
        2 <= radix <= 36,
    ensures
        match r {
            Some(v) => parse_unsigned(chars@.subrange(from as int, chars.len() as int), radix as nat, max as nat) == Some(v as nat),
            None => parse_unsigned(chars@.subrange(from as int, chars.len() as int), radix as nat, max as nat).is_none(),
        },
{
    let ghost s = chars@.subrange(from as int, chars.len() as int);
    let n = chars.len();
    if from == n {
        return None;
    }
    let mut start = from;
    if chars[from] == '+' {
        start = from + 1;
    }
    let ghost body = chars@.subrange(start as int, n as int);
    assert(body =~= if s[0] == '+' { s.drop_first() } else { s });
    if start == n {
        return None;
    }
    let cap: u64 = (max as u64) + 1;
    let mut acc: u64 = 0;
    let mut i = start;
    assert(body.subrange(0, 0) =~= Seq::<char>::empty());
    while i < n
        invariant
            from <= start <= i <= n == chars.len(),
            2 <= radix <= 36,
            cap == max as u64 + 1,
            body == chars@.subrange(start as int, n as int),
            s == chars@.subrange(from as int, n as int),
            s.len() > 0,
            body.len() > 0,
            body == if s[0] == '+' { s.drop_first() } else { s },
            acc <= cap,
            match digits_value(body.subrange(0, i - start), radix as nat) {
                Some(v) => acc == if v < cap { v } else { cap as nat },
                None => false,
            },
        decreases n - i,
    {
        let ghost pre = body.subrange(0, i - start);
        let ghost next = body.subrange(0, i - start + 1);
        assert(next.drop_last() =~= pre);
        assert(next.last() == chars@[i as int]);
        match digit_of(chars[i], radix) {
            None => {
                proof {
                    assert(digits_value(next, radix as nat).is_none());
                    lemma_digits_none_stays(body, radix as nat, i - start + 1);
                }
                return None;
            },
            Some(d) => {
                let ghost v = digits_value(pre, radix as nat).unwrap();
                assert(acc * (radix as u64) + (d as u64) <= cap * 36 + 36) by (nonlinear_arith)
                    requires
                        acc <= cap,
                        radix <= 36,
                        d < radix,
                ;
                let grown: u64 = acc * (radix as u64) + (d as u64);
                proof {
                    if v < cap {
                        assert(grown == v * radix + d);
                    } else {
                        assert(v * radix + d >= cap) by (nonlinear_arith)
                            requires
                                v >= cap,
                                radix >= 2,
                        ;
                        assert(grown >= cap) by (nonlinear_arith)
                            requires
                                acc == cap,
                                radix >= 2,
                                grown == acc * radix + d,
                        ;
                    }
                }
                acc = if grown < cap { grown } else { cap };
            },
        }
        i = i + 1;
    }
    assert(body.subrange(0, n - start) =~= body);
    if acc < cap {
        Some(acc as u32)
    } else {
        None
    }
}

} // verus!

verus! {

/// The parts written one after the other with `sep` between neighbours.
pub open spec fn joined_with(parts: Seq<Seq<char>>, sep: Seq<char>) -> Seq<char>
    decreases parts.len(),
{
    if parts.len() == 0 {
        Seq::empty()
    } else if parts.len() == 1 {
        parts[0]
    } else {
        joined_with(parts.drop_last(), sep) + sep + parts.last()
    }
}

/// The pieces of `s` between the occurrences of `sep`, in order, as
/// `str::split` with one character gives them (an empty text is one empty piece).
pub open spec fn split_on(s: Seq<char>, sep: char) -> Seq<Seq<char>>
    decreases s.len(),
{
    if s.len() == 0 {
        seq![Seq::empty()]
    } else if s.last() == sep {
        split_on(s.drop_last(), sep).push(Seq::empty())
    } else {
        let p = split_on(s.drop_last(), sep);
        p.update(p.len() - 1, p.last().push(s.last()))
    }
}

/// A text holds `x` where one of its two halves does.
pub proof fn lemma_concat_contains(a: Seq<char>, b: Seq<char>, x: char)
    ensures
        (a + b).contains(x) <==> (a.contains(x) || b.contains(x)),
{
    if (a + b).contains(x) {
        let i = choose|i: int| 0 <= i < (a + b).len() && (a + b)[i] == x;
        if i < a.len() {
            assert(a[i] == x);
        } else {
            assert(b[i - a.len()] == x);
        }
    }
    if a.contains(x) {
        let i = choose|i: int| 0 <= i < a.len() && a[i] == x;
        assert((a + b)[i] == x);
    }
    if b.contains(x) {
        let i = choose|i: int| 0 <= i < b.len() && b[i] == x;
        assert((a + b)[i + a.len()] == x);
    }
}

/// Parts and a separator free of `x` join to a text free of `x`.
pub proof fn lemma_joined_lacks(parts: Seq<Seq<char>>, sep: Seq<char>, x: char)
    requires
        !sep.contains(x),
        forall|k: int| 0 <= k < parts.len() ==> !(#[trigger] parts[k]).contains(x),
    ensures
        !joined_with(parts, sep).contains(x),
    decreases parts.len(),
{
    if parts.len() == 0 {
    } else if parts.len() == 1 {
        assert(!parts[0].contains(x));
    } else {
        let init = parts.drop_last();
        assert forall|k: int| 0 <= k < init.len() implies !(#[trigger] init[k]).contains(x) by {
            assert(init[k] == parts[k]);
        }
        lemma_joined_lacks(init, sep, x);
        assert(!parts[parts.len() - 1].contains(x));
        lemma_concat_contains(joined_with(init, sep), sep, x);
        lemma_concat_contains(joined_with(init, sep) + sep, parts.last(), x);
    }
}

/// Splitting a text never gives zero pieces.
proof fn lemma_split_nonempty(s: Seq<char>, sep: char)
    ensures
        split_on(s, sep).len() >= 1,
    decreases s.len(),
{
    if s.len() > 0 {
        lemma_split_nonempty(s.drop_last(), sep);
    }
}

/// Text free of the separator, written after `a`, extends the last piece of `a`.
proof fn lemma_split_extends_last(a: Seq<char>, b: Seq<char>, sep: char)
    requires
        !b.contains(sep),
    ensures
        split_on(a + b, sep) == ({
            let p = split_on(a, sep);
            p.update(p.len() - 1, p.last() + b)
        }),
    decreases b.len(),
{
    lemma_split_nonempty(a, sep);
    let p = split_on(a, sep);
    if b.len() == 0 {
        assert(a + b =~= a);
        assert(p.last() + b =~= p.last());
        assert(p.update(p.len() - 1, p.last() + b) =~= p);
    } else {
        let b0 = b.drop_last();
        assert(!b0.contains(sep)) by {
            if b0.contains(sep) {
                let i = choose|i: int| 0 <= i < b0.len() && b0[i] == sep;
                assert(b[i] == sep);
            }
        }
        assert(b.last() != sep) by {
            assert(b[b.len() - 1] == b.last());
        }
        lemma_split_extends_last(a, b0, sep);
        assert((a + b).drop_last() =~= a + b0);
        assert((a + b).last() == b.last());
        let q = split_on(a + b0, sep);
        assert(q == p.update(p.len() - 1, p.last() + b0));
        assert(q.last() == p.last() + b0);
        assert(q.last().push(b.last()) =~= p.last() + b);
        assert(q.update(q.len() - 1, q.last().push(b.last())) =~= p.update(p.len() - 1, p.last() + b));
    }
}

/// Joining pieces free of a character with that character as separator, then
/// splitting on it, gives the pieces back.
pub proof fn lemma_split_joined(parts: Seq<Seq<char>>, sep: char)
    requires
        parts.len() > 0,
        forall|k: int| 0 <= k < parts.len() ==> !(#[trigger] parts[k]).contains(sep),
    ensures
        split_on(joined_with(parts, seq![sep]), sep) == parts,
    decreases parts.len(),
{
    if parts.len() == 1 {
        assert(!parts[0].contains(sep));
        lemma_split_extends_last(Seq::empty(), parts[0], sep);
        assert(Seq::<char>::empty() + parts[0] =~= parts[0]);
        assert(split_on(parts[0], sep) =~= parts);
    } else {
        let init = parts.drop_last();
        assert forall|k: int| 0 <= k < init.len() implies !(#[trigger] init[k]).contains(sep) by {
            assert(init[k] == parts[k]);
        }
        lemma_split_joined(init, sep);
        let j = joined_with(init, seq![sep]);
        let js = j + seq![sep];
        assert(js.drop_last() =~= j);
        assert(js.last() == sep);
        assert(split_on(js, sep) == init.push(Seq::empty()));
        assert(!parts[parts.len() - 1].contains(sep));
        lemma_split_extends_last(js, parts.last(), sep);
        assert(Seq::<char>::empty() + parts.last() =~= parts.last());
        assert(init.push(Seq::empty()).update(init.len() as int, Seq::<char>::empty() + parts.last()) =~= parts);
    }
}

/// Joins texts with a separator (`[String]::join`).
pub fn join_texts(parts: &Vec<String>, sep: &str) -> (joined: String)
    ensures
        joined@ == joined_with(crate::config::texts(parts@), sep@),
{
    let ghost all = crate::config::texts(parts@);
    let mut out = String::new();
    let mut i: usize = 0;
    while i < parts.len()
        invariant
            i <= parts.len(),
            all == crate::config::texts(parts@),
            out@ == joined_with(all.subrange(0, i as int), sep@),
        decreases parts.len() - i,
    {
        let ghost sub = all.subrange(0, i as int + 1);
        assert(sub.drop_last() =~= all.subrange(0, i as int));
        assert(sub.last() == parts@[i as int]@);
        if i > 0 {
            out.append(sep);
        } else {
            assert(all.subrange(0, 0) =~= Seq::<Seq<char>>::empty());
            assert(out@ =~= Seq::<char>::empty());
        }
        out.append(parts[i].as_str());
        i = i + 1;
        assert(out@ =~= joined_with(sub, sep@));
    }
    assert(all.subrange(0, parts.len() as int) =~= all);
    out
}

} // verus!

verus! {

/// `a` comes before `b` in the order of `str` (character by character, a proper
/// prefix first).
pub open spec fn text_less(a: Seq<char>, b: Seq<char>) -> bool
    decreases a.len(),
{
    if a.len() == 0 {
        b.len() > 0
    } else if b.len() == 0 {
        false
    } else if a[0] != b[0] {
        a[0] < b[0]
    } else {
        text_less(a.drop_first(), b.drop_first())
    }
}

/// The order of texts is a strict total order.
pub proof fn text_less_is_strict_total(a: Seq<char>, b: Seq<char>, c: Seq<char>)
    ensures
        !text_less(a, a),
        text_less(a, b) ==> !text_less(b, a),
        a != b ==> text_less(a, b) || text_less(b, a),
        text_less(a, b) && text_less(b, c) ==> text_less(a, c),
    decreases a.len() + b.len() + c.len(),
{
    if a.len() > 0 && b.len() > 0 && c.len() > 0 {
        text_less_is_strict_total(a.drop_first(), b.drop_first(), c.drop_first());
    } else if a.len() > 0 && b.len() > 0 {
        text_less_is_strict_total(a.drop_first(), b.drop_first(), Seq::empty());
    } else if a.len() > 0 {
        text_less_is_strict_total(a.drop_first(), Seq::empty(), Seq::empty());
    }
    if a.len() == 0 && b.len() == 0 {
        assert(a =~= b);
    }
    if a.len() > 0 && b.len() > 0 && a != b && a[0] == b[0] {
        assert(a.drop_first() != b.drop_first()) by {
            if a.drop_first() == b.drop_first() {
                assert forall|i: int| 0 <= i < a.len() implies a[i] == b[i] by {
                    if i > 0 {
                        assert(a[i] == a.drop_first()[i - 1]);
                        assert(b[i] == b.drop_first()[i - 1]);
                    }
                }
                assert(a =~= b);
            }
        }
    }
}

/// Whether `a` comes before `b` in the order of `str`.
pub fn text_lt(a: &str, b: &str) -> (less: bool)
    ensures
        less == text_less(a@, b@),
{
    let x = chars_of(a);
    let y = chars_of(b);
    let mut i: usize = 0;
    assert(a@.subrange(0, a@.len() as int) =~= a@);
    assert(b@.subrange(0, b@.len() as int) =~= b@);
    while i < x.len() && i < y.len() && x[i] == y[i]
        invariant
            x@ == a@,
            y@ == b@,
            i <= x.len(),
            i <= y.len(),
            text_less(a@, b@) == text_less(a@.subrange(i as int, a@.len() as int), b@.subrange(i as int, b@.len() as int)),
        decreases x.len() - i,
    {
        let ghost sa = a@.subrange(i as int, a@.len() as int);
        let ghost sb = b@.subrange(i as int, b@.len() as int);
        assert(sa.drop_first() =~= a@.subrange(i + 1, a@.len() as int));
        assert(sb.drop_first() =~= b@.subrange(i + 1, b@.len() as int));
        i = i + 1;
    }
    if i == x.len() {
        i < y.len()
    } else if i == y.len() {
        false
    } else {
        x[i] < y[i]
    }
}

} // verus!
