//! Text building blocks.

use vstd::prelude::*;

verus! {

/// The hexadecimal digit of `n`, lower case.
pub open spec fn hex_digit(n: u128) -> char {
    if n < 10 {
        (('0' as u128) + n) as char
    } else {
        (('a' as u128) + n - 10) as char
    }
}

/// The number of hyphens before position `i` of a hyphenated UUID.
pub open spec fn hyphens_before(i: int) -> int {
    (if i > 8 { 1int } else { 0 }) + (if i > 13 { 1int } else { 0 }) + (if i > 18 { 1int } else {
        0
    }) + (if i > 23 { 1int } else { 0 })
}

/// The `k`-th hexadecimal digit of `x`, the most significant one first.
pub open spec fn nibble(x: u128, k: int) -> u128 {
    (x >> ((4 * (31 - k)) as u128)) & 0xf
}

/// The hyphenated lower-case form of a UUID.
pub open spec fn uuid_text(x: u128) -> Seq<char> {
    Seq::new(
        36,
        |i: int|
            if i == 8 || i == 13 || i == 18 || i == 23 {
                '-'
            } else {
                hex_digit(nibble(x, i - hyphens_before(i)))
            },
    )
}

/// The hyphenated lower-case form of a UUID, as `uuid::Uuid`'s `Display` writes
/// it: 32 hexadecimal digits, most significant first, in groups of 8, 4, 4, 4
/// and 12.
#[verifier::external_body]
pub(crate) fn uuid_to_string(x: u128) -> (r: String)
    ensures
        r@ == uuid_text(x),
{
    uuid::Uuid::from_u128(x).to_string()
}

/// Different hexadecimal digits look different.
proof fn lemma_hex_digit_injective(a: u128, b: u128)
    requires
        a < 16,
        b < 16,
        hex_digit(a) == hex_digit(b),
    ensures
        a == b,
{
}

/// Two UUIDs with the same text are the same.
pub proof fn lemma_uuid_text_injective(a: u128, b: u128)
    ensures
        uuid_text(a) == uuid_text(b) ==> a == b,
{
    if uuid_text(a) == uuid_text(b) {
        assert forall|k: int| 0 <= k < 32 implies #[trigger] nibble(a, k) == nibble(b, k) by {
            let i = if k < 8 {
                k
            } else if k < 12 {
                k + 1
            } else if k < 16 {
                k + 2
            } else if k < 20 {
                k + 3
            } else {
                k + 4
            };
            assert(i - hyphens_before(i) == k);
            assert(uuid_text(a)[i] == uuid_text(b)[i]);
            let s = (4 * (31 - k)) as u128;
            assert((a >> s) & 0xf < 16 && (b >> s) & 0xf < 16) by (bit_vector);
            lemma_hex_digit_injective(nibble(a, k), nibble(b, k));
        }
        lemma_nibbles_determine(a, b);
    }
}

/// A number is determined by its hexadecimal digits.
proof fn lemma_nibbles_determine(a: u128, b: u128)
    requires
        forall|k: int| 0 <= k < 32 ==> #[trigger] nibble(a, k) == nibble(b, k),
    ensures
        a == b,
{
    if a != b {
        let d = a ^ b;
        assert(a != b ==> a ^ b != 0) by (bit_vector);
        assert forall|k: int| 0 <= k < 32 implies (d >> (#[trigger] digit_shift(k))) & 0xf == 0 by {
            let s = digit_shift(k);
            assert(nibble(a, k) == nibble(b, k));
            assert((a >> s) & 0xf == (b >> s) & 0xf ==> ((a ^ b) >> s) & 0xf == 0) by (bit_vector);
        }
        assert(digit_shift(0) == 124 && digit_shift(1) == 120 && digit_shift(2) == 116
            && digit_shift(3) == 112 && digit_shift(4) == 108 && digit_shift(5) == 104
            && digit_shift(6) == 100 && digit_shift(7) == 96 && digit_shift(8) == 92
            && digit_shift(9) == 88 && digit_shift(10) == 84 && digit_shift(11) == 80
            && digit_shift(12) == 76 && digit_shift(13) == 72 && digit_shift(14) == 68
            && digit_shift(15) == 64 && digit_shift(16) == 60 && digit_shift(17) == 56
            && digit_shift(18) == 52 && digit_shift(19) == 48 && digit_shift(20) == 44
            && digit_shift(21) == 40 && digit_shift(22) == 36 && digit_shift(23) == 32
            && digit_shift(24) == 28 && digit_shift(25) == 24 && digit_shift(26) == 20
            && digit_shift(27) == 16 && digit_shift(28) == 12 && digit_shift(29) == 8
            && digit_shift(30) == 4 && digit_shift(31) == 0);
        assert(d == 0) by (bit_vector)
            requires
                (d >> 124) & 0xf == 0 && (d >> 120) & 0xf == 0 && (d >> 116) & 0xf == 0 && (d
                    >> 112) & 0xf == 0 && (d >> 108) & 0xf == 0 && (d >> 104) & 0xf == 0 && (d
                    >> 100) & 0xf == 0 && (d >> 96) & 0xf == 0,
                (d >> 92) & 0xf == 0 && (d >> 88) & 0xf == 0 && (d >> 84) & 0xf == 0 && (d >> 80)
                    & 0xf == 0 && (d >> 76) & 0xf == 0 && (d >> 72) & 0xf == 0 && (d >> 68) & 0xf
                    == 0 && (d >> 64) & 0xf == 0,
                (d >> 60) & 0xf == 0 && (d >> 56) & 0xf == 0 && (d >> 52) & 0xf == 0 && (d >> 48)
                    & 0xf == 0 && (d >> 44) & 0xf == 0 && (d >> 40) & 0xf == 0 && (d >> 36) & 0xf
                    == 0 && (d >> 32) & 0xf == 0,
                (d >> 28) & 0xf == 0 && (d >> 24) & 0xf == 0 && (d >> 20) & 0xf == 0 && (d >> 16)
                    & 0xf == 0 && (d >> 12) & 0xf == 0 && (d >> 8) & 0xf == 0 && (d >> 4) & 0xf
                    == 0 && (d >> 0) & 0xf == 0,
        ;
    }
}

/// How far the `k`-th hexadecimal digit lies from the low end.
spec fn digit_shift(k: int) -> u128 {
    (4 * (31 - k)) as u128
}

/// The longest prefix of `s` of at most `n` characters.
pub open spec fn truncated(s: Seq<char>, n: int) -> Seq<char> {
    if s.len() <= n {
        s
    } else {
        s.take(n)
    }
}

/// Cuts `s` after its first `n` characters.
pub fn truncate(s: &str, n: usize) -> (r: String)
    ensures
        r@ == truncated(s@, n as int),
{
    if s.unicode_len() <= n {
        s.to_string()
    } else {
        let cut: &str = s.substring_char(0, n);
        assert(cut@ =~= s@.take(n as int));
        cut.to_string()
    }
}

/// Whether `s` begins with `p`.
pub open spec fn begins_with(s: Seq<char>, p: Seq<char>) -> bool {
    s.len() >= p.len() && s.take(p.len() as int) == p
}

/// Whether `s` ends with `p`.
pub open spec fn ends_in(s: Seq<char>, p: Seq<char>) -> bool {
    s.len() >= p.len() && s.skip(s.len() - p.len()) == p
}

/// Whether two texts are the same.
pub fn same_text(a: &str, b: &str) -> (r: bool)
    ensures
        r == (a@ == b@),
{
    a.to_string() == b.to_string()
}

/// Whether `s` begins with `p`.
pub fn has_prefix(s: &str, p: &str) -> (r: bool)
    ensures
        r == begins_with(s@, p@),
{
    let n: usize = p.unicode_len();
    if s.unicode_len() < n {
        return false;
    }
    let head: &str = s.substring_char(0, n);
    assert(head@ =~= s@.take(n as int));
    same_text(head, p)
}

/// Whether `s` ends with `p`.
pub fn has_suffix(s: &str, p: &str) -> (r: bool)
    ensures
        r == ends_in(s@, p@),
{
    let n: usize = p.unicode_len();
    let m: usize = s.unicode_len();
    if m < n {
        return false;
    }
    let tail: &str = s.substring_char(m - n, m);
    assert(tail@ =~= s@.skip(m - n));
    same_text(tail, p)
}

/// The characters of a text.
pub fn to_chars(s: &str) -> (r: Vec<char>)
    ensures
        r@ == s@,
{
    let mut r: Vec<char> = Vec::new();
    for c in it: s.chars()
        invariant
            it.seq() == s@,
            r@ == s@.take(it.index() as int),
    {
        proof {
            assert(s@.take(it.index() + 1) =~= s@.take(it.index() as int).push(c));
        }
        r.push(c);
    }
    assert(s@.take(s@.len() as int) =~= s@);
    r
}

/// `a` comes before `b` in character order.
#[verifier::opaque]
pub open spec fn text_before(a: Seq<char>, b: Seq<char>) -> bool
    decreases a.len(),
{
    if b.len() == 0 {
        false
    } else if a.len() == 0 {
        true
    } else if a[0] == b[0] {
        text_before(a.skip(1), b.skip(1))
    } else {
        (a[0] as u32) < (b[0] as u32)
    }
}

/// How two texts are ordered.
#[derive(Clone, Copy, Debug, PartialEq, Eq, Structural)]
pub enum TextOrder {
    /// The first comes before the second.
    Before,
    /// They are the same.
    Same,
    /// The first comes after the second.
    After,
}

/// Orders two texts by their characters.
pub fn text_order(a: &str, b: &str) -> (r: TextOrder)
    ensures
        r == TextOrder::Before <==> text_before(a@, b@),
        r == TextOrder::Same <==> a@ == b@,
        r == TextOrder::After <==> text_before(b@, a@),
{
    let x: Vec<char> = to_chars(a);
    let y: Vec<char> = to_chars(b);
    let mut i: usize = 0;
    proof {
        reveal(text_before);
        assert(x@.skip(0) =~= x@);
        assert(y@.skip(0) =~= y@);
    }
    while i < x.len() && i < y.len() && x[i] == y[i]
        invariant
            i <= x.len(),
            i <= y.len(),
            x@ == a@,
            y@ == b@,
            x@.take(i as int) == y@.take(i as int),
            text_before(x@, y@) == text_before(x@.skip(i as int), y@.skip(i as int)),
            text_before(y@, x@) == text_before(y@.skip(i as int), x@.skip(i as int)),
        decreases x.len() - i,
    {
        proof {
            reveal(text_before);
            assert(x@.skip(i as int).skip(1) =~= x@.skip(i + 1));
            assert(y@.skip(i as int).skip(1) =~= y@.skip(i + 1));
            assert(x@.take(i + 1) =~= x@.take(i as int).push(x@[i as int]));
            assert(y@.take(i + 1) =~= y@.take(i as int).push(y@[i as int]));
        }
        i += 1;
    }
    proof {
        if i < x.len() && i < y.len() {
            assert(x@.skip(i as int)[0] == x@[i as int]);
            assert(y@.skip(i as int)[0] == y@[i as int]);
        }
        if i == x.len() && i == y.len() {
            assert(x@.take(i as int) =~= x@);
            assert(y@.take(i as int) =~= y@);
        }
        if a@ == b@ {
            lemma_not_before_itself(a@);
        }
    }
    if i == x.len() && i == y.len() {
        TextOrder::Same
    } else if i == x.len() {
        TextOrder::Before
    } else if i == y.len() {
        TextOrder::After
    } else {
        let p: char = x[i];
        let q: char = y[i];
        proof {
            lemma_code_points(p, q);
        }
        if (p as u32) < (q as u32) {
            TextOrder::Before
        } else {
            TextOrder::After
        }
    }
}

/// Different characters have different code points.
proof fn lemma_code_points(p: char, q: char)
    ensures
        p as u32 == q as u32 ==> p == q,
{
    vstd::utf8::char_u32_cast(p, p as u32);
    vstd::utf8::char_u32_cast(q, q as u32);
}

/// No text comes before itself.
pub proof fn lemma_not_before_itself(a: Seq<char>)
    ensures
        !text_before(a, a),
    decreases a.len(),
{
    reveal(text_before);
    if a.len() > 0 {
        lemma_not_before_itself(a.skip(1));
    }
}

/// Character order is transitive.
pub proof fn lemma_before_transitive(a: Seq<char>, b: Seq<char>, c: Seq<char>)
    requires
        text_before(a, b),
        text_before(b, c),
    ensures
        text_before(a, c),
    decreases a.len(),
{
    reveal(text_before);
    if a.len() > 0 && a[0] == b[0] && b[0] == c[0] {
        lemma_before_transitive(a.skip(1), b.skip(1), c.skip(1));
    }
}

/// Of two texts, one comes before the other, or they are the same.
pub proof fn lemma_before_total(a: Seq<char>, b: Seq<char>)
    ensures
        a == b || text_before(a, b) || text_before(b, a),
    decreases a.len(),
{
    reveal(text_before);
    if a.len() == 0 && b.len() == 0 {
        assert(a =~= b);
    } else if a.len() > 0 && b.len() > 0 {
        if a[0] == b[0] {
            lemma_before_total(a.skip(1), b.skip(1));
            if a.skip(1) == b.skip(1) {
                assert forall|i: int| 0 <= i < a.len() implies a[i] == b[i] by {
                    if i > 0 {
                        assert(a.skip(1)[i - 1] == b.skip(1)[i - 1]);
                    }
                }
                assert(a.len() == a.skip(1).len() + 1);
                assert(a =~= b);
            }
        } else {
            lemma_code_points(a[0], b[0]);
        }
    }
}

/// The lower-case form of a text, by the Unicode rules that
/// `str::to_lowercase` follows.
pub uninterp spec fn lower_case(s: Seq<char>) -> Seq<char>;

/// The lower-case form of a text, from `str::to_lowercase`: a function of the
/// text alone. The Unicode tables are not stated here.
#[verifier::external_body]
pub(crate) fn lowercase(s: &str) -> (r: String)
    ensures
        r@ == lower_case(s@),
{
    s.to_lowercase()
}

/// The characters with the Unicode property `White_Space`.
pub open spec fn white(c: char) -> bool {
    let u = c as u32;
    ||| 0x9 <= u <= 0xd
    ||| u == 0x20
    ||| u == 0x85
    ||| u == 0xa0
    ||| u == 0x1680
    ||| 0x2000 <= u <= 0x200a
    ||| u == 0x2028
    ||| u == 0x2029
    ||| u == 0x202f
    ||| u == 0x205f
    ||| u == 0x3000
}

/// Whether a character is white space.
pub fn is_white(c: char) -> (r: bool)
    ensures
        r == white(c),
{
    let u: u32 = c as u32;
    (0x9 <= u && u <= 0xd) || u == 0x20 || u == 0x85 || u == 0xa0 || u == 0x1680 || (0x2000 <= u
        && u <= 0x200a) || u == 0x2028 || u == 0x2029 || u == 0x202f || u == 0x205f || u == 0x3000
}

/// The text without the white space at its start.
pub open spec fn left_trimmed(s: Seq<char>) -> Seq<char>
    decreases s.len(),
{
    if s.len() > 0 && white(s[0]) {
        left_trimmed(s.skip(1))
    } else {
        s
    }
}

/// The text without the white space at its end.
pub open spec fn right_trimmed(s: Seq<char>) -> Seq<char>
    decreases s.len(),
{
    if s.len() > 0 && white(s.last()) {
        right_trimmed(s.drop_last())
    } else {
        s
    }
}

/// The text without the white space at its start and end.
pub open spec fn trimmed(s: Seq<char>) -> Seq<char> {
    right_trimmed(left_trimmed(s))
}

/// Cuts the white space at the start and end of a text.
pub fn trim(s: &str) -> (r: &str)
    ensures
        r@ == trimmed(s@),
{
    let c: Vec<char> = to_chars(s);
    let mut from: usize = 0;
    assert(s@.skip(0) =~= s@);
    while from < c.len() && is_white(c[from])
        invariant
            from <= c.len(),
            c@ == s@,
            left_trimmed(s@) == left_trimmed(s@.skip(from as int)),
        decreases c.len() - from,
    {
        assert(s@.skip(from as int).skip(1) =~= s@.skip(from + 1));
        from += 1;
    }
    let ghost left = s@.skip(from as int);
    assert(left_trimmed(s@) == left);
    let mut to: usize = c.len();
    assert(s@.subrange(from as int, to as int) =~= left);
    while from < to && is_white(c[to - 1])
        invariant
            from <= to <= c.len(),
            c@ == s@,
            right_trimmed(left) == right_trimmed(s@.subrange(from as int, to as int)),
        decreases to - from,
    {
        assert(s@.subrange(from as int, to as int).drop_last() =~= s@.subrange(
            from as int,
            to - 1,
        ));
        to -= 1;
    }
    s.substring_char(from, to)
}

/// The character with an ASCII capital made small.
pub open spec fn ascii_lower(c: char) -> char {
    if 'A' as u32 <= c as u32 <= 'Z' as u32 {
        (c as u32 + 32) as char
    } else {
        c
    }
}

/// The text with its ASCII capitals made small.
pub open spec fn ascii_lowered(s: Seq<char>) -> Seq<char> {
    s.map_values(|c: char| ascii_lower(c))
}

/// The text with its ASCII capitals made small: the letters `A` to `Z` become `a` to
/// `z`, and every other character stays.
pub fn ascii_lowercase(s: &str) -> (r: String)
    ensures
        r@ == ascii_lowered(s@),
{
    let c: Vec<char> = to_chars(s);
    let mut r: String = String::new();
    let mut i: usize = 0;
    while i < c.len()
        invariant
            i <= c.len(),
            c@ == s@,
            r@ == ascii_lowered(s@.take(i as int)),
        decreases c.len() - i,
    {
        let ghost before = r@;
        let code: u32 = c[i] as u32;
        let one: &str = if 65 <= code && code <= 90 {
            let k: usize = (code - 65) as usize;
            proof {
                lemma_alphabet();
                assert("abcdefghijklmnopqrstuvwxyz"@[k as int] == ('a' as u32 + k) as char);
            }
            "abcdefghijklmnopqrstuvwxyz".substring_char(k, k + 1)
        } else {
            s.substring_char(i, i + 1)
        };
        assert(one@ =~= seq![ascii_lower(s@[i as int])]);
        r.append(one);
        proof {
            assert(s@.take(i + 1) =~= s@.take(i as int).push(s@[i as int]));
            assert(r@ =~= before.push(ascii_lower(s@[i as int])));
            assert(ascii_lowered(s@.take(i + 1)) =~= ascii_lowered(s@.take(i as int)).push(
                ascii_lower(s@[i as int]),
            ));
        }
        i += 1;
    }
    assert(s@.take(i as int) =~= s@);
    r
}

/// The small letters, in order.
proof fn lemma_alphabet()
    ensures
        "abcdefghijklmnopqrstuvwxyz"@.len() == 26,
        forall|k: int|
            0 <= k < 26 ==> #[trigger] "abcdefghijklmnopqrstuvwxyz"@[k] == ('a' as u32 + k) as char,
{
    reveal_strlit("abcdefghijklmnopqrstuvwxyz");
}

/// The position of the first `c` in a text.
pub open spec fn first_of(s: Seq<char>, c: char, i: int) -> bool {
    0 <= i < s.len() && s[i] == c && forall|k: int| 0 <= k < i ==> s[k] != c
}

/// The parts of a text before and after the first `c`.
pub fn split_at_first(s: &str, c: char) -> (r: Option<(&str, &str)>)
    ensures
        match r {
            Some(p) => exists|i: int| #[trigger]
                first_of(s@, c, i) && p.0@ == s@.take(i) && p.1@ == s@.skip(i + 1),
            None => !s@.contains(c),
        },
{
    let v: Vec<char> = to_chars(s);
    let mut i: usize = 0;
    while i < v.len()
        invariant
            i <= v.len(),
            v@ == s@,
            forall|k: int| 0 <= k < i ==> s@[k] != c,
        decreases v.len() - i,
    {
        if v[i] == c {
            let head: &str = s.substring_char(0, i);
            let tail: &str = s.substring_char(i + 1, v.len());
            proof {
                assert(first_of(s@, c, i as int));
                assert(head@ =~= s@.take(i as int));
                assert(tail@ =~= s@.skip(i + 1));
            }
            return Some((head, tail));
        }
        i += 1;
    }
    None
}

/// The text with `\\`, `%` and `_` escaped by a backslash, so that a `LIKE`
/// pattern matches it literally.
pub open spec fn like_escaped(s: Seq<char>) -> Seq<char>
    decreases s.len(),
{
    if s.len() == 0 {
        Seq::empty()
    } else {
        let c = s.last();
        let head = like_escaped(s.drop_last());
        if c == '\\' || c == '%' || c == '_' {
            head.push('\\').push(c)
        } else {
            head.push(c)
        }
    }
}

/// Escapes the characters that are special in a `LIKE` pattern.
pub fn escape_like_pattern(s: &str) -> (r: String)
    ensures
        r@ == like_escaped(s@),
{
    let v: Vec<char> = to_chars(s);
    let mut r: String = String::new();
    let mut i: usize = 0;
    assert(r@ =~= like_escaped(s@.take(0)));
    while i < v.len()
        invariant
            i <= v.len(),
            v@ == s@,
            r@ == like_escaped(s@.take(i as int)),
        decreases v.len() - i,
    {
        let one: &str = s.substring_char(i, i + 1);
        proof {
            reveal_strlit("\\");
            assert(s@.take(i + 1).drop_last() =~= s@.take(i as int));
            assert(s@.take(i + 1).last() == v@[i as int]);
            assert(one@ =~= seq![v@[i as int]]);
            assert("\\"@ =~= seq!['\\']);
            assert(r@ + one@ =~= r@.push(v@[i as int]));
            assert(r@ + "\\"@ + one@ =~= r@.push('\\').push(v@[i as int]));
        }
        if v[i] == '\\' || v[i] == '%' || v[i] == '_' {
            r.append("\\");
        }
        r.append(one);
        i += 1;
    }
    assert(s@.take(i as int) =~= s@);
    r
}

/// Escaping loses nothing: different texts have different escaped forms.
pub proof fn escaping_is_injective(a: Seq<char>, b: Seq<char>)
    requires
        like_escaped(a) == like_escaped(b),
    ensures
        a == b,
    decreases a.len() + b.len(),
{
    let ea = like_escaped(a);
    let eb = like_escaped(b);
    if a.len() == 0 {
        if b.len() > 0 {
            assert(eb.len() > 0);
        }
        assert(a =~= b);
    } else if b.len() == 0 {
        assert(ea.len() > 0);
    } else {
        let x = a.last();
        let y = b.last();
        assert(ea.last() == x);
        assert(eb.last() == y);
        let ia = like_escaped(a.drop_last());
        let ib = like_escaped(b.drop_last());
        let special = x == '\\' || x == '%' || x == '_';
        if special {
            assert(ea.drop_last().drop_last() =~= ia);
            assert(eb.drop_last().drop_last() =~= ib);
        } else {
            assert(ea.drop_last() =~= ia);
            assert(eb.drop_last() =~= ib);
        }
        escaping_is_injective(a.drop_last(), b.drop_last());
        assert(a =~= a.drop_last().push(x));
        assert(b =~= b.drop_last().push(y));
    }
}

// ---------------------------------------------------------------------------
// Numbers
// ---------------------------------------------------------------------------

/// The decimal digit of `n`.
pub open spec fn digit(n: int) -> char {
    "0123456789"@[n]
}

/// A number in decimal digits.
pub open spec fn decimal(n: nat) -> Seq<char>
    decreases n,
{
    if n < 10 {
        seq![digit(n as int)]
    } else {
        decimal(n / 10).push(digit((n % 10) as int))
    }
}

/// Writes a number in decimal digits.
pub fn to_decimal(n: usize) -> (r: String)
    ensures
        r@ == decimal(n as nat),
    decreases n,
{
    proof {
        reveal_strlit("0123456789");
    }
    let d: usize = n % 10;
    let one: &str = "0123456789".substring_char(d, d + 1);
    let mut s: String = if n < 10 {
        String::new()
    } else {
        to_decimal(n / 10)
    };
    s.append(one);
    assert(one@ =~= seq![digit(d as int)]);
    assert(s@ =~= decimal(n as nat));
    s
}

/// The value of a digit.
spec fn digit_value(c: char) -> int {
    c as int - '0' as int
}

/// The number that digits write.
spec fn written(s: Seq<char>) -> int
    decreases s.len(),
{
    if s.len() == 0 {
        0
    } else {
        10 * written(s.drop_last()) + digit_value(s.last())
    }
}

proof fn lemma_written(n: nat)
    ensures
        written(decimal(n)) == n,
        decimal(n).len() > 0,
        !decimal(n).contains(':'),
    decreases n,
{
    reveal_strlit("0123456789");
    if n < 10 {
        reveal_with_fuel(written, 2);
        assert(decimal(n).drop_last() =~= Seq::empty());
    } else {
        lemma_written(n / 10);
        let d = digit((n % 10) as int);
        assert(decimal(n).drop_last() =~= decimal(n / 10));
        assert forall|i: int| 0 <= i < decimal(n).len() implies decimal(n)[i] != ':' by {
            if i < decimal(n).len() - 1 {
                assert(decimal(n / 10)[i] == decimal(n)[i]);
            }
        }
    }
}

/// Different numbers are written differently, in digits alone.
pub proof fn lemma_decimal(a: nat, b: nat)
    ensures
        decimal(a) == decimal(b) ==> a == b,
        !decimal(a).contains(':'),
{
    lemma_written(a);
    lemma_written(b);
}

} // verus!
