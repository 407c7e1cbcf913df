//! What the operations on texts do.

use crate::auth::{authorized, bearer_token};
use crate::text::{
    ascii_lower, ascii_lowered, begins_with, decimal, ends_in, first_of, left_trimmed, like_escaped,
    right_trimmed, text_before, trimmed, truncated, white,
};
use vstd::prelude::*;

verus! {

/// White space and nothing else.
pub open spec fn is_blank(s: Seq<char>) -> bool {
    forall|i: int| 0 <= i < s.len() ==> white(#[trigger] s[i])
}

/// Escaping goes character by character: a backslash is put before `%`, `_` and a
/// backslash, and before nothing else.
pub proof fn escaping_goes_by_character(a: Seq<char>, b: Seq<char>, c: char)
    ensures
        like_escaped(a + b) == like_escaped(a) + like_escaped(b),
        like_escaped(seq![c]) == if c == '%' || c == '_' || c == '\\' {
            seq!['\\', c]
        } else {
            seq![c]
        },
    decreases b.len(),
{
    assert(seq![c].drop_last() =~= Seq::<char>::empty());
    assert(like_escaped(seq![c].drop_last()) =~= Seq::<char>::empty());
    if b.len() == 0 {
        assert(a + b =~= a);
    } else {
        escaping_goes_by_character(a, b.drop_last(), c);
        assert((a + b).drop_last() =~= a + b.drop_last());
        assert((a + b).last() == b.last());
        assert(like_escaped(a + b) =~= like_escaped(a) + like_escaped(b));
    }
}

proof fn lemma_left_trimmed(s: Seq<char>)
    ensures
        ({
            let t = left_trimmed(s);
            let n = s.len() - t.len();
            &&& 0 <= n <= s.len()
            &&& t == s.skip(n)
            &&& forall|i: int| 0 <= i < n ==> white(#[trigger] s[i])
            &&& t.len() > 0 ==> !white(t[0])
        }),
    decreases s.len(),
{
    if s.len() > 0 && white(s[0]) {
        lemma_left_trimmed(s.skip(1));
        let t = left_trimmed(s);
        let n = s.len() - t.len();
        assert(s.skip(1).skip(n - 1) =~= s.skip(n));
        assert forall|i: int| 0 <= i < n implies white(#[trigger] s[i]) by {
            if i > 0 {
                assert(s.skip(1)[i - 1] == s[i]);
            }
        }
    } else {
        assert(s.skip(0) =~= s);
    }
}

proof fn lemma_right_trimmed(s: Seq<char>)
    ensures
        ({
            let t = right_trimmed(s);
            &&& t.len() <= s.len()
            &&& t == s.take(t.len() as int)
            &&& forall|i: int| t.len() <= i < s.len() ==> white(#[trigger] s[i])
            &&& t.len() > 0 ==> !white(t.last())
        }),
    decreases s.len(),
{
    if s.len() > 0 && white(s.last()) {
        lemma_right_trimmed(s.drop_last());
        let t = right_trimmed(s);
        assert(s.drop_last().take(t.len() as int) =~= s.take(t.len() as int));
        assert forall|i: int| t.len() <= i < s.len() implies white(#[trigger] s[i]) by {
            if i < s.len() - 1 {
                assert(s.drop_last()[i] == s[i]);
            }
        }
    } else {
        assert(s.take(s.len() as int) =~= s);
    }
}

/// Trimming cuts white space off both ends, all of it and nothing else. Nothing is left
/// if and only if there was nothing but white space.
pub proof fn trimming_cuts_the_ends(s: Seq<char>)
    ensures
        ({
            let t = trimmed(s);
            &&& exists|i: int, j: int|
                0 <= i <= j <= s.len() && t == #[trigger] s.subrange(i, j) && is_blank(s.take(i))
                    && is_blank(s.skip(j))
            &&& t.len() > 0 ==> !white(t[0]) && !white(t.last())
            &&& t.len() == 0 <==> is_blank(s)
        }),
{
    let l = left_trimmed(s);
    let t = trimmed(s);
    lemma_left_trimmed(s);
    lemma_right_trimmed(l);
    let i = s.len() - l.len();
    let j = i + t.len();
    assert(t =~= s.subrange(i, j));
    assert forall|k: int| j <= k < s.len() implies white(#[trigger] s[k]) by {
        assert(l[k - i] == s[k]);
    }
    assert forall|k: int| 0 <= k < s.take(i).len() implies white(#[trigger] s.take(i)[k]) by {
        assert(s.take(i)[k] == s[k]);
    }
    assert forall|k: int| 0 <= k < s.skip(j).len() implies white(#[trigger] s.skip(j)[k]) by {
        assert(s.skip(j)[k] == s[j + k]);
    }
    if t.len() > 0 {
        assert(t[0] == l[0]);
        assert(s[i] == t[0]);
        assert(!is_blank(s));
    } else {
        assert forall|k: int| 0 <= k < s.len() implies white(#[trigger] s[k]) by {}
    }
}

/// Among the ASCII characters, white space are the blank and the characters from tab to
/// carriage return.
pub proof fn ascii_white_space(c: char)
    requires
        (c as u32) < 128,
    ensures
        white(c) <==> c == ' ' || 9 <= c as u32 <= 13,
{
    assert(' ' as u32 == 32);
}

/// Lower case in ASCII leaves no capital, and changes nothing but capitals.
pub proof fn no_capitals_are_left(s: Seq<char>, i: int)
    requires
        0 <= i < s.len(),
    ensures
        ascii_lowered(s).len() == s.len(),
        ascii_lowered(s)[i] == if 65 <= s[i] as u32 <= 90 {
            (s[i] as u32 + 32) as char
        } else {
            s[i]
        },
        ascii_lowered(ascii_lowered(s))[i] == ascii_lowered(s)[i],
{
    assert('A' as u32 == 65 && 'Z' as u32 == 90);
}

/// Numbers are written in decimal: the digits of a tenth of it, then the last one, which
/// is the character for that number.
pub proof fn numbers_are_decimal(n: nat)
    ensures
        n < 10 ==> decimal(n).len() == 1 && decimal(n)[0] as int == '0' as int + n,
        n >= 10 ==> decimal(n) == decimal(n / 10) + decimal(n % 10),
        decimal(n).len() > 0,
{
    reveal_strlit("0123456789");
    if n >= 10 {
        assert(decimal(n) =~= decimal(n / 10) + decimal(n % 10));
    }
}

/// The order of texts looks at the first character in which they differ, by its number; a
/// text comes before those that go on from it.
pub proof fn texts_are_ordered_by_character(p: Seq<char>, a: Seq<char>, b: Seq<char>)
    ensures
        text_before(p + a, p + b) == text_before(a, b),
        a.len() == 0 ==> text_before(a, b) == (b.len() > 0),
        b.len() == 0 ==> !text_before(a, b),
        a.len() > 0 && b.len() > 0 && a[0] as u32 != b[0] as u32 ==> text_before(a, b) == ((
        a[0] as u32) < (b[0] as u32)),
    decreases p.len(),
{
    reveal(text_before);
    if p.len() == 0 {
        assert(p + a =~= a);
        assert(p + b =~= b);
    } else {
        texts_are_ordered_by_character(p.skip(1), a, b);
        assert((p + a).skip(1) =~= p.skip(1) + a);
        assert((p + b).skip(1) =~= p.skip(1) + b);
    }
}

/// A text begins with what it was put behind and ends in what it was put before, and has
/// no other beginning or end of that length. Cut, it is its own beginning.
pub proof fn beginnings_and_ends(a: Seq<char>, b: Seq<char>, p: Seq<char>, n: int)
    requires
        n >= 0,
    ensures
        begins_with(a + b, a),
        ends_in(a + b, b),
        begins_with(a + b, p) && p.len() == a.len() ==> p == a,
        ends_in(a + b, p) && p.len() == b.len() ==> p == b,
        p.len() > a.len() ==> !begins_with(a, p) && !ends_in(a, p),
        begins_with(a, truncated(a, n)),
        truncated(a, n).len() == if a.len() < n {
            a.len() as int
        } else {
            n
        },
{
    assert((a + b).take(a.len() as int) =~= a);
    assert((a + b).skip(a.len() as int) =~= b);
    assert(a.take(a.len() as int) =~= a);
}

/// Where no token is set every request is let through; else, besides those for the two
/// probes, only one whose header names the bearer scheme, in any case, and that token.
pub proof fn requests_need_the_token(
    token: Seq<char>,
    other: Seq<char>,
    path: Seq<char>,
    header: Option<Seq<char>>,
)
    ensures
        authorized(None, path, header),
        path == "/health"@ || path == "/ready"@ ==> authorized(Some(token), path, header),
        path != "/health"@ && path != "/ready"@ && header is None ==> !authorized(
            Some(token),
            path,
            header,
        ),
        path != "/health"@ && path != "/ready"@ && authorized(Some(token), path, header)
            && authorized(Some(other), path, header) ==> token == other,
        path != "/health"@ && path != "/ready"@ && authorized(Some(token), path, header) ==> {
            let h = header->0;
            &&& h.len() > 6 && h[6] == ' '
            &&& ascii_lowered(h.take(6)) == "bearer"@
            &&& token == trimmed(h.skip(7))
        },
        header matches Some(h) && h.len() > 6 && h[6] == ' ' && ascii_lowered(h.take(6))
            == "bearer"@ ==> authorized(Some(trimmed(header->0.skip(7))), path, header),
{
    reveal_strlit("bearer");
    assert("bearer"@.len() == 6);
    if header is Some {
        let h = header->0;
        assert forall|i: int| #[trigger]
            first_of(h, ' ', i) && ascii_lowered(h.take(i)) == "bearer"@ implies i == 6 by {
            assert(ascii_lowered(h.take(i)).len() == i);
        }
        if h.len() > 6 && h[6] == ' ' && ascii_lowered(h.take(6)) == "bearer"@ {
            assert forall|k: int| 0 <= k < 6 implies h[k] != ' ' by {
                let w = ascii_lowered(h.take(6));
                assert(w[k] == ascii_lower(h[k]));
                assert(w[k] == "bearer"@[k]);
                assert("bearer"@[0] == 'b' && "bearer"@[1] == 'e' && "bearer"@[2] == 'a'
                    && "bearer"@[3] == 'r' && "bearer"@[4] == 'e' && "bearer"@[5] == 'r');
                assert(ascii_lower(' ') == ' ');
            }
            assert(first_of(h, ' ', 6));
            assert(bearer_token(h, trimmed(h.skip(7))));
        }
    }
}

} // verus!
