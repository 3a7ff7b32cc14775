//! Text helpers: lexicographic order on character sequences (the order in
//! which siblings are listed), decimal rendering of counters for the summary
//! line, and a substring predicate used to describe styled output.

use vstd::prelude::*;

verus! {

/// Lexicographic order on character sequences, by code point.
pub open spec fn lex_le(a: Seq<char>, b: Seq<char>) -> bool
    decreases a.len(),
{
    if a.len() == 0 {
        true
    } else if b.len() == 0 {
        false
    } else if (a[0] as u32) < (b[0] as u32) {
        true
    } else if (a[0] as u32) > (b[0] as u32) {
        false
    } else {
        lex_le(a.skip(1), b.skip(1))
    }
}

pub proof fn lemma_lex_le_total(a: Seq<char>, b: Seq<char>)
    ensures
        lex_le(a, b) || lex_le(b, a),
    decreases a.len(),
{
    if a.len() == 0 || b.len() == 0 {
    } else if (a[0] as u32) == (b[0] as u32) {
        lemma_lex_le_total(a.skip(1), b.skip(1));
    }
}

pub proof fn lemma_lex_le_trans(a: Seq<char>, b: Seq<char>, c: Seq<char>)
    requires
        lex_le(a, b),
        lex_le(b, c),
    ensures
        lex_le(a, c),
    decreases a.len(),
{
    if a.len() == 0 || b.len() == 0 || c.len() == 0 {
    } else if (a[0] as u32) == (b[0] as u32) && (b[0] as u32) == (c[0] as u32) {
        lemma_lex_le_trans(a.skip(1), b.skip(1), c.skip(1));
    }
}


pub proof fn lemma_lex_le_antisym(a: Seq<char>, b: Seq<char>)
    requires
        lex_le(a, b),
        lex_le(b, a),
    ensures
        a == b,
    decreases a.len(),
{
    if a.len() == 0 || b.len() == 0 {
        assert(a =~= b);
    } else if (a[0] as u32) == (b[0] as u32) {
        lemma_lex_le_antisym(a.skip(1), b.skip(1));
        assert(a =~= b) by {
            vstd::utf8::char_u32_cast(a[0], a[0] as u32);
            vstd::utf8::char_u32_cast(b[0], b[0] as u32);
            assert(a[0] == b[0]);
            assert(a.skip(1).len() == b.skip(1).len());
            assert(a.len() == b.len());
            assert forall|i: int| 0 <= i < a.len() implies a[i] == b[i] by {
                if i > 0 {
                    assert(a.skip(1)[i - 1] == a[i]);
                    assert(b.skip(1)[i - 1] == b[i]);
                }
            }
        }
    }
}

/// Compares two strings in the lexicographic order of their characters.
pub fn str_lex_le(a: &str, b: &str) -> (r: bool)
    ensures
        r == lex_le(a@, b@),
{
    let alen = a.unicode_len();
    let blen = b.unicode_len();
    let mut i: usize = 0;
    proof {
        assert(a@.skip(0) =~= a@);
        assert(b@.skip(0) =~= b@);
    }
    loop
        invariant
            i <= alen,
            i <= blen,
            alen == a@.len(),
            blen == b@.len(),
            lex_le(a@, b@) == lex_le(a@.skip(i as int), b@.skip(i as int)),
        decreases alen - i,
    {
        if i == alen {
            return true;
        }
        if i == blen {
            return false;
        }
        let ca = a.get_char(i);
        let cb = b.get_char(i);
        if (ca as u32) < (cb as u32) {
            return true;
        }
        if (ca as u32) > (cb as u32) {
            return false;
        }
        proof {
            assert(a@.skip(i as int).skip(1) =~= a@.skip(i + 1));
            assert(b@.skip(i as int).skip(1) =~= b@.skip(i + 1));
        }
        i = i + 1;
    }
}

/// A name marks a hidden entry when it starts with a dot.
pub open spec fn hidden_name(name: Seq<char>) -> bool {
    name.len() > 0 && name[0] == '.'
}

/// Tests whether an entry name marks a hidden entry.
pub fn is_hidden_name(name: &str) -> (r: bool)
    ensures
        r == hidden_name(name@),
{
    if name.unicode_len() == 0 {
        false
    } else {
        name.get_char(0) == '.'
    }
}

pub open spec fn spec_digit(d: int) -> char {
    if d == 0 {
        '0'
    } else if d == 1 {
        '1'
    } else if d == 2 {
        '2'
    } else if d == 3 {
        '3'
    } else if d == 4 {
        '4'
    } else if d == 5 {
        '5'
    } else if d == 6 {
        '6'
    } else if d == 7 {
        '7'
    } else if d == 8 {
        '8'
    } else {
        '9'
    }
}

/// The usual decimal notation of a non-negative integer, most significant
/// digit first, without leading zeroes (except for zero itself).
pub open spec fn spec_dec(n: int) -> Seq<char>
    decreases n,
{
    if n < 10 {
        seq![spec_digit(n)]
    } else {
        spec_dec(n / 10).push(spec_digit(n % 10))
    }
}

fn digit_str(d: usize) -> (r: String)
    requires
        d < 10,
    ensures
        r@ =~= seq![spec_digit(d as int)],
{
    let s: &str = if d == 0 {
        "0"
    } else if d == 1 {
        "1"
    } else if d == 2 {
        "2"
    } else if d == 3 {
        "3"
    } else if d == 4 {
        "4"
    } else if d == 5 {
        "5"
    } else if d == 6 {
        "6"
    } else if d == 7 {
        "7"
    } else if d == 8 {
        "8"
    } else {
        "9"
    };
    proof {
        reveal_strlit("0");
        reveal_strlit("1");
        reveal_strlit("2");
        reveal_strlit("3");
        reveal_strlit("4");
        reveal_strlit("5");
        reveal_strlit("6");
        reveal_strlit("7");
        reveal_strlit("8");
        reveal_strlit("9");
    }
    s.to_owned()
}

/// Renders a counter in decimal.
pub fn usize_to_string(n: usize) -> (r: String)
    ensures
        r@ == spec_dec(n as int),
    decreases n,
{
    if n < 10 {
        digit_str(n)
    } else {
        let mut s = usize_to_string(n / 10);
        let d = digit_str(n % 10);
        s.append(d.as_str());
        proof {
            assert(s@ =~= spec_dec(n as int));
        }
        s
    }
}


/// The sequence holds no ANSI escape character.
pub open spec fn esc_free(s: Seq<char>) -> bool {
    forall|i: int| 0 <= i < s.len() ==> s[i] != '\u{1b}'
}

/// `needle` occurs contiguously somewhere inside `hay`.
pub open spec fn contains_seq(hay: Seq<char>, needle: Seq<char>) -> bool {
    exists|k: int|
        0 <= k && k + needle.len() <= hay.len() && #[trigger] hay.subrange(k, k + needle.len())
            == needle
}


/// The needles occur inside `hay` contiguously, in the given order and
/// without overlapping.
pub open spec fn occurs_in_order(hay: Seq<char>, needles: Seq<Seq<char>>) -> bool
    decreases needles.len(),
{
    if needles.len() == 0 {
        true
    } else {
        exists|k: int|
            0 <= k && k + needles[0].len() <= hay.len() && #[trigger] hay.subrange(
                k,
                k + needles[0].len(),
            ) == needles[0] && occurs_in_order(hay.skip(k + needles[0].len()), needles.skip(1))
    }
}

/// Appending text that carries one more needle extends an in-order
/// occurrence by that needle.
pub proof fn lemma_occurs_push(h1: Seq<char>, h2: Seq<char>, ns: Seq<Seq<char>>, x: Seq<char>)
    requires
        occurs_in_order(h1, ns),
        contains_seq(h2, x),
    ensures
        occurs_in_order(h1 + h2, ns.push(x)),
    decreases ns.len(),
{
    if ns.len() == 0 {
        let k = choose|k: int|
            0 <= k && k + x.len() <= h2.len() && #[trigger] h2.subrange(k, k + x.len()) == x;
        assert(ns.push(x)[0] == x);
        assert((h1 + h2).subrange(h1.len() + k, h1.len() + k + x.len()) =~= x);
        assert(ns.push(x).skip(1) =~= Seq::<Seq<char>>::empty());
        assert(occurs_in_order((h1 + h2).skip(h1.len() + k + x.len()), ns.push(x).skip(1)));
    } else {
        let n0 = ns[0];
        let k = choose|k: int|
            0 <= k && k + n0.len() <= h1.len() && #[trigger] h1.subrange(k, k + n0.len()) == n0
                && occurs_in_order(h1.skip(k + n0.len()), ns.skip(1));
        lemma_occurs_push(h1.skip(k + n0.len()), h2, ns.skip(1), x);
        assert((h1 + h2).skip(k + n0.len()) =~= h1.skip(k + n0.len()) + h2);
        assert((h1 + h2).subrange(k, k + n0.len()) =~= n0);
        assert(ns.push(x)[0] == ns[0]);
        assert(ns.push(x).skip(1) =~= ns.skip(1).push(x));
        assert(occurs_in_order((h1 + h2).skip(k + n0.len()), ns.push(x).skip(1)));
    }
}

pub proof fn lemma_contains_extend(hay: Seq<char>, more: Seq<char>, needle: Seq<char>)
    requires
        contains_seq(hay, needle),
    ensures
        contains_seq(hay + more, needle),
{
    let k = choose|k: int|
        0 <= k && k + needle.len() <= hay.len() && #[trigger] hay.subrange(k, k + needle.len())
            == needle;
    assert((hay + more).subrange(k, k + needle.len()) =~= needle);
}

pub proof fn lemma_contains_shift(hay: Seq<char>, more: Seq<char>, needle: Seq<char>)
    requires
        contains_seq(more, needle),
    ensures
        contains_seq(hay + more, needle),
{
    let k = choose|k: int|
        0 <= k && k + needle.len() <= more.len() && #[trigger] more.subrange(k, k + needle.len())
            == needle;
    assert((hay + more).subrange(hay.len() + k, hay.len() + k + needle.len()) =~= needle);
}

} // verus!
