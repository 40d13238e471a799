//! Text as a sequence of characters.

use vstd::prelude::*;
use vstd::utf8::*;

verus! {

/// `String::push` appends one character at the end of the string.
pub assume_specification[ String::push ](s: &mut String, c: char)
    ensures
        final(s)@ == old(s)@.push(c),
;

/// The characters of `s`, in order.
pub fn chars_of(s: &str) -> (chars: Vec<char>)
    ensures
        chars@ == s@,
{
    let mut chars: Vec<char> = Vec::new();
    for c in it: s.chars()
        invariant
            chars@ == it.seq().take(it.index()),
            it.seq() == s@,
    {
        chars.push(c);
        assert(chars@ == it.seq().take(it.index() + 1));
    }
    chars
}

/// The string made of `chars[from..to]`.
pub fn text_of(chars: &[char], from: usize, to: usize) -> (text: String)
    requires
        from <= to <= chars@.len(),
    ensures
        text@ == chars@.subrange(from as int, to as int),
{
    let mut text = String::new();
    let mut i: usize = from;
    while i < to
        invariant
            from <= i <= to <= chars@.len(),
            text@ == chars@.subrange(from as int, i as int),
        decreases to - i,
    {
        text.push(chars[i]);
        assert(chars@.subrange(from as int, i as int + 1) == chars@.subrange(
            from as int,
            i as int,
        ).push(chars@[i as int]));
        i = i + 1;
    }
    text
}

/// Lexicographic order on bytes.
pub open spec fn bytes_lt(a: Seq<u8>, b: Seq<u8>) -> bool
    decreases a.len(),
{
    if b.len() == 0 {
        false
    } else if a.len() == 0 {
        true
    } else if a[0] != b[0] {
        a[0] < b[0]
    } else {
        bytes_lt(a.drop_first(), b.drop_first())
    }
}

/// The order of texts: lexicographic on their UTF-8 bytes.
pub open spec fn text_lt(a: Seq<char>, b: Seq<char>) -> bool {
    bytes_lt(encode_utf8(a), encode_utf8(b))
}

proof fn lemma_bytes_lt_irreflexive(a: Seq<u8>)
    ensures
        !bytes_lt(a, a),
    decreases a.len(),
{
    if a.len() > 0 {
        lemma_bytes_lt_irreflexive(a.drop_first());
    }
}

proof fn lemma_bytes_lt_transitive(a: Seq<u8>, b: Seq<u8>, c: Seq<u8>)
    requires
        bytes_lt(a, b),
        bytes_lt(b, c),
    ensures
        bytes_lt(a, c),
    decreases a.len(),
{
    if a.len() > 0 && a[0] == b[0] && b[0] == c[0] {
        lemma_bytes_lt_transitive(a.drop_first(), b.drop_first(), c.drop_first());
    }
}

proof fn lemma_bytes_lt_total(a: Seq<u8>, b: Seq<u8>)
    ensures
        bytes_lt(a, b) || a == b || bytes_lt(b, a),
    decreases a.len(),
{
    if a.len() > 0 && b.len() > 0 && a[0] == b[0] {
        lemma_bytes_lt_total(a.drop_first(), b.drop_first());
        if a.drop_first() == b.drop_first() {
            assert(a == seq![a[0]] + a.drop_first());
            assert(b == seq![b[0]] + b.drop_first());
        }
    } else if a.len() == 0 && b.len() == 0 {
        assert(a == b);
    }
}

/// Two texts with the same bytes are the same text.
pub proof fn lemma_text_is_its_bytes(a: Seq<char>, b: Seq<char>)
    ensures
        encode_utf8(a) == encode_utf8(b) <==> a == b,
{
    encode_utf8_decode_utf8(a);
    encode_utf8_decode_utf8(b);
}

/// No text comes before itself.
pub proof fn lemma_text_lt_irreflexive(a: Seq<char>)
    ensures
        !text_lt(a, a),
{
    lemma_bytes_lt_irreflexive(encode_utf8(a));
}

/// The order of texts is transitive.
pub proof fn lemma_text_lt_transitive(a: Seq<char>, b: Seq<char>, c: Seq<char>)
    requires
        text_lt(a, b),
        text_lt(b, c),
    ensures
        text_lt(a, c),
{
    lemma_bytes_lt_transitive(encode_utf8(a), encode_utf8(b), encode_utf8(c));
}

/// Exactly one of two different texts comes before the other.
pub proof fn lemma_text_lt_total(a: Seq<char>, b: Seq<char>)
    ensures
        text_lt(a, b) || a == b || text_lt(b, a),
        !(text_lt(a, b) && text_lt(b, a)),
        a == b ==> !text_lt(a, b),
{
    lemma_bytes_lt_total(encode_utf8(a), encode_utf8(b));
    lemma_text_is_its_bytes(a, b);
    lemma_text_lt_irreflexive(a);
    if text_lt(a, b) && text_lt(b, a) {
        lemma_text_lt_transitive(a, b, a);
    }
}

/// Whether two texts are the same.
pub fn same_text(a: &str, b: &str) -> (same: bool)
    ensures
        same == (a@ == b@),
{
    proof {
        lemma_text_is_its_bytes(a@, b@);
    }
    let xs = a.as_bytes();
    let ys = b.as_bytes();
    if xs.len() != ys.len() {
        return false;
    }
    let mut i: usize = 0;
    while i < xs.len()
        invariant
            a@ == b@ <==> xs@ == ys@,
            i <= xs@.len() == ys@.len(),
            forall|j: int| 0 <= j < i ==> xs@[j] == ys@[j],
        decreases xs@.len() - i,
    {
        if xs[i] != ys[i] {
            return false;
        }
        i = i + 1;
    }
    assert(xs@ == ys@);
    true
}

/// Whether `a` comes before `b` in the order of texts.
pub fn text_before(a: &str, b: &str) -> (before: bool)
    ensures
        before == text_lt(a@, b@),
{
    let xs = a.as_bytes();
    let ys = b.as_bytes();
    let mut i: usize = 0;
    assert(xs@.skip(0) == xs@);
    assert(ys@.skip(0) == ys@);
    while i < xs.len() && i < ys.len()
        invariant
            i <= xs@.len(),
            i <= ys@.len(),
            text_lt(a@, b@) == bytes_lt(xs@.skip(i as int), ys@.skip(i as int)),
        decreases xs@.len() - i,
    {
        if xs[i] != ys[i] {
            return xs[i] < ys[i];
        }
        assert(xs@.skip(i as int).drop_first() == xs@.skip(i as int + 1));
        assert(ys@.skip(i as int).drop_first() == ys@.skip(i as int + 1));
        i = i + 1;
    }
    i < ys.len()
}

/// The character of a decimal digit.
pub open spec fn digit(d: nat) -> char {
    ('0' as u32 + d) as char
}

/// A number in decimal.
pub open spec fn decimal(n: nat) -> Seq<char>
    decreases n,
{
    if n < 10 {
        seq![digit(n)]
    } else {
        decimal(n / 10).push(digit(n % 10))
    }
}

/// Appends a number in decimal.
pub fn append_decimal(text: &mut String, n: usize)
    ensures
        final(text)@ == old(text)@ + decimal(n as nat),
    decreases n,
{
    if n >= 10 {
        append_decimal(text, n / 10);
    }
    let d: u8 = (n % 10) as u8;
    text.push((48u8 + d) as char);
    assert(text@ == old(text)@ + decimal(n as nat));
}

/// One text comes before another if and only if it has the lesser byte where their UTF-8 bytes
/// first differ, or is a proper start of the other.
pub proof fn law_first_difference_decides(a: Seq<char>, b: Seq<char>)
    ensures
        text_lt(a, b) <==> exists|i: int|
            {
                &&& 0 <= i <= encode_utf8(a).len()
                &&& i < encode_utf8(b).len()
                &&& #[trigger] encode_utf8(a).take(i) == encode_utf8(b).take(i)
                &&& i == encode_utf8(a).len() || encode_utf8(a)[i] < encode_utf8(b)[i]
            },
{
    lemma_bytes_lt_difference(encode_utf8(a), encode_utf8(b));
}

proof fn lemma_bytes_lt_difference(a: Seq<u8>, b: Seq<u8>)
    ensures
        bytes_lt(a, b) <==> exists|i: int|
            {
                &&& 0 <= i <= a.len()
                &&& i < b.len()
                &&& #[trigger] a.take(i) == b.take(i)
                &&& i == a.len() || a[i] < b[i]
            },
    decreases a.len(),
{
    if a.len() == 0 || b.len() == 0 || a[0] != b[0] {
        assert(a.take(0) == b.take(0));
        if exists|i: int|
            {
                &&& 0 <= i <= a.len()
                &&& i < b.len()
                &&& #[trigger] a.take(i) == b.take(i)
                &&& i == a.len() || a[i] < b[i]
            } {
            let i = choose|i: int|
                {
                    &&& 0 <= i <= a.len()
                    &&& i < b.len()
                    &&& #[trigger] a.take(i) == b.take(i)
                    &&& i == a.len() || a[i] < b[i]
                };
            if i > 0 {
                assert(a.take(i)[0] == b.take(i)[0]);
            }
        }
    } else {
        let c = a.drop_first();
        let d = b.drop_first();
        lemma_bytes_lt_difference(c, d);
        if bytes_lt(c, d) {
            let i = choose|i: int|
                {
                    &&& 0 <= i <= c.len()
                    &&& i < d.len()
                    &&& #[trigger] c.take(i) == d.take(i)
                    &&& i == c.len() || c[i] < d[i]
                };
            assert(a.take(i + 1) == seq![a[0]] + c.take(i));
            assert(b.take(i + 1) == seq![b[0]] + d.take(i));
        }
        if exists|i: int|
            {
                &&& 0 <= i <= a.len()
                &&& i < b.len()
                &&& #[trigger] a.take(i) == b.take(i)
                &&& i == a.len() || a[i] < b[i]
            } {
            let i = choose|i: int|
                {
                    &&& 0 <= i <= a.len()
                    &&& i < b.len()
                    &&& #[trigger] a.take(i) == b.take(i)
                    &&& i == a.len() || a[i] < b[i]
                };
            assert(i > 0);
            assert(c.take(i - 1) == a.take(i).drop_first());
            assert(d.take(i - 1) == b.take(i).drop_first());
        }
    }
}

/// A number in decimal is made of decimal digits, has no leading zero, and reads back as the
/// number.
pub proof fn law_decimal_reads_back(n: nat)
    ensures
        decimal(n).len() > 0,
        forall|i: int| 0 <= i < decimal(n).len() ==> '0' <= #[trigger] decimal(n)[i] <= '9',
        decimal(n).len() > 1 ==> decimal(n)[0] != '0',
        decimal(n).fold_left(0int, |sum: int, c: char| sum * 10 + (c as int - '0' as int)) == n,
    decreases n,
{
    let f = |sum: int, c: char| sum * 10 + (c as int - '0' as int);
    reveal_with_fuel(Seq::fold_left, 2);
    if n < 10 {
        assert(decimal(n).drop_last() == Seq::<char>::empty());
        assert(decimal(n).drop_last().fold_left(0int, f) == 0);
        assert(decimal(n).last() as int - '0' as int == n);
    } else {
        let init = decimal(n / 10);
        law_decimal_reads_back(n / 10);
        assert(decimal(n).drop_last() == init);
        assert(decimal(n).last() as int - '0' as int == n % 10);
        assert(decimal(n)[0] == init[0]);
        assert forall|i: int| 0 <= i < decimal(n).len() implies '0' <= #[trigger] decimal(n)[i]
            <= '9' by {
            if i < init.len() {
                assert(decimal(n)[i] == init[i]);
            }
        }
        assert(init[0] != '0') by {
            if n / 10 < 10 {
                assert(init == seq![digit(n / 10)]);
            } else {
                assert(init.len() > 1);
            }
        }
    }
}

} // verus!
