//! Character sequences: their lexicographic order and the call-sign grammar.
use vstd::prelude::*;
use vstd::string::*;

verus! {

/// Strict lexicographic order on character sequences, by code point. A proper
/// prefix comes before the sequences that extend it.
pub open spec fn lex_lt(a: Seq<char>, b: Seq<char>) -> bool
    decreases a.len(),
{
    if b.len() == 0 {
        false
    } else if a.len() == 0 {
        true
    } else if a[0] != b[0] {
        a[0] < b[0]
    } else {
        lex_lt(a.drop_first(), b.drop_first())
    }
}

/// No sequence comes before itself.
pub proof fn lemma_lex_irreflexive(a: Seq<char>)
    ensures
        !lex_lt(a, a),
    decreases a.len(),
{
    if a.len() > 0 {
        lemma_lex_irreflexive(a.drop_first());
    }
}

/// Of two sequences at most one comes before the other.
pub proof fn lemma_lex_asymmetric(a: Seq<char>, b: Seq<char>)
    requires
        lex_lt(a, b),
    ensures
        !lex_lt(b, a),
    decreases a.len(),
{
    if a.len() > 0 && b.len() > 0 && a[0] == b[0] {
        lemma_lex_asymmetric(a.drop_first(), b.drop_first());
    }
}

/// The order is transitive.
pub proof fn lemma_lex_transitive(a: Seq<char>, b: Seq<char>, c: Seq<char>)
    requires
        lex_lt(a, b),
        lex_lt(b, c),
    ensures
        lex_lt(a, c),
    decreases a.len(),
{
    if a.len() > 0 && b.len() > 0 && c.len() > 0 && a[0] == b[0] && b[0] == c[0] {
        lemma_lex_transitive(a.drop_first(), b.drop_first(), c.drop_first());
    }
}

/// Two different sequences are ordered one way or the other.
pub proof fn lemma_lex_connected(a: Seq<char>, b: Seq<char>)
    requires
        a != b,
    ensures
        lex_lt(a, b) || lex_lt(b, a),
    decreases a.len(),
{
    if a.len() == 0 || b.len() == 0 {
        if a.len() == 0 && b.len() == 0 {
            assert(a =~= b);
        }
    } else if a[0] == b[0] {
        if a.drop_first() == b.drop_first() {
            assert(a =~= seq![a[0]] + a.drop_first());
            assert(b =~= seq![b[0]] + b.drop_first());
        }
        lemma_lex_connected(a.drop_first(), b.drop_first());
    } else {
        assert(a[0] < b[0] || b[0] < a[0]);
    }
}

/// Whether `a` comes strictly before `b` in lexicographic order.
pub fn text_less(a: &str, b: &str) -> (r: bool)
    ensures
        r == lex_lt(a@, b@),
{
    let la: usize = a.unicode_len();
    let lb: usize = b.unicode_len();
    let mut i: usize = 0;
    assert(a@.skip(0) =~= a@ && b@.skip(0) =~= b@);
    loop
        invariant
            la == a@.len(),
            lb == b@.len(),
            i <= la,
            i <= lb,
            lex_lt(a@, b@) == lex_lt(a@.skip(i as int), b@.skip(i as int)),
        decreases la - i,
    {
        if i == lb {
            return false;
        }
        if i == la {
            return true;
        }
        let ca = a.get_char(i);
        let cb = b.get_char(i);
        proof {
            assert(a@.skip(i as int).drop_first() =~= a@.skip(i as int + 1));
            assert(b@.skip(i as int).drop_first() =~= b@.skip(i as int + 1));
        }
        if ca != cb {
            return ca < cb;
        }
        i = i + 1;
    }
}

/// Whether `a` and `b` hold the same characters.
pub fn text_equal(a: &str, b: &str) -> (r: bool)
    ensures
        r == (a@ == b@),
{
    let la: usize = a.unicode_len();
    let lb: usize = b.unicode_len();
    if la != lb {
        return false;
    }
    let mut i: usize = 0;
    while i < la
        invariant
            la == a@.len(),
            lb == b@.len(),
            la == lb,
            i <= la,
            forall|k: int| 0 <= k < i ==> a@[k] == b@[k],
        decreases la - i,
    {
        if a.get_char(i) != b.get_char(i) {
            return false;
        }
        i = i + 1;
    }
    assert(a@ =~= b@);
    true
}

/// The upper-case form of an ASCII letter; any other character is itself.
pub open spec fn ascii_upper(c: char) -> char {
    if 'a' <= c && c <= 'z' {
        ((c as u8 - 32) as u8) as char
    } else {
        c
    }
}

/// The text with each ASCII letter in upper case.
pub open spec fn upper_text(s: Seq<char>) -> Seq<char> {
    s.map_values(|c: char| ascii_upper(c))
}

/// Whether `c` may stand in a call sign: an upper-case ASCII letter or an
/// ASCII digit.
pub open spec fn is_callsign_char(c: char) -> bool {
    ('A' <= c && c <= 'Z') || ('0' <= c && c <= '9')
}

/// Whether `s` is a call sign: four to six characters, each an upper-case
/// ASCII letter or an ASCII digit.
pub open spec fn is_callsign(s: Seq<char>) -> bool {
    &&& 4 <= s.len() <= 6
    &&& forall|i: int| 0 <= i < s.len() ==> is_callsign_char(#[trigger] s[i])
}

/// `String::make_ascii_uppercase` of std. Trusted: the string keeps its
/// length, each ASCII letter `a` to `z` becomes the letter `A` to `Z`, and
/// every other character stays as it is.
#[verifier::external_body]
pub(crate) fn make_ascii_uppercase(s: &mut String)
    ensures
        final(s)@ == upper_text(old(s)@),
{
    s.make_ascii_uppercase();
}

/// Whether `s` is a call sign.
pub fn is_callsign_text(s: &str) -> (r: bool)
    ensures
        r == is_callsign(s@),
{
    let len: usize = s.unicode_len();
    if len < 4 || len > 6 {
        return false;
    }
    let mut i: usize = 0;
    while i < len
        invariant
            len == s@.len(),
            i <= len,
            forall|k: int| 0 <= k < i ==> is_callsign_char(#[trigger] s@[k]),
        decreases len - i,
    {
        let c = s.get_char(i);
        if !(('A' <= c && c <= 'Z') || ('0' <= c && c <= '9')) {
            return false;
        }
        i = i + 1;
    }
    true
}

/// Whether `c` is an ASCII digit.
pub open spec fn is_digit(c: char) -> bool {
    '0' <= c && c <= '9'
}

/// Whether `d` holds ASCII digits only.
pub open spec fn all_digits(d: Seq<char>) -> bool {
    forall|i: int| 0 <= i < d.len() ==> is_digit(#[trigger] d[i])
}

/// The number that the decimal digits `d` write.
pub open spec fn digits_value(d: Seq<char>) -> int
    decreases d.len(),
{
    if d.len() == 0 {
        0
    } else {
        digits_value(d.drop_last()) * 10 + (d.last() as int - '0' as int)
    }
}

/// The text without the plus sign that may stand before a number.
pub open spec fn unsigned_part(s: Seq<char>) -> Seq<char> {
    if s.len() > 0 && s[0] == '+' {
        s.drop_first()
    } else {
        s
    }
}

/// The rank that `s` writes: one or more decimal digits, with or without a
/// plus sign before them, whose number is at most 255. Any other text writes
/// no rank.
pub open spec fn parse_rank(s: Seq<char>) -> Option<u8> {
    let d = unsigned_part(s);
    if d.len() > 0 && all_digits(d) && digits_value(d) <= 255 {
        Some(digits_value(d) as u8)
    } else {
        None
    }
}

/// Whether `key` begins with the word "rank".
pub open spec fn has_rank_prefix(key: Seq<char>) -> bool {
    key.len() >= 4 && key[0] == 'r' && key[1] == 'a' && key[2] == 'n' && key[3] == 'k'
}

/// What a form key says of ranks: `None` if it is no rank key, else the rank
/// that follows the word "rank", or `Some(None)` if no rank follows it.
pub open spec fn rank_key(key: Seq<char>) -> Option<Option<u8>> {
    if has_rank_prefix(key) {
        Some(parse_rank(key.skip(4)))
    } else {
        None
    }
}

/// A number is at least the number that its first digits write.
proof fn lemma_digits_grow(d: Seq<char>, k: int)
    requires
        all_digits(d),
        0 <= k <= d.len(),
    ensures
        0 <= digits_value(d.take(k)) <= digits_value(d),
    decreases d.len(),
{
    if d.len() == 0 {
        assert(d.take(k) =~= d);
    } else if k == d.len() {
        assert(d.take(k) =~= d);
        lemma_digits_grow(d.drop_last(), k - 1);
        assert(d.drop_last().take(k - 1) =~= d.drop_last());
        assert(is_digit(d[d.len() - 1]));
    } else {
        lemma_digits_grow(d.drop_last(), k);
        assert(d.drop_last().take(k) =~= d.take(k));
        assert(is_digit(d[d.len() - 1]));
    }
}

/// Reads a form key: see [`rank_key`].
pub fn read_rank_key(key: &str) -> (r: Option<Option<u8>>)
    ensures
        r == rank_key(key@),
{
    let len: usize = key.unicode_len();
    if len < 4 || key.get_char(0) != 'r' || key.get_char(1) != 'a' || key.get_char(2) != 'n'
        || key.get_char(3) != 'k' {
        return None;
    }
    let ghost tail = key@.skip(4);
    let mut i: usize = 4;
    if i < len && key.get_char(i) == '+' {
        i = i + 1;
    }
    let start: usize = i;
    let ghost d = unsigned_part(tail);
    assert(d =~= key@.skip(start as int));
    if i == len {
        return Some(None);
    }
    let mut acc: u32 = 0;
    assert(d.take(0) =~= Seq::<char>::empty());
    while i < len
        invariant
            len == key@.len(),
            4 <= start <= i <= len,
            d == key@.skip(start as int),
            d.len() > 0,
            rank_key(key@) == Some(parse_rank(tail)),
            d == unsigned_part(tail),
            all_digits(d.take(i - start)),
            acc == digits_value(d.take(i - start)),
            acc <= 255,
        decreases len - i,
    {
        let c = key.get_char(i);
        assert(d[i - start] == c);
        if !('0' <= c && c <= '9') {
            assert(!is_digit(d[i - start]));
            return Some(None);
        }
        let digit: u32 = c as u32 - '0' as u32;
        acc = acc * 10 + digit;
        proof {
            assert(d.take(i - start + 1).drop_last() =~= d.take(i - start));
            assert(d.take(i - start + 1).last() == c);
            assert forall|k: int| 0 <= k < i - start + 1 implies is_digit(
                #[trigger] d.take(i - start + 1)[k],
            ) by {
                if k < i - start {
                    assert(d.take(i - start)[k] == d[k]);
                }
            }
        }
        if acc > 255 {
            proof {
                if all_digits(d) {
                    lemma_digits_grow(d, i - start + 1);
                }
            }
            return Some(None);
        }
        i = i + 1;
    }
    assert(d.take(i - start) =~= d);
    Some(Some(acc as u8))
}

/// The pieces into which the separator `sep` cuts the text `s`: one more
/// than there are separators in `s`, each without a separator. A text without
/// a separator is one piece, and so is the empty text.
pub open spec fn text_pieces(s: Seq<char>, sep: char) -> Seq<Seq<char>>
    decreases s.len(),
{
    if s.len() == 0 {
        seq![Seq::<char>::empty()]
    } else {
        let before = text_pieces(s.drop_last(), sep);
        if s.last() == sep {
            before.push(Seq::<char>::empty())
        } else {
            before.drop_last().push(before.last().push(s.last()))
        }
    }
}

/// The pieces put together again, with the separator between each two.
pub open spec fn joined(pieces: Seq<Seq<char>>, sep: char) -> Seq<char>
    decreases pieces.len(),
{
    if pieces.len() == 0 {
        Seq::empty()
    } else if pieces.len() == 1 {
        pieces[0]
    } else {
        joined(pieces.drop_last(), sep).push(sep) + pieces.last()
    }
}

/// Cutting loses nothing: there is at least one piece, no piece holds a
/// separator, and the pieces joined by the separator are the text.
pub proof fn lemma_text_pieces(s: Seq<char>, sep: char)
    ensures
        text_pieces(s, sep).len() >= 1,
        forall|i: int| 0 <= i < text_pieces(s, sep).len() ==> !(#[trigger] text_pieces(s, sep)[i]).contains(sep),
        joined(text_pieces(s, sep), sep) == s,
    decreases s.len(),
{
    let pieces = text_pieces(s, sep);
    if s.len() == 0 {
        assert(joined(pieces, sep) =~= s);
    } else {
        let t = s.drop_last();
        let c = s.last();
        let before = text_pieces(t, sep);
        lemma_text_pieces(t, sep);
        assert(s =~= t.push(c));
        if c == sep {
            assert(pieces.drop_last() =~= before);
            assert(joined(pieces, sep) =~= s);
        } else {
            let grown = before.last().push(c);
            assert(pieces.last() == grown);
            assert(!grown.contains(sep)) by {
                if grown.contains(sep) {
                    let i = choose|i: int| 0 <= i < grown.len() && grown[i] == sep;
                    assert(before.last()[i] == sep);
                    assert(before[before.len() - 1].contains(sep));
                }
            }
            assert forall|i: int| 0 <= i < pieces.len() implies !(#[trigger] pieces[i]).contains(sep) by {
                if i < pieces.len() - 1 {
                    assert(pieces[i] == before[i]);
                }
            }
            if before.len() == 1 {
                assert(joined(pieces, sep) =~= s);
            } else {
                assert(pieces.drop_last() =~= before.drop_last());
                assert(joined(pieces, sep) =~= s);
            }
        }
    }
}

/// Cuts `s` at every separator `sep`: see [`text_pieces`].
pub fn split_text(s: &str, sep: char) -> (pieces: Vec<String>)
    ensures
        pieces.deep_view() == text_pieces(s@, sep),
{
    let len: usize = s.unicode_len();
    let mut pieces: Vec<String> = Vec::new();
    let mut start: usize = 0;
    let mut i: usize = 0;
    proof {
        assert(s@.take(0) =~= Seq::<char>::empty());
        assert(pieces.deep_view().push(s@.subrange(0, 0)) =~= text_pieces(s@.take(0), sep));
    }
    while i < len
        invariant
            len == s@.len(),
            start <= i <= len,
            pieces.deep_view().push(s@.subrange(start as int, i as int)) == text_pieces(
                s@.take(i as int),
                sep,
            ),
        decreases len - i,
    {
        let ghost done = pieces.deep_view();
        let ghost piece = s@.subrange(start as int, i as int);
        proof {
            assert(s@.take(i as int + 1).drop_last() =~= s@.take(i as int));
            assert(s@.take(i as int + 1).last() == s@[i as int]);
            assert(done.push(piece).drop_last() =~= done);
            assert(done.push(piece).last() == piece);
            assert(piece.push(s@[i as int]) =~= s@.subrange(start as int, i as int + 1));
            assert(s@.subrange(i as int + 1, i as int + 1) =~= Seq::<char>::empty());
        }
        if s.get_char(i) == sep {
            let text = s.substring_char(start, i);
            pieces.push(text.to_owned());
            assert(pieces.deep_view() =~= done.push(piece));
            start = i + 1;
        }
        i = i + 1;
    }
    let ghost done = pieces.deep_view();
    let text = s.substring_char(start, len);
    pieces.push(text.to_owned());
    proof {
        assert(s@.take(len as int) =~= s@);
        assert(pieces.deep_view() =~= done.push(s@.subrange(start as int, len as int)));
    }
    pieces
}

} // verus!
