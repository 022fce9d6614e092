//! Text forms of values: element types that can be read from and written to text, and the
//! small text operations that reading and writing interval sets need.
use vstd::prelude::*;
use vstd::string::StrSliceExecFns;
use crate::key::SortKey;
use crate::trusted::{
    all_digits, decimal_digits, decimal_text, decimal_value, digits_value, format_i32, format_i64,
    i32_parsed, i32_text, i64_parsed, i64_text, is_digit, parse_i32, parse_i64,
};

verus! {

/// An element type with a text form.
pub trait TextKey: SortKey {
    /// The value that a text denotes, if it denotes one.
    spec fn parsed(text: Seq<char>) -> Option<Self>;

    /// The text form of a value.
    spec fn text(&self) -> Seq<char>;

    /// Reads a value from its text form.
    fn parse_text(text: &str) -> (r: Option<Self>)
        ensures
            r == Self::parsed(text@),
    ;

    /// Writes the text form of the value.
    fn to_text(&self) -> (r: String)
        ensures
            r@ == self.text(),
    ;
}

impl TextKey for i64 {
    open spec fn parsed(text: Seq<char>) -> Option<i64> {
        i64_parsed(text)
    }

    open spec fn text(&self) -> Seq<char> {
        i64_text(*self)
    }

    fn parse_text(text: &str) -> (r: Option<i64>) {
        parse_i64(text)
    }

    fn to_text(&self) -> (r: String) {
        format_i64(*self)
    }
}

impl TextKey for i32 {
    open spec fn parsed(text: Seq<char>) -> Option<i32> {
        i32_parsed(text)
    }

    open spec fn text(&self) -> Seq<char> {
        i32_text(*self)
    }

    fn parse_text(text: &str) -> (r: Option<i32>) {
        parse_i32(text)
    }

    fn to_text(&self) -> (r: String) {
        format_i32(*self)
    }
}

/// The decimal digits of `n` are digits, and they stand for `n`.
proof fn lemma_decimal_digits(n: nat)
    ensures
        all_digits(decimal_digits(n)),
        digits_value(decimal_digits(n)) == n,
    decreases n,
{
    if n < 10 {
        let s = decimal_digits(n);
        assert(s.drop_last() =~= Seq::<char>::empty());
        assert(is_digit(s[0]));
        assert(s.last() as int == 48 + n);
        assert(digits_value(s) == digits_value(s.drop_last()) * 10 + (s.last() as int - 48));
    } else {
        lemma_decimal_digits(n / 10);
        let t = decimal_digits(n / 10);
        let s = decimal_digits(n);
        assert(s.drop_last() =~= t);
        assert(is_digit(s.last()));
        assert(s.last() as int == 48 + n % 10);
        assert(digits_value(s) == digits_value(t) * 10 + (s.last() as int - 48));
        assert((n / 10) * 10 + n % 10 == n);
        assert forall|i: int| 0 <= i < s.len() implies is_digit(#[trigger] s[i]) by {
            if i < t.len() {
                assert(s[i] == t[i]);
            }
        }
    }
}

/// Reading the decimal text of a number gives the number back.
pub proof fn lemma_decimal_round_trip(v: int)
    ensures
        decimal_value(decimal_text(v)) == Some(v),
{
    if v < 0 {
        let d = decimal_digits((-v) as nat);
        lemma_decimal_digits((-v) as nat);
        let s = decimal_text(v);
        assert(s.skip(1) =~= d);
        assert(s[0] == '-');
    } else {
        lemma_decimal_digits(v as nat);
        let s = decimal_text(v);
        assert(is_digit(s[0]));
    }
}

/// Parsing the text that an `i64` is written as gives the value back.
pub proof fn lemma_i64_text_round_trip(v: i64)
    ensures
        i64::parsed(v.text()) == Some(v),
{
    lemma_decimal_round_trip(v as int);
}

/// Parsing the text that an `i32` is written as gives the value back.
pub proof fn lemma_i32_text_round_trip(v: i32)
    ensures
        i32::parsed(v.text()) == Some(v),
{
    lemma_decimal_round_trip(v as int);
}

/// The pieces of `s` between the occurrences of `sep`, in order; a text without `sep` is one
/// piece, and two adjacent separators enclose an empty piece.
pub open spec fn split_pieces(s: Seq<char>, sep: char) -> Seq<Seq<char>>
    decreases s.len(),
{
    if s.len() == 0 {
        seq![Seq::<char>::empty()]
    } else {
        let prev = split_pieces(s.drop_last(), sep);
        if s.last() == sep {
            prev.push(Seq::<char>::empty())
        } else {
            prev.update(prev.len() - 1, prev.last().push(s.last()))
        }
    }
}

/// There is always at least one piece.
pub proof fn lemma_split_nonempty(s: Seq<char>, sep: char)
    ensures
        split_pieces(s, sep).len() >= 1,
    decreases s.len(),
{
    if s.len() > 0 {
        lemma_split_nonempty(s.drop_last(), sep);
    }
}

/// Whether the two texts are equal.
pub fn same_text(a: &str, b: &str) -> (r: bool)
    ensures
        r == (a@ == b@),
{
    let n = a.unicode_len();
    if n != b.unicode_len() {
        return false;
    }
    let mut i: usize = 0;
    while i < n
        invariant
            n == a@.len(),
            n == b@.len(),
            i <= n,
            forall|j: int| 0 <= j < i ==> a@[j] == b@[j],
        decreases n - i,
    {
        if a.get_char(i) != b.get_char(i) {
            return false;
        }
        i = i + 1;
    }
    assert(a@ =~= b@);
    true
}

/// The pieces of `s` between the occurrences of `sep`.
pub fn split_text<'a>(s: &'a str, sep: char) -> (r: Vec<&'a str>)
    ensures
        r.deep_view() == split_pieces(s@, sep),
{
    let n = s.unicode_len();
    let mut pieces: Vec<&'a str> = Vec::new();
    let mut start: usize = 0;
    let mut i: usize = 0;
    assert(pieces.deep_view() =~= Seq::<Seq<char>>::empty());
    assert(s@.subrange(0, 0) =~= Seq::<char>::empty());
    assert(pieces.deep_view().push(s@.subrange(0, 0)) =~= split_pieces(s@.subrange(0, 0), sep));
    while i < n
        invariant
            n == s@.len(),
            start <= i <= n,
            pieces.deep_view().push(s@.subrange(start as int, i as int)) == split_pieces(
                s@.subrange(0, i as int),
                sep,
            ),
        decreases n - i,
    {
        let c = s.get_char(i);
        let ghost prefix = s@.subrange(0, i + 1);
        assert(prefix.drop_last() =~= s@.subrange(0, i as int));
        assert(prefix.last() == c);
        if c == sep {
            let piece = s.substring_char(start, i);
            pieces.push(piece);
            start = i + 1;
            assert(s@.subrange(start as int, i + 1) =~= Seq::<char>::empty());
        } else {
            assert(s@.subrange(start as int, i + 1) =~= s@.subrange(start as int, i as int).push(c));
        }
        i = i + 1;
        proof {
            assert(pieces.deep_view().push(s@.subrange(start as int, i as int)) =~= split_pieces(
                s@.subrange(0, i as int),
                sep,
            ));
        }
    }
    let last = s.substring_char(start, n);
    pieces.push(last);
    assert(s@.subrange(0, n as int) =~= s@);
    assert(pieces.deep_view() =~= split_pieces(s@, sep));
    pieces
}

} // verus!
