//! The text form of intervals and interval sequences: `(Ø)`, `(-∞, ∞)`, `[x]`, `(x, ∞)`,
//! `[x, ∞)`, `(-∞, y)`, `(-∞, y]` and `(x, y)` with either end closed by `[` or `]`; an
//! interval sequence is its maximal intervals joined by `; `.
use vstd::prelude::*;
use vstd::string::StringExecFns;
use vstd::string::StrSliceExecFns;
use crate::key::SortKey;
use crate::text::{TextKey, same_text, split_text, split_pieces};
use crate::trusted::{regex_captures, regex_captures_of, trim_text, trimmed};
use crate::interval::Interval;
use crate::interval_seq::IntervalSeq;

verus! {

/// The mark that opens a lower bound.
pub open spec fn lower_mark(included: bool) -> Seq<char> {
    if included {
        "["@
    } else {
        "("@
    }
}

/// The mark that closes an upper bound.
pub open spec fn upper_mark(included: bool) -> Seq<char> {
    if included {
        "]"@
    } else {
        ")"@
    }
}

/// The text form of an interval.
pub open spec fn interval_text<T: TextKey>(iv: Interval<T>) -> Seq<char> {
    match iv {
        Interval::Empty => "(Ø)"@,
        Interval::All => "(-∞, ∞)"@,
        Interval::Point(x) => "["@ + x.text() + "]"@,
        Interval::Above(x, xi) => lower_mark(xi) + x.text() + ", ∞)"@,
        Interval::Below(x, xi) => "(-∞, "@ + x.text() + upper_mark(xi),
        Interval::Bounded(a, ai, b, bi) => lower_mark(ai) + a.text() + ", "@ + b.text() + upper_mark(bi),
    }
}

/// `parts` joined with `sep` between each two of them.
pub open spec fn join_texts(parts: Seq<Seq<char>>, sep: Seq<char>) -> Seq<char>
    decreases parts.len(),
{
    if parts.len() == 0 {
        Seq::empty()
    } else if parts.len() == 1 {
        parts[0]
    } else {
        join_texts(parts.drop_last(), sep) + sep + parts.last()
    }
}

/// The interval is valid and holds something.
pub open spec fn nonempty_valid<T: SortKey>(iv: Interval<T>) -> bool {
    iv.spec_valid() && exists|d: int| #[trigger] iv.holds(d)
}

/// `ivs` lists the maximal intervals of the set of half steps `s`, in ascending order: each is
/// valid and not empty, together they hold `s`, and a gap lies between any two of them.
pub open spec fn decomposes<T: SortKey>(ivs: Seq<Interval<T>>, s: Set<int>) -> bool {
    &&& forall|i: int| 0 <= i < ivs.len() ==> nonempty_valid(#[trigger] ivs[i])
    &&& forall|d: int| #[trigger] s.contains(d) <==> exists|i: int| 0 <= i < ivs.len() && ivs[i].holds(d)
    &&& forall|i: int, j: int, d: int, e: int|
        #![trigger ivs[i].holds(d), ivs[j].holds(e)]
        0 <= i < j < ivs.len() && ivs[i].holds(d) && ivs[j].holds(e) ==> d + 1 < e
}

/// The error of a text that is not an interval.
pub open spec fn parse_error() -> Seq<char> {
    "Parse error!"@
}

/// The pattern of the empty interval.
pub open spec fn null_pattern() -> Seq<char> {
    "^ *\\( *Ø *\\) *$"@
}

/// The pattern of a single value.
pub open spec fn single_pattern() -> Seq<char> {
    "^ *\\[ *([^,]+) *\\] *$"@
}

/// The pattern of an interval with two ends.
pub open spec fn pair_pattern() -> Seq<char> {
    "^ *(\\[|\\() *(.+?) *, *(.+?) *(\\]|\\)) *$"@
}

/// The captures of a match, if there was one.
pub open spec fn matched(r: Option<Option<Seq<Option<Seq<char>>>>>) -> Option<Seq<Option<Seq<char>>>> {
    match r {
        Some(Some(caps)) => Some(caps),
        _ => None,
    }
}

/// The text of group `i`, if it took part.
pub open spec fn group(caps: Seq<Option<Seq<char>>>, i: int) -> Option<Seq<char>> {
    if 0 <= i < caps.len() {
        caps[i]
    } else {
        None
    }
}

/// The value that a text denotes, or the parse error.
pub open spec fn value_of<T: TextKey>(text: Seq<char>) -> Result<T, Seq<char>> {
    match T::parsed(text) {
        Some(v) => Ok(v),
        None => Err(parse_error()),
    }
}

/// What [Interval::range] gives.
pub open spec fn range_of<T: SortKey>(min: T, min_included: bool, max: T, max_included: bool) -> Result<Interval<T>, Seq<char>> {
    if min.key() < max.key() {
        Ok(Interval::Bounded(min, min_included, max, max_included))
    } else if min.key() == max.key() && min_included && max_included {
        Ok(Interval::Point(min))
    } else {
        Err("Error"@)
    }
}

/// The interval between the marks `left` and `right` with the ends `x` and `y`.
pub open spec fn pair_of<T: TextKey>(left: Seq<char>, x: Seq<char>, y: Seq<char>, right: Seq<char>) -> Result<Interval<T>, Seq<char>> {
    let open_l = left == "("@;
    let closed_l = left == "["@;
    let open_r = right == ")"@;
    let closed_r = right == "]"@;
    let neg = x == "-∞"@;
    let pos = y == "∞"@;
    if open_l && neg && pos && open_r {
        Ok(Interval::All)
    } else if open_l && neg && open_r {
        match value_of::<T>(y) {
            Ok(v) => Ok(Interval::Below(v, false)),
            Err(e) => Err(e),
        }
    } else if open_l && neg && closed_r {
        match value_of::<T>(y) {
            Ok(v) => Ok(Interval::Below(v, true)),
            Err(e) => Err(e),
        }
    } else if open_l && pos && open_r {
        match value_of::<T>(x) {
            Ok(v) => Ok(Interval::Above(v, false)),
            Err(e) => Err(e),
        }
    } else if closed_l && pos && open_r {
        match value_of::<T>(x) {
            Ok(v) => Ok(Interval::Above(v, true)),
            Err(e) => Err(e),
        }
    } else if (open_l || closed_l) && (open_r || closed_r) {
        match value_of::<T>(x) {
            Ok(min) => match value_of::<T>(y) {
                Ok(max) => range_of(min, closed_l, max, closed_r),
                Err(e) => Err(e),
            },
            Err(e) => Err(e),
        }
    } else {
        Err(parse_error())
    }
}

/// The interval that the captures of the three patterns describe.
pub open spec fn interval_of_captures<T: TextKey>(
    null: Option<Option<Seq<Option<Seq<char>>>>>,
    single: Option<Option<Seq<Option<Seq<char>>>>>,
    pair: Option<Option<Seq<Option<Seq<char>>>>>,
) -> Result<Interval<T>, Seq<char>> {
    if matched(null) is Some {
        Ok(Interval::Empty)
    } else {
        match matched(single) {
            Some(caps) => match group(caps, 1) {
                Some(t) => match value_of::<T>(t) {
                    Ok(v) => Ok(Interval::Point(v)),
                    Err(e) => Err(e),
                },
                None => Err(parse_error()),
            },
            None => match matched(pair) {
                Some(caps) => match (group(caps, 1), group(caps, 2), group(caps, 3), group(caps, 4)) {
                    (Some(l), Some(x), Some(y), Some(r)) => pair_of(l, x, y, r),
                    _ => Err(parse_error()),
                },
                None => Err(parse_error()),
            },
        }
    }
}

/// The interval that a text describes.
pub open spec fn interval_of_text<T: TextKey>(s: Seq<char>) -> Result<Interval<T>, Seq<char>> {
    interval_of_captures(
        regex_captures_of(null_pattern(), s),
        regex_captures_of(single_pattern(), s),
        regex_captures_of(pair_pattern(), s),
    )
}

/// Whether the interval that `piece` describes holds the half step `d`.
pub open spec fn piece_holds<T: TextKey>(piece: Seq<char>, d: int) -> bool {
    match interval_of_text::<T>(piece) {
        Ok(iv) => iv.holds(d),
        Err(_) => false,
    }
}

/// The set of half steps that the pieces of a text between `;` describe together.
pub open spec fn union_of_pieces<T: TextKey>(pieces: Seq<Seq<char>>) -> Set<int> {
    Set::new(
        |d: int|
            exists|i: int|
                0 <= i < pieces.len() && #[trigger] piece_holds::<T>(pieces[i], d),
    )
}

/// The text of group `i` of the captures, if it took part.
fn group_text(caps: &Vec<Option<String>>, i: usize) -> (r: Option<&str>)
    ensures
        r.deep_view() == group(caps.deep_view(), i as int),
{
    if i < caps.len() {
        match &caps[i] {
            Some(t) => Some(t.as_str()),
            None => None,
        }
    } else {
        None
    }
}

/// The captures of a match, if there was one.
fn matched_caps(r: &Option<Option<Vec<Option<String>>>>) -> (m: Option<&Vec<Option<String>>>)
    ensures
        m.deep_view() == matched(r.deep_view()),
{
    match r {
        Some(Some(caps)) => Some(caps),
        _ => None,
    }
}

/// The parse error.
fn parse_error_text() -> (r: String)
    ensures
        r@ == parse_error(),
{
    String::from_str("Parse error!")
}

/// The value that `text` denotes, or the parse error.
fn value_from<T: TextKey>(text: &str) -> (r: Result<T, String>)
    ensures
        match r {
            Ok(v) => value_of::<T>(text@) == Ok::<T, Seq<char>>(v),
            Err(e) => value_of::<T>(text@) == Err::<T, Seq<char>>(e@),
        },
{
    match T::parse_text(text) {
        Some(v) => Ok(v),
        None => Err(parse_error_text()),
    }
}

impl<T: TextKey> Interval<T> {
    /// The text form of the interval.
    pub fn to_text(&self) -> (r: String)
        ensures
            r@ == interval_text(*self),
    {
        match self {
            Interval::Empty => String::from_str("(Ø)"),
            Interval::All => String::from_str("(-∞, ∞)"),
            Interval::Point(x) => {
                let mut s = String::from_str("[");
                s.append(x.to_text().as_str());
                s.append("]");
                s
            },
            Interval::Above(x, xi) => {
                let mut s = if *xi { String::from_str("[") } else { String::from_str("(") };
                s.append(x.to_text().as_str());
                s.append(", ∞)");
                s
            },
            Interval::Below(x, xi) => {
                let mut s = String::from_str("(-∞, ");
                s.append(x.to_text().as_str());
                if *xi {
                    s.append("]");
                } else {
                    s.append(")");
                }
                s
            },
            Interval::Bounded(a, ai, b, bi) => {
                let mut s = if *ai { String::from_str("[") } else { String::from_str("(") };
                s.append(a.to_text().as_str());
                s.append(", ");
                s.append(b.to_text().as_str());
                if *bi {
                    s.append("]");
                } else {
                    s.append(")");
                }
                s
            },
        }
    }

    /// The interval between the marks `left` and `right` with the ends `x` and `y`.
    fn from_pair(left: &str, x: &str, y: &str, right: &str) -> (r: Result<Interval<T>, String>)
        ensures
            match r {
                Ok(iv) => pair_of::<T>(left@, x@, y@, right@) == Ok::<Interval<T>, Seq<char>>(iv),
                Err(e) => pair_of::<T>(left@, x@, y@, right@) == Err::<Interval<T>, Seq<char>>(e@),
            },
    {
        let open_l = same_text(left, "(");
        let closed_l = same_text(left, "[");
        let open_r = same_text(right, ")");
        let closed_r = same_text(right, "]");
        let neg = same_text(x, "-∞");
        let pos = same_text(y, "∞");
        if open_l && neg && pos && open_r {
            Ok(Interval::All)
        } else if open_l && neg && open_r {
            match value_from::<T>(y) {
                Ok(v) => Ok(Interval::below(v)),
                Err(e) => Err(e),
            }
        } else if open_l && neg && closed_r {
            match value_from::<T>(y) {
                Ok(v) => Ok(Interval::at_or_below(v)),
                Err(e) => Err(e),
            }
        } else if open_l && pos && open_r {
            match value_from::<T>(x) {
                Ok(v) => Ok(Interval::above(v)),
                Err(e) => Err(e),
            }
        } else if closed_l && pos && open_r {
            match value_from::<T>(x) {
                Ok(v) => Ok(Interval::at_or_above(v)),
                Err(e) => Err(e),
            }
        } else if (open_l || closed_l) && (open_r || closed_r) {
            match value_from::<T>(x) {
                Ok(min) => match value_from::<T>(y) {
                    Ok(max) => {
                        let r = Interval::range(min, closed_l, max, closed_r);
                        proof {
                            reveal_strlit("Error");
                            if r is Err {
                                assert(range_of(min, closed_l, max, closed_r) is Err);
                            }
                        }
                        r
                    },
                    Err(e) => Err(e),
                },
                Err(e) => Err(e),
            }
        } else {
            Err(parse_error_text())
        }
    }

    /// The interval that the captures of the three patterns describe: the captures of the
    /// empty interval, of a single value and of an interval with two ends.
    pub fn from_captures(
        null: &Option<Option<Vec<Option<String>>>>,
        single: &Option<Option<Vec<Option<String>>>>,
        pair: &Option<Option<Vec<Option<String>>>>,
    ) -> (r: Result<Interval<T>, String>)
        ensures
            match r {
                Ok(iv) => interval_of_captures::<T>(null.deep_view(), single.deep_view(), pair.deep_view())
                    == Ok::<Interval<T>, Seq<char>>(iv),
                Err(e) => interval_of_captures::<T>(null.deep_view(), single.deep_view(), pair.deep_view())
                    == Err::<Interval<T>, Seq<char>>(e@),
            },
    {
        if matched_caps(null).is_some() {
            return Ok(Interval::Empty);
        }
        match matched_caps(single) {
            Some(caps) => match group_text(caps, 1) {
                Some(t) => match value_from::<T>(t) {
                    Ok(v) => Ok(Interval::at(v)),
                    Err(e) => Err(e),
                },
                None => Err(parse_error_text()),
            },
            None => match matched_caps(pair) {
                Some(caps) => {
                    let l = group_text(caps, 1);
                    let x = group_text(caps, 2);
                    let y = group_text(caps, 3);
                    let rt = group_text(caps, 4);
                    match (l, x, y, rt) {
                        (Some(l), Some(x), Some(y), Some(rt)) => Self::from_pair(l, x, y, rt),
                        _ => Err(parse_error_text()),
                    }
                },
                None => Err(parse_error_text()),
            },
        }
    }

    /// The interval that the text `s` describes, or a parse error.
    pub fn from_text(s: &str) -> (r: Result<Interval<T>, String>)
        ensures
            match r {
                Ok(iv) => interval_of_text::<T>(s@) == Ok::<Interval<T>, Seq<char>>(iv),
                Err(e) => interval_of_text::<T>(s@) == Err::<Interval<T>, Seq<char>>(e@),
            },
    {
        let null = regex_captures("^ *\\( *Ø *\\) *$", s);
        let single = regex_captures("^ *\\[ *([^,]+) *\\] *$", s);
        let pair = regex_captures("^ *(\\[|\\() *(.+?) *, *(.+?) *(\\]|\\)) *$", s);
        Self::from_captures(&null, &single, &pair)
    }
}

impl<T: TextKey> std::str::FromStr for Interval<T> {
    type Err = String;

    fn from_str(s: &str) -> (r: Result<Interval<T>, String>)
        ensures
            match r {
                Ok(iv) => interval_of_text::<T>(s@) == Ok::<Interval<T>, Seq<char>>(iv),
                Err(e) => interval_of_text::<T>(s@) == Err::<Interval<T>, Seq<char>>(e@),
            },
    {
        Interval::from_text(s)
    }
}

impl<T: SortKey> IntervalSeq<T> {
    /// The maximal intervals of the set, in ascending order: all that [IntervalSeq::intervals]
    /// hands out. Each is valid and not empty, together they hold the set, and a gap lies
    /// between any two of them.
    pub fn interval_list(&self) -> (r: Vec<Interval<T>>)
        ensures
            decomposes(r@, self@),
    {
        let mut it = self.intervals();
        let mut out: Vec<Interval<T>> = Vec::new();
        let ghost mut ivs: Seq<Interval<T>> = Seq::empty();
        loop
            invariant
                out@ == ivs,
                forall|i: int| 0 <= i < ivs.len() ==> nonempty_valid(#[trigger] ivs[i]),
                forall|d: int| #[trigger] self@.contains(d) <==> (it.rest().contains(d) || exists|i: int| 0 <= i < ivs.len() && ivs[i].holds(d)),
                forall|i: int, d: int| 0 <= i < ivs.len() && #[trigger] ivs[i].holds(d) ==> !it.rest().contains(d),
                forall|i: int, j: int, d: int, e: int|
                    #![trigger ivs[i].holds(d), ivs[j].holds(e)]
                    0 <= i < j < ivs.len() && ivs[i].holds(d) && ivs[j].holds(e) ==> d + 1 < e,
                forall|i: int, d: int, e: int| 0 <= i < ivs.len() && #[trigger] ivs[i].holds(d) && #[trigger] it.rest().contains(e) ==> d + 1 < e,
            ensures
                out@ == ivs,
                forall|i: int| 0 <= i < ivs.len() ==> nonempty_valid(#[trigger] ivs[i]),
                forall|d: int| #[trigger] self@.contains(d) <==> exists|i: int| 0 <= i < ivs.len() && ivs[i].holds(d),
                forall|i: int, j: int, d: int, e: int|
                    #![trigger ivs[i].holds(d), ivs[j].holds(e)]
                    0 <= i < j < ivs.len() && ivs[i].holds(d) && ivs[j].holds(e) ==> d + 1 < e,
            decreases it.steps(),
        {
            let ghost rest0 = it.rest();
            match it.next() {
                Some(iv) => {
                    out.push(iv);
                    proof {
                        let old_ivs = ivs;
                        ivs = ivs.push(iv);
                        assert forall|i: int, j: int, d: int, e: int|
                            #![trigger ivs[i].holds(d), ivs[j].holds(e)]
                            0 <= i < j < ivs.len() && ivs[i].holds(d) && ivs[j].holds(e) implies d + 1 < e by {
                            if j == ivs.len() - 1 {
                                assert(old_ivs[i].holds(d));
                                assert(rest0.contains(e));
                            } else {
                                assert(old_ivs[i].holds(d) && old_ivs[j].holds(e));
                            }
                        }
                        assert forall|i: int, d: int, e: int| 0 <= i < ivs.len() && #[trigger] ivs[i].holds(d)
                            && #[trigger] it.rest().contains(e) implies d + 1 < e by {
                            if i < ivs.len() - 1 {
                                assert(old_ivs[i].holds(d));
                                assert(rest0.contains(e));
                            }
                        }
                        assert forall|d: int| #[trigger] self@.contains(d) <==> (it.rest().contains(d) || exists|i: int| 0 <= i < ivs.len() && ivs[i].holds(d)) by {
                            if exists|i: int| 0 <= i < old_ivs.len() && old_ivs[i].holds(d) {
                                let i = choose|i: int| 0 <= i < old_ivs.len() && old_ivs[i].holds(d);
                                assert(ivs[i].holds(d));
                            }
                            if exists|i: int| 0 <= i < ivs.len() && ivs[i].holds(d) {
                                let i = choose|i: int| 0 <= i < ivs.len() && ivs[i].holds(d);
                                if i < old_ivs.len() {
                                    assert(old_ivs[i].holds(d));
                                }
                            }
                            if iv.holds(d) {
                                assert(ivs[ivs.len() - 1].holds(d));
                            }
                        }
                        assert forall|i: int, d: int| 0 <= i < ivs.len() && #[trigger] ivs[i].holds(d) implies !it.rest().contains(d) by {
                            if i < old_ivs.len() {
                                assert(old_ivs[i].holds(d));
                            }
                        }
                    }
                },
                None => {
                    break;
                },
            }
        }
        assert(decomposes(ivs, self@));
        out
    }
}

impl<T: TextKey> IntervalSeq<T> {
    /// The text form of the set: its maximal intervals in ascending order, joined by `; `.
    pub fn to_text(&self) -> (r: String)
        ensures
            exists|ivs: Seq<Interval<T>>|
                decomposes(ivs, self@) && r@ == join_texts(ivs.map_values(|iv: Interval<T>| interval_text(iv)), "; "@),
    {
        let ivs = self.interval_list();
        let mut text = String::new();
        let mut i: usize = 0;
        while i < ivs.len()
            invariant
                i <= ivs@.len(),
                text@ == join_texts(ivs@.take(i as int).map_values(|iv: Interval<T>| interval_text(iv)), "; "@),
            decreases ivs@.len() - i,
        {
            if i > 0 {
                text.append("; ");
            }
            text.append(ivs[i].to_text().as_str());
            proof {
                let m = ivs@.take(i + 1).map_values(|iv: Interval<T>| interval_text(iv));
                assert(m.drop_last() =~= ivs@.take(i as int).map_values(|iv: Interval<T>| interval_text(iv)));
                if i == 0 {
                    assert(ivs@.take(0).map_values(|iv: Interval<T>| interval_text(iv)) =~= Seq::<Seq<char>>::empty());
                }
            }
            i = i + 1;
        }
        assert(ivs@.take(ivs@.len() as int) =~= ivs@);
        text
    }

    /// The interval sequence that the text `s` describes: a union of intervals separated by
    /// `;`, or nothing but whitespace for the empty set. Any piece that is no interval makes it
    /// a parse error.
    pub fn from_text(s: &str) -> (r: Result<IntervalSeq<T>, String>)
        ensures
            trimmed(s@).len() == 0 ==> (r matches Ok(q) && q@ == Set::<int>::empty()),
            trimmed(s@).len() > 0 ==> {
                let pieces = split_pieces(s@, ';');
                if forall|i: int| 0 <= i < pieces.len() ==> #[trigger] interval_of_text::<T>(pieces[i]) is Ok {
                    (r matches Ok(q) && q@ == union_of_pieces::<T>(pieces))
                } else {
                    (r matches Err(e) && e@ == "Parse error"@)
                }
            },
    {
        let t = trim_text(s);
        if t.unicode_len() == 0 {
            return Ok(IntervalSeq::empty());
        }
        let pieces = split_text(s, ';');
        let ghost ps = pieces.deep_view();
        let mut acc: IntervalSeq<T> = IntervalSeq::empty();
        let mut i: usize = 0;
        while i < pieces.len()
            invariant
                ps == pieces.deep_view(),
                ps == split_pieces(s@, ';'),
                trimmed(s@).len() > 0,
                i <= pieces.len(),
                forall|j: int| 0 <= j < i ==> #[trigger] interval_of_text::<T>(ps[j]) is Ok,
                acc@ == Set::new(
                    |d: int|
                        exists|j: int|
                            0 <= j < i && #[trigger] piece_holds::<T>(ps[j], d),
                ),
            decreases pieces.len() - i,
        {
            let piece: &str = pieces[i];
            assert(piece@ == ps[i as int]);
            match Interval::<T>::from_text(piece) {
                Ok(iv) => {
                    let ghost before = acc@;
                    acc = acc.or(IntervalSeq::from_interval(iv));
                    proof {
                        assert(acc@ =~= Set::new(
                            |d: int|
                                exists|j: int|
                                    0 <= j < i + 1 && #[trigger] piece_holds::<T>(ps[j], d),
                        )) by {
                            assert forall|d: int| acc@.contains(d) == exists|j: int|
                                0 <= j < i + 1 && #[trigger] piece_holds::<T>(ps[j], d) by {
                                if iv.holds(d) {
                                    assert(piece_holds::<T>(ps[i as int], d));
                                }
                                if exists|j: int| 0 <= j < i + 1 && #[trigger] piece_holds::<T>(ps[j], d) {
                                    let j = choose|j: int| 0 <= j < i + 1 && #[trigger] piece_holds::<T>(ps[j], d);
                                    if j < i {
                                        assert(before.contains(d));
                                    }
                                }
                            }
                        }
                    }
                },
                Err(_) => {
                    proof {
                        assert(!(interval_of_text::<T>(ps[i as int]) is Ok));
                    }
                    return Err(String::from_str("Parse error"));
                },
            }
            i = i + 1;
        }
        assert(acc@ =~= union_of_pieces::<T>(split_pieces(s@, ';')));
        Ok(acc)
    }
}

impl<T: TextKey> std::str::FromStr for IntervalSeq<T> {
    type Err = String;

    fn from_str(s: &str) -> (r: Result<IntervalSeq<T>, String>)
        ensures
            trimmed(s@).len() == 0 ==> (r matches Ok(q) && q@ == Set::<int>::empty()),
            trimmed(s@).len() > 0 ==> {
                let pieces = split_pieces(s@, ';');
                if forall|i: int| 0 <= i < pieces.len() ==> #[trigger] interval_of_text::<T>(pieces[i]) is Ok {
                    (r matches Ok(q) && q@ == union_of_pieces::<T>(pieces))
                } else {
                    (r matches Err(e) && e@ == "Parse error"@)
                }
            },
    {
        IntervalSeq::from_text(s)
    }
}

} // verus!
