//! Character classes: which symbols a class lists, and what a symbol's class adds
//! to its score.
use vstd::prelude::*;

use std::collections::BTreeMap;

use crate::decoder::{rendered, rendered_text, Alphabet, AlphabetView};
use crate::error::{invalid, Error, ErrorView};
use crate::float::F64;
use crate::recospec::{classes_view, weights_view};
use crate::symbols::{no_places, place_of, set_place};
use crate::text::{
    chars_less, chars_of, lemma_text_less_total, lemma_text_less_transitive, same_text, text_less,
    text_of, texts_view, trim_chars, trimmed,
};

verus! {

/// `char::from_u32` gives the character of a code point, and none for a surrogate
/// or a number past the last code point.
pub assume_specification[ char::from_u32 ](i: u32) -> (r: Option<char>)
    ensures
        match r {
            Some(c) => is_scalar(i as nat) && c == i as char,
            None => !is_scalar(i as nat),
        },
;

/// Whether a number is the code of a character.
pub open spec fn is_scalar(n: nat) -> bool {
    n < 0xd800 || (0xe000 <= n && n <= 0x10ffff)
}

/// The value of a hexadecimal digit.
pub open spec fn hex_digit(c: char) -> Option<nat> {
    if '0' <= c && c <= '9' {
        Some((c as nat - 48) as nat)
    } else if 'a' <= c && c <= 'f' {
        Some((c as nat - 87) as nat)
    } else if 'A' <= c && c <= 'F' {
        Some((c as nat - 55) as nat)
    } else {
        None
    }
}

fn digit_of(c: char) -> (r: Option<u32>)
    ensures
        match r {
            Some(d) => hex_digit(c) == Some(d as nat) && d < 16,
            None => hex_digit(c) is None,
        },
{
    let code: u32 = c as u32;
    if '0' <= c && c <= '9' {
        Some(code - 48)
    } else if 'a' <= c && c <= 'f' {
        Some(code - 87)
    } else if 'A' <= c && c <= 'F' {
        Some(code - 55)
    } else {
        None
    }
}

/// Whether a text is a run of hexadecimal digits with single underscores between
/// them.
pub open spec fn is_numeral(s: Seq<char>) -> bool {
    &&& s.len() > 0
    &&& hex_digit(s.last()) is Some
    &&& fits_numeral(s)
}

/// Whether every character is a digit, or an underscore behind a digit.
pub open spec fn fits_numeral(s: Seq<char>) -> bool {
    forall|i: int|
        #![trigger s[i]]
        0 <= i < s.len() ==> hex_digit(s[i]) is Some || (s[i] == '_' && i > 0 && hex_digit(
            s[i - 1],
        ) is Some)
}

/// The value of the digits of a text.
pub open spec fn hex_value(s: Seq<char>) -> nat
    decreases s.len(),
{
    if s.len() == 0 {
        0
    } else {
        match hex_digit(s.last()) {
            Some(d) => 16 * hex_value(s.drop_last()) + d,
            None => hex_value(s.drop_last()),
        }
    }
}

/// What follows the sign and the prefix of a hexadecimal number.
pub open spec fn hex_body(s: Seq<char>) -> Seq<char> {
    let s = trimmed(s);
    let s = if s.len() > 0 && s[0] == '+' {
        s.skip(1)
    } else {
        s
    };
    if s.len() >= 2 && s[0] == '0' && (s[1] == 'x' || s[1] == 'X') {
        if s.len() >= 3 && s[2] == '_' {
            s.skip(3)
        } else {
            s.skip(2)
        }
    } else {
        s
    }
}

/// The hexadecimal number that a text writes, if it writes one below 2^32.
pub open spec fn hex_number(s: Seq<char>) -> Option<u32> {
    let body = hex_body(s);
    if is_numeral(body) && hex_value(body) <= u32::MAX {
        Some(hex_value(body) as u32)
    } else {
        None
    }
}

proof fn lemma_hex_value_grows(s: Seq<char>, i: int)
    requires
        0 <= i <= s.len(),
    ensures
        hex_value(s.take(i)) <= hex_value(s),
    decreases s.len(),
{
    if i < s.len() {
        lemma_hex_value_grows(s.drop_last(), i);
        assert(s.drop_last().take(i) =~= s.take(i));
    } else {
        assert(s.take(i) =~= s);
    }
}

/// Reads a hexadecimal number: white space around it, one plus sign, a `0x` and
/// single underscores between digits are allowed.
pub fn parse_hex(text: &[char]) -> (r: Option<u32>)
    ensures
        r == hex_number(text@),
{
    let s: Vec<char> = trim_chars(text);
    let ghost whole = s@;
    let mut from: usize = 0;
    if s.len() > 0 && s[0] == '+' {
        from = 1;
    }
    let ghost unsigned = whole.skip(from as int);
    assert(from == 0 ==> unsigned =~= whole);
    if s.len() - from >= 2 && s[from] == '0' && (s[from + 1] == 'x' || s[from + 1] == 'X') {
        if s.len() - from >= 3 && s[from + 2] == '_' {
            assert(unsigned.skip(3) =~= whole.skip(from + 3));
            from = from + 3;
        } else {
            assert(unsigned.skip(2) =~= whole.skip(from + 2));
            from = from + 2;
        }
    }
    let ghost body = whole.skip(from as int);
    assert(body == hex_body(text@));
    let mut value: u32 = 0;
    let mut digit: bool = false;
    let mut i: usize = from;
    assert(body.take(0) =~= Seq::empty());
    while i < s.len()
        invariant
            from <= i <= s@.len(),
            whole == s@,
            body == whole.skip(from as int),
            body == hex_body(text@),
            value == hex_value(body.take(i - from)),
            digit == (i > from && hex_digit(body[i - from - 1]) is Some),
            fits_numeral(body.take(i - from)),
        decreases s@.len() - i,
    {
        let c: char = s[i];
        let ghost k = i - from;
        assert(body[k] == c);
        assert(body.take(k + 1).drop_last() =~= body.take(k));
        if c == '_' && digit {
            digit = false;
        } else {
            match digit_of(c) {
                None => {
                    proof {
                        assert(!fits_numeral(body)) by {
                            assert(body[k] == c);
                        }
                    }
                    return None;
                },
                Some(d) => {
                    if value > (u32::MAX - d) / 16 {
                        proof {
                            lemma_hex_value_grows(body, k + 1);
                        }
                        return None;
                    }
                    value = value * 16 + d;
                    digit = true;
                },
            }
        }
        i += 1;
        proof {
            let longer = body.take(k + 1);
            assert forall|j: int|
                #![trigger longer[j]]
                0 <= j < longer.len() implies hex_digit(longer[j]) is Some || (longer[j] == '_'
                && j > 0 && hex_digit(longer[j - 1]) is Some) by {
                if j < k {
                    assert(body.take(k)[j] == longer[j]);
                    if j > 0 {
                        assert(body.take(k)[j - 1] == longer[j - 1]);
                    }
                }
            }
        }
    }
    assert(body.take(i - from) =~= body);
    if digit {
        Some(value)
    } else {
        None
    }
}

/// The characters whose codes lie in a range.
pub open spec fn chars_between(lo: nat, hi: nat) -> Seq<char>
    decreases hi + 1 - lo,
{
    if lo > hi {
        Seq::empty()
    } else {
        let before = if hi == 0 {
            Seq::empty()
        } else {
            chars_between(lo, (hi - 1) as nat)
        };
        if is_scalar(hi) {
            before.push(hi as char)
        } else {
            before
        }
    }
}

/// Where two closing brackets stand from a place on.
pub open spec fn closing(s: Seq<char>, i: int) -> Option<int>
    decreases s.len() - i,
{
    if i < 0 || i + 1 >= s.len() {
        None
    } else if s[i] == ']' && s[i + 1] == ']' {
        Some(i)
    } else {
        closing(s, i + 1)
    }
}

/// The range of codes that a bracket's body names.
pub open spec fn code_range(body: Seq<char>) -> Option<(u32, u32)> {
    let dash = body.index_of_first('-');
    let lo = if dash is Some {
        body.take(dash->0)
    } else {
        body
    };
    let hi = if dash is Some {
        body.skip(dash->0 + 1)
    } else {
        Seq::empty()
    };
    let start = hex_number(lo);
    let stop = if hi.len() == 0 {
        start
    } else {
        hex_number(hi)
    };
    if start is Some && stop is Some && start->0 <= stop->0 && stop->0 <= 0x10ffff {
        Some((start->0, stop->0))
    } else {
        None
    }
}

/// The bracket expression at a place: its range, and where it ends.
pub open spec fn bracket_at(s: Seq<char>, i: int) -> Option<((u32, u32), int)> {
    if i + 1 < s.len() && s[i] == '[' && s[i + 1] == '[' {
        match closing(s, i + 2) {
            None => None,
            Some(close) => match code_range(s.subrange(i + 2, close)) {
                None => None,
                Some(range) => Some((range, close + 2)),
            },
        }
    } else {
        None
    }
}

/// The members that a class line lists from a place on: bracket expressions by
/// their ranges, all other characters as they stand.
pub open spec fn members_from(s: Seq<char>, i: int) -> Seq<char>
    decreases s.len() - i,
    via members_from_decreases
{
    if i < 0 || i >= s.len() {
        Seq::empty()
    } else {
        match bracket_at(s, i) {
            Some((range, next)) => chars_between(range.0 as nat, range.1 as nat) + members_from(
                s,
                next,
            ),
            None => seq![s[i]] + members_from(s, i + 1),
        }
    }
}

#[via_fn]
proof fn members_from_decreases(s: Seq<char>, i: int) {
    lemma_closing(s, i + 2);
}

proof fn lemma_closing(s: Seq<char>, i: int)
    ensures
        closing(s, i) is Some ==> i <= closing(s, i)->0 && closing(s, i)->0 + 1 < s.len(),
    decreases s.len() - i,
{
    if 0 <= i && i + 1 < s.len() && !(s[i] == ']' && s[i + 1] == ']') {
        lemma_closing(s, i + 1);
    }
}

fn find_closing(s: &[char], from: usize) -> (r: Option<usize>)
    ensures
        match (r, closing(s@, from as int)) {
            (Some(i), Some(j)) => i == j && from <= i && i + 1 < s@.len(),
            (None, None) => true,
            _ => false,
        },
{
    let mut i: usize = from;
    while i < s.len() && s.len() - i > 1
        invariant
            from <= i,
            closing(s@, from as int) == closing(s@, i as int),
        decreases s@.len() - i,
    {
        if s[i] == ']' && s[i + 1] == ']' {
            return Some(i);
        }
        i += 1;
    }
    None
}

fn find_dash(s: &[char], lo: usize, hi: usize) -> (r: Option<usize>)
    requires
        lo <= hi <= s@.len(),
    ensures
        match (r, s@.subrange(lo as int, hi as int).index_of_first('-')) {
            (Some(i), Some(j)) => lo <= i < hi && i == lo + j,
            (None, None) => true,
            _ => false,
        },
{
    let ghost body = s@.subrange(lo as int, hi as int);
    let mut i: usize = lo;
    while i < hi
        invariant
            lo <= i <= hi <= s@.len(),
            body == s@.subrange(lo as int, hi as int),
            forall|k: int| 0 <= k < i - lo ==> body[k] != '-',
        decreases hi - i,
    {
        if s[i] == '-' {
            proof {
                assert(body[i - lo] == '-');
                body.index_of_first_ensures('-');
            }
            return Some(i);
        }
        assert(body[i - lo] != '-');
        i += 1;
    }
    proof {
        body.index_of_first_ensures('-');
    }
    None
}

fn read_range(s: &[char], lo: usize, hi: usize) -> (r: Option<(u32, u32)>)
    requires
        lo <= hi <= s@.len(),
    ensures
        r == code_range(s@.subrange(lo as int, hi as int)),
{
    let ghost body = s@.subrange(lo as int, hi as int);
    let dash: Option<usize> = find_dash(s, lo, hi);
    let middle: usize = match dash {
        Some(d) => d,
        None => hi,
    };
    let start: Option<u32> = parse_hex(vstd::slice::slice_subrange(s, lo, middle));
    proof {
        if dash is Some {
            assert(s@.subrange(lo as int, middle as int) =~= body.take(middle - lo));
            assert(s@.subrange(middle + 1, hi as int) =~= body.skip(middle - lo + 1));
        }
    }
    let stop: Option<u32> = if hi - middle > 1 {
        parse_hex(vstd::slice::slice_subrange(s, middle + 1, hi))
    } else {
        start
    };
    match (start, stop) {
        (Some(a), Some(b)) => if a <= b && b <= 0x10ffff {
            Some((a, b))
        } else {
            None
        },
        _ => None,
    }
}

fn push_range(out: &mut Vec<char>, lo: u32, hi: u32)
    requires
        lo <= hi <= 0x10ffff,
    ensures
        final(out)@ == old(out)@ + chars_between(lo as nat, hi as nat),
{
    let ghost before = out@;
    let mut n: u32 = lo;
    proof {
        if lo > 0 {
            assert(chars_between(lo as nat, (lo - 1) as nat) =~= Seq::empty());
        }
    }
    while n <= hi
        invariant
            lo <= n <= hi + 1,
            hi <= 0x10ffff,
            n == 0 ==> out@ =~= before,
            n > 0 ==> out@ =~= before + chars_between(lo as nat, (n - 1) as nat),
        decreases hi + 1 - n,
    {
        match char::from_u32(n) {
            Some(c) => out.push(c),
            None => {},
        }
        n += 1;
    }
}

/// The characters that a class line lists. A bracket expression that does not
/// read stays literal, and one inside it may still read.
pub fn expand_class_members(text: &str) -> (r: Vec<char>)
    ensures
        r@ == members_from(text@, 0),
{
    let s: Vec<char> = chars_of(text);
    let mut out: Vec<char> = Vec::new();
    let mut i: usize = 0;
    while i < s.len()
        invariant
            i <= s@.len(),
            s@ == text@,
            members_from(text@, 0) == out@ + members_from(text@, i as int),
        decreases s@.len() - i,
    {
        let ghost before = out@;
        let mut range: Option<(u32, u32)> = None;
        let mut next: usize = i + 1;
        if s.len() - i > 1 && s[i] == '[' && s[i + 1] == '[' {
            if let Some(close) = find_closing(s.as_slice(), i + 2) {
                range = read_range(s.as_slice(), i + 2, close);
                if range.is_some() {
                    next = close + 2;
                }
            }
        }
        match range {
            Some((lo, hi)) => {
                assert(bracket_at(text@, i as int) == Some(((lo, hi), next as int)));
                push_range(&mut out, lo, hi);
                assert(out@ + members_from(text@, next as int) =~= before + (chars_between(
                    lo as nat,
                    hi as nat,
                ) + members_from(text@, next as int)));
            },
            None => {
                assert(bracket_at(text@, i as int) is None);
                out.push(s[i]);
                assert(out@ + members_from(text@, next as int) =~= before + (seq![s@[i as int]]
                    + members_from(text@, next as int)));
            },
        }
        i = next;
    }
    assert(out@ + members_from(text@, i as int) =~= out@);
    out
}

/// The weight that stands last under a name.
pub open spec fn last_weight(weights: Seq<(Seq<char>, F64)>, name: Seq<char>) -> Option<F64>
    decreases weights.len(),
{
    if weights.len() == 0 {
        None
    } else if weights.last().0 == name {
        Some(weights.last().1)
    } else {
        last_weight(weights.drop_last(), name)
    }
}

/// A name up to its first underscore, which stays.
pub open spec fn stem(name: Seq<char>) -> Seq<char> {
    match name.index_of_first('_') {
        Some(i) => name.take(i + 1),
        None => name,
    }
}

/// The last class that lists a character.
pub open spec fn holder(classes: Seq<(Seq<char>, Seq<char>)>, c: char) -> Option<int>
    decreases classes.len(),
{
    if classes.len() == 0 {
        None
    } else if members_from(classes.last().1, 0).contains(c) {
        Some(classes.len() - 1)
    } else {
        holder(classes.drop_last(), c)
    }
}

/// The class of a symbol: that of its only character, if some class lists it.
pub open spec fn class_of(classes: Seq<(Seq<char>, Seq<char>)>, text: Seq<char>) -> Seq<char> {
    if text.len() == 1 && holder(classes, text[0]) is Some {
        stem(classes[holder(classes, text[0])->0].0)
    } else {
        "no_char_class"@
    }
}

/// What a class adds: its weight, or zero.
pub open spec fn class_score(
    classes: Seq<(Seq<char>, Seq<char>)>,
    weights: Seq<(Seq<char>, F64)>,
    text: Seq<char>,
) -> F64 {
    match last_weight(weights, class_of(classes, rendered_text(text))) {
        Some(w) => w,
        None => F64 { bits: 0 },
    }
}

/// What a label's class adds: that of the last symbol with the label, or zero.
pub open spec fn label_score(
    classes: Seq<(Seq<char>, Seq<char>)>,
    weights: Seq<(Seq<char>, F64)>,
    labels: Seq<u32>,
    texts: Seq<Seq<char>>,
    label: u32,
) -> F64
    decreases labels.len(),
{
    if labels.len() == 0 || texts.len() == 0 {
        F64 { bits: 0 }
    } else if labels.last() == label {
        class_score(classes, weights, texts.last())
    } else {
        label_score(classes, weights, labels.drop_last(), texts.drop_last(), label)
    }
}

/// The names of the classes whose line is bare, in order.
pub open spec fn bare_names(classes: Seq<(Seq<char>, Seq<char>)>) -> Seq<Seq<char>>
    decreases classes.len(),
{
    if classes.len() == 0 {
        Seq::empty()
    } else {
        let before = bare_names(classes.drop_last());
        if classes.last().1.len() == 0 {
            before.push(classes.last().0)
        } else {
            before
        }
    }
}

/// Whether some class with members has a stem.
pub open spec fn contributes(classes: Seq<(Seq<char>, Seq<char>)>, name: Seq<char>) -> bool {
    exists|i: int|
        0 <= i < classes.len() && (#[trigger] classes[i]).1.len() > 0 && stem(classes[i].0)
            == name
}

/// Whether a weight is named, but no class with members has its name.
pub open spec fn is_unmapped(
    classes: Seq<(Seq<char>, Seq<char>)>,
    weights: Seq<(Seq<char>, F64)>,
    name: Seq<char>,
) -> bool {
    &&& name != "no_char_class"@
    &&& exists|i: int| 0 <= i < weights.len() && (#[trigger] weights[i]).0 == name
    &&& !contributes(classes, name)
}

/// Texts in strictly rising order.
pub open spec fn rising(texts: Seq<Seq<char>>) -> bool {
    forall|i: int, j: int|
        0 <= i < j < texts.len() ==> text_less(#[trigger] texts[i], #[trigger] texts[j])
}

/// The greatest label.
pub open spec fn greatest(labels: Seq<u32>) -> nat
    decreases labels.len(),
{
    if labels.len() == 0 {
        0
    } else {
        let before = greatest(labels.drop_last());
        if labels.last() as nat > before {
            labels.last() as nat
        } else {
            before
        }
    }
}

/// What is wrong with the tables of a scorer.
pub open spec fn tables_problem(
    weights: Seq<(Seq<char>, F64)>,
    alphabet: AlphabetView,
) -> Option<Seq<char>> {
    if alphabet.labels.len() != alphabet.texts.len() {
        Some("alphabet labels and texts have different lengths"@)
    } else if exists|i: int|
        0 <= i < weights.len() && !last_weight(weights, (#[trigger] weights[i]).0)->0.finite() {
        Some("character-class weights must be finite"@)
    } else if alphabet.labels.len() > 0 && greatest(alphabet.labels) + 1 > usize::MAX {
        Some("FST label is too large"@)
    } else {
        None
    }
}

/// Whether a scorer is that of class lines and weights for an alphabet.
pub open spec fn is_scorer(
    s: CharClassScorer,
    classes: Seq<(Seq<char>, Seq<char>)>,
    weights: Seq<(Seq<char>, F64)>,
    alphabet: AlphabetView,
) -> bool {
    &&& s.scores@.len() == (if alphabet.labels.len() == 0 {
        0
    } else {
        greatest(alphabet.labels) + 1
    })
    &&& forall|label: u32|
        label < s.scores@.len() ==> #[trigger] s.scores@[label as int] == label_score(
            classes,
            weights,
            alphabet.labels,
            alphabet.texts,
            label,
        )
    &&& texts_view(s.empty_classes@) == bare_names(classes)
    &&& rising(texts_view(s.unmapped_weights@))
    &&& forall|name: Seq<char>| #[trigger]
        texts_view(s.unmapped_weights@).contains(name) == is_unmapped(classes, weights, name)
}

/// Per-label class scores built from the explicit membership table. There is no
/// upper or lower case heuristic: lookup is by whole symbol, and a symbol that
/// misses falls back to `no_char_class`.
#[derive(Debug, Clone, PartialEq)]
pub struct CharClassScorer {
    /// Score per label, densely indexed. Beam search hits this millions of times
    /// per decode, so it is a flat array rather than a map.
    pub scores: Vec<F64>,
    /// Classes whose line was bare, so they contributed no members.
    pub empty_classes: Vec<String>,
    /// Weights naming a class no line ever populated.
    pub unmapped_weights: Vec<String>,
}

impl Default for CharClassScorer {
    fn default() -> (r: Self)
        ensures
            r.scores@.len() == 0,
            r.empty_classes@.len() == 0,
            r.unmapped_weights@.len() == 0,
    {
        CharClassScorer {
            scores: Vec::new(),
            empty_classes: Vec::new(),
            unmapped_weights: Vec::new(),
        }
    }
}

/// The number that stands for a character.
spec fn place_in(m: Map<u32, usize>, c: char) -> Option<int> {
    if m.contains_key(c as u32) {
        Some(m[c as u32] as int)
    } else {
        None
    }
}

/// Whether a table of places tells each character's class.
spec fn tells_holders(m: Map<u32, usize>, classes: Seq<(Seq<char>, Seq<char>)>) -> bool {
    forall|c: char| #[trigger] place_in(m, c) == holder(classes, c)
}

proof fn lemma_holder_range(classes: Seq<(Seq<char>, Seq<char>)>, c: char)
    ensures
        holder(classes, c) is Some ==> 0 <= holder(classes, c)->0 < classes.len(),
    decreases classes.len(),
{
    if classes.len() > 0 {
        lemma_holder_range(classes.drop_last(), c);
    }
}

proof fn lemma_codes_differ(c: char, d: char)
    requires
        c != d,
    ensures
        c as u32 != d as u32,
{
    assert(0 <= c as int <= 0x10ffff);
    assert(0 <= d as int <= 0x10ffff);
}

fn add_members(m: &mut BTreeMap<u32, usize>, members: &[char], place: usize)
    ensures
        forall|c: char| #[trigger]
            place_in(final(m)@, c) == (if members@.contains(c) {
                Some(place as int)
            } else {
                place_in(old(m)@, c)
            }),
{
    let ghost before = m@;
    let mut j: usize = 0;
    while j < members.len()
        invariant
            j <= members@.len(),
            forall|c: char| #[trigger]
                place_in(m@, c) == (if members@.take(j as int).contains(c) {
                    Some(place as int)
                } else {
                    place_in(before, c)
                }),
        decreases members@.len() - j,
    {
        let c: char = members[j];
        let ghost earlier = m@;
        let ghost shorter = members@.take(j as int);
        let ghost longer = members@.take(j + 1);
        set_place(m, c as u32, place);
        proof {
            assert(longer =~= shorter.push(c));
            assert forall|d: char| #[trigger]
                place_in(m@, d) == (if longer.contains(d) {
                    Some(place as int)
                } else {
                    place_in(before, d)
                }) by {
                assert(place_in(earlier, d) == (if shorter.contains(d) {
                    Some(place as int)
                } else {
                    place_in(before, d)
                }));
                if shorter.contains(d) {
                    let i = shorter.index_of(d);
                    assert(longer[i] == d);
                }
                if d == c {
                    assert(longer[j as int] == d);
                } else {
                    lemma_codes_differ(c, d);
                    assert(place_in(m@, d) == place_in(earlier, d));
                    if longer.contains(d) {
                        let i = longer.index_of(d);
                        assert(shorter[i] == d);
                    }
                }
            }
        }
        j += 1;
    }
    assert(members@.take(j as int) =~= members@);
}

fn memberships(classes: &[(String, String)]) -> (m: BTreeMap<u32, usize>)
    ensures
        tells_holders(m@, classes_view(classes@)),
{
    let ghost all = classes_view(classes@);
    let mut m: BTreeMap<u32, usize> = no_places();
    let mut k: usize = 0;
    while k < classes.len()
        invariant
            k <= classes@.len(),
            all == classes_view(classes@),
            tells_holders(m@, all.take(k as int)),
        decreases classes@.len() - k,
    {
        let ghost before = m@;
        let members: Vec<char> = expand_class_members(classes[k].1.as_str());
        add_members(&mut m, members.as_slice(), k);
        proof {
            let longer = all.take(k + 1);
            assert(longer.drop_last() =~= all.take(k as int));
            assert(longer.last() == all[k as int]);
            assert forall|c: char| #[trigger] place_in(m@, c) == holder(longer, c) by {
                assert(place_in(before, c) == holder(all.take(k as int), c));
            }
        }
        k += 1;
    }
    assert(all.take(k as int) =~= all);
    m
}

fn find_weight(weights: &[(String, F64)], name: &str) -> (r: Option<F64>)
    ensures
        r == last_weight(weights_view(weights@), name@),
{
    let ghost all = weights_view(weights@);
    let mut k: usize = weights.len();
    assert(all.take(k as int) =~= all);
    while k > 0
        invariant
            k <= weights@.len(),
            all == weights_view(weights@),
            last_weight(all, name@) == last_weight(all.take(k as int), name@),
        decreases k,
    {
        assert(all.take(k as int).drop_last() =~= all.take(k - 1));
        assert(all.take(k as int).last() == all[k - 1]);
        if same_text(weights[k - 1].0.as_str(), name) {
            return Some(weights[k - 1].1);
        }
        k -= 1;
    }
    None
}

fn stem_of(name: &str) -> (r: String)
    ensures
        r@ == stem(name@),
{
    let s: Vec<char> = chars_of(name);
    let mut i: usize = 0;
    while i < s.len()
        invariant
            i <= s@.len(),
            s@ == name@,
            forall|k: int| 0 <= k < i ==> s@[k] != '_',
        decreases s@.len() - i,
    {
        if s[i] == '_' {
            proof {
                s@.index_of_first_ensures('_');
                assert(s@.contains('_'));
                assert(s@.subrange(0, i + 1) =~= s@.take(i + 1));
            }
            return text_of(vstd::slice::slice_subrange(s.as_slice(), 0, i + 1));
        }
        i += 1;
    }
    proof {
        s@.index_of_first_ensures('_');
    }
    text_of(s.as_slice())
}

fn is_contributing(classes: &[(String, String)], name: &str) -> (r: bool)
    ensures
        r == contributes(classes_view(classes@), name@),
{
    let ghost all = classes_view(classes@);
    let mut i: usize = 0;
    while i < classes.len()
        invariant
            i <= classes@.len(),
            all == classes_view(classes@),
            forall|k: int| 0 <= k < i ==> !((#[trigger] all[k]).1.len() > 0 && stem(all[k].0) == name@),
        decreases classes@.len() - i,
    {
        assert(all[i as int] == (classes@[i as int].0@, classes@[i as int].1@));
        if chars_of(classes[i].1.as_str()).len() > 0 && same_text(
            stem_of(classes[i].0.as_str()).as_str(),
            name,
        ) {
            return true;
        }
        i += 1;
    }
    false
}

fn bare(classes: &[(String, String)]) -> (r: Vec<String>)
    ensures
        texts_view(r@) == bare_names(classes_view(classes@)),
{
    let ghost all = classes_view(classes@);
    let mut out: Vec<String> = Vec::new();
    let mut i: usize = 0;
    assert(texts_view(out@) =~= bare_names(all.take(0)));
    while i < classes.len()
        invariant
            i <= classes@.len(),
            all == classes_view(classes@),
            texts_view(out@) == bare_names(all.take(i as int)),
        decreases classes@.len() - i,
    {
        let ghost before = texts_view(out@);
        assert(all.take(i + 1).drop_last() =~= all.take(i as int));
        assert(all.take(i + 1).last() == (classes@[i as int].0@, classes@[i as int].1@));
        if chars_of(classes[i].1.as_str()).len() == 0 {
            out.push(String::from_str(classes[i].0.as_str()));
            assert(texts_view(out@) =~= before.push(classes@[i as int].0@));
        }
        i += 1;
    }
    assert(all.take(i as int) =~= all);
    out
}

/// Puts a text in its place among rising ones, unless it is there.
fn insert_rising(texts: &mut Vec<String>, name: &str)
    requires
        rising(texts_view(old(texts)@)),
    ensures
        rising(texts_view(final(texts)@)),
        forall|t: Seq<char>| #[trigger]
            texts_view(final(texts)@).contains(t) == (texts_view(old(texts)@).contains(t) || t
                == name@),
{
    let ghost before = texts_view(texts@);
    let chars: Vec<char> = chars_of(name);
    let mut i: usize = 0;
    while i < texts.len() && chars_less(chars_of(texts[i].as_str()).as_slice(), chars.as_slice())
        invariant
            i <= texts@.len(),
            chars@ == name@,
            before == texts_view(texts@),
            forall|k: int| 0 <= k < i ==> text_less(#[trigger] before[k], name@),
        decreases texts@.len() - i,
    {
        i += 1;
    }
    if i < texts.len() && same_text(texts[i].as_str(), name) {
        assert(before[i as int] == name@);
        return ;
    }
    texts.insert(i, String::from_str(name));
    proof {
        let after = texts_view(texts@);
        assert(after =~= before.insert(i as int, name@));
        if i < before.len() {
            lemma_text_less_total(before[i as int], name@);
        }
        assert forall|a: int, b: int| 0 <= a < b < after.len() implies text_less(
            #[trigger] after[a],
            #[trigger] after[b],
        ) by {
            let x = if a < i { a } else { a - 1 };
            let y = if b < i { b } else { b - 1 };
            if a == i {
                if y > i {
                    assert(text_less(before[i as int], before[y]));
                    lemma_text_less_transitive(name@, before[i as int], before[y]);
                }
            } else if b == i {
                assert(text_less(before[a], name@));
            } else {
                assert(text_less(before[x], before[y]));
            }
        }
        assert forall|t: Seq<char>| #[trigger]
            after.contains(t) == (before.contains(t) || t == name@) by {
            if before.contains(t) {
                let k = before.index_of(t);
                if k < i {
                    assert(after[k] == t);
                } else {
                    assert(after[k + 1] == t);
                }
            }
            if t == name@ {
                assert(after[i as int] == t);
            }
            if after.contains(t) && t != name@ {
                let k = after.index_of(t);
                if k < i {
                    assert(before[k] == t);
                } else {
                    assert(before[k - 1] == t);
                }
            }
        }
    }
}

fn unmapped(classes: &[(String, String)], weights: &[(String, F64)]) -> (r: Vec<String>)
    ensures
        rising(texts_view(r@)),
        forall|name: Seq<char>| #[trigger]
            texts_view(r@).contains(name) == is_unmapped(
                classes_view(classes@),
                weights_view(weights@),
                name,
            ),
{
    let ghost lines = classes_view(classes@);
    let ghost all = weights_view(weights@);
    let mut out: Vec<String> = Vec::new();
    let mut i: usize = 0;
    assert(texts_view(out@) =~= Seq::empty());
    while i < weights.len()
        invariant
            i <= weights@.len(),
            lines == classes_view(classes@),
            all == weights_view(weights@),
            rising(texts_view(out@)),
            forall|name: Seq<char>| #[trigger]
                texts_view(out@).contains(name) == is_unmapped(
                    lines,
                    all.take(i as int),
                    name,
                ),
        decreases weights@.len() - i,
    {
        let ghost before = texts_view(out@);
        let ghost shorter = all.take(i as int);
        let ghost longer = all.take(i + 1);
        let name: &str = weights[i].0.as_str();
        if !same_text(name, "no_char_class") && !is_contributing(classes, name) {
            insert_rising(&mut out, name);
        }
        proof {
            assert(longer[i as int].0 == name@);
            assert forall|n: Seq<char>| #[trigger]
                texts_view(out@).contains(n) == is_unmapped(lines, longer, n) by {
                assert(before.contains(n) == is_unmapped(lines, shorter, n));
                if exists|k: int| 0 <= k < shorter.len() && (#[trigger] shorter[k]).0 == n {
                    let k = choose|k: int| 0 <= k < shorter.len() && (#[trigger] shorter[k]).0 == n;
                    assert(longer[k].0 == n);
                }
                if exists|k: int| 0 <= k < longer.len() && (#[trigger] longer[k]).0 == n {
                    let k = choose|k: int| 0 <= k < longer.len() && (#[trigger] longer[k]).0 == n;
                    if k < i {
                        assert(shorter[k].0 == n);
                    }
                }
            }
        }
        i += 1;
    }
    assert(all.take(i as int) =~= all);
    out
}

fn weights_finite(weights: &[(String, F64)]) -> (r: bool)
    ensures
        r == !exists|i: int|
            0 <= i < weights@.len() && !last_weight(
                weights_view(weights@),
                (#[trigger] weights_view(weights@)[i]).0,
            )->0.finite(),
{
    let ghost all = weights_view(weights@);
    let mut i: usize = 0;
    while i < weights.len()
        invariant
            i <= weights@.len(),
            all == weights_view(weights@),
            forall|k: int| 0 <= k < i ==> last_weight(all, (#[trigger] all[k]).0)->0.finite(),
        decreases weights@.len() - i,
    {
        assert(all[i as int].0 == weights@[i as int].0@);
        proof {
            lemma_named(all, i as int);
        }
        if let Some(w) = find_weight(weights, weights[i].0.as_str()) {
            if !w.is_finite() {
                return false;
            }
        }
        i += 1;
    }
    true
}

proof fn lemma_named(weights: Seq<(Seq<char>, F64)>, i: int)
    requires
        0 <= i < weights.len(),
    ensures
        last_weight(weights, weights[i].0) is Some,
    decreases weights.len(),
{
    if weights.last().0 != weights[i].0 {
        lemma_named(weights.drop_last(), i);
        assert(weights.drop_last()[i] == weights[i]);
    }
}

fn greatest_label(labels: &[u32]) -> (r: u32)
    ensures
        r == greatest(labels@),
        forall|i: int| 0 <= i < labels@.len() ==> labels@[i] <= r,
{
    let mut best: u32 = 0;
    let mut i: usize = 0;
    while i < labels.len()
        invariant
            i <= labels@.len(),
            best == greatest(labels@.take(i as int)),
            forall|k: int| 0 <= k < i ==> labels@[k] <= best,
        decreases labels@.len() - i,
    {
        assert(labels@.take(i + 1).drop_last() =~= labels@.take(i as int));
        if labels[i] > best {
            best = labels[i];
        }
        i += 1;
    }
    assert(labels@.take(i as int) =~= labels@);
    best
}

impl CharClassScorer {
    /// Zero for any label outside the table.
    pub fn score_for_label(&self, label: u32) -> (r: F64)
        ensures
            r == (if label < self.scores@.len() {
                self.scores@[label as int]
            } else {
                F64 { bits: 0 }
            }),
    {
        if (label as u64) < self.scores.len() as u64 {
            self.scores[label as usize]
        } else {
            F64 { bits: 0 }
        }
    }

    /// A bare line is skipped entirely; a suffixed name is cut behind its first
    /// underscore (`upper_be` becomes `upper_`); of overlapping memberships the
    /// last holds; a class with no weight scores zero.
    pub fn from_tables(
        classes: &[(String, String)],
        weights: &[(String, F64)],
        alphabet: &Alphabet,
    ) -> (r: Result<Self, Error>)
        ensures
            match (r, tables_problem(weights_view(weights@), alphabet@)) {
                (Ok(s), None) => is_scorer(
                    s,
                    classes_view(classes@),
                    weights_view(weights@),
                    alphabet@,
                ),
                (Err(e), Some(g)) => e@ == ErrorView::Invalid(g),
                _ => false,
            },
    {
        let ghost lines = classes_view(classes@);
        let ghost all = weights_view(weights@);
        if alphabet.labels.len() != alphabet.texts.len() {
            return Err(invalid("alphabet labels and texts have different lengths"));
        }
        if !weights_finite(weights) {
            return Err(invalid("character-class weights must be finite"));
        }
        let m: BTreeMap<u32, usize> = memberships(classes);
        let top: u32 = greatest_label(alphabet.labels.as_slice());
        if alphabet.labels.len() > 0 && top as u64 > (usize::MAX - 1) as u64 {
            return Err(invalid("FST label is too large"));
        }
        let len: usize = if alphabet.labels.len() == 0 {
            0
        } else {
            top as usize + 1
        };
        let mut scores: Vec<F64> = Vec::new();
        let mut i: usize = 0;
        while i < len
            invariant
                i <= len,
                scores@.len() == i,
                forall|k: int| 0 <= k < i ==> scores@[k] == (F64 { bits: 0 }),
            decreases len - i,
        {
            scores.push(F64 { bits: 0 });
            i += 1;
        }
        let ghost labels = alphabet@.labels;
        let ghost texts = alphabet@.texts;
        let mut k: usize = 0;
        while k < alphabet.labels.len()
            invariant
                k <= alphabet.labels@.len(),
                alphabet.labels@.len() == alphabet.texts@.len(),
                labels == alphabet@.labels,
                texts == alphabet@.texts,
                lines == classes_view(classes@),
                all == weights_view(weights@),
                tells_holders(m@, lines),
                scores@.len() == len,
                forall|j: int| 0 <= j < labels.len() ==> labels[j] < len,
                forall|label: u32|
                    label < len ==> #[trigger] scores@[label as int] == label_score(
                        lines,
                        all,
                        labels.take(k as int),
                        texts.take(k as int),
                        label,
                    ),
            decreases alphabet.labels@.len() - k,
        {
            let text: &str = rendered(alphabet.texts[k].as_str());
            let class: String = class_name(classes, &m, text);
            let score: F64 = match find_weight(weights, class.as_str()) {
                Some(w) => w,
                None => F64 { bits: 0 },
            };
            assert(labels[k as int] < len);
            let ghost before = scores@;
            scores.set(alphabet.labels[k] as usize, score);
            proof {
                assert(labels.take(k + 1).drop_last() =~= labels.take(k as int));
                assert(texts.take(k + 1).drop_last() =~= texts.take(k as int));
                assert(texts.take(k + 1).last() == alphabet.texts@[k as int]@);
                assert forall|label: u32| label < len implies #[trigger] scores@[label as int]
                    == label_score(
                    lines,
                    all,
                    labels.take(k + 1),
                    texts.take(k + 1),
                    label,
                ) by {
                    assert(before[label as int] == label_score(
                        lines,
                        all,
                        labels.take(k as int),
                        texts.take(k as int),
                        label,
                    ));
                }
            }
            k += 1;
        }
        assert(labels.take(k as int) =~= labels);
        assert(texts.take(k as int) =~= texts);
        Ok(
            CharClassScorer {
                scores,
                empty_classes: bare(classes),
                unmapped_weights: unmapped(classes, weights),
            },
        )
    }
}

fn class_name(classes: &[(String, String)], m: &BTreeMap<u32, usize>, text: &str) -> (r: String)
    requires
        tells_holders(m@, classes_view(classes@)),
    ensures
        r@ == class_of(classes_view(classes@), text@),
{
    let ghost lines = classes_view(classes@);
    let s: Vec<char> = chars_of(text);
    if s.len() == 1 {
        let c: char = s[0];
        proof {
            lemma_holder_range(lines, c);
        }
        if let Some(i) = place_of(m, c as u32) {
            assert(place_in(m@, c) == Some(i as int));
            return stem_of(classes[i].0.as_str());
        }
        assert(place_in(m@, c) is None);
    }
    String::from_str("no_char_class")
}

} // verus!
