//! Building and comparing text, stated over sequences of characters.
use vstd::prelude::*;

verus! {

/// `String::push` appends one character.
pub assume_specification[ String::push ](s: &mut String, c: char)
    ensures
        final(s)@ == old(s)@.push(c),
;

/// `core::str::Utf8Error`, what [`core::str::from_utf8`] says of bytes that are no
/// text. Nothing is claimed of it.
#[verifier::external_type_specification]
#[verifier::external_body]
pub struct ExUtf8Error(core::str::Utf8Error);

/// `core::str::from_utf8` takes bytes as text if and only if they are UTF-8, and
/// the text is then what they encode.
pub assume_specification[ core::str::from_utf8 ](v: &[u8]) -> (r: Result<
    &str,
    core::str::Utf8Error,
>)
    ensures
        match r {
            Ok(s) => vstd::utf8::valid_utf8(v@) && s@ == vstd::utf8::decode_utf8(v@),
            Err(_) => !vstd::utf8::valid_utf8(v@),
        },
;

/// What `{:?}` prints for a text: the text in double quotes, with escapes.
pub uninterp spec fn quoted_text(s: Seq<char>) -> Seq<char>;

/// Wraps `format!` with `{:?}` on a `str`. The escapes follow the standard
/// library's character tables, so the result is only named.
#[verifier::external_body]
pub(crate) fn quoted(s: &str) -> (r: String)
    ensures
        r@ == quoted_text(s@),
{
    format!("{:?}", s)
}

/// What `{:?}` prints for a character: the character in single quotes, with escapes.
pub uninterp spec fn quoted_char(c: char) -> Seq<char>;

/// Wraps `format!` with `{:?}` on a `char`. The escapes follow the standard library's
/// character tables, so the result is only named.
#[verifier::external_body]
pub(crate) fn quote_char(c: char) -> (r: String)
    ensures
        r@ == quoted_char(c),
{
    format!("{:?}", c)
}

/// An optional text by its characters.
pub open spec fn opt_text(s: Option<String>) -> Option<Seq<char>> {
    match s {
        None => None,
        Some(s) => Some(s@),
    }
}

/// The character of a decimal digit.
pub open spec fn digit(d: nat) -> char {
    (48 + d) as char
}

/// A number in decimal, without leading zeros.
pub open spec fn dec(n: nat) -> Seq<char>
    decreases n,
{
    if n < 10 {
        seq![digit(n)]
    } else {
        dec(n / 10).push(digit(n % 10))
    }
}

/// A signed number in decimal.
pub open spec fn dec_int(n: int) -> Seq<char> {
    if n < 0 {
        seq!['-'] + dec((-n) as nat)
    } else {
        dec(n as nat)
    }
}

/// Numbers in decimal, each behind a comma and a space but the first.
pub open spec fn dec_items(items: Seq<nat>) -> Seq<char>
    decreases items.len(),
{
    if items.len() == 0 {
        Seq::empty()
    } else if items.len() == 1 {
        dec(items[0])
    } else {
        dec_items(items.drop_last()) + seq![',', ' '] + dec(items.last())
    }
}

/// A list of numbers in square brackets.
pub open spec fn dec_list(items: Seq<nat>) -> Seq<char> {
    seq!['['] + dec_items(items) + seq![']']
}

/// Appends a number in decimal.
pub fn push_dec(s: &mut String, n: u64)
    ensures
        final(s)@ == old(s)@ + dec(n as nat),
    decreases n,
{
    let last: u8 = (n % 10) as u8;
    if n >= 10 {
        push_dec(s, n / 10);
    }
    let c: char = (48 + last) as char;
    s.push(c);
    assert(s@ =~= old(s)@ + dec(n as nat));
}

/// Appends a signed number in decimal.
pub fn push_dec_int(s: &mut String, n: i64)
    ensures
        final(s)@ == old(s)@ + dec_int(n as int),
{
    if n < 0 {
        s.push('-');
        let magnitude: u64 = if n == i64::MIN { 0x8000_0000_0000_0000u64 } else { (-n) as u64 };
        push_dec(s, magnitude);
    } else {
        push_dec(s, n as u64);
    }
    assert(s@ =~= old(s)@ + dec_int(n as int));
}

/// Appends a list of numbers in square brackets.
pub fn push_dec_list(s: &mut String, items: &[usize])
    ensures
        final(s)@ == old(s)@ + dec_list(items@.map_values(|x: usize| x as nat)),
{
    let ghost all = items@.map_values(|x: usize| x as nat);
    s.push('[');
    let mut i: usize = 0;
    assert(s@ =~= old(s)@ + seq!['['] + dec_items(all.take(0)));
    while i < items.len()
        invariant
            i <= items.len(),
            all == items@.map_values(|x: usize| x as nat),
            s@ == old(s)@ + seq!['['] + dec_items(all.take(i as int)),
        decreases items.len() - i,
    {
        if i > 0 {
            s.push(',');
            s.push(' ');
        }
        push_dec(s, items[i] as u64);
        proof {
            assert(all.take(i + 1).drop_last() =~= all.take(i as int));
            assert(all.take(i + 1).last() == items[i as int] as nat);
            if i == 0 {
                assert(dec_items(all.take(0)) =~= Seq::<char>::empty());
                assert(all.take(1)[0] == items[0] as nat);
            }
            assert(s@ =~= old(s)@ + seq!['['] + dec_items(all.take(i + 1)));
        }
        i += 1;
    }
    assert(all.take(i as int) =~= all);
    s.push(']');
    assert(s@ =~= old(s)@ + dec_list(all));
}


/// The characters of a text.
pub fn chars_of(s: &str) -> (r: Vec<char>)
    ensures
        r@ == s@,
{
    let mut out: Vec<char> = Vec::new();
    for c in it: s.chars()
        invariant
            it.seq() == s@,
            out@ =~= s@.take(it.index()),
    {
        out.push(c);
    }
    assert(s@.take(s@.len() as int) =~= s@);
    out
}

/// The text of characters.
pub fn text_of(chars: &[char]) -> (r: String)
    ensures
        r@ == chars@,
{
    let mut s: String = String::new();
    let mut i: usize = 0;
    while i < chars.len()
        invariant
            i <= chars@.len(),
            s@ =~= chars@.take(i as int),
        decreases chars@.len() - i,
    {
        s.push(chars[i]);
        i += 1;
    }
    assert(chars@.take(i as int) =~= chars@);
    s
}

/// Whether two character sequences are the same.
pub fn same_chars(a: &[char], b: &[char]) -> (r: bool)
    ensures
        r == (a@ == b@),
{
    if a.len() != b.len() {
        return false;
    }
    let mut i: usize = 0;
    while i < a.len()
        invariant
            i <= a@.len(),
            a@.len() == b@.len(),
            forall|j: int| 0 <= j < i ==> a@[j] == b@[j],
        decreases a@.len() - i,
    {
        if a[i] != b[i] {
            return false;
        }
        i += 1;
    }
    assert(a@ =~= b@);
    true
}

/// Whether two texts are the same.
pub fn same_text(a: &str, b: &str) -> (r: bool)
    ensures
        r == (a@ == b@),
{
    same_chars(chars_of(a).as_slice(), chars_of(b).as_slice())
}

/// Whether a text comes before another: at the first difference it has the lower
/// character, or ends.
pub open spec fn text_less(a: Seq<char>, b: Seq<char>) -> bool
    decreases a.len(),
{
    if b.len() == 0 {
        false
    } else if a.len() == 0 {
        true
    } else if a[0] != b[0] {
        a[0] < b[0]
    } else {
        text_less(a.drop_first(), b.drop_first())
    }
}

/// Compares two texts.
pub fn chars_less(a: &[char], b: &[char]) -> (r: bool)
    ensures
        r == text_less(a@, b@),
{
    let mut i: usize = 0;
    proof {
        assert(a@.skip(0) =~= a@);
        assert(b@.skip(0) =~= b@);
    }
    while i < a.len() && i < b.len()
        invariant
            i <= a@.len(),
            i <= b@.len(),
            text_less(a@, b@) == text_less(a@.skip(i as int), b@.skip(i as int)),
        decreases a@.len() - i,
    {
        if a[i] != b[i] {
            return a[i] < b[i];
        }
        proof {
            assert(a@.skip(i as int).drop_first() =~= a@.skip(i + 1));
            assert(b@.skip(i as int).drop_first() =~= b@.skip(i + 1));
        }
        i += 1;
    }
    i < b.len()
}

/// Nothing comes before itself.
pub proof fn lemma_text_less_irreflexive(a: Seq<char>)
    ensures
        !text_less(a, a),
    decreases a.len(),
{
    if a.len() > 0 {
        lemma_text_less_irreflexive(a.drop_first());
    }
}

/// Of two different texts, one comes before the other.
pub proof fn lemma_text_less_total(a: Seq<char>, b: Seq<char>)
    ensures
        a == b || text_less(a, b) || text_less(b, a),
    decreases a.len(),
{
    if a.len() == 0 {
        assert(b.len() == 0 ==> a =~= b);
    } else if b.len() > 0 && a[0] == b[0] {
        lemma_text_less_total(a.drop_first(), b.drop_first());
        if a.drop_first() == b.drop_first() {
            assert(a =~= seq![a[0]] + a.drop_first());
            assert(b =~= seq![b[0]] + b.drop_first());
        }
    }
}

/// The order of texts is transitive.
pub proof fn lemma_text_less_transitive(a: Seq<char>, b: Seq<char>, c: Seq<char>)
    requires
        text_less(a, b),
        text_less(b, c),
    ensures
        text_less(a, c),
    decreases a.len(),
{
    if a.len() > 0 && a[0] == b[0] && b[0] == c[0] {
        lemma_text_less_transitive(a.drop_first(), b.drop_first(), c.drop_first());
    }
}

/// Characters that count as white space.
pub open spec fn is_space(c: char) -> bool {
    let n = c as u32;
    ||| 0x9 <= n <= 0xd
    ||| n == 0x20
    ||| n == 0x85
    ||| n == 0xa0
    ||| n == 0x1680
    ||| 0x2000 <= n <= 0x200a
    ||| n == 0x2028
    ||| n == 0x2029
    ||| n == 0x202f
    ||| n == 0x205f
    ||| n == 0x3000
}

fn space(c: char) -> (r: bool)
    ensures
        r == is_space(c),
{
    let n: u32 = c as u32;
    (0x9 <= n && n <= 0xd) || n == 0x20 || n == 0x85 || n == 0xa0 || n == 0x1680 || (0x2000 <= n
        && n <= 0x200a) || n == 0x2028 || n == 0x2029 || n == 0x202f || n == 0x205f || n == 0x3000
}

/// A text without the white space at its start.
pub open spec fn trim_start(s: Seq<char>) -> Seq<char>
    decreases s.len(),
{
    if s.len() > 0 && is_space(s[0]) {
        trim_start(s.drop_first())
    } else {
        s
    }
}

/// A text without the white space at its end.
pub open spec fn trim_end(s: Seq<char>) -> Seq<char>
    decreases s.len(),
{
    if s.len() > 0 && is_space(s.last()) {
        trim_end(s.drop_last())
    } else {
        s
    }
}

/// A text without the white space around it.
pub open spec fn trimmed(s: Seq<char>) -> Seq<char> {
    trim_end(trim_start(s))
}

/// White space around a text is cut, and nothing else.
pub proof fn lemma_trimmed(before: Seq<char>, body: Seq<char>, after: Seq<char>)
    requires
        body.len() > 0,
        !is_space(body[0]),
        !is_space(body.last()),
        forall|i: int| 0 <= i < before.len() ==> is_space(#[trigger] before[i]),
        forall|i: int| 0 <= i < after.len() ==> is_space(#[trigger] after[i]),
    ensures
        trimmed(before + body + after) == body,
    decreases before.len() + after.len(),
{
    let whole = before + body + after;
    if before.len() > 0 {
        assert(whole[0] == before[0]);
        assert(whole.drop_first() =~= before.drop_first() + body + after);
        lemma_trimmed(before.drop_first(), body, after);
    } else {
        assert(whole =~= body + after);
        assert(whole[0] == body[0]);
        if after.len() > 0 {
            assert(whole.last() == after.last());
            assert(whole.drop_last() =~= before + body + after.drop_last());
            assert(whole.drop_last()[0] == body[0]);
            lemma_trimmed(before, body, after.drop_last());
        } else {
            assert(whole =~= body);
        }
    }
}

/// Cuts the white space around a text.
pub fn trim_chars(s: &[char]) -> (r: Vec<char>)
    ensures
        r@ == trimmed(s@),
{
    let mut lo: usize = 0;
    assert(s@.skip(0) =~= s@);
    while lo < s.len() && space(s[lo])
        invariant
            lo <= s@.len(),
            trim_start(s@) == trim_start(s@.skip(lo as int)),
        decreases s@.len() - lo,
    {
        assert(s@.skip(lo as int).drop_first() =~= s@.skip(lo + 1));
        lo += 1;
    }
    let mut hi: usize = s.len();
    let ghost rest = s@.skip(lo as int);
    assert(trim_start(s@) == rest);
    assert(s@.subrange(lo as int, hi as int) =~= rest);
    while hi > lo && space(s[hi - 1])
        invariant
            lo <= hi <= s@.len(),
            trim_end(rest) == trim_end(s@.subrange(lo as int, hi as int)),
        decreases hi,
    {
        assert(s@.subrange(lo as int, hi as int).drop_last() =~= s@.subrange(lo as int, hi - 1));
        hi -= 1;
    }
    let mut out: Vec<char> = Vec::new();
    let mut i: usize = lo;
    while i < hi
        invariant
            lo <= i <= hi <= s@.len(),
            out@ =~= s@.subrange(lo as int, i as int),
        decreases hi - i,
    {
        out.push(s[i]);
        i += 1;
    }
    out
}

/// The pieces between the occurrences of a separator; one more than there are
/// occurrences.
pub open spec fn split_on(s: Seq<char>, separator: char) -> Seq<Seq<char>>
    decreases s.len(),
{
    if s.len() == 0 {
        seq![Seq::empty()]
    } else {
        let before = split_on(s.drop_last(), separator);
        if s.last() == separator {
            before.push(Seq::empty())
        } else {
            before.drop_last().push(before.last().push(s.last()))
        }
    }
}

/// Pieces with a separator between each two.
pub open spec fn join_with(pieces: Seq<Seq<char>>, separator: char) -> Seq<char>
    decreases pieces.len(),
{
    if pieces.len() == 0 {
        Seq::empty()
    } else if pieces.len() == 1 {
        pieces[0]
    } else {
        join_with(pieces.drop_last(), separator) + seq![separator] + pieces.last()
    }
}

/// There is always a first piece.
pub proof fn lemma_split_nonempty(s: Seq<char>, separator: char)
    ensures
        split_on(s, separator).len() >= 1,
    decreases s.len(),
{
    if s.len() > 0 {
        lemma_split_nonempty(s.drop_last(), separator);
    }
}

/// Joining the pieces gives the text back.
pub proof fn lemma_join_split(s: Seq<char>, separator: char)
    ensures
        join_with(split_on(s, separator), separator) == s,
    decreases s.len(),
{
    if s.len() > 0 {
        let t = s.drop_last();
        let before = split_on(t, separator);
        lemma_split_nonempty(t, separator);
        lemma_join_split(t, separator);
        let pieces = split_on(s, separator);
        if s.last() == separator {
            assert(pieces.drop_last() =~= before);
            assert(join_with(pieces, separator) =~= s);
        } else {
            assert(pieces.drop_last() =~= before.drop_last());
            assert(pieces.last() == before.last().push(s.last()));
            assert(join_with(before, separator) == t);
            if before.len() == 1 {
                assert(pieces[0] == before[0].push(s.last()));
            }
            assert(join_with(pieces, separator) =~= t.push(s.last()));
            assert(t.push(s.last()) =~= s);
        }
    } else {
        assert(join_with(split_on(s, separator), separator) =~= s);
    }
}

/// Texts by their characters.
pub open spec fn texts_view(texts: Seq<String>) -> Seq<Seq<char>> {
    texts.map_values(|t: String| t@)
}

/// Character vectors by their contents.
pub open spec fn pieces_view(pieces: Seq<Vec<char>>) -> Seq<Seq<char>> {
    pieces.map_values(|p: Vec<char>| p@)
}

/// Splits a text at a separator.
pub fn split_chars(s: &[char], separator: char) -> (r: Vec<Vec<char>>)
    ensures
        pieces_view(r@) == split_on(s@, separator),
{
    let mut pieces: Vec<Vec<char>> = Vec::new();
    let mut piece: Vec<char> = Vec::new();
    let mut i: usize = 0;
    assert(s@.take(0) =~= Seq::empty());
    assert(pieces_view(pieces@).push(piece@) =~= seq![Seq::empty()]);
    while i < s.len()
        invariant
            i <= s@.len(),
            pieces_view(pieces@).push(piece@) == split_on(s@.take(i as int), separator),
        decreases s@.len() - i,
    {
        let ghost before = pieces_view(pieces@);
        let ghost last = piece@;
        assert(s@.take(i + 1).drop_last() =~= s@.take(i as int));
        assert(before.push(last).drop_last() =~= before);
        if s[i] == separator {
            pieces.push(piece);
            piece = Vec::new();
            assert(pieces_view(pieces@) =~= before.push(last));
        } else {
            piece.push(s[i]);
        }
        i += 1;
    }
    assert(s@.take(i as int) =~= s@);
    let ghost before = pieces_view(pieces@);
    let ghost last = piece@;
    pieces.push(piece);
    assert(pieces_view(pieces@) =~= before.push(last));
    pieces
}

/// A text of ASCII characters.
pub open spec fn is_ascii_text(s: Seq<char>) -> bool {
    forall|i: int| 0 <= i < s.len() ==> (#[trigger] s[i] as u32) < 128
}

/// An ASCII capital as its small letter.
pub open spec fn ascii_small(c: char) -> char {
    if 'A' <= c <= 'Z' {
        (c as u32 + 32) as char
    } else {
        c
    }
}

/// What lower case makes of a text with characters beyond ASCII.
pub uninterp spec fn unicode_lower(s: Seq<char>) -> Seq<char>;

/// A text in lower case.
pub open spec fn lower_text(s: Seq<char>) -> Seq<char> {
    if is_ascii_text(s) {
        s.map_values(|c: char| ascii_small(c))
    } else {
        unicode_lower(s)
    }
}

/// Wraps `str::to_lowercase`, which follows the Unicode lower-case mapping. On
/// ASCII that changes the capitals alone; beyond ASCII the result is only named.
#[verifier::external_body]
pub(crate) fn to_lower(s: &str) -> (r: String)
    ensures
        r@ == if is_ascii_text(s@) {
            s@.map_values(|c: char| ascii_small(c))
        } else {
            unicode_lower(s@)
        },
{
    s.to_lowercase()
}

/// Whether a character beyond ASCII is a letter.
pub uninterp spec fn unicode_letter(c: char) -> bool;

/// Whether a character is a letter.
pub open spec fn is_letter(c: char) -> bool {
    if (c as u32) < 128 {
        'A' <= c <= 'Z' || 'a' <= c <= 'z'
    } else {
        unicode_letter(c)
    }
}

/// Wraps `char::is_alphabetic`, the Unicode property. In ASCII that is the
/// letters; beyond ASCII the result is only named.
#[verifier::external_body]
pub(crate) fn alphabetic(c: char) -> (r: bool)
    ensures
        r == if (c as u32) < 128 {
            'A' <= c <= 'Z' || 'a' <= c <= 'z'
        } else {
            unicode_letter(c)
        },
{
    c.is_alphabetic()
}


/// Characters that end a line.
pub open spec fn is_line_end(c: char) -> bool {
    let n = c as u32;
    ||| 0xa <= n <= 0xd
    ||| 0x1c <= n <= 0x1e
    ||| n == 0x85
    ||| n == 0x2028
    ||| n == 0x2029
}

fn line_end(c: char) -> (r: bool)
    ensures
        r == is_line_end(c),
{
    let n: u32 = c as u32;
    (0xa <= n && n <= 0xd) || (0x1c <= n && n <= 0x1e) || n == 0x85 || n == 0x2028 || n == 0x2029
}

/// The first place of a character that a line ends with, from `i` on.
pub open spec fn next_line_end(s: Seq<char>, i: int) -> int
    decreases s.len() - i,
{
    if i >= s.len() || is_line_end(s[i]) {
        i
    } else {
        next_line_end(s, i + 1)
    }
}

/// Where the line behind the end at `i` begins: a carriage return and a line
/// feed end one line together.
pub open spec fn next_line_start(s: Seq<char>, i: int) -> int {
    if s[i] == '\r' && i + 1 < s.len() && s[i + 1] == '\n' {
        i + 2
    } else {
        i + 1
    }
}

proof fn lemma_next_line_end(s: Seq<char>, i: int)
    requires
        0 <= i <= s.len(),
    ensures
        i <= next_line_end(s, i) <= s.len(),
    decreases s.len() - i,
{
    if i < s.len() && !is_line_end(s[i]) {
        lemma_next_line_end(s, i + 1);
    }
}

/// The lines from `i` on. Empty lines count, but for one behind the last end.
pub open spec fn lines_from(s: Seq<char>, i: int) -> Seq<Seq<char>>
    decreases s.len() - i,
    via lines_from_decreases
{
    if i < 0 || i >= s.len() {
        Seq::empty()
    } else {
        let end = next_line_end(s, i);
        if end >= s.len() {
            seq![s.subrange(i, s.len() as int)]
        } else {
            seq![s.subrange(i, end)] + lines_from(s, next_line_start(s, end))
        }
    }
}

#[via_fn]
proof fn lines_from_decreases(s: Seq<char>, i: int) {
    if 0 <= i < s.len() {
        lemma_next_line_end(s, i);
    }
}

/// The lines of a text.
pub fn lines_of(s: &[char]) -> (r: Vec<Vec<char>>)
    ensures
        pieces_view(r@) == lines_from(s@, 0),
{
    let mut lines: Vec<Vec<char>> = Vec::new();
    let mut i: usize = 0;
    assert(pieces_view(lines@) + lines_from(s@, 0) =~= lines_from(s@, 0));
    while i < s.len()
        invariant
            i <= s@.len(),
            pieces_view(lines@) + lines_from(s@, i as int) == lines_from(s@, 0),
        decreases s@.len() - i,
    {
        let start: usize = i;
        let mut line: Vec<char> = Vec::new();
        while i < s.len() && !line_end(s[i])
            invariant
                start <= i <= s@.len(),
                line@ =~= s@.subrange(start as int, i as int),
                next_line_end(s@, start as int) == next_line_end(s@, i as int),
            decreases s@.len() - i,
        {
            line.push(s[i]);
            i += 1;
        }
        let ghost end = i as int;
        assert(next_line_end(s@, start as int) == end);
        let ghost before = pieces_view(lines@);
        let ghost piece = line@;
        lines.push(line);
        assert(pieces_view(lines@) =~= before.push(piece));
        if i < s.len() {
            if s[i] == '\r' && i + 1 < s.len() && s[i + 1] == '\n' {
                i += 2;
            } else {
                i += 1;
            }
            proof {
                assert(i == next_line_start(s@, end));
                assert(before + (seq![piece] + lines_from(s@, i as int)) =~= pieces_view(lines@)
                    + lines_from(s@, i as int));
            }
        } else {
            assert(before + seq![piece] =~= pieces_view(lines@) + lines_from(s@, i as int));
        }
    }
    assert(pieces_view(lines@) + lines_from(s@, i as int) =~= pieces_view(lines@));
    lines
}

/// The number that decimal digits make up.
pub open spec fn dec_value(s: Seq<char>) -> nat
    decreases s.len(),
{
    if s.len() == 0 {
        0
    } else {
        10 * dec_value(s.drop_last()) + (s.last() as u32 - 48) as nat
    }
}

/// Whether a text is made of decimal digits alone.
pub open spec fn all_digits(s: Seq<char>) -> bool {
    forall|i: int| 0 <= i < s.len() ==> '0' <= #[trigger] s[i] <= '9'
}

/// A text without one plus sign at its start.
pub open spec fn unsigned_part(s: Seq<char>) -> Seq<char> {
    if s.len() > 0 && s[0] == '+' {
        s.skip(1)
    } else {
        s
    }
}

/// The number of 32 bits that a text holds: digits, behind a plus sign or not.
pub open spec fn number_in(s: Seq<char>) -> Option<u32> {
    let digits = unsigned_part(s);
    if digits.len() > 0 && all_digits(digits) && dec_value(digits) <= u32::MAX {
        Some(dec_value(digits) as u32)
    } else {
        None
    }
}

proof fn lemma_dec_value_grows(s: Seq<char>, i: int)
    requires
        0 <= i <= s.len(),
        all_digits(s),
    ensures
        dec_value(s.take(i)) <= dec_value(s),
    decreases s.len(),
{
    if i == s.len() {
        assert(s.take(i) =~= s);
    } else {
        assert(s.drop_last().take(i) =~= s.take(i));
        assert(all_digits(s.drop_last()));
        lemma_dec_value_grows(s.drop_last(), i);
        assert('0' <= s[s.len() - 1] <= '9');
    }
}

/// Reads a number of 32 bits.
pub fn parse_number(s: &[char]) -> (r: Option<u32>)
    ensures
        r == number_in(s@),
{
    let start: usize = if s.len() > 0 && s[0] == '+' {
        1
    } else {
        0
    };
    let ghost digits = unsigned_part(s@);
    assert(digits =~= s@.skip(start as int));
    if s.len() == start {
        return None;
    }
    let mut value: u32 = 0;
    let mut i: usize = start;
    assert(digits.take(0) =~= Seq::empty());
    while i < s.len()
        invariant
            start <= i <= s@.len(),
            digits == s@.skip(start as int),
            digits == unsigned_part(s@),
            digits.len() > 0,
            value == dec_value(digits.take(i - start)),
            forall|j: int| 0 <= j < i - start ==> '0' <= #[trigger] digits[j] <= '9',
        decreases s@.len() - i,
    {
        let c: char = s[i];
        let ghost k = i - start;
        assert(digits[k] == c);
        assert(digits.take(k + 1).drop_last() =~= digits.take(k));
        assert(digits.take(k + 1).last() == c);
        if !('0' <= c && c <= '9') {
            assert(!all_digits(digits));
            return None;
        }
        let d: u32 = c as u32 - 48;
        proof {
            if all_digits(digits) {
                lemma_dec_value_grows(digits, k + 1);
            }
        }
        match value.checked_mul(10) {
            None => {
                return None;
            },
            Some(tens) => match tens.checked_add(d) {
                None => {
                    return None;
                },
                Some(next) => {
                    value = next;
                },
            },
        }
        i += 1;
    }
    assert(digits.take(i - start) =~= digits);
    Some(value)
}

/// Appends a number of up to 128 bits in decimal.
pub fn push_dec_wide(s: &mut String, n: u128)
    ensures
        final(s)@ == old(s)@ + dec(n as nat),
    decreases n,
{
    let last: u8 = (n % 10) as u8;
    if n >= 10 {
        push_dec_wide(s, n / 10);
    }
    let c: char = (48 + last) as char;
    s.push(c);
    assert(s@ =~= old(s)@ + dec(n as nat));
}

} // verus!
