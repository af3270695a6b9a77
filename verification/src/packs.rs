//! Resolves a BCP-47 tag to the model packs that serve it.
//!
//! The mapping is a table of tag -> (recospec, tflite, fst). Fetching and
//! unzipping the packs is a host concern; resolution is pure logic and lives
//! here.
use vstd::prelude::*;

use crate::error::{format_error, Error, ErrorView};
use crate::proto::{
    fields_from, fold_fields, for_each_field, step_of, visited, Value, ValueView, Visitor,
};
use crate::text::{
    all_digits, alphabetic, ascii_small, chars_less, chars_of, is_ascii_text, is_letter, is_space,
    lemma_text_less_irreflexive, lemma_text_less_total, lemma_text_less_transitive, lemma_trimmed,
    lower_text, opt_text, pieces_view, quoted, quoted_text, same_chars, same_text, split_chars,
    split_on, text_less, text_of, to_lower, trim_chars, trimmed,
};

verus! {

/// The three pack names serving one language tag.
#[derive(Debug, Clone, PartialEq, Eq)]
pub struct PackNames {
    pub recospec: String,
    pub tflite: String,
    /// Absent for gesture models, and where there is no word language model.
    pub fst: Option<String>,
}

/// A [`PackNames`] by its texts.
#[verifier::ext_equal]
pub struct PackNamesView {
    pub recospec: Seq<char>,
    pub tflite: Seq<char>,
    pub fst: Option<Seq<char>>,
}

impl View for PackNames {
    type V = PackNamesView;

    open spec fn view(&self) -> PackNamesView {
        PackNamesView {
            recospec: self.recospec@,
            tflite: self.tflite@,
            fst: match self.fst {
                None => None,
                Some(s) => Some(s@),
            },
        }
    }
}

/// One line of the mapping.
#[verifier::ext_equal]
pub struct EntryView {
    pub tag: Seq<char>,
    pub names: PackNamesView,
}

/// The parsed mapping.
#[derive(Debug, Clone)]
pub struct PackMapping {
    entries: Vec<(String, PackNames)>,
}

impl View for PackMapping {
    type V = Seq<EntryView>;

    closed spec fn view(&self) -> Seq<EntryView> {
        self.entries@.map_values(|e: (String, PackNames)| EntryView { tag: e.0@, names: e.1@ })
    }
}

impl Default for PackMapping {
    /// A mapping without entries.
    fn default() -> (r: Self)
        ensures
            r@ == Seq::<EntryView>::empty(),
    {
        let r: PackMapping = PackMapping { entries: Vec::new() };
        assert(r@ =~= Seq::empty());
        r
    }
}

/// An entry before any of its fields.
pub open spec fn empty_entry() -> EntryView {
    EntryView {
        tag: Seq::empty(),
        names: PackNamesView { recospec: Seq::empty(), tflite: Seq::empty(), fst: None },
    }
}

/// One field of an entry. The last occurrence of a field counts.
pub open spec fn entry_step(e: EntryView, field: u32, value: ValueView) -> Result<
    EntryView,
    ErrorView,
> {
    if field == 1 || field == 5 || field == 6 || field == 7 {
        match value.to_text() {
            Err(err) => Err(err),
            Ok(text) => Ok(
                if field == 1 {
                    EntryView { tag: text, names: e.names }
                } else if field == 5 {
                    EntryView { tag: e.tag, names: PackNamesView { recospec: text, ..e.names } }
                } else if field == 6 {
                    EntryView { tag: e.tag, names: PackNamesView { tflite: text, ..e.names } }
                } else {
                    EntryView { tag: e.tag, names: PackNamesView { fst: Some(text), ..e.names } }
                },
            ),
        }
    } else {
        Ok(e)
    }
}

/// An entry out of its message.
pub open spec fn entry_in(data: Seq<u8>) -> Result<EntryView, ErrorView> {
    visited::<Entry>(data, empty_entry())
}

/// Whether a tag already has an entry.
pub open spec fn has_tag(entries: Seq<EntryView>, tag: Seq<char>) -> bool {
    exists|i: int| 0 <= i < entries.len() && (#[trigger] entries[i]).tag == tag
}

/// One field of the mapping. An entry must be complete, and its tag new.
pub open spec fn mapping_step(entries: Seq<EntryView>, field: u32, value: ValueView) -> Result<
    Seq<EntryView>,
    ErrorView,
> {
    if field != 1 {
        Ok(entries)
    } else {
        match value.to_bytes() {
            Err(err) => Err(err),
            Ok(data) => match entry_in(data) {
                Err(err) => Err(err),
                Ok(e) => if e.tag.len() == 0 || e.names.recospec.len() == 0
                    || e.names.tflite.len() == 0 {
                    Err(ErrorView::Format("incomplete pack mapping entry"@))
                } else if has_tag(entries, e.tag) {
                    Err(ErrorView::Format("duplicate language tag "@ + quoted_text(e.tag)))
                } else {
                    Ok(entries.push(e))
                },
            },
        }
    }
}

/// The mapping in a message.
pub open spec fn mapping_in(data: Seq<u8>) -> Result<Seq<EntryView>, ErrorView> {
    visited::<PackMapping>(data, Seq::empty())
}

/// That entries are complete and no tag occurs twice.
pub open spec fn well_formed_entries(entries: Seq<EntryView>) -> bool {
    &&& forall|i: int|
        0 <= i < entries.len() ==> (#[trigger] entries[i]).tag.len() > 0
            && entries[i].names.recospec.len() > 0 && entries[i].names.tflite.len() > 0
    &&& forall|i: int, j: int|
        0 <= i < j < entries.len() ==> (#[trigger] entries[i]).tag != (#[trigger] entries[j]).tag
}

proof fn lemma_fold_well_formed(fields: Seq<(u32, ValueView)>)
    ensures
        fold_fields(fields, Seq::empty(), step_of::<PackMapping>()) matches Ok(m)
            ==> well_formed_entries(m),
    decreases fields.len(),
{
    if fields.len() > 0 {
        lemma_fold_well_formed(fields.drop_last());
    }
}

/// Whatever mapping is read has complete entries, and no tag twice.
pub proof fn lemma_mapping_well_formed(data: Seq<u8>)
    ensures
        mapping_in(data) matches Ok(m) ==> well_formed_entries(m),
{
    lemma_fold_well_formed(fields_from(data, 0).0);
}

/// An entry as its fields come in.
pub struct Entry {
    pub tag: String,
    pub names: PackNames,
}

impl Visitor for Entry {
    type State = EntryView;

    open spec fn state(&self) -> EntryView {
        EntryView { tag: self.tag@, names: self.names@ }
    }

    open spec fn step(state: EntryView, field: u32, value: ValueView) -> Result<
        EntryView,
        ErrorView,
    > {
        entry_step(state, field, value)
    }

    open spec fn refused(s: EntryView, field: u32, value: ValueView) -> EntryView {
        s
    }

    fn visit(&mut self, field: u32, value: Value<'_>) -> (r: Result<(), Error>) {
        if field == 1 || field == 5 || field == 6 || field == 7 {
            let text: String = String::from_str(value.as_str()?);
            if field == 1 {
                self.tag = text;
            } else if field == 5 {
                self.names.recospec = text;
            } else if field == 6 {
                self.names.tflite = text;
            } else {
                self.names.fst = Some(text);
            }
        }
        Ok(())
    }
}

impl Visitor for PackMapping {
    type State = Seq<EntryView>;

    open spec fn state(&self) -> Seq<EntryView> {
        self@
    }

    open spec fn step(state: Seq<EntryView>, field: u32, value: ValueView) -> Result<
        Seq<EntryView>,
        ErrorView,
    > {
        mapping_step(state, field, value)
    }

    open spec fn refused(s: Seq<EntryView>, field: u32, value: ValueView) -> Seq<EntryView> {
        s
    }

    fn visit(&mut self, field: u32, value: Value<'_>) -> (r: Result<(), Error>) {
        if field != 1 {
            return Ok(());
        }
        let body: &[u8] = value.as_bytes()?;
        let mut entry: Entry = Entry {
            tag: String::new(),
            names: PackNames { recospec: String::new(), tflite: String::new(), fst: None },
        };
        assert(entry.state() =~= empty_entry());
        for_each_field(body, &mut entry)?;
        if entry.tag.as_str().is_empty() || entry.names.recospec.as_str().is_empty()
            || entry.names.tflite.as_str().is_empty() {
            return Err(format_error("incomplete pack mapping entry"));
        }
        if self.holds(entry.tag.as_str()) {
            let mut text: String = String::from_str("duplicate language tag ");
            text.append(quoted(entry.tag.as_str()).as_str());
            return Err(Error::Format(text));
        }
        let ghost before = self@;
        self.entries.push((entry.tag, entry.names));
        assert(self@ =~= before.push(entry.state()));
        Ok(())
    }
}

/// Language, script, region and private-use part of a tag.
#[derive(Debug, Clone)]
pub struct Parts {
    pub language: String,
    pub script: Option<String>,
    pub region: Option<String>,
    pub private: String,
}

/// A [`Parts`] by its texts.
#[verifier::ext_equal]
pub struct PartsView {
    pub language: Seq<char>,
    pub script: Option<Seq<char>>,
    pub region: Option<Seq<char>>,
    pub private: Seq<char>,
}

impl View for Parts {
    type V = PartsView;

    open spec fn view(&self) -> PartsView {
        PartsView {
            language: self.language@,
            script: opt_text(self.script),
            region: opt_text(self.region),
            private: self.private@,
        }
    }
}

/// A tag with dashes for underscores.
pub open spec fn dashed(s: Seq<char>) -> Seq<char> {
    s.map_values(
        |c: char|
            if c == '_' {
                '-'
            } else {
                c
            },
    )
}

/// Whether a text is made of letters alone.
pub open spec fn all_letters(s: Seq<char>) -> bool {
    forall|i: int| 0 <= i < s.len() ==> is_letter(#[trigger] s[i])
}

/// A script has four letters.
pub open spec fn is_script(s: Seq<char>) -> bool {
    s.len() == 4 && all_letters(s)
}

/// A region has two letters or three digits.
pub open spec fn is_region(s: Seq<char>) -> bool {
    (s.len() == 2 && all_letters(s)) || (s.len() == 3 && all_digits(s))
}

/// Where the private-use part begins: at the first subtag `x`, or at the end.
pub open spec fn private_start(subtags: Seq<Seq<char>>, i: int) -> int
    decreases subtags.len() - i,
{
    if i >= subtags.len() || subtags[i] == seq!['x'] {
        i
    } else {
        private_start(subtags, i + 1)
    }
}

/// The first script from subtag `i` on, before `end`.
pub open spec fn first_script(subtags: Seq<Seq<char>>, i: int, end: int) -> Option<Seq<char>>
    decreases end - i,
{
    if i >= end {
        None
    } else if is_script(subtags[i]) {
        Some(subtags[i])
    } else {
        first_script(subtags, i + 1, end)
    }
}

/// The first region from subtag `i` on, before `end`.
pub open spec fn first_region(subtags: Seq<Seq<char>>, i: int, end: int) -> Option<Seq<char>>
    decreases end - i,
{
    if i >= end {
        None
    } else if is_region(subtags[i]) {
        Some(subtags[i])
    } else {
        first_region(subtags, i + 1, end)
    }
}

/// The parts of a tag that is already in lower case with dashes.
pub open spec fn parts_of(normalized: Seq<char>) -> PartsView {
    let subtags = split_on(normalized, '-');
    let end = private_start(subtags, 0);
    PartsView {
        language: if end > 0 {
            subtags[0]
        } else {
            Seq::empty()
        },
        script: first_script(subtags, 1, end),
        region: first_region(subtags, 1, end),
        private: crate::text::join_with(subtags.skip(end), '-'),
    }
}

/// The parts of a tag as it is written.
pub open spec fn parts_in(tag: Seq<char>) -> PartsView {
    parts_of(lower_text(dashed(tag)))
}

fn dash(s: &[char]) -> (r: Vec<char>)
    ensures
        r@ == dashed(s@),
{
    let mut out: Vec<char> = Vec::new();
    let mut i: usize = 0;
    while i < s.len()
        invariant
            i <= s@.len(),
            out@ =~= dashed(s@).take(i as int),
        decreases s@.len() - i,
    {
        if s[i] == '_' {
            out.push('-');
        } else {
            out.push(s[i]);
        }
        i += 1;
    }
    assert(out@ =~= dashed(s@));
    out
}

fn letters(s: &[char]) -> (r: bool)
    ensures
        r == all_letters(s@),
{
    let mut i: usize = 0;
    while i < s.len()
        invariant
            i <= s@.len(),
            forall|j: int| 0 <= j < i ==> is_letter(#[trigger] s@[j]),
        decreases s@.len() - i,
    {
        if !alphabetic(s[i]) {
            assert(!is_letter(s@[i as int]));
            return false;
        }
        i += 1;
    }
    true
}

fn digits(s: &[char]) -> (r: bool)
    ensures
        r == all_digits(s@),
{
    let mut i: usize = 0;
    while i < s.len()
        invariant
            i <= s@.len(),
            forall|j: int| 0 <= j < i ==> '0' <= #[trigger] s@[j] <= '9',
        decreases s@.len() - i,
    {
        if !('0' <= s[i] && s[i] <= '9') {
            assert(!('0' <= s@[i as int] <= '9'));
            return false;
        }
        i += 1;
    }
    true
}

proof fn lemma_private_start(subtags: Seq<Seq<char>>, i: int)
    requires
        0 <= i <= subtags.len(),
    ensures
        i <= private_start(subtags, i) <= subtags.len(),
    decreases subtags.len() - i,
{
    if i < subtags.len() && subtags[i] != seq!['x'] {
        lemma_private_start(subtags, i + 1);
    }
}

fn join_from(pieces: &Vec<Vec<char>>, start: usize) -> (r: Vec<char>)
    requires
        start <= pieces@.len(),
    ensures
        r@ == crate::text::join_with(pieces_view(pieces@).skip(start as int), '-'),
{
    let ghost all = pieces_view(pieces@).skip(start as int);
    let mut out: Vec<char> = Vec::new();
    let mut i: usize = start;
    assert(all.take(0) =~= Seq::empty());
    while i < pieces.len()
        invariant
            start <= i <= pieces@.len(),
            all == pieces_view(pieces@).skip(start as int),
            out@ == crate::text::join_with(all.take(i - start), '-'),
        decreases pieces@.len() - i,
    {
        let ghost before = out@;
        if i > start {
            out.push('-');
        }
        let ghost led = out@;
        let mut j: usize = 0;
        while j < pieces[i].len()
            invariant
                i < pieces@.len(),
                j <= pieces@[i as int]@.len(),
                out@ =~= led + pieces@[i as int]@.take(j as int),
            decreases pieces@[i as int]@.len() - j,
        {
            out.push(pieces[i][j]);
            j += 1;
        }
        proof {
            let n = i - start;
            assert(pieces@[i as int]@.take(j as int) =~= pieces@[i as int]@);
            assert(all.take(n + 1).drop_last() =~= all.take(n));
            assert(all.take(n + 1).last() == pieces@[i as int]@);
            if n == 0 {
                assert(all.take(1)[0] == pieces@[i as int]@);
                assert(before =~= Seq::empty());
            }
            assert(out@ =~= crate::text::join_with(all.take(n + 1), '-'));
        }
        i += 1;
    }
    assert(all.take(i - start) =~= all);
    out
}

/// Splits a tag that is already in lower case with dashes. Variants and
/// extensions other than private use are not interpreted.
pub fn split_parts(normalized: &str) -> (r: Parts)
    ensures
        r@ == parts_of(normalized@),
{
    let chars: Vec<char> = chars_of(normalized);
    let subtags: Vec<Vec<char>> = split_chars(chars.as_slice(), '-');
    let ghost view = pieces_view(subtags@);
    let x: Vec<char> = vec!['x'];
    assert(x@ =~= seq!['x']);
    let mut end: usize = 0;
    while end < subtags.len() && !same_chars(subtags[end].as_slice(), x.as_slice())
        invariant
            end <= subtags@.len(),
            view == pieces_view(subtags@),
            x@ == seq!['x'],
            private_start(view, 0) == private_start(view, end as int),
        decreases subtags@.len() - end,
    {
        end += 1;
    }
    let mut script: Option<String> = None;
    let mut region: Option<String> = None;
    let mut i: usize = 1;
    while i < end
        invariant
            1 <= i,
            i <= end || end == 0,
            end <= subtags@.len(),
            view == pieces_view(subtags@),
            first_script(view, 1, end as int) == match script {
                Some(s) => Some(s@),
                None => first_script(view, i as int, end as int),
            },
            first_region(view, 1, end as int) == match region {
                Some(s) => Some(s@),
                None => first_region(view, i as int, end as int),
            },
        decreases end - i,
    {
        let piece: &Vec<char> = &subtags[i];
        assert(view[i as int] == piece@);
        if script.is_none() && piece.len() == 4 && letters(piece.as_slice()) {
            script = Some(text_of(piece.as_slice()));
        }
        if region.is_none() && ((piece.len() == 2 && letters(piece.as_slice())) || (piece.len() == 3
            && digits(piece.as_slice()))) {
            region = Some(text_of(piece.as_slice()));
        }
        i += 1;
    }
    let language: String = if end > 0 {
        text_of(subtags[0].as_slice())
    } else {
        String::new()
    };
    let private: String = text_of(join_from(&subtags, end).as_slice());
    Parts { language, script, region, private }
}

/// Splits a tag as it is written. Nothing is trimmed here.
pub fn parts(tag: &str) -> (r: Parts)
    ensures
        r@ == parts_in(tag@),
{
    let flat: String = text_of(dash(chars_of(tag).as_slice()).as_slice());
    let normalized: String = to_lower(flat.as_str());
    split_parts(normalized.as_str())
}


/// How well an entry suits a request: a wanted region first, then the script,
/// then fewer subtags, then the later tag in text order.
pub struct Score {
    pub region: bool,
    pub script: bool,
    pub subtags: nat,
    pub tag: Seq<char>,
}

/// Whether a score is lower than another.
pub open spec fn score_less(a: Score, b: Score) -> bool {
    if a.region != b.region {
        b.region
    } else if a.script != b.script {
        b.script
    } else if a.subtags != b.subtags {
        a.subtags > b.subtags
    } else {
        text_less(a.tag, b.tag)
    }
}

/// A request with its white space cut, in lower case with dashes.
pub open spec fn normalized_request(tag: Seq<char>) -> Seq<char> {
    lower_text(dashed(trimmed(tag)))
}

/// The region a request prefers: its own, or the one its Han script implies.
pub open spec fn preferred_region(want: PartsView) -> Option<Seq<char>> {
    match want.region {
        Some(r) => Some(r),
        None => match want.script {
            Some(s) => if s == "hans"@ {
                Some("cn"@)
            } else if s == "hant"@ {
                Some("tw"@)
            } else {
                None
            },
            None => None,
        },
    }
}

/// Whether an entry's script may serve a request: equal, unstated on either
/// side, or the Han umbrella for either Han script.
pub open spec fn scripts_fit(want: Option<Seq<char>>, have: Option<Seq<char>>) -> bool {
    match (want, have) {
        (Some(w), Some(h)) => w == h || ((w == "hans"@ || w == "hant"@) && h == "hani"@),
        _ => true,
    }
}

/// Whether an entry may serve a request: the same language and private-use part,
/// and no conflicting script.
pub open spec fn eligible(want: PartsView, have: PartsView) -> bool {
    have.language == want.language && have.private == want.private && scripts_fit(
        want.script,
        have.script,
    )
}

/// The score of an entry.
pub open spec fn score_of(want: PartsView, tag: Seq<char>) -> Score {
    let have = parts_in(tag);
    Score {
        region: preferred_region(want) is Some && have.region == preferred_region(want),
        script: want.script is Some && have.script == want.script,
        subtags: split_on(tag, '-').len(),
        tag,
    }
}

/// That entry `i` is the last whose tag is the request but for case.
pub open spec fn exact_match(entries: Seq<EntryView>, normalized: Seq<char>, i: int) -> bool {
    &&& 0 <= i < entries.len()
    &&& lower_text(entries[i].tag) == normalized
    &&& forall|j: int|
        i < j < entries.len() ==> lower_text((#[trigger] entries[j]).tag) != normalized
}

/// That entry `i` is eligible and no eligible entry scores higher; of equal
/// scores the last counts.
pub open spec fn best_match(entries: Seq<EntryView>, want: PartsView, i: int) -> bool {
    &&& 0 <= i < entries.len()
    &&& eligible(want, parts_in(entries[i].tag))
    &&& forall|j: int|
        #![trigger entries[j]]
        0 <= j < entries.len() && j != i && eligible(want, parts_in(entries[j].tag)) ==> {
            let a = score_of(want, entries[j].tag);
            let b = score_of(want, entries[i].tag);
            score_less(a, b) || (!score_less(b, a) && j < i)
        }
}

/// That entry `i` serves a request. Exact match wins.
pub open spec fn serves(entries: Seq<EntryView>, tag: Seq<char>, i: int) -> bool {
    let normalized = normalized_request(tag);
    if exists|k: int| exact_match(entries, normalized, k) {
        exact_match(entries, normalized, i)
    } else {
        best_match(entries, parts_in(normalized), i)
    }
}

/// At most one entry serves a request.
pub proof fn lemma_serves_unique(entries: Seq<EntryView>, tag: Seq<char>, i: int, j: int)
    requires
        serves(entries, tag, i),
        serves(entries, tag, j),
    ensures
        i == j,
{
    let normalized = normalized_request(tag);
    let want = parts_in(normalized);
    if exists|k: int| exact_match(entries, normalized, k) {
        if i < j {
            assert(lower_text(entries[j].tag) != normalized);
        }
        if j < i {
            assert(lower_text(entries[i].tag) != normalized);
        }
    } else if i != j {
        let a = score_of(want, entries[i].tag);
        let b = score_of(want, entries[j].tag);
        assert(eligible(want, parts_in(entries[i].tag)));
        assert(eligible(want, parts_in(entries[j].tag)));
        if score_less(a, b) && score_less(b, a) {
            if text_less(a.tag, b.tag) && text_less(b.tag, a.tag) {
                lemma_text_less_transitive(a.tag, b.tag, a.tag);
                lemma_text_less_irreflexive(a.tag);
            }
        }
    }
}

/// A request is never served across languages or private-use variants: an entry
/// that is not an exact match has the language and the private-use part of the
/// request.
pub proof fn lemma_serves_same_language(entries: Seq<EntryView>, tag: Seq<char>, i: int)
    requires
        serves(entries, tag, i),
    ensures
        lower_text(entries[i].tag) == normalized_request(tag) || ({
            let want = parts_in(normalized_request(tag));
            let have = parts_in(entries[i].tag);
            &&& have.language == want.language
            &&& have.private == want.private
            &&& scripts_fit(want.script, have.script)
        }),
{
}

/// The last of the first `n` entries whose tag is the request but for case.
proof fn lemma_last_match(entries: Seq<EntryView>, normalized: Seq<char>, k: int, n: int) -> (i:
    int)
    requires
        0 <= k < n <= entries.len(),
        lower_text(entries[k].tag) == normalized,
        forall|j: int| n <= j < entries.len() ==> lower_text((#[trigger] entries[j]).tag)
            != normalized,
    ensures
        exact_match(entries, normalized, i),
        i >= k,
    decreases n,
{
    if lower_text(entries[n - 1].tag) == normalized {
        n - 1
    } else {
        lemma_last_match(entries, normalized, k, n - 1)
    }
}

/// Every tag of the mapping that is written with dashes and without white space around
/// it is served by an entry with the same tag but for case, the last such entry.
pub proof fn lemma_own_tag_served(entries: Seq<EntryView>, k: int) -> (i: int)
    requires
        0 <= k < entries.len(),
        dashed(trimmed(entries[k].tag)) == entries[k].tag,
    ensures
        serves(entries, entries[k].tag, i),
        lower_text(entries[i].tag) == lower_text(entries[k].tag),
        i >= k,
{
    let normalized = normalized_request(entries[k].tag);
    lemma_last_match(entries, normalized, k, entries.len() as int)
}

/// Whatever request comes down to a tag of the mapping, but for case, is served by that
/// tag's own entry, if no later one has the same tag but for case.
pub proof fn lemma_request_served(entries: Seq<EntryView>, k: int, request: Seq<char>)
    requires
        0 <= k < entries.len(),
        normalized_request(request) == lower_text(entries[k].tag),
        forall|j: int|
            k < j < entries.len() ==> lower_text((#[trigger] entries[j]).tag) != lower_text(
                entries[k].tag,
            ),
    ensures
        serves(entries, request, k),
{
    assert(exact_match(entries, normalized_request(request), k));
}

/// Whether a text is a tag in ASCII with other letter case and with `_` in the place of
/// some dashes.
pub open spec fn respells(body: Seq<char>, tag: Seq<char>) -> bool {
    &&& body.len() == tag.len()
    &&& is_ascii_text(body)
    &&& forall|i: int|
        0 <= i < tag.len() ==> (body[i] == '_' && tag[i] == '-') || ascii_small(
            #[trigger] body[i],
        ) == ascii_small(tag[i])
}

/// A tag of the mapping in ASCII, without `_` and without white space around it, is
/// served by its own entry however its letter case is changed, `_` written for `-` or
/// white space put around it, if no later entry has the same tag but for case.
pub proof fn lemma_respelled_served(
    entries: Seq<EntryView>,
    k: int,
    before: Seq<char>,
    body: Seq<char>,
    after: Seq<char>,
)
    requires
        0 <= k < entries.len(),
        is_ascii_text(entries[k].tag),
        entries[k].tag.len() > 0,
        !entries[k].tag.contains('_'),
        !is_space(entries[k].tag[0]),
        !is_space(entries[k].tag.last()),
        respells(body, entries[k].tag),
        forall|i: int| 0 <= i < before.len() ==> is_space(#[trigger] before[i]),
        forall|i: int| 0 <= i < after.len() ==> is_space(#[trigger] after[i]),
        forall|j: int|
            k < j < entries.len() ==> lower_text((#[trigger] entries[j]).tag) != lower_text(
                entries[k].tag,
            ),
    ensures
        serves(entries, before + body + after, k),
{
    let tag = entries[k].tag;
    let last = tag.len() - 1;
    assert(ascii_small(body[0]) == ascii_small(tag[0]) || body[0] == '_');
    assert(ascii_small(body[last]) == ascii_small(tag[last]) || body[last] == '_');
    lemma_case_space(body[0], tag[0]);
    lemma_case_space(body[last], tag[last]);
    lemma_trimmed(before, body, after);
    let request = before + body + after;
    assert(is_ascii_text(dashed(body)));
    assert(lower_text(dashed(body)) =~= lower_text(tag)) by {
        assert forall|i: int| 0 <= i < tag.len() implies #[trigger] lower_text(dashed(body))[i]
            == lower_text(tag)[i] by {
            assert(tag[i] != '_');
            lemma_case_dash(body[i], tag[i]);
        }
    }
    lemma_request_served(entries, k, request);
}

/// Letter case makes no white space.
proof fn lemma_case_space(a: char, b: char)
    requires
        ascii_small(a) == ascii_small(b) || a == '_',
        !is_space(b),
    ensures
        !is_space(a),
{
}

proof fn lemma_case_dash(a: char, b: char)
    requires
        (a == '_' && b == '-') || ascii_small(a) == ascii_small(b),
        b != '_',
    ensures
        ascii_small(
            if a == '_' {
                '-'
            } else {
                a
            },
        ) == ascii_small(b),
{
}

/// An [`Score`] to compare with.
struct Rank {
    region: bool,
    script: bool,
    subtags: usize,
    tag: Vec<char>,
}

impl Rank {
    spec fn score(&self) -> Score {
        Score {
            region: self.region,
            script: self.script,
            subtags: self.subtags as nat,
            tag: self.tag@,
        }
    }

    fn less(&self, other: &Rank) -> (r: bool)
        ensures
            r == score_less(self.score(), other.score()),
    {
        if self.region != other.region {
            other.region
        } else if self.script != other.script {
            other.script
        } else if self.subtags != other.subtags {
            self.subtags > other.subtags
        } else {
            chars_less(self.tag.as_slice(), other.tag.as_slice())
        }
    }
}

fn same_option(a: &Option<String>, b: &Option<String>) -> (r: bool)
    ensures
        r == (opt_text(*a) == opt_text(*b)),
{
    match (a, b) {
        (Some(a), Some(b)) => same_text(a.as_str(), b.as_str()),
        (None, None) => true,
        _ => false,
    }
}

fn preferred(want: &Parts) -> (r: Option<String>)
    ensures
        opt_text(r) == preferred_region(want@),
{
    match &want.region {
        Some(r) => Some(r.clone()),
        None => match &want.script {
            Some(s) => if same_text(s.as_str(), "hans") {
                Some(String::from_str("cn"))
            } else if same_text(s.as_str(), "hant") {
                Some(String::from_str("tw"))
            } else {
                None
            },
            None => None,
        },
    }
}

fn fits(want: &Option<String>, have: &Option<String>) -> (r: bool)
    ensures
        r == scripts_fit(opt_text(*want), opt_text(*have)),
{
    match (want, have) {
        (Some(w), Some(h)) => same_text(w.as_str(), h.as_str()) || ((same_text(w.as_str(), "hans")
            || same_text(w.as_str(), "hant")) && same_text(h.as_str(), "hani")),
        _ => true,
    }
}

impl PackMapping {
    pub fn parse(data: &[u8]) -> (r: Result<Self, Error>)
        ensures
            match (r, mapping_in(data@)) {
                (Ok(m), Ok(v)) => m@ == v,
                (Err(e), Err(f)) => e@ == f,
                _ => false,
            },
            r matches Ok(m) ==> well_formed_entries(m@),
    {
        proof {
            lemma_mapping_well_formed(data@);
        }
        let mut mapping: PackMapping = PackMapping::default();
        for_each_field(data, &mut mapping)?;
        Ok(mapping)
    }

    fn holds(&self, tag: &str) -> (r: bool)
        ensures
            r == has_tag(self@, tag@),
    {
        let mut i: usize = 0;
        while i < self.entries.len()
            invariant
                i <= self.entries@.len(),
                forall|j: int| 0 <= j < i ==> (#[trigger] self@[j]).tag != tag@,
            decreases self.entries@.len() - i,
        {
            if same_text(self.entries[i].0.as_str(), tag) {
                assert(self@[i as int].tag == tag@);
                return true;
            }
            i += 1;
        }
        false
    }

    /// The tags in wire order.
    pub fn tags(&self) -> (r: Vec<&str>)
        ensures
            r@.map_values(|t: &str| t@) == self@.map_values(|e: EntryView| e.tag),
    {
        let mut out: Vec<&str> = Vec::new();
        let mut i: usize = 0;
        while i < self.entries.len()
            invariant
                i <= self.entries@.len(),
                out@.len() == i,
                forall|j: int| 0 <= j < i ==> (#[trigger] out@[j])@ == self@[j].tag,
            decreases self.entries@.len() - i,
        {
            out.push(self.entries[i].0.as_str());
            i += 1;
        }
        assert(out@.map_values(|t: &str| t@) =~= self@.map_values(|e: EntryView| e.tag));
        out
    }

    fn find_exact(&self, normalized: &str) -> (r: Option<usize>)
        ensures
            match r {
                Some(i) => exact_match(self@, normalized@, i as int),
                None => forall|i: int| !exact_match(self@, normalized@, i),
            },
    {
        let mut i: usize = self.entries.len();
        while i > 0
            invariant
                i <= self.entries@.len(),
                forall|j: int|
                    i <= j < self@.len() ==> lower_text((#[trigger] self@[j]).tag) != normalized@,
            decreases i,
        {
            i -= 1;
            let lowered: String = to_lower(self.entries[i].0.as_str());
            assert(self@[i as int].tag == self.entries@[i as int].0@);
            if same_text(lowered.as_str(), normalized) {
                return Some(i);
            }
        }
        None
    }

    fn rank(want: &Parts, region: &Option<String>, have: &Parts, tag: &str) -> (r: Rank)
        requires
            opt_text(*region) == preferred_region(want@),
            have@ == parts_in(tag@),
        ensures
            r.score() == score_of(want@, tag@),
    {
        let chars: Vec<char> = chars_of(tag);
        let subtags: usize = split_chars(chars.as_slice(), '-').len();
        Rank {
            region: region.is_some() && same_option(&have.region, region),
            script: want.script.is_some() && same_option(&have.script, &want.script),
            subtags,
            tag: chars,
        }
    }

    fn find_best(&self, want: &Parts) -> (r: Option<usize>)
        ensures
            match r {
                Some(i) => best_match(self@, want@, i as int),
                None => forall|i: int|
                    0 <= i < self@.len() ==> !eligible(
                        want@,
                        parts_in((#[trigger] self@[i]).tag),
                    ),
            },
    {
        let region: Option<String> = preferred(want);
        let mut best: Option<(usize, Rank)> = None;
        let mut i: usize = 0;
        while i < self.entries.len()
            invariant
                i <= self.entries@.len(),
                opt_text(region) == preferred_region(want@),
                match best {
                    Some((b, rank)) => {
                        &&& b < i
                        &&& best_match(self@.take(i as int), want@, b as int)
                        &&& rank.score() == score_of(want@, self@[b as int].tag)
                    },
                    None => forall|j: int|
                        0 <= j < i ==> !eligible(want@, parts_in((#[trigger] self@[j]).tag)),
                },
            decreases self.entries@.len() - i,
        {
            let tag: &str = self.entries[i].0.as_str();
            assert(self@[i as int].tag == tag@);
            let have: Parts = parts(tag);
            let ghost shorter = self@.take(i as int);
            let ghost longer = self@.take(i + 1);
            assert(forall|j: int| 0 <= j < i ==> #[trigger] longer[j] == shorter[j]);
            assert(longer[i as int] == self@[i as int]);
            if same_text(have.language.as_str(), want.language.as_str()) && same_text(
                have.private.as_str(),
                want.private.as_str(),
            ) && fits(&want.script, &have.script) {
                let rank: Rank = Self::rank(want, &region, &have, tag);
                let keep: bool = match &best {
                    Some((_, top)) => rank.less(top),
                    None => false,
                };
                if !keep {
                    proof {
                        if best is Some {
                            let top = (best->0).1;
                            assert forall|j: int|
                                #![trigger longer[j]]
                                0 <= j < longer.len() && j != i && eligible(
                                    want@,
                                    parts_in(longer[j].tag),
                                ) implies {
                                let a = score_of(want@, longer[j].tag);
                                let c = score_of(want@, longer[i as int].tag);
                                score_less(a, c) || (!score_less(c, a) && j < i)
                            } by {
                                assert(shorter[j] == longer[j]);
                                let a = score_of(want@, longer[j].tag);
                                let c = score_of(want@, longer[i as int].tag);
                                lemma_score_below(a, top.score(), c);
                            }
                        }
                        assert(best_match(longer, want@, i as int));
                    }
                    best = Some((i, rank));
                } else {
                    proof {
                        let b = (best->0).0;
                        assert(longer[b as int] == shorter[b as int]);
                        assert forall|j: int|
                            #![trigger longer[j]]
                            0 <= j < longer.len() && j != b && eligible(
                                want@,
                                parts_in(longer[j].tag),
                            ) implies {
                            let a = score_of(want@, longer[j].tag);
                            let c = score_of(want@, longer[b as int].tag);
                            score_less(a, c) || (!score_less(c, a) && j < b)
                        } by {
                            if j < i {
                                assert(shorter[j] == longer[j]);
                            }
                        }
                    }
                }
            } else {
                proof {
                    if best is Some {
                        let b = (best->0).0;
                        assert(longer[b as int] == shorter[b as int]);
                        assert forall|j: int|
                            #![trigger longer[j]]
                            0 <= j < longer.len() && j != b && eligible(
                                want@,
                                parts_in(longer[j].tag),
                            ) implies {
                            let a = score_of(want@, longer[j].tag);
                            let c = score_of(want@, longer[b as int].tag);
                            score_less(a, c) || (!score_less(c, a) && j < b)
                        } by {
                            assert(j < i);
                            assert(shorter[j] == longer[j]);
                        }
                    }
                }
            }
            i += 1;
        }
        assert(self@.take(i as int) =~= self@);
        match best {
            Some((b, _)) => Some(b),
            None => None,
        }
    }

    /// Exact match wins. Otherwise keep the language and private-use variant,
    /// prefer a matching script and region, then the least specific entry. An
    /// unknown language never silently becomes another.
    pub fn resolve(&self, tag: &str) -> (r: Result<&PackNames, Error>)
        ensures
            match r {
                Ok(names) => exists|i: int| #[trigger]
                    serves(self@, tag@, i) && names@ == self@[i].names,
                Err(e) => (forall|i: int| !#[trigger] serves(self@, tag@, i)) && e@
                    == ErrorView::NoSuchLanguage(tag@),
            },
    {
        let cut: Vec<char> = trim_chars(chars_of(tag).as_slice());
        let flat: String = text_of(dash(cut.as_slice()).as_slice());
        let normalized: String = to_lower(flat.as_str());
        match self.find_exact(normalized.as_str()) {
            Some(i) => {
                assert(serves(self@, tag@, i as int));
                return Ok(&self.entries[i].1);
            },
            None => {},
        }
        let want: Parts = parts(normalized.as_str());
        match self.find_best(&want) {
            Some(i) => {
                assert(serves(self@, tag@, i as int));
                Ok(&self.entries[i].1)
            },
            None => Err(Error::NoSuchLanguage(String::from_str(tag))),
        }
    }
}

/// What is not above the top is not above what is not below the top, in the sense
/// of [`best_match`].
proof fn lemma_score_below(a: Score, top: Score, c: Score)
    requires
        score_less(a, top) || !score_less(top, a),
        !score_less(c, top),
    ensures
        score_less(a, c) || !score_less(c, a),
{
    if score_less(c, a) {
        // a is at most top in every component up to the texts, and c is not below top.
        lemma_text_less_total(a.tag, top.tag);
        lemma_text_less_total(c.tag, top.tag);
        if text_less(c.tag, a.tag) && text_less(a.tag, top.tag) {
            lemma_text_less_transitive(c.tag, a.tag, top.tag);
        }
    }
}

} // verus!
