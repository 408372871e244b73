//! The lines of `/proc/self/maps` that list the vDSO and vvar mappings.

use vstd::prelude::*;
use crate::cli::{Segment, segment_of_kernel_name};
use crate::error::{AppError, is_message};
use crate::text::{chars_of, owned, parse_unsigned, push_str, string_of, unsigned_value};

verus! {

/// Whether a character has the Unicode `White_Space` property
/// (`char::is_whitespace`).
pub open spec fn is_whitespace(c: char) -> bool {
    ||| '\u{9}' <= c <= '\u{d}'
    ||| c == ' '
    ||| c == '\u{85}'
    ||| c == '\u{a0}'
    ||| c == '\u{1680}'
    ||| '\u{2000}' <= c <= '\u{200a}'
    ||| c == '\u{2028}'
    ||| c == '\u{2029}'
    ||| c == '\u{202f}'
    ||| c == '\u{205f}'
    ||| c == '\u{3000}'
}

/// Whether a character has the Unicode `White_Space` property.
pub fn whitespace(c: char) -> (r: bool)
    ensures
        r == is_whitespace(c),
{
    ('\u{9}' <= c && c <= '\u{d}') || c == ' ' || c == '\u{85}' || c == '\u{a0}' || c == '\u{1680}'
        || ('\u{2000}' <= c && c <= '\u{200a}') || c == '\u{2028}' || c == '\u{2029}' || c
        == '\u{202f}' || c == '\u{205f}' || c == '\u{3000}'
}

/// The position of the first occurrence of `c`.
pub open spec fn find_char(s: Seq<char>, c: char) -> Option<int>
    decreases s.len(),
{
    if s.len() == 0 {
        None
    } else if s[0] == c {
        Some(0)
    } else {
        match find_char(s.drop_first(), c) {
            Some(k) => Some(k + 1),
            None => None,
        }
    }
}

/// The position of the first whitespace character.
pub open spec fn find_whitespace(s: Seq<char>) -> Option<int>
    decreases s.len(),
{
    if s.len() == 0 {
        None
    } else if is_whitespace(s[0]) {
        Some(0)
    } else {
        match find_whitespace(s.drop_first()) {
            Some(k) => Some(k + 1),
            None => None,
        }
    }
}

pub proof fn lemma_find_char_bound(s: Seq<char>, c: char)
    ensures
        find_char(s, c) matches Some(k) ==> 0 <= k < s.len() && s[k] == c,
    decreases s.len(),
{
    if s.len() > 0 && s[0] != c {
        lemma_find_char_bound(s.drop_first(), c);
    }
}

pub proof fn lemma_find_whitespace_bound(s: Seq<char>)
    ensures
        find_whitespace(s) matches Some(k) ==> 0 <= k < s.len() && is_whitespace(s[k]),
        s.len() > 0 && !is_whitespace(s[0]) ==> (find_whitespace(s) matches Some(k) ==> k > 0),
    decreases s.len(),
{
    if s.len() > 0 && !is_whitespace(s[0]) {
        lemma_find_whitespace_bound(s.drop_first());
    }
}

/// `s` without one trailing carriage return.
pub open spec fn strip_cr(s: Seq<char>) -> Seq<char> {
    if s.len() > 0 && s.last() == '\r' {
        s.drop_last()
    } else {
        s
    }
}

/// The lines of a text (`str::lines`): split at each newline, a carriage
/// return before the newline removed, no line after a final newline.
pub open spec fn text_lines(s: Seq<char>) -> Seq<Seq<char>>
    decreases s.len(),
{
    if s.len() == 0 {
        Seq::empty()
    } else {
        match find_char(s, '\n') {
            None => seq![s],
            Some(k) => {
                proof {
                    lemma_find_char_bound(s, '\n');
                }
                seq![strip_cr(s.take(k))] + text_lines(s.skip(k + 1))
            },
        }
    }
}

/// The words of a line (`str::split_whitespace`): the maximal runs of
/// characters other than whitespace.
pub open spec fn words(s: Seq<char>) -> Seq<Seq<char>>
    decreases s.len(),
{
    if s.len() == 0 {
        Seq::empty()
    } else if is_whitespace(s[0]) {
        words(s.drop_first())
    } else {
        match find_whitespace(s) {
            None => seq![s],
            Some(k) => {
                proof {
                    lemma_find_whitespace_bound(s);
                }
                seq![s.take(k)] + words(s.skip(k))
            },
        }
    }
}

proof fn lemma_find_char(s: Seq<char>, c: char, k: int)
    requires
        0 <= k <= s.len(),
        forall|i: int| 0 <= i < k ==> s[i] != c,
    ensures
        k < s.len() && s[k] == c ==> find_char(s, c) == Some(k),
        k == s.len() ==> find_char(s, c) is None,
    decreases k,
{
    if k > 0 {
        lemma_find_char(s.drop_first(), c, k - 1);
    }
}

proof fn lemma_find_whitespace(s: Seq<char>, k: int)
    requires
        0 <= k <= s.len(),
        forall|i: int| 0 <= i < k ==> !is_whitespace(#[trigger] s[i]),
    ensures
        k < s.len() && is_whitespace(s[k]) ==> find_whitespace(s) == Some(k),
        k == s.len() ==> find_whitespace(s) is None,
    decreases k,
{
    if k > 0 {
        assert forall|i: int| 0 <= i < k - 1 implies !is_whitespace(#[trigger] s.drop_first()[i]) by {
            assert(s.drop_first()[i] == s[i + 1]);
        }
        lemma_find_whitespace(s.drop_first(), k - 1);
    }
}

/// The views of a vector of character vectors.
pub open spec fn char_vecs(v: Seq<Vec<char>>) -> Seq<Seq<char>> {
    v.map_values(|x: Vec<char>| x@)
}

/// The lines of a text.
pub fn split_lines(text: &[char]) -> (lines: Vec<Vec<char>>)
    ensures
        char_vecs(lines@) == text_lines(text@),
{
    let len = text.len();
    let mut lines: Vec<Vec<char>> = Vec::new();
    let mut pos: usize = 0;
    assert(text@.skip(0) =~= text@);
    assert(char_vecs(lines@) =~= Seq::<Seq<char>>::empty());
    while pos < len
        invariant
            pos <= len,
            len == text@.len(),
            text_lines(text@) == char_vecs(lines@) + text_lines(text@.skip(pos as int)),
        decreases len - pos,
    {
        let ghost rest = text@.skip(pos as int);
        let mut end = pos;
        while end < len && text[end] != '\n'
            invariant
                pos <= end <= len,
                len == text@.len(),
                rest == text@.skip(pos as int),
                forall|i: int| 0 <= i < end - pos ==> rest[i] != '\n',
            decreases len - end,
        {
            end = end + 1;
        }
        proof {
            lemma_find_char(rest, '\n', end - pos);
        }
        let mut line_end = end;
        if end < len && line_end > pos && text[line_end - 1] == '\r' {
            line_end = line_end - 1;
        }
        let mut line: Vec<char> = Vec::new();
        let mut i = pos;
        while i < line_end
            invariant
                pos <= i <= line_end <= len,
                len == text@.len(),
                line@ == text@.subrange(pos as int, i as int),
            decreases line_end - i,
        {
            line.push(text[i]);
            i = i + 1;
            assert(line@ =~= text@.subrange(pos as int, i as int));
        }
        let ghost old_lines = char_vecs(lines@);
        lines.push(line);
        proof {
            assert(char_vecs(lines@) =~= old_lines.push(line@));
            if end < len {
                assert(rest.take(end - pos) =~= text@.subrange(pos as int, end as int));
                assert(rest.skip(end - pos + 1) =~= text@.skip(end + 1));
                assert(line@ =~= strip_cr(rest.take(end - pos)));
                assert(text_lines(rest) =~= seq![line@] + text_lines(text@.skip(end + 1)));
                assert(text_lines(text@) =~= char_vecs(lines@) + text_lines(text@.skip(end + 1)));
            } else {
                assert(line@ =~= rest);
                assert(text_lines(rest) =~= seq![line@]);
                assert(text@.skip(len as int).len() == 0);
                assert(text_lines(text@) =~= char_vecs(lines@) + text_lines(text@.skip(len as int)));
            }
        }
        pos = if end < len {
            end + 1
        } else {
            len
        };
    }
    proof {
        assert(text@.skip(pos as int).len() == 0);
        assert(char_vecs(lines@) + text_lines(text@.skip(pos as int)) =~= char_vecs(lines@));
    }
    lines
}

/// The words of a line.
pub fn split_words(line: &[char]) -> (words_found: Vec<Vec<char>>)
    ensures
        char_vecs(words_found@) == words(line@),
{
    let len = line.len();
    let mut found: Vec<Vec<char>> = Vec::new();
    let mut pos: usize = 0;
    assert(line@.skip(0) =~= line@);
    assert(char_vecs(found@) =~= Seq::<Seq<char>>::empty());
    while pos < len
        invariant
            pos <= len,
            len == line@.len(),
            words(line@) == char_vecs(found@) + words(line@.skip(pos as int)),
        decreases len - pos,
    {
        let ghost rest = line@.skip(pos as int);
        if whitespace(line[pos]) {
            proof {
                assert(rest.drop_first() =~= line@.skip(pos + 1));
            }
            pos = pos + 1;
        } else {
            let mut end = pos;
            while end < len && !whitespace(line[end])
                invariant
                    pos <= end <= len,
                    len == line@.len(),
                    rest == line@.skip(pos as int),
                    forall|i: int| 0 <= i < end - pos ==> !is_whitespace(#[trigger] rest[i]),
                decreases len - end,
            {
                end = end + 1;
            }
            proof {
                lemma_find_whitespace(rest, end - pos);
            }
            let mut word: Vec<char> = Vec::new();
            let mut i = pos;
            while i < end
                invariant
                    pos <= i <= end <= len,
                    len == line@.len(),
                    word@ == line@.subrange(pos as int, i as int),
                decreases end - i,
            {
                word.push(line[i]);
                i = i + 1;
                assert(word@ =~= line@.subrange(pos as int, i as int));
            }
            let ghost old_found = char_vecs(found@);
            found.push(word);
            proof {
                assert(char_vecs(found@) =~= old_found.push(word@));
                if end < len {
                    assert(rest.take(end - pos) =~= word@);
                    assert(rest.skip(end - pos) =~= line@.skip(end as int));
                    assert(words(rest) =~= seq![word@] + words(line@.skip(end as int)));
                } else {
                    assert(word@ =~= rest);
                    assert(line@.skip(end as int).len() == 0);
                    assert(words(rest) =~= seq![word@]);
                }
                assert(words(line@) =~= char_vecs(found@) + words(line@.skip(end as int)));
            }
            pos = end;
        }
    }
    proof {
        assert(line@.skip(pos as int).len() == 0);
        assert(char_vecs(found@) + words(line@.skip(pos as int)) =~= char_vecs(found@));
    }
    found
}

/// A mapping of `/proc/self/maps`: its segment, the name and permissions
/// listed for it and its address range.
#[derive(Debug)]
pub struct Mapping {
    pub segment: Segment,
    pub kernel_name: String,
    pub permissions: String,
    pub start: usize,
    pub end: usize,
}

/// A mapping as plain values.
pub type MappingView = (Segment, Seq<char>, Seq<char>, usize, usize);

impl View for Mapping {
    type V = MappingView;

    open spec fn view(&self) -> MappingView {
        (self.segment, self.kernel_name@, self.permissions@, self.start, self.end)
    }
}

impl Mapping {
    /// The number of bytes of the mapping.
    pub fn len(&self) -> (n: usize)
        requires
            self.start <= self.end,
        ensures
            n == self.end - self.start,
    {
        self.end - self.start
    }
}

/// An address of a range, read in base 16.
pub open spec fn address_of(text: Seq<char>) -> Option<usize> {
    match unsigned_value(text, 16) {
        Some(v) => if v <= usize::MAX {
            Some(v as usize)
        } else {
            None
        },
        None => None,
    }
}

/// What a line of `/proc/self/maps` lists: nothing of interest (too few
/// fields, or a name other than a segment's), a segment's mapping, or the
/// message that rejects its address range.
pub open spec fn maps_line(line: Seq<char>) -> Result<Option<MappingView>, Seq<char>> {
    let w = words(line);
    if w.len() < 6 {
        Ok(None)
    } else {
        let range = w[0];
        let permissions = w[1];
        let kernel_name = w[5];
        match segment_of_kernel_name(kernel_name) {
            None => Ok(None),
            Some(segment) => match find_char(range, '-') {
                None => Err("malformed range in /proc/self/maps: '"@ + range + "'"@),
                Some(k) => {
                    let start_text = range.take(k);
                    let end_text = range.skip(k + 1);
                    match address_of(start_text) {
                        None => Err("malformed address in /proc/self/maps: '"@ + start_text + "'"@),
                        Some(start) => match address_of(end_text) {
                            None => Err("malformed address in /proc/self/maps: '"@ + end_text + "'"@),
                            Some(end) => if end <= start {
                                Err("invalid range in /proc/self/maps: '"@ + range + "'"@)
                            } else {
                                Ok(Some((segment, kernel_name, permissions, start, end)))
                            },
                        },
                    }
                },
            },
        }
    }
}

/// The mappings listed by the lines, after those in `found`, or the message
/// of the first line that is rejected.
pub open spec fn maps_from(lines: Seq<Seq<char>>, found: Seq<MappingView>) -> Result<Seq<MappingView>, Seq<char>>
    decreases lines.len(),
{
    if lines.len() == 0 {
        Ok(found)
    } else {
        match maps_line(lines[0]) {
            Err(m) => Err(m),
            Ok(None) => maps_from(lines.drop_first(), found),
            Ok(Some(v)) => maps_from(lines.drop_first(), found.push(v)),
        }
    }
}

/// The segment mappings that a `/proc/self/maps` text lists, in order.
pub open spec fn maps_of(contents: Seq<char>) -> Result<Seq<MappingView>, Seq<char>> {
    maps_from(text_lines(contents), Seq::empty())
}

/// The views of a sequence of mappings.
pub open spec fn mapping_views(s: Seq<Mapping>) -> Seq<MappingView> {
    s.map_values(|m: Mapping| m@)
}

/// The message about a piece of a line, quoted.
fn quoted(before: &str, piece: &[char]) -> (e: AppError)
    ensures
        is_message(e, before@ + piece@ + "'"@),
{
    let mut message = owned(before);
    let text = string_of(piece);
    push_str(&mut message, text.as_str());
    push_str(&mut message, "'");
    AppError::Message(message)
}

/// The mapping that a line lists, if any.
fn mapping_of_line(line: &[char]) -> (r: Result<Option<Mapping>, AppError>)
    ensures
        match maps_line(line@) {
            Ok(None) => r matches Ok(None),
            Ok(Some(v)) => r matches Ok(Some(m)) && m@ == v,
            Err(msg) => r is Err && is_message(r->Err_0, msg),
        },
{
    let fields = split_words(line);
    proof {
        assert(char_vecs(fields@).len() == fields@.len());
    }
    if fields.len() < 6 {
        return Ok(None);
    }
    proof {
        assert(fields@[0]@ == char_vecs(fields@)[0]);
        assert(fields@[1]@ == char_vecs(fields@)[1]);
        assert(fields@[5]@ == char_vecs(fields@)[5]);
    }
    let kernel_name = string_of(fields[5].as_slice());
    let segment = match Segment::from_kernel_name(kernel_name.as_str()) {
        Some(segment) => segment,
        None => {
            return Ok(None);
        },
    };
    let range = fields[0].as_slice();
    let len = range.len();
    let mut dash: usize = 0;
    while dash < len && range[dash] != '-'
        invariant
            dash <= len,
            len == range@.len(),
            forall|i: int| 0 <= i < dash ==> range@[i] != '-',
        decreases len - dash,
    {
        dash = dash + 1;
    }
    proof {
        lemma_find_char(range@, '-', dash as int);
    }
    if dash == len {
        return Err(quoted("malformed range in /proc/self/maps: '", range));
    }
    let start_text = &range[0..dash];
    let end_text = &range[dash + 1..len];
    assert(start_text@ =~= range@.take(dash as int));
    assert(end_text@ =~= range@.skip(dash + 1));
    let start = match parse_unsigned(start_text, 16) {
        Some(start) => start,
        None => {
            return Err(quoted("malformed address in /proc/self/maps: '", start_text));
        },
    };
    let end = match parse_unsigned(end_text, 16) {
        Some(end) => end,
        None => {
            return Err(quoted("malformed address in /proc/self/maps: '", end_text));
        },
    };
    if end <= start {
        return Err(quoted("invalid range in /proc/self/maps: '", range));
    }
    let permissions = string_of(fields[1].as_slice());
    Ok(Some(Mapping { segment, kernel_name, permissions, start, end }))
}

/// The vDSO and vvar mappings that a `/proc/self/maps` text lists, in
/// order; lines of other mappings and lines with fewer than six fields are
/// skipped.
pub fn parse_maps(contents: &str) -> (r: Result<Vec<Mapping>, AppError>)
    ensures
        match maps_of(contents@) {
            Ok(v) => r is Ok && mapping_views(r->Ok_0@) == v,
            Err(msg) => r is Err && is_message(r->Err_0, msg),
        },
{
    let text = chars_of(contents);
    let lines = split_lines(text.as_slice());
    let ghost all = char_vecs(lines@);
    let mut mappings: Vec<Mapping> = Vec::with_capacity(3);
    let mut i: usize = 0;
    assert(all.skip(0) =~= all);
    assert(mapping_views(mappings@) =~= Seq::<MappingView>::empty());
    while i < lines.len()
        invariant
            i <= lines@.len(),
            all == char_vecs(lines@),
            all == text_lines(contents@),
            maps_of(contents@) == maps_from(all.skip(i as int), mapping_views(mappings@)),
        decreases lines@.len() - i,
    {
        proof {
            assert(all.skip(i as int)[0] == lines@[i as int]@);
            assert(all.skip(i as int).drop_first() =~= all.skip(i + 1));
        }
        match mapping_of_line(lines[i].as_slice()) {
            Err(e) => {
                return Err(e);
            },
            Ok(None) => {},
            Ok(Some(mapping)) => {
                let ghost before = mapping_views(mappings@);
                mappings.push(mapping);
                assert(mapping_views(mappings@) =~= before.push(mapping@));
            },
        }
        i = i + 1;
    }
    proof {
        assert(all.skip(i as int).len() == 0);
    }
    Ok(mappings)
}

/// Every mapping that a text lists is one of a segment's, under a kernel
/// name that denotes that segment, with a non-empty address range.
pub proof fn lemma_maps_well_formed(contents: Seq<char>)
    ensures
        maps_of(contents) matches Ok(found) ==> forall|i: int|
            0 <= i < found.len() ==> {
                &&& segment_of_kernel_name(#[trigger] found[i].1) == Some(found[i].0)
                &&& found[i].3 < found[i].4
            },
{
    lemma_maps_from_well_formed(text_lines(contents), Seq::empty());
}

/// Whether every mapping is a segment's under its kernel name with a
/// non-empty range.
pub open spec fn well_formed_mappings(found: Seq<MappingView>) -> bool {
    forall|i: int|
        0 <= i < found.len() ==> {
            &&& segment_of_kernel_name(#[trigger] found[i].1) == Some(found[i].0)
            &&& found[i].3 < found[i].4
        }
}

proof fn lemma_maps_from_well_formed(lines: Seq<Seq<char>>, found: Seq<MappingView>)
    requires
        well_formed_mappings(found),
    ensures
        maps_from(lines, found) matches Ok(all) ==> well_formed_mappings(all),
    decreases lines.len(),
{
    if lines.len() > 0 {
        match maps_line(lines[0]) {
            Err(_) => {},
            Ok(None) => lemma_maps_from_well_formed(lines.drop_first(), found),
            Ok(Some(v)) => {
                assert(well_formed_mappings(found.push(v))) by {
                    assert forall|i: int| 0 <= i < found.push(v).len() implies {
                        &&& segment_of_kernel_name(#[trigger] found.push(v)[i].1) == Some(found.push(v)[i].0)
                        &&& found.push(v)[i].3 < found.push(v)[i].4
                    } by {
                        if i < found.len() {
                            assert(found.push(v)[i] == found[i]);
                        }
                    }
                }
                lemma_maps_from_well_formed(lines.drop_first(), found.push(v));
            },
        }
    }
}

} // verus!
