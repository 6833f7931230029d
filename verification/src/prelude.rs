//! Identifiers and paths.

use crate::text::chars_of;
use vstd::prelude::*;
use vstd::utf8::encode_utf8;

verus! {

/// Id of the backend instance
/// 0 is reserved for the bootstrap
pub type BackendId = u32;

/// The texts that a sequence of strings holds.
pub open spec fn names(strings: Seq<String>) -> Seq<Seq<char>> {
    strings.map_values(|s: String| s@)
}

/// The way from the root of the file tree to an inode.
#[derive(Debug)]
pub struct InodePath {
    segments: Vec<String>,
}

impl View for InodePath {
    type V = Seq<Seq<char>>;

    closed spec fn view(&self) -> Seq<Seq<char>> {
        names(self.segments@)
    }
}

impl InodePath {
    /// The path with the given segments, from the root on.
    pub fn from_segments(segments: Vec<String>) -> (path: Self)
        ensures
            path@ == names(segments@),
    {
        InodePath { segments }
    }

    /// The segments of the path, from the root on.
    pub fn as_slice(&self) -> (segments: &[String])
        ensures
            names(segments@) == self@,
    {
        self.segments.as_slice()
    }
}

impl Clone for InodePath {
    fn clone(&self) -> (copy: Self)
        ensures
            copy@ == self@,
    {
        let segments = self.segments.clone();
        proof {
            assert(names(segments@) =~= names(self.segments@));
        }
        InodePath { segments }
    }
}

impl Default for InodePath {
    /// The path to the root.
    fn default() -> (path: Self)
        ensures
            path@ == Seq::<Seq<char>>::empty(),
    {
        let path = InodePath { segments: Vec::new() };
        proof {
            assert(path@ =~= Seq::<Seq<char>>::empty());
        }
        path
    }
}

/// Why a text is no path.
#[derive(Clone, Copy, Debug, PartialEq, Eq, Structural)]
pub enum InodePathParseError {
    SegmentTooLong,
    SegmentEmpty,
}

impl InodePathParseError {
    /// What is wrong, in words.
    pub fn message(&self) -> (text: String)
        ensures
            text@ == (match *self {
                InodePathParseError::SegmentTooLong => "Path segment length exceeds 255 bytes"@,
                InodePathParseError::SegmentEmpty => "Path segment was empty"@,
            }),
    {
        match self {
            InodePathParseError::SegmentTooLong =>
                "Path segment length exceeds 255 bytes".to_owned(),
            InodePathParseError::SegmentEmpty => "Path segment was empty".to_owned(),
        }
    }
}

/// A character that Unicode counts as white space.
pub open spec fn is_white_space(c: char) -> bool {
    let n = c as int;
    9 <= n <= 13 || n == 0x20 || n == 0x85 || n == 0xA0 || n == 0x1680 || 0x2000 <= n <= 0x200A || n
        == 0x2028 || n == 0x2029 || n == 0x202F || n == 0x205F || n == 0x3000
}

/// Whether Unicode counts a character as white space.
pub fn white_space(c: char) -> (space: bool)
    ensures
        space == is_white_space(c),
{
    let n: u32 = c as u32;
    (9 <= n && n <= 13) || n == 0x20 || n == 0x85 || n == 0xA0 || n == 0x1680 || (0x2000 <= n && n
        <= 0x200A) || n == 0x2028 || n == 0x2029 || n == 0x202F || n == 0x205F || n == 0x3000
}

/// A text without the white space at its start.
pub open spec fn trimmed_start(text: Seq<char>) -> Seq<char>
    decreases text.len(),
{
    if text.len() > 0 && is_white_space(text.first()) {
        trimmed_start(text.drop_first())
    } else {
        text
    }
}

/// A text without the white space at its end.
pub open spec fn trimmed_end(text: Seq<char>) -> Seq<char>
    decreases text.len(),
{
    if text.len() > 0 && is_white_space(text.last()) {
        trimmed_end(text.drop_last())
    } else {
        text
    }
}

/// A text without one slash at its start.
pub open spec fn without_first_slash(text: Seq<char>) -> Seq<char> {
    if text.len() > 0 && text.first() == '/' {
        text.drop_first()
    } else {
        text
    }
}

/// A text without one slash at its end.
pub open spec fn without_last_slash(text: Seq<char>) -> Seq<char> {
    if text.len() > 0 && text.last() == '/' {
        text.drop_last()
    } else {
        text
    }
}

/// The parts of a text between the slashes.
pub open spec fn split_at_slashes(text: Seq<char>) -> Seq<Seq<char>>
    decreases text.len(),
{
    if text.len() == 0 {
        seq![Seq::empty()]
    } else {
        let before = split_at_slashes(text.drop_last());
        if text.last() == '/' {
            before.push(Seq::empty())
        } else {
            before.drop_last().push(before.last().push(text.last()))
        }
    }
}

/// What is wrong with a segment, if something is.
pub open spec fn segment_fault(segment: Seq<char>) -> Option<InodePathParseError> {
    if segment.len() == 0 {
        Some(InodePathParseError::SegmentEmpty)
    } else if encode_utf8(segment).len() > 255 {
        Some(InodePathParseError::SegmentTooLong)
    } else {
        None
    }
}

/// What is wrong with the first wrong segment, if one is wrong.
pub open spec fn first_fault(segments: Seq<Seq<char>>) -> Option<InodePathParseError>
    decreases segments.len(),
{
    if segments.len() == 0 {
        None
    } else {
        match first_fault(segments.drop_last()) {
            Some(fault) => Some(fault),
            None => segment_fault(segments.last()),
        }
    }
}

/// The path that a text stands for, or why it stands for none.
pub open spec fn path_of(text: Seq<char>) -> Result<Seq<Seq<char>>, InodePathParseError> {
    let body = without_last_slash(without_first_slash(trimmed_end(trimmed_start(text))));
    if body.len() == 0 {
        Ok(Seq::empty())
    } else {
        match first_fault(split_at_slashes(body)) {
            Some(fault) => Err(fault),
            None => Ok(split_at_slashes(body)),
        }
    }
}

/// The first of several faults stays the first where segments follow.
proof fn lemma_first_fault_stays(segments: Seq<Seq<char>>, n: int)
    requires
        0 <= n <= segments.len(),
    ensures
        first_fault(segments.take(n)) matches Some(fault) ==> first_fault(segments) == Some(fault),
    decreases segments.len() - n,
{
    if n < segments.len() {
        assert(segments.take(n + 1).drop_last() =~= segments.take(n));
        lemma_first_fault_stays(segments, n + 1);
    } else {
        assert(segments.take(n) =~= segments);
    }
}

/// The bounds of a text without the white space at both ends.
fn trim_bounds(chars: &Vec<char>) -> (bounds: (usize, usize))
    ensures
        bounds.0 <= bounds.1 <= chars.len(),
        trimmed_end(trimmed_start(chars@)) == chars@.subrange(bounds.0 as int, bounds.1 as int),
{
    let mut from: usize = 0;
    proof {
        assert(chars@.skip(0) =~= chars@);
    }
    while from < chars.len() && white_space(chars[from])
        invariant
            from <= chars.len(),
            trimmed_start(chars@) == trimmed_start(chars@.skip(from as int)),
        decreases chars.len() - from,
    {
        proof {
            assert(chars@.skip(from as int).drop_first() =~= chars@.skip(from + 1));
        }
        from += 1;
    }
    let mut to: usize = chars.len();
    proof {
        assert(chars@.skip(from as int) =~= chars@.subrange(from as int, to as int));
    }
    while to > from && white_space(chars[to - 1])
        invariant
            from <= to <= chars.len(),
            trimmed_end(chars@.skip(from as int)) == trimmed_end(
                chars@.subrange(from as int, to as int),
            ),
        decreases to - from,
    {
        proof {
            assert(chars@.subrange(from as int, to as int).drop_last() =~= chars@.subrange(
                from as int,
                to - 1,
            ));
        }
        to -= 1;
    }
    (from, to)
}

/// The parts between the slashes of a stretch of a text.
fn split_segments(text: &str, chars: &Vec<char>, from: usize, to: usize) -> (segments: Vec<String>)
    requires
        chars@ == text@,
        from <= to <= chars.len(),
    ensures
        names(segments@) == split_at_slashes(text@.subrange(from as int, to as int)),
{
    let mut segments: Vec<String> = Vec::new();
    let mut start: usize = from;
    let mut i: usize = from;
    proof {
        assert(text@.subrange(from as int, from as int) =~= Seq::<char>::empty());
        assert(names(segments@).push(text@.subrange(start as int, i as int)) =~= seq![
            Seq::<char>::empty(),
        ]);
    }
    while i < to
        invariant
            chars@ == text@,
            from <= start <= i <= to <= chars.len(),
            split_at_slashes(text@.subrange(from as int, i as int)) == names(segments@).push(
                text@.subrange(start as int, i as int),
            ),
        decreases to - i,
    {
        let ghost before = names(segments@);
        let ghost part = text@.subrange(start as int, i as int);
        proof {
            let now = text@.subrange(from as int, i + 1);
            assert(now.drop_last() =~= text@.subrange(from as int, i as int));
            assert(now.last() == chars@[i as int]);
            assert(before.push(part).drop_last() =~= before);
        }
        if chars[i] == '/' {
            segments.push(text.substring_char(start, i).to_owned());
            start = i + 1;
            proof {
                assert(names(segments@) =~= before.push(part));
                assert(text@.subrange(start as int, i + 1) =~= Seq::<char>::empty());
            }
        } else {
            proof {
                assert(text@.subrange(start as int, i + 1) =~= part.push(chars@[i as int]));
            }
        }
        i += 1;
    }
    segments.push(text.substring_char(start, to).to_owned());
    proof {
        assert(names(segments@) =~= split_at_slashes(text@.subrange(from as int, to as int)));
    }
    segments
}

impl InodePath {
    /// Takes off the last segment.
    pub fn pop(&mut self) -> (last: Option<String>)
        ensures
            match last {
                Some(segment) => {
                    &&& old(self)@.len() > 0
                    &&& segment@ == old(self)@.last()
                    &&& final(self)@ == old(self)@.drop_last()
                },
                None => old(self)@.len() == 0 && final(self)@ == old(self)@,
            },
    {
        let ghost before = self.segments@;
        let last = self.segments.pop();
        proof {
            if before.len() > 0 {
                assert(names(self.segments@) =~= names(before).drop_last());
            }
        }
        last
    }

    /// The segments of the path, from the root on.
    pub fn iter(&self) -> (segments: Vec<&str>)
        ensures
            segments@.map_values(|s: &str| s@) == self@,
    {
        let mut segments: Vec<&str> = Vec::new();
        let mut i: usize = 0;
        while i < self.segments.len()
            invariant
                i <= self.segments.len(),
                segments@.len() == i,
                forall|k: int| 0 <= k < i ==> (#[trigger] segments@[k])@ == self.segments@[k]@,
            decreases self.segments.len() - i,
        {
            segments.push(self.segments[i].as_str());
            i += 1;
        }
        proof {
            assert(segments@.map_values(|s: &str| s@) =~= self@);
        }
        segments
    }

    /// The path that a text stands for. White space around it does not count, nor does one slash
    /// at either end.
    pub fn from_str(s: &str) -> (path: Result<Self, InodePathParseError>)
        ensures
            match path_of(s@) {
                Ok(segments) => path matches Ok(p) && p@ == segments,
                Err(why) => path == Err::<Self, InodePathParseError>(why),
            },
    {
        let chars = chars_of(s);
        let (mut from, mut to): (usize, usize) = trim_bounds(&chars);
        let ghost trimmed = s@.subrange(from as int, to as int);
        if from < to && chars[from] == '/' {
            from += 1;
        }
        let ghost unprefixed = s@.subrange(from as int, to as int);
        proof {
            assert(unprefixed =~= without_first_slash(trimmed));
        }
        if from < to && chars[to - 1] == '/' {
            to -= 1;
        }
        proof {
            assert(s@.subrange(from as int, to as int) =~= without_last_slash(unprefixed));
        }
        if from == to {
            return Ok(InodePath::default());
        }
        let segments = split_segments(s, &chars, from, to);
        let ghost parts = names(segments@);
        let mut i: usize = 0;
        proof {
            assert(parts.take(0) =~= Seq::<Seq<char>>::empty());
        }
        while i < segments.len()
            invariant
                i <= segments.len(),
                parts == names(segments@),
                path_of(s@) == (match first_fault(parts) {
                    Some(fault) => Err::<Seq<Seq<char>>, InodePathParseError>(fault),
                    None => Ok(parts),
                }),
                first_fault(parts.take(i as int)) is None,
            decreases segments.len() - i,
        {
            proof {
                assert(parts.take(i + 1).drop_last() =~= parts.take(i as int));
                assert(parts.take(i + 1).last() == segments@[i as int]@);
                lemma_first_fault_stays(parts, i + 1);
            }
            let segment: &str = segments[i].as_str();
            let length: usize = segment.as_bytes().len();
            if segment.unicode_len() == 0 {
                return Err(InodePathParseError::SegmentEmpty);
            }
            if length > 255 {
                return Err(InodePathParseError::SegmentTooLong);
            }
            i += 1;
        }
        proof {
            assert(parts.take(i as int) =~= parts);
        }
        Ok(InodePath { segments })
    }
}

/// A path that was read from a text has segments that are neither empty nor too long, and that
/// hold no slash.
pub proof fn segments_of_a_path_are_sound(text: Seq<char>, i: int)
    requires
        path_of(text) matches Ok(path) && 0 <= i < path.len(),
    ensures
        segment_fault(path_of(text)->Ok_0[i]) is None,
        !path_of(text)->Ok_0[i].contains('/'),
{
    let body = without_last_slash(without_first_slash(trimmed_end(trimmed_start(text))));
    lemma_no_fault(split_at_slashes(body), i);
    lemma_no_slash(body, i);
}

proof fn lemma_no_fault(segments: Seq<Seq<char>>, i: int)
    requires
        first_fault(segments) is None,
        0 <= i < segments.len(),
    ensures
        segment_fault(segments[i]) is None,
    decreases segments.len(),
{
    if i < segments.len() - 1 {
        lemma_no_fault(segments.drop_last(), i);
    }
}

proof fn lemma_no_slash(text: Seq<char>, i: int)
    requires
        0 <= i < split_at_slashes(text).len(),
    ensures
        !split_at_slashes(text)[i].contains('/'),
    decreases text.len(),
{
    if text.len() > 0 {
        let before = split_at_slashes(text.drop_last());
        lemma_split_is_not_empty(text.drop_last());
        if text.last() == '/' {
            if i < before.len() {
                lemma_no_slash(text.drop_last(), i);
            }
        } else {
            lemma_no_slash(text.drop_last(), i);
            if i == before.len() - 1 {
                let part = split_at_slashes(text)[i];
                if part.contains('/') {
                    let k = choose|k: int| 0 <= k < part.len() && part[k] == '/';
                    assert(before.last()[k] == '/');
                    assert(before[i].contains('/'));
                }
            }
        }
    }
}

proof fn lemma_split_is_not_empty(text: Seq<char>)
    ensures
        split_at_slashes(text).len() > 0,
    decreases text.len(),
{
    if text.len() > 0 {
        lemma_split_is_not_empty(text.drop_last());
    }
}

/// Segments one behind the other, with a slash between each and the next.
pub open spec fn joined(segments: Seq<Seq<char>>) -> Seq<char>
    decreases segments.len(),
{
    if segments.len() <= 1 {
        segments[0]
    } else {
        joined(segments.drop_last()).push('/') + segments.last()
    }
}

/// A text without slashes behind a slash is one more part.
proof fn lemma_split_goes_on(text: Seq<char>, part: Seq<char>)
    requires
        !part.contains('/'),
    ensures
        split_at_slashes(text.push('/') + part) == split_at_slashes(text).push(part),
    decreases part.len(),
{
    let all = text.push('/') + part;
    if part.len() == 0 {
        assert(all =~= text.push('/'));
        assert(all.drop_last() =~= text);
        assert(part =~= Seq::<char>::empty());
    } else {
        let less = part.drop_last();
        assert(!less.contains('/')) by {
            if less.contains('/') {
                let k = choose|k: int| 0 <= k < less.len() && less[k] == '/';
                assert(part[k] == '/');
            }
        }
        lemma_split_goes_on(text, less);
        assert(all.drop_last() =~= text.push('/') + less);
        assert(all.last() == part.last());
        assert(part[part.len() - 1] != '/');
        let before = split_at_slashes(text).push(less);
        assert(before.drop_last() =~= split_at_slashes(text));
        assert(less.push(part.last()) =~= part);
    }
}

/// A text without slashes is one part.
proof fn lemma_split_of_one(part: Seq<char>)
    requires
        !part.contains('/'),
    ensures
        split_at_slashes(part) == seq![part],
    decreases part.len(),
{
    if part.len() == 0 {
        assert(part =~= Seq::<char>::empty());
    } else {
        let less = part.drop_last();
        assert(!less.contains('/')) by {
            if less.contains('/') {
                let k = choose|k: int| 0 <= k < less.len() && less[k] == '/';
                assert(part[k] == '/');
            }
        }
        lemma_split_of_one(less);
        assert(part[part.len() - 1] != '/');
        assert(less.push(part.last()) =~= part);
        assert(seq![less].drop_last() =~= Seq::<Seq<char>>::empty());
        assert(Seq::<Seq<char>>::empty().push(part) =~= seq![part]);
    }
}

proof fn lemma_split_undoes_joining(segments: Seq<Seq<char>>)
    requires
        segments.len() > 0,
        forall|i: int| 0 <= i < segments.len() ==> !(#[trigger] segments[i]).contains('/'),
    ensures
        split_at_slashes(joined(segments)) == segments,
    decreases segments.len(),
{
    if segments.len() == 1 {
        lemma_split_of_one(segments[0]);
        assert(segments =~= seq![segments[0]]);
    } else {
        let most = segments.drop_last();
        assert forall|i: int| 0 <= i < most.len() implies !(#[trigger] most[i]).contains('/') by {
            assert(most[i] == segments[i]);
        }
        lemma_split_undoes_joining(most);
        assert(!segments[segments.len() - 1].contains('/'));
        lemma_split_goes_on(joined(most), segments.last());
        assert(most.push(segments.last()) =~= segments);
    }
}

proof fn lemma_where_the_fault_is(segments: Seq<Seq<char>>) -> (at: int)
    ensures
        0 <= at <= segments.len(),
        forall|i: int| 0 <= i < at ==> segment_fault(#[trigger] segments[i]) is None,
        at < segments.len() ==> first_fault(segments) == segment_fault(segments[at])
            && segment_fault(segments[at]) is Some,
        at == segments.len() ==> first_fault(segments) is None,
    decreases segments.len(),
{
    if segments.len() == 0 {
        0
    } else {
        let most = segments.drop_last();
        let at = lemma_where_the_fault_is(most);
        assert forall|i: int| 0 <= i < at implies segment_fault(#[trigger] segments[i]) is None by {
            assert(most[i] == segments[i]);
        }
        if at < most.len() {
            assert(most[at] == segments[at]);
            at
        } else if segment_fault(segments.last()) is Some {
            at
        } else {
            at + 1
        }
    }
}

/// Between a slash at either end, a text stands for the path of exactly the segments that are
/// written there with slashes between them. It stands for none where a segment is empty or takes
/// more than 255 bytes, and the first such segment says why. Two slashes alone are the root.
pub proof fn a_path_is_read_back_segment_by_segment(segments: Seq<Seq<char>>) -> (at: int)
    requires
        segments.len() > 0,
        forall|i: int| 0 <= i < segments.len() ==> !(#[trigger] segments[i]).contains('/'),
    ensures
        ({
            let text = seq!['/'] + joined(segments) + seq!['/'];
            if segments.len() == 1 && segments[0].len() == 0 {
                path_of(text) == Ok::<Seq<Seq<char>>, InodePathParseError>(Seq::empty())
            } else {
                &&& 0 <= at <= segments.len()
                &&& forall|i: int|
                    0 <= i < at ==> 0 < (#[trigger] segments[i]).len() && encode_utf8(
                        segments[i],
                    ).len() <= 255
                &&& path_of(text) == (if at == segments.len() {
                    Ok(segments)
                } else if segments[at].len() == 0 {
                    Err(InodePathParseError::SegmentEmpty)
                } else {
                    Err(InodePathParseError::SegmentTooLong)
                })
                &&& at < segments.len() ==> segments[at].len() == 0 || encode_utf8(
                    segments[at],
                ).len() > 255
            }
        }),
{
    let body = joined(segments);
    let text = seq!['/'] + body + seq!['/'];
    assert(text.first() == '/' && text.last() == '/');
    assert(trimmed_start(text) == text);
    assert(trimmed_end(text) == text);
    assert(text.drop_first() =~= body.push('/'));
    assert(text.drop_first().drop_last() =~= body);
    lemma_split_undoes_joining(segments);
    if body.len() == 0 {
        if segments.len() > 1 {
            assert(body.len() > joined(segments.drop_last()).len());
        }
    } else if segments.len() == 1 {
        assert(segments[0].len() > 0);
    }
    lemma_where_the_fault_is(segments)
}

/// White space in front of a text or behind it does not change the path that it stands for.
pub proof fn white_space_around_a_path_does_not_count(text: Seq<char>, c: char)
    requires
        is_white_space(c),
    ensures
        path_of(seq![c] + text) == path_of(text),
        path_of(text.push(c)) == path_of(text),
{
    assert((seq![c] + text).drop_first() =~= text);
    lemma_trim_behind(text, c);
}

proof fn lemma_trim_behind(text: Seq<char>, c: char)
    requires
        is_white_space(c),
    ensures
        trimmed_end(trimmed_start(text.push(c))) == trimmed_end(trimmed_start(text)),
    decreases text.len(),
{
    if text.len() == 0 {
        assert(text.push(c).drop_first() =~= text);
        assert(text =~= Seq::<char>::empty());
    } else if is_white_space(text.first()) {
        assert(text.push(c).drop_first() =~= text.drop_first().push(c));
        lemma_trim_behind(text.drop_first(), c);
    } else {
        assert(text.push(c).drop_last() =~= text);
    }
}

/// One slash at the start of a text and one at its end do not change the path that it stands for,
/// where neither white space nor another slash stands next to it.
pub proof fn one_slash_around_a_path_does_not_count(text: Seq<char>)
    requires
        text.len() > 0,
    ensures
        text.first() != '/' && !is_white_space(text.first()) ==> path_of(seq!['/'] + text)
            == path_of(text),
        text.last() != '/' && !is_white_space(text.last()) ==> path_of(text.push('/')) == path_of(
            text,
        ),
        path_of(Seq::empty()) == Ok::<Seq<Seq<char>>, InodePathParseError>(Seq::empty()),
        path_of(seq!['/']) == Ok::<Seq<Seq<char>>, InodePathParseError>(Seq::empty()),
{
    assert(seq!['/'].drop_first() =~= Seq::<char>::empty());
    let front = seq!['/'] + text;
    if text.first() != '/' && !is_white_space(text.first()) {
        assert(front.drop_first() =~= text);
        assert(trimmed_start(text) == text);
        assert(trimmed_start(front) == front);
        lemma_trim_behind_a_slash(text);
        let trimmed = trimmed_end(text);
        lemma_trimmed_end_keeps_the_first(text);
        assert((seq!['/'] + trimmed).drop_first() =~= trimmed);
    }
    if text.last() != '/' && !is_white_space(text.last()) {
        let back = text.push('/');
        assert(back.drop_last() =~= text);
        lemma_trim_before_a_slash(text);
        let trimmed = trimmed_start(text);
        lemma_trimmed_start_keeps_the_last(text);
        assert(trimmed_end(trimmed) == trimmed);
        assert(trimmed_end(trimmed.push('/')) == trimmed.push('/'));
        if trimmed.first() == '/' {
            assert(trimmed.push('/').drop_first() =~= trimmed.drop_first().push('/'));
            assert(trimmed.len() > 1);
            assert(trimmed.drop_first().last() == trimmed.last());
            assert(trimmed.drop_first().push('/').drop_last() =~= trimmed.drop_first());
        } else {
            assert(trimmed.push('/').drop_last() =~= trimmed);
        }
    }
}

proof fn lemma_trim_behind_a_slash(text: Seq<char>)
    ensures
        trimmed_end(seq!['/'] + text) == seq!['/'] + trimmed_end(text),
    decreases text.len(),
{
    let front = seq!['/'] + text;
    if text.len() > 0 {
        assert(front.last() == text.last());
        assert(front.drop_last() =~= seq!['/'] + text.drop_last());
        lemma_trim_behind_a_slash(text.drop_last());
    } else {
        assert(front.last() == '/');
    }
}

proof fn lemma_trimmed_end_keeps_the_first(text: Seq<char>)
    requires
        text.len() > 0,
        !is_white_space(text.first()),
    ensures
        trimmed_end(text).len() > 0,
        trimmed_end(text).first() == text.first(),
    decreases text.len(),
{
    if is_white_space(text.last()) {
        lemma_trimmed_end_keeps_the_first(text.drop_last());
    }
}

proof fn lemma_trim_before_a_slash(text: Seq<char>)
    requires
        text.len() > 0,
        !is_white_space(text.last()),
    ensures
        trimmed_start(text.push('/')) == trimmed_start(text).push('/'),
    decreases text.len(),
{
    if is_white_space(text.first()) {
        assert(text.push('/').drop_first() =~= text.drop_first().push('/'));
        lemma_trim_before_a_slash(text.drop_first());
    }
}

proof fn lemma_trimmed_start_keeps_the_last(text: Seq<char>)
    requires
        text.len() > 0,
        !is_white_space(text.last()),
    ensures
        trimmed_start(text).len() > 0,
        trimmed_start(text).last() == text.last(),
    decreases text.len(),
{
    if is_white_space(text.first()) {
        lemma_trimmed_start_keeps_the_last(text.drop_first());
    }
}

/// The characters that count as white space are those with the Unicode property of that name: the
/// tabulators and line ends, the spaces of every width, and the separators of lines and paragraphs.
/// None of the others does, and so no slash.
pub proof fn white_space_is_that_of_unicode(c: char)
    ensures
        is_white_space(c) <==> seq![
            0x9int, 0xA, 0xB, 0xC, 0xD, 0x20, 0x85, 0xA0, 0x1680, 0x2000, 0x2001, 0x2002, 0x2003,
            0x2004, 0x2005, 0x2006, 0x2007, 0x2008, 0x2009, 0x200A, 0x2028, 0x2029, 0x202F, 0x205F,
            0x3000,
        ].contains(c as int),
{
    let spaces = seq![
        0x9int, 0xA, 0xB, 0xC, 0xD, 0x20, 0x85, 0xA0, 0x1680, 0x2000, 0x2001, 0x2002, 0x2003,
        0x2004, 0x2005, 0x2006, 0x2007, 0x2008, 0x2009, 0x200A, 0x2028, 0x2029, 0x202F, 0x205F,
        0x3000,
    ];
    let n = c as int;
    if is_white_space(c) {
        let at = if n <= 0xD {
            n - 9
        } else if n == 0x20 {
            5int
        } else if n == 0x85 {
            6int
        } else if n == 0xA0 {
            7int
        } else if n == 0x1680 {
            8int
        } else if n <= 0x200A {
            n - 0x2000 + 9
        } else if n == 0x2028 {
            20int
        } else if n == 0x2029 {
            21int
        } else if n == 0x202F {
            22int
        } else if n == 0x205F {
            23int
        } else {
            24int
        };
        assert(spaces[at] == n);
    }
}

/// A path is seen with every segment that it has, character by character.
pub proof fn names_are_seen_in_full(strings: Seq<String>)
    ensures
        names(strings).len() == strings.len(),
        forall|i: int| 0 <= i < strings.len() ==> #[trigger] names(strings)[i] == strings[i]@,
{
}

} // verus!
