//! Binding paths: addresses of values inside the nested form tree.
//!
//! A path is a sequence of segments, each a named field or a position in a
//! repeatable section. Its text form joins the segments with `.` and writes
//! positions in decimal: `me.first_name`, `children.0.name`.
use vstd::prelude::*;
use crate::decimal::{
    all_digits, decimal_text, decimal_value, is_digit, lemma_decimal_round_trip,
    lemma_decimal_text_digits, push_decimal, scan_decimal,
};
use crate::text::{chars_of, string_of};

verus! {

/// One step of a binding path.
#[derive(Debug)]
pub enum Segment {
    /// A field of a group, by its key.
    Named(String),
    /// An entry of a repeatable section, by its position.
    Indexed(u64),
}

/// The mathematical value of a [`Segment`].
pub enum SegmentView {
    Named(Seq<char>),
    Indexed(nat),
}

impl View for Segment {
    type V = SegmentView;

    open spec fn view(&self) -> SegmentView {
        match self {
            Segment::Named(key) => SegmentView::Named(key@),
            Segment::Indexed(i) => SegmentView::Indexed(*i as nat),
        }
    }
}

/// The mathematical value of a [`BindingPath`]: its segments in order.
pub type PathView = Seq<SegmentView>;

/// Why a text is not the text form of a path.
#[derive(Debug, Clone, Copy, PartialEq, Eq, Structural)]
pub enum PathError {
    /// Two separators touch, or the text starts or ends with one.
    EmptySegment,
    /// A run of digits denotes a position that does not fit in 64 bits.
    IndexOutOfRange,
}

impl Segment {
    /// A copy of the segment.
    pub fn duplicate(&self) -> (r: Segment)
        ensures
            r@ == self@,
    {
        match self {
            Segment::Named(key) => Segment::Named(key.clone()),
            Segment::Indexed(i) => Segment::Indexed(*i),
        }
    }

    /// Whether two segments are the same step.
    pub fn same(&self, other: &Segment) -> (r: bool)
        ensures
            r == (self@ == other@),
    {
        match (self, other) {
            (Segment::Named(a), Segment::Named(b)) => *a == *b,
            (Segment::Indexed(i), Segment::Indexed(j)) => *i == *j,
            _ => false,
        }
    }
}

/// An address inside the form tree.
#[derive(Debug)]
pub struct BindingPath {
    segments: Vec<Segment>,
}

impl View for BindingPath {
    type V = PathView;

    closed spec fn view(&self) -> PathView {
        self.segments@.map_values(|s: Segment| s@)
    }
}

/// The character between two segments in the text form.
pub open spec fn is_separator(c: char) -> bool {
    c == '.'
}

/// The text form of one segment.
pub open spec fn segment_text(s: SegmentView) -> Seq<char> {
    match s {
        SegmentView::Named(key) => key,
        SegmentView::Indexed(i) => decimal_text(i),
    }
}

/// The text form of a path: its segments' texts joined by separators.
pub open spec fn path_text(p: PathView) -> Seq<char>
    decreases p.len(),
{
    if p.len() == 0 {
        Seq::empty()
    } else if p.len() == 1 {
        segment_text(p[0])
    } else {
        path_text(p.drop_last()).push('.') + segment_text(p.last())
    }
}

/// The pieces of `text` between its separators. There is always at least
/// one piece; a piece is empty where two separators touch or where the text
/// starts or ends with one.
pub open spec fn split_pieces(text: Seq<char>) -> Seq<Seq<char>>
    decreases text.len(),
{
    if text.len() == 0 {
        seq![Seq::empty()]
    } else {
        let head = split_pieces(text.drop_last());
        if is_separator(text.last()) {
            head.push(Seq::empty())
        } else {
            head.drop_last().push(head.last().push(text.last()))
        }
    }
}

/// The segment that one piece of text stands for: a run of digits is a
/// position, any other non-empty piece is a key.
pub open spec fn read_piece(piece: Seq<char>) -> Result<SegmentView, PathError> {
    if piece.len() == 0 {
        Err(PathError::EmptySegment)
    } else if all_digits(piece) {
        if decimal_value(piece) <= u64::MAX {
            Ok(SegmentView::Indexed(decimal_value(piece)))
        } else {
            Err(PathError::IndexOutOfRange)
        }
    } else {
        Ok(SegmentView::Named(piece))
    }
}

/// The segments that the pieces stand for, or the error of the first piece
/// that stands for none.
pub open spec fn read_pieces(pieces: Seq<Seq<char>>) -> Result<PathView, PathError>
    decreases pieces.len(),
{
    if pieces.len() == 0 {
        Ok(Seq::empty())
    } else {
        match read_pieces(pieces.drop_last()) {
            Err(e) => Err(e),
            Ok(head) => match read_piece(pieces.last()) {
                Err(e) => Err(e),
                Ok(s) => Ok(head.push(s)),
            },
        }
    }
}

/// The path that a text stands for. The empty text is the empty path.
pub open spec fn parse_text(text: Seq<char>) -> Result<PathView, PathError> {
    if text.len() == 0 {
        Ok(Seq::empty())
    } else {
        read_pieces(split_pieces(text))
    }
}

/// Whether `p` is an initial part of `q`.
pub open spec fn is_prefix(p: PathView, q: PathView) -> bool {
    p.len() <= q.len() && q.take(p.len() as int) == p
}

/// Whether a key can be told apart from a position and from two keys in
/// the text form: it is not empty, holds no separator and is not a run of
/// digits.
pub open spec fn plain_key(key: Seq<char>) -> bool {
    &&& key.len() > 0
    &&& forall|i: int| 0 <= i < key.len() ==> !is_separator(#[trigger] key[i])
    &&& !all_digits(key)
}

/// Whether a segment is read back from its own text.
pub open spec fn plain_segment(s: SegmentView) -> bool {
    match s {
        SegmentView::Named(key) => plain_key(key),
        SegmentView::Indexed(i) => i <= u64::MAX,
    }
}

/// Whether every segment of the path is read back from its own text.
pub open spec fn plain_path(p: PathView) -> bool {
    forall|i: int| 0 <= i < p.len() ==> plain_segment(#[trigger] p[i])
}

/// The text of a plain segment is one non-empty piece.
pub proof fn lemma_segment_text_is_one_piece(s: SegmentView)
    requires
        plain_segment(s),
    ensures
        segment_text(s).len() > 0,
        forall|i: int|
            0 <= i < segment_text(s).len() ==> !is_separator(#[trigger] segment_text(s)[i]),
        read_piece(segment_text(s)) == Ok::<SegmentView, PathError>(s),
{
    match s {
        SegmentView::Named(key) => {},
        SegmentView::Indexed(i) => {
            lemma_decimal_text_digits(i);
            lemma_decimal_round_trip(i);
            let t = decimal_text(i);
            assert forall|k: int| 0 <= k < t.len() implies !is_separator(#[trigger] t[k]) by {
                assert(is_digit(t[k]));
            }
        },
    }
}

/// A text without separators is a single piece.
pub proof fn lemma_split_single(b: Seq<char>)
    requires
        forall|i: int| 0 <= i < b.len() ==> !is_separator(#[trigger] b[i]),
    ensures
        split_pieces(b) == seq![b],
    decreases b.len(),
{
    if b.len() > 0 {
        lemma_split_single(b.drop_last());
        let head = split_pieces(b.drop_last());
        assert(head.last().push(b.last()) =~= b);
        assert(head.drop_last().push(b) =~= seq![b]);
    } else {
        assert(b =~= Seq::empty());
    }
}

/// Splitting after a separator adds the rest as one more piece.
pub proof fn lemma_split_joined(a: Seq<char>, b: Seq<char>)
    requires
        forall|i: int| 0 <= i < b.len() ==> !is_separator(#[trigger] b[i]),
    ensures
        split_pieces(a.push('.') + b) == split_pieces(a).push(b),
    decreases b.len(),
{
    let whole = a.push('.') + b;
    if b.len() == 0 {
        assert(whole =~= a.push('.'));
        assert(whole.drop_last() =~= a);
        assert(b =~= Seq::empty());
    } else {
        let shorter = b.drop_last();
        lemma_split_joined(a, shorter);
        assert(whole.drop_last() =~= a.push('.') + shorter);
        assert(whole.last() == b.last());
        let head = split_pieces(a).push(shorter);
        assert(head.last().push(b.last()) =~= b);
        assert(head.drop_last() =~= split_pieces(a));
    }
}

/// The text of a plain path splits into its segments' texts, and these are
/// read back as the path.
pub proof fn lemma_path_text_pieces(p: PathView)
    requires
        plain_path(p),
        p.len() > 0,
    ensures
        path_text(p).len() > 0,
        read_pieces(split_pieces(path_text(p))) == Ok::<PathView, PathError>(p),
    decreases p.len(),
{
    let last = p.last();
    assert(plain_segment(last));
    lemma_segment_text_is_one_piece(last);
    if p.len() == 1 {
        lemma_split_single(segment_text(p[0]));
        let pieces = seq![segment_text(p[0])];
        assert(pieces.drop_last() =~= Seq::<Seq<char>>::empty());
        assert(read_pieces(pieces.drop_last()) == Ok::<PathView, PathError>(Seq::empty()));
        assert(Seq::<SegmentView>::empty().push(p[0]) =~= p);
    } else {
        let init = p.drop_last();
        assert(plain_path(init)) by {
            assert forall|i: int| 0 <= i < init.len() implies plain_segment(#[trigger] init[i]) by {
                assert(init[i] == p[i]);
            }
        }
        lemma_path_text_pieces(init);
        lemma_split_joined(path_text(init), segment_text(last));
        let pieces = split_pieces(path_text(init)).push(segment_text(last));
        assert(pieces.drop_last() =~= split_pieces(path_text(init)));
        assert(init.push(last) =~= p);
    }
}

/// Reading the text form of a path gives the path back, for every path
/// whose keys are plain.
pub proof fn lemma_parse_inverts_text(p: PathView)
    requires
        plain_path(p),
    ensures
        parse_text(path_text(p)) == Ok::<PathView, PathError>(p),
{
    if p.len() == 0 {
        assert(p =~= Seq::empty());
    } else {
        lemma_path_text_pieces(p);
    }
}

impl Clone for BindingPath {
    fn clone(&self) -> (r: BindingPath)
        ensures
            r@ == self@,
    {
        let mut segments: Vec<Segment> = Vec::new();
        let mut i: usize = 0;
        while i < self.segments.len()
            invariant
                i <= self.segments.len(),
                segments@.map_values(|s: Segment| s@) == self@.take(i as int),
            decreases self.segments.len() - i,
        {
            segments.push(self.segments[i].duplicate());
            proof {
                assert(segments@.map_values(|s: Segment| s@) =~= self@.take(i as int).push(
                    self@[i as int],
                ));
                assert(self@.take(i + 1) =~= self@.take(i as int).push(self@[i as int]));
            }
            i += 1;
        }
        proof {
            assert(self@.take(self.segments.len() as int) =~= self@);
        }
        BindingPath { segments }
    }
}

impl BindingPath {
    /// The empty path, which addresses the root of the tree.
    pub fn new() -> (r: BindingPath)
        ensures
            r@ == Seq::<SegmentView>::empty(),
    {
        let r = BindingPath { segments: Vec::new() };
        proof {
            assert(r@ =~= Seq::<SegmentView>::empty());
        }
        r
    }

    /// The number of segments.
    pub fn len(&self) -> (n: usize)
        ensures
            n == self@.len(),
    {
        self.segments.len()
    }

    /// The segment at position `i`.
    pub fn segment(&self, i: usize) -> (s: &Segment)
        requires
            i < self@.len(),
        ensures
            s@ == self@[i as int],
    {
        &self.segments[i]
    }

    /// This path followed by `segment`.
    pub fn push(&self, segment: Segment) -> (r: BindingPath)
        ensures
            r@ == self@.push(segment@),
    {
        let mut r = self.clone();
        r.segments.push(segment);
        proof {
            assert(r@ =~= self@.push(segment@));
        }
        r
    }

    /// This path followed by the named field `key`.
    pub fn push_named(&self, key: &str) -> (r: BindingPath)
        ensures
            r@ == self@.push(SegmentView::Named(key@)),
    {
        self.push(Segment::Named(key.to_owned()))
    }

    /// This path followed by the entry at position `index`.
    pub fn push_indexed(&self, index: u64) -> (r: BindingPath)
        ensures
            r@ == self@.push(SegmentView::Indexed(index as nat)),
    {
        self.push(Segment::Indexed(index))
    }

    /// This path followed by all the segments of `rest`.
    pub fn join(&self, rest: &BindingPath) -> (r: BindingPath)
        ensures
            r@ == self@ + rest@,
    {
        let mut r = self.clone();
        let mut i: usize = 0;
        proof {
            assert(self@ + rest@.take(0) =~= self@);
        }
        while i < rest.segments.len()
            invariant
                i <= rest.segments.len(),
                r@ == self@ + rest@.take(i as int),
            decreases rest.segments.len() - i,
        {
            let ghost before = r@;
            r.segments.push(rest.segments[i].duplicate());
            proof {
                assert(r@ =~= before.push(rest@[i as int]));
                assert(self@ + rest@.take(i + 1) =~= (self@ + rest@.take(i as int)).push(
                    rest@[i as int],
                ));
            }
            i += 1;
        }
        proof {
            assert(rest@.take(rest.segments.len() as int) =~= rest@);
        }
        r
    }

    /// This path with the segment at position `i` replaced by `segment`.
    pub fn with_segment(&self, i: usize, segment: Segment) -> (r: BindingPath)
        requires
            i < self@.len(),
        ensures
            r@ == self@.update(i as int, segment@),
    {
        let mut r = self.clone();
        r.segments.set(i, segment);
        proof {
            assert(r@ =~= self@.update(i as int, segment@));
        }
        r
    }

    /// Whether two paths have the same segments.
    pub fn same(&self, other: &BindingPath) -> (r: bool)
        ensures
            r == (self@ == other@),
    {
        if self.segments.len() != other.segments.len() {
            assert(self@.len() != other@.len());
            return false;
        }
        let mut i: usize = 0;
        while i < self.segments.len()
            invariant
                i <= self.segments.len(),
                self.segments.len() == other.segments.len(),
                forall|j: int| 0 <= j < i ==> self@[j] == other@[j],
            decreases self.segments.len() - i,
        {
            if !self.segments[i].same(&other.segments[i]) {
                assert(self@[i as int] != other@[i as int]);
                return false;
            }
            i += 1;
        }
        proof {
            assert(self@ =~= other@);
        }
        true
    }

    /// Whether this path begins with all the segments of `prefix`.
    pub fn starts_with(&self, prefix: &BindingPath) -> (r: bool)
        ensures
            r == is_prefix(prefix@, self@),
    {
        if prefix.segments.len() > self.segments.len() {
            return false;
        }
        let mut i: usize = 0;
        while i < prefix.segments.len()
            invariant
                i <= prefix.segments.len() <= self.segments.len(),
                forall|j: int| 0 <= j < i ==> self@[j] == prefix@[j],
            decreases prefix.segments.len() - i,
        {
            if !self.segments[i].same(&prefix.segments[i]) {
                assert(self@.take(prefix@.len() as int)[i as int] != prefix@[i as int]);
                return false;
            }
            i += 1;
        }
        proof {
            assert(self@.take(prefix@.len() as int) =~= prefix@);
        }
        true
    }

    /// The text form of the path. Where the keys of the path are plain,
    /// reading the text gives the path back.
    pub fn serialize(&self) -> (text: String)
        ensures
            text@ == path_text(self@),
            plain_path(self@) ==> parse_text(text@) == Ok::<PathView, PathError>(self@),
    {
        let mut text = String::new();
        let mut i: usize = 0;
        while i < self.segments.len()
            invariant
                i <= self.segments.len(),
                text@ == path_text(self@.take(i as int)),
            decreases self.segments.len() - i,
        {
            let ghost before = self@.take(i as int);
            let ghost after = self@.take(i + 1);
            proof {
                assert(after.drop_last() =~= before);
                assert(after.last() == self@[i as int]);
            }
            if i > 0 {
                text.push('.');
            }
            match &self.segments[i] {
                Segment::Named(key) => {
                    text.append(key.as_str());
                },
                Segment::Indexed(index) => {
                    push_decimal(&mut text, *index);
                },
            }
            proof {
                if i == 0 {
                    assert(path_text(before) =~= Seq::<char>::empty());
                    assert(text@ =~= segment_text(after[0]));
                }
            }
            i += 1;
        }
        proof {
            assert(self@.take(self.segments.len() as int) =~= self@);
            if plain_path(self@) {
                lemma_parse_inverts_text(self@);
            }
        }
        text
    }

    /// Reads a path from its text form.
    ///
    /// The empty text is the empty path. Any other text is cut at its
    /// separators; a run of digits is a position and any other non-empty
    /// piece a key.
    pub fn parse(text: &str) -> (r: Result<BindingPath, PathError>)
        ensures
            match r {
                Ok(p) => parse_text(text@) == Ok::<PathView, PathError>(p@),
                Err(e) => parse_text(text@) == Err::<PathView, PathError>(e),
            },
    {
        let chars = chars_of(text);
        let n = chars.len();
        if n == 0 {
            return Ok(BindingPath::new());
        }
        let mut segments: Vec<Segment> = Vec::new();
        let mut failure: Option<PathError> = None;
        let ghost mut done: Seq<Seq<char>> = Seq::empty();
        let mut start: usize = 0;
        let mut i: usize = 0;
        proof {
            assert(chars@.take(0) =~= Seq::<char>::empty());
            assert(done.push(chars@.subrange(0, 0)) =~= seq![Seq::<char>::empty()]);
            assert(segments@.map_values(|s: Segment| s@) =~= Seq::<SegmentView>::empty());
        }
        while i < n
            invariant
                start <= i <= n,
                n == chars.len(),
                chars@ == text@,
                split_pieces(chars@.take(i as int)) == done.push(
                    chars@.subrange(start as int, i as int),
                ),
                match failure {
                    Some(e) => read_pieces(done) == Err::<PathView, PathError>(e),
                    None => read_pieces(done) == Ok::<PathView, PathError>(
                        segments@.map_values(|s: Segment| s@),
                    ),
                },
            decreases n - i,
        {
            let ghost before = chars@.take(i as int);
            let ghost after = chars@.take(i + 1);
            let ghost piece = chars@.subrange(start as int, i as int);
            proof {
                assert(after.drop_last() =~= before);
                assert(after.last() == chars@[i as int]);
            }
            if chars[i] == '.' {
                let ghost finished = done.push(piece);
                proof {
                    assert(finished.drop_last() =~= done);
                    assert(chars@.subrange(i + 1, i + 1) =~= Seq::<char>::empty());
                }
                if failure.is_none() {
                    match read_segment(&chars, start, i) {
                        Ok(s) => {
                            proof {
                                assert(segments@.push(s).map_values(|s: Segment| s@)
                                    =~= segments@.map_values(|s: Segment| s@).push(s@));
                            }
                            segments.push(s);
                        },
                        Err(e) => {
                            failure = Some(e);
                        },
                    }
                }
                proof {
                    done = finished;
                }
                start = i + 1;
            } else {
                proof {
                    let head = done.push(piece);
                    assert(head.drop_last() =~= done);
                    assert(head.last().push(chars@[i as int]) =~= chars@.subrange(
                        start as int,
                        i + 1,
                    ));
                }
            }
            i += 1;
        }
        let ghost piece = chars@.subrange(start as int, n as int);
        proof {
            assert(chars@.take(n as int) =~= chars@);
            assert(done.push(piece).drop_last() =~= done);
        }
        match failure {
            Some(e) => Err(e),
            None => match read_segment(&chars, start, n) {
                Ok(s) => {
                    proof {
                        assert(segments@.push(s).map_values(|s: Segment| s@)
                            =~= segments@.map_values(|s: Segment| s@).push(s@));
                    }
                    segments.push(s);
                    Ok(BindingPath { segments })
                },
                Err(e) => Err(e),
            },
        }
    }

    /// Whether every key of the path is plain, so that the path is read
    /// back from its own text.
    pub fn is_plain(&self) -> (r: bool)
        ensures
            r == plain_path(self@),
    {
        let mut i: usize = 0;
        while i < self.segments.len()
            invariant
                i <= self.segments.len(),
                forall|j: int| 0 <= j < i ==> plain_segment(#[trigger] self@[j]),
            decreases self.segments.len() - i,
        {
            match &self.segments[i] {
                Segment::Named(key) => {
                    let chars = chars_of(key.as_str());
                    if chars.len() == 0 {
                        assert(!plain_segment(self@[i as int]));
                        return false;
                    }
                    let mut digits = true;
                    let mut k: usize = 0;
                    while k < chars.len()
                        invariant
                            k <= chars.len(),
                            i < self.segments.len(),
                            self@[i as int] == SegmentView::Named(chars@),
                            digits == all_digits(chars@.take(k as int)),
                            forall|j: int| 0 <= j < k ==> !is_separator(#[trigger] chars@[j]),
                        decreases chars.len() - k,
                    {
                        if chars[k] == '.' {
                            assert(!plain_segment(self@[i as int]));
                            return false;
                        }
                        proof {
                            let longer = chars@.take(k + 1);
                            let shorter = chars@.take(k as int);
                            if is_digit(chars@[k as int]) && all_digits(shorter) {
                                assert forall|j: int| 0 <= j < longer.len() implies is_digit(
                                    #[trigger] longer[j],
                                ) by {
                                    if j < k {
                                        assert(longer[j] == shorter[j]);
                                    }
                                }
                            } else if !is_digit(chars@[k as int]) {
                                assert(!is_digit(longer[k as int]));
                            } else {
                                let j = choose|j: int|
                                    0 <= j < shorter.len() && !is_digit(#[trigger] shorter[j]);
                                assert(!is_digit(longer[j]));
                            }
                        }
                        if !(chars[k] >= '0' && chars[k] <= '9') {
                            digits = false;
                        }
                        k += 1;
                    }
                    proof {
                        assert(chars@.take(chars.len() as int) =~= chars@);
                    }
                    if digits {
                        assert(!plain_segment(self@[i as int]));
                        return false;
                    }
                },
                Segment::Indexed(_) => {},
            }
            i += 1;
        }
        true
    }
}

/// Reads `chars[start..end]` as one segment.
fn read_segment(chars: &Vec<char>, start: usize, end: usize) -> (r: Result<Segment, PathError>)
    requires
        start <= end <= chars.len(),
    ensures
        match r {
            Ok(s) => read_piece(chars@.subrange(start as int, end as int)) == Ok::<
                SegmentView,
                PathError,
            >(s@),
            Err(e) => read_piece(chars@.subrange(start as int, end as int)) == Err::<
                SegmentView,
                PathError,
            >(e),
        },
{
    if start == end {
        return Err(PathError::EmptySegment);
    }
    match scan_decimal(chars, start, end) {
        Some(Some(v)) => Ok(Segment::Indexed(v)),
        Some(None) => Err(PathError::IndexOutOfRange),
        None => Ok(Segment::Named(string_of(chars, start, end))),
    }
}

} // verus!
