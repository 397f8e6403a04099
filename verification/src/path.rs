//! Path texts, their canonical form, and the two path values built on it.
use std::marker::PhantomData;
use vstd::prelude::*;
use vstd::string::*;

verus! {

/// The single reserved character that delimits hierarchy segments.
pub const GFS_SEPARATOR: char = '/';

/// A segment that names something: not empty, free of separators, and
/// neither the "stay here" nor the "go up" marker.
pub open spec fn is_real_segment(seg: Seq<char>) -> bool {
    &&& seg.len() > 0
    &&& forall|i: int| 0 <= i < seg.len() ==> seg[i] != '/'
    &&& seg != seq!['.']
    &&& seg != seq!['.', '.']
}

/// Every segment of the list is real.
pub open spec fn all_real(segs: Seq<Seq<char>>) -> bool {
    forall|i: int| 0 <= i < segs.len() ==> is_real_segment(#[trigger] segs[i])
}

/// What a finished segment does to the segments kept so far: empty and `.`
/// segments vanish, `..` removes the last kept segment (or nothing at the
/// top), anything else is kept.
pub open spec fn close_segment(kept: Seq<Seq<char>>, seg: Seq<char>) -> Seq<Seq<char>> {
    if seg.len() == 0 || seg == seq!['.'] {
        kept
    } else if seg == seq!['.', '.'] {
        if kept.len() > 0 {
            kept.drop_last()
        } else {
            kept
        }
    } else {
        kept.push(seg)
    }
}

/// The state after reading the first `n` characters of `raw` from the left:
/// the segments kept so far and the characters of the segment still open.
pub open spec fn scan(raw: Seq<char>, n: nat) -> (Seq<Seq<char>>, Seq<char>)
    decreases n,
{
    if n == 0 || n > raw.len() {
        (Seq::empty(), Seq::empty())
    } else {
        let before = scan(raw, (n - 1) as nat);
        if raw[n - 1] == '/' {
            (close_segment(before.0, before.1), Seq::empty())
        } else {
            (before.0, before.1.push(raw[n - 1]))
        }
    }
}

/// The real segments that a raw path text resolves to, outermost first.
pub open spec fn path_segments(raw: Seq<char>) -> Seq<Seq<char>> {
    let end = scan(raw, raw.len());
    close_segment(end.0, end.1)
}

/// Each segment preceded by one separator, in order.
pub open spec fn render_segments(segs: Seq<Seq<char>>) -> Seq<char>
    decreases segs.len(),
{
    if segs.len() == 0 {
        Seq::empty()
    } else {
        render_segments(segs.drop_last()) + seq!['/'] + segs.last()
    }
}

/// The text of a path given by its segments; the top of the hierarchy is the
/// separator alone.
pub open spec fn render_path(segs: Seq<Seq<char>>) -> Seq<char> {
    if segs.len() == 0 {
        seq!['/']
    } else {
        render_segments(segs)
    }
}

/// The canonical form of a raw path text.
pub open spec fn normalize(raw: Seq<char>) -> Seq<char> {
    render_path(path_segments(raw))
}

/// A text that is its own canonical form.
pub open spec fn is_canonical(text: Seq<char>) -> bool {
    normalize(text) == text
}

/// The text of the path that `raw` names below `root`.
pub open spec fn resolve(root: Seq<char>, raw: Seq<char>) -> Seq<char> {
    render_path(path_segments(root) + path_segments(raw))
}

proof fn lemma_close_keeps_real(kept: Seq<Seq<char>>, seg: Seq<char>)
    requires
        all_real(kept),
        forall|i: int| 0 <= i < seg.len() ==> seg[i] != '/',
    ensures
        all_real(close_segment(kept, seg)),
{
}

/// Scanning keeps only real segments, and the open segment holds no separator.
proof fn lemma_scan_real(raw: Seq<char>, n: nat)
    ensures
        all_real(scan(raw, n).0),
        forall|i: int| 0 <= i < scan(raw, n).1.len() ==> scan(raw, n).1[i] != '/',
    decreases n,
{
    if n == 0 || n > raw.len() {
    } else {
        lemma_scan_real(raw, (n - 1) as nat);
        let before = scan(raw, (n - 1) as nat);
        lemma_close_keeps_real(before.0, before.1);
    }
}

/// Every raw text resolves to real segments only.
pub proof fn lemma_segments_real(raw: Seq<char>)
    ensures
        all_real(path_segments(raw)),
{
    lemma_scan_real(raw, raw.len());
    let end = scan(raw, raw.len());
    lemma_close_keeps_real(end.0, end.1);
}

/// The scan of a prefix does not depend on what follows it.
proof fn lemma_scan_prefix(a: Seq<char>, b: Seq<char>, n: nat)
    requires
        n <= a.len(),
    ensures
        scan(a + b, n) == scan(a, n),
    decreases n,
{
    if n > 0 {
        lemma_scan_prefix(a, b, (n - 1) as nat);
        assert((a + b)[n - 1] == a[n - 1]);
    }
}

/// Reading `k` characters that are no separators extends the open segment.
proof fn lemma_scan_plain(raw: Seq<char>, from: nat, k: nat)
    requires
        from + k <= raw.len(),
        scan(raw, from).1.len() == 0,
        forall|i: int| from <= i < from + k ==> raw[i] != '/',
    ensures
        scan(raw, from + k) == (scan(raw, from).0, raw.subrange(from as int, (from + k) as int)),
    decreases k,
{
    if k == 0 {
        assert(raw.subrange(from as int, from as int) =~= Seq::<char>::empty());
        assert(scan(raw, from).1 =~= Seq::<char>::empty());
    } else {
        lemma_scan_plain(raw, from, (k - 1) as nat);
        assert(raw.subrange(from as int, from + k - 1).push(raw[from + k - 1]) =~= raw.subrange(
            from as int,
            (from + k) as int,
        ));
    }
}

/// Rendering distributes over concatenation of segment lists.
pub proof fn lemma_render_concat(a: Seq<Seq<char>>, b: Seq<Seq<char>>)
    ensures
        render_segments(a + b) == render_segments(a) + render_segments(b),
    decreases b.len(),
{
    if b.len() == 0 {
        assert(a + b =~= a);
        assert(render_segments(a) + render_segments(b) =~= render_segments(a));
    } else {
        lemma_render_concat(a, b.drop_last());
        assert((a + b).drop_last() =~= a + b.drop_last());
        assert((a + b).last() == b.last());
        assert(render_segments(a + b) =~= render_segments(a) + render_segments(b));
    }
}

/// Scanning the rendering of real segments ends with all but the last kept
/// and the last one open.
proof fn lemma_scan_render(segs: Seq<Seq<char>>)
    requires
        all_real(segs),
        segs.len() > 0,
    ensures
        scan(render_segments(segs), render_segments(segs).len()) == (segs.drop_last(), segs.last()),
    decreases segs.len(),
{
    let head = segs.drop_last();
    let last = segs.last();
    let left = render_segments(head);
    let text = render_segments(segs);
    let tail = seq!['/'] + last;
    assert(text =~= left + tail);
    assert(is_real_segment(last));
    lemma_scan_prefix(left, tail, left.len());
    if head.len() == 0 {
        assert(close_segment(scan(text, left.len()).0, scan(text, left.len()).1) =~= head);
    } else {
        assert(is_real_segment(head.last()));
        lemma_scan_render(head);
        assert(head.drop_last().push(head.last()) =~= head);
    }
    assert(text[left.len() as int] == '/');
    assert(scan(text, left.len() + 1) == (head, Seq::<char>::empty()));
    assert forall|i: int| left.len() + 1 <= i < left.len() + 1 + last.len() implies text[i] != '/' by {
        assert(text[i] == last[i - left.len() - 1]);
    }
    lemma_scan_plain(text, left.len() + 1, last.len());
    assert(text.subrange((left.len() + 1) as int, (left.len() + 1 + last.len()) as int) =~= last);
}

/// Real segments are recovered from their rendered text.
pub proof fn lemma_segments_of_render(segs: Seq<Seq<char>>)
    requires
        all_real(segs),
    ensures
        path_segments(render_path(segs)) == segs,
{
    if segs.len() == 0 {
        let text = seq!['/'];
        assert(scan(text, 0) == (Seq::<Seq<char>>::empty(), Seq::<char>::empty()));
        assert(scan(text, 1) == (Seq::<Seq<char>>::empty(), Seq::<char>::empty()));
        assert(path_segments(text) =~= segs);
    } else {
        lemma_scan_render(segs);
        assert(is_real_segment(segs.last()));
        assert(segs.drop_last().push(segs.last()) =~= segs);
    }
}

/// Normalizing a text that is already normalized changes nothing.
pub proof fn lemma_normalize_idempotent(raw: Seq<char>)
    ensures
        normalize(normalize(raw)) == normalize(raw),
        is_canonical(normalize(raw)),
{
    lemma_segments_real(raw);
    lemma_segments_of_render(path_segments(raw));
}

/// The outline of a canonical text: it starts with the separator, holds no
/// two separators in a row, and ends with one only where it is the
/// separator alone.
pub open spec fn is_tidy(text: Seq<char>) -> bool {
    &&& text.len() >= 1
    &&& text[0] == '/'
    &&& text.len() > 1 ==> text[text.len() - 1] != '/'
    &&& forall|i: int| 0 <= i < text.len() - 1 ==> !(text[i] == '/' && #[trigger] text[i + 1] == '/')
}

/// The rendering of at least one real segment is tidy.
pub proof fn lemma_render_tidy(segs: Seq<Seq<char>>)
    requires
        all_real(segs),
        segs.len() > 0,
    ensures
        is_tidy(render_segments(segs)),
        render_segments(segs).len() >= 2,
    decreases segs.len(),
{
    let head = segs.drop_last();
    let last = segs.last();
    let left = render_segments(head);
    let text = render_segments(segs);
    assert(is_real_segment(last));
    assert(text =~= left + seq!['/'] + last);
    assert(text.len() == left.len() + 1 + last.len());
    if head.len() > 0 {
        assert(all_real(head));
        lemma_render_tidy(head);
        assert(text[0] == left[0]);
    }
    assert(text[text.len() - 1] == last[last.len() - 1]);
    assert forall|i: int| 0 <= i < text.len() - 1 implies !(text[i] == '/' && #[trigger] text[i + 1]
        == '/') by {
        if i + 1 < left.len() {
            assert(text[i] == left[i] && text[i + 1] == left[i + 1]);
        } else if i + 1 == left.len() {
            assert(text[i] == left[left.len() - 1]);
        } else {
            assert(text[i + 1] == last[i - left.len()]);
        }
    }
}

/// Every canonical form is tidy, and its segments are real.
pub proof fn lemma_normalize_tidy(raw: Seq<char>)
    ensures
        is_tidy(normalize(raw)),
        all_real(path_segments(raw)),
{
    lemma_segments_real(raw);
    if path_segments(raw).len() > 0 {
        lemma_render_tidy(path_segments(raw));
    }
}

/// A path resolves below a root as its canonical form does.
pub proof fn lemma_resolve_normalized(root: Seq<char>, raw: Seq<char>)
    ensures
        path_segments(normalize(raw)) == path_segments(raw),
        resolve(root, normalize(raw)) == resolve(root, raw),
        is_canonical(resolve(root, raw)),
        path_segments(resolve(root, raw)) == path_segments(root) + path_segments(raw),
{
    lemma_segments_real(raw);
    lemma_segments_real(root);
    lemma_segments_of_render(path_segments(raw));
    lemma_segments_of_render(path_segments(root) + path_segments(raw));
}

/// Below the top of the hierarchy a path resolves to its canonical form.
pub proof fn lemma_resolve_at_top(raw: Seq<char>)
    ensures
        resolve(seq!['/'], raw) == normalize(raw),
{
    lemma_segments_of_render(Seq::<Seq<char>>::empty());
    assert(path_segments(seq!['/']) + path_segments(raw) =~= path_segments(raw));
}

/// The texts that index ranges cut out of `raw`.
spec fn spelled(raw: Seq<char>, ranges: Seq<(usize, usize)>) -> Seq<Seq<char>> {
    Seq::new(ranges.len(), |i: int| raw.subrange(ranges[i].0 as int, ranges[i].1 as int))
}

spec fn ranges_within(raw: Seq<char>, ranges: Seq<(usize, usize)>) -> bool {
    forall|i: int| 0 <= i < ranges.len() ==> (#[trigger] ranges[i]).0 <= ranges[i].1 <= raw.len()
}

/// Finishes the segment of `raw` that runs from `from` up to `to`.
fn close_range(raw: &str, kept: &mut Vec<(usize, usize)>, from: usize, to: usize)
    requires
        from <= to <= raw@.len(),
        ranges_within(raw@, old(kept)@),
    ensures
        ranges_within(raw@, final(kept)@),
        spelled(raw@, final(kept)@) == close_segment(
            spelled(raw@, old(kept)@),
            raw@.subrange(from as int, to as int),
        ),
{
    let ghost seg = raw@.subrange(from as int, to as int);
    let ghost before = spelled(raw@, kept@);
    let len: usize = to - from;
    assert(seq!['.'].len() == 1 && seq!['.'][0] == '.');
    assert(seq!['.', '.'].len() == 2 && seq!['.', '.'][0] == '.' && seq!['.', '.'][1] == '.');
    if len == 0 {
        return ;
    }
    let first = raw.get_char(from);
    assert(seg[0] == first);
    if len == 1 && first == '.' {
        assert(seg =~= seq!['.']);
        return ;
    }
    if len == 2 && first == '.' {
        let second = raw.get_char(from + 1);
        assert(seg[1] == second);
        if second == '.' {
            assert(seg =~= seq!['.', '.']);
            if kept.len() > 0 {
                kept.pop();
                assert(spelled(raw@, kept@) =~= before.drop_last());
            }
            return ;
        }
    }
    kept.push((from, to));
    assert(spelled(raw@, kept@) =~= before.push(seg));
}

/// The index ranges of the real segments that `raw` resolves to.
fn segment_ranges(raw: &str) -> (kept: Vec<(usize, usize)>)
    ensures
        ranges_within(raw@, kept@),
        spelled(raw@, kept@) == path_segments(raw@),
{
    let n: usize = raw.unicode_len();
    let mut kept: Vec<(usize, usize)> = Vec::new();
    let mut start: usize = 0;
    let mut i: usize = 0;
    assert(spelled(raw@, kept@) =~= scan(raw@, 0).0);
    assert(raw@.subrange(0, 0) =~= scan(raw@, 0).1);
    while i < n
        invariant
            n == raw@.len(),
            start <= i <= n,
            ranges_within(raw@, kept@),
            spelled(raw@, kept@) == scan(raw@, i as nat).0,
            raw@.subrange(start as int, i as int) == scan(raw@, i as nat).1,
        decreases n - i,
    {
        let c = raw.get_char(i);
        if c == GFS_SEPARATOR {
            close_range(raw, &mut kept, start, i);
            start = i + 1;
            assert(raw@.subrange(start as int, start as int) =~= Seq::<char>::empty());
        } else {
            assert(raw@.subrange(start as int, i as int).push(c) =~= raw@.subrange(
                start as int,
                i + 1,
            ));
        }
        i = i + 1;
    }
    close_range(raw, &mut kept, start, n);
    kept
}

/// The text of the path made of the given segments from index `from` up to
/// index `to`.
fn render_ranges(raw: &str, kept: &Vec<(usize, usize)>, from: usize, to: usize) -> (out: String)
    requires
        from <= to <= kept@.len(),
        ranges_within(raw@, kept@),
    ensures
        out@ == render_path(spelled(raw@, kept@).subrange(from as int, to as int)),
{
    let ghost segs = spelled(raw@, kept@).subrange(from as int, to as int);
    if from == to {
        proof {
            reveal_strlit("/");
        }
        let top = String::from_str("/");
        assert(top@ =~= seq!['/']);
        return top;
    }
    let mut out = String::new();
    let mut j: usize = from;
    assert(segs.take(0) =~= Seq::<Seq<char>>::empty());
    while j < to
        invariant
            from <= j <= to <= kept@.len(),
            ranges_within(raw@, kept@),
            segs == spelled(raw@, kept@).subrange(from as int, to as int),
            out@ == render_segments(segs.take(j - from)),
        decreases to - j,
    {
        let range = kept[j];
        proof {
            reveal_strlit("/");
            assert(segs.take(j - from + 1).drop_last() =~= segs.take(j - from));
            assert(segs.take(j - from + 1).last() == raw@.subrange(range.0 as int, range.1 as int));
        }
        out.append("/");
        out.append(raw.substring_char(range.0, range.1));
        assert("/"@ =~= seq!['/']);
        j = j + 1;
    }
    assert(segs.take(j - from) =~= segs);
    out
}

/// Brings a raw path text into canonical form: runs of separators count as
/// one, `.` segments vanish, `..` removes the segment before it and is
/// dropped at the top, and the result starts with the separator and does not
/// end with one unless it is the separator alone.
pub fn normalize_path(raw: &str) -> (out: String)
    ensures
        out@ == normalize(raw@),
{
    let kept = segment_ranges(raw);
    assert(spelled(raw@, kept@).subrange(0, kept@.len() as int) =~= spelled(raw@, kept@));
    render_ranges(raw, &kept, 0, kept.len())
}

/// A path as a caller writes it: any text, bound to no snapshot.
pub struct GfsPath {
    raw: String,
}

impl View for GfsPath {
    type V = Seq<char>;

    closed spec fn view(&self) -> Seq<char> {
        self.raw@
    }
}

impl GfsPath {
    pub fn new(raw: &str) -> (path: GfsPath)
        ensures
            path@ == raw@,
    {
        GfsPath { raw: String::from_str(raw) }
    }

    pub fn as_str(&self) -> (text: &str)
        ensures
            text@ == self@,
    {
        self.raw.as_str()
    }

    pub fn to_string(&self) -> (text: String)
        ensures
            text@ == self@,
    {
        self.raw.clone()
    }
}

/// A canonical path in the namespace of a snapshot with metadata `T`. Its
/// text is always its own canonical form.
pub struct OwnedGfsPath<T> {
    text: String,
    scope: PhantomData<T>,
}

impl<T> View for OwnedGfsPath<T> {
    type V = Seq<char>;

    closed spec fn view(&self) -> Seq<char> {
        self.text@
    }
}

impl<T> Clone for OwnedGfsPath<T> {
    fn clone(&self) -> (copy: Self)
        ensures
            copy@ == self@,
    {
        proof {
            use_type_invariant(self);
        }
        OwnedGfsPath { text: self.text.clone(), scope: PhantomData }
    }
}

impl<T> OwnedGfsPath<T> {
    #[verifier::type_invariant]
    closed spec fn canonical(&self) -> bool {
        is_canonical(self.text@)
    }

    /// The path that `raw` names from the top of the hierarchy.
    pub fn new(raw: &str) -> (path: Self)
        ensures
            path@ == normalize(raw@),
    {
        proof {
            lemma_normalize_idempotent(raw@);
        }
        OwnedGfsPath { text: normalize_path(raw), scope: PhantomData }
    }

    pub fn as_str(&self) -> (text: &str)
        ensures
            text@ == self@,
            is_canonical(text@),
    {
        proof {
            use_type_invariant(self);
        }
        self.text.as_str()
    }

    /// The path that leads from `base` to this one, for a path at `base` or
    /// below it; for any other, the path that leads to it from the top.
    pub fn relative_to(&self, base: &Self) -> (path: GfsPath)
        ensures
            path@ == render_path(
                path_segments(self@).skip(
                    if path_segments(base@).is_prefix_of(path_segments(self@)) {
                        path_segments(base@).len() as int
                    } else {
                        0
                    },
                ),
            ),
            path_segments(base@).is_prefix_of(path_segments(self@)) ==> resolve(base@, path@)
                == self@,
    {
        let kept = segment_ranges(self.text.as_str());
        let ghost segs = path_segments(self.text@);
        let ghost lead = path_segments(base.text@);
        assert(segs.len() == kept@.len());
        let from: usize = if self.starts_with(base) { base.depth() } else { 0 };
        proof {
            use_type_invariant(self);
            lemma_segments_real(self.text@);
            let rest = segs.skip(from as int);
            assert(rest =~= segs.subrange(from as int, segs.len() as int));
            assert(all_real(rest));
            lemma_segments_of_render(rest);
            if lead.is_prefix_of(segs) {
                assert(lead + rest =~= segs);
            }
        }
        let text = render_ranges(self.text.as_str(), &kept, from, kept.len());
        GfsPath { raw: text }
    }

    /// The number of segments between the top of the hierarchy and this path.
    pub fn depth(&self) -> (depth: usize)
        ensures
            depth == path_segments(self@).len(),
    {
        let kept = segment_ranges(self.text.as_str());
        assert(spelled(self.text@, kept@).len() == kept@.len());
        kept.len()
    }

    /// Whether this path is `base` or lies below it.
    pub fn starts_with(&self, base: &Self) -> (within: bool)
        ensures
            within == path_segments(base@).is_prefix_of(path_segments(self@)),
    {
        let mine = segment_ranges(self.text.as_str());
        let theirs = segment_ranges(base.text.as_str());
        let ghost a = path_segments(self.text@);
        let ghost b = path_segments(base.text@);
        assert(a.len() == mine@.len() && b.len() == theirs@.len());
        if theirs.len() > mine.len() {
            return false;
        }
        let mut i: usize = 0;
        while i < theirs.len()
            invariant
                i <= theirs@.len() <= mine@.len(),
                ranges_within(self.text@, mine@),
                ranges_within(base.text@, theirs@),
                a == spelled(self.text@, mine@),
                b == spelled(base.text@, theirs@),
                a == path_segments(self@),
                b == path_segments(base@),
                forall|j: int| 0 <= j < i ==> a[j] == b[j],
            decreases theirs@.len() - i,
        {
            let left = String::from_str(self.text.as_str().substring_char(mine[i].0, mine[i].1));
            let right = String::from_str(base.text.as_str().substring_char(theirs[i].0, theirs[i].1));
            if left != right {
                assert(a[i as int] != b[i as int]);
                assert(a.subrange(0, b.len() as int)[i as int] == a[i as int]);
                assert(b != a.subrange(0, b.len() as int));
                return false;
            }
            i = i + 1;
        }
        assert(b =~= a.subrange(0, b.len() as int));
        true
    }

    /// The path made of the first `depth` segments of this one; this path
    /// itself where it has no more than that.
    pub fn ancestor(&self, depth: usize) -> (path: Self)
        ensures
            path@ == render_path(
                path_segments(self@).take(
                    if depth < path_segments(self@).len() {
                        depth as int
                    } else {
                        path_segments(self@).len() as int
                    },
                ),
            ),
    {
        let kept = segment_ranges(self.text.as_str());
        let ghost segs = path_segments(self.text@);
        assert(segs.len() == kept@.len());
        if depth >= kept.len() {
            proof {
                use_type_invariant(self);
                assert(segs.take(segs.len() as int) =~= segs);
            }
            return self.clone();
        }
        proof {
            lemma_segments_real(self.text@);
            assert(all_real(segs.take(depth as int)));
            lemma_segments_of_render(segs.take(depth as int));
        }
        assert(segs.take(depth as int) =~= segs.subrange(0, depth as int));
        OwnedGfsPath { text: render_ranges(self.text.as_str(), &kept, 0, depth), scope: PhantomData }
    }

    /// Whether both paths name the same location.
    pub fn same_as(&self, other: &Self) -> (same: bool)
        ensures
            same == (self@ == other@),
    {
        self.text == other.text
    }

    /// The path that `segment` names below this one. The segment is
    /// normalized first, so the result never leaves this path.
    pub fn join(&self, segment: &str) -> (path: Self)
        ensures
            path@ == resolve(self@, segment@),
            path_segments(path@) == path_segments(self@) + path_segments(segment@),
            path_segments(self@).is_prefix_of(path_segments(path@)),
    {
        let tail = normalize_path(segment);
        let ghost a = path_segments(self.text@);
        let ghost b = path_segments(segment@);
        proof {
            use_type_invariant(self);
            lemma_segments_real(self.text@);
            lemma_segments_real(segment@);
            lemma_segments_of_render(a + b);
            lemma_render_concat(a, b);
            assert(a =~= (a + b).subrange(0, a.len() as int));
            if a.len() > 0 {
                lemma_render_tidy(a);
            }
            if b.len() > 0 {
                lemma_render_tidy(b);
            }
        }
        if tail.as_str().unicode_len() == 1 {
            assert(a + b =~= a);
            self.clone()
        } else if self.text.as_str().unicode_len() == 1 {
            assert(a + b =~= b);
            OwnedGfsPath { text: tail, scope: PhantomData }
        } else {
            OwnedGfsPath { text: self.text.clone().concat(tail.as_str()), scope: PhantomData }
        }
    }
}

} // verus!
