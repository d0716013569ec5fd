//! Path patterns: parsing, validation, capture names and rendering.
//!
//! A pattern is a sequence of segments, each a literal, a named parameter
//! (`:name`) or a trailing catch-all (`*name`).  The whole pattern `*`
//! stands for the asterisk request target and is handled out of band.

use vstd::prelude::*;
use crate::strutil::str_eq;

verus! {

/// One segment of a path pattern.
#[derive(Clone, Debug)]
pub enum Segment {
    Literal(String),
    Param(String),
    CatchAll(String),
}

/// The mathematical model of a segment.
pub enum SegSpec {
    Literal(Seq<char>),
    Param(Seq<char>),
    CatchAll(Seq<char>),
}

impl View for Segment {
    type V = SegSpec;

    open spec fn view(&self) -> SegSpec {
        match self {
            Segment::Literal(t) => SegSpec::Literal(t@),
            Segment::Param(n) => SegSpec::Param(n@),
            Segment::CatchAll(n) => SegSpec::CatchAll(n@),
        }
    }
}

impl SegSpec {
    pub open spec fn is_catch_all(self) -> bool {
        matches!(self, SegSpec::CatchAll(_))
    }

    /// The capture name of the segment, if it captures.
    pub open spec fn capture_name(self) -> Option<Seq<char>> {
        match self {
            SegSpec::Literal(_) => None,
            SegSpec::Param(n) => Some(n),
            SegSpec::CatchAll(n) => Some(n),
        }
    }
}

/// A failure to compile a path pattern.
#[derive(Clone, Copy, Debug, PartialEq, Eq, Structural)]
pub enum PatternError {
    /// The pattern is neither `*` nor a path beginning with `/`.
    MalformedPattern,
    /// A catch-all segment stands anywhere but at the end.
    InvalidCatchAllPosition,
    /// Two captures of the pattern share a name.
    DuplicateCaptureName,
    /// The asterisk target was declared under a non-empty prefix.
    AsteriskWithPrefix,
}

/// The first `/` at or after `i`, or the length if there is none.
pub open spec fn seg_end(s: Seq<char>, i: int) -> int
    decreases s.len() - i,
{
    if i < 0 || i >= s.len() {
        s.len() as int
    } else if s[i] == '/' {
        i
    } else {
        seg_end(s, i + 1)
    }
}

pub proof fn lemma_seg_end(s: Seq<char>, i: int)
    requires
        0 <= i <= s.len(),
    ensures
        i <= seg_end(s, i) <= s.len(),
        forall|k: int| i <= k < seg_end(s, i) ==> s[k] != '/',
        seg_end(s, i) < s.len() ==> s[seg_end(s, i)] == '/',
    decreases s.len() - i,
{
    if i < s.len() && s[i] != '/' {
        lemma_seg_end(s, i + 1);
    }
}

/// The first slash position is the only position with its properties.
pub proof fn lemma_seg_end_unique(s: Seq<char>, i: int, m: int)
    requires
        0 <= i <= m <= s.len(),
        forall|k: int| i <= k < m ==> s[k] != '/',
        m == s.len() || s[m] == '/',
    ensures
        seg_end(s, i) == m,
{
    lemma_seg_end(s, i);
    if seg_end(s, i) < m {
        assert(s[seg_end(s, i)] == '/');
    }
    if seg_end(s, i) > m {
        assert(s[m] != '/');
    }
}

/// A segment is proper when a literal text is non-empty and free of `/`.
pub open spec fn seg_proper(g: SegSpec) -> bool {
    match g {
        SegSpec::Literal(t) => t.len() > 0 && forall|k: int| 0 <= k < t.len() ==> t[k] != '/',
        SegSpec::Param(_) => true,
        SegSpec::CatchAll(_) => true,
    }
}

/// All segments of the pattern are proper; compilation only produces such
/// patterns.
pub open spec fn pattern_proper(segs: Seq<SegSpec>) -> bool {
    forall|k: int| 0 <= k < segs.len() ==> seg_proper(#[trigger] segs[k])
}

pub proof fn lemma_segments_from_proper(s: Seq<char>, i: int)
    requires
        0 <= i,
    ensures
        pattern_proper(segments_from(s, i)),
    decreases s.len() - i,
{
    if i < s.len() {
        let j = seg_end(s, i);
        lemma_seg_end(s, i);
        if j < s.len() {
            lemma_segments_from_proper(s, j + 1);
        }
        if j > i {
            let t = s.subrange(i, j);
            assert(seg_proper(classify(t))) by {
                assert(forall|k: int| 0 <= k < t.len() ==> t[k] != '/');
                assert(t.len() > 0);
                if t[0] == ':' || t[0] == '*' {
                } else {
                    assert(classify(t) == SegSpec::Literal(t));
                }
            }
            assert forall|k: int| 0 <= k < segments_from(s, i).len()
                implies seg_proper(#[trigger] segments_from(s, i)[k]) by {
                if k > 0 {
                    assert(segments_from(s, i)[k] == segments_from(s, j + 1)[k - 1]);
                }
            }
        }
    }
}

/// Classifies the non-empty text of one segment.
pub open spec fn classify(t: Seq<char>) -> SegSpec {
    if t.len() > 0 && t[0] == ':' {
        SegSpec::Param(t.drop_first())
    } else if t.len() > 0 && t[0] == '*' {
        SegSpec::CatchAll(t.drop_first())
    } else {
        SegSpec::Literal(t)
    }
}

/// The classified non-empty segments of `s` from position `i` on;
/// `i` must point just past a `/`.
pub open spec fn segments_from(s: Seq<char>, i: int) -> Seq<SegSpec>
    decreases s.len() - i,
    via segments_from_decreases
{
    if i < 0 || i >= s.len() {
        seq![]
    } else {
        let j = seg_end(s, i);
        let rest = if j >= s.len() {
            seq![]
        } else {
            segments_from(s, j + 1)
        };
        if j == i {
            rest
        } else {
            seq![classify(s.subrange(i, j))] + rest
        }
    }
}

#[via_fn]
proof fn segments_from_decreases(s: Seq<char>, i: int) {
    if 0 <= i < s.len() {
        lemma_seg_end(s, i);
    }
}

/// All catch-all segments stand at the last position.
pub open spec fn catch_all_last(segs: Seq<SegSpec>) -> bool {
    forall|k: int| 0 <= k < segs.len() - 1 ==> !segs[k].is_catch_all()
}

/// The capture names of the segments, in order.
pub open spec fn names_of(segs: Seq<SegSpec>) -> Seq<Seq<char>>
    decreases segs.len(),
{
    if segs.len() == 0 {
        seq![]
    } else {
        (match segs[0].capture_name() {
            Some(n) => seq![n],
            None => Seq::<Seq<char>>::empty(),
        }) + names_of(segs.drop_first())
    }
}

/// Two entries of the name list coincide.
pub open spec fn has_duplicate(names: Seq<Seq<char>>) -> bool {
    exists|i: int, j: int| 0 <= i < j < names.len() && names[i] == names[j]
}

/// A compiled path pattern: the asterisk target, or a segment sequence.
#[derive(Clone, Debug)]
pub enum Uri {
    Asterisk,
    Segments(Vec<Segment>),
}

/// The mathematical model of a compiled pattern.
pub enum UriSpec {
    Asterisk,
    Segments(Seq<SegSpec>),
}

impl View for Uri {
    type V = UriSpec;

    open spec fn view(&self) -> UriSpec {
        match self {
            Uri::Asterisk => UriSpec::Asterisk,
            Uri::Segments(v) => UriSpec::Segments(v@.map_values(|s: Segment| s@)),
        }
    }
}

/// What compiling the pattern `s` yields: the asterisk target for `*`,
/// otherwise the validated segments of a `/`-led path.
pub open spec fn spec_compile(s: Seq<char>) -> Result<UriSpec, PatternError> {
    if s == seq!['*'] {
        Ok(UriSpec::Asterisk)
    } else if s.len() == 0 || s[0] != '/' {
        Err(PatternError::MalformedPattern)
    } else {
        spec_validate(segments_from(s, 1))
    }
}

/// The validity checks shared by compilation and prefix concatenation.
pub open spec fn spec_validate(segs: Seq<SegSpec>) -> Result<UriSpec, PatternError> {
    if !catch_all_last(segs) {
        Err(PatternError::InvalidCatchAllPosition)
    } else if has_duplicate(names_of(segs)) {
        Err(PatternError::DuplicateCaptureName)
    } else {
        Ok(UriSpec::Segments(segs))
    }
}

/// The first `/` in `s` at or after `i`, or the length if there is none.
pub fn find_seg_end(s: &str, i: usize) -> (r: usize)
    requires
        i <= s@.len(),
    ensures
        r == seg_end(s@, i as int),
        i <= r <= s@.len(),
{
    proof {
        lemma_seg_end(s@, i as int);
    }
    let len = s.unicode_len();
    let mut j = i;
    while j < len
        invariant
            i <= j <= len,
            len == s@.len(),
            forall|k: int| i <= k < j ==> s@[k] != '/',
            seg_end(s@, i as int) >= j,
        decreases len - j,
    {
        proof {
            lemma_seg_end(s@, i as int);
        }
        if s.get_char(j) == '/' {
            assert(j == seg_end(s@, i as int)) by {
                lemma_seg_end(s@, i as int);
                if seg_end(s@, i as int) > j {
                    assert(s@[j as int] != '/');
                }
            }
            return j;
        }
        j = j + 1;
        proof {
            lemma_seg_end(s@, i as int);
            if seg_end(s@, i as int) < j {
                assert(s@[seg_end(s@, i as int)] == '/');
            }
        }
    }
    proof {
        lemma_seg_end(s@, i as int);
    }
    j
}

/// Builds the segment for the pattern text between `i` and `j`.
fn classify_segment(s: &str, i: usize, j: usize) -> (r: Segment)
    requires
        i < j <= s@.len(),
    ensures
        r@ == classify(s@.subrange(i as int, j as int)),
{
    let head = s.get_char(i);
    if head == ':' {
        let name = s.substring_char(i + 1, j).to_owned();
        proof {
            assert(name@ =~= s@.subrange(i as int, j as int).drop_first());
        }
        Segment::Param(name)
    } else if head == '*' {
        let name = s.substring_char(i + 1, j).to_owned();
        proof {
            assert(name@ =~= s@.subrange(i as int, j as int).drop_first());
        }
        Segment::CatchAll(name)
    } else {
        let text = s.substring_char(i, j).to_owned();
        Segment::Literal(text)
    }
}

/// The capture names of compiled segments, in order.
pub fn capture_names(segs: &Vec<Segment>) -> (r: Vec<String>)
    ensures
        r@.map_values(|n: String| n@) == names_of(segs@.map_values(|s: Segment| s@)),
{
    let ghost model = segs@.map_values(|s: Segment| s@);
    let mut r: Vec<String> = Vec::new();
    let mut k: usize = 0;
    proof {
        assert(model.skip(0) =~= model);
        assert(r@.map_values(|n: String| n@) + names_of(model.skip(0)) =~= names_of(model));
    }
    while k < segs.len()
        invariant
            k <= segs.len(),
            model == segs@.map_values(|s: Segment| s@),
            r@.map_values(|n: String| n@) + names_of(model.skip(k as int)) =~= names_of(model),
        decreases segs.len() - k,
    {
        let ghost before = r@.map_values(|n: String| n@);
        proof {
            assert(model.skip(k as int).drop_first() =~= model.skip(k as int + 1));
            assert(model.skip(k as int)[0] == model[k as int]);
        }
        match &segs[k] {
            Segment::Literal(_) => {
                proof {
                    assert(names_of(model.skip(k as int)) =~= names_of(model.skip(k as int + 1)));
                }
            },
            Segment::Param(n) => {
                r.push(n.clone());
                proof {
                    assert(r@.map_values(|n: String| n@) =~= before.push(n@));
                }
            },
            Segment::CatchAll(n) => {
                r.push(n.clone());
                proof {
                    assert(r@.map_values(|n: String| n@) =~= before.push(n@));
                }
            },
        }
        k = k + 1;
    }
    proof {
        assert(model.skip(segs@.len() as int) =~= Seq::<SegSpec>::empty());
        assert(r@.map_values(|n: String| n@) =~= names_of(model));
    }
    r
}

/// Checks that every catch-all segment is final.
pub fn check_catch_all(segs: &Vec<Segment>) -> (r: bool)
    ensures
        r == catch_all_last(segs@.map_values(|s: Segment| s@)),
{
    let ghost model = segs@.map_values(|s: Segment| s@);
    let mut k: usize = 0;
    while k < segs.len()
        invariant
            k <= segs.len(),
            model == segs@.map_values(|s: Segment| s@),
            forall|t: int| 0 <= t < k && t < model.len() - 1 ==> !model[t].is_catch_all(),
        decreases segs.len() - k,
    {
        if k + 1 < segs.len() {
            if matches!(&segs[k], Segment::CatchAll(_)) {
                assert(model[k as int].is_catch_all());
                return false;
            }
        }
        k = k + 1;
    }
    true
}

/// Checks whether any two capture names coincide.
pub fn names_have_duplicate(names: &Vec<String>) -> (r: bool)
    ensures
        r == has_duplicate(names@.map_values(|n: String| n@)),
{
    let ghost model = names@.map_values(|n: String| n@);
    let mut i: usize = 0;
    while i < names.len()
        invariant
            i <= names.len(),
            model == names@.map_values(|n: String| n@),
            forall|a: int, b: int| 0 <= a < b < names@.len() && a < i ==> model[a] != model[b],
        decreases names.len() - i,
    {
        let mut j: usize = i + 1;
        while j < names.len()
            invariant
                i < names.len(),
                i + 1 <= j <= names.len(),
                model == names@.map_values(|n: String| n@),
                forall|b: int| i < b < j ==> model[i as int] != model[b],
            decreases names.len() - j,
        {
            if str_eq(names[i].as_str(), names[j].as_str()) {
                proof {
                    assert(model[i as int] == model[j as int]);
                    assert(has_duplicate(model)) by {
                        assert(0 <= i < j < model.len() && model[i as int] == model[j as int]);
                    }
                }
                return true;
            }
            j = j + 1;
        }
        i = i + 1;
    }
    false
}

/// Copies one segment.
pub fn clone_segment(g: &Segment) -> (r: Segment)
    ensures
        r@ == g@,
{
    match g {
        Segment::Literal(t) => Segment::Literal(t.clone()),
        Segment::Param(n) => Segment::Param(n.clone()),
        Segment::CatchAll(n) => Segment::CatchAll(n.clone()),
    }
}

/// Copies a segment list.
pub fn clone_segments(v: &Vec<Segment>) -> (r: Vec<Segment>)
    ensures
        r@.map_values(|g: Segment| g@) == v@.map_values(|g: Segment| g@),
{
    let mut r: Vec<Segment> = Vec::new();
    let mut k: usize = 0;
    while k < v.len()
        invariant
            k <= v@.len(),
            r@.map_values(|g: Segment| g@) =~= v@.map_values(|g: Segment| g@).take(k as int),
        decreases v@.len() - k,
    {
        let ghost before = r@.map_values(|g: Segment| g@);
        let g = clone_segment(&v[k]);
        r.push(g);
        proof {
            assert(r@.map_values(|g: Segment| g@) =~= before.push(g@));
            assert(r@.map_values(|g: Segment| g@)
                =~= v@.map_values(|g: Segment| g@).take(k as int + 1));
        }
        k = k + 1;
    }
    proof {
        assert(r@.map_values(|g: Segment| g@) =~= v@.map_values(|g: Segment| g@));
    }
    r
}

/// Concatenates a copy of `a` with the segments of `b`.
pub fn concat_segments(a: &Vec<Segment>, b: Vec<Segment>) -> (r: Vec<Segment>)
    ensures
        r@.map_values(|g: Segment| g@)
            == a@.map_values(|g: Segment| g@) + b@.map_values(|g: Segment| g@),
{
    let mut r = clone_segments(a);
    let ghost base = r@.map_values(|g: Segment| g@);
    let ghost bm = b@.map_values(|g: Segment| g@);
    let mut rest = b;
    let total = rest.len();
    let mut k: usize = 0;
    while k < total
        invariant
            k <= total,
            total == bm.len(),
            rest@.map_values(|g: Segment| g@) == bm.skip(k as int),
            r@.map_values(|g: Segment| g@) == base + bm.take(k as int),
        decreases total - k,
    {
        proof {
            assert(rest@.map_values(|x: Segment| x@).len() == bm.skip(k as int).len());
            assert(bm.skip(k as int).len() == bm.len() - k);
        }
        let ghost before = r@.map_values(|g: Segment| g@);
        let g = rest.remove(0);
        proof {
            assert(g@ == bm.skip(k as int)[0]);
            assert(rest@.map_values(|x: Segment| x@)
                =~= bm.skip(k as int).skip(1));
            assert(bm.skip(k as int).skip(1) =~= bm.skip(k as int + 1));
        }
        r.push(g);
        proof {
            assert(r@.map_values(|x: Segment| x@) =~= before.push(g@));
            assert(before.push(g@) =~= base + bm.take(k as int + 1));
        }
        k = k + 1;
    }
    proof {
        assert(bm.take(bm.len() as int) =~= bm);
    }
    r
}

/// The text of one segment as it is rendered back into a pattern string.
pub open spec fn seg_text(g: SegSpec) -> Seq<char> {
    match g {
        SegSpec::Literal(t) => t,
        SegSpec::Param(n) => seq![':'] + n,
        SegSpec::CatchAll(n) => seq!['*'] + n,
    }
}

/// The rendered form of a segment sequence: `/` before every segment.
pub open spec fn render_segs(segs: Seq<SegSpec>) -> Seq<char>
    decreases segs.len(),
{
    if segs.len() == 0 {
        seq![]
    } else {
        seq!['/'] + seg_text(segs[0]) + render_segs(segs.drop_first())
    }
}

/// The rendered path of a pattern; the empty pattern renders as `/`.
pub open spec fn render_path(segs: Seq<SegSpec>) -> Seq<char> {
    if segs.len() == 0 {
        seq!['/']
    } else {
        render_segs(segs)
    }
}

pub proof fn lemma_render_starts_slash(segs: Seq<SegSpec>)
    ensures
        render_path(segs).len() >= 1,
        render_path(segs)[0] == '/',
{
}

/// Renders compiled segments back into their pattern text.
pub fn render(segs: &Vec<Segment>) -> (r: String)
    ensures
        r@ == render_path(segs@.map_values(|g: Segment| g@)),
{
    let ghost model = segs@.map_values(|g: Segment| g@);
    if segs.len() == 0 {
        let r = String::from_str("/");
        proof {
            reveal_strlit("/");
            assert(r@ =~= render_path(model));
        }
        return r;
    }
    let mut r = String::new();
    let mut k: usize = 0;
    proof {
        assert(model.skip(0) =~= model);
        assert(r@ + render_segs(model.skip(0)) =~= render_segs(model));
    }
    while k < segs.len()
        invariant
            k <= segs.len(),
            segs.len() > 0,
            model == segs@.map_values(|g: Segment| g@),
            r@ + render_segs(model.skip(k as int)) =~= render_segs(model),
        decreases segs.len() - k,
    {
        proof {
            assert(model.skip(k as int).drop_first() =~= model.skip(k as int + 1));
            assert(model.skip(k as int)[0] == model[k as int]);
        }
        r.append("/");
        proof {
            reveal_strlit("/");
            assert("/"@ =~= seq!['/']);
        }
        match &segs[k] {
            Segment::Literal(t) => {
                r.append(t.as_str());
            },
            Segment::Param(n) => {
                r.append(":");
                proof {
                    reveal_strlit(":");
                    assert(":"@ =~= seq![':']);
                }
                r.append(n.as_str());
            },
            Segment::CatchAll(n) => {
                r.append("*");
                proof {
                    reveal_strlit("*");
                    assert("*"@ =~= seq!['*']);
                }
                r.append(n.as_str());
            },
        }
        proof {
            assert(r@ + render_segs(model.skip(k as int + 1)) =~= render_segs(model));
        }
        k = k + 1;
    }
    proof {
        assert(render_segs(model.skip(segs@.len() as int)) =~= Seq::<char>::empty());
        assert(r@ =~= render_segs(model));
    }
    r
}

/// Compiles a path pattern into its validated segment form.
///
/// Returns exactly what `spec_compile` prescribes: `*` yields the asterisk
/// target; anything not led by `/` is malformed; a non-final catch-all or a
/// repeated capture name is rejected.
pub fn compile(s: &str) -> (r: Result<Uri, PatternError>)
    ensures
        match r {
            Ok(u) => spec_compile(s@) == Ok::<UriSpec, PatternError>(u@),
            Err(e) => spec_compile(s@) == Err::<UriSpec, PatternError>(e),
        },
{
    let len = s.unicode_len();
    if len == 1 && s.get_char(0) == '*' {
        proof {
            assert(s@ =~= seq!['*']);
        }
        return Ok(Uri::Asterisk);
    }
    proof {
        if s@.len() == 1 && s@[0] == '*' {
            assert(s@ =~= seq!['*']);
        }
    }
    if len == 0 || s.get_char(0) != '/' {
        return Err(PatternError::MalformedPattern);
    }

    let mut segs: Vec<Segment> = Vec::new();
    let mut i: usize = 1;
    proof {
        assert(segs@.map_values(|g: Segment| g@) + segments_from(s@, 1)
            =~= segments_from(s@, 1));
    }
    while i < len
        invariant
            1 <= i <= len,
            len == s@.len(),
            segs@.map_values(|g: Segment| g@) + segments_from(s@, i as int)
                =~= segments_from(s@, 1),
        decreases len - i,
    {
        let j = find_seg_end(s, i);
        proof {
            lemma_seg_end(s@, i as int);
        }
        let ghost before = segs@.map_values(|g: Segment| g@);
        let ghost tail = segments_from(s@, i as int);
        if j > i {
            let seg = classify_segment(s, i, j);
            segs.push(seg);
            proof {
                assert(segs@.map_values(|g: Segment| g@) =~= before.push(seg@));
                if j < len {
                    assert(tail =~= seq![seg@] + segments_from(s@, j as int + 1));
                } else {
                    assert(tail =~= seq![seg@]);
                }
            }
        }
        if j >= len {
            i = len;
            proof {
                assert(segments_from(s@, len as int) =~= Seq::<SegSpec>::empty());
                assert(segs@.map_values(|g: Segment| g@) + segments_from(s@, i as int)
                    =~= segments_from(s@, 1));
            }
        } else {
            i = j + 1;
            proof {
                assert(segs@.map_values(|g: Segment| g@) + segments_from(s@, i as int)
                    =~= segments_from(s@, 1));
            }
        }
    }
    proof {
        assert(segments_from(s@, i as int) =~= Seq::<SegSpec>::empty());
        assert(segs@.map_values(|g: Segment| g@) =~= segments_from(s@, 1));
    }

    if !check_catch_all(&segs) {
        return Err(PatternError::InvalidCatchAllPosition);
    }
    let names = capture_names(&segs);
    if names_have_duplicate(&names) {
        return Err(PatternError::DuplicateCaptureName);
    }
    Ok(Uri::Segments(segs))
}

} // verus!
