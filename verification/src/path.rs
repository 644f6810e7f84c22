use vstd::prelude::*;
use crate::text::chars_of;

verus! {

/// The segments of a slash-separated path: the runs of characters between
/// separators, empty runs included, so that a path of `n` separators has
/// `n + 1` segments.
pub open spec fn path_segments(path: Seq<char>) -> Seq<Seq<char>>
    decreases path.len(),
{
    if path.len() == 0 {
        seq![Seq::<char>::empty()]
    } else {
        let before = path_segments(path.drop_last());
        if path.last() == '/' {
            before.push(Seq::<char>::empty())
        } else {
            before.drop_last().push(before.last().push(path.last()))
        }
    }
}

/// A segment that a walk can yield as the name of a node: not empty, not
/// `.` or `..`, and free of NUL. Every other character, a backslash too,
/// is an ordinary character of a name.
pub open spec fn is_plain_segment(segment: Seq<char>) -> bool {
    &&& segment.len() > 0
    &&& segment != seq!['.']
    &&& segment != seq!['.', '.']
    &&& forall|i: int| 0 <= i < segment.len() ==> segment[i] != '\0'
}

/// A relative path as a walk yields it: every one of its segments is
/// plain.
pub open spec fn is_walk_path(path: Seq<char>) -> bool {
    forall|k: int| 0 <= k < path_segments(path).len() ==> is_plain_segment(
        #[trigger] path_segments(path)[k],
    )
}

/// A segment that does not lead out of a directory: not `..`, and free of
/// NUL.
pub open spec fn is_enclosed_segment(segment: Seq<char>) -> bool {
    &&& segment != seq!['.', '.']
    &&& forall|i: int| 0 <= i < segment.len() ==> segment[i] != '\0'
}

/// A path that stays below the directory it is resolved against: it is
/// neither empty nor absolute, and none of its segments leads out.
pub open spec fn is_safe_path(path: Seq<char>) -> bool {
    &&& path.len() > 0
    &&& path[0] != '/'
    &&& forall|k: int|
        0 <= k < path_segments(path).len() ==> is_enclosed_segment(
            #[trigger] path_segments(path)[k],
        )
}

/// The views of a vector of character vectors.
pub open spec fn segment_views(parts: Seq<Vec<char>>) -> Seq<Seq<char>> {
    Seq::new(parts.len(), |i: int| parts[i]@)
}

/// `path_segments` never yields an empty sequence.
pub proof fn lemma_segments_nonempty(path: Seq<char>)
    ensures
        path_segments(path).len() >= 1,
    decreases path.len(),
{
    if path.len() > 0 {
        lemma_segments_nonempty(path.drop_last());
    }
}

/// A path is absolute where it begins with a separator.
pub open spec fn is_absolute(path: Seq<char>) -> bool {
    path.len() > 0 && path[0] == '/'
}

/// A path has a parent segment where one of its segments is `..`.
pub open spec fn has_parent_segment(path: Seq<char>) -> bool {
    exists|k: int|
        0 <= k < path_segments(path).len() && #[trigger] path_segments(path)[k] == seq!['.', '.']
}

/// The first segment of an absolute path is empty, and a second follows it.
pub proof fn lemma_absolute_segments(path: Seq<char>)
    requires
        is_absolute(path),
    ensures
        path_segments(path).len() >= 2,
        path_segments(path)[0] == Seq::<char>::empty(),
    decreases path.len(),
{
    let init = path.drop_last();
    if init.len() == 0 {
        assert(path_segments(init) == seq![Seq::<char>::empty()]);
        assert(path.last() == '/');
    } else {
        assert(init[0] == path[0]);
        lemma_absolute_segments(init);
    }
}

/// The first segment of a path that does not begin with a separator is
/// not empty.
pub proof fn lemma_first_segment(path: Seq<char>)
    requires
        path.len() > 0,
        path[0] != '/',
    ensures
        path_segments(path)[0].len() > 0,
    decreases path.len(),
{
    let init = path.drop_last();
    lemma_segments_nonempty(init);
    if init.len() > 0 {
        assert(init[0] == path[0]);
        lemma_first_segment(init);
    }
}

/// Law: an absolute path and a path with a parent segment are not safe.
pub proof fn lemma_traversal_is_unsafe(path: Seq<char>)
    requires
        is_absolute(path) || has_parent_segment(path),
    ensures
        !is_safe_path(path),
{
    if !is_absolute(path) {
        let k = choose|k: int|
            0 <= k < path_segments(path).len() && #[trigger] path_segments(path)[k] == seq![
                '.',
                '.',
            ];
        assert(!is_enclosed_segment(path_segments(path)[k]));
    }
}

/// Law: a path that a walk yields is safe.
pub proof fn lemma_walk_path_is_safe(path: Seq<char>)
    requires
        is_walk_path(path),
    ensures
        is_safe_path(path),
{
    lemma_segments_nonempty(path);
    assert(is_plain_segment(path_segments(path)[0]));
    if path.len() > 0 && path[0] == '/' {
        lemma_absolute_segments(path);
    }
    assert forall|k: int| 0 <= k < path_segments(path).len() implies is_enclosed_segment(
        #[trigger] path_segments(path)[k],
    ) by {
        assert(is_plain_segment(path_segments(path)[k]));
    }
}

/// Splits `path` at its separators.
pub fn split_path(path: &str) -> (parts: Vec<Vec<char>>)
    ensures
        segment_views(parts@) == path_segments(path@),
{
    let chars = chars_of(path);
    let mut done: Vec<Vec<char>> = Vec::new();
    let mut current: Vec<char> = Vec::new();
    let mut i: usize = 0;
    while i < chars.len()
        invariant
            i <= chars.len(),
            chars@ == path@,
            segment_views(done@).push(current@) == path_segments(chars@.take(i as int)),
        decreases chars.len() - i,
    {
        let c = chars[i];
        proof {
            let upto = chars@.take(i + 1);
            assert(upto.drop_last() == chars@.take(i as int));
            assert(upto.last() == c);
            lemma_segments_nonempty(chars@.take(i as int));
        }
        if c == '/' {
            let ghost before = segment_views(done@).push(current@);
            done.push(current);
            current = Vec::new();
            proof {
                assert(segment_views(done@) == before);
            }
        } else {
            let ghost before = segment_views(done@).push(current@);
            current.push(c);
            proof {
                assert(before.drop_last() == segment_views(done@));
            }
        }
        i += 1;
    }
    proof {
        assert(chars@.take(chars.len() as int) == chars@);
    }
    let ghost before = segment_views(done@).push(current@);
    done.push(current);
    proof {
        assert(segment_views(done@) == before);
    }
    done
}

/// Decides whether `segment` is plain.
pub fn plain_segment(segment: &Vec<char>) -> (plain: bool)
    ensures
        plain == is_plain_segment(segment@),
{
    let n = segment.len();
    if n == 0 {
        return false;
    }
    if n == 1 && segment[0] == '.' {
        assert(segment@ == seq!['.']);
        return false;
    }
    if n == 2 && segment[0] == '.' && segment[1] == '.' {
        assert(segment@ == seq!['.', '.']);
        return false;
    }
    assert(segment@ != seq!['.']) by {
        if segment@ == seq!['.'] {
            assert(seq!['.'].len() == 1);
            assert(seq!['.'][0] == '.');
        }
    }
    assert(segment@ != seq!['.', '.']) by {
        if segment@ == seq!['.', '.'] {
            assert(seq!['.', '.'].len() == 2);
            assert(seq!['.', '.'][0] == '.');
            assert(seq!['.', '.'][1] == '.');
        }
    }
    let mut i: usize = 0;
    while i < n
        invariant
            i <= n,
            n == segment.len(),
            forall|j: int| 0 <= j < i ==> segment@[j] != '\0',
        decreases n - i,
    {
        if segment[i] == '\0' {
            return false;
        }
        i += 1;
    }
    true
}

/// Decides whether `segment` does not lead out of a directory.
pub fn enclosed_segment(segment: &Vec<char>) -> (enclosed: bool)
    ensures
        enclosed == is_enclosed_segment(segment@),
{
    let n = segment.len();
    if n == 2 && segment[0] == '.' && segment[1] == '.' {
        assert(segment@ == seq!['.', '.']);
        return false;
    }
    assert(segment@ != seq!['.', '.']) by {
        if segment@ == seq!['.', '.'] {
            assert(seq!['.', '.'].len() == 2);
            assert(seq!['.', '.'][0] == '.');
            assert(seq!['.', '.'][1] == '.');
        }
    }
    let mut i: usize = 0;
    while i < n
        invariant
            i <= n,
            n == segment.len(),
            forall|j: int| 0 <= j < i ==> segment@[j] != '\0',
        decreases n - i,
    {
        if segment[i] == '\0' {
            return false;
        }
        i += 1;
    }
    true
}

/// Decides whether `path` stays below the directory it is resolved
/// against.
pub fn safe_path(path: &str) -> (safe: bool)
    ensures
        safe == is_safe_path(path@),
{
    let parts = split_path(path);
    proof {
        lemma_segments_nonempty(path@);
        assert(segment_views(parts@)[0] == parts@[0]@);
        if path@.len() > 0 && path@[0] == '/' {
            lemma_absolute_segments(path@);
        }
        if path@.len() > 0 && path@[0] != '/' {
            lemma_first_segment(path@);
        }
        if path@.len() == 0 {
            assert(path_segments(path@)[0].len() == 0);
        }
        assert(segment_views(parts@).len() == parts.len());
    }
    if parts[0].len() == 0 {
        return false;
    }
    let mut k: usize = 0;
    while k < parts.len()
        invariant
            k <= parts.len(),
            segment_views(parts@) == path_segments(path@),
            forall|j: int|
                0 <= j < k ==> is_enclosed_segment(#[trigger] path_segments(path@)[j]),
        decreases parts.len() - k,
    {
        proof {
            assert(segment_views(parts@)[k as int] == parts@[k as int]@);
        }
        if !enclosed_segment(&parts[k]) {
            return false;
        }
        k += 1;
    }
    true
}

/// Decides whether `path` is a relative path as a walk yields it.
pub fn walk_path(path: &str) -> (plain: bool)
    ensures
        plain == is_walk_path(path@),
{
    let parts = split_path(path);
    let mut k: usize = 0;
    while k < parts.len()
        invariant
            k <= parts.len(),
            segment_views(parts@) == path_segments(path@),
            forall|j: int| 0 <= j < k ==> is_plain_segment(#[trigger] path_segments(path@)[j]),
        decreases parts.len() - k,
    {
        proof {
            assert(segment_views(parts@)[k as int] == parts@[k as int]@);
        }
        if !plain_segment(&parts[k]) {
            return false;
        }
        k += 1;
    }
    true
}

/// Lexical order on character sequences: the order of the first place where
/// they differ, a proper prefix coming first.
pub open spec fn lex_less(a: Seq<char>, b: Seq<char>) -> bool
    decreases a.len(),
{
    if b.len() == 0 {
        false
    } else if a.len() == 0 {
        true
    } else if a[0] != b[0] {
        a[0] < b[0]
    } else {
        lex_less(a.drop_first(), b.drop_first())
    }
}

/// `a` comes no later than `b` in lexical order.
pub open spec fn lex_le(a: Seq<char>, b: Seq<char>) -> bool {
    a == b || lex_less(a, b)
}

/// Law: lexical order is total. Of two sequences one is less than the
/// other, or they are equal.
pub proof fn lemma_lex_total(a: Seq<char>, b: Seq<char>)
    ensures
        lex_less(a, b) || lex_less(b, a) || a == b,
    decreases a.len(),
{
    if a.len() == 0 || b.len() == 0 {
        if a.len() == 0 && b.len() == 0 {
            assert(a =~= b);
        }
    } else if a[0] == b[0] {
        lemma_lex_total(a.drop_first(), b.drop_first());
        if a.drop_first() == b.drop_first() {
            assert(a =~= seq![a[0]] + a.drop_first());
            assert(b =~= seq![b[0]] + b.drop_first());
        }
    }
}

/// Law: lexical order is strict. No sequence is less than itself, and of
/// two sequences at most one is less than the other.
pub proof fn lemma_lex_asymmetric(a: Seq<char>, b: Seq<char>)
    ensures
        !(lex_less(a, b) && lex_less(b, a)),
        !lex_less(a, a),
    decreases a.len(),
{
    if a.len() > 0 {
        lemma_lex_asymmetric(a.drop_first(), a.drop_first());
        if b.len() > 0 && a[0] == b[0] {
            lemma_lex_asymmetric(a.drop_first(), b.drop_first());
        }
    }
}

/// Law: lexical order is transitive.
pub proof fn lemma_lex_transitive(a: Seq<char>, b: Seq<char>, c: Seq<char>)
    requires
        lex_less(a, b),
        lex_less(b, c),
    ensures
        lex_less(a, c),
    decreases a.len(),
{
    if a.len() > 0 && b.len() > 0 && c.len() > 0 {
        if a[0] == b[0] && b[0] == c[0] {
            lemma_lex_transitive(a.drop_first(), b.drop_first(), c.drop_first());
        }
    }
}

/// `lex_le` is transitive.
pub proof fn lemma_lex_le_transitive(a: Seq<char>, b: Seq<char>, c: Seq<char>)
    requires
        lex_le(a, b),
        lex_le(b, c),
    ensures
        lex_le(a, c),
{
    if a != b && b != c {
        lemma_lex_transitive(a, b, c);
    }
}

/// Decides whether `a` comes before `b` in lexical order.
pub fn chars_less(a: &Vec<char>, b: &Vec<char>) -> (less: bool)
    ensures
        less == lex_less(a@, b@),
{
    let mut i: usize = 0;
    proof {
        assert(a@.skip(0) == a@);
        assert(b@.skip(0) == b@);
    }
    while i < a.len() && i < b.len()
        invariant
            i <= a.len(),
            i <= b.len(),
            lex_less(a@, b@) == lex_less(a@.skip(i as int), b@.skip(i as int)),
        decreases a.len() - i,
    {
        proof {
            let x = a@.skip(i as int);
            let y = b@.skip(i as int);
            assert(x[0] == a@[i as int]);
            assert(y[0] == b@[i as int]);
            assert(x.drop_first() == a@.skip(i + 1));
            assert(y.drop_first() == b@.skip(i + 1));
        }
        if a[i] != b[i] {
            return a[i] < b[i];
        }
        i += 1;
    }
    proof {
        assert(a@.skip(i as int).len() == a.len() - i);
        assert(b@.skip(i as int).len() == b.len() - i);
    }
    i < b.len()
}

/// A path that a walk yields is not empty and does not end in a separator.
pub proof fn lemma_walk_path_end(path: Seq<char>)
    requires
        is_walk_path(path),
    ensures
        path.len() > 0,
        path.last() != '/',
{
    lemma_segments_nonempty(path);
    let segments = path_segments(path);
    assert(is_plain_segment(segments[segments.len() - 1]));
    if path.len() > 0 && path.last() != '/' {
        lemma_segments_nonempty(path.drop_last());
        let before = path_segments(path.drop_last());
        let tail = before.last().push(path.last());
        assert(segments.last() == tail);
        assert(tail[tail.len() - 1] == path.last());
    }
}

} // verus!
