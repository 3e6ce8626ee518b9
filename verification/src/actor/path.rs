//! Hierarchical actor paths such as `/user/parent/child`.

use vstd::prelude::*;
use vstd::string::*;

verus! {

/// The pieces of `s` between its `/` separators, empty pieces included, in
/// order (the pieces that `str::split('/')` hands out).
pub open spec fn split_pieces(s: Seq<char>) -> Seq<Seq<char>>
    decreases s.len(),
{
    if s.len() == 0 {
        seq![Seq::<char>::empty()]
    } else {
        let pieces = split_pieces(s.drop_last());
        if s.last() == '/' {
            pieces.push(Seq::<char>::empty())
        } else {
            pieces.update(pieces.len() - 1, pieces.last().push(s.last()))
        }
    }
}

/// The pieces of `ps` that are not empty, in order.
pub open spec fn nonempty_pieces(ps: Seq<Seq<char>>) -> Seq<Seq<char>>
    decreases ps.len(),
{
    if ps.len() == 0 {
        ps
    } else {
        let rest = nonempty_pieces(ps.drop_last());
        if ps.last().len() > 0 {
            rest.push(ps.last())
        } else {
            rest
        }
    }
}

/// The segments of the path written `s`: the non-empty pieces between `/`.
pub open spec fn parse_path(s: Seq<char>) -> Seq<Seq<char>> {
    nonempty_pieces(split_pieces(s))
}

/// `path` lies strictly below `ancestor`: `ancestor` is a proper prefix of it.
pub open spec fn descends_from(path: Seq<Seq<char>>, ancestor: Seq<Seq<char>>) -> bool {
    ancestor.len() < path.len() && path.subrange(0, ancestor.len() as int) =~= ancestor
}

/// The names of `path`, each preceded by `/`.
pub open spec fn rendered(path: Seq<Seq<char>>) -> Seq<char>
    decreases path.len(),
{
    if path.len() == 0 {
        Seq::<char>::empty()
    } else {
        rendered(path.drop_last()) + seq!['/'] + path.last()
    }
}

/// How a path is written: `/` for the empty path, else each name preceded by `/`.
pub open spec fn display_path(path: Seq<Seq<char>>) -> Seq<char> {
    if path.len() == 0 {
        seq!['/']
    } else {
        rendered(path)
    }
}

/// `a` comes strictly before `b` in the order of their characters' code points,
/// a proper prefix coming first.
pub open spec fn chars_before(a: Seq<char>, b: Seq<char>) -> bool
    decreases a.len(),
{
    if a.len() == 0 {
        b.len() > 0
    } else if b.len() == 0 {
        false
    } else if a[0] != b[0] {
        (a[0] as int) < (b[0] as int)
    } else {
        chars_before(a.drop_first(), b.drop_first())
    }
}

/// `a` comes strictly before `b` in the order of their segments, each segment
/// ordered by `chars_before`, a proper prefix coming first.
pub open spec fn path_before(a: Seq<Seq<char>>, b: Seq<Seq<char>>) -> bool
    decreases a.len(),
{
    if a.len() == 0 {
        b.len() > 0
    } else if b.len() == 0 {
        false
    } else if a[0] != b[0] {
        chars_before(a[0], b[0])
    } else {
        path_before(a.drop_first(), b.drop_first())
    }
}

proof fn lemma_chars_before_irreflexive(a: Seq<char>)
    ensures
        !chars_before(a, a),
    decreases a.len(),
{
    if a.len() > 0 {
        lemma_chars_before_irreflexive(a.drop_first());
    }
}

proof fn lemma_chars_before_transitive(a: Seq<char>, b: Seq<char>, c: Seq<char>)
    requires
        chars_before(a, b),
        chars_before(b, c),
    ensures
        chars_before(a, c),
    decreases a.len(),
{
    if a.len() > 0 && a[0] == b[0] && b[0] == c[0] {
        lemma_chars_before_transitive(a.drop_first(), b.drop_first(), c.drop_first());
    }
}

proof fn lemma_chars_before_total(a: Seq<char>, b: Seq<char>)
    requires
        a != b,
    ensures
        chars_before(a, b) || chars_before(b, a),
    decreases a.len(),
{
    if a.len() > 0 && b.len() > 0 && a[0] == b[0] {
        if a.drop_first() == b.drop_first() {
            assert(a =~= seq![a[0]] + a.drop_first());
            assert(b =~= seq![b[0]] + b.drop_first());
        }
        lemma_chars_before_total(a.drop_first(), b.drop_first());
    } else if a.len() == 0 && b.len() == 0 {
        assert(a =~= b);
    }
}

/// No path comes before itself.
pub proof fn lemma_path_before_irreflexive(a: Seq<Seq<char>>)
    ensures
        !path_before(a, a),
    decreases a.len(),
{
    if a.len() > 0 {
        lemma_path_before_irreflexive(a.drop_first());
    }
}

/// The order of paths is transitive.
pub proof fn lemma_path_before_transitive(a: Seq<Seq<char>>, b: Seq<Seq<char>>, c: Seq<Seq<char>>)
    requires
        path_before(a, b),
        path_before(b, c),
    ensures
        path_before(a, c),
    decreases a.len(),
{
    if a.len() > 0 && b.len() > 0 && c.len() > 0 {
        if a[0] == b[0] && b[0] == c[0] {
            lemma_path_before_transitive(a.drop_first(), b.drop_first(), c.drop_first());
        } else if a[0] != b[0] && b[0] != c[0] {
            lemma_chars_before_transitive(a[0], b[0], c[0]);
            if a[0] == c[0] {
                lemma_chars_before_irreflexive(a[0]);
            }
        }
    }
}

/// Of two different paths, one comes before the other.
pub proof fn lemma_path_before_total(a: Seq<Seq<char>>, b: Seq<Seq<char>>)
    requires
        a != b,
    ensures
        path_before(a, b) || path_before(b, a),
    decreases a.len(),
{
    if a.len() > 0 && b.len() > 0 && a[0] == b[0] {
        if a.drop_first() == b.drop_first() {
            assert(a =~= seq![a[0]] + a.drop_first());
            assert(b =~= seq![b[0]] + b.drop_first());
        }
        lemma_path_before_total(a.drop_first(), b.drop_first());
    } else if a.len() > 0 && b.len() > 0 {
        lemma_chars_before_total(a[0], b[0]);
    } else if a.len() == 0 && b.len() == 0 {
        assert(a =~= b);
    }
}

proof fn lemma_split_pieces_nonempty(s: Seq<char>)
    ensures
        split_pieces(s).len() >= 1,
    decreases s.len(),
{
    if s.len() > 0 {
        lemma_split_pieces_nonempty(s.drop_last());
    }
}

pub(crate) proof fn lemma_split_after_separator(x: Seq<char>, w: Seq<char>)
    requires
        !w.contains('/'),
    ensures
        split_pieces(x + seq!['/'] + w) =~= split_pieces(x).push(w),
    decreases w.len(),
{
    let y = x + seq!['/'];
    assert(y.drop_last() =~= x);
    assert(y.last() == '/');
    assert(split_pieces(y) == split_pieces(x).push(Seq::<char>::empty()));
    if w.len() == 0 {
        assert(y + w =~= y);
        assert(w =~= Seq::<char>::empty());
    } else {
        let v = w.drop_last();
        assert(!v.contains('/')) by {
            if v.contains('/') {
                let k = choose|k: int| 0 <= k < v.len() && v[k] == '/';
                assert(w[k] == '/');
            }
        }
        lemma_split_after_separator(x, v);
        let z = y + w;
        assert(z.drop_last() =~= y + v);
        assert(z.last() == w.last());
        assert(w.last() != '/') by {
            assert(w[w.len() - 1] == w.last());
        }
        let pieces = split_pieces(y + v);
        assert(pieces == split_pieces(x).push(v));
        assert(split_pieces(z) == pieces.update(pieces.len() - 1, pieces.last().push(w.last())));
        assert(v.push(w.last()) =~= w);
        assert(pieces.update(pieces.len() - 1, pieces.last().push(w.last())) =~= split_pieces(x).push(w));
    }
}

proof fn lemma_split_rendered(p: Seq<Seq<char>>)
    requires
        forall|i: int| 0 <= i < p.len() ==> !(#[trigger] p[i]).contains('/'),
    ensures
        split_pieces(rendered(p)) =~= seq![Seq::<char>::empty()] + p,
    decreases p.len(),
{
    if p.len() == 0 {
        assert(split_pieces(Seq::<char>::empty()) == seq![Seq::<char>::empty()]);
        assert(seq![Seq::<char>::empty()] + p =~= seq![Seq::<char>::empty()]);
    } else {
        let q = p.drop_last();
        assert forall|i: int| 0 <= i < q.len() implies !(#[trigger] q[i]).contains('/') by {
            assert(q[i] == p[i]);
        }
        lemma_split_rendered(q);
        assert(!p[p.len() - 1].contains('/'));
        lemma_split_after_separator(rendered(q), p.last());
        assert(rendered(p) == rendered(q) + seq!['/'] + p.last());
        assert((seq![Seq::<char>::empty()] + q).push(p.last()) =~= seq![Seq::<char>::empty()] + p);
    }
}

proof fn lemma_nonempty_after_leading_empty(p: Seq<Seq<char>>)
    requires
        forall|i: int| 0 <= i < p.len() ==> (#[trigger] p[i]).len() > 0,
    ensures
        nonempty_pieces(seq![Seq::<char>::empty()] + p) =~= p,
    decreases p.len(),
{
    let e = seq![Seq::<char>::empty()];
    assert(e.drop_last() =~= Seq::<Seq<char>>::empty());
    assert(nonempty_pieces(Seq::<Seq<char>>::empty()) == Seq::<Seq<char>>::empty());
    assert(e.last().len() == 0);
    assert(nonempty_pieces(e) == nonempty_pieces(e.drop_last()));
    if p.len() == 0 {
        assert(e + p =~= e);
    } else {
        let q = p.drop_last();
        assert forall|i: int| 0 <= i < q.len() implies (#[trigger] q[i]).len() > 0 by {
            assert(q[i] == p[i]);
        }
        lemma_nonempty_after_leading_empty(q);
        let z = e + p;
        assert(z.drop_last() =~= e + q);
        assert(z.last() == p.last());
        assert(p[p.len() - 1].len() > 0);
        assert(nonempty_pieces(z) == nonempty_pieces(z.drop_last()).push(z.last()));
        assert(q.push(p.last()) =~= p);
    }
}

/// Writing a path out and parsing the text gives the path back, for every
/// path whose names are not empty and hold no `/`.
pub proof fn lemma_parse_display_roundtrip(p: Seq<Seq<char>>)
    requires
        forall|i: int| 0 <= i < p.len() ==> (#[trigger] p[i]).len() > 0 && !p[i].contains('/'),
    ensures
        parse_path(display_path(p)) =~= p,
{
    if p.len() == 0 {
        let slash = seq!['/'];
        let e = Seq::<char>::empty();
        assert(slash.drop_last() =~= e);
        assert(slash.last() == '/');
        assert(split_pieces(e) == seq![e]);
        let pieces = split_pieces(slash);
        assert(pieces == seq![e].push(e));
        assert(pieces.drop_last() =~= seq![e]);
        assert(pieces.drop_last().drop_last() =~= Seq::<Seq<char>>::empty());
        assert(nonempty_pieces(pieces.drop_last()) == nonempty_pieces(pieces.drop_last().drop_last()));
        assert(nonempty_pieces(pieces) == nonempty_pieces(pieces.drop_last()));
    } else {
        lemma_split_rendered(p);
        lemma_nonempty_after_leading_empty(p);
    }
}

/// A child lies below its parent.
pub proof fn lemma_child_descends(p: Seq<Seq<char>>, name: Seq<char>)
    ensures
        descends_from(p.push(name), p),
{
    assert(p.push(name).subrange(0, p.len() as int) =~= p);
}

/// No path lies below itself.
pub proof fn lemma_descends_irreflexive(p: Seq<Seq<char>>)
    ensures
        !descends_from(p, p),
{
}

/// What lies below a descendant of a path lies below the path too.
pub proof fn lemma_descends_transitive(a: Seq<Seq<char>>, b: Seq<Seq<char>>, c: Seq<Seq<char>>)
    requires
        descends_from(a, b),
        descends_from(b, c),
    ensures
        descends_from(a, c),
{
    assert(a.subrange(0, c.len() as int) =~= b.subrange(0, c.len() as int));
}

/// Two names that start alike are ordered as what follows the common start.
proof fn lemma_chars_common_start(x: Seq<char>, r: Seq<char>, t: Seq<char>)
    ensures
        chars_before(x + r, x + t) == chars_before(r, t),
    decreases x.len(),
{
    if x.len() > 0 {
        assert((x + r)[0] == x[0]);
        assert((x + t)[0] == x[0]);
        assert((x + r).drop_first() =~= x.drop_first() + r);
        assert((x + t).drop_first() =~= x.drop_first() + t);
        lemma_chars_common_start(x.drop_first(), r, t);
    } else {
        assert(x + r =~= r);
        assert(x + t =~= t);
    }
}

/// A name comes before every longer name that starts with it, and never
/// after it.
pub proof fn lemma_prefix_name_first(x: Seq<char>, r: Seq<char>)
    requires
        r.len() > 0,
    ensures
        chars_before(x, x + r),
        !chars_before(x + r, x),
{
    lemma_chars_common_start(x, Seq::<char>::empty(), r);
    lemma_chars_common_start(x, r, Seq::<char>::empty());
    assert(x + Seq::<char>::empty() =~= x);
}

/// Two names that first differ at one character are ordered by the code
/// points of those two characters, whatever follows.
pub proof fn lemma_first_difference_decides(x: Seq<char>, c: char, d: char, r: Seq<char>, t: Seq<char>)
    requires
        c != d,
    ensures
        chars_before(x + (seq![c] + r), x + (seq![d] + t)) == ((c as int) < (d as int)),
{
    lemma_chars_common_start(x, seq![c] + r, seq![d] + t);
    assert((seq![c] + r)[0] == c);
    assert((seq![d] + t)[0] == d);
}

/// Two paths that start alike are ordered as what follows the common start.
proof fn lemma_paths_common_start(p: Seq<Seq<char>>, r: Seq<Seq<char>>, t: Seq<Seq<char>>)
    ensures
        path_before(p + r, p + t) == path_before(r, t),
    decreases p.len(),
{
    if p.len() > 0 {
        assert((p + r)[0] == p[0]);
        assert((p + t)[0] == p[0]);
        assert((p + r).drop_first() =~= p.drop_first() + r);
        assert((p + t).drop_first() =~= p.drop_first() + t);
        lemma_paths_common_start(p.drop_first(), r, t);
    } else {
        assert(p + r =~= r);
        assert(p + t =~= t);
    }
}

/// An ancestor comes before each of its descendants, and never after.
pub proof fn lemma_ancestor_sorts_first(p: Seq<Seq<char>>, q: Seq<Seq<char>>)
    requires
        q.len() > 0,
    ensures
        path_before(p, p + q),
        !path_before(p + q, p),
{
    lemma_paths_common_start(p, Seq::<Seq<char>>::empty(), q);
    lemma_paths_common_start(p, q, Seq::<Seq<char>>::empty());
    assert(p + Seq::<Seq<char>>::empty() =~= p);
}

/// Of two children of one path, where one name starts with the other, the
/// shorter name comes first.
pub proof fn lemma_prefix_child_first(p: Seq<Seq<char>>, x: Seq<char>, r: Seq<char>)
    requires
        r.len() > 0,
    ensures
        path_before(p.push(x), p.push(x + r)),
        !path_before(p.push(x + r), p.push(x)),
{
    assert(p.push(x) =~= p + seq![x]);
    assert(p.push(x + r) =~= p + seq![x + r]);
    lemma_paths_common_start(p, seq![x], seq![x + r]);
    lemma_paths_common_start(p, seq![x + r], seq![x]);
    lemma_prefix_name_first(x, r);
    assert(seq![x][0] == x);
    assert(seq![x + r][0] == x + r);
    assert(x != x + r) by {
        assert((x + r).len() != x.len());
    }
}

/// A path lies below `a` exactly when it is `a` followed by one or more
/// further names.
pub proof fn lemma_below_means_extension(a: Seq<Seq<char>>, r: Seq<Seq<char>>)
    ensures
        descends_from(a + r, a) == (r.len() > 0),
{
    assert((a + r).subrange(0, a.len() as int) =~= a);
}

/// Every path below `a` is `a` followed by the rest of its names.
pub proof fn lemma_descendant_extends(p: Seq<Seq<char>>, a: Seq<Seq<char>>)
    requires
        descends_from(p, a),
    ensures
        p =~= a + p.skip(a.len() as int),
        p.skip(a.len() as int).len() > 0,
{
    assert(p =~= p.subrange(0, a.len() as int) + p.skip(a.len() as int));
}

/// A path that differs from `a` in one of `a`'s names is not below `a`; nor
/// is a path no longer than `a`.
pub proof fn lemma_differing_not_below(p: Seq<Seq<char>>, a: Seq<Seq<char>>, i: int)
    requires
        (0 <= i < a.len() && i < p.len() && p[i] != a[i]) || p.len() <= a.len(),
    ensures
        !descends_from(p, a),
{
    if descends_from(p, a) {
        assert(p.subrange(0, a.len() as int)[i] == p[i]);
    }
}

/// An ancestor comes before each of its descendants.
pub proof fn lemma_descendant_sorts_after(p: Seq<Seq<char>>, a: Seq<Seq<char>>)
    requires
        descends_from(p, a),
    ensures
        path_before(a, p),
        !path_before(p, a),
{
    lemma_descendant_extends(p, a);
    lemma_ancestor_sorts_first(a, p.skip(a.len() as int));
}

/// The path of an actor: the names from the root of the system down to the
/// actor. Its view is the sequence of those names.
#[derive(Debug, Hash, PartialOrd, Ord)]
pub struct ActorPath {
    segments: Vec<String>,
}

impl View for ActorPath {
    type V = Seq<Seq<char>>;

    closed spec fn view(&self) -> Seq<Seq<char>> {
        self.segments@.map_values(|s: String| s@)
    }
}

/// Whether `a` comes strictly before `b`, character by character.
fn strings_before(a: &String, b: &String) -> (before: bool)
    ensures
        before == chars_before(a@, b@),
{
    let a_str = a.as_str();
    let b_str = b.as_str();
    let n = a_str.unicode_len();
    let m = b_str.unicode_len();
    let mut i: usize = 0;
    assert(a@.skip(0) =~= a@);
    assert(b@.skip(0) =~= b@);
    while i < n && i < m
        invariant
            a_str@ == a@,
            b_str@ == b@,
            n == a@.len(),
            m == b@.len(),
            i <= n,
            i <= m,
            chars_before(a@, b@) == chars_before(a@.skip(i as int), b@.skip(i as int)),
        decreases n - i,
    {
        let x = a_str.get_char(i);
        let y = b_str.get_char(i);
        proof {
            assert(a@.skip(i as int)[0] == x);
            assert(b@.skip(i as int)[0] == y);
        }
        if x != y {
            let before = x < y;
            assert(a@.skip(i as int).len() > 0 && b@.skip(i as int).len() > 0);
            assert(chars_before(a@.skip(i as int), b@.skip(i as int)) == before);
            return before;
        }
        proof {
            assert(a@.skip(i as int).drop_first() =~= a@.skip(i as int + 1));
            assert(b@.skip(i as int).drop_first() =~= b@.skip(i as int + 1));
        }
        i = i + 1;
    }
    i < m
}

impl ActorPath {
    /// Parses a path written with `/` between its names, such as `/user/a`.
    /// Empty names (a leading, trailing or doubled `/`) are skipped.
    pub fn from(s: &str) -> (path: ActorPath)
        ensures
            path@ == parse_path(s@),
    {
        let n = s.unicode_len();
        let mut segments: Vec<String> = Vec::new();
        let mut start: usize = 0;
        let mut i: usize = 0;
        proof {
            assert(s@.subrange(0, 0) =~= Seq::<char>::empty());
            assert(segments@.map_values(|x: String| x@) =~= Seq::<Seq<char>>::empty());
        }
        while i < n
            invariant
                n == s@.len(),
                start <= i <= n,
                split_pieces(s@.subrange(0, i as int)).last() =~= s@.subrange(start as int, i as int),
                segments@.map_values(|x: String| x@) =~= nonempty_pieces(
                    split_pieces(s@.subrange(0, i as int)).drop_last(),
                ),
            decreases n - i,
        {
            let c = s.get_char(i);
            let ghost pre = s@.subrange(0, i as int);
            let ghost post = s@.subrange(0, i as int + 1);
            proof {
                assert(post.drop_last() =~= pre);
                assert(post.last() == c);
                lemma_split_pieces_nonempty(pre);
            }
            if c == '/' {
                let ghost pieces = split_pieces(pre);
                assert(split_pieces(post) == pieces.push(Seq::<char>::empty()));
                assert(split_pieces(post).drop_last() =~= pieces);
                if start < i {
                    let piece = s.substring_char(start, i).to_owned();
                    let ghost old_view = segments@.map_values(|x: String| x@);
                    segments.push(piece);
                    assert(segments@.map_values(|x: String| x@) =~= old_view.push(piece@));
                }
                start = i + 1;
                assert(s@.subrange(start as int, i as int + 1) =~= Seq::<char>::empty());
            } else {
                let ghost pieces = split_pieces(pre);
                assert(split_pieces(post).drop_last() =~= pieces.drop_last());
                assert(s@.subrange(start as int, i as int + 1) =~= s@.subrange(start as int, i as int).push(c));
            }
            i = i + 1;
        }
        proof {
            assert(s@.subrange(0, n as int) =~= s@);
            lemma_split_pieces_nonempty(s@);
        }
        if start < n {
            let piece = s.substring_char(start, n).to_owned();
            let ghost old_view = segments@.map_values(|x: String| x@);
            segments.push(piece);
            assert(segments@.map_values(|x: String| x@) =~= old_view.push(piece@));
        }
        ActorPath { segments }
    }

    /// The path of the child called `name` of this path: this path with
    /// `name` appended as its last segment.
    pub fn join(self, name: &str) -> (child: ActorPath)
        ensures
            child@ == self@.push(name@),
    {
        let mut segments = self.segments;
        let ghost old_view = segments@.map_values(|x: String| x@);
        let name_string = name.to_owned();
        segments.push(name_string);
        assert(segments@.map_values(|x: String| x@) =~= old_view.push(name@));
        ActorPath { segments }
    }

    /// Whether the two paths hold the same segments.
    pub fn same_as(&self, other: &ActorPath) -> (same: bool)
        ensures
            same == (self@ == other@),
    {
        let n = self.segments.len();
        if n != other.segments.len() {
            assert(self@.len() != other@.len());
            return false;
        }
        let mut i: usize = 0;
        while i < n
            invariant
                n == self.segments.len(),
                n == other.segments.len(),
                i <= n,
                forall|j: int| 0 <= j < i ==> self@[j] == other@[j],
            decreases n - i,
        {
            if self.segments[i] != other.segments[i] {
                assert(self@[i as int] != other@[i as int]);
                return false;
            }
            i = i + 1;
        }
        assert(self@ =~= other@);
        true
    }

    /// Whether this path lies strictly below `ancestor` in the hierarchy.
    pub fn is_descendant_of(&self, ancestor: &ActorPath) -> (below: bool)
        ensures
            below == descends_from(self@, ancestor@),
    {
        let n = ancestor.segments.len();
        if n >= self.segments.len() {
            return false;
        }
        let mut i: usize = 0;
        while i < n
            invariant
                n == ancestor.segments.len(),
                n < self.segments.len(),
                i <= n,
                forall|j: int| 0 <= j < i ==> self@[j] == ancestor@[j],
            decreases n - i,
        {
            if self.segments[i] != ancestor.segments[i] {
                assert(self@.subrange(0, n as int)[i as int] != ancestor@[i as int]);
                return false;
            }
            i = i + 1;
        }
        assert(self@.subrange(0, n as int) =~= ancestor@);
        true
    }

    /// Whether this path comes strictly before `other` in the order of paths:
    /// segment by segment, each segment by its characters.
    pub fn sorts_before(&self, other: &ActorPath) -> (before: bool)
        ensures
            before == path_before(self@, other@),
    {
        let n = self.segments.len();
        let m = other.segments.len();
        let mut i: usize = 0;
        assert(self@.skip(0) =~= self@);
        assert(other@.skip(0) =~= other@);
        while i < n && i < m
            invariant
                n == self@.len(),
                m == other@.len(),
                i <= n,
                i <= m,
                path_before(self@, other@) == path_before(self@.skip(i as int), other@.skip(i as int)),
            decreases n - i,
        {
            let same = self.segments[i] == other.segments[i];
            if !same {
                proof {
                    assert(self@.skip(i as int)[0] == self@[i as int]);
                    assert(other@.skip(i as int)[0] == other@[i as int]);
                }
                return strings_before(&self.segments[i], &other.segments[i]);
            }
            proof {
                assert(self@.skip(i as int).drop_first() =~= self@.skip(i as int + 1));
                assert(other@.skip(i as int).drop_first() =~= other@.skip(i as int + 1));
            }
            i = i + 1;
        }
        i < m
    }

    /// Writes the path out: `/` for the empty path, else each segment preceded
    /// by `/`, as in `/user/a`.
    pub fn to_string(&self) -> (text: String)
        ensures
            text@ == display_path(self@),
    {
        let mut text = String::new();
        proof {
            reveal_strlit("/");
        }
        if self.segments.len() == 0 {
            text.append("/");
            return text;
        }
        let n = self.segments.len();
        let mut i: usize = 0;
        while i < n
            invariant
                n == self.segments.len(),
                i <= n,
                text@ == rendered(self@.subrange(0, i as int)),
                "/"@ == seq!['/'],
            decreases n - i,
        {
            text.append("/");
            text.append(self.segments[i].as_str());
            assert(self@.subrange(0, i as int + 1).drop_last() =~= self@.subrange(0, i as int));
            i = i + 1;
        }
        assert(self@.subrange(0, n as int) =~= self@);
        text
    }
}

impl core::ops::Div<&str> for ActorPath {
    type Output = ActorPath;

    /// `path / name` is the path of the child called `name`, as `join` gives.
    fn div(self, name: &str) -> (child: ActorPath)
        ensures
            child@ == self@.push(name@),
    {
        self.join(name)
    }
}

impl vstd::std_specs::ops::DivSpecImpl<&str> for ActorPath {
    /// What `/` gives is stated by its own `ensures`, over the view: paths
    /// with the same names may differ as values, so no value is claimed.
    open spec fn obeys_div_spec() -> bool {
        false
    }

    open spec fn div_req(self, name: &str) -> bool {
        true
    }

    open spec fn div_spec(self, name: &str) -> ActorPath {
        choose|child: ActorPath| child@ == self@.push(name@)
    }
}

impl Clone for ActorPath {
    fn clone(&self) -> (copy: Self)
        ensures
            copy@ == self@,
    {
        let n = self.segments.len();
        let mut segments: Vec<String> = Vec::new();
        let mut i: usize = 0;
        while i < n
            invariant
                n == self.segments.len(),
                i <= n,
                segments@.map_values(|x: String| x@) =~= self@.subrange(0, i as int),
            decreases n - i,
        {
            let ghost old_view = segments@.map_values(|x: String| x@);
            segments.push(self.segments[i].clone());
            assert(segments@.map_values(|x: String| x@) =~= old_view.push(self@[i as int]));
            assert(self@.subrange(0, i as int + 1) =~= self@.subrange(0, i as int).push(self@[i as int]));
            i = i + 1;
        }
        assert(self@.subrange(0, n as int) =~= self@);
        ActorPath { segments }
    }
}

impl PartialEq for ActorPath {
    fn eq(&self, other: &Self) -> (same: bool) {
        self.same_as(other)
    }
}

impl vstd::std_specs::cmp::PartialEqSpecImpl for ActorPath {
    open spec fn obeys_eq_spec() -> bool {
        true
    }

    open spec fn eq_spec(&self, other: &Self) -> bool {
        self@ == other@
    }
}

impl Eq for ActorPath {
}

impl Default for ActorPath {
    fn default() -> (path: Self)
        ensures
            path@ == Seq::<Seq<char>>::empty(),
    {
        let segments: Vec<String> = Vec::new();
        assert(segments@.map_values(|x: String| x@) =~= Seq::<Seq<char>>::empty());
        ActorPath { segments }
    }
}

} // verus!
