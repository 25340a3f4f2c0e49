//! Unix path strings, modelled component by component.
//!
//! A path is a `/`-separated string. Its components are written the way
//! each component prints: `/` for the root, `.` for a leading current-dir
//! marker, `..` for a parent-dir step and the plain name otherwise. Empty
//! pieces (from repeated or trailing `/`) and `.` pieces after the start are
//! not components.
use vstd::prelude::*;
use vstd::string::*;

verus! {

/// The `/`-separated pieces of `s`, empty pieces included.
pub open spec fn segments(s: Seq<char>) -> Seq<Seq<char>>
    decreases s.len(),
{
    if s.len() == 0 {
        seq![Seq::<char>::empty()]
    } else {
        let prev = segments(s.drop_last());
        if s.last() == '/' {
            prev.push(Seq::<char>::empty())
        } else {
            prev.update(prev.len() - 1, prev.last().push(s.last()))
        }
    }
}

/// A piece that names no component: empty, or a lone `.`.
pub open spec fn is_skipped_piece(piece: Seq<char>) -> bool {
    piece.len() == 0 || piece == seq!['.']
}

/// The pieces that are components, in order.
pub open spec fn kept_pieces(pieces: Seq<Seq<char>>) -> Seq<Seq<char>>
    decreases pieces.len(),
{
    if pieces.len() == 0 {
        Seq::empty()
    } else {
        let kept = kept_pieces(pieces.drop_last());
        if is_skipped_piece(pieces.last()) {
            kept
        } else {
            kept.push(pieces.last())
        }
    }
}

/// The path starts at the root.
pub open spec fn has_root(s: Seq<char>) -> bool {
    s.len() > 0 && s[0] == '/'
}

/// A relative path that starts with the current-dir marker (`.` or `./...`).
pub open spec fn has_leading_cur_dir(s: Seq<char>) -> bool {
    !has_root(s) && (s == seq!['.'] || (s.len() >= 2 && s[0] == '.' && s[1] == '/'))
}

/// The components that come before the named ones: the root or the leading `.`.
pub open spec fn lead_components(s: Seq<char>) -> Seq<Seq<char>> {
    if has_root(s) {
        seq![seq!['/']]
    } else if has_leading_cur_dir(s) {
        seq![seq!['.']]
    } else {
        Seq::empty()
    }
}

/// All components of `s`, each written as it prints.
pub open spec fn components(s: Seq<char>) -> Seq<Seq<char>> {
    lead_components(s) + kept_pieces(segments(s))
}

/// The parent-dir component.
pub open spec fn parent_dir() -> Seq<char> {
    seq!['.', '.']
}

/// Some component of `s` steps to the parent directory.
pub open spec fn has_parent_dir(s: Seq<char>) -> bool {
    components(s).contains(parent_dir())
}

/// `prefix` is an initial run of `whole`.
pub open spec fn is_prefix_of<A>(prefix: Seq<A>, whole: Seq<A>) -> bool {
    prefix.len() <= whole.len() && prefix == whole.take(prefix.len() as int)
}

/// `path` lies under `base`: the components of `base` begin those of `path`.
pub open spec fn path_starts_with(path: Seq<char>, base: Seq<char>) -> bool {
    is_prefix_of(components(base), components(path))
}

/// `sub` appended to `base`: an absolute `sub` replaces `base`; otherwise a
/// `/` goes between them unless `base` is empty or already ends with one.
pub open spec fn joined(base: Seq<char>, sub: Seq<char>) -> Seq<char> {
    if has_root(sub) {
        sub
    } else if base.len() > 0 && base.last() != '/' {
        base + seq!['/'] + sub
    } else {
        base + sub
    }
}

proof fn lemma_segments_nonempty(s: Seq<char>)
    ensures
        segments(s).len() >= 1,
    decreases s.len(),
{
    if s.len() > 0 {
        lemma_segments_nonempty(s.drop_last());
    }
}

/// One more character extends the pieces read so far.
proof fn lemma_segments_step(s: Seq<char>, i: int, done: Seq<Seq<char>>, start: int)
    requires
        0 <= start <= i < s.len(),
        segments(s.take(i)) == done.push(s.subrange(start, i)),
    ensures
        s[i] == '/' ==> segments(s.take(i + 1)) == done.push(s.subrange(start, i)).push(
            s.subrange(i + 1, i + 1),
        ),
        s[i] != '/' ==> segments(s.take(i + 1)) == done.push(s.subrange(start, i + 1)),
{
    let t = s.take(i + 1);
    assert(t.drop_last() =~= s.take(i));
    assert(t.last() == s[i]);
    if s[i] == '/' {
        assert(s.subrange(i + 1, i + 1) =~= Seq::<char>::empty());
    } else {
        assert(s.subrange(start, i).push(s[i]) =~= s.subrange(start, i + 1));
        assert(done.push(s.subrange(start, i)).update(done.len() as int, s.subrange(start, i + 1))
            =~= done.push(s.subrange(start, i + 1)));
    }
}

proof fn lemma_kept_push(pieces: Seq<Seq<char>>, piece: Seq<char>)
    ensures
        kept_pieces(pieces.push(piece)) == if is_skipped_piece(piece) {
            kept_pieces(pieces)
        } else {
            kept_pieces(pieces).push(piece)
        },
{
    assert(pieces.push(piece).drop_last() =~= pieces);
}

/// Whether the characters `s[start..end]` form a skipped piece.
fn piece_is_skipped(s: &str, start: usize, end: usize) -> (skipped: bool)
    requires
        start <= end <= s@.len(),
    ensures
        skipped == is_skipped_piece(s@.subrange(start as int, end as int)),
{
    if start == end {
        assert(s@.subrange(start as int, end as int).len() == 0);
        true
    } else if end == start + 1 {
        let c = s.get_char(start);
        if c == '.' {
            assert(s@.subrange(start as int, end as int) =~= seq!['.']);
            true
        } else {
            assert(s@.subrange(start as int, end as int)[0] != seq!['.'][0]);
            false
        }
    } else {
        assert(s@.subrange(start as int, end as int).len() != seq!['.'].len());
        false
    }
}

/// Whether a path string starts at the root.
pub fn is_absolute(path: &str) -> (absolute: bool)
    ensures
        absolute == has_root(path@),
{
    let n = path.unicode_len();
    n > 0 && path.get_char(0) == '/'
}

/// The components of `path`, each written as it prints.
pub fn path_components(path: &str) -> (comps: Vec<String>)
    ensures
        comps.deep_view() == components(path@),
{
    let n = path.unicode_len();
    let mut comps: Vec<String> = Vec::new();
    let ghost lead = lead_components(path@);
    if n > 0 && path.get_char(0) == '/' {
        proof {
            reveal_strlit("/");
        }
        let root = "/".to_owned();
        assert(root@ =~= seq!['/']);
        comps.push(root);
        assert(comps.deep_view()[0] == seq!['/']);
        assert(comps.deep_view() =~= lead);
    } else if (n == 1 && path.get_char(0) == '.') || (n >= 2 && path.get_char(0) == '.'
        && path.get_char(1) == '/') {
        proof {
            reveal_strlit(".");
            if n == 1 {
                assert(path@ =~= seq!['.']);
            }
        }
        let cur = ".".to_owned();
        assert(cur@ =~= seq!['.']);
        comps.push(cur);
        assert(comps.deep_view()[0] == seq!['.']);
        assert(comps.deep_view() =~= lead);
    } else {
        proof {
            if n == 1 {
                assert(path@ != seq!['.']) by {
                    assert(path@[0] != seq!['.'][0]);
                }
            }
        }
        assert(comps.deep_view() =~= lead);
    }
    let mut start: usize = 0;
    let mut i: usize = 0;
    let ghost mut done: Seq<Seq<char>> = Seq::empty();
    proof {
        assert(path@.take(0) =~= Seq::<char>::empty());
        assert(path@.subrange(0, 0) =~= Seq::<char>::empty());
        assert(done.push(path@.subrange(0, 0)) =~= seq![Seq::<char>::empty()]);
    }
    while i < n
        invariant
            n == path@.len(),
            start <= i <= n,
            lead == lead_components(path@),
            segments(path@.take(i as int)) == done.push(path@.subrange(start as int, i as int)),
            comps.deep_view() == lead + kept_pieces(done),
        decreases n - i,
    {
        let c = path.get_char(i);
        proof {
            lemma_segments_step(path@, i as int, done, start as int);
        }
        if c == '/' {
            let skipped = piece_is_skipped(path, start, i);
            let ghost piece = path@.subrange(start as int, i as int);
            proof {
                lemma_kept_push(done, piece);
            }
            if !skipped {
                let part = path.substring_char(start, i);
                let owned = part.to_owned();
                let ghost before = comps.deep_view();
                comps.push(owned);
                assert(comps.deep_view() =~= before.push(piece));
                assert(lead + kept_pieces(done).push(piece) =~= (lead + kept_pieces(done)).push(
                    piece,
                ));
            }
            proof {
                done = done.push(piece);
            }
            start = i + 1;
        }
        i = i + 1;
    }
    let skipped = piece_is_skipped(path, start, n);
    let ghost piece = path@.subrange(start as int, n as int);
    proof {
        lemma_kept_push(done, piece);
    }
    if !skipped {
        let part = path.substring_char(start, n);
        let owned = part.to_owned();
        let ghost before = comps.deep_view();
        comps.push(owned);
        assert(comps.deep_view() =~= before.push(piece));
        assert(lead + kept_pieces(done).push(piece) =~= (lead + kept_pieces(done)).push(piece));
    }
    proof {
        assert(path@.take(n as int) =~= path@);
        done = done.push(piece);
    }
    comps
}

/// Whether a component, as printed, is the parent-dir step `..`.
fn is_parent_dir_component(comp: &String) -> (parent: bool)
    ensures
        parent == (comp@ == parent_dir()),
{
    let c = comp.as_str();
    let n = c.unicode_len();
    if n == 2 && c.get_char(0) == '.' && c.get_char(1) == '.' {
        assert(c@ =~= parent_dir());
        true
    } else {
        proof {
            if n == 2 {
                if c@[0] != '.' {
                    assert(c@[0] != parent_dir()[0]);
                } else {
                    assert(c@[1] != parent_dir()[1]);
                }
            } else {
                assert(c@.len() != parent_dir().len());
            }
        }
        false
    }
}

/// Whether some component of `path` steps to the parent directory.
pub fn contains_parent_dir(path: &str) -> (found: bool)
    ensures
        found == has_parent_dir(path@),
{
    let comps = path_components(path);
    let ghost dv = comps.deep_view();
    let mut j: usize = 0;
    while j < comps.len()
        invariant
            dv == comps.deep_view(),
            dv == components(path@),
            j <= comps.len(),
            forall|k: int| 0 <= k < j ==> dv[k] != parent_dir(),
        decreases comps.len() - j,
    {
        if is_parent_dir_component(&comps[j]) {
            assert(dv[j as int] == parent_dir());
            return true;
        }
        j = j + 1;
    }
    false
}

/// `sub` appended to `base` the way a path join does it.
pub fn join_paths(base: &str, sub: &str) -> (path: String)
    ensures
        path@ == joined(base@, sub@),
{
    if is_absolute(sub) {
        return sub.to_owned();
    }
    let n = base.unicode_len();
    let mut path = base.to_owned();
    if n > 0 && base.get_char(n - 1) != '/' {
        proof {
            reveal_strlit("/");
        }
        path.append("/");
    }
    path.append(sub);
    path
}

/// Whether the components of `base` begin those of `path`.
pub fn starts_with_path(path: &str, base: &str) -> (under: bool)
    ensures
        under == path_starts_with(path@, base@),
{
    let path_comps = path_components(path);
    let base_comps = path_components(base);
    let ghost p = path_comps.deep_view();
    let ghost b = base_comps.deep_view();
    if base_comps.len() > path_comps.len() {
        return false;
    }
    let mut j: usize = 0;
    while j < base_comps.len()
        invariant
            p == path_comps.deep_view(),
            b == base_comps.deep_view(),
            p == components(path@),
            b == components(base@),
            base_comps.len() <= path_comps.len(),
            j <= base_comps.len(),
            forall|k: int| 0 <= k < j ==> b[k] == p[k],
        decreases base_comps.len() - j,
    {
        if base_comps[j] != path_comps[j] {
            assert(b[j as int] != p.take(b.len() as int)[j as int]);
            return false;
        }
        j = j + 1;
    }
    assert(b =~= p.take(b.len() as int));
    true
}

/// Splitting at a `/` splits the pieces.
proof fn lemma_segments_concat(x: Seq<char>, y: Seq<char>)
    ensures
        segments(x + seq!['/'] + y) == segments(x) + segments(y),
    decreases y.len(),
{
    lemma_segments_nonempty(x);
    if y.len() == 0 {
        let w = x + seq!['/'];
        assert(w.drop_last() =~= x);
        assert(x + seq!['/'] + y =~= w);
        assert(segments(x) + segments(y) =~= segments(x).push(Seq::<char>::empty()));
    } else {
        let w = x + seq!['/'] + y;
        let yp = y.drop_last();
        lemma_segments_concat(x, yp);
        lemma_segments_nonempty(yp);
        assert(w.drop_last() =~= x + seq!['/'] + yp);
        assert(w.last() == y.last());
        let a = segments(x);
        let b = segments(yp);
        if y.last() == '/' {
            assert((a + b).push(Seq::<char>::empty()) =~= a + b.push(Seq::<char>::empty()));
        } else {
            assert((a + b).update((a + b).len() - 1, (a + b).last().push(y.last())) =~= a
                + b.update(b.len() - 1, b.last().push(y.last())));
        }
    }
}

/// The kept pieces of a concatenation are the concatenation of the kept pieces.
proof fn lemma_kept_concat(a: Seq<Seq<char>>, b: Seq<Seq<char>>)
    ensures
        kept_pieces(a + b) == kept_pieces(a) + kept_pieces(b),
    decreases b.len(),
{
    if b.len() == 0 {
        assert(a + b =~= a);
        assert(kept_pieces(a) + kept_pieces(b) =~= kept_pieces(a));
    } else {
        lemma_kept_concat(a, b.drop_last());
        assert((a + b).drop_last() =~= a + b.drop_last());
        assert((a + b).last() == b.last());
        if !is_skipped_piece(b.last()) {
            assert((kept_pieces(a) + kept_pieces(b.drop_last())).push(b.last()) =~= kept_pieces(a)
                + kept_pieces(b.drop_last()).push(b.last()));
        }
    }
}

/// A sub path with no root and no `..` step, joined to a non-empty base,
/// adds exactly its named components after those of the base, so the result
/// lies under the base and climbs no higher than it.
pub proof fn lemma_join_extends_base(base: Seq<char>, sub: Seq<char>)
    requires
        base.len() > 0,
        !has_root(sub),
    ensures
        components(joined(base, sub)) == components(base) + kept_pieces(segments(sub)),
        path_starts_with(joined(base, sub), base),
{
    let j = joined(base, sub);
    if base.last() != '/' {
        assert(j == base + seq!['/'] + sub);
        lemma_segments_concat(base, sub);
        lemma_kept_concat(segments(base), segments(sub));
        assert(j[0] == base[0]);
        if base.len() >= 2 {
            assert(j[1] == base[1]);
        } else {
            assert(j[1] == '/');
            if base[0] == '.' {
                assert(base =~= seq!['.']);
            }
        }
        assert(lead_components(j) == lead_components(base));
    } else {
        let bp = base.drop_last();
        assert(base =~= bp + seq!['/']);
        assert(j =~= bp + seq!['/'] + sub);
        lemma_segments_concat(bp, sub);
        lemma_segments_concat(bp, Seq::<char>::empty());
        assert(bp + seq!['/'] + Seq::<char>::empty() =~= base);
        lemma_kept_concat(segments(bp), segments(sub));
        lemma_kept_concat(segments(bp), segments(Seq::<char>::empty()));
        assert(segments(Seq::<char>::empty()) == seq![Seq::<char>::empty()]);
        assert(kept_pieces(seq![Seq::<char>::empty()]) =~= Seq::<Seq<char>>::empty()) by {
            let one = seq![Seq::<char>::empty()];
            assert(one.drop_last() =~= Seq::<Seq<char>>::empty());
            assert(one.last().len() == 0);
            assert(is_skipped_piece(one.last()));
            assert(kept_pieces(Seq::<Seq<char>>::empty()) =~= Seq::<Seq<char>>::empty());
        }
        assert(kept_pieces(segments(base)) =~= kept_pieces(segments(bp)));
        assert(j[0] == base[0]);
        if base.len() >= 2 {
            assert(j[1] == base[1]);
        }
        if base.len() == 1 {
            assert(base[0] == '/');
        }
        assert(lead_components(j) == lead_components(base));
    }
    let cb = components(base);
    let cj = components(j);
    assert(cj =~= cb + kept_pieces(segments(sub)));
    assert(cj.take(cb.len() as int) =~= cb);
}

/// The empty path has no components.
pub proof fn lemma_empty_path_components()
    ensures
        components(Seq::<char>::empty()) == Seq::<Seq<char>>::empty(),
{
    let one = seq![Seq::<char>::empty()];
    assert(segments(Seq::<char>::empty()) == one);
    assert(one.drop_last() =~= Seq::<Seq<char>>::empty());
    assert(one.last().len() == 0);
    assert(is_skipped_piece(one.last()));
    assert(kept_pieces(Seq::<Seq<char>>::empty()) =~= Seq::<Seq<char>>::empty());
    assert(kept_pieces(one) =~= Seq::<Seq<char>>::empty());
    assert(components(Seq::<char>::empty()) =~= Seq::<Seq<char>>::empty());
}

/// The pieces written back with a `/` between each two.
pub open spec fn rejoin_pieces(pieces: Seq<Seq<char>>) -> Seq<char>
    decreases pieces.len(),
{
    if pieces.len() <= 1 {
        if pieces.len() == 1 {
            pieces[0]
        } else {
            Seq::empty()
        }
    } else {
        rejoin_pieces(pieces.drop_last()) + seq!['/'] + pieces.last()
    }
}

/// The pieces of a path hold no `/`, and written back with a `/` between
/// each two they give the path again; so they are exactly its
/// `/`-separated parts.
pub proof fn lemma_segments_split_at_separators(s: Seq<char>)
    ensures
        segments(s).len() >= 1,
        forall|i: int| 0 <= i < segments(s).len() ==> !(#[trigger] segments(s)[i]).contains('/'),
        rejoin_pieces(segments(s)) == s,
    decreases s.len(),
{
    lemma_segments_nonempty(s);
    if s.len() > 0 {
        let prev = segments(s.drop_last());
        lemma_segments_split_at_separators(s.drop_last());
        lemma_segments_nonempty(s.drop_last());
        let c = s.last();
        if c == '/' {
            let now = prev.push(Seq::<char>::empty());
            assert(now.drop_last() =~= prev);
            assert forall|i: int| 0 <= i < now.len() implies !(#[trigger] now[i]).contains('/') by {
                if i < prev.len() {
                    assert(now[i] == prev[i]);
                }
            }
            assert(s =~= s.drop_last() + seq!['/'] + Seq::<char>::empty());
        } else {
            let last = prev.last().push(c);
            let now = prev.update(prev.len() - 1, last);
            assert forall|i: int| 0 <= i < now.len() implies !(#[trigger] now[i]).contains('/') by {
                if i < prev.len() - 1 {
                    assert(now[i] == prev[i]);
                } else {
                    assert(!prev[prev.len() - 1].contains('/'));
                    if last.contains('/') {
                        let j = choose|j: int| 0 <= j < last.len() && last[j] == '/';
                        if j < prev.last().len() {
                            assert(prev.last()[j] == '/');
                        }
                    }
                }
            }
            if prev.len() == 1 {
                assert(s =~= prev[0].push(c));
            } else {
                assert(now.drop_last() =~= prev.drop_last());
                assert(prev.last() == prev[prev.len() - 1]);
                assert(rejoin_pieces(prev) == rejoin_pieces(prev.drop_last()) + seq!['/'] + prev.last());
                assert(s =~= (rejoin_pieces(prev.drop_last()) + seq!['/'] + prev.last()).push(c));
                assert(rejoin_pieces(now) =~= (rejoin_pieces(prev.drop_last()) + seq!['/']
                    + prev.last()).push(c));
            }
        }
    }
}

pub open spec fn names_component() -> spec_fn(Seq<char>) -> bool {
    |piece: Seq<char>| !is_skipped_piece(piece)
}

/// The named components are the pieces that are neither empty nor a lone
/// `.`, in order.
pub proof fn lemma_kept_pieces_are_named_ones(pieces: Seq<Seq<char>>)
    ensures
        kept_pieces(pieces) == pieces.filter(names_component()),
    decreases pieces.len(),
{
    reveal(Seq::filter);
    if pieces.len() > 0 {
        lemma_kept_pieces_are_named_ones(pieces.drop_last());
    }
}

} // verus!
