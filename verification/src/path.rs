//! Unix paths as text: their components, their last name, and when two of them
//! are the same path.
use vstd::prelude::*;

use crate::text::{chars_of, is_free_of, same_text};

verus! {

/// The pieces of `s` between separators; one piece more than there are
/// separators.
pub open spec fn pieces(s: Seq<char>, sep: char) -> Seq<Seq<char>>
    decreases s.len(),
{
    if s.len() == 0 {
        seq![Seq::empty()]
    } else {
        let front = pieces(s.drop_last(), sep);
        if s.last() == sep {
            front.push(Seq::empty())
        } else {
            front.drop_last().push(front.last().push(s.last()))
        }
    }
}

/// Whether a piece of a path names something: empty pieces and `.` do not.
pub open spec fn is_name(piece: Seq<char>) -> bool {
    piece.len() > 0 && piece != seq!['.']
}

/// The names that a path goes through.
pub open spec fn names(path: Seq<char>) -> Seq<Seq<char>> {
    pieces(path, '/').filter(|piece: Seq<char>| is_name(piece))
}

/// Whether a path starts at the root.
pub open spec fn is_rooted(path: Seq<char>) -> bool {
    path.len() > 0 && path[0] == '/'
}

/// Whether a path starts with a `.` of its own.
pub open spec fn starts_here(path: Seq<char>) -> bool {
    pieces(path, '/')[0] == seq!['.']
}

/// Whether two paths have the same components: repeated and trailing slashes do
/// not count, nor does a `.` behind the first place.
pub open spec fn is_same_path(a: Seq<char>, b: Seq<char>) -> bool {
    &&& is_rooted(a) == is_rooted(b)
    &&& starts_here(a) == starts_here(b)
    &&& names(a) == names(b)
}

/// The last name of a path, unless it is `..` or there is none.
pub open spec fn last_name(path: Seq<char>) -> Option<Seq<char>> {
    if names(path).len() > 0 && names(path).last() != seq!['.', '.'] {
        Some(names(path).last())
    } else {
        None
    }
}

/// A text has at least one piece.
pub proof fn lemma_pieces_nonempty(s: Seq<char>, sep: char)
    ensures
        pieces(s, sep).len() > 0,
    decreases s.len(),
{
    if s.len() > 0 {
        lemma_pieces_nonempty(s.drop_last(), sep);
    }
}

/// More text does not change the pieces that are closed by a separator.
proof fn lemma_first_piece(s: Seq<char>, n: int, sep: char)
    requires
        0 < n <= s.len(),
        s[n - 1] == sep,
    ensures
        pieces(s, sep).len() > 1,
        pieces(s, sep)[0] == pieces(s.take(n), sep)[0],
    decreases s.len(),
{
    lemma_pieces_nonempty(s.drop_last(), sep);
    if n == s.len() {
        assert(s.take(n) =~= s);
    } else {
        lemma_first_piece(s.drop_last(), n, sep);
        assert(s.drop_last().take(n) =~= s.take(n));
    }
}

/// A text without a separator is one piece.
proof fn lemma_single_piece(s: Seq<char>, sep: char)
    requires
        forall|i: int| 0 <= i < s.len() ==> #[trigger] s[i] != sep,
    ensures
        pieces(s, sep) == seq![s],
    decreases s.len(),
{
    if s.len() > 0 {
        let front = s.drop_last();
        lemma_single_piece(front, sep);
        assert(pieces(front, sep).drop_last() =~= Seq::<Seq<char>>::empty());
        assert(front.push(s.last()) =~= s);
        assert(pieces(s, sep) =~= seq![s]);
    } else {
        assert(s =~= Seq::<char>::empty());
    }
}

fn piece_is_name(piece: &str) -> (r: bool)
    ensures
        r == is_name(piece@),
{
    proof {
        reveal_strlit(".");
        assert("."@ =~= seq!['.']);
    }
    !piece.is_empty() && !same_text(piece, ".")
}

proof fn lemma_filter_push(s: Seq<Seq<char>>, x: Seq<char>)
    ensures
        s.push(x).filter(|piece: Seq<char>| is_name(piece)) == if is_name(x) {
            s.filter(|piece: Seq<char>| is_name(piece)).push(x)
        } else {
            s.filter(|piece: Seq<char>| is_name(piece))
        },
{
    reveal(Seq::filter);
    assert(s.push(x).drop_last() =~= s);
}

/// The names that `path` goes through.
pub fn path_names(path: &str) -> (r: Vec<String>)
    ensures
        r.deep_view() == names(path@),
{
    let chars: Vec<char> = chars_of(path);
    let mut out: Vec<String> = Vec::new();
    let mut from: usize = 0;
    let mut at: usize = 0;
    proof {
        reveal(Seq::filter);
        let none = Seq::<Seq<char>>::empty();
        assert(path@.take(0) =~= Seq::<char>::empty());
        assert(pieces(path@.take(0), '/').drop_last() =~= none);
        assert(none.filter(|piece: Seq<char>| is_name(piece)) =~= none);
        assert(out.deep_view() =~= none);
        assert(path@.subrange(0, 0) =~= Seq::<char>::empty());
    }
    while at < chars.len()
        invariant
            from <= at <= chars.len(),
            chars@ == path@,
            pieces(path@.take(at as int), '/').len() > 0,
            out.deep_view() == pieces(path@.take(at as int), '/').drop_last().filter(
                |piece: Seq<char>| is_name(piece),
            ),
            pieces(path@.take(at as int), '/').last() == path@.subrange(from as int, at as int),
        decreases chars.len() - at,
    {
        let ghost before: Seq<Seq<char>> = pieces(path@.take(at as int), '/');
        let ghost done: Seq<Seq<char>> = out.deep_view();
        let ghost next: Seq<char> = path@.take(at as int + 1);
        proof {
            assert(next.drop_last() =~= path@.take(at as int));
            assert(next.last() == chars@[at as int]);
        }
        if chars[at] == '/' {
            let piece: &str = path.substring_char(from, at);
            if piece_is_name(piece) {
                out.push(piece.to_owned());
                assert(out.deep_view() =~= done.push(piece@));
            }
            proof {
                lemma_filter_push(before.drop_last(), piece@);
                assert(before.drop_last().push(piece@) =~= before);
                assert(pieces(next, '/').drop_last() =~= before);
            }
            from = at + 1;
            assert(path@.subrange(from as int, at as int + 1) =~= Seq::<char>::empty());
        } else {
            proof {
                assert(pieces(next, '/').drop_last() =~= before.drop_last());
                assert(before.last().push(next.last()) =~= path@.subrange(
                    from as int,
                    at as int + 1,
                ));
            }
        }
        at = at + 1;
    }
    let ghost all: Seq<Seq<char>> = pieces(path@, '/');
    let ghost done: Seq<Seq<char>> = out.deep_view();
    let piece: &str = path.substring_char(from, chars.len());
    proof {
        assert(path@.take(at as int) =~= path@);
        lemma_filter_push(all.drop_last(), piece@);
        assert(all.drop_last().push(piece@) =~= all);
    }
    if piece_is_name(piece) {
        out.push(piece.to_owned());
        assert(out.deep_view() =~= done.push(piece@));
    }
    out
}

/// The last name of `path`, unless it is `..` or there is none.
pub fn file_name(path: &str) -> (r: Option<String>)
    ensures
        r.deep_view() == last_name(path@),
{
    let mut all: Vec<String> = path_names(path);
    let ghost view: Seq<Seq<char>> = all.deep_view();
    match all.pop() {
        None => None,
        Some(last) => {
            assert(last@ == view.last());
            proof {
                reveal_strlit("..");
                assert(".."@ =~= seq!['.', '.']);
            }
            if same_text(last.as_str(), "..") {
                None
            } else {
                Some(last)
            }
        },
    }
}

fn begins_here(path: &str) -> (r: bool)
    ensures
        r == starts_here(path@),
{
    proof {
        lemma_starts_here(path@);
    }
    let n: usize = path.unicode_len();
    n > 0 && path.get_char(0) == '.' && (n == 1 || path.get_char(1) == '/')
}

/// A path starts with a `.` of its own where it is `.` or starts with `./`.
pub proof fn lemma_starts_here(p: Seq<char>)
    ensures
        starts_here(p) <==> p.len() > 0 && p[0] == '.' && (p.len() == 1 || p[1] == '/'),
{
    if forall|i: int| 0 <= i < p.len() ==> #[trigger] p[i] != '/' {
        lemma_single_piece(p, '/');
        if starts_here(p) {
            assert(p == seq!['.']);
        }
        if p.len() == 1 && p[0] == '.' {
            assert(p =~= seq!['.']);
        }
    } else {
        let some = choose|i: int| 0 <= i < p.len() && #[trigger] p[i] == '/';
        let n = lemma_first_slash(p, some);
        let head = p.take(n);
        lemma_single_piece(head, '/');
        let closed = p.take(n + 1);
        assert(closed.drop_last() =~= head);
        lemma_first_piece(p, n + 1, '/');
        assert(pieces(p, '/')[0] == head);
        if starts_here(p) {
            assert(head[0] == '.' && n == 1);
        }
        if p[0] == '.' && p.len() > 1 && p[1] == '/' {
            assert(n == 1) by {
                if n != 1 {
                    assert(n > 1);
                    assert(head[1] == '/');
                }
            }
            assert(head =~= seq!['.']);
        }
    }
}

proof fn lemma_first_slash(p: Seq<char>, some: int) -> (n: int)
    requires
        0 <= some < p.len(),
        p[some] == '/',
    ensures
        0 <= n <= some,
        p[n] == '/',
        forall|i: int| 0 <= i < n ==> #[trigger] p[i] != '/',
    decreases some,
{
    if exists|i: int| 0 <= i < some && #[trigger] p[i] == '/' {
        let i = choose|i: int| 0 <= i < some && #[trigger] p[i] == '/';
        lemma_first_slash(p, i)
    } else {
        some
    }
}

/// Whether two paths have the same components.
pub fn same_path(a: &str, b: &str) -> (r: bool)
    ensures
        r == is_same_path(a@, b@),
{
    let rooted_a: bool = !a.is_empty() && a.get_char(0) == '/';
    let rooted_b: bool = !b.is_empty() && b.get_char(0) == '/';
    if rooted_a != rooted_b || begins_here(a) != begins_here(b) {
        return false;
    }
    let x: Vec<String> = path_names(a);
    let y: Vec<String> = path_names(b);
    if x.len() != y.len() {
        assert(x.deep_view().len() != y.deep_view().len());
        return false;
    }
    let mut i: usize = 0;
    while i < x.len()
        invariant
            i <= x.len(),
            x.len() == y.len(),
            x.deep_view() == names(a@),
            y.deep_view() == names(b@),
            forall|j: int| 0 <= j < i ==> #[trigger] x.deep_view()[j] == y.deep_view()[j],
        decreases x.len() - i,
    {
        if x[i] != y[i] {
            assert(x.deep_view()[i as int] != y.deep_view()[i as int]);
            return false;
        }
        assert(x.deep_view()[i as int] == y.deep_view()[i as int]);
        i = i + 1;
    }
    assert(x.deep_view() =~= y.deep_view());
    true
}

/// The pieces of two texts with a separator between them are those of the one and
/// those of the other; a text without a separator is one piece.
pub proof fn law_pieces(a: Seq<char>, b: Seq<char>, sep: char)
    ensures
        pieces(a + seq![sep] + b, sep) == pieces(a, sep) + pieces(b, sep),
        is_free_of(a, sep) ==> pieces(a, sep) == seq![a],
    decreases b.len(),
{
    if is_free_of(a, sep) {
        lemma_single_piece(a, sep);
    }
    lemma_pieces_nonempty(a, sep);
    if b.len() == 0 {
        let all = a + seq![sep] + b;
        assert(all.drop_last() =~= a);
        assert(pieces(all, sep) =~= pieces(a, sep) + pieces(b, sep));
    } else {
        let front = b.drop_last();
        let all = a + seq![sep] + b;
        law_pieces(a, front, sep);
        lemma_pieces_nonempty(front, sep);
        assert(all.drop_last() =~= a + seq![sep] + front);
        assert(all.last() == b.last());
        let x = pieces(a, sep);
        let y = pieces(front, sep);
        assert((x + y).drop_last() =~= x + y.drop_last());
        assert((x + y).last() == y.last());
        assert(pieces(all, sep) =~= x + pieces(b, sep));
    }
}

/// The names of a path that is made of two are those of the one and those of the
/// other; a piece names something unless it is empty or `.`.
pub proof fn law_names(a: Seq<char>, b: Seq<char>)
    ensures
        names(a + seq!['/'] + b) == names(a) + names(b),
        is_free_of(a, '/') && a.len() > 0 && a != seq!['.'] ==> names(a) == seq![a],
        a.len() == 0 || a == seq!['.'] ==> names(a).len() == 0,
{
    law_pieces(a, b, '/');
    Seq::filter_distributes_over_add(
        pieces(a, '/'),
        pieces(b, '/'),
        |piece: Seq<char>| is_name(piece),
    );
    if is_free_of(a, '/') {
        let none = Seq::<Seq<char>>::empty();
        lemma_filter_push(none, a);
        assert(none.push(a) =~= seq![a]);
        reveal(Seq::filter);
        assert(none.filter(|piece: Seq<char>| is_name(piece)) =~= none);
        assert(none.push(a) =~= seq![a]);
    }
}

/// The last name of a path is what stands behind its last slash; slashes and single
/// dots at the end do not count. A path that ends with `..` has none.
pub proof fn law_last_name(dir: Seq<char>, name: Seq<char>)
    requires
        is_free_of(name, '/'),
        name.len() > 0,
        name != seq!['.'],
    ensures
        name != seq!['.', '.'] ==> last_name(name) == Some(name) && last_name(
            dir + seq!['/'] + name,
        ) == Some(name),
        name == seq!['.', '.'] ==> last_name(name) is None && last_name(dir + seq!['/'] + name)
            is None,
        last_name(dir + seq!['/']) == last_name(dir),
        last_name(dir + seq!['/', '.']) == last_name(dir),
{
    law_names(name, Seq::empty());
    law_names(dir, name);
    law_names(dir, Seq::empty());
    law_names(Seq::empty(), Seq::empty());
    law_names(seq!['.'], Seq::empty());
    law_names(dir, seq!['.']);
    assert(dir + seq!['/'] + Seq::<char>::empty() =~= dir + seq!['/']);
    assert(dir + seq!['/'] + seq!['.'] =~= dir + seq!['/', '.']);
    assert(names(dir) + names(Seq::<char>::empty()) =~= names(dir));
    assert(names(dir) + names(seq!['.']) =~= names(dir));
    assert((names(dir) + seq![name]).last() == name);
}

/// When two paths are the same: slashes at the end and repeated ones do not count, nor
/// does a single dot between two slashes. Paths that differ in a name are not the
/// same, nor are one that starts at the root and one that does not.
pub proof fn law_same_paths(a: Seq<char>, b: Seq<char>, c: Seq<char>)
    ensures
        is_same_path(a, a),
        is_same_path(a, b) ==> is_same_path(b, a) && names(a) == names(b) && last_name(a)
            == last_name(b),
        a.len() > 0 ==> is_same_path(a + seq!['/'], a),
        a.len() > 0 ==> is_same_path(a + seq!['/', '/'] + c, a + seq!['/'] + c),
        a.len() > 0 ==> is_same_path(a + seq!['/', '.', '/'] + c, a + seq!['/'] + c),
        !is_same_path(seq!['/'] + a, c) || (c.len() > 0 && c[0] == '/'),
        names(a) != names(b) ==> !is_same_path(a, b),
{
    if a.len() > 0 {
        let none = Seq::<char>::empty();
        let slash = a + seq!['/'] + c;
        law_names(a, c);
        law_names(none, c);
        law_names(none, none);
        law_names(seq!['.'], c);
        law_names(a, none);
        law_names(a, seq!['/'] + c);
        law_names(a, seq!['.'] + seq!['/'] + c);
        assert(none + seq!['/'] + c =~= seq!['/'] + c);
        assert(a + seq!['/'] + none =~= a + seq!['/']);
        assert(a + seq!['/'] + (seq!['/'] + c) =~= a + seq!['/', '/'] + c);
        assert(a + seq!['/'] + (seq!['.'] + seq!['/'] + c) =~= a + seq!['/', '.', '/'] + c);
        assert(names(a) + names(none) =~= names(a));
        assert(names(none) + names(c) =~= names(c));
        assert(names(seq!['.']) + names(c) =~= names(c));
        lemma_starts_here(a);
        lemma_starts_here(a + seq!['/']);
        lemma_starts_here(slash);
        lemma_starts_here(a + seq!['/', '/'] + c);
        lemma_starts_here(a + seq!['/', '.', '/'] + c);
    }
}

/// Two paths are the same just where they go through the same names, and both start
/// at the root or neither, and both start with a single dot or neither.
pub proof fn law_what_makes_paths_the_same(a: Seq<char>, b: Seq<char>)
    ensures
        is_same_path(a, b) <==> {
            &&& names(a) == names(b)
            &&& (a.len() > 0 && a[0] == '/') == (b.len() > 0 && b[0] == '/')
            &&& (a.len() > 0 && a[0] == '.' && (a.len() == 1 || a[1] == '/')) == (b.len() > 0
                && b[0] == '.' && (b.len() == 1 || b[1] == '/'))
        },
{
    lemma_starts_here(a);
    lemma_starts_here(b);
}

} // verus!
