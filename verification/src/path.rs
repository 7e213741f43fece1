//! File paths as the storage code sees them, and maps keyed by them.
//!
//! A data directory is flat: every file in it is a directory plus a name. That
//! is all a path is here. Directories are compared and ordered by their
//! components, not by how they are spelled.

use vstd::prelude::*;

use crate::dir::chars_of;

verus! {

/// A directory as plain values: the components of its path.
pub struct DirView {
    /// The path starts at the root.
    pub rooted: bool,
    /// The components, from the outermost inwards.
    pub parts: Seq<Seq<char>>,
}

/// A path as plain values.
pub struct PathView {
    /// The directory. It has no components for a bare file name.
    pub dir: DirView,
    /// The file name.
    pub name: Seq<char>,
}

/// The text between slashes.
pub open spec fn pieces(s: Seq<char>) -> Seq<Seq<char>>
    decreases s.len(),
{
    if s.len() == 0 {
        seq![Seq::empty()]
    } else {
        let front = pieces(s.drop_last());
        if s.last() == '/' {
            front.push(Seq::empty())
        } else {
            front.drop_last().push(front.last().push(s.last()))
        }
    }
}

/// The component stands for the directory that it is in.
pub open spec fn is_dot(part: Seq<char>) -> bool {
    part.len() == 1 && part[0] == '.'
}

/// The component stands for the directory above.
pub open spec fn is_dot_dot(part: Seq<char>) -> bool {
    part.len() == 2 && part[0] == '.' && part[1] == '.'
}

/// The pieces that are components. Nothing between two slashes is none, and `.`
/// is one at the very front only.
pub open spec fn components(pieces: Seq<Seq<char>>) -> Seq<Seq<char>>
    decreases pieces.len(),
{
    if pieces.len() == 0 {
        Seq::empty()
    } else {
        let front = components(pieces.drop_last());
        let last = pieces.last();
        if last.len() == 0 || (is_dot(last) && pieces.len() > 1) {
            front
        } else {
            front.push(last)
        }
    }
}

/// The directory that a text stands for.
#[verifier::opaque]
pub open spec fn dir_of(s: Seq<char>) -> DirView {
    DirView { rooted: s.len() > 0 && s[0] == '/', parts: components(pieces(s)) }
}

/// The directory of a bare file name.
pub open spec fn no_dir() -> DirView {
    DirView { rooted: false, parts: Seq::empty() }
}

/// The file `name` in the directory that `dir` stands for.
pub open spec fn path_in(dir: Seq<char>, name: Seq<char>) -> PathView {
    PathView { dir: dir_of(dir), name }
}

/// The path of a file: its directory and its name there.
///
/// Two paths are the same if their components are: `/d`, `/d/` and `//d/.` are
/// one directory.
#[derive(Debug)]
pub struct FilePath {
    /// The directory. Empty for a bare file name.
    pub dir: String,
    /// The file name.
    pub name: String,
}

impl View for FilePath {
    type V = PathView;

    open spec fn view(&self) -> PathView {
        path_in(self.dir@, self.name@)
    }
}

impl Clone for FilePath {
    fn clone(&self) -> (r: FilePath)
        ensures
            r@ == self@,
            r.dir@ == self.dir@,
    {
        FilePath { dir: self.dir.clone(), name: self.name.clone() }
    }
}

impl PartialEq for FilePath {
    fn eq(&self, other: &FilePath) -> (r: bool) {
        self.same_as(other)
    }
}

impl vstd::std_specs::cmp::PartialEqSpecImpl for FilePath {
    open spec fn obeys_eq_spec() -> bool {
        true
    }

    open spec fn eq_spec(&self, other: &FilePath) -> bool {
        self@ == other@
    }
}

impl Eq for FilePath {

}

/// Whether two strings hold the same text.
pub(crate) fn same_text(a: &String, b: &String) -> (r: bool)
    ensures
        r == (a@ == b@),
{
    *a == *b
}

/// The views of some texts.
pub open spec fn part_views(parts: Seq<Vec<char>>) -> Seq<Seq<char>> {
    parts.map_values(|p: Vec<char>| p@)
}

/// Splits a text at its slashes.
fn split_pieces(s: &Vec<char>) -> (r: Vec<Vec<char>>)
    ensures
        part_views(r@) == pieces(s@),
{
    let mut done: Vec<Vec<char>> = Vec::new();
    let mut last: Vec<char> = Vec::new();
    let mut i: usize = 0;
    assert(part_views(done@).push(last@) =~= pieces(s@.take(0)));
    while i < s.len()
        invariant
            i <= s@.len(),
            part_views(done@).push(last@) == pieces(s@.take(i as int)),
        decreases s@.len() - i,
    {
        let ghost before = part_views(done@);
        let ghost had = last@;
        let c = s[i];
        proof {
            assert(s@.take(i + 1).drop_last() =~= s@.take(i as int));
            assert(s@.take(i + 1).last() == c);
            assert(before.push(had).drop_last() =~= before);
        }
        if c == '/' {
            done.push(last);
            last = Vec::new();
            assert(part_views(done@) =~= before.push(had));
            assert(last@ =~= Seq::<char>::empty());
        } else {
            last.push(c);
        }
        i += 1;
    }
    let ghost front = part_views(done@);
    let ghost end = last@;
    done.push(last);
    proof {
        assert(s@.take(i as int) =~= s@);
        assert(part_views(done@) =~= front.push(end));
    }
    done
}

/// The components of a directory, and whether it starts at the root.
fn split_dir(dir: &str) -> (r: (bool, Vec<Vec<char>>))
    ensures
        dir_of(dir@) == (DirView { rooted: r.0, parts: part_views(r.1@) }),
{
    let chars = chars_of(dir);
    let rooted = chars.len() > 0 && chars[0] == '/';
    let mut all = split_pieces(&chars);
    let ghost views = part_views(all@);
    let mut parts: Vec<Vec<char>> = Vec::new();
    let mut i: usize = 0;
    assert(part_views(parts@) =~= components(views.take(0)));
    while i < all.len()
        invariant
            i <= all@.len(),
            views == part_views(all@),
            part_views(parts@) == components(views.take(i as int)),
        decreases all@.len() - i,
    {
        let piece = &all[i];
        let dot = piece.len() == 1 && piece[0] == '.';
        let ghost before = part_views(parts@);
        proof {
            assert(views.take(i + 1).drop_last() =~= views.take(i as int));
            assert(views.take(i + 1).last() == piece@);
        }
        if !(piece.len() == 0 || (dot && i > 0)) {
            parts.push(vstd::slice::slice_to_vec(piece.as_slice()));
            assert(part_views(parts@) =~= before.push(piece@));
        }
        i += 1;
    }
    proof {
        assert(views.take(i as int) =~= views);
        reveal(dir_of);
    }
    (rooted, parts)
}

/// Whether two texts are the same.
fn same_chars(a: &Vec<char>, b: &Vec<char>) -> (r: bool)
    ensures
        r == (a@ == b@),
{
    if a.len() != b.len() {
        return false;
    }
    let mut i: usize = 0;
    while i < a.len()
        invariant
            i <= a@.len(),
            a@.len() == b@.len(),
            forall|k: int| 0 <= k < i ==> a@[k] == b@[k],
        decreases a@.len() - i,
    {
        if a[i] != b[i] {
            return false;
        }
        i += 1;
    }
    assert(a@ =~= b@);
    true
}

/// Whether two texts stand for the same directory.
pub(crate) fn same_dir(a: &String, b: &String) -> (r: bool)
    ensures
        r == (dir_of(a@) == dir_of(b@)),
{
    if same_text(a, b) {
        return true;
    }
    let (a_rooted, x) = split_dir(a.as_str());
    let (b_rooted, y) = split_dir(b.as_str());
    if a_rooted != b_rooted || x.len() != y.len() {
        assert(part_views(x@).len() == x@.len() && part_views(y@).len() == y@.len());
        return false;
    }
    let mut i: usize = 0;
    while i < x.len()
        invariant
            i <= x@.len(),
            x@.len() == y@.len(),
            dir_of(a@).parts == part_views(x@),
            dir_of(b@).parts == part_views(y@),
            forall|k: int| 0 <= k < i ==> x@[k]@ == y@[k]@,
        decreases x@.len() - i,
    {
        if !same_chars(&x[i], &y[i]) {
            assert(part_views(x@)[i as int] != part_views(y@)[i as int]);
            return false;
        }
        i += 1;
    }
    assert(part_views(x@) =~= part_views(y@));
    true
}

impl FilePath {
    /// The file `name` in the directory `dir`.
    pub fn new(dir: &str, name: &str) -> (r: FilePath)
        ensures
            r@ == path_in(dir@, name@),
            r.dir@ == dir@,
    {
        FilePath { dir: dir.to_owned(), name: name.to_owned() }
    }

    /// Whether two paths are the same.
    pub fn same_as(&self, other: &FilePath) -> (r: bool)
        ensures
            r == (self@ == other@),
    {
        same_text(&self.name, &other.name) && same_dir(&self.dir, &other.dir)
    }
}

/// The directory that holds a file, `.` for a bare file name.
pub open spec fn parent_of(path: PathView) -> DirView {
    if path.dir == no_dir() {
        dir_of("."@)
    } else {
        path.dir
    }
}

proof fn lemma_front_piece(s: Seq<char>)
    ensures
        pieces(s).len() > 0,
        s.len() > 0 && s[0] != '/' ==> pieces(s)[0].len() > 0,
    decreases s.len(),
{
    if s.len() > 0 {
        lemma_front_piece(s.drop_last());
    }
}

proof fn lemma_front_component(pieces: Seq<Seq<char>>)
    ensures
        pieces.len() > 0 && pieces[0].len() > 0 ==> components(pieces).len() > 0,
    decreases pieces.len(),
{
    if pieces.len() > 0 {
        lemma_front_component(pieces.drop_last());
    }
}

/// Only the empty text stands for no directory.
pub(crate) proof fn lemma_no_dir(s: Seq<char>)
    ensures
        dir_of(s) == no_dir() <==> s.len() == 0,
{
    reveal(dir_of);
    lemma_front_piece(s);
    lemma_front_component(pieces(s));
    if s.len() == 0 {
        assert(pieces(s).drop_last() =~= Seq::<Seq<char>>::empty());
        assert(components(pieces(s).drop_last()) =~= Seq::<Seq<char>>::empty());
        assert(components(pieces(s)) =~= Seq::<Seq<char>>::empty());
    }
}

/// The directory that holds a file. The empty directory of a bare file name is
/// spelled `.`, so that it can be opened.
pub fn parent_or_dot(path: &FilePath) -> (r: String)
    ensures
        dir_of(r@) == parent_of(path@),
        r@ == (if path.dir@.len() == 0 {
            "."@
        } else {
            path.dir@
        }),
{
    proof {
        lemma_no_dir(path.dir@);
    }
    if path.dir.as_str().is_empty() {
        ".".to_owned()
    } else {
        path.dir.clone()
    }
}

/// One text comes before another in dictionary order. The order of code points is
/// that of the bytes that encode them.
pub open spec fn text_before(a: Seq<char>, b: Seq<char>) -> bool
    decreases a.len(),
{
    if b.len() == 0 {
        false
    } else if a.len() == 0 {
        true
    } else if a[0] != b[0] {
        a[0] < b[0]
    } else {
        text_before(a.skip(1), b.skip(1))
    }
}

/// The kind of a component: `.` comes first, then `..`, then names.
pub open spec fn part_rank(part: Seq<char>) -> int {
    if is_dot(part) {
        0
    } else if is_dot_dot(part) {
        1
    } else {
        2
    }
}

/// One component comes before another.
pub open spec fn part_before(a: Seq<char>, b: Seq<char>) -> bool {
    part_rank(a) < part_rank(b) || (part_rank(a) == part_rank(b) && text_before(a, b))
}

/// One list of components comes before another: the first difference decides,
/// and a list comes before what continues it.
pub open spec fn parts_before(a: Seq<Seq<char>>, b: Seq<Seq<char>>) -> bool
    decreases a.len(),
{
    if b.len() == 0 {
        false
    } else if a.len() == 0 {
        true
    } else if a[0] != b[0] {
        part_before(a[0], b[0])
    } else {
        parts_before(a.skip(1), b.skip(1))
    }
}

/// One path comes before another: those from the root come first, then the
/// components decide.
pub open spec fn path_before(a: PathView, b: PathView) -> bool {
    if a.dir.rooted != b.dir.rooted {
        a.dir.rooted
    } else {
        parts_before(a.dir.parts.push(a.name), b.dir.parts.push(b.name))
    }
}

proof fn lemma_text_order(a: Seq<char>, b: Seq<char>, c: Seq<char>)
    ensures
        !text_before(a, a),
        a == b || text_before(a, b) || text_before(b, a),
        text_before(a, b) && text_before(b, c) ==> text_before(a, c),
    decreases a.len(),
{
    if a.len() > 0 {
        if b.len() > 0 && c.len() > 0 {
            lemma_text_order(a.skip(1), b.skip(1), c.skip(1));
        } else if b.len() > 0 {
            lemma_text_order(a.skip(1), b.skip(1), b.skip(1));
        } else {
            lemma_text_order(a.skip(1), a.skip(1), a.skip(1));
        }
        if b.len() > 0 && a[0] == b[0] && a.skip(1) == b.skip(1) {
            assert(a =~= seq![a[0]] + a.skip(1));
            assert(b =~= seq![b[0]] + b.skip(1));
        }
    } else if b.len() == 0 {
        assert(a =~= b);
    }
}

proof fn lemma_parts_order(a: Seq<Seq<char>>, b: Seq<Seq<char>>, c: Seq<Seq<char>>)
    ensures
        !parts_before(a, a),
        a == b || parts_before(a, b) || parts_before(b, a),
        parts_before(a, b) && parts_before(b, c) ==> parts_before(a, c),
    decreases a.len(),
{
    if a.len() > 0 {
        if b.len() > 0 && c.len() > 0 {
            lemma_parts_order(a.skip(1), b.skip(1), c.skip(1));
            lemma_text_order(a[0], b[0], c[0]);
        } else if b.len() > 0 {
            lemma_parts_order(a.skip(1), b.skip(1), b.skip(1));
            lemma_text_order(a[0], b[0], b[0]);
        } else {
            lemma_parts_order(a.skip(1), a.skip(1), a.skip(1));
        }
        if b.len() > 0 && a[0] == b[0] && a.skip(1) == b.skip(1) {
            assert(a =~= seq![a[0]] + a.skip(1));
            assert(b =~= seq![b[0]] + b.skip(1));
        }
        if b.len() > 0 && c.len() > 0 {
            lemma_text_order(b[0], c[0], a[0]);
        }
    } else if b.len() == 0 {
        assert(a =~= b);
    }
}

/// Paths are totally ordered.
pub proof fn law_path_order_is_total(a: PathView, b: PathView, c: PathView)
    ensures
        !path_before(a, a),
        a == b || path_before(a, b) || path_before(b, a),
        path_before(a, b) && path_before(b, c) ==> path_before(a, c),
{
    let x = a.dir.parts.push(a.name);
    let y = b.dir.parts.push(b.name);
    let z = c.dir.parts.push(c.name);
    lemma_parts_order(x, y, z);
    if x == y {
        assert(a.dir.parts =~= x.drop_last());
        assert(b.dir.parts =~= y.drop_last());
        assert(a.name == x.last() && b.name == y.last());
    }
}

proof fn lemma_name_behind(s: Seq<char>, name: Seq<char>)
    requires
        forall|i: int| 0 <= i < name.len() ==> name[i] != '/',
    ensures
        pieces(s.push('/') + name) == pieces(s).push(name),
    decreases name.len(),
{
    let all = s.push('/') + name;
    if name.len() == 0 {
        assert(all =~= s.push('/'));
        assert(all.drop_last() =~= s);
        assert(name =~= Seq::empty());
    } else {
        let front = name.drop_last();
        lemma_name_behind(s, front);
        assert(all.drop_last() =~= s.push('/') + front);
        assert(all.last() == name.last());
        assert(name[name.len() - 1] != '/');
        let p = pieces(s).push(front);
        assert(p.drop_last() =~= pieces(s));
        assert(front.push(name.last()) =~= name);
    }
}

proof fn lemma_single_name(name: Seq<char>)
    requires
        forall|i: int| 0 <= i < name.len() ==> name[i] != '/',
    ensures
        pieces(name) == seq![name],
    decreases name.len(),
{
    if name.len() == 0 {
        assert(name =~= Seq::empty());
    } else {
        let front = name.drop_last();
        lemma_single_name(front);
        assert(name[name.len() - 1] != '/');
        assert(seq![front].drop_last() =~= Seq::empty());
        assert(front.push(name.last()) =~= name);
        assert(pieces(name) =~= seq![name]);
    }
}

proof fn lemma_component_behind(p: Seq<Seq<char>>, name: Seq<char>)
    ensures
        components(p.push(name)) == (if name.len() == 0 || (name.len() == 1 && name[0] == '.'
            && p.len() > 0) {
            components(p)
        } else {
            components(p).push(name)
        }),
{
    assert(p.push(name).drop_last() =~= p);
}

/// What a directory is does not depend on how it is spelled. The empty text is no
/// directory, a slash is the root, and a single component is itself. A slash or
/// a `/.` behind a directory changes nothing, and any other component behind a
/// slash is one more. Every spelling is made in this way.
pub proof fn law_directory_is_its_components(s: Seq<char>, name: Seq<char>)
    requires
        name.len() > 0,
        forall|i: int| 0 <= i < name.len() ==> name[i] != '/',
    ensures
        dir_of(Seq::empty()) == (DirView { rooted: false, parts: Seq::empty() }),
        dir_of(seq!['/']) == (DirView { rooted: true, parts: Seq::empty() }),
        dir_of(name) == (DirView { rooted: false, parts: seq![name] }),
        s.len() > 0 ==> dir_of(s.push('/')) == dir_of(s),
        s.len() > 0 ==> dir_of(s.push('/').push('.')) == dir_of(s),
        s.len() > 0 && name != seq!['.'] ==> dir_of(s.push('/') + name) == (DirView {
            rooted: dir_of(s).rooted,
            parts: dir_of(s).parts.push(name),
        }),
        s.len() > 0 ==> dir_of(s).rooted == (s[0] == '/'),
        name != seq!['.'] ==> dir_of(seq!['/'] + name) == (DirView {
            rooted: true,
            parts: seq![name],
        }),
{
    reveal(dir_of);
    let none = Seq::<Seq<char>>::empty();
    let empty = Seq::<char>::empty();
    lemma_no_dir(empty);
    lemma_single_name(name);
    lemma_component_behind(none, name);
    assert(none.push(name) =~= seq![name]);
    assert(components(none) =~= none);
    let is_one_dot = name.len() == 1 && name[0] == '.';
    if is_one_dot {
        assert(name =~= seq!['.']);
    }
    let root = seq!['/'];
    assert(root.drop_last() =~= empty);
    assert(pieces(empty) =~= seq![empty]);
    assert(pieces(root) =~= seq![empty].push(empty));
    lemma_component_behind(seq![empty], empty);
    lemma_component_behind(none, empty);
    assert(none.push(empty) =~= seq![empty]);
    assert(components(pieces(root)) =~= none);
    lemma_name_behind(empty, name);
    assert(empty.push('/') =~= root);
    lemma_component_behind(seq![empty], name);
    assert(components(seq![empty]) =~= none);
    assert((root + name)[0] == '/');
    assert(components(pieces(root + name)) == if is_one_dot {
        none
    } else {
        none.push(name)
    });
    if s.len() > 0 {
        lemma_front_piece(s);
        lemma_name_behind(s, empty);
        assert(s.push('/') + empty =~= s.push('/'));
        lemma_component_behind(pieces(s), empty);
        let dot = seq!['.'];
        lemma_name_behind(s, dot);
        assert(s.push('/') + dot =~= s.push('/').push('.'));
        lemma_component_behind(pieces(s), dot);
        lemma_name_behind(s, name);
        lemma_component_behind(pieces(s), name);
        assert((s.push('/') + name)[0] == s[0]);
    }
}

proof fn lemma_text_decides(a: Seq<char>, b: Seq<char>, k: int)
    requires
        0 <= k <= a.len(),
        k < b.len(),
        forall|j: int| 0 <= j < k ==> a[j] == b[j],
        k == a.len() || a[k] < b[k],
    ensures
        text_before(a, b),
        !text_before(b, a),
    decreases k,
{
    if k > 0 {
        assert(a[0] == b[0]);
        let x = a.skip(1);
        let y = b.skip(1);
        assert forall|j: int| 0 <= j < k - 1 implies x[j] == y[j] by {
            assert(a[j + 1] == b[j + 1]);
        }
        lemma_text_decides(x, y, k - 1);
    }
}

proof fn lemma_parts_decide(a: Seq<Seq<char>>, b: Seq<Seq<char>>, i: int)
    requires
        0 <= i <= a.len(),
        i < b.len(),
        forall|j: int| 0 <= j < i ==> a[j] == b[j],
        i == a.len() || (a[i] != b[i] && part_before(a[i], b[i]) && !part_before(b[i], a[i])),
    ensures
        parts_before(a, b),
        !parts_before(b, a),
    decreases i,
{
    if i > 0 {
        assert(a[0] == b[0]);
        let x = a.skip(1);
        let y = b.skip(1);
        assert forall|j: int| 0 <= j < i - 1 implies x[j] == y[j] by {
            assert(a[j + 1] == b[j + 1]);
        }
        lemma_parts_decide(x, y, i - 1);
    }
}

/// Paths from the root come first.
pub proof fn law_rooted_paths_come_first(a: PathView, b: PathView)
    requires
        a.dir.rooted,
        !b.dir.rooted,
    ensures
        path_before(a, b),
        !path_before(b, a),
{
}

/// The first component in which two paths differ decides. Of two names the one
/// comes first that has the smaller character where they first differ, or that the
/// other goes on from; `i` is that component and `k` that character. The file name
/// is the last component, and a path comes before one that goes on from it.
pub proof fn law_first_different_component_decides(a: PathView, b: PathView, i: int, k: int)
    requires
        a.dir.rooted == b.dir.rooted,
        ({
            let x = a.dir.parts.push(a.name);
            let y = b.dir.parts.push(b.name);
            &&& 0 <= i <= x.len()
            &&& i < y.len()
            &&& forall|j: int| 0 <= j < i ==> x[j] == y[j]
            &&& i == x.len() || {
                &&& x[i] != seq!['.'] && x[i] != seq!['.', '.']
                &&& y[i] != seq!['.'] && y[i] != seq!['.', '.']
                &&& 0 <= k <= x[i].len()
                &&& k < y[i].len()
                &&& forall|j: int| 0 <= j < k ==> x[i][j] == y[i][j]
                &&& k == x[i].len() || x[i][k] < y[i][k]
            }
        }),
    ensures
        path_before(a, b),
        !path_before(b, a),
{
    let x = a.dir.parts.push(a.name);
    let y = b.dir.parts.push(b.name);
    if i < x.len() {
        lemma_text_decides(x[i], y[i], k);
        if is_dot(x[i]) {
            assert(x[i] =~= seq!['.']);
        }
        if is_dot_dot(x[i]) {
            assert(x[i] =~= seq!['.', '.']);
        }
        if is_dot(y[i]) {
            assert(y[i] =~= seq!['.']);
        }
        if is_dot_dot(y[i]) {
            assert(y[i] =~= seq!['.', '.']);
        }
        lemma_text_order(x[i], x[i], x[i]);
    }
    lemma_parts_decide(x, y, i);
}

/// `.` comes before `..`, and both come before names.
pub proof fn law_dots_come_before_names(a: PathView, b: PathView, i: int)
    requires
        a.dir.rooted == b.dir.rooted,
        ({
            let x = a.dir.parts.push(a.name);
            let y = b.dir.parts.push(b.name);
            &&& 0 <= i < x.len()
            &&& i < y.len()
            &&& forall|j: int| 0 <= j < i ==> x[j] == y[j]
            &&& x[i] != y[i]
            &&& y[i] != seq!['.']
            &&& x[i] == seq!['.'] || x[i] == seq!['.', '.']
        }),
    ensures
        path_before(a, b),
        !path_before(b, a),
{
    let x = a.dir.parts.push(a.name);
    let y = b.dir.parts.push(b.name);
    if is_dot(y[i]) {
        assert(y[i] =~= seq!['.']);
    }
    if is_dot_dot(y[i]) {
        assert(y[i] =~= seq!['.', '.']);
    }
    lemma_parts_decide(x, y, i);
}

/// Whether one text comes before another.
fn is_text_before(a: &Vec<char>, b: &Vec<char>) -> (r: bool)
    ensures
        r == text_before(a@, b@),
{
    let mut i: usize = 0;
    assert(a@.skip(0) =~= a@ && b@.skip(0) =~= b@);
    while i < a.len() && i < b.len()
        invariant
            i <= a@.len(),
            i <= b@.len(),
            text_before(a@.skip(i as int), b@.skip(i as int)) == text_before(a@, b@),
        decreases a@.len() - i,
    {
        assert(a@.skip(i as int)[0] == a@[i as int] && b@.skip(i as int)[0] == b@[i as int]);
        if a[i] != b[i] {
            return a[i] < b[i];
        }
        assert(a@.skip(i as int).skip(1) =~= a@.skip(i + 1));
        assert(b@.skip(i as int).skip(1) =~= b@.skip(i + 1));
        i += 1;
    }
    i < b.len()
}

/// The kind of a component.
fn rank(part: &Vec<char>) -> (r: u8)
    ensures
        r == part_rank(part@),
{
    if part.len() == 1 && part[0] == '.' {
        0
    } else if part.len() == 2 && part[0] == '.' && part[1] == '.' {
        1
    } else {
        2
    }
}

/// Whether one list of components comes before another.
fn are_parts_before(a: &Vec<Vec<char>>, b: &Vec<Vec<char>>) -> (r: bool)
    ensures
        r == parts_before(part_views(a@), part_views(b@)),
{
    let mut i: usize = 0;
    let ghost x = part_views(a@);
    let ghost y = part_views(b@);
    assert(x.skip(0) =~= x && y.skip(0) =~= y);
    while i < a.len() && i < b.len()
        invariant
            x == part_views(a@),
            y == part_views(b@),
            i <= a@.len(),
            i <= b@.len(),
            parts_before(x.skip(i as int), y.skip(i as int)) == parts_before(x, y),
        decreases a@.len() - i,
    {
        assert(x.skip(i as int)[0] == a@[i as int]@ && y.skip(i as int)[0] == b@[i as int]@);
        if !same_chars(&a[i], &b[i]) {
            let m: u8 = rank(&a[i]);
            let n: u8 = rank(&b[i]);
            return m < n || (m == n && is_text_before(&a[i], &b[i]));
        }
        assert(x.skip(i as int).skip(1) =~= x.skip(i + 1));
        assert(y.skip(i as int).skip(1) =~= y.skip(i + 1));
        i += 1;
    }
    i < b.len()
}

/// Whether one path comes before another.
pub fn is_path_before(a: &FilePath, b: &FilePath) -> (r: bool)
    ensures
        r == path_before(a@, b@),
{
    let (a_rooted, mut x) = split_dir(a.dir.as_str());
    let (b_rooted, mut y) = split_dir(b.dir.as_str());
    if a_rooted != b_rooted {
        return a_rooted;
    }
    let ghost p = part_views(x@);
    let ghost q = part_views(y@);
    x.push(chars_of(a.name.as_str()));
    y.push(chars_of(b.name.as_str()));
    assert(part_views(x@) =~= p.push(a.name@));
    assert(part_views(y@) =~= q.push(b.name@));
    are_parts_before(&x, &y)
}

/// A map keyed by paths. No path has two entries.
#[derive(Debug)]
pub struct PathMap<V> {
    entries: Vec<(FilePath, V)>,
}

/// No two entries have the same path.
pub open spec fn distinct_paths<V>(entries: Seq<(FilePath, V)>) -> bool {
    forall|i: int, j: int|
        0 <= i < entries.len() && 0 <= j < entries.len() && #[trigger] entries[i].0@
            == #[trigger] entries[j].0@ ==> i == j
}

/// The entry for `p` in `entries` is number `i`.
spec fn entry_at<V>(entries: Seq<(FilePath, V)>, p: PathView, i: int) -> bool {
    0 <= i < entries.len() && entries[i].0@ == p
}

impl<V> View for PathMap<V> {
    type V = Map<PathView, V>;

    closed spec fn view(&self) -> Map<PathView, V> {
        Map::new(
            |p: PathView| exists|i: int| entry_at(self.entries@, p, i),
            |p: PathView| self.entries@[choose|i: int| entry_at(self.entries@, p, i)].1,
        )
    }
}

impl<V> PathMap<V> {
    /// No path has two entries.
    #[verifier::type_invariant]
    pub open spec fn wf(self) -> bool {
        distinct_paths(self.list())
    }

    /// The entries, in the order in which the map holds them.
    pub closed spec fn list(self) -> Seq<(FilePath, V)> {
        self.entries@
    }

    proof fn lemma_entry(self, i: int)
        requires
            self.wf(),
            0 <= i < self.entries@.len(),
        ensures
            self@.contains_key(self.entries@[i].0@),
            self@[self.entries@[i].0@] == self.entries@[i].1,
    {
        let p = self.entries@[i].0@;
        assert(entry_at(self.entries@, p, i));
        let j = choose|j: int| entry_at(self.entries@, p, j);
        assert(entry_at(self.entries@, p, j));
    }

    /// The map without entries.
    pub fn new() -> (r: PathMap<V>)
        ensures
            r@ == Map::<PathView, V>::empty(),
    {
        let r = PathMap { entries: Vec::new() };
        assert(r@ =~= Map::<PathView, V>::empty());
        r
    }

    /// Where the entry of `path` is.
    fn position(&self, path: &FilePath) -> (r: Option<usize>)
        ensures
            match r {
                Some(i) => entry_at(self.entries@, path@, i as int) && self@.contains_key(path@)
                    && self@[path@] == self.entries@[i as int].1,
                None => !self@.contains_key(path@) && forall|i: int|
                    !entry_at(self.entries@, path@, i),
            },
    {
        proof {
            use_type_invariant(self);
        }
        let mut i: usize = 0;
        while i < self.entries.len()
            invariant
                i <= self.entries@.len(),
                self.wf(),
                forall|j: int| 0 <= j < i ==> self.entries@[j].0@ != path@,
            decreases self.entries@.len() - i,
        {
            if self.entries[i].0.same_as(path) {
                proof {
                    self.lemma_entry(i as int);
                }
                return Some(i);
            }
            i += 1;
        }
        None
    }

    /// Whether the map has an entry for `path`.
    pub fn contains(&self, path: &FilePath) -> (r: bool)
        ensures
            r == self@.contains_key(path@),
    {
        self.position(path).is_some()
    }

    /// The entry of `path`.
    pub fn get(&self, path: &FilePath) -> (r: Option<&V>)
        ensures
            r is Some <==> self@.contains_key(path@),
            r is Some ==> *r->Some_0 == self@[path@],
    {
        match self.position(path) {
            Some(i) => Some(&self.entries[i].1),
            None => None,
        }
    }

    /// Sets the entry of `path`.
    pub fn insert(&mut self, path: &FilePath, value: V)
        ensures
            final(self)@ == old(self)@.insert(path@, value),
    {
        let at = self.position(path);
        proof {
            use_type_invariant(&*self);
        }
        let ghost before = *self;
        let mut entries: Vec<(FilePath, V)> = Vec::new();
        self.take_entries(&mut entries);
        match at {
            Some(i) => {
                let key = entries[i].0.clone();
                entries[i] = (key, value);
            },
            None => {
                entries.push((path.clone(), value));
            },
        }
        let ghost k: int = match at {
            Some(i) => i as int,
            None => before.entries@.len() as int,
        };
        proof {
            assert forall|i: int, j: int|
                0 <= i < entries@.len() && 0 <= j < entries@.len() && #[trigger] entries@[i].0@
                    == #[trigger] entries@[j].0@ implies i == j by {
                if i != k {
                    assert(entries@[i] == before.entries@[i]);
                }
                if j != k {
                    assert(entries@[j] == before.entries@[j]);
                }
                if at is None {
                    if i == k && j != k {
                        assert(!entry_at(before.entries@, path@, j));
                    }
                    if j == k && i != k {
                        assert(!entry_at(before.entries@, path@, i));
                    }
                }
            }
        }
        let next = PathMap { entries };
        proof {
            assert forall|p: PathView| #[trigger]
                next@.contains_key(p) == before@.insert(path@, value).contains_key(p) by {
                if p == path@ {
                    assert(entry_at(next.entries@, p, k));
                }
                if next@.contains_key(p) && p != path@ {
                    let i = choose|i: int| entry_at(next.entries@, p, i);
                    assert(entry_at(before.entries@, p, i));
                }
                if before@.contains_key(p) {
                    let i = choose|i: int| entry_at(before.entries@, p, i);
                    assert(entry_at(next.entries@, p, i));
                }
            }
            assert forall|p: PathView| next@.contains_key(p) implies #[trigger] next@[p]
                == before@.insert(path@, value)[p] by {
                let i = choose|i: int| entry_at(next.entries@, p, i);
                next.lemma_entry(i);
                if p == path@ {
                    assert(next.entries@[k].0@ == next.entries@[i].0@);
                    assert(i == k);
                } else {
                    assert(entry_at(before.entries@, p, i));
                    before.lemma_entry(i);
                }
            }
            assert(next@ =~= before@.insert(path@, value));
        }
        *self = next;
    }

    /// Removes the entry of `path` and gives it back.
    pub fn remove(&mut self, path: &FilePath) -> (r: Option<V>)
        ensures
            r is Some <==> old(self)@.contains_key(path@),
            r is Some ==> r->Some_0 == old(self)@[path@],
            final(self)@ == old(self)@.remove(path@),
    {
        let at = self.position(path);
        proof {
            use_type_invariant(&*self);
        }
        let ghost before = *self;
        match at {
            None => {
                assert(before@.remove(path@) =~= before@);
                None
            },
            Some(k) => {
                let mut entries: Vec<(FilePath, V)> = Vec::new();
                self.take_entries(&mut entries);
                let (_, value) = entries.remove(k);
                let next = PathMap { entries };
                proof {
                    assert forall|i: int| 0 <= i < next.entries@.len() implies #[trigger]
                        next.entries@[i] == before.entries@[if i < k {
                        i
                    } else {
                        i + 1
                    }] by {}
                    assert forall|p: PathView| #[trigger]
                        next@.contains_key(p) == before@.remove(path@).contains_key(p) by {
                        if next@.contains_key(p) {
                            let i = choose|i: int| entry_at(next.entries@, p, i);
                            let j = if i < k {
                                i
                            } else {
                                i + 1
                            };
                            assert(entry_at(before.entries@, p, j));
                            assert(next.entries@[i] == before.entries@[j]);
                            assert(p != path@);
                        }
                        if before@.contains_key(p) && p != path@ {
                            let j = choose|j: int| entry_at(before.entries@, p, j);
                            let i = if j < k {
                                j
                            } else {
                                j - 1
                            };
                            assert(next.entries@[i] == before.entries@[j]);
                            assert(entry_at(next.entries@, p, i));
                        }
                    }
                    assert forall|p: PathView| next@.contains_key(p) implies #[trigger] next@[p]
                        == before@[p] by {
                        let i = choose|i: int| entry_at(next.entries@, p, i);
                        let j = if i < k {
                            i
                        } else {
                            i + 1
                        };
                        assert(next.entries@[i] == before.entries@[j]);
                        next.lemma_entry(i);
                        before.lemma_entry(j);
                    }
                    assert(next@ =~= before@.remove(path@));
                }
                *self = next;
                Some(value)
            },
        }
    }

    /// Moves all entries out.
    fn take_entries(&mut self, out: &mut Vec<(FilePath, V)>)
        requires
            old(out)@.len() == 0,
        ensures
            final(out)@ == old(self).entries@,
            final(self).entries@.len() == 0,
    {
        let mut all: PathMap<V> = PathMap { entries: Vec::new() };
        std::mem::swap(self, &mut all);
        *out = all.entries;
    }

    /// Number of entries.
    pub fn len(&self) -> (r: usize)
        ensures
            r == self.list().len(),
    {
        self.entries.len()
    }

    /// Entry number `i`.
    pub fn entry(&self, i: usize) -> (r: &(FilePath, V))
        requires
            i < self.list().len(),
        ensures
            *r == self.list()[i as int],
            self@.contains_key(r.0@),
            self@[r.0@] == r.1,
    {
        proof {
            use_type_invariant(self);
            self.lemma_entry(i as int);
        }
        &self.entries[i]
    }

    /// Every entry is in the list.
    pub proof fn lemma_list(self)
        ensures
            forall|p: PathView| #[trigger]
                self@.contains_key(p) ==> exists|i: int|
                    0 <= i < self.list().len() && (#[trigger] self.list()[i]).0@ == p,
    {
        assert forall|p: PathView| #[trigger] self@.contains_key(p) implies exists|i: int|
            0 <= i < self.list().len() && (#[trigger] self.list()[i]).0@ == p by {
            let i = choose|i: int| entry_at(self.entries@, p, i);
            assert(self.list()[i].0@ == p);
        }
    }
}

} // verus!
