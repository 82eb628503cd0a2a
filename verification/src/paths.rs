//! Paths held by their components, as `std::path::Path` sees them on Unix.
use vstd::prelude::*;

use crate::text::{
    chars_of, copy_chars, join, join_chars, push_all, same_chars, split_chars, split_on,
    string_from, views,
};

verus! {

/// One component of a path, as a mathematical value.
pub enum PathPart {
    Root,
    Cur,
    Parent,
    Name(Seq<char>),
}

/// One component of a path: `/` at the start, `.` at the start, `..`, or a name.
#[derive(Clone, Debug, PartialEq, Eq)]
pub enum Component {
    RootDir,
    CurDir,
    ParentDir,
    Normal(String),
}

impl View for Component {
    type V = PathPart;

    open spec fn view(&self) -> PathPart {
        match self {
            Component::RootDir => PathPart::Root,
            Component::CurDir => PathPart::Cur,
            Component::ParentDir => PathPart::Parent,
            Component::Normal(s) => PathPart::Name(s@),
        }
    }
}

/// A path, held as the sequence of its components, and as its text: the text that
/// a `PathBuf` built the same way holds and displays. Paths are compared and ordered
/// by their components, as `std::path::Path` compares them.
#[derive(Clone, Debug, Default, PartialEq, Eq)]
pub struct PathModel {
    pub components: Vec<Component>,
    pub text: String,
}

impl View for PathModel {
    type V = Seq<PathPart>;

    open spec fn view(&self) -> Seq<PathPart> {
        self.components@.map_values(|c: Component| c@)
    }
}

// ---------------------------------------------------------------------------
// From text
// ---------------------------------------------------------------------------

/// The components that one piece between separators contributes.
pub open spec fn piece_parts(p: Seq<char>) -> Seq<PathPart> {
    if p.len() == 0 || p == seq!['.'] {
        seq![]
    } else if p == seq!['.', '.'] {
        seq![PathPart::Parent]
    } else {
        seq![PathPart::Name(p)]
    }
}

pub open spec fn pieces_parts(ps: Seq<Seq<char>>) -> Seq<PathPart>
    decreases ps.len(),
{
    if ps.len() == 0 {
        seq![]
    } else {
        pieces_parts(ps.drop_last()) + piece_parts(ps.last())
    }
}

pub open spec fn is_rooted(t: Seq<char>) -> bool {
    t.len() > 0 && t[0] == '/'
}

/// A relative text that starts with the component `.`.
pub open spec fn starts_with_cur(t: Seq<char>) -> bool {
    !is_rooted(t) && t.len() > 0 && t[0] == '.' && (t.len() == 1 || t[1] == '/')
}

/// The components of a path text (`Path::components` on Unix): a leading `/` is
/// the root; empty pieces and `.` are dropped, except a `.` that starts a relative
/// path; `..` is the parent.
pub open spec fn parse_path(t: Seq<char>) -> Seq<PathPart> {
    (if is_rooted(t) {
        seq![PathPart::Root]
    } else {
        seq![]
    }) + (if starts_with_cur(t) {
        seq![PathPart::Cur]
    } else {
        seq![]
    }) + pieces_parts(split_on(t, '/'))
}

/// The text of one component.
pub open spec fn part_text(p: PathPart) -> Seq<char> {
    match p {
        PathPart::Root => seq![],
        PathPart::Cur => seq!['.'],
        PathPart::Parent => seq!['.', '.'],
        PathPart::Name(s) => s,
    }
}

/// The text of a path: its components separated by `/`.
pub open spec fn path_text(p: Seq<PathPart>) -> Seq<char> {
    if p == seq![PathPart::Root] {
        seq!['/']
    } else {
        join(p.map_values(|c: PathPart| part_text(c)), seq!['/'])
    }
}

fn piece_component(p: Vec<char>) -> (r: Option<Component>)
    ensures
        match r {
            Some(c) => piece_parts(p@) == seq![c@],
            None => piece_parts(p@) == Seq::<PathPart>::empty(),
        },
{
    if p.len() == 0 {
        None
    } else if p.len() == 1 && p[0] == '.' {
        assert(p@ =~= seq!['.']);
        None
    } else if p.len() == 2 && p[0] == '.' && p[1] == '.' {
        assert(p@ =~= seq!['.', '.']);
        Some(Component::ParentDir)
    } else {
        assert(p@ != seq!['.']);
        assert(p@ != seq!['.', '.']);
        Some(Component::Normal(string_from(&p)))
    }
}

impl PathModel {
    /// The path whose text is `text` (`PathBuf::from`).
    pub fn parse(text: &str) -> (r: PathModel)
        ensures
            r@ == parse_path(text@),
            r.text@ == text@,
    {
        let t = chars_of(text);
        PathModel::parse_chars(&t)
    }

    /// The path whose text is the characters `t`.
    pub fn parse_chars(t: &Vec<char>) -> (r: PathModel)
        ensures
            r@ == parse_path(t@),
            r.text@ == t@,
    {
        let mut comps: Vec<Component> = Vec::new();
        if t.len() > 0 && t[0] == '/' {
            comps.push(Component::RootDir);
        } else if t.len() > 0 && t[0] == '.' && (t.len() == 1 || t[1] == '/') {
            comps.push(Component::CurDir);
        }
        let ghost head = comps@.map_values(|c: Component| c@);
        assert(head =~= (if is_rooted(t@) {
            seq![PathPart::Root]
        } else {
            seq![]
        }) + (if starts_with_cur(t@) {
            seq![PathPart::Cur]
        } else {
            seq![]
        }));
        let pieces = split_chars(t, '/');
        let mut rest = pieces;
        let mut i: usize = 0;
        let n = rest.len();
        let ghost ps = views(rest@);
        assert(ps.take(0) =~= Seq::<Seq<char>>::empty());
        while i < n
            invariant
                n == rest@.len(),
                i <= n,
                ps == views(rest@),
                ps == split_on(t@, '/'),
                comps@.map_values(|c: Component| c@) == head + pieces_parts(ps.take(i as int)),
            decreases n - i,
        {
            let p = copy_chars(&rest[i]);
            let ghost before = comps@.map_values(|c: Component| c@);
            assert(ps.take(i + 1).drop_last() =~= ps.take(i as int));
            assert(ps.take(i + 1).last() == p@);
            match piece_component(p) {
                Some(c) => {
                    let ghost cv = c@;
                    comps.push(c);
                    assert(comps@.map_values(|c: Component| c@) =~= before.push(cv));
                },
                None => {},
            }
            i = i + 1;
            assert(comps@.map_values(|c: Component| c@) =~= head + pieces_parts(
                ps.take(i as int),
            ));
        }
        assert(ps.take(n as int) =~= ps);
        PathModel { components: comps, text: string_from(t) }
    }

    /// A copy of this path.
    pub fn duplicate(&self) -> (r: PathModel)
        ensures
            r@ == self@,
            r.text@ == self.text@,
    {
        let mut comps: Vec<Component> = Vec::new();
        let mut i: usize = 0;
        while i < self.components.len()
            invariant
                i <= self.components@.len(),
                comps@.map_values(|c: Component| c@) == self@.take(i as int),
            decreases self.components@.len() - i,
        {
            let c = match &self.components[i] {
                Component::RootDir => Component::RootDir,
                Component::CurDir => Component::CurDir,
                Component::ParentDir => Component::ParentDir,
                Component::Normal(s) => Component::Normal(s.clone()),
            };
            assert(c@ == self@[i as int]);
            let ghost before = comps@.map_values(|c: Component| c@);
            let ghost cv = c@;
            comps.push(c);
            assert(comps@.map_values(|c: Component| c@) =~= before.push(cv));
            assert(self@.take(i + 1) =~= self@.take(i as int).push(cv));
            i = i + 1;
            assert(comps@.map_values(|c: Component| c@) =~= self@.take(i as int));
        }
        assert(self@.take(self.components@.len() as int) =~= self@);
        PathModel { components: comps, text: self.text.clone() }
    }
}


// ---------------------------------------------------------------------------
// Operations
// ---------------------------------------------------------------------------

/// `PathBuf::push` on the text: an absolute `rest` replaces `base`; otherwise `rest`
/// follows `base`, with a `/` between them when `base` is not empty and does not end
/// in one.
pub open spec fn push_text(base: Seq<char>, rest: Seq<char>) -> Seq<char> {
    if rest.len() > 0 && rest[0] == '/' {
        rest
    } else if base.len() > 0 && base.last() != '/' {
        base + seq!['/'] + rest
    } else {
        base + rest
    }
}

fn push_text_chars(base: &Vec<char>, rest: &Vec<char>) -> (r: Vec<char>)
    ensures
        r@ == push_text(base@, rest@),
{
    if rest.len() > 0 && rest[0] == '/' {
        return copy_chars(rest);
    }
    let mut r = copy_chars(base);
    if base.len() > 0 && base[base.len() - 1] != '/' {
        r.push('/');
    }
    push_all(&mut r, rest);
    r
}

/// The text of `std::path::Path::with_file_name(path, name)`: the text of `path` with
/// its file name replaced by `name`, as `PathBuf` holds it.
pub uninterp spec fn with_file_name_text(path: Seq<char>, name: Seq<char>) -> Seq<char>;

/// `std::path::Path::with_file_name` on the texts. Its result is named; the text
/// that it cuts back to before adding `name` (the parent) is not spelled out in the
/// documentation. Both inputs are UTF-8, and the result is made of pieces of them cut
/// at separators, so the conversion back to a `String` loses nothing.
#[verifier::external_body]
fn path_with_file_name(path: &str, name: &str) -> (r: String)
    ensures
        r@ == with_file_name_text(path@, name@),
{
    std::path::Path::new(path).with_file_name(name).to_string_lossy().into_owned()
}

/// `Path::join`: an absolute `b` replaces `a`; otherwise `b` follows `a` (a `.`
/// that starts `b` is then no longer a component).
pub open spec fn join_paths(a: Seq<PathPart>, b: Seq<PathPart>) -> Seq<PathPart> {
    if b.len() > 0 && b[0] == PathPart::Root {
        b
    } else if a.len() == 0 {
        b
    } else if b.len() > 0 && b[0] == PathPart::Cur {
        a + b.drop_first()
    } else {
        a + b
    }
}

/// `Path::strip_prefix`: the components after `base`, when `base` is a prefix of `p`
/// component by component.
pub open spec fn strip_prefix_spec(p: Seq<PathPart>, base: Seq<PathPart>) -> Option<Seq<PathPart>> {
    if base.len() <= p.len() && p.take(base.len() as int) == base {
        Some(p.skip(base.len() as int))
    } else {
        None
    }
}

/// `Path::file_name`: the last component, when it is a name.
pub open spec fn file_name_spec(p: Seq<PathPart>) -> Option<Seq<char>> {
    if p.len() > 0 && p.last() is Name {
        Some(p.last()->Name_0)
    } else {
        None
    }
}

/// `Path::with_file_name`: the last name replaced by `name` (or `name` added when
/// the path ends in no name).
pub open spec fn with_file_name_spec(p: Seq<PathPart>, name: Seq<char>) -> Seq<PathPart> {
    join_paths(
        if file_name_spec(p) is Some {
            p.drop_last()
        } else {
            p
        },
        parse_path(name),
    )
}

/// Position of the last `c` in `s`, or -1.
pub open spec fn last_index(s: Seq<char>, c: char) -> int
    decreases s.len(),
{
    if s.len() == 0 {
        -1
    } else if s.last() == c {
        s.len() - 1
    } else {
        last_index(s.drop_last(), c)
    }
}

/// `Path::extension` of a file name: what follows its last `.`, unless the name is
/// `..`, has no `.`, or has its only `.` at the start.
pub open spec fn extension_spec(name: Seq<char>) -> Option<Seq<char>> {
    let k = last_index(name, '.');
    if name == seq!['.', '.'] || k <= 0 {
        None
    } else {
        Some(name.skip(k + 1))
    }
}

pub open spec fn has_extension(p: Seq<PathPart>, ext: Seq<char>) -> bool {
    &&& file_name_spec(p) is Some
    &&& extension_spec(file_name_spec(p)->0) == Some(ext)
}

proof fn lemma_last_index(s: Seq<char>, c: char, k: int)
    requires
        -1 <= k < s.len(),
        forall|j: int| k < j < s.len() ==> #[trigger] s[j] != c,
        k == -1 || s[k] == c,
    ensures
        last_index(s, c) == k,
    decreases s.len(),
{
    if s.len() > 0 && k < s.len() - 1 {
        assert(s.last() != c);
        assert forall|j: int| k < j < s.drop_last().len() implies #[trigger] s.drop_last()[j] != c by {
            assert(s.drop_last()[j] == s[j]);
        }
        lemma_last_index(s.drop_last(), c, k);
    }
}

/// Two components are the same.
pub fn same_component(a: &Component, b: &Component) -> (r: bool)
    ensures
        r == (a@ == b@),
{
    match a {
        Component::RootDir => {
            match b {
                Component::RootDir => true,
                _ => {
                    assert(b@ != PathPart::Root);
                    false
                },
            }
        },
        Component::CurDir => {
            match b {
                Component::CurDir => true,
                _ => {
                    assert(b@ != PathPart::Cur);
                    false
                },
            }
        },
        Component::ParentDir => {
            match b {
                Component::ParentDir => true,
                _ => {
                    assert(b@ != PathPart::Parent);
                    false
                },
            }
        },
        Component::Normal(x) => {
            match b {
                Component::Normal(y) => {
                    let e = x.eq(y);
                    assert(e == (x@ == y@));
                    e
                },
                _ => {
                    assert(!(b@ is Name));
                    false
                },
            }
        },
    }
}

impl PathModel {
    /// The empty path.
    pub fn empty() -> (r: PathModel)
        ensures
            r@ == Seq::<PathPart>::empty(),
            r.text@ == Seq::<char>::empty(),
    {
        let r = PathModel { components: Vec::new(), text: String::new() };
        assert(r@ =~= Seq::<PathPart>::empty());
        r
    }

    /// The two paths have the same components (`==` on paths).
    pub fn same(&self, other: &PathModel) -> (r: bool)
        ensures
            r == (self@ == other@),
    {
        if self.components.len() != other.components.len() {
            return false;
        }
        let mut i: usize = 0;
        while i < self.components.len()
            invariant
                self@.len() == other@.len(),
                i <= self@.len(),
                forall|k: int| 0 <= k < i ==> self@[k] == other@[k],
            decreases self@.len() - i,
        {
            if !same_component(&self.components[i], &other.components[i]) {
                assert(self@[i as int] != other@[i as int]);
                return false;
            }
            i = i + 1;
        }
        assert(self@ =~= other@);
        true
    }

    /// The path holds no component (its text is empty).
    pub fn is_empty(&self) -> (r: bool)
        ensures
            r == (self@.len() == 0),
    {
        self.components.len() == 0
    }

    /// The text of this path as it was built (`Path::display`).
    pub fn to_text(&self) -> (r: String)
        ensures
            r@ == self.text@,
    {
        self.text.clone()
    }

    /// The text of this path's components, each separated by `/`.
    pub fn component_text(&self) -> (r: String)
        ensures
            r@ == path_text(self@),
    {
        let n = self.components.len();
        let root_only = n == 1 && match &self.components[0] {
            Component::RootDir => true,
            _ => false,
        };
        proof {
            if n == 1 {
                assert(self@ =~= seq![self@[0]]);
                if self@[0] == PathPart::Root {
                    assert(self@ =~= seq![PathPart::Root]);
                } else {
                    assert(self@[0] != seq![PathPart::Root][0]);
                }
            } else {
                assert(self@.len() != seq![PathPart::Root].len());
            }
        }
        assert(root_only == (self@ == seq![PathPart::Root]));
        if root_only {
            let mut v: Vec<char> = Vec::new();
            v.push('/');
            assert(v@ =~= seq!['/']);
            return string_from(&v);
        }
        let ghost texts = self@.map_values(|c: PathPart| part_text(c));
        let mut parts: Vec<Vec<char>> = Vec::new();
        let mut i: usize = 0;
        while i < n
            invariant
                n == self.components@.len(),
                i <= n,
                texts == self@.map_values(|c: PathPart| part_text(c)),
                views(parts@) == texts.take(i as int),
            decreases n - i,
        {
            let mut t: Vec<char> = Vec::new();
            match &self.components[i] {
                Component::RootDir => {},
                Component::CurDir => {
                    t.push('.');
                },
                Component::ParentDir => {
                    t.push('.');
                    t.push('.');
                },
                Component::Normal(name) => {
                    t = chars_of(name.as_str());
                },
            }
            assert(t@ =~= texts[i as int]);
            let ghost before = views(parts@);
            let ghost tv = t@;
            parts.push(t);
            assert(views(parts@) =~= before.push(tv));
            i = i + 1;
            assert(texts.take(i as int) =~= texts.take(i - 1).push(tv));
        }
        assert(texts.take(n as int) =~= texts);
        let mut sep: Vec<char> = Vec::new();
        sep.push('/');
        assert(sep@ =~= seq!['/']);
        let r = join_chars(&parts, &sep);
        string_from(&r)
    }

    /// `self` followed by `other` (`Path::join`).
    pub fn join(&self, other: &PathModel) -> (r: PathModel)
        ensures
            r@ == join_paths(self@, other@),
            r.text@ == push_text(self.text@, other.text@),
    {
        let mut r = self.join_components(other);
        r.text = string_from(&push_text_chars(&chars_of(self.text.as_str()), &chars_of(other.text.as_str())));
        r
    }

    fn join_components(&self, other: &PathModel) -> (r: PathModel)
        ensures
            r@ == join_paths(self@, other@),
    {
        if other.components.len() > 0 {
            match &other.components[0] {
                Component::RootDir => {
                    return other.duplicate();
                },
                _ => {},
            }
        }
        if self.components.len() == 0 {
            return other.duplicate();
        }
        let skip: usize = if other.components.len() > 0 {
            match &other.components[0] {
                Component::CurDir => 1,
                _ => 0,
            }
        } else {
            0
        };
        let mut r = self.duplicate();
        let mut i: usize = skip;
        let ghost tail = other@.skip(skip as int);
        assert(other@.skip(skip as int).take(0) =~= Seq::<PathPart>::empty());
        assert(self@ + tail.take(0) =~= self@);
        while i < other.components.len()
            invariant
                skip <= i <= other.components@.len(),
                tail == other@.skip(skip as int),
                r@ == self@ + tail.take(i - skip),
            decreases other.components@.len() - i,
        {
            let c = match &other.components[i] {
                Component::RootDir => Component::RootDir,
                Component::CurDir => Component::CurDir,
                Component::ParentDir => Component::ParentDir,
                Component::Normal(s) => Component::Normal(s.clone()),
            };
            assert(c@ == other@[i as int]);
            let ghost before = r@;
            let ghost cv = c@;
            r.components.push(c);
            assert(r@ =~= before.push(cv));
            i = i + 1;
            assert(tail.take(i - skip) =~= tail.take(i - skip - 1).push(cv));
        }
        assert(tail.take(i - skip) =~= tail);
        if skip == 1 {
            assert(other@[0] == PathPart::Cur);
            assert(tail =~= other@.drop_first());
        } else {
            assert(tail =~= other@);
        }
        r
    }

    /// The components of `self` after the components of `base`, when `base` starts
    /// `self` (`Path::strip_prefix`); its text is that of its components.
    pub fn strip_prefix(&self, base: &PathModel) -> (r: Option<PathModel>)
        ensures
            r matches Some(p) ==> strip_prefix_spec(self@, base@) == Some(p@),
            r matches Some(p) ==> p.text@ == path_text(p@),
            r is None ==> strip_prefix_spec(self@, base@) is None,
    {
        let n = base.components.len();
        if n > self.components.len() {
            return None;
        }
        let mut i: usize = 0;
        while i < n
            invariant
                n == base@.len(),
                n <= self@.len(),
                i <= n,
                forall|k: int| 0 <= k < i ==> self@[k] == base@[k],
            decreases n - i,
        {
            let same = same_component(&self.components[i], &base.components[i]);
            if !same {
                assert(self@.take(n as int)[i as int] != base@[i as int]);
                return None;
            }
            i = i + 1;
        }
        assert(self@.take(n as int) =~= base@);
        let mut r = PathModel::empty();
        let mut j: usize = n;
        while j < self.components.len()
            invariant
                n <= j <= self@.len(),
                r@ == self@.subrange(n as int, j as int),
            decreases self@.len() - j,
        {
            let c = match &self.components[j] {
                Component::RootDir => Component::RootDir,
                Component::CurDir => Component::CurDir,
                Component::ParentDir => Component::ParentDir,
                Component::Normal(s) => Component::Normal(s.clone()),
            };
            assert(c@ == self@[j as int]);
            let ghost before = r@;
            let ghost cv = c@;
            r.components.push(c);
            assert(r@ =~= before.push(cv));
            j = j + 1;
            assert(r@ =~= self@.subrange(n as int, j as int));
        }
        assert(self@.subrange(n as int, j as int) =~= self@.skip(n as int));
        r.text = r.component_text();
        Some(r)
    }

    /// The last component, when it is a name (`Path::file_name`).
    pub fn file_name(&self) -> (r: Option<String>)
        ensures
            r matches Some(s) ==> file_name_spec(self@) == Some(s@),
            r is None ==> file_name_spec(self@) is None,
    {
        let n = self.components.len();
        if n == 0 {
            return None;
        }
        match &self.components[n - 1] {
            Component::Normal(s) => Some(s.clone()),
            _ => None,
        }
    }

    /// This path with its last name replaced by `name` (`Path::with_file_name`).
    pub fn with_file_name(&self, name: &str) -> (r: PathModel)
        ensures
            r@ == with_file_name_spec(self@, name@),
            r.text@ == with_file_name_text(self.text@, name@),
    {
        let mut base = self.duplicate();
        if self.file_name().is_some() {
            let ghost before = base@;
            base.components.pop();
            assert(base@ =~= before.drop_last());
        }
        let mut r = base.join_components(&PathModel::parse(name));
        r.text = path_with_file_name(self.text.as_str(), name);
        r
    }

    /// The path's file name has the extension `ext` (`Path::extension`).
    pub fn has_extension(&self, ext: &str) -> (r: bool)
        ensures
            r == has_extension(self@, ext@),
    {
        let name = match self.file_name() {
            Some(n) => n,
            None => {
                return false;
            },
        };
        let v = chars_of(name.as_str());
        if v.len() == 2 && v[0] == '.' && v[1] == '.' {
            assert(v@ =~= seq!['.', '.']);
            return false;
        }
        assert(v@ != seq!['.', '.']);
        let mut k: usize = v.len();
        while k > 0 && v[k - 1] != '.'
            invariant
                k <= v@.len(),
                forall|j: int| k <= j < v@.len() ==> #[trigger] v@[j] != '.',
            decreases k,
        {
            k = k - 1;
        }
        proof {
            lemma_last_index(v@, '.', k - 1);
        }
        if k <= 1 {
            return false;
        }
        let mut after: Vec<char> = Vec::new();
        let mut j: usize = k;
        while j < v.len()
            invariant
                k <= j <= v@.len(),
                after@ == v@.subrange(k as int, j as int),
            decreases v@.len() - j,
        {
            after.push(v[j]);
            j = j + 1;
            assert(after@ =~= v@.subrange(k as int, j as int));
        }
        assert(after@ =~= v@.skip(k as int));
        let e = chars_of(ext);
        same_chars(&after, &e)
    }
}


// ---------------------------------------------------------------------------
// Order
// ---------------------------------------------------------------------------

/// The sort key of one component: its kind (`/` < `.` < `..` < name), then a name's
/// characters, each shifted up by one so that the separator 0 sorts before them.
pub open spec fn part_key(p: PathPart) -> Seq<u32> {
    match p {
        PathPart::Root => seq![1u32],
        PathPart::Cur => seq![2u32],
        PathPart::Parent => seq![3u32],
        PathPart::Name(s) => seq![4u32] + s.map_values(|c: char| (c as int + 1) as u32),
    }
}

/// The sort key of a path: its components' keys, each followed by 0.
pub open spec fn path_key(p: Seq<PathPart>) -> Seq<u32>
    decreases p.len(),
{
    if p.len() == 0 {
        seq![]
    } else {
        part_key(p[0]) + seq![0u32] + path_key(p.drop_first())
    }
}

/// Lexicographic order: the first difference decides, and a proper prefix comes first.
pub open spec fn lex_lt(a: Seq<u32>, b: Seq<u32>) -> bool
    decreases a.len(),
{
    if a.len() == 0 {
        b.len() > 0
    } else if b.len() == 0 {
        false
    } else if a[0] != b[0] {
        a[0] < b[0]
    } else {
        lex_lt(a.drop_first(), b.drop_first())
    }
}

/// The order of paths (`Ord for Path`): component by component, where `/` < `.` <
/// `..` < names, and names compare character by character.
pub open spec fn path_lt(a: Seq<PathPart>, b: Seq<PathPart>) -> bool {
    lex_lt(path_key(a), path_key(b))
}

pub proof fn lemma_lex_irreflexive(a: Seq<u32>)
    ensures
        !lex_lt(a, a),
    decreases a.len(),
{
    if a.len() > 0 {
        lemma_lex_irreflexive(a.drop_first());
    }
}

pub proof fn lemma_lex_transitive(a: Seq<u32>, b: Seq<u32>, c: Seq<u32>)
    requires
        lex_lt(a, b),
        lex_lt(b, c),
    ensures
        lex_lt(a, c),
    decreases a.len(),
{
    if a.len() > 0 && b.len() > 0 && c.len() > 0 && a[0] == b[0] && b[0] == c[0] {
        lemma_lex_transitive(a.drop_first(), b.drop_first(), c.drop_first());
    }
}

pub proof fn lemma_lex_total(a: Seq<u32>, b: Seq<u32>)
    ensures
        a == b || lex_lt(a, b) || lex_lt(b, a),
    decreases a.len(),
{
    if a.len() > 0 && b.len() > 0 && a[0] == b[0] {
        lemma_lex_total(a.drop_first(), b.drop_first());
        if a.drop_first() == b.drop_first() {
            assert(a =~= seq![a[0]] + a.drop_first());
            assert(b =~= seq![b[0]] + b.drop_first());
        }
    } else if a.len() == 0 && b.len() == 0 {
        assert(a =~= b);
    }
}

pub proof fn lemma_lex_asymmetric(a: Seq<u32>, b: Seq<u32>)
    requires
        lex_lt(a, b),
    ensures
        !lex_lt(b, a),
{
    if lex_lt(b, a) {
        lemma_lex_transitive(a, b, a);
        lemma_lex_irreflexive(a);
    }
}

/// A character's code is at most `0x10ffff`.
pub proof fn lemma_char_range(c: char)
    ensures
        0 <= c as int <= 0x10ffff,
{
}

/// Not-after is transitive.
pub proof fn lemma_lex_le_transitive(a: Seq<u32>, b: Seq<u32>, c: Seq<u32>)
    requires
        !lex_lt(b, a),
        !lex_lt(c, b),
    ensures
        !lex_lt(c, a),
{
    if lex_lt(c, a) {
        lemma_lex_total(a, b);
        if a != b {
            lemma_lex_transitive(c, a, b);
        }
    }
}

proof fn lemma_part_key_no_zero(p: PathPart)
    ensures
        part_key(p).len() > 0,
        forall|i: int| 0 <= i < part_key(p).len() ==> #[trigger] part_key(p)[i] != 0,
{
    match p {
        PathPart::Name(s) => {
            assert forall|i: int| 0 <= i < part_key(p).len() implies #[trigger] part_key(p)[i]
                != 0 by {
                if i > 0 {
                    lemma_char_range(s[i - 1]);
                    assert(part_key(p)[i] == s.map_values(|c: char| (c as int + 1) as u32)[i
                        - 1]);
                }
            }
        },
        _ => {},
    }
}

proof fn lemma_part_key_injective(p: PathPart, q: PathPart)
    requires
        part_key(p) == part_key(q),
    ensures
        p == q,
{
    assert(part_key(p)[0] == part_key(q)[0]);
    if p is Name && q is Name {
        let s = p->Name_0;
        let t = q->Name_0;
        let f = |c: char| (c as int + 1) as u32;
        assert(part_key(p).drop_first() =~= s.map_values(f));
        assert(part_key(q).drop_first() =~= t.map_values(f));
        assert(s.len() == t.len());
        assert forall|i: int| 0 <= i < s.len() implies s[i] == t[i] by {
            assert(s.map_values(f)[i] == t.map_values(f)[i]);
            lemma_char_range(s[i]);
            lemma_char_range(t[i]);
            assert((s[i] as int) == (t[i] as int));
        }
        assert(s =~= t);
    } else {
        let kp = part_key(p);
        let kq = part_key(q);
        assert(kp[0] == (match p {
            PathPart::Root => 1u32,
            PathPart::Cur => 2u32,
            PathPart::Parent => 3u32,
            PathPart::Name(_) => 4u32,
        }));
        assert(kq[0] == (match q {
            PathPart::Root => 1u32,
            PathPart::Cur => 2u32,
            PathPart::Parent => 3u32,
            PathPart::Name(_) => 4u32,
        }));
    }
}

/// Different paths have different keys.
pub proof fn lemma_path_key_injective(a: Seq<PathPart>, b: Seq<PathPart>)
    requires
        path_key(a) == path_key(b),
    ensures
        a == b,
    decreases a.len(),
{
    if a.len() == 0 {
        if b.len() > 0 {
            lemma_part_key_no_zero(b[0]);
        }
        assert(a =~= b);
    } else {
        lemma_part_key_no_zero(a[0]);
        if b.len() == 0 {
            assert(path_key(a).len() > 0);
        } else {
            lemma_part_key_no_zero(b[0]);
            let ka = part_key(a[0]);
            let kb = part_key(b[0]);
            let k = path_key(a);
            assert(k =~= ka + seq![0u32] + path_key(a.drop_first()));
            assert(k =~= kb + seq![0u32] + path_key(b.drop_first()));
            if ka.len() < kb.len() {
                assert(k[ka.len() as int] == 0);
                assert(k[ka.len() as int] == kb[ka.len() as int]);
            } else if kb.len() < ka.len() {
                assert(k[kb.len() as int] == 0);
                assert(k[kb.len() as int] == ka[kb.len() as int]);
            }
            assert(ka =~= k.take(ka.len() as int));
            assert(kb =~= k.take(kb.len() as int));
            lemma_part_key_injective(a[0], b[0]);
            assert(path_key(a.drop_first()) =~= k.skip(ka.len() as int + 1));
            assert(path_key(b.drop_first()) =~= k.skip(kb.len() as int + 1));
            lemma_path_key_injective(a.drop_first(), b.drop_first());
            assert(a =~= seq![a[0]] + a.drop_first());
            assert(b =~= seq![b[0]] + b.drop_first());
        }
    }
}

/// The sort key of a path.
pub fn path_key_of(p: &PathModel) -> (r: Vec<u32>)
    ensures
        r@ == path_key(p@),
{
    let mut r: Vec<u32> = Vec::new();
    let mut i: usize = 0;
    let n = p.components.len();
    assert(p@.skip(0) =~= p@);
    assert(r@ + path_key(p@.skip(0)) =~= path_key(p@));
    while i < n
        invariant
            n == p@.len(),
            i <= n,
            r@ + path_key(p@.skip(i as int)) == path_key(p@),
        decreases n - i,
    {
        let ghost rest = p@.skip(i as int);
        assert(rest.drop_first() =~= p@.skip(i + 1));
        assert(rest[0] == p@[i as int]);
        let ghost before = r@;
        match &p.components[i] {
            Component::RootDir => {
                r.push(1);
            },
            Component::CurDir => {
                r.push(2);
            },
            Component::ParentDir => {
                r.push(3);
            },
            Component::Normal(name) => {
                r.push(4);
                let v = chars_of(name.as_str());
                let mut j: usize = 0;
                while j < v.len()
                    invariant
                        j <= v@.len(),
                        v@ == name@,
                        r@ == before + seq![4u32] + v@.take(j as int).map_values(
                            |c: char| (c as int + 1) as u32,
                        ),
                    decreases v@.len() - j,
                {
                    let c = v[j];
                    let code = c as u32;
                    proof {
                        lemma_char_range(c);
                    }
                    assert(code as int == c as int);
                    r.push(code + 1);
                    j = j + 1;
                    assert(v@.take(j as int).map_values(|c: char| (c as int + 1) as u32)
                        =~= v@.take(j - 1).map_values(|c: char| (c as int + 1) as u32).push(
                        (code + 1) as u32,
                    ));
                }
                assert(v@.take(j as int) =~= v@);
            },
        }
        assert(r@ =~= before + part_key(p@[i as int]));
        r.push(0);
        i = i + 1;
        assert(r@ + path_key(p@.skip(i as int)) =~= path_key(p@));
    }
    assert(p@.skip(n as int) =~= Seq::<PathPart>::empty());
    assert(r@ + path_key(p@.skip(n as int)) =~= r@);
    r
}

/// `a` comes before `b` in lexicographic order.
pub fn lex_less(a: &Vec<u32>, b: &Vec<u32>) -> (r: bool)
    ensures
        r == lex_lt(a@, b@),
{
    let mut i: usize = 0;
    assert(a@.skip(0) =~= a@);
    assert(b@.skip(0) =~= b@);
    loop
        invariant
            i <= a@.len(),
            i <= b@.len(),
            lex_lt(a@, b@) == lex_lt(a@.skip(i as int), b@.skip(i as int)),
        decreases a@.len() - i,
    {
        if i == a.len() {
            return i < b.len();
        }
        if i == b.len() {
            return false;
        }
        if a[i] != b[i] {
            return a[i] < b[i];
        }
        assert(a@.skip(i as int).drop_first() =~= a@.skip(i + 1));
        assert(b@.skip(i as int).drop_first() =~= b@.skip(i + 1));
        i = i + 1;
    }
}

/// `a` and `b` are the same key.
pub fn same_key(a: &Vec<u32>, b: &Vec<u32>) -> (r: bool)
    ensures
        r == (a@ == b@),
{
    if a.len() != b.len() {
        return false;
    }
    let mut i: usize = 0;
    while i < a.len()
        invariant
            a@.len() == b@.len(),
            i <= a@.len(),
            forall|k: int| 0 <= k < i ==> a@[k] == b@[k],
        decreases a@.len() - i,
    {
        if a[i] != b[i] {
            return false;
        }
        i = i + 1;
    }
    assert(a@ =~= b@);
    true
}

/// Strictly increasing in the order of paths: sorted, with nothing twice.
pub open spec fn strictly_sorted(ps: Seq<Seq<PathPart>>) -> bool {
    forall|i: int, j: int| 0 <= i < j < ps.len() ==> path_lt(#[trigger] ps[i], #[trigger] ps[j])
}

pub open spec fn path_views(ps: Seq<PathModel>) -> Seq<Seq<PathPart>> {
    ps.map_values(|p: PathModel| p@)
}

/// The distinct paths of `paths`, in increasing order (what collecting them into a
/// `BTreeSet<PathBuf>` and walking it gives).
pub fn sorted_unique_paths(paths: Vec<PathModel>) -> (r: Vec<PathModel>)
    ensures
        strictly_sorted(path_views(r@)),
        forall|p: Seq<PathPart>| path_views(r@).contains(p) <==> path_views(paths@).contains(p),
{
    let mut out: Vec<PathModel> = Vec::new();
    let mut keys: Vec<Vec<u32>> = Vec::new();
    let mut i: usize = 0;
    while i < paths.len()
        invariant
            i <= paths@.len(),
            keys@.len() == out@.len(),
            forall|k: int| 0 <= k < keys@.len() ==> #[trigger] keys@[k]@ == path_key(out@[k]@),
            strictly_sorted(path_views(out@)),
            forall|p: Seq<PathPart>|
                path_views(out@).contains(p) <==> path_views(paths@).take(i as int).contains(p),
        decreases paths@.len() - i,
    {
        let key = path_key_of(&paths[i]);
        let mut pos: usize = 0;
        while pos < keys.len() && lex_less(&keys[pos], &key)
            invariant
                pos <= keys@.len(),
                keys@.len() == out@.len(),
                forall|k: int| 0 <= k < keys@.len() ==> #[trigger] keys@[k]@ == path_key(
                    out@[k]@,
                ),
                forall|k: int| 0 <= k < pos ==> lex_lt(#[trigger] keys@[k]@, key@),
            decreases keys@.len() - pos,
        {
            pos = pos + 1;
        }
        let ghost pv = paths@[i as int]@;
        let ghost before = path_views(out@);
        assert(path_views(paths@).take(i + 1) =~= path_views(paths@).take(i as int).push(pv));
        if pos < keys.len() && same_key(&keys[pos], &key) {
            proof {
                lemma_path_key_injective(out@[pos as int]@, pv);
                assert(before[pos as int] == pv);
                let t = path_views(paths@).take(i as int);
                assert forall|p: Seq<PathPart>|
                    path_views(out@).contains(p) <==> t.push(pv).contains(p) by {
                    if t.push(pv).contains(p) {
                        let k = choose|k: int| 0 <= k < t.push(pv).len() && t.push(pv)[k] == p;
                        if k < t.len() {
                            assert(t[k] == p);
                        }
                    }
                    if t.contains(p) {
                        let k = choose|k: int| 0 <= k < t.len() && t[k] == p;
                        assert(t.push(pv)[k] == p);
                    }
                }
            }
        } else {
            proof {
                if pos < keys@.len() {
                    lemma_lex_total(keys@[pos as int]@, key@);
                }
                assert(key@ == path_key(pv));
                assert forall|k: int| 0 <= k < before.len() implies #[trigger] before[k] != pv by {
                    assert(keys@[k]@ == path_key(out@[k]@));
                    assert(before[k] == out@[k]@);
                    if before[k] == pv {
                        assert(keys@[k]@ == key@);
                        if k < pos {
                            assert(lex_lt(keys@[k]@, key@));
                            lemma_lex_irreflexive(key@);
                        } else if k > pos {
                            assert(path_lt(before[pos as int], before[k]));
                            assert(keys@[pos as int]@ == path_key(out@[pos as int]@));
                            assert(lex_lt(keys@[pos as int]@, keys@[k]@));
                            assert(lex_lt(key@, keys@[pos as int]@));
                            lemma_lex_transitive(key@, keys@[pos as int]@, keys@[k]@);
                            lemma_lex_irreflexive(key@);
                        }
                    }
                }
            }
            let item = paths[i].duplicate();
            let ghost old_keys = keys@;
            out.insert(pos, item);
            keys.insert(pos, key);
            proof {
                assert(path_views(out@) =~= before.insert(pos as int, pv));
                assert forall|a: int, b: int|
                    0 <= a < b < path_views(out@).len() implies path_lt(
                    #[trigger] path_views(out@)[a],
                    #[trigger] path_views(out@)[b],
                ) by {
                    let o = path_views(out@);
                    if b < pos {
                        assert(o[a] == before[a] && o[b] == before[b]);
                    } else if b == pos {
                        assert(o[a] == before[a]);
                        assert(old_keys[a]@ == path_key(before[a]));
                    } else if a == pos {
                        assert(o[b] == before[b - 1]);
                        assert(old_keys[b - 1]@ == path_key(before[b - 1]));
                        assert(old_keys[pos as int]@ == path_key(before[pos as int]));
                        assert(lex_lt(key@, old_keys[pos as int]@));
                        if b - 1 > pos {
                            assert(path_lt(before[pos as int], before[b - 1]));
                            lemma_lex_transitive(key@, old_keys[pos as int]@, old_keys[b - 1]@);
                        }
                    } else if a < pos {
                        assert(o[a] == before[a] && o[b] == before[b - 1]);
                    } else {
                        assert(o[a] == before[a - 1] && o[b] == before[b - 1]);
                    }
                }
                assert forall|p: Seq<PathPart>|
                    path_views(out@).contains(p) <== before.contains(p) || p == pv by {
                    if p == pv {
                        assert(path_views(out@)[pos as int] == pv);
                    } else if before.contains(p) {
                        let k = choose|k: int| 0 <= k < before.len() && before[k] == p;
                        if k < pos {
                            assert(path_views(out@)[k] == p);
                        } else {
                            assert(path_views(out@)[k + 1] == p);
                        }
                    }
                }
                let t = path_views(paths@).take(i as int);
                assert forall|p: Seq<PathPart>| t.push(pv).contains(p) <==> (t.contains(p) || p
                    == pv) by {
                    if t.push(pv).contains(p) {
                        let k = choose|k: int| 0 <= k < t.push(pv).len() && t.push(pv)[k] == p;
                        if k < t.len() {
                            assert(t[k] == p);
                        }
                    }
                    if t.contains(p) {
                        let k = choose|k: int| 0 <= k < t.len() && t[k] == p;
                        assert(t.push(pv)[k] == p);
                    }
                    if p == pv {
                        assert(t.push(pv)[t.len() as int] == p);
                    }
                }
                assert forall|p: Seq<PathPart>|
                    path_views(out@).contains(p) implies before.contains(p) || p == pv by {
                    let k = choose|k: int| 0 <= k < path_views(out@).len() && path_views(out@)[k]
                        == p;
                    if k < pos {
                        assert(before[k] == p);
                    } else if k > pos {
                        assert(before[k - 1] == p);
                    }
                }
                assert forall|p: Seq<PathPart>|
                    path_views(out@).contains(p) <==> path_views(paths@).take(i + 1).contains(
                        p,
                    ) by {
                    assert(path_views(out@).contains(p) <==> (before.contains(p) || p == pv));
                    assert(before.contains(p) <==> t.contains(p));
                    assert(t.push(pv).contains(p) <==> (t.contains(p) || p == pv));
                }
            }
        }
        i = i + 1;
    }
    assert(path_views(paths@).take(paths@.len() as int) =~= path_views(paths@));
    out
}


// ---------------------------------------------------------------------------
// Text and components agree
// ---------------------------------------------------------------------------

/// A name that can stand as a component: not empty, no `/`, not `.` or `..`.
pub open spec fn valid_name(s: Seq<char>) -> bool {
    &&& s.len() > 0
    &&& forall|i: int| 0 <= i < s.len() ==> #[trigger] s[i] != '/'
    &&& s != seq!['.']
    &&& s != seq!['.', '.']
}

/// The components of a path as `Path::components` gives them: `/` and `.` only first,
/// and names that can stand as components.
pub open spec fn wf_path(p: Seq<PathPart>) -> bool {
    forall|i: int|
        0 <= i < p.len() ==> {
            &&& (#[trigger] p[i] == PathPart::Root ==> i == 0)
            &&& (p[i] == PathPart::Cur ==> i == 0)
            &&& (p[i] is Name ==> valid_name(p[i]->Name_0))
        }
}

proof fn lemma_join_first(parts: Seq<Seq<char>>, sep: Seq<char>)
    requires
        parts.len() >= 2,
    ensures
        join(parts, sep) == parts[0] + sep + join(parts.drop_first(), sep),
    decreases parts.len(),
{
    if parts.len() == 2 {
        assert(parts.drop_last() =~= seq![parts[0]]);
        assert(parts.drop_first() =~= seq![parts[1]]);
        assert(join(parts.drop_last(), sep) == parts[0]);
        assert(join(parts.drop_first(), sep) == parts[1]);
        assert(parts.last() == parts[1]);
    } else {
        lemma_join_first(parts.drop_last(), sep);
        let m = parts.drop_last().drop_first();
        assert(m =~= parts.drop_first().drop_last());
        assert(parts.drop_last()[0] == parts[0]);
        assert(parts.drop_first().last() == parts.last());
        assert(join(parts, sep) == join(parts.drop_last(), sep) + sep + parts.last());
        assert(join(parts.drop_first(), sep) == join(m, sep) + sep + parts.last());
        assert(join(parts, sep) =~= parts[0] + sep + (join(m, sep) + sep + parts.last()));
    }
}

proof fn lemma_split_join(parts: Seq<Seq<char>>)
    requires
        parts.len() >= 1,
        forall|i: int, k: int|
            0 <= i < parts.len() && 0 <= k < parts[i].len() ==> #[trigger] parts[i][k] != '/',
    ensures
        split_on(join(parts, seq!['/']), '/') == parts,
    decreases parts.len(),
{
    let p0 = parts[0];
    assert forall|k: int| 0 <= k < p0.len() implies #[trigger] p0[k] != '/' by {
        assert(parts[0][k] != '/');
    }
    if parts.len() == 1 {
        crate::text::lemma_first_index(p0, '/', p0.len() as int);
        assert(split_on(p0, '/') == seq![p0]);
        assert(parts =~= seq![p0]);
    } else {
        lemma_join_first(parts, seq!['/']);
        let rest = parts.drop_first();
        assert forall|i: int, k: int|
            0 <= i < rest.len() && 0 <= k < rest[i].len() implies #[trigger] rest[i][k] != '/' by {
            assert(rest[i] == parts[i + 1]);
        }
        lemma_split_join(rest);
        let t = join(parts, seq!['/']);
        let rt = join(rest, seq!['/']);
        assert(t == p0 + seq!['/'] + rt);
        assert forall|k: int| 0 <= k < p0.len() implies #[trigger] t[k] != '/' by {
            assert(t[k] == p0[k]);
        }
        crate::text::lemma_first_index(t, '/', p0.len() as int);
        assert(t.take(p0.len() as int) =~= p0);
        assert(t.skip(p0.len() as int + 1) =~= rt);
        assert(parts =~= seq![p0] + rest);
    }
}

proof fn lemma_pieces_parts_single(x: Seq<char>)
    ensures
        pieces_parts(seq![x]) == piece_parts(x),
{
    assert(seq![x].drop_last() =~= Seq::<Seq<char>>::empty());
    assert(pieces_parts(Seq::<Seq<char>>::empty()) =~= Seq::<PathPart>::empty());
    assert(seq![x].last() == x);
    assert(Seq::<PathPart>::empty() + piece_parts(x) =~= piece_parts(x));
}

proof fn lemma_pieces_parts_concat(a: Seq<Seq<char>>, b: Seq<Seq<char>>)
    ensures
        pieces_parts(a + b) == pieces_parts(a) + pieces_parts(b),
    decreases b.len(),
{
    if b.len() == 0 {
        assert(a + b =~= a);
        assert(pieces_parts(b) =~= Seq::<PathPart>::empty());
        assert(pieces_parts(a) + pieces_parts(b) =~= pieces_parts(a));
    } else {
        lemma_pieces_parts_concat(a, b.drop_last());
        assert((a + b).drop_last() =~= a + b.drop_last());
        assert((a + b).last() == b.last());
    }
}

proof fn lemma_pieces_parts_texts(q: Seq<PathPart>)
    requires
        forall|i: int|
            0 <= i < q.len() ==> (#[trigger] q[i] == PathPart::Parent || (q[i] is Name
                && valid_name(q[i]->Name_0))),
    ensures
        pieces_parts(q.map_values(|c: PathPart| part_text(c))) == q,
    decreases q.len(),
{
    if q.len() > 0 {
        let d = q.drop_last();
        assert forall|i: int| 0 <= i < d.len() implies (#[trigger] d[i] == PathPart::Parent || (
        d[i] is Name && valid_name(d[i]->Name_0))) by {
            assert(d[i] == q[i]);
        }
        lemma_pieces_parts_texts(d);
        let ts = q.map_values(|c: PathPart| part_text(c));
        assert(ts.drop_last() =~= d.map_values(|c: PathPart| part_text(c)));
        let x = q.last();
        assert(q[q.len() - 1] == x);
        if x == PathPart::Parent {
            assert(piece_parts(ts.last()) =~= seq![x]);
        } else {
            assert(ts.last() == x->Name_0);
            assert(piece_parts(ts.last()) =~= seq![x]);
        }
        assert(q =~= d.push(x));
    }
}

/// The text of a path reads back as the same path: `PathBuf::from(path.display())`
/// has the components of `path`.
pub proof fn lemma_text_round_trip(p: Seq<PathPart>)
    requires
        wf_path(p),
    ensures
        parse_path(path_text(p)) == p,
{
    let ts = p.map_values(|c: PathPart| part_text(c));
    assert forall|i: int, k: int|
        0 <= i < ts.len() && 0 <= k < ts[i].len() implies #[trigger] ts[i][k] != '/' by {
        assert(ts[i] == part_text(p[i]));
        if p[i] is Name {
            assert(valid_name(p[i]->Name_0));
        }
    }
    if p.len() == 0 {
        assert(path_text(p) =~= Seq::<char>::empty());
        assert(split_on(Seq::<char>::empty(), '/') =~= seq![Seq::<char>::empty()]) by {
            crate::text::lemma_first_index(Seq::<char>::empty(), '/', 0);
        }
        lemma_pieces_parts_single(Seq::<char>::empty());
        assert(parse_path(path_text(p)) =~= p);
    } else {
        let t = path_text(p);
        let rest = p.drop_first();
        assert forall|i: int|
            0 <= i < rest.len() implies (#[trigger] rest[i] == PathPart::Parent || (rest[i] is Name
            && valid_name(rest[i]->Name_0))) by {
            assert(rest[i] == p[i + 1]);
        }
        lemma_pieces_parts_texts(rest);
        assert(ts.drop_first() =~= rest.map_values(|c: PathPart| part_text(c)));
        assert(p =~= seq![p[0]] + rest);
        if p == seq![PathPart::Root] {
            assert(t == seq!['/']);
            let pieces = split_on(t, '/');
            crate::text::lemma_first_index(t, '/', 0);
            crate::text::lemma_first_index(t.skip(1), '/', 0);
            let e = Seq::<char>::empty();
            assert(t.skip(1) =~= e);
            assert(t.take(0) =~= e);
            assert(split_on(e, '/') == seq![e]);
            assert(pieces == seq![e] + split_on(e, '/'));
            assert(pieces =~= seq![e, e]);
            assert(pieces.drop_last() =~= seq![e]);
            lemma_pieces_parts_single(e);
            assert(piece_parts(e) =~= Seq::<PathPart>::empty());
            assert(pieces_parts(pieces) == pieces_parts(seq![e]) + piece_parts(e));
            assert(pieces_parts(pieces) =~= Seq::<PathPart>::empty());
            assert(parse_path(t) =~= p);
        } else {
            assert(t == join(ts, seq!['/']));
            lemma_split_join(ts);
            assert(ts =~= seq![ts[0]] + ts.drop_first());
            lemma_pieces_parts_concat(seq![ts[0]], ts.drop_first());
            assert(seq![ts[0]].drop_last() =~= Seq::<Seq<char>>::empty());
            if ts.len() >= 2 {
                lemma_join_first(ts, seq!['/']);
            } else {
                assert(ts =~= seq![ts[0]]);
            }
            if p[0] == PathPart::Root {
                assert(ts[0] =~= Seq::<char>::empty());
                assert(ts.len() >= 2) by {
                    if ts.len() == 1 {
                        assert(p =~= seq![PathPart::Root]);
                    }
                }
                assert(t[0] == '/');
                lemma_pieces_parts_single(ts[0]);
                assert(parse_path(t) =~= seq![PathPart::Root] + rest);
            } else if p[0] == PathPart::Cur {
                assert(ts[0] =~= seq!['.']);
                assert(t[0] == '.');
                if ts.len() >= 2 {
                    assert(t[1] == '/');
                } else {
                    assert(t.len() == 1);
                }
                lemma_pieces_parts_single(ts[0]);
                assert(piece_parts(ts[0]) =~= Seq::<PathPart>::empty());
                assert(parse_path(t) =~= seq![PathPart::Cur] + rest);
            } else {
                let t0 = ts[0];
                assert(t0.len() > 0);
                assert(t[0] == t0[0]);
                assert(t0[0] != '/');
                if t0[0] == '.' {
                    if t0.len() == 1 {
                        assert(t0 =~= seq!['.']);
                        assert(p[0] is Name);
                    } else {
                        assert(t[1] == t0[1]);
                    }
                }
                assert(!starts_with_cur(t));
                assert(pieces_parts(seq![t0]) =~= seq![p[0]]) by {
                    lemma_pieces_parts_single(t0);
                    if p[0] == PathPart::Parent {
                    } else {
                        assert(valid_name(p[0]->Name_0));
                    }
                }
                assert(parse_path(t) =~= seq![p[0]] + rest);
            }
        }
    }
}


proof fn lemma_split_on_pieces(s: Seq<char>, c: char)
    ensures
        forall|i: int, k: int|
            0 <= i < split_on(s, c).len() && 0 <= k < split_on(s, c)[i].len() ==> #[trigger] split_on(
                s,
                c,
            )[i][k] != c,
    decreases s.len(),
{
    let i = crate::text::first_index(s, c);
    crate::text::lemma_first_index_bounds(s, c);
    if i >= s.len() {
        assert(split_on(s, c) == seq![s]);
    } else {
        lemma_split_on_pieces(s.skip(i + 1), c);
        let h = s.take(i);
        let r = split_on(s.skip(i + 1), c);
        assert(split_on(s, c) == seq![h] + r);
        assert forall|j: int, k: int|
            0 <= j < split_on(s, c).len() && 0 <= k < split_on(s, c)[j].len() implies #[trigger] split_on(
            s,
            c,
        )[j][k] != c by {
            if j > 0 {
                assert(split_on(s, c)[j] == r[j - 1]);
            } else {
                assert(h[k] == s[k]);
            }
        }
    }
}

proof fn lemma_pieces_parts_kinds(ps: Seq<Seq<char>>)
    requires
        forall|i: int, k: int| 0 <= i < ps.len() && 0 <= k < ps[i].len() ==> #[trigger] ps[i][k] != '/',
    ensures
        forall|i: int|
            0 <= i < pieces_parts(ps).len() ==> (#[trigger] pieces_parts(ps)[i] == PathPart::Parent || (
            pieces_parts(ps)[i] is Name && valid_name(pieces_parts(ps)[i]->Name_0))),
    decreases ps.len(),
{
    if ps.len() > 0 {
        let d = ps.drop_last();
        assert forall|i: int, k: int| 0 <= i < d.len() && 0 <= k < d[i].len() implies #[trigger] d[i][k]
            != '/' by {
            assert(d[i] == ps[i]);
        }
        lemma_pieces_parts_kinds(d);
        let x = ps.last();
        let q = pieces_parts(ps);
        assert(q == pieces_parts(d) + piece_parts(x));
        assert forall|i: int| 0 <= i < q.len() implies (#[trigger] q[i] == PathPart::Parent || (q[i] is Name
            && valid_name(q[i]->Name_0))) by {
            if i < pieces_parts(d).len() {
                assert(q[i] == pieces_parts(d)[i]);
            } else {
                assert forall|k: int| 0 <= k < x.len() implies #[trigger] x[k] != '/' by {
                    assert(ps[ps.len() - 1][k] != '/');
                }
            }
        }
    }
}

/// `Path::components` gives well-formed components.
pub proof fn lemma_parse_wf(t: Seq<char>)
    ensures
        wf_path(parse_path(t)),
{
    lemma_split_on_pieces(t, '/');
    lemma_pieces_parts_kinds(split_on(t, '/'));
    let head = (if is_rooted(t) {
        seq![PathPart::Root]
    } else {
        seq![]
    }) + (if starts_with_cur(t) {
        seq![PathPart::Cur]
    } else {
        seq![]
    });
    let q = pieces_parts(split_on(t, '/'));
    let p = parse_path(t);
    assert(p == head + q);
    assert(head.len() <= 1);
    assert forall|i: int| 0 <= i < p.len() implies {
        &&& (#[trigger] p[i] == PathPart::Root ==> i == 0)
        &&& (p[i] == PathPart::Cur ==> i == 0)
        &&& (p[i] is Name ==> valid_name(p[i]->Name_0))
    } by {
        if i >= head.len() {
            assert(p[i] == q[i - head.len()]);
        }
    }
}

/// Every path read from text reads back the same from its own text.
pub proof fn lemma_parse_text_parse(t: Seq<char>)
    ensures
        parse_path(path_text(parse_path(t))) == parse_path(t),
{
    lemma_parse_wf(t);
    lemma_text_round_trip(parse_path(t));
}

} // verus!
