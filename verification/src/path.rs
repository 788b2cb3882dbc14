//! Logical paths.
use crate::model::copy_texts;
use crate::order::{
    key_before, lemma_key_order, lemma_key_weak_order, parts, rank_keys, Part, PartView,
};
use crate::sort::Ranked;
use crate::tables::Key;
use crate::text::{chars_of, same_text, string_of, views, Rank};
use vstd::prelude::*;
use vstd::string::*;

verus! {

broadcast use crate::text::group_views;

/// A normalized path below the root, by its components.
#[derive(Debug)]
pub struct LogicalPath {
    pub parts: Vec<String>,
}

impl View for LogicalPath {
    type V = Seq<Seq<char>>;

    open spec fn view(&self) -> Seq<Seq<char>> {
        views(self.parts@)
    }
}

/// Why a path cannot be normalized.
#[verifier::ext_equal]
pub enum PathErrorView {
    Empty,
    Escapes { path: Seq<char> },
}

/// Why a path cannot be normalized.
#[derive(Debug)]
pub enum PathError {
    /// The path is empty or blank.
    Empty,
    /// The path leads above the root.
    Escapes { path: String },
}

impl View for PathError {
    type V = PathErrorView;

    open spec fn view(&self) -> PathErrorView {
        match *self {
            PathError::Empty => PathErrorView::Empty,
            PathError::Escapes { path } => PathErrorView::Escapes { path: path@ },
        }
    }
}

/// The views of a result.
pub open spec fn result_view<A: View, B: View>(r: Result<A, B>) -> Result<A::V, B::V> {
    match r {
        Ok(value) => Ok(value@),
        Err(error) => Err(error@),
    }
}

/// A character that Unicode counts as white space.
pub open spec fn is_blank(c: char) -> bool {
    let n = c as u32;
    ||| 0x9 <= n <= 0xd
    ||| n == 0x20
    ||| n == 0x85
    ||| n == 0xa0
    ||| n == 0x1680
    ||| 0x2000 <= n <= 0x200a
    ||| n == 0x2028
    ||| n == 0x2029
    ||| n == 0x202f
    ||| n == 0x205f
    ||| n == 0x3000
}

/// A text of white space only.
pub open spec fn all_blank(s: Seq<char>) -> bool {
    forall|i: int| 0 <= i < s.len() ==> is_blank(#[trigger] s[i])
}

/// The pieces of a path between its slashes.
pub open spec fn pieces(s: Seq<char>) -> Seq<Seq<char>>
    decreases s.len(),
{
    if s.len() == 0 {
        seq![Seq::empty()]
    } else {
        let before = pieces(s.drop_last());
        if s.last() == '/' {
            before.push(Seq::empty())
        } else {
            before.drop_last().push(before.last().push(s.last()))
        }
    }
}

/// The components that pieces of a path lead to from the root; nothing when they lead above it.
pub open spec fn followed(pieces: Seq<Seq<char>>) -> Option<Seq<Seq<char>>>
    decreases pieces.len(),
{
    if pieces.len() == 0 {
        Some(Seq::empty())
    } else {
        match followed(pieces.drop_last()) {
            Some(at) => step(at, pieces.last()),
            None => None,
        }
    }
}

/// One step of a path.
pub open spec fn step(at: Seq<Seq<char>>, piece: Seq<char>) -> Option<Seq<Seq<char>>> {
    if piece == ""@ || piece == "."@ {
        Some(at)
    } else if piece == ".."@ {
        if at.len() == 0 {
            None
        } else {
            Some(at.drop_last())
        }
    } else {
        Some(at.push(piece))
    }
}

/// The components of a path.
pub open spec fn normal_path(path: Seq<char>) -> Result<Seq<Seq<char>>, PathErrorView> {
    match followed(pieces(path)) {
        Some(at) => Ok(at),
        None => Err(PathErrorView::Escapes { path }),
    }
}

/// The path that a value means below a directory.
pub open spec fn joined_path(directory: Seq<char>, value: Seq<char>) -> Seq<char> {
    if value.len() > 0 && value[0] == '/' {
        value
    } else if directory.len() > 0 && directory.last() != '/' {
        directory.push('/') + value
    } else {
        directory + value
    }
}

/// The components of the path that a value means below a directory.
pub open spec fn normal_logical_path(directory: Seq<char>, value: Seq<char>) -> Result<
    Seq<Seq<char>>,
    PathErrorView,
> {
    if all_blank(value) {
        Err(PathErrorView::Empty)
    } else {
        normal_path(joined_path(directory, value))
    }
}

/// The components from position `i` on, each behind a slash.
pub open spec fn slashed_from(parts: Seq<Seq<char>>, i: int, acc: Seq<char>) -> Seq<char>
    decreases parts.len() - i,
{
    if 0 <= i < parts.len() {
        slashed_from(parts, i + 1, acc.push('/') + parts[i])
    } else {
        acc
    }
}

/// A path as text.
pub open spec fn path_text(parts: Seq<Seq<char>>) -> Seq<char> {
    if parts.len() == 0 {
        "/"@
    } else {
        slashed_from(parts, 0, Seq::empty())
    }
}

/// A path has an extension: its last component ends with a dot and the extension, behind at
/// least one character.
pub open spec fn has_extension(parts: Seq<Seq<char>>, extension: Seq<char>) -> bool {
    parts.len() > 0 && {
        let name = parts.last();
        let suffix = seq!['.'] + extension;
        name.len() > suffix.len() && name.skip(name.len() - suffix.len()) == suffix
    }
}

/// A path lies below another, or is it.
pub open spec fn lies_in(path: Seq<Seq<char>>, directory: Seq<Seq<char>>) -> bool {
    directory.len() <= path.len() && path.take(directory.len() as int) == directory
}

/// A component that a normalized path may have.
pub open spec fn is_component(piece: Seq<char>) -> bool {
    &&& piece.len() > 0
    &&& piece != "."@
    &&& piece != ".."@
    &&& forall|i: int| 0 <= i < piece.len() ==> #[trigger] piece[i] != '/'
}

proof fn lemma_pieces(s: Seq<char>)
    ensures
        pieces(s).len() > 0,
        forall|k: int, i: int|
            0 <= k < pieces(s).len() && 0 <= i < pieces(s)[k].len() ==> #[trigger] pieces(
                s,
            )[k][i] != '/',
    decreases s.len(),
{
    if s.len() > 0 {
        lemma_pieces(s.drop_last());
        let before = pieces(s.drop_last());
        let after = pieces(s);
        assert forall|k: int, i: int|
            0 <= k < after.len() && 0 <= i < after[k].len() implies #[trigger] after[k][i]
            != '/' by {
            if s.last() == '/' {
                if k < before.len() {
                    assert(after[k] == before[k]);
                    assert(before[k][i] != '/');
                }
            } else if k < before.len() - 1 {
                assert(after[k] == before[k]);
                assert(before[k][i] != '/');
            } else {
                assert(after[k] == before.last().push(s.last()));
                if i < before.last().len() {
                    assert(before[before.len() - 1][i] != '/');
                }
            }
        }
    }
}

proof fn lemma_followed(list: Seq<Seq<char>>)
    requires
        forall|k: int, i: int|
            0 <= k < list.len() && 0 <= i < list[k].len() ==> #[trigger] list[k][i] != '/',
    ensures
        followed(list) matches Some(at) ==> forall|k: int|
            0 <= k < at.len() ==> is_component(#[trigger] at[k]),
    decreases list.len(),
{
    reveal_strlit("");
    if list.len() > 0 {
        let rest = list.drop_last();
        assert forall|k: int, i: int|
            0 <= k < rest.len() && 0 <= i < rest[k].len() implies #[trigger] rest[k][i] != '/' by {
            assert(rest[k] == list[k]);
            assert(list[k][i] != '/');
        }
        lemma_followed(rest);
        let piece = list.last();
        assert(piece == list[list.len() - 1]);
        if piece.len() == 0 {
            assert(piece =~= ""@);
        }
        if piece != ""@ && piece != "."@ && piece != ".."@ {
            assert(is_component(piece)) by {
                assert forall|i: int| 0 <= i < piece.len() implies #[trigger] piece[i] != '/' by {
                    assert(list[list.len() - 1][i] != '/');
                }
            }
        }
    }
}

/// A normalized path has only plain components: none is empty, `.`, `..` or holds a slash.
pub proof fn normal_path_is_plain(path: Seq<char>)
    ensures
        normal_path(path) matches Ok(at) ==> forall|k: int|
            0 <= k < at.len() ==> is_component(#[trigger] at[k]),
{
    lemma_pieces(path);
    lemma_followed(pieces(path));
}

proof fn lemma_pieces_append(s: Seq<char>, word: Seq<char>)
    requires
        forall|i: int| 0 <= i < word.len() ==> #[trigger] word[i] != '/',
    ensures
        pieces(s.push('/') + word) == pieces(s).push(word),
    decreases word.len(),
{
    let t = s.push('/') + word;
    if word.len() == 0 {
        assert(t =~= s.push('/'));
        assert(t.drop_last() =~= s);
        assert(word =~= Seq::empty());
    } else {
        let less = word.drop_last();
        lemma_pieces_append(s, less);
        assert(t.drop_last() =~= s.push('/') + less);
        assert(t.last() == word.last());
        assert(less.push(word.last()) =~= word);
        let before = pieces(s).push(less);
        assert(before.drop_last() =~= pieces(s));
    }
}

proof fn lemma_slashed(parts: Seq<Seq<char>>, i: int, acc: Seq<char>)
    requires
        0 <= i <= parts.len(),
        forall|k: int| 0 <= k < parts.len() ==> is_component(#[trigger] parts[k]),
        followed(pieces(acc)) == Some(parts.take(i)),
    ensures
        followed(pieces(slashed_from(parts, i, acc))) == Some(parts),
    decreases parts.len() - i,
{
    if i < parts.len() {
        let next = acc.push('/') + parts[i];
        assert(is_component(parts[i]));
        lemma_pieces_append(acc, parts[i]);
        assert(pieces(next).drop_last() =~= pieces(acc));
        assert(pieces(next).last() == parts[i]);
        reveal_strlit("");
        assert(parts[i] != ""@);
        assert(parts.take(i).push(parts[i]) =~= parts.take(i + 1));
        lemma_slashed(parts, i + 1, next);
    } else {
        assert(parts.take(i) =~= parts);
    }
}

/// A path followed by one more piece leads to where the path leads, and from there into the
/// piece, up for `..`, and nowhere for `.` or an empty piece. No path leads above the root.
pub proof fn pieces_lead_on(path: Seq<char>, word: Seq<char>)
    requires
        forall|i: int| 0 <= i < word.len() ==> #[trigger] word[i] != '/',
    ensures
        match (normal_path(path), normal_path(path.push('/') + word)) {
            (Ok(at), Ok(after)) => {
                &&& word.len() == 0 || word == "."@ ==> after == at
                &&& word == ".."@ ==> at.len() > 0 && after == at.drop_last()
                &&& is_component(word) ==> after == at.push(word)
            },
            (Ok(at), Err(_)) => at.len() == 0 && word == ".."@,
            (Err(_), after) => after is Err,
        },
        normal_path(path) matches Err(error) ==> error == (PathErrorView::Escapes { path }),
{
    lemma_pieces_append(path, word);
    let all = pieces(path.push('/') + word);
    assert(all.drop_last() =~= pieces(path));
    assert(all.last() == word);
    reveal_strlit("");
    reveal_strlit(".");
    reveal_strlit("..");
    if word.len() == 0 {
        assert(word =~= ""@);
    }
    assert("."@.len() == 1 && ".."@.len() == 2 && ""@.len() == 0);
}

/// A path that starts with a slash is taken from the root, another one from the directory; a
/// blank one is none.
pub proof fn paths_start_at_their_directory(directory: Seq<char>, value: Seq<char>)
    ensures
        all_blank(value) <==> normal_logical_path(directory, value) == Err::<
            Seq<Seq<char>>,
            PathErrorView,
        >(PathErrorView::Empty),
        !all_blank(value) && value[0] == '/' ==> normal_logical_path(directory, value)
            == normal_path(value),
        !all_blank(value) && value[0] != '/' && directory.len() > 0 && directory.last() != '/'
            ==> normal_logical_path(directory, value) == normal_path(
            directory.push('/') + value,
        ),
        !all_blank(value) && value[0] != '/' && (directory.len() == 0 || directory.last() == '/')
            ==> normal_logical_path(directory, value) == normal_path(directory + value),
{
}

/// Normalizing the text of a normalized path gives the path again.
pub proof fn normalizing_twice_changes_nothing(path: Seq<char>)
    ensures
        normal_path(path) matches Ok(at) ==> normal_path(path_text(at)) == Ok::<
            Seq<Seq<char>>,
            PathErrorView,
        >(at),
{
    normal_path_is_plain(path);
    match normal_path(path) {
        Ok(at) => {
            reveal_strlit("");
            reveal_strlit("/");
            let none: Seq<char> = Seq::empty();
            assert(pieces(none) =~= seq![Seq::<char>::empty()]);
            assert(Seq::<char>::empty() =~= ""@);
            assert(pieces(none).drop_last() =~= Seq::<Seq<char>>::empty());
            assert(followed(pieces(none).drop_last()) == Some(Seq::<Seq<char>>::empty()));
            assert(pieces(none).last() =~= ""@);
            assert(followed(pieces(none)) == Some(Seq::<Seq<char>>::empty()));
            assert(at.take(0) =~= Seq::empty());
            if at.len() == 0 {
                assert("/"@ =~= none.push('/'));
                lemma_pieces_append(none, none);
                assert(none.push('/') + none =~= "/"@);
                assert(pieces("/"@) == pieces(none).push(none));
                assert(pieces("/"@).drop_last() =~= pieces(none));
                assert(pieces("/"@).last() =~= ""@);
                assert(at =~= Seq::empty());
            } else {
                lemma_slashed(at, 0, none);
            }
        },
        Err(_) => {},
    }
}

/// Whether a character is white space.
pub fn blank(c: char) -> (r: bool)
    ensures
        r == is_blank(c),
{
    let n = c as u32;
    (0x9 <= n && n <= 0xd) || n == 0x20 || n == 0x85 || n == 0xa0 || n == 0x1680 || (0x2000 <= n
        && n <= 0x200a) || n == 0x2028 || n == 0x2029 || n == 0x202f || n == 0x205f || n == 0x3000
}

/// Whether a text is empty or only white space.
pub fn is_all_blank(s: &str) -> (r: bool)
    ensures
        r == all_blank(s@),
{
    let chars = chars_of(s);
    let n: usize = chars.len();
    let mut i: usize = 0;
    while i < n
        invariant
            i <= n,
            n == chars@.len(),
            chars@ == s@,
            forall|j: int| 0 <= j < i ==> is_blank(#[trigger] s@[j]),
        decreases n - i,
    {
        if !blank(chars[i]) {
            assert(!is_blank(s@[i as int]));
            return false;
        }
        i += 1;
    }
    true
}

fn split_path(path: &str) -> (r: Vec<Vec<char>>)
    ensures
        r@.len() == pieces(path@).len(),
        forall|i: int| 0 <= i < r@.len() ==> (#[trigger] r@[i])@ == pieces(path@)[i],
{
    let chars = chars_of(path);
    let ghost all = path@;
    let n: usize = chars.len();
    let mut done: Vec<Vec<char>> = Vec::new();
    let mut current: Vec<char> = Vec::new();
    let mut i: usize = 0;
    assert(all.take(0) =~= Seq::empty());
    assert(pieces(all.take(0)) =~= seq![Seq::<char>::empty()]);
    assert(current@ =~= Seq::<char>::empty());
    while i < n
        invariant
            i <= n,
            n == chars@.len(),
            chars@ == all,
            all == path@,
            pieces(all.take(i as int)).len() == done@.len() + 1,
            forall|j: int|
                0 <= j < done@.len() ==> (#[trigger] done@[j])@ == pieces(all.take(i as int))[j],
            current@ == pieces(all.take(i as int)).last(),
        decreases n - i,
    {
        let c = chars[i];
        let ghost before = pieces(all.take(i as int));
        proof {
            assert(all.take(i + 1).drop_last() =~= all.take(i as int));
            assert(all.take(i + 1).last() == c);
        }
        if c == '/' {
            let mut full: Vec<char> = Vec::new();
            std::mem::swap(&mut full, &mut current);
            done.push(full);
            assert(current@ =~= Seq::<char>::empty());
        } else {
            current.push(c);
        }
        i += 1;
    }
    assert(all.take(n as int) =~= all);
    done.push(current);
    done
}

fn is_text(chars: &Vec<char>, text: &str) -> (r: bool)
    ensures
        r == (chars@ == text@),
{
    same_text(string_of(chars).as_str(), text)
}

/// The components of a path.
pub fn normalize_path(path: &str) -> (r: Result<LogicalPath, PathError>)
    ensures
        result_view(r) == normal_path(path@),
{
    let list = split_path(path);
    let ghost all = pieces(path@);
    let n: usize = list.len();
    let mut at: Vec<String> = Vec::new();
    let mut i: usize = 0;
    assert(all.take(0) =~= Seq::empty());
    while i < n
        invariant
            i <= n,
            n == list@.len(),
            n == all.len(),
            all == pieces(path@),
            forall|j: int| 0 <= j < n ==> (#[trigger] list@[j])@ == all[j],
            followed(all.take(i as int)) == Some(views(at@)),
        decreases n - i,
    {
        let piece = &list[i];
        let ghost before = views(at@);
        proof {
            assert(all.take(i + 1).drop_last() =~= all.take(i as int));
            assert(all.take(i + 1).last() == piece@);
        }
        if is_text(piece, "") || is_text(piece, ".") {
        } else if is_text(piece, "..") {
            if at.len() == 0 {
                proof {
                    lemma_escaped(all, i + 1);
                }
                return Err(PathError::Escapes { path: path.to_owned() });
            }
            let _gone = at.pop();
            assert(views(at@) =~= before.drop_last());
        } else {
            at.push(string_of(piece));
        }
        i += 1;
    }
    assert(all.take(n as int) =~= all);
    Ok(LogicalPath { parts: at })
}

proof fn lemma_escaped(list: Seq<Seq<char>>, i: int)
    requires
        0 <= i <= list.len(),
        followed(list.take(i)) is None,
    ensures
        followed(list) is None,
    decreases list.len() - i,
{
    if i < list.len() {
        assert(list.take(i + 1).drop_last() =~= list.take(i));
        lemma_escaped(list, i + 1);
    } else {
        assert(list.take(i) =~= list);
    }
}

/// The components of the path that a value means below a directory.
pub fn normalize_logical_path(root: &str, value: &str) -> (r: Result<LogicalPath, PathError>)
    ensures
        result_view(r) == normal_logical_path(root@, value@),
{
    if is_all_blank(value) {
        return Err(PathError::Empty);
    }
    let joined = join_path(root, value);
    normalize_path(joined.as_str())
}

fn join_path(directory: &str, value: &str) -> (r: String)
    ensures
        r@ == joined_path(directory@, value@),
{
    let chars = chars_of(value);
    if chars.len() > 0 && chars[0] == '/' {
        return value.to_owned();
    }
    let start = chars_of(directory);
    let mut out = directory.to_owned();
    if start.len() > 0 && start[start.len() - 1] != '/' {
        out.push('/');
    }
    out.append(value);
    out
}

impl LogicalPath {
    /// The path as text.
    pub fn text(&self) -> (r: String)
        ensures
            r@ == path_text(self@),
    {
        let n: usize = self.parts.len();
        if n == 0 {
            return "/".to_owned();
        }
        let mut out = String::new();
        let mut i: usize = 0;
        assert(out@ =~= Seq::empty());
        while i < n
            invariant
                i <= n,
                n == self.parts@.len(),
                slashed_from(self@, 0, Seq::empty()) == slashed_from(self@, i as int, out@),
            decreases n - i,
        {
            out.push('/');
            out.append(self.parts[i].as_str());
            i += 1;
        }
        out
    }

    /// Whether the last component has an extension.
    pub fn has_extension(&self, extension: &str) -> (r: bool)
        ensures
            r == has_extension(self@, extension@),
    {
        let n: usize = self.parts.len();
        if n == 0 {
            return false;
        }
        assert(self@.last() == self.parts@[n - 1]@);
        let name = chars_of(self.parts[n - 1].as_str());
        let end = chars_of(extension);
        let ghost suffix = seq!['.'] + extension@;
        if name.len() <= end.len() || name.len() - end.len() <= 1 {
            return false;
        }
        let total: usize = name.len();
        let start: usize = total - end.len() - 1;
        let ghost tail = name@.skip(start as int);
        assert(tail.len() == suffix.len());
        if name[start] != '.' {
            assert(tail[0] != suffix[0]);
            return false;
        }
        let mut i: usize = 0;
        while i < end.len()
            invariant
                i <= end@.len(),
                total == name@.len(),
                start + 1 + end@.len() == total,
                end@ == extension@,
                suffix == seq!['.'] + extension@,
                tail == name@.skip(start as int),
                self@.last() == name@,
                self@.len() > 0,
                start >= 1,
                name@[start as int] == '.',
                forall|j: int| 0 <= j < i ==> name@[start + 1 + j] == #[trigger] end@[j],
            decreases end@.len() - i,
        {
            if name[start + 1 + i] != end[i] {
                assert(tail[1 + i] != suffix[1 + i]);
                return false;
            }
            i += 1;
        }
        assert(tail =~= suffix);
        true
    }

    /// Whether the path lies below a directory, or is it.
    pub fn starts_with(&self, directory: &LogicalPath) -> (r: bool)
        ensures
            r == lies_in(self@, directory@),
    {
        let n: usize = directory.parts.len();
        if n > self.parts.len() {
            return false;
        }
        let mut i: usize = 0;
        while i < n
            invariant
                i <= n,
                n == directory.parts@.len(),
                n <= self.parts@.len(),
                forall|j: int| 0 <= j < i ==> #[trigger] self@[j] == directory@[j],
            decreases n - i,
        {
            if !same_text(self.parts[i].as_str(), directory.parts[i].as_str()) {
                assert(self@.take(n as int)[i as int] != directory@[i as int]);
                return false;
            }
            assert(self@[i as int] == directory@[i as int]);
            i += 1;
        }
        assert(self@.take(n as int) =~= directory@);
        true
    }

    fn key(&self) -> (r: Vec<Part<'_>>)
        ensures
            parts(r@) == path_key(self@),
    {
        let mut out: Vec<Part<'_>> = Vec::new();
        let n: usize = self.parts.len();
        let mut i: usize = 0;
        while i < n
            invariant
                i <= n,
                n == self.parts@.len(),
                out@.len() == i,
                forall|j: int| 0 <= j < i ==> (#[trigger] out@[j])@ == path_key(self@)[j],
            decreases n - i,
        {
            out.push(Part::Text(self.parts[i].as_str()));
            i += 1;
        }
        assert(parts(out@) =~= path_key(self@));
        out
    }
}

/// Paths are ordered component by component.
pub open spec fn path_key(path: Seq<Seq<char>>) -> Seq<PartView> {
    Seq::new(path.len(), |i: int| PartView::Text(path[i]))
}

impl Ranked for LogicalPath {
    open spec fn before(a: Seq<Seq<char>>, b: Seq<Seq<char>>) -> bool {
        key_before(path_key(a), path_key(b))
    }

    fn is_before(&self, other: &Self) -> (r: bool) {
        match rank_keys(&self.key(), &other.key()) {
            Rank::Before => true,
            _ => false,
        }
    }

    proof fn weak_order(a: Seq<Seq<char>>, b: Seq<Seq<char>>, c: Seq<Seq<char>>) {
        lemma_key_weak_order(path_key(a), path_key(b), path_key(c));
    }
}

impl Key for LogicalPath {
    proof fn total(a: Seq<Seq<char>>, b: Seq<Seq<char>>) {
        lemma_key_order(path_key(a), path_key(b), path_key(a));
        if path_key(a) == path_key(b) {
            assert forall|i: int| 0 <= i < a.len() implies a[i] == b[i] by {
                assert(path_key(a)[i] == path_key(b)[i]);
            }
            assert(path_key(a).len() == path_key(b).len());
            assert(a =~= b);
        }
    }

    fn copy(&self) -> (r: Self) {
        LogicalPath { parts: copy_texts(&self.parts) }
    }
}

} // verus!
