//! Paths of scene files, which can be spelled in several ways: names with `/` between them.

use crate::text::chars_of;
use vstd::prelude::*;

verus! {

/// What stands between the separators of a path.
pub open spec fn segments(path: Seq<char>) -> Seq<Seq<char>>
    decreases path.len(),
{
    if path.len() == 0 {
        seq![Seq::empty()]
    } else {
        let before = segments(path.drop_last());
        if path.last() == '/' {
            before.push(Seq::empty())
        } else {
            before.drop_last().push(before.last().push(path.last()))
        }
    }
}

/// Those segments that lead on: neither empty nor a lone dot.
pub open spec fn names(list: Seq<Seq<char>>) -> Seq<Seq<char>>
    decreases list.len(),
{
    if list.len() == 0 {
        Seq::empty()
    } else {
        let before = names(list.drop_last());
        if list.last().len() == 0 || list.last() == seq!['.'] {
            before
        } else {
            before.push(list.last())
        }
    }
}

/// What a path means however it is spelled: whether it starts at the root, whether it starts with a lone dot, and its
/// names. Repeated and trailing separators, and lone dots that do not start a path, do not matter.
#[verifier::ext_equal]
pub struct PathKey {
    pub rooted: bool,
    pub dotted: bool,
    pub names: Seq<Seq<char>>,
}

/// What a path means.
pub open spec fn path_key(path: Seq<char>) -> PathKey {
    PathKey {
        rooted: path.len() > 0 && path[0] == '/',
        dotted: segments(path)[0] == seq!['.'],
        names: names(segments(path)),
    }
}

/// Texts as sequences.
pub open spec fn words(list: Seq<Vec<char>>) -> Seq<Seq<char>> {
    list.map_values(|w: Vec<char>| w@)
}

/// A path as what it means.
struct PathParts {
    rooted: bool,
    dotted: bool,
    names: Vec<Vec<char>>,
}

impl View for PathParts {
    type V = PathKey;

    closed spec fn view(&self) -> PathKey {
        PathKey { rooted: self.rooted, dotted: self.dotted, names: words(self.names@) }
    }
}

fn is_dot(w: &Vec<char>) -> (b: bool)
    ensures
        b == (w@ == seq!['.']),
{
    let b: bool = w.len() == 1 && w[0] == '.';
    assert(b ==> w@ =~= seq!['.']);
    b
}

/// Split a path at its separators.
fn split(path: &Vec<char>) -> (list: Vec<Vec<char>>)
    ensures
        words(list@) == segments(path@),
{
    let mut list: Vec<Vec<char>> = Vec::new();
    let mut current: Vec<char> = Vec::new();
    let mut i: usize = 0;
    assert(words(list@).push(current@) =~= segments(path@.take(0)));
    while i < path.len()
        invariant
            i <= path@.len(),
            words(list@).push(current@) == segments(path@.take(i as int)),
        decreases path@.len() - i,
    {
        let c: char = path[i];
        let ghost done = words(list@);
        let ghost open = current@;
        proof {
            assert(path@.take(i + 1).drop_last() =~= path@.take(i as int));
            assert(done.push(open).drop_last() =~= done);
        }
        if c == '/' {
            list.push(current);
            current = Vec::new();
            assert(words(list@) =~= done.push(open));
            assert(current@ =~= Seq::empty());
        } else {
            current.push(c);
        }
        i = i + 1;
    }
    let ghost done = words(list@);
    let ghost open = current@;
    list.push(current);
    assert(words(list@) =~= done.push(open));
    assert(path@.take(i as int) =~= path@);
    list
}

/// Keep the segments that lead on.
fn keep_names(list: Vec<Vec<char>>) -> (r: Vec<Vec<char>>)
    ensures
        words(r@) == names(words(list@)),
{
    let mut r: Vec<Vec<char>> = Vec::new();
    let mut i: usize = 0;
    assert(words(r@) =~= names(words(list@).take(0)));
    while i < list.len()
        invariant
            i <= list@.len(),
            words(r@) == names(words(list@).take(i as int)),
        decreases list@.len() - i,
    {
        let ghost before = words(r@);
        proof {
            assert(words(list@).take(i + 1).drop_last() =~= words(list@).take(i as int));
            assert(words(list@).take(i + 1).last() == list@[i as int]@);
        }
        if list[i].len() > 0 && !is_dot(&list[i]) {
            let w: Vec<char> = copy_word(&list[i]);
            r.push(w);
            assert(words(r@) =~= before.push(list@[i as int]@));
        }
        i = i + 1;
    }
    assert(words(list@).take(i as int) =~= words(list@));
    r
}

fn copy_word(w: &Vec<char>) -> (r: Vec<char>)
    ensures
        r@ == w@,
{
    let mut r: Vec<char> = Vec::new();
    let mut i: usize = 0;
    while i < w.len()
        invariant
            i <= w@.len(),
            r@ == w@.take(i as int),
        decreases w@.len() - i,
    {
        r.push(w[i]);
        assert(r@ =~= w@.take(i + 1));
        i = i + 1;
    }
    assert(w@.take(i as int) =~= w@);
    r
}

fn parts(path: &String) -> (r: PathParts)
    ensures
        r@ == path_key(path@),
{
    let text: Vec<char> = chars_of(path.as_str());
    let rooted: bool = text.len() > 0 && text[0] == '/';
    let list: Vec<Vec<char>> = split(&text);
    proof {
        lemma_segments_some(path@);
        assert(words(list@).len() == list@.len());
        assert(words(list@)[0] == list@[0]@);
    }
    let dotted: bool = is_dot(&list[0]);
    PathParts { rooted, dotted, names: keep_names(list) }
}

/// A path has a first segment.
proof fn lemma_segments_some(path: Seq<char>)
    ensures
        segments(path).len() > 0,
    decreases path.len(),
{
    if path.len() > 0 {
        lemma_segments_some(path.drop_last());
    }
}

fn same_word(a: &Vec<char>, b: &Vec<char>) -> (r: bool)
    ensures
        r == (a@ == b@),
{
    if a.len() != b.len() {
        return false;
    }
    let mut i: usize = 0;
    while i < a.len()
        invariant
            i <= a@.len(),
            a@.len() == b@.len(),
            forall|k: int| 0 <= k < i ==> a@[k] == b@[k],
        decreases a@.len() - i,
    {
        if a[i] != b[i] {
            return false;
        }
        i = i + 1;
    }
    assert(a@ =~= b@);
    true
}

/// Whether two paths mean the same.
pub fn same_path(a: &String, b: &String) -> (r: bool)
    ensures
        r == (path_key(a@) == path_key(b@)),
{
    let x: PathParts = parts(a);
    let y: PathParts = parts(b);
    if x.rooted != y.rooted || x.dotted != y.dotted || x.names.len() != y.names.len() {
        assert(words(x.names@).len() == x.names@.len() && words(y.names@).len() == y.names@.len());
        return false;
    }
    let mut i: usize = 0;
    while i < x.names.len()
        invariant
            i <= x.names@.len(),
            x.names@.len() == y.names@.len(),
            x@ == path_key(a@),
            y@ == path_key(b@),
            forall|k: int| 0 <= k < i ==> (#[trigger] x.names@[k])@ == y.names@[k]@,
        decreases x.names@.len() - i,
    {
        if !same_word(&x.names[i], &y.names[i]) {
            assert(words(x.names@)[i as int] != words(y.names@)[i as int]);
            return false;
        }
        i = i + 1;
    }
    assert(words(x.names@) =~= words(y.names@));
    true
}

/// The segments of two paths with a separator between them are those of the one and then those of the other.
proof fn lemma_segments_joined(a: Seq<char>, b: Seq<char>)
    ensures
        segments(a.push('/') + b) == segments(a) + segments(b),
    decreases b.len(),
{
    let whole = a.push('/') + b;
    if b.len() == 0 {
        assert(whole =~= a.push('/'));
        assert(whole.drop_last() =~= a);
        assert(segments(a) + segments(b) =~= segments(a).push(Seq::empty()));
    } else {
        let front = b.drop_last();
        lemma_segments_joined(a, front);
        lemma_segments_some(front);
        assert(whole.drop_last() =~= a.push('/') + front);
        let (s, t) = (segments(a), segments(front));
        if b.last() == '/' {
            assert((s + t).push(Seq::empty()) =~= s + t.push(Seq::empty()));
        } else {
            assert((s + t).last() == t.last());
            assert((s + t).drop_last().push(t.last().push(b.last())) =~= s + t.drop_last().push(t.last().push(b.last())));
        }
    }
}

/// Those segments of two lists that lead on are those of the one and then those of the other.
proof fn lemma_names_joined(a: Seq<Seq<char>>, b: Seq<Seq<char>>)
    ensures
        names(a + b) == names(a) + names(b),
    decreases b.len(),
{
    if b.len() == 0 {
        assert(a + b =~= a);
        assert(names(a) + names(b) =~= names(a));
    } else {
        lemma_names_joined(a, b.drop_last());
        assert((a + b).drop_last() =~= a + b.drop_last());
        assert((a + b).last() == b.last());
        assert((names(a) + names(b.drop_last())).push(b.last()) =~= names(a) + names(b.drop_last()).push(b.last()));
    }
}

/// The spelling of a path does not matter: a separator can be repeated or stand at the end, and a lone dot can stand
/// behind a separator.
pub proof fn law_spelling_does_not_matter(a: Seq<char>, b: Seq<char>)
    requires
        a.len() > 0,
    ensures
        path_key(a + seq!['/', '/'] + b) == path_key(a + seq!['/'] + b),
        path_key(a + seq!['/', '.', '/'] + b) == path_key(a + seq!['/'] + b),
        path_key(a + seq!['/']) == path_key(a),
        path_key(a + seq!['/', '.']) == path_key(a),
{
    let none = Seq::<char>::empty();
    let dot = seq!['.'];
    lemma_segments_some(a);
    assert(segments(none) =~= seq![none]);
    assert(dot.drop_last() =~= none);
    assert(segments(dot) =~= seq![dot]);
    assert(seq![none].drop_last() =~= Seq::empty() && seq![dot].drop_last() =~= Seq::empty());
    reveal_with_fuel(names, 2);
    assert(names(seq![none]) =~= Seq::empty() && names(seq![dot]) =~= Seq::empty());
    let s = segments(a);
    let t = segments(b);
    assert(a + seq!['/', '/'] + b =~= a.push('/') + (none.push('/') + b));
    assert(a + seq!['/', '.', '/'] + b =~= a.push('/') + (dot.push('/') + b));
    assert(a + seq!['/'] + b =~= a.push('/') + b);
    assert(a + seq!['/'] =~= a.push('/') + none);
    assert(a + seq!['/', '.'] =~= a.push('/') + dot);
    lemma_segments_joined(none, b);
    lemma_segments_joined(dot, b);
    lemma_segments_joined(a, none.push('/') + b);
    lemma_segments_joined(a, dot.push('/') + b);
    lemma_segments_joined(a, b);
    lemma_segments_joined(a, none);
    lemma_segments_joined(a, dot);
    lemma_names_joined(seq![none], t);
    lemma_names_joined(seq![dot], t);
    lemma_names_joined(s, seq![none] + t);
    lemma_names_joined(s, seq![dot] + t);
    lemma_names_joined(s, t);
    lemma_names_joined(s, seq![none]);
    lemma_names_joined(s, seq![dot]);
    assert(Seq::<Seq<char>>::empty() + names(t) =~= names(t));
    assert(names(s) + Seq::<Seq<char>>::empty() =~= names(s));
}

/// The names on a path, from its first segment on: an empty segment and a lone dot name nothing, and any other names
/// itself, two dots too. A path is rooted where it begins with a separator, and dotted where its first segment is a lone
/// dot.
pub proof fn law_names_on_a_path(first: Seq<char>, rest: Seq<char>)
    requires
        forall|i: int| 0 <= i < first.len() ==> #[trigger] first[i] != '/',
    ensures
        first.len() == 0 || first == seq!['.'] ==> {
            &&& path_key(first + seq!['/'] + rest).names == path_key(rest).names
            &&& path_key(first).names.len() == 0
        },
        first.len() > 0 && first != seq!['.'] ==> {
            &&& path_key(first + seq!['/'] + rest).names == seq![first] + path_key(rest).names
            &&& path_key(first).names == seq![first]
        },
        path_key(first + seq!['/'] + rest).rooted <==> first.len() == 0,
        !path_key(first).rooted,
        path_key(first + seq!['/'] + rest).dotted <==> first == seq!['.'],
        path_key(first).dotted <==> first == seq!['.'],
{
    let whole = first + seq!['/'] + rest;
    assert(whole =~= first.push('/') + rest);
    lemma_one_segment(first);
    lemma_segments_joined(first, rest);
    lemma_names_joined(seq![first], segments(rest));
    assert(seq![first].drop_last() =~= Seq::empty());
    reveal_with_fuel(names, 2);
    assert(segments(whole)[0] == first);
    if first.len() == 0 || first == seq!['.'] {
        assert(names(seq![first]) =~= Seq::empty());
        assert(Seq::<Seq<char>>::empty() + names(segments(rest)) =~= names(segments(rest)));
    } else {
        assert(names(seq![first]) =~= seq![first]);
    }
    if first.len() == 0 {
        assert(whole[0] == '/');
    } else {
        assert(whole[0] == first[0]);
    }
}

proof fn lemma_one_segment(word: Seq<char>)
    requires
        forall|i: int| 0 <= i < word.len() ==> #[trigger] word[i] != '/',
    ensures
        segments(word) == seq![word],
    decreases word.len(),
{
    if word.len() > 0 {
        let front = word.drop_last();
        assert forall|i: int| 0 <= i < front.len() implies #[trigger] front[i] != '/' by {
            assert(front[i] == word[i]);
        }
        lemma_one_segment(front);
        assert(word.last() == word[word.len() - 1]);
        assert(front.push(word.last()) =~= word);
        assert(segments(word) =~= seq![word]);
    } else {
        assert(word =~= Seq::empty());
    }
}

} // verus!
