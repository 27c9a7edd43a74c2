//! Paths as texts with `/` between their parts.

use crate::text;
use crate::text::{
    cat2, cat3, char_count, has_prefix, has_suffix, join_strings, owned, push_text, same,
    split_by_char,
};
use vstd::prelude::*;

verus! {

/// A path from the root on.
pub open spec fn absolute(s: Seq<char>) -> bool {
    text::starts_with(s, "/"@)
}

pub fn is_absolute(path: &str) -> (r: bool)
    ensures
        r == absolute(path@),
{
    has_prefix(path, "/")
}

/// A path below another one. An absolute path stays as it is.
pub open spec fn joined(base: Seq<char>, path: Seq<char>) -> Seq<char> {
    if absolute(path) {
        path
    } else if base.len() == 0 || text::ends_with(base, "/"@) {
        base + path
    } else {
        base + "/"@ + path
    }
}

pub fn join_path(base: &str, path: &str) -> (r: String)
    ensures
        r@ == joined(base@, path@),
{
    if is_absolute(path) {
        owned(path)
    } else if char_count(base) == 0 || has_suffix(base, "/") {
        cat2(base, path)
    } else {
        cat3(base, "/", path)
    }
}

/// The parts of a path after `.` and `..` are worked off; none where `..` leads above the
/// root.
pub open spec fn normal_parts(parts: Seq<Seq<char>>) -> Option<Seq<Seq<char>>>
    decreases parts.len(),
{
    if parts.len() == 0 {
        Some(Seq::empty())
    } else {
        match normal_parts(parts.drop_last()) {
            None => None,
            Some(done) => {
                let p = parts.last();
                if p.len() == 0 || p == "."@ {
                    Some(done)
                } else if p == ".."@ {
                    if done.len() == 0 {
                        None
                    } else {
                        Some(done.drop_last())
                    }
                } else {
                    Some(done.push(p))
                }
            },
        }
    }
}

/// A part that names a file or a directory.
pub open spec fn name_part(p: Seq<char>) -> bool {
    p.len() > 0 && p != "."@ && p != ".."@ && !p.contains('/')
}

/// The path of these parts.
pub open spec fn rooted(parts: Seq<Seq<char>>) -> Seq<char> {
    "/"@ + text::join(parts, "/"@)
}

/// The normal form of an absolute path.
pub open spec fn normal_path(path: Seq<char>) -> Option<Seq<char>> {
    match normal_parts(text::split_char(path, '/')) {
        Some(parts) => Some(rooted(parts)),
        None => None,
    }
}

proof fn lemma_split_has_no_separator(s: Seq<char>, c: char)
    ensures
        forall|i: int| 0 <= i < text::split_char(s, c).len() ==> !(#[trigger] text::split_char(s, c)[i]).contains(c),
    decreases s.len(),
{
    text::lemma_split_char_nonempty(s, c);
    if s.len() > 0 {
        let before = text::split_char(s.drop_last(), c);
        lemma_split_has_no_separator(s.drop_last(), c);
        text::lemma_split_char_nonempty(s.drop_last(), c);
        let after = text::split_char(s, c);
        assert forall|i: int| 0 <= i < after.len() implies !(#[trigger] after[i]).contains(c) by {
            if i < before.len() - 1 {
                assert(after[i] == before[i]);
            } else if i == before.len() - 1 {
                if s.last() == c {
                    assert(after[i] == before[i]);
                } else {
                    assert(after[i] == before[i].push(s.last()));
                    if after[i].contains(c) {
                        let k = choose|k: int| 0 <= k < after[i].len() && after[i][k] == c;
                        assert(k < before[i].len());
                        assert(before[i][k] == c);
                        assert(before[i].contains(c));
                    }
                }
            } else {
                assert(after[i].len() == 0);
            }
        }
    } else {
        let one = text::split_char(s, c);
        assert forall|i: int| 0 <= i < one.len() implies !(#[trigger] one[i]).contains(c) by {
            assert(one[i].len() == 0);
        }
    }
}

/// What is left of the parts of a path are names.
pub proof fn lemma_normal_parts_are_names(parts: Seq<Seq<char>>)
    requires
        forall|i: int| 0 <= i < parts.len() ==> !(#[trigger] parts[i]).contains('/'),
    ensures
        normal_parts(parts) matches Some(done) ==> forall|i: int|
            0 <= i < done.len() ==> name_part(#[trigger] done[i]),
    decreases parts.len(),
{
    if parts.len() > 0 {
        let t = parts.drop_last();
        assert forall|i: int| 0 <= i < t.len() implies !(#[trigger] t[i]).contains('/') by {
            assert(t[i] == parts[i]);
        }
        lemma_normal_parts_are_names(t);
        assert(parts.last() == parts[parts.len() - 1]);
    }
}

/// The parts of a normal path: the names that it is made of.
pub fn path_parts(path: &str) -> (r: Option<Vec<String>>)
    ensures
        match r {
            Some(v) => normal_parts(text::split_char(path@, '/')) == Some(text::texts(v@)),
            None => normal_parts(text::split_char(path@, '/')) is None,
        },
{
    let raw = split_by_char(path, '/');
    let ghost all = text::split_char(path@, '/');
    let mut out: Vec<String> = Vec::new();
    let mut i: usize = 0;
    proof {
        assert(all.take(0) =~= Seq::empty());
        assert(text::texts(out@) =~= Seq::<Seq<char>>::empty());
    }
    while i < raw.len()
        invariant
            i <= raw@.len(),
            text::texts(raw@) == all,
            all == text::split_char(path@, '/'),
            normal_parts(all.take(i as int)) == Some(text::texts(out@)),
        decreases raw.len() - i,
    {
        proof {
            assert(text::texts(raw@).len() == raw@.len());
            assert(all[i as int] == raw@[i as int]@);
            assert(all.take(i + 1).drop_last() =~= all.take(i as int));
            assert(text::texts(out@).len() == out@.len());
        }
        let p = raw[i].as_str();
        if char_count(p) == 0 || same(p, ".") {
        } else if same(p, "..") {
            if out.len() == 0 {
                proof {
                    assert(normal_parts(all.take(i + 1)) is None);
                    lemma_normal_parts_stay_none(all, i + 1);
                }
                return None;
            }
            let ghost before = out@;
            let _ = out.pop();
            proof {
                assert(text::texts(out@) =~= text::texts(before).drop_last());
            }
        } else {
            push_text(&mut out, p);
        }
        i = i + 1;
    }
    proof {
        assert(text::texts(raw@).len() == raw@.len());
        assert(all.take(i as int) =~= all);
    }
    Some(out)
}

proof fn lemma_normal_parts_stay_none(parts: Seq<Seq<char>>, k: int)
    requires
        0 <= k <= parts.len(),
        normal_parts(parts.take(k)) is None,
    ensures
        normal_parts(parts) is None,
    decreases parts.len() - k,
{
    if k == parts.len() {
        assert(parts.take(k) =~= parts);
    } else {
        assert(parts.take(k + 1).drop_last() =~= parts.take(k));
        lemma_normal_parts_stay_none(parts, k + 1);
    }
}

/// Why a path cannot be brought to its normal form.
pub open spec fn normal_error(path: Seq<char>) -> Option<Seq<char>> {
    if !absolute(path) {
        Some("只允许绝对路径: "@ + path)
    } else if normal_path(path) is None {
        Some("非法路径: "@ + path)
    } else {
        None
    }
}

/// Works off `.` and `..` in an absolute path.
pub fn normalize_absolute(path: &str) -> (r: Result<String, String>)
    ensures
        match r {
            Ok(p) => normal_error(path@) is None && normal_path(path@) == Some(p@),
            Err(e) => normal_error(path@) == Some(e@),
        },
{
    if !is_absolute(path) {
        return Err(cat2("只允许绝对路径: ", path));
    }
    match path_parts(path) {
        Some(parts) => {
            let all = join_strings(parts.as_slice(), "/");
            Ok(cat2("/", all.as_str()))
        },
        None => Err(cat2("非法路径: ", path)),
    }
}

/// One path lies in the directory of another one.
pub open spec fn parts_within(parts: Seq<Seq<char>>, root: Seq<Seq<char>>) -> bool {
    root.len() <= parts.len() && parts.take(root.len() as int) == root
}

pub fn is_within(parts: &Vec<String>, root: &Vec<String>) -> (r: bool)
    ensures
        r == parts_within(text::texts(parts@), text::texts(root@)),
{
    proof {
        assert(text::texts(parts@).len() == parts@.len());
        assert(text::texts(root@).len() == root@.len());
    }
    if root.len() > parts.len() {
        return false;
    }
    let mut i: usize = 0;
    while i < root.len()
        invariant
            i <= root@.len() <= parts@.len(),
            forall|k: int| 0 <= k < i ==> (#[trigger] parts@[k])@ == root@[k]@,
        decreases root.len() - i,
    {
        if !same(parts[i].as_str(), root[i].as_str()) {
            proof {
                assert(text::texts(parts@).take(root@.len() as int)[i as int] != text::texts(root@)[i as int]);
            }
            return false;
        }
        i = i + 1;
    }
    proof {
        assert(text::texts(parts@).take(root@.len() as int) =~= text::texts(root@));
    }
    true
}

proof fn lemma_split_join(parts: Seq<Seq<char>>)
    requires
        parts.len() > 0,
        forall|i: int| 0 <= i < parts.len() ==> !(#[trigger] parts[i]).contains('/'),
    ensures
        text::split_char(text::join(parts, "/"@), '/') == parts,
    decreases parts.len(),
{
    reveal_strlit("/");
    let last = parts.last();
    assert(!parts[parts.len() - 1].contains('/'));
    if parts.len() == 1 {
        lemma_split_single(last);
        assert(text::join(parts, "/"@) =~= last) by {
            assert(parts =~= seq![last]);
        }
        assert(parts =~= seq![last]);
    } else {
        let t = parts.drop_last();
        assert forall|i: int| 0 <= i < t.len() implies !(#[trigger] t[i]).contains('/') by {
            assert(t[i] == parts[i]);
        }
        lemma_split_join(t);
        lemma_split_append(text::join(t, "/"@), last);
        assert(text::join(parts, "/"@) =~= text::join(t, "/"@).push('/') + last);
        assert(t.push(last) =~= parts);
    }
}

proof fn lemma_split_single(s: Seq<char>)
    requires
        !s.contains('/'),
    ensures
        text::split_char(s, '/') == seq![s],
    decreases s.len(),
{
    if s.len() > 0 {
        let t = s.drop_last();
        assert(!t.contains('/')) by {
            if t.contains('/') {
                let k = choose|k: int| 0 <= k < t.len() && t[k] == '/';
                assert(s[k] == '/');
            }
        }
        lemma_split_single(t);
        assert(s.contains(s.last())) by {
            assert(s[s.len() - 1] == s.last());
        }
        assert(t.push(s.last()) =~= s);
        assert(text::split_char(s, '/') =~= seq![s]);
    } else {
        assert(s =~= Seq::<char>::empty());
        assert(text::split_char(s, '/') =~= seq![s]);
    }
}

proof fn lemma_split_append(a: Seq<char>, b: Seq<char>)
    requires
        !b.contains('/'),
    ensures
        text::split_char(a.push('/') + b, '/') == text::split_char(a, '/').push(b),
    decreases b.len(),
{
    let s = a.push('/') + b;
    text::lemma_split_char_nonempty(a, '/');
    if b.len() == 0 {
        assert(s =~= a.push('/'));
        assert(s.drop_last() =~= a);
        assert(b =~= Seq::<char>::empty());
    } else {
        let t = b.drop_last();
        assert(!t.contains('/')) by {
            if t.contains('/') {
                let k = choose|k: int| 0 <= k < t.len() && t[k] == '/';
                assert(b[k] == '/');
            }
        }
        lemma_split_append(a, t);
        assert(s.drop_last() =~= a.push('/') + t);
        assert(b.contains(b.last())) by {
            assert(b[b.len() - 1] == b.last());
        }
        assert(s.last() == b.last());
        assert(t.push(b.last()) =~= b);
        let before = text::split_char(a, '/').push(t);
        assert(text::split_char(s, '/') =~= text::split_char(a, '/').push(b));
    }
}

proof fn lemma_names_are_normal(parts: Seq<Seq<char>>)
    requires
        forall|i: int| 0 <= i < parts.len() ==> name_part(#[trigger] parts[i]),
    ensures
        normal_parts(parts) == Some(parts),
    decreases parts.len(),
{
    if parts.len() > 0 {
        let t = parts.drop_last();
        assert forall|i: int| 0 <= i < t.len() implies name_part(#[trigger] t[i]) by {
            assert(t[i] == parts[i]);
        }
        lemma_names_are_normal(t);
        assert(name_part(parts[parts.len() - 1]));
        assert(t.push(parts.last()) =~= parts);
    } else {
        assert(parts =~= Seq::<Seq<char>>::empty());
    }
}

proof fn lemma_normal_skips_empty_start(parts: Seq<Seq<char>>)
    requires
        parts.len() > 0,
        parts[0].len() == 0,
    ensures
        normal_parts(parts) == normal_parts(parts.drop_first()),
    decreases parts.len(),
{
    if parts.len() == 1 {
        assert(parts.drop_last() =~= Seq::<Seq<char>>::empty());
        assert(parts.drop_first() =~= Seq::<Seq<char>>::empty());
    } else {
        lemma_normal_skips_empty_start(parts.drop_last());
        assert(parts.drop_last().drop_first() =~= parts.drop_first().drop_last());
        assert(parts.drop_first().last() == parts.last());
    }
}

proof fn lemma_split_leading(s: Seq<char>)
    ensures
        text::split_char("/"@ + s, '/') == seq![Seq::<char>::empty()] + text::split_char(s, '/'),
    decreases s.len(),
{
    reveal_strlit("/");
    let whole = "/"@ + s;
    text::lemma_split_char_nonempty(s, '/');
    if s.len() == 0 {
        assert(whole.drop_last() =~= Seq::<char>::empty());
        assert(text::split_char(Seq::<char>::empty(), '/') =~= seq![Seq::<char>::empty()]);
        assert(s =~= Seq::<char>::empty());
        assert(text::split_char(whole, '/') =~= seq![Seq::<char>::empty()] + text::split_char(s, '/'));
    } else {
        let t = s.drop_last();
        lemma_split_leading(t);
        text::lemma_split_char_nonempty(t, '/');
        assert(whole.drop_last() =~= "/"@ + t);
        assert(whole.last() == s.last());
        assert(text::split_char(whole, '/') =~= seq![Seq::<char>::empty()] + text::split_char(s, '/'));
    }
}

/// The parts of a path that is made of names are these names.
pub proof fn lemma_rooted_parts(parts: Seq<Seq<char>>)
    requires
        forall|i: int| 0 <= i < parts.len() ==> name_part(#[trigger] parts[i]),
    ensures
        normal_parts(text::split_char(rooted(parts), '/')) == Some(parts),
{
    assert forall|i: int| 0 <= i < parts.len() implies !(#[trigger] parts[i]).contains('/') by {
        assert(name_part(parts[i]));
    }
    let s = text::join(parts, "/"@);
    lemma_split_leading(s);
    let all = text::split_char(rooted(parts), '/');
    lemma_normal_skips_empty_start(all);
    assert(all.drop_first() =~= text::split_char(s, '/'));
    if parts.len() == 0 {
        assert(s =~= Seq::<char>::empty());
        let one = text::split_char(s, '/');
        assert(one =~= seq![Seq::<char>::empty()]);
        assert(one.drop_last() =~= Seq::<Seq<char>>::empty());
        assert(one.last().len() == 0);
        assert(parts =~= Seq::<Seq<char>>::empty());
        assert(normal_parts(one.drop_last()) == Some(parts));
        assert(normal_parts(one) == Some(parts));
        assert(all.drop_first() == one);
    } else {
        lemma_split_join(parts);
        lemma_names_are_normal(parts);
    }
}

/// A path in its normal form stays as it is.
pub proof fn lemma_normal_path_idempotent(path: Seq<char>)
    requires
        normal_path(path) is Some,
    ensures
        normal_path(normal_path(path)->0) == normal_path(path),
{
    let parts = normal_parts(text::split_char(path, '/'))->0;
    lemma_split_has_no_separator(path, '/');
    lemma_normal_parts_are_names(text::split_char(path, '/'));
    lemma_rooted_parts(parts);
}

/// The names of a path are names.
pub proof fn lemma_path_names(path: Seq<char>)
    ensures
        normal_parts(text::split_char(path, '/')) matches Some(done) ==> forall|i: int|
            0 <= i < done.len() ==> name_part(#[trigger] done[i]),
{
    lemma_split_has_no_separator(path, '/');
    lemma_normal_parts_are_names(text::split_char(path, '/'));
}

// ---------------------------------------------------------------------------
// Steps
// ---------------------------------------------------------------------------

pub open spec fn is_step(p: Seq<char>) -> bool {
    p.len() > 0 && p != "."@
}

/// The names on the way of a path: separators that are repeated or come last, and `.`, name
/// nothing.
pub open spec fn path_steps(s: Seq<char>) -> Seq<Seq<char>> {
    text::split_char(s, '/').filter(|p: Seq<char>| is_step(p))
}

proof fn lemma_split_concat(a: Seq<char>, b: Seq<char>, c: char)
    ensures
        text::split_char(a + seq![c] + b, c) == text::split_char(a, c) + text::split_char(b, c),
    decreases b.len(),
{
    text::lemma_split_char_nonempty(a, c);
    text::lemma_split_char_nonempty(b, c);
    let whole = a + seq![c] + b;
    if b.len() == 0 {
        assert(whole.drop_last() =~= a);
        assert(text::split_char(b, c) =~= seq![Seq::<char>::empty()]);
        assert(text::split_char(whole, c) =~= text::split_char(a, c) + text::split_char(b, c));
    } else {
        let init = b.drop_last();
        lemma_split_concat(a, init, c);
        text::lemma_split_char_nonempty(init, c);
        assert(whole.drop_last() =~= a + seq![c] + init);
        let x = text::split_char(a, c);
        let y = text::split_char(init, c);
        assert((x + y).last() == y.last());
        assert((x + y).drop_last() =~= x + y.drop_last());
        assert(text::split_char(whole, c) =~= x + text::split_char(b, c));
    }
}

/// An empty path has no steps.
proof fn lemma_no_steps()
    ensures
        path_steps(Seq::empty()) == Seq::<Seq<char>>::empty(),
{
    let keep = |p: Seq<char>| is_step(p);
    let nothing = text::split_char(Seq::<char>::empty(), '/');
    reveal(Seq::filter);
    assert(nothing =~= seq![Seq::<char>::empty()]);
    assert(nothing.drop_last() =~= Seq::<Seq<char>>::empty());
    assert(nothing.drop_last().filter(keep) =~= Seq::<Seq<char>>::empty());
    assert(nothing.filter(keep) =~= Seq::<Seq<char>>::empty());
}

/// A path below another one leads through the steps of both.
pub proof fn lemma_joined_steps(base: Seq<char>, path: Seq<char>)
    requires
        !absolute(path),
    ensures
        path_steps(joined(base, path)) == path_steps(base) + path_steps(path),
{
    let keep = |p: Seq<char>| is_step(p);
    reveal_strlit("/");
    assert("/"@ =~= seq!['/']);
    lemma_no_steps();
    if base.len() == 0 {
        assert(base =~= Seq::empty());
        assert(base + path =~= path);
        assert(path_steps(base) + path_steps(path) =~= path_steps(path));
    } else if text::ends_with(base, "/"@) {
        let front = base.drop_last();
        assert(base.last() == '/') by {
            assert(base.subrange(base.len() - 1, base.len() as int)[0] == '/');
        }
        assert(base =~= front + seq!['/'] + Seq::<char>::empty());
        assert(base + path =~= front + seq!['/'] + path);
        lemma_split_concat(front, Seq::empty(), '/');
        lemma_split_concat(front, path, '/');
        Seq::filter_distributes_over_add(
            text::split_char(front, '/'),
            text::split_char(Seq::<char>::empty(), '/'),
            keep,
        );
        Seq::filter_distributes_over_add(
            text::split_char(front, '/'),
            text::split_char(path, '/'),
            keep,
        );
        assert(path_steps(base) =~= text::split_char(front, '/').filter(keep));
    } else {
        lemma_split_concat(base, path, '/');
        Seq::filter_distributes_over_add(
            text::split_char(base, '/'),
            text::split_char(path, '/'),
            keep,
        );
    }
}

/// A name is one step.
pub proof fn lemma_name_steps(name: Seq<char>)
    requires
        is_step(name),
        !name.contains('/'),
    ensures
        path_steps(name) == seq![name],
{
    lemma_split_single(name);
    reveal(Seq::filter);
    let one = seq![name];
    let keep = |p: Seq<char>| is_step(p);
    assert(one.drop_last() =~= Seq::<Seq<char>>::empty());
    assert(one.drop_last().filter(keep) =~= Seq::<Seq<char>>::empty());
    assert(one.filter(keep) =~= one);
}

/// The current directory is no step.
pub proof fn lemma_dot_steps()
    ensures
        path_steps("."@) == Seq::<Seq<char>>::empty(),
{
    reveal_strlit(".");
    lemma_split_single("."@);
    reveal(Seq::filter);
    let one = seq!["."@];
    let keep = |p: Seq<char>| is_step(p);
    assert(one.drop_last() =~= Seq::<Seq<char>>::empty());
    assert(one.drop_last().filter(keep) =~= Seq::<Seq<char>>::empty());
    assert(one.filter(keep) =~= Seq::<Seq<char>>::empty());
}

// ---------------------------------------------------------------------------
// Laws
// ---------------------------------------------------------------------------

/// A path below another one is that one, one separator and the path; an absolute path stays
/// as it is.
pub proof fn lemma_joined(base: Seq<char>, path: Seq<char>)
    ensures
        absolute(path) ==> joined(base, path) == path,
        !absolute(path) && base.len() > 0 && base.last() != '/' ==> joined(base, path) == base
            + seq!['/'] + path,
        !absolute(path) && base.len() > 0 && base.last() == '/' ==> joined(base, path) == base
            + path,
        absolute(path) == (path.len() > 0 && path[0] == '/'),
{
    reveal_strlit("/");
    assert("/"@ =~= seq!['/']);
    text::lemma_occurs_char(path, '/', 0);
    text::lemma_occurs_char(base, '/', base.len() - 1);
}

/// A step up takes back the name before it, wherever the two stand in a path.
pub proof fn lemma_step_up(a: Seq<Seq<char>>, name: Seq<char>, b: Seq<Seq<char>>)
    requires
        name_part(name),
    ensures
        normal_parts(a + seq![name] + seq![".."@] + b) == normal_parts(a + b),
    decreases b.len(),
{
    let all = a + seq![name] + seq![".."@] + b;
    if b.len() == 0 {
        let x = a + seq![name] + seq![".."@];
        assert(all =~= x);
        assert(x.drop_last() =~= a + seq![name]);
        assert((a + seq![name]).drop_last() =~= a);
        assert((a + seq![name]).last() == name);
        assert(x.last() == ".."@);
        assert(a + b =~= a);
        reveal_strlit("..");
        reveal_strlit(".");
        assert(".."@.len() == 2 && "."@.len() == 1);
        match normal_parts(a) {
            Some(done) => {
                assert(normal_parts(a + seq![name]) == Some(done.push(name)));
                assert(done.push(name).drop_last() =~= done);
            },
            None => {},
        }
    } else {
        assert(all.drop_last() =~= a + seq![name] + seq![".."@] + b.drop_last());
        assert(all.last() == b.last());
        assert((a + b).drop_last() =~= a + b.drop_last());
        assert((a + b).last() == b.last());
        lemma_step_up(a, name, b.drop_last());
    }
}

/// A step up from the root leads nowhere.
pub proof fn lemma_no_step_above_the_root(b: Seq<Seq<char>>)
    ensures
        normal_parts(seq![".."@] + b) is None,
    decreases b.len(),
{
    let all = seq![".."@] + b;
    reveal_strlit("..");
    reveal_strlit(".");
    if b.len() == 0 {
        assert(all.drop_last() =~= Seq::<Seq<char>>::empty());
        assert(all.last() == ".."@);
        assert(".."@.len() == 2 && "."@.len() == 1);
        assert(normal_parts(Seq::<Seq<char>>::empty()) == Some(Seq::<Seq<char>>::empty()));
    } else {
        assert(all.drop_last() =~= seq![".."@] + b.drop_last());
        lemma_no_step_above_the_root(b.drop_last());
    }
}

} // verus!
