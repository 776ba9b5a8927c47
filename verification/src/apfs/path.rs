//! Slash-separated paths.

use crate::apfs::text::{msg_str, text_str};
use vstd::prelude::*;

verus! {

/// `p` without the slashes in front.
pub open spec fn trim_start(p: Seq<char>) -> Seq<char>
    decreases p.len(),
{
    if p.len() > 0 && p[0] == '/' { trim_start(p.subrange(1, p.len() as int)) } else { p }
}

/// `p` without the slashes at the end.
pub open spec fn trim_end(p: Seq<char>) -> Seq<char>
    decreases p.len(),
{
    if p.len() > 0 && p.last() == '/' { trim_end(p.drop_last()) } else { p }
}

/// `p` without the slashes at both ends.
pub open spec fn trimmed(p: Seq<char>) -> Seq<char> {
    trim_end(trim_start(p))
}

/// The position of the last slash before `n`, or -1.
pub open spec fn last_slash(p: Seq<char>, n: int) -> int
    decreases n,
{
    if n <= 0 {
        -1
    } else if p[n - 1] == '/' {
        n - 1
    } else {
        last_slash(p, n - 1)
    }
}

/// What stands before the last slash; nothing if there is none.
pub open spec fn parent_part(p: Seq<char>) -> Seq<char> {
    let i = last_slash(p, p.len() as int);
    if i < 0 { Seq::empty() } else { p.subrange(0, i) }
}

/// What follows the last slash; everything if there is none.
pub open spec fn base_part(p: Seq<char>) -> Seq<char> {
    p.subrange(last_slash(p, p.len() as int) + 1, p.len() as int)
}

/// The absolute path of a parent.
pub open spec fn parent_path(parent: Seq<char>) -> Seq<char> {
    if parent.len() == 0 { "/"@ } else { msg_str("/"@, parent, ""@) }
}

/// The position of the first slash from `i` on, or the length.
pub open spec fn next_slash(p: Seq<char>, i: int) -> int
    decreases p.len() - i,
{
    if i >= p.len() || i < 0 {
        p.len() as int
    } else if p[i] == '/' {
        i
    } else {
        next_slash(p, i + 1)
    }
}

/// The names between the slashes of `p` from position `i` on, without the
/// empty ones.
pub open spec fn components_from(p: Seq<char>, i: int) -> Seq<Seq<char>>
    decreases p.len() - i,
{
    if i >= p.len() || i < 0 {
        Seq::empty()
    } else if p[i] == '/' {
        components_from(p, i + 1)
    } else {
        proof {
            lemma_next_slash(p, i);
        }
        seq![p.subrange(i, next_slash(p, i))] + components_from(p, next_slash(p, i))
    }
}

/// The names between the slashes of `p`, without the empty ones.
pub open spec fn components(p: Seq<char>) -> Seq<Seq<char>> {
    components_from(p, 0)
}

/// The first `n` names with slashes between them.
pub open spec fn joined(names: Seq<Seq<char>>, n: int) -> Seq<char>
    decreases n,
{
    if n <= 0 {
        Seq::empty()
    } else if n == 1 {
        names[0]
    } else {
        msg_str(joined(names, n - 1), "/"@, names[n - 1])
    }
}

/// Names, taken by view.
pub open spec fn names_view(s: Seq<String>) -> Seq<Seq<char>> {
    s.map_values(|x: String| x@)
}

/// Where the next slash can stand.
pub proof fn lemma_next_slash(p: Seq<char>, i: int)
    requires
        0 <= i <= p.len(),
    ensures
        i <= next_slash(p, i) <= p.len(),
        i < p.len() && p[i] != '/' ==> next_slash(p, i) > i,
    decreases p.len() - i,
{
    if i < p.len() && p[i] != '/' {
        lemma_next_slash(p, i + 1);
    }
}

proof fn lemma_last_slash(p: Seq<char>, n: int)
    requires
        0 <= n <= p.len(),
    ensures
        -1 <= last_slash(p, n) < n || (n == 0 && last_slash(p, n) == -1),
        last_slash(p, n) >= 0 ==> p[last_slash(p, n)] == '/',
        forall|k: int| last_slash(p, n) < k < n ==> p[k] != '/',
    decreases n,
{
    if n > 0 && p[n - 1] != '/' {
        lemma_last_slash(p, n - 1);
    }
}

proof fn lemma_trim_start(p: Seq<char>, i: int)
    requires
        0 <= i <= p.len(),
        forall|k: int| 0 <= k < i ==> p[k] == '/',
    ensures
        trim_start(p) == trim_start(p.subrange(i, p.len() as int)),
    decreases i,
{
    if i > 0 {
        let q = p.subrange(1, p.len() as int);
        assert forall|k: int| 0 <= k < i - 1 implies q[k] == '/' by {
            assert(q[k] == p[k + 1]);
        }
        lemma_trim_start(q, i - 1);
        assert(q.subrange(i - 1, q.len() as int) =~= p.subrange(i, p.len() as int));
    } else {
        assert(p.subrange(0, p.len() as int) =~= p);
    }
}

fn first_name(p: &str) -> (i: usize)
    ensures
        i <= p@.len(),
        p@.subrange(i as int, p@.len() as int) == trim_start(p@),
{
    let n: usize = p.unicode_len();
    let mut i: usize = 0;
    while i < n && p.get_char(i) == '/'
        invariant
            i <= n,
            n == p@.len(),
            forall|k: int| 0 <= k < i ==> p@[k] == '/',
        decreases n - i,
    {
        i += 1;
    }
    proof {
        lemma_trim_start(p@, i as int);
    }
    i
}

fn end_of_names(p: &str) -> (n: usize)
    ensures
        n <= p@.len(),
        p@.subrange(0, n as int) == trim_end(p@),
{
    let mut n: usize = p.unicode_len();
    assert(p@.subrange(0, n as int) =~= p@);
    while n > 0 && p.get_char(n - 1) == '/'
        invariant
            n <= p@.len(),
            trim_end(p@.subrange(0, n as int)) == trim_end(p@),
        decreases n,
    {
        assert(p@.subrange(0, n as int).drop_last() =~= p@.subrange(0, n - 1));
        n -= 1;
    }
    n
}

/// `p` without the slashes at the end.
pub fn trim_slashes_end<'a>(p: &'a str) -> (t: &'a str)
    ensures
        t@ == trim_end(p@),
{
    let n: usize = end_of_names(p);
    p.substring_char(0, n)
}

/// `p` without the slashes at both ends.
pub fn trim_slashes<'a>(p: &'a str) -> (t: &'a str)
    ensures
        t@ == trimmed(p@),
{
    let i: usize = first_name(p);
    let rest = p.substring_char(i, p.unicode_len());
    trim_slashes_end(rest)
}

/// What stands before and after the last slash.
pub fn split_last<'a>(p: &'a str) -> (r: (&'a str, &'a str))
    ensures
        r.0@ == parent_part(p@),
        r.1@ == base_part(p@),
{
    let n: usize = p.unicode_len();
    let mut i: usize = n;
    proof {
        lemma_last_slash(p@, n as int);
    }
    while i > 0 && p.get_char(i - 1) != '/'
        invariant
            i <= n,
            n == p@.len(),
            last_slash(p@, n as int) == last_slash(p@, i as int),
        decreases i,
    {
        i -= 1;
    }
    if i == 0 {
        let parent = p.substring_char(0, 0);
        assert(parent@ =~= Seq::empty());
        (parent, p.substring_char(0, n))
    } else {
        (p.substring_char(0, i - 1), p.substring_char(i, n))
    }
}

/// The absolute path of a parent.
pub fn parent_path_of(parent: &str) -> (s: String)
    ensures
        s@ == parent_path(parent@),
{
    if parent.unicode_len() == 0 {
        "/".to_string()
    } else {
        text_str("/", parent, "")
    }
}

/// The names between the slashes of `p`, without the empty ones.
pub fn split_names(p: &str) -> (v: Vec<String>)
    ensures
        names_view(v@) == components(p@),
{
    let n: usize = p.unicode_len();
    let mut v: Vec<String> = Vec::new();
    let mut i: usize = 0;
    assert(names_view(v@) + components_from(p@, 0) =~= components(p@));
    while i < n
        invariant
            i <= n,
            n == p@.len(),
            names_view(v@) + components_from(p@, i as int) == components(p@),
        decreases n - i,
    {
        if p.get_char(i) == '/' {
            i += 1;
        } else {
            let mut j: usize = i;
            while j < n && p.get_char(j) != '/'
                invariant
                    i <= j <= n,
                    n == p@.len(),
                    next_slash(p@, i as int) == next_slash(p@, j as int),
                decreases n - j,
            {
                j += 1;
            }
            proof {
                lemma_next_slash(p@, i as int);
            }
            let name = p.substring_char(i, j).to_string();
            let ghost before = names_view(v@);
            v.push(name);
            proof {
                assert(names_view(v@) =~= before + seq![name@]);
                assert(before + (seq![name@] + components_from(p@, j as int)) =~= names_view(v@)
                    + components_from(p@, j as int));
            }
            i = j;
        }
    }
    assert(components_from(p@, i as int) =~= Seq::empty());
    assert(names_view(v@) + Seq::<Seq<char>>::empty() =~= names_view(v@));
    v
}

/// The first `n` names with slashes between them.
pub fn join_names(names: &Vec<String>, n: usize) -> (s: String)
    requires
        1 <= n <= names.len(),
    ensures
        s@ == joined(names_view(names@), n as int),
{
    let mut s = names[0].clone();
    let mut i: usize = 1;
    while i < n
        invariant
            1 <= i <= n <= names.len(),
            s@ == joined(names_view(names@), i as int),
        decreases n - i,
    {
        s = text_str(s.as_str(), "/", names[i].as_str());
        i += 1;
    }
    s
}

/// Slashes at the ends and doubled slashes do not matter: a path that has
/// nothing but slashes has no names.
pub proof fn law_only_slashes_have_no_names(p: Seq<char>)
    requires
        forall|k: int| 0 <= k < p.len() ==> p[k] == '/',
    ensures
        components(p) == Seq::<Seq<char>>::empty(),
        trimmed(p) == Seq::<char>::empty(),
{
    lemma_no_names(p, 0);
    lemma_trim_start(p, p.len() as int);
    assert(p.subrange(p.len() as int, p.len() as int) =~= Seq::empty());
}

proof fn lemma_no_names(p: Seq<char>, i: int)
    requires
        0 <= i <= p.len(),
        forall|k: int| i <= k < p.len() ==> p[k] == '/',
    ensures
        components_from(p, i) == Seq::<Seq<char>>::empty(),
    decreases p.len() - i,
{
    if i < p.len() {
        lemma_no_names(p, i + 1);
    }
}

proof fn lemma_slash_shift(p: Seq<char>, k: int, i: int)
    requires
        0 <= k,
        0 <= i,
        k + i <= p.len(),
    ensures
        next_slash(p, k + i) == next_slash(p.skip(k), i) + k,
    decreases p.len() - k - i,
{
    if k + i < p.len() && p[k + i] != '/' {
        lemma_slash_shift(p, k, i + 1);
    }
}

/// The names from a position on are those of the rest.
proof fn lemma_names_shift(p: Seq<char>, k: int, i: int)
    requires
        0 <= k,
        0 <= i,
        k + i <= p.len(),
    ensures
        components_from(p, k + i) == components_from(p.skip(k), i),
    decreases p.len() - k - i,
{
    let s = p.skip(k);
    if k + i < p.len() {
        if p[k + i] == '/' {
            lemma_names_shift(p, k, i + 1);
        } else {
            lemma_slash_shift(p, k, i);
            lemma_next_slash(s, i);
            let j = next_slash(s, i);
            assert(p.subrange(k + i, k + j) =~= s.subrange(i, j));
            lemma_names_shift(p, k, j);
        }
    }
}

proof fn lemma_slash_before(a: Seq<char>, b: Seq<char>, i: int)
    requires
        0 <= i <= a.len(),
    ensures
        next_slash(a + seq!['/'] + b, i) == next_slash(a, i),
    decreases a.len() - i,
{
    let w = a + seq!['/'] + b;
    if i < a.len() {
        assert(w[i] == a[i]);
        if a[i] != '/' {
            lemma_slash_before(a, b, i + 1);
        }
    } else {
        assert(w[i] == '/');
    }
}

proof fn lemma_names_join(a: Seq<char>, b: Seq<char>, i: int)
    requires
        0 <= i <= a.len(),
    ensures
        components_from(a + seq!['/'] + b, i) == components_from(a, i) + components(b),
    decreases a.len() - i,
{
    let w = a + seq!['/'] + b;
    if i < a.len() {
        assert(w[i] == a[i]);
        if a[i] == '/' {
            lemma_names_join(a, b, i + 1);
        } else {
            lemma_slash_before(a, b, i);
            lemma_next_slash(a, i);
            let j = next_slash(a, i);
            lemma_names_join(a, b, j);
            assert(w.subrange(i, j) =~= a.subrange(i, j));
            assert(seq![a.subrange(i, j)] + (components_from(a, j) + components(b)) =~= (seq![
                a.subrange(i, j),
            ] + components_from(a, j)) + components(b));
        }
    } else {
        assert(w[i] == '/');
        lemma_names_shift(w, i + 1, 0);
        assert(w.skip(i + 1) =~= b);
        assert(Seq::<Seq<char>>::empty() + components(b) =~= components(b));
    }
}

/// A slash between two parts of a path parts their names.
pub proof fn law_slash_joins_names(a: Seq<char>, b: Seq<char>)
    ensures
        components(a + seq!['/'] + b) == components(a) + components(b),
{
    lemma_names_join(a, b, 0);
}

/// Slashes at the ends of a path do not matter to its names.
pub proof fn law_trimming_keeps_names(p: Seq<char>)
    ensures
        components(trimmed(p)) == components(p),
{
    lemma_trim_start_names(p);
    lemma_trim_end_names(trim_start(p));
}

proof fn lemma_trim_start_names(p: Seq<char>)
    ensures
        components(trim_start(p)) == components(p),
    decreases p.len(),
{
    if p.len() > 0 && p[0] == '/' {
        let rest = p.subrange(1, p.len() as int);
        lemma_trim_start_names(rest);
        assert(p.skip(1) =~= rest);
        lemma_names_shift(p, 1, 0);
    }
}

proof fn lemma_trim_end_names(p: Seq<char>)
    ensures
        components(trim_end(p)) == components(p),
    decreases p.len(),
{
    if p.len() > 0 && p.last() == '/' {
        let front = p.drop_last();
        lemma_trim_end_names(front);
        assert(p =~= front + seq!['/'] + Seq::<char>::empty());
        law_slash_joins_names(front, Seq::<char>::empty());
        assert(components(Seq::<char>::empty()) =~= Seq::empty());
        assert(components(front) + Seq::<Seq<char>>::empty() =~= components(front));
    }
}

proof fn lemma_no_slash(p: Seq<char>, i: int)
    requires
        0 <= i <= p.len(),
        forall|k: int| i <= k < p.len() ==> p[k] != '/',
    ensures
        next_slash(p, i) == p.len(),
    decreases p.len() - i,
{
    if i < p.len() {
        lemma_no_slash(p, i + 1);
    }
}

proof fn lemma_trim_end_last(p: Seq<char>)
    ensures
        trim_end(p).len() > 0 ==> trim_end(p).last() != '/',
    decreases p.len(),
{
    if p.len() > 0 && p.last() == '/' {
        lemma_trim_end_last(p.drop_last());
    }
}

/// The names of a path are those of its parent and its own.
pub proof fn law_names_of_parent_and_entry(p: Seq<char>)
    requires
        trimmed(p).len() > 0,
    ensures
        components(p) == components(parent_path(parent_part(trimmed(p)))).push(
            base_part(trimmed(p)),
        ),
        base_part(trimmed(p)).len() > 0,
        !base_part(trimmed(p)).contains('/'),
{
    reveal_strlit("/");
    reveal_strlit("");
    let t = trimmed(p);
    law_trimming_keeps_names(p);
    lemma_trim_end_last(trim_start(p));
    let n = t.len() as int;
    let i = last_slash(t, n);
    lemma_last_slash(t, n);
    let base = base_part(t);
    let parent = parent_part(t);
    assert(i < n - 1) by {
        if i == n - 1 {
            assert(t.last() == '/');
        }
    }
    assert forall|k: int| 0 <= k < base.len() implies base[k] != '/' by {
        assert(base[k] == t[i + 1 + k]);
    }
    lemma_no_slash(base, 0);
    assert(base.subrange(0, base.len() as int) =~= base);
    assert(components_from(base, base.len() as int) =~= Seq::empty());
    assert(components(base) =~= seq![base]);
    let pp = parent_path(parent);
    let root: Seq<char> = Seq::empty();
    if parent.len() == 0 {
        assert(pp =~= root + seq!['/'] + root);
        law_slash_joins_names(root, root);
        assert(components(root) =~= Seq::empty());
        assert(components(pp) =~= Seq::empty());
    } else {
        assert(pp =~= root + seq!['/'] + parent);
        law_slash_joins_names(root, parent);
        assert(components(root) =~= Seq::empty());
        assert(components(pp) =~= components(parent));
    }
    if i < 0 {
        assert(t =~= base);
        assert(components(t) =~= components(pp).push(base));
    } else {
        assert(t =~= parent + seq!['/'] + base);
        law_slash_joins_names(parent, base);
        if parent.len() == 0 {
            assert(parent =~= root);
        }
        assert(components(t) =~= components(pp).push(base));
    }
}

/// A name behind a slash is the last of a path's names.
pub proof fn law_name_behind_slash(dir: Seq<char>, name: Seq<char>)
    requires
        name.len() > 0,
        forall|i: int| 0 <= i < name.len() ==> (#[trigger] name[i]) != '/',
    ensures
        components(dir + seq!['/'] + name) == components(dir).push(name),
{
    law_slash_joins_names(dir, name);
    lemma_no_slash(name, 0);
    assert(name.subrange(0, name.len() as int) =~= name);
    assert(components_from(name, name.len() as int) =~= Seq::empty());
    assert(components(name) =~= seq![name]);
    assert(components(dir) + components(name) =~= components(dir).push(name));
}

proof fn lemma_trim_end_keeps(p: Seq<char>) -> (n: int)
    ensures
        0 <= n <= p.len(),
        trim_end(p) == p.take(n),
        forall|k: int| n <= k < p.len() ==> p[k] == '/',
    decreases p.len(),
{
    if p.len() > 0 && p.last() == '/' {
        let n = lemma_trim_end_keeps(p.drop_last());
        assert(p.drop_last().take(n) =~= p.take(n));
        assert forall|k: int| n <= k < p.len() implies p[k] == '/' by {
            if k < p.len() - 1 {
                assert(p.drop_last()[k] == '/');
            }
        }
        n
    } else {
        assert(p.take(p.len() as int) =~= p);
        p.len() as int
    }
}

proof fn lemma_trim_start_keeps(p: Seq<char>) -> (n: int)
    ensures
        0 <= n <= p.len(),
        trim_start(p) == p.skip(n),
        forall|k: int| 0 <= k < n ==> p[k] == '/',
        n < p.len() ==> p[n] != '/',
    decreases p.len(),
{
    if p.len() > 0 && p[0] == '/' {
        let rest = p.subrange(1, p.len() as int);
        let n = lemma_trim_start_keeps(rest);
        assert(rest.skip(n) =~= p.skip(n + 1));
        assert forall|k: int| 0 <= k < n + 1 implies p[k] == '/' by {
            if k > 0 {
                assert(rest[k - 1] == '/');
            }
        }
        if n < rest.len() {
            assert(rest[n] == p[n + 1]);
        }
        n + 1
    } else {
        assert(p.skip(0) =~= p);
        0
    }
}

/// Trimming takes away the slashes at both ends of a path and nothing else:
/// what is left is a part of the path that neither starts nor ends with a
/// slash, with nothing but slashes around it. Gives where it starts.
pub proof fn law_trimming_takes_slashes_only(p: Seq<char>) -> (a: int)
    ensures
        ({
            let t = trimmed(p);
            &&& 0 <= a && a + t.len() <= p.len()
            &&& t == p.subrange(a, a + t.len())
            &&& t.len() > 0 ==> t[0] != '/' && t.last() != '/'
            &&& forall|k: int| 0 <= k < a ==> p[k] == '/'
            &&& forall|k: int| a + t.len() <= k < p.len() ==> p[k] == '/'
        }),
{
    let a = lemma_trim_start_keeps(p);
    let s = trim_start(p);
    let n = lemma_trim_end_keeps(s);
    lemma_trim_end_last(s);
    assert(trimmed(p) =~= p.subrange(a, a + n));
    assert forall|k: int| a + n <= k < p.len() implies p[k] == '/' by {
        assert(s[k - a] == '/');
    }
    a
}

} // verus!
