//! In-memory filesystem for tests and headless runs.
use crate::error::{is_io_error, IoErrorKind, K1FixError};
use crate::ports::Fs;
use vstd::prelude::*;
use vstd::slice::slice_to_vec;
use vstd::string::*;

verus! {

/// Where the segment of `p` that starts at `i` ends: at the next `/`, or at
/// the end of `p`.
pub open spec fn segment_end(p: Seq<char>, i: int) -> int
    decreases p.len() - i,
{
    if i >= p.len() {
        p.len() as int
    } else if p[i] == '/' {
        i
    } else {
        segment_end(p, i + 1)
    }
}

/// The components of `p` from position `i` on (`i` at the start of a
/// segment), as `std::path::Path::components` reads a path: segments
/// between `/` separators, empty ones (repeated or trailing separators)
/// left out, and a `.` left out unless it is the very first segment.
pub open spec fn path_parts(p: Seq<char>, i: int) -> Seq<Seq<char>>
    decreases p.len() - i,
{
    if i < 0 || i > p.len() {
        Seq::empty()
    } else {
        proof {
            lemma_segment_end(p, i);
        }
        let e = segment_end(p, i);
        let seg = p.subrange(i, e);
        let here = if seg.len() > 0 && (seg != seq!['.'] || i == 0) {
            seq![seg]
        } else {
            Seq::<Seq<char>>::empty()
        };
        if e < p.len() {
            here + path_parts(p, e + 1)
        } else {
            here
        }
    }
}

/// `parts` joined with `/` between them.
pub open spec fn joined(parts: Seq<Seq<char>>) -> Seq<char>
    decreases parts.len(),
{
    if parts.len() == 0 {
        Seq::empty()
    } else if parts.len() == 1 {
        parts[0]
    } else {
        joined(parts.drop_last()) + seq!['/'] + parts.last()
    }
}

/// The key under which a path names a file: a leading `/` when the path
/// starts with one, then its components joined with `/`. Two paths with
/// the same root and components, such as `a//b`, `a/./b`, `a/b/` and
/// `a/b`, have the same key.
pub open spec fn path_key(p: Seq<char>) -> Seq<char> {
    (if p.len() > 0 && p[0] == '/' {
        seq!['/']
    } else {
        Seq::empty()
    }) + joined(path_parts(p, 0))
}

/// A segment ends within the path, at a `/` or at its end, and holds no `/`.
pub proof fn lemma_segment_end(p: Seq<char>, i: int)
    requires
        0 <= i <= p.len(),
    ensures
        i <= segment_end(p, i) <= p.len(),
        segment_end(p, i) < p.len() ==> p[segment_end(p, i)] == '/',
        forall|j: int| i <= j < segment_end(p, i) ==> p[j] != '/',
    decreases p.len() - i,
{
    if i < p.len() && p[i] != '/' {
        lemma_segment_end(p, i + 1);
    }
}

/// `p` starts with the root `/`.
pub open spec fn rooted(p: Seq<char>) -> bool {
    p.len() > 0 && p[0] == '/'
}

/// Every component of a path is a non-empty piece of it without `/`.
proof fn lemma_parts_plain(p: Seq<char>, i: int)
    requires
        0 <= i <= p.len(),
    ensures
        forall|k: int|
            0 <= k < path_parts(p, i).len() ==> (#[trigger] path_parts(p, i)[k]).len() > 0 && !path_parts(
                p,
                i,
            )[k].contains('/'),
    decreases p.len() - i,
{
    lemma_segment_end(p, i);
    let e = segment_end(p, i);
    let seg = p.subrange(i, e);
    assert(!seg.contains('/')) by {
        if seg.contains('/') {
            let x = choose|x: int| 0 <= x < seg.len() && seg[x] == '/';
            assert(p[i + x] == '/');
        }
    }
    if e < p.len() {
        lemma_parts_plain(p, e + 1);
    }
    let here = if seg.len() > 0 && (seg != seq!['.'] || i == 0) {
        seq![seg]
    } else {
        Seq::<Seq<char>>::empty()
    };
    if e < p.len() {
        assert(path_parts(p, i) == here + path_parts(p, e + 1));
        assert forall|k: int| 0 <= k < path_parts(p, i).len() implies (#[trigger] path_parts(p, i)[k]).len() > 0
            && !path_parts(p, i)[k].contains('/') by {
            if k >= here.len() {
                assert(path_parts(p, i)[k] == path_parts(p, e + 1)[k - here.len()]);
            }
        }
    }
}

/// A segment of a path, the non-empty text between two separators (or
/// between the start or end of the path and a separator), is one of its
/// components unless it is a lone `.` after the start: `.cache`, `..` and
/// `a.b` are kept like any other name.
pub proof fn lemma_segments_are_components(p: Seq<char>, i: int)
    requires
        0 <= i <= p.len(),
        i == 0 || p[i - 1] == '/',
        segment_end(p, i) > i,
        p.subrange(i, segment_end(p, i)) != seq!['.'] || i == 0,
    ensures
        path_parts(p, 0).contains(p.subrange(i, segment_end(p, i))),
{
    lemma_segment_end(p, 0);
    let e = segment_end(p, 0);
    let seg = p.subrange(0, e);
    let here = if seg.len() > 0 && (seg != seq!['.'] || 0 == 0int) {
        seq![seg]
    } else {
        Seq::<Seq<char>>::empty()
    };
    if i == 0 {
        assert(path_parts(p, 0)[0] == seg);
    } else {
        assert(e < i) by {
            if e >= i {
                assert(p[i - 1] != '/');
            }
        }
        lemma_parts_reach_next(p, e + 1, i);
        assert(path_parts(p, 0) == here + path_parts(p, e + 1));
        let target = p.subrange(i, segment_end(p, i));
        let x = choose|x: int| 0 <= x < path_parts(p, e + 1).len() && #[trigger] path_parts(p, e + 1)[x] == target;
        assert((here + path_parts(p, e + 1))[here.len() + x] == target);
    }
}

proof fn lemma_parts_reach_next(p: Seq<char>, j: int, i: int)
    requires
        0 < j <= i <= p.len(),
        p[j - 1] == '/',
        i == 0 || p[i - 1] == '/',
        segment_end(p, i) > i,
        p.subrange(i, segment_end(p, i)) != seq!['.'] || i == 0,
    ensures
        path_parts(p, j).contains(p.subrange(i, segment_end(p, i))),
    decreases i - j,
{
    lemma_segment_end(p, j);
    let e = segment_end(p, j);
    let seg = p.subrange(j, e);
    let here = if seg.len() > 0 && (seg != seq!['.'] || j == 0) {
        seq![seg]
    } else {
        Seq::<Seq<char>>::empty()
    };
    if i == j {
        assert(here == seq![seg]);
        assert(path_parts(p, j)[0] == seg);
    } else {
        assert(e < i) by {
            if e >= i {
                assert(p[i - 1] != '/');
            }
        }
        lemma_parts_reach_next(p, e + 1, i);
        assert(path_parts(p, j) == here + path_parts(p, e + 1));
        let target = p.subrange(i, segment_end(p, i));
        let x = choose|x: int| 0 <= x < path_parts(p, e + 1).len() && #[trigger] path_parts(p, e + 1)[x] == target;
        assert((here + path_parts(p, e + 1))[here.len() + x] == target);
    }
}

/// Every part is non-empty and holds no `/`.
pub open spec fn plain_parts(a: Seq<Seq<char>>) -> bool {
    forall|k: int| 0 <= k < a.len() ==> (#[trigger] a[k]).len() > 0 && !a[k].contains('/')
}

proof fn lemma_joined_first(a: Seq<Seq<char>>)
    requires
        a.len() > 0,
        plain_parts(a),
    ensures
        joined(a).len() > 0,
        joined(a)[0] == a[0][0],
    decreases a.len(),
{
    assert(a[0].len() > 0);
    if a.len() > 1 {
        let d = a.drop_last();
        assert(d[0] == a[0]);
        assert(plain_parts(d)) by {
            assert forall|k: int| 0 <= k < d.len() implies (#[trigger] d[k]).len() > 0 && !d[k].contains('/') by {
                assert(d[k] == a[k]);
            }
        }
        lemma_joined_first(d);
    }
}

proof fn lemma_plain_drop_last(a: Seq<Seq<char>>)
    requires
        a.len() > 0,
        plain_parts(a),
    ensures
        plain_parts(a.drop_last()),
        a.last().len() > 0,
        !a.last().contains('/'),
{
    let d = a.drop_last();
    assert(a[a.len() - 1] == a.last());
    assert forall|k: int| 0 <= k < d.len() implies (#[trigger] d[k]).len() > 0 && !d[k].contains('/') by {
        assert(d[k] == a[k]);
    }
}

/// Joining parts that are non-empty and hold no `/` loses nothing: the
/// joined text gives the parts back.
proof fn lemma_joined_injective(a: Seq<Seq<char>>, b: Seq<Seq<char>>)
    requires
        plain_parts(a),
        plain_parts(b),
        joined(a) == joined(b),
    ensures
        a == b,
    decreases a.len(),
{
    let s = joined(a);
    if a.len() == 0 {
        if b.len() > 0 {
            lemma_joined_first(b);
        }
        assert(a =~= b);
    } else if b.len() == 0 {
        lemma_joined_first(a);
    } else if a.len() == 1 && b.len() == 1 {
        assert(a =~= b);
    } else if a.len() == 1 {
        lemma_plain_drop_last(b);
        let y = joined(b.drop_last());
        assert(s == y + seq!['/'] + b.last());
        assert(s[y.len() as int] == '/');
        assert(a[0] == s);
        assert(a[0].contains('/'));
    } else if b.len() == 1 {
        lemma_joined_injective(b, a);
    } else {
        lemma_plain_drop_last(a);
        lemma_plain_drop_last(b);
        let x = joined(a.drop_last());
        let y = joined(b.drop_last());
        let la = a.last();
        let lb = b.last();
        assert(s == x + seq!['/'] + la);
        assert(s == y + seq!['/'] + lb);
        if x.len() < y.len() {
            assert(s[y.len() as int] == '/');
            assert(la[y.len() - x.len() - 1] == s[y.len() as int]);
            assert(la.contains('/'));
        }
        if y.len() < x.len() {
            assert(s[x.len() as int] == '/');
            assert(lb[x.len() - y.len() - 1] == s[x.len() as int]);
            assert(lb.contains('/'));
        }
        assert(x =~= s.subrange(0, x.len() as int));
        assert(y =~= s.subrange(0, y.len() as int));
        assert(la =~= s.subrange(x.len() as int + 1, s.len() as int));
        assert(lb =~= s.subrange(y.len() as int + 1, s.len() as int));
        lemma_joined_injective(a.drop_last(), b.drop_last());
        assert(a =~= a.drop_last().push(la));
        assert(b =~= b.drop_last().push(lb));
    }
}

/// Two paths name the same file exactly when both or neither start at the
/// root and they have the same components (see [`path_parts`]): the key
/// tells apart any two paths whose components differ.
pub proof fn lemma_path_key_tells_paths_apart(p: Seq<char>, q: Seq<char>)
    ensures
        path_key(p) == path_key(q) <==> (rooted(p) == rooted(q) && path_parts(p, 0) == path_parts(q, 0)),
{
    lemma_parts_plain(p, 0);
    lemma_parts_plain(q, 0);
    let a = path_parts(p, 0);
    let b = path_parts(q, 0);
    assert(plain_parts(a));
    assert(plain_parts(b));
    if path_key(p) == path_key(q) {
        let k = path_key(p);
        if rooted(p) && !rooted(q) {
            assert(k[0] == '/');
            if b.len() > 0 {
                lemma_joined_first(b);
                assert(k == joined(b));
                assert(b[0].contains('/')) by {
                    assert(b[0][0] == '/');
                }
            } else {
                assert(joined(b) =~= Seq::<char>::empty());
            }
        } else if !rooted(p) && rooted(q) {
            assert(k[0] == '/');
            if a.len() > 0 {
                lemma_joined_first(a);
                assert(k == joined(a));
                assert(a[0].contains('/')) by {
                    assert(a[0][0] == '/');
                }
            } else {
                assert(joined(a) =~= Seq::<char>::empty());
            }
        } else if rooted(p) {
            assert(joined(a) =~= k.subrange(1, k.len() as int));
            assert(joined(b) =~= k.subrange(1, k.len() as int));
            lemma_joined_injective(a, b);
        } else {
            assert(joined(a) =~= k);
            assert(joined(b) =~= k);
            lemma_joined_injective(a, b);
        }
    }
}

/// The key of `path` (see [`path_key`]).
pub fn make_path_key(path: &str) -> (r: String)
    ensures
        r@ == path_key(path@),
{
    let ghost p = path@;
    let n = path.unicode_len();
    let mut key = String::new();
    if n > 0 && path.get_char(0) == '/' {
        key.append("/");
    }
    proof {
        reveal_strlit("/");
    }
    let ghost root = key@;
    let ghost mut acc: Seq<Seq<char>> = Seq::empty();
    let mut count: usize = 0;
    let mut i: usize = 0;
    let mut done = false;
    while !done
        invariant
            n == p.len(),
            path@ == p,
            i <= n,
            root == (if p.len() > 0 && p[0] == '/' {
                seq!['/']
            } else {
                Seq::empty()
            }),
            count == acc.len(),
            count <= i,
            key@ == root + joined(acc),
            !done ==> path_parts(p, 0) == acc + path_parts(p, i as int),
            done ==> path_parts(p, 0) == acc,
        decreases n - i + (if done { 0int } else { 1int }),
    {
        let mut e = i;
        while e < n && path.get_char(e) != '/'
            invariant
                i <= e <= n,
                n == p.len(),
                path@ == p,
                segment_end(p, i as int) == segment_end(p, e as int),
            decreases n - e,
        {
            e = e + 1;
        }
        proof {
            assert(segment_end(p, e as int) == e);
        }
        let seg = path.substring_char(i, e);
        let is_dot = e > i && e - i == 1 && path.get_char(i) == '.';
        proof {
            assert(is_dot == (seg@ == seq!['.'])) by {
                if is_dot {
                    assert(seg@ =~= seq!['.']);
                }
                if seg@ == seq!['.'] {
                    assert(seg@.len() == 1);
                    assert(seg@[0] == p[i as int]);
                }
            }
        }
        let keep = e > i && (!is_dot || i == 0);
        let ghost here = if keep {
            seq![seg@]
        } else {
            Seq::<Seq<char>>::empty()
        };
        if keep {
            let ghost k0 = key@;
            if count > 0 {
                key.append("/");
            }
            key.append(seg);
            proof {
                reveal_strlit("/");
                let acc2 = acc.push(seg@);
                assert(acc2.drop_last() =~= acc);
                assert(acc2.last() == seg@);
                if acc.len() > 0 {
                    assert(key@ =~= k0 + seq!['/'] + seg@);
                    assert(joined(acc2) == joined(acc) + seq!['/'] + seg@);
                } else {
                    assert(key@ =~= k0 + seg@);
                }
                assert(acc2.drop_last() =~= acc);
                if acc.len() == 0 {
                    assert(joined(acc2) == seg@);
                    assert(joined(acc) =~= Seq::<char>::empty());
                }
                assert(key@ =~= root + joined(acc2));
                acc = acc2;
            }
            count = count + 1;
        }
        proof {
            assert(path_parts(p, i as int) == (if e < n {
                here + path_parts(p, e + 1)
            } else {
                here
            }));
        }
        if e < n {
            proof {
                assert(path_parts(p, 0) =~= acc + path_parts(p, e + 1)) by {
                    assert((acc.take(acc.len() - (if keep { 1int } else { 0int })) + here) =~= acc);
                }
            }
            i = e + 1;
        } else {
            proof {
                assert(path_parts(p, 0) =~= acc);
            }
            i = e;
            done = true;
        }
    }
    key
}

/// The contents stored for `path` in `entries`: the first entry with that
/// path.
pub open spec fn lookup(entries: Seq<(String, Vec<u8>)>, path: Seq<char>) -> Option<Seq<u8>>
    decreases entries.len(),
{
    if entries.len() == 0 {
        None
    } else if entries[0].0@ == path {
        Some(entries[0].1@)
    } else {
        lookup(entries.drop_first(), path)
    }
}

/// In-memory [`Fs`] whose reads and writes can be made to fail. Files are
/// kept as a list of path and contents, the first entry for a path being
/// its file, so that what a read gives back of a write can be stated over
/// the contents (a hash map keyed by path strings gives no statement of
/// its contents to prove against).
pub struct MemFs {
    entries: Vec<(String, Vec<u8>)>,
    fail_read: bool,
    fail_write: bool,
}

impl MemFs {
    /// The files held: path key (see [`path_key`]) to contents.
    pub closed spec fn files(&self) -> Map<Seq<char>, Seq<u8>> {
        Map::new(
            |p: Seq<char>| lookup(self.entries@, p) is Some,
            |p: Seq<char>| lookup(self.entries@, p)->Some_0,
        )
    }

    /// Whether reads are forced to fail.
    pub closed spec fn reads_fail(&self) -> bool {
        self.fail_read
    }

    /// Whether writes are forced to fail.
    pub closed spec fn writes_fail(&self) -> bool {
        self.fail_write
    }

    /// Create an empty filesystem.
    pub fn new() -> (r: MemFs)
        ensures
            r.files() == Map::<Seq<char>, Seq<u8>>::empty(),
            !r.reads_fail(),
            !r.writes_fail(),
    {
        let r = MemFs { entries: Vec::new(), fail_read: false, fail_write: false };
        assert(r.files() =~= Map::<Seq<char>, Seq<u8>>::empty());
        r
    }

    /// Force the next reads to fail.
    pub fn set_fail_read(&mut self, fail: bool)
        ensures
            final(self).files() == old(self).files(),
            final(self).reads_fail() == fail,
            final(self).writes_fail() == old(self).writes_fail(),
    {
        self.fail_read = fail;
    }

    /// Force the next writes to fail.
    pub fn set_fail_write(&mut self, fail: bool)
        ensures
            final(self).files() == old(self).files(),
            final(self).reads_fail() == old(self).reads_fail(),
            final(self).writes_fail() == fail,
    {
        self.fail_write = fail;
    }

    /// Position of the first entry for `path`.
    fn find(&self, path: &String) -> (r: Option<usize>)
        ensures
            match r {
                Some(i) => i < self.entries@.len() && self.entries@[i as int].0@ == path@
                    && forall|j: int| 0 <= j < i ==> self.entries@[j].0@ != path@,
                None => forall|j: int| 0 <= j < self.entries@.len() ==> self.entries@[j].0@ != path@,
            },
    {
        let mut i: usize = 0;
        while i < self.entries.len()
            invariant
                i <= self.entries@.len(),
                forall|j: int| 0 <= j < i ==> self.entries@[j].0@ != path@,
            decreases self.entries@.len() - i,
        {
            if self.entries[i].0 == *path {
                return Some(i);
            }
            i = i + 1;
        }
        None
    }
}

proof fn lemma_lookup_first(entries: Seq<(String, Vec<u8>)>, path: Seq<char>, i: int)
    requires
        0 <= i < entries.len(),
        entries[i].0@ == path,
        forall|j: int| 0 <= j < i ==> entries[j].0@ != path,
    ensures
        lookup(entries, path) == Some(entries[i].1@),
    decreases i,
{
    if i > 0 {
        lemma_lookup_first(entries.drop_first(), path, i - 1);
    }
}

proof fn lemma_lookup_absent(entries: Seq<(String, Vec<u8>)>, path: Seq<char>)
    requires
        forall|j: int| 0 <= j < entries.len() ==> entries[j].0@ != path,
    ensures
        lookup(entries, path) is None,
    decreases entries.len(),
{
    if entries.len() > 0 {
        lemma_lookup_absent(entries.drop_first(), path);
    }
}

/// Replacing the contents of the first entry of `path` changes the lookup of
/// `path` alone.
proof fn lemma_lookup_update(
    entries: Seq<(String, Vec<u8>)>,
    i: int,
    e: (String, Vec<u8>),
    q: Seq<char>,
)
    requires
        0 <= i < entries.len(),
        e.0@ == entries[i].0@,
        forall|j: int| 0 <= j < i ==> entries[j].0@ != entries[i].0@,
    ensures
        lookup(entries.update(i, e), q) == (if q == e.0@ {
            Some(e.1@)
        } else {
            lookup(entries, q)
        }),
    decreases i,
{
    let u = entries.update(i, e);
    if i > 0 {
        assert(u.drop_first() =~= entries.drop_first().update(i - 1, e));
        assert(u[0] == entries[0]);
        assert(entries[0].0@ != entries[i].0@);
        lemma_lookup_update(entries.drop_first(), i - 1, e, q);
    } else {
        assert(u.drop_first() =~= entries.drop_first());
        assert(u[0] == e);
    }
}

/// Appending an entry for a path not present adds that path alone.
proof fn lemma_lookup_push(entries: Seq<(String, Vec<u8>)>, e: (String, Vec<u8>), q: Seq<char>)
    requires
        forall|j: int| 0 <= j < entries.len() ==> entries[j].0@ != e.0@,
    ensures
        lookup(entries.push(e), q) == (if q == e.0@ {
            Some(e.1@)
        } else {
            lookup(entries, q)
        }),
    decreases entries.len(),
{
    let p = entries.push(e);
    if entries.len() > 0 {
        assert(p.drop_first() =~= entries.drop_first().push(e));
        assert(p[0] == entries[0]);
        assert(entries[0].0@ != e.0@);
        lemma_lookup_push(entries.drop_first(), e, q);
    } else {
        assert(p[0] == e);
        assert(p.drop_first() =~= Seq::<(String, Vec<u8>)>::empty());
        assert(lookup(p.drop_first(), q) is None);
        assert(lookup(entries, q) is None);
    }
}

impl Fs for MemFs {
    fn read(&self, path: &str) -> (r: Result<Vec<u8>, K1FixError>)
        ensures
            self.reads_fail() ==> match r {
                Ok(_) => false,
                Err(e) => is_io_error(e, IoErrorKind::Other, "forced read failure"@),
            },
            !self.reads_fail() ==> match r {
                Ok(bytes) => self.files().contains_key(path_key(path@)) && bytes@ == self.files()[path_key(path@)],
                Err(e) => !self.files().contains_key(path_key(path@)) && is_io_error(
                    e,
                    IoErrorKind::NotFound,
                    "missing"@,
                ),
            },
    {
        proof {
            reveal_strlit("forced read failure");
            reveal_strlit("missing");
        }
        if self.fail_read {
            return Err(
                K1FixError::Io {
                    kind: IoErrorKind::Other,
                    message: String::from_str("forced read failure"),
                },
            );
        }
        let key = make_path_key(path);
        match self.find(&key) {
            Some(i) => {
                proof {
                    lemma_lookup_first(self.entries@, path_key(path@), i as int);
                }
                Ok(self.entries[i].1.clone())
            },
            None => {
                proof {
                    lemma_lookup_absent(self.entries@, path_key(path@));
                }
                Err(K1FixError::Io { kind: IoErrorKind::NotFound, message: String::from_str("missing") })
            },
        }
    }

    fn write(&mut self, path: &str, bytes: &[u8]) -> (r: Result<(), K1FixError>)
        ensures
            old(self).writes_fail() ==> final(self).files() == old(self).files() && match r {
                Ok(_) => false,
                Err(e) => is_io_error(e, IoErrorKind::Other, "forced write failure"@),
            },
            !old(self).writes_fail() ==> r is Ok && final(self).files() == old(self).files().insert(
                path_key(path@),
                bytes@,
            ),
            final(self).reads_fail() == old(self).reads_fail(),
            final(self).writes_fail() == old(self).writes_fail(),
    {
        proof {
            reveal_strlit("forced write failure");
        }
        if self.fail_write {
            return Err(
                K1FixError::Io {
                    kind: IoErrorKind::Other,
                    message: String::from_str("forced write failure"),
                },
            );
        }
        let key = make_path_key(path);
        let contents = slice_to_vec(bytes);
        let ghost old_entries = self.entries@;
        match self.find(&key) {
            Some(i) => {
                let ghost e = (key, contents);
                proof {
                    assert forall|q: Seq<char>|
                        lookup(old_entries.update(i as int, e), q) == (if q == path_key(path@) {
                            Some(bytes@)
                        } else {
                            lookup(old_entries, q)
                        }) by {
                        lemma_lookup_update(old_entries, i as int, e, q);
                    }
                }
                self.entries.set(i, (key, contents));
            },
            None => {
                let ghost e = (key, contents);
                proof {
                    assert forall|q: Seq<char>|
                        lookup(old_entries.push(e), q) == (if q == path_key(path@) {
                            Some(bytes@)
                        } else {
                            lookup(old_entries, q)
                        }) by {
                        lemma_lookup_push(old_entries, e, q);
                    }
                }
                self.entries.push((key, contents));
            },
        }
        proof {
            assert(self.files() =~= old(self).files().insert(path_key(path@), bytes@));
        }
        Ok(())
    }

    fn file_exists(&self, path: &str) -> (r: bool)
        ensures
            r == self.files().contains_key(path_key(path@)),
    {
        let key = make_path_key(path);
        match self.find(&key) {
            Some(i) => {
                proof {
                    lemma_lookup_first(self.entries@, path_key(path@), i as int);
                }
                true
            },
            None => {
                proof {
                    lemma_lookup_absent(self.entries@, path_key(path@));
                }
                false
            },
        }
    }
}

/// What a successful write leaves behind: the written path holds exactly
/// the written bytes (so a later read gives them back, also through any
/// path with the same key, such as `a//b` for `a/b`), every path with
/// another key keeps what it held, and one that did not exist still does
/// not.
pub proof fn lemma_read_after_write(
    before: MemFs,
    after: MemFs,
    path: Seq<char>,
    bytes: Seq<u8>,
    other: Seq<char>,
)
    requires
        after.files() == before.files().insert(path_key(path), bytes),
    ensures
        after.files().contains_key(path_key(path)),
        after.files()[path_key(path)] == bytes,
        path_key(other) == path_key(path) ==> after.files()[path_key(other)] == bytes,
        path_key(other) != path_key(path) ==> (after.files().contains_key(path_key(other))
            <==> before.files().contains_key(path_key(other))),
        path_key(other) != path_key(path) && before.files().contains_key(path_key(other))
            ==> after.files()[path_key(other)] == before.files()[path_key(other)],
{
}

} // verus!
