use vstd::prelude::*;

verus! {

/// `suffix` is a suffix of `s`.
pub open spec fn is_suffix_of(suffix: Seq<char>, s: Seq<char>) -> bool {
    suffix.len() <= s.len() && s.subrange(s.len() - suffix.len(), s.len() as int) == suffix
}

/// A directory entry that discovery must skip: editor working files (names
/// starting with `~` or `#`), and files that do not end with the configured
/// suffix (exact, case-sensitive comparison).
pub open spec fn ignored_name(name: Seq<char>, suffix: Seq<char>) -> bool {
    (name.len() > 0 && (name[0] == '~' || name[0] == '#')) || !is_suffix_of(suffix, name)
}

/// `s` ends with `suffix` (exact, case-sensitive).
pub fn ends_with(s: &str, suffix: &str) -> (r: bool)
    ensures
        r == is_suffix_of(suffix@, s@),
{
    let n = s.unicode_len();
    let m = suffix.unicode_len();
    if m > n {
        return false;
    }
    let mut i: usize = 0;
    while i < m
        invariant
            m <= n,
            n == s@.len(),
            m == suffix@.len(),
            i <= m,
            forall|j: int| 0 <= j < i ==> s@[n - m + j] == suffix@[j],
        decreases m - i,
    {
        if s.get_char(n - m + i) != suffix.get_char(i) {
            proof {
                if is_suffix_of(suffix@, s@) {
                    assert(s@.subrange(n - m, n as int)[i as int] == suffix@[i as int]);
                }
            }
            return false;
        }
        i += 1;
    }
    proof {
        assert(s@.subrange(n - m, n as int) =~= suffix@);
    }
    true
}

/// Whether a scanned file with base name `name` takes part in discovery.
pub fn keep_entry(name: &str, suffix: &str) -> (r: bool)
    ensures
        r == !ignored_name(name@, suffix@),
{
    let n = name.unicode_len();
    if n > 0 {
        let c0 = name.get_char(0);
        if c0 == '~' || c0 == '#' {
            return false;
        }
    }
    ends_with(name, suffix)
}

/// The largest index of `s` holding `c`, or `-1` when `c` does not occur.
pub open spec fn last_at(s: Seq<char>, c: char) -> int
    decreases s.len(),
{
    if s.len() == 0 {
        -1
    } else if s[s.len() - 1] == c {
        s.len() - 1
    } else {
        last_at(s.subrange(0, s.len() - 1), c)
    }
}

/// Position of the last occurrence of `c` in `s`, if any.
pub(crate) fn last_index(s: &str, c: char) -> (r: Option<usize>)
    ensures
        match r {
            Some(i) => i < s@.len() && last_at(s@, c) == i,
            None => last_at(s@, c) == -1,
        },
{
    let n = s.unicode_len();
    let mut j: usize = n;
    proof {
        assert(s@.subrange(0, n as int) =~= s@);
    }
    while j > 0
        invariant
            j <= n,
            n == s@.len(),
            last_at(s@, c) == last_at(s@.subrange(0, j as int), c),
        decreases j,
    {
        if s.get_char(j - 1) == c {
            proof {
                assert(s@.subrange(0, j as int).len() == j);
                assert(s@.subrange(0, j as int)[j - 1] == c);
            }
            return Some(j - 1);
        }
        proof {
            assert(s@.subrange(0, j as int).subrange(0, j - 1) =~= s@.subrange(0, j - 1));
        }
        j -= 1;
    }
    proof {
        assert(s@.subrange(0, 0).len() == 0);
    }
    None
}

/// The part of `path` after its last separator (the whole of it when no
/// separator occurs).
pub open spec fn base_name_of(path: Seq<char>, sep: char) -> Seq<char> {
    path.subrange(last_at(path, sep) + 1, path.len() as int)
}

/// The base name of `path`.
pub fn base_name(path: &str, sep: char) -> (r: String)
    ensures
        r@ == base_name_of(path@, sep),
{
    let n = path.unicode_len();
    match last_index(path, sep) {
        Some(i) => path.substring_char(i + 1, n).to_owned(),
        None => {
            proof {
                assert(path@.subrange(0, n as int) =~= path@);
            }
            path.to_owned()
        }
    }
}

/// The stem of a base name: everything before the last `.`, unless the name
/// has no `.` past its first character (hidden files keep their full name).
pub open spec fn stem_of(base: Seq<char>) -> Seq<char> {
    let d = last_at(base, '.');
    if d <= 0 {
        base
    } else {
        base.subrange(0, d)
    }
}

/// The canonical name of an explicitly given template file: its base name
/// with the final extension removed.
pub open spec fn file_stem_of(path: Seq<char>, sep: char) -> Seq<char> {
    stem_of(base_name_of(path, sep))
}

/// The stem of the file at `path`.
pub fn file_stem(path: &str, sep: char) -> (r: String)
    ensures
        r@ == file_stem_of(path@, sep),
{
    let base = base_name(path, sep);
    let od = last_index(base.as_str(), '.');
    if let Some(d) = od {
        if d > 0 {
            return base.as_str().substring_char(0, d).to_owned();
        }
    }
    base
}

/// Whether `root` already ends in a path separator of either kind.
pub open spec fn sep_ended(root: Seq<char>) -> bool {
    root.len() > 0 && (root[root.len() - 1] == '/' || root[root.len() - 1] == '\\')
}

/// How many leading characters of an entry path are stripped for `root`:
/// the root and one joining separator, unless the root already ends in one.
pub open spec fn prefix_len(root: Seq<char>) -> int {
    if sep_ended(root) {
        root.len() as int
    } else {
        root.len() + 1int
    }
}

/// Whether `root` ends in a path separator.
pub fn ends_with_sep(root: &str) -> (r: bool)
    ensures
        r == sep_ended(root@),
{
    let n = root.unicode_len();
    if n == 0 {
        return false;
    }
    let c = root.get_char(n - 1);
    c == '/' || c == '\\'
}

/// Every platform separator replaced by `/`.
pub open spec fn seps_replaced(s: Seq<char>, sep: char) -> Seq<char> {
    Seq::new(
        s.len(),
        |i: int|
            if s[i] == sep {
                '/'
            } else {
                s[i]
            },
    )
}

/// The canonical name of the template at `entry` under `root`: the part of
/// the path after the root and its joining separator and before the suffix,
/// with every platform separator replaced by `/`.
pub open spec fn canonical_of(
    root: Seq<char>,
    entry: Seq<char>,
    suffix: Seq<char>,
    sep: char,
) -> Seq<char> {
    seps_replaced(entry.subrange(prefix_len(root), entry.len() - suffix.len()), sep)
}

/// Relies on String::push: appends exactly the one character.
#[verifier::external_body]
pub(crate) fn push_char(s: &mut String, c: char)
    ensures
        final(s)@ == old(s)@.push(c),
{
    s.push(c);
}

/// The canonical name of the entry at `entry`, which lies under `root` and
/// carries the suffix.
#[verifier::loop_isolation(false)]
pub fn canonical_name(root: &str, entry: &str, suffix: &str, sep: char) -> (r: String)
    requires
        prefix_len(root@) + suffix@.len() <= entry@.len(),
    ensures
        r@ == canonical_of(root@, entry@, suffix@, sep),
{
    let rl = root.unicode_len();
    let n = entry.unicode_len();
    let m = suffix.unicode_len();
    let start = if ends_with_sep(root) {
        rl
    } else {
        rl + 1
    };
    let stop = n - m;
    let mut out = String::new();
    let mut i: usize = start;
    while i < stop
        invariant
            start <= i <= stop,
            out@.len() == i - start,
            forall|j: int|
                0 <= j < i - start ==> out@[j] == seps_replaced(
                    entry@.subrange(start as int, stop as int),
                    sep,
                )[j],
        decreases stop - i,
    {
        let c = entry.get_char(i);
        let c2 = if c == sep {
            '/'
        } else {
            c
        };
        push_char(&mut out, c2);
        proof {
            assert(entry@.subrange(start as int, stop as int)[i - start] == entry@[i as int]);
        }
        i += 1;
    }
    proof {
        assert(out@ =~= canonical_of(root@, entry@, suffix@, sep));
    }
    out
}

/// The model of a registry: canonical names and source paths, in insertion
/// order.
pub type SpecPairs = Seq<(Seq<char>, Seq<char>)>;

/// Whether some pair of `ps` carries the name `k`.
pub open spec fn pair_has(ps: SpecPairs, k: Seq<char>) -> bool {
    exists|i: int| 0 <= i < ps.len() && ps[i].0 == k
}

/// An index of `ps` that carries the name `k` (the only one when names are
/// distinct).
pub open spec fn pair_at(ps: SpecPairs, k: Seq<char>) -> int {
    choose|i: int| 0 <= i < ps.len() && ps[i].0 == k
}

/// The path registered under `k`.
pub open spec fn pair_val(ps: SpecPairs, k: Seq<char>) -> Seq<char> {
    ps[pair_at(ps, k)].1
}

/// No two pairs of `ps` share a name.
pub open spec fn uniq_names(ps: SpecPairs) -> bool {
    forall|i: int, j: int| 0 <= i < j < ps.len() ==> ps[i].0 != ps[j].0
}

/// One registration: a name already present keeps its position and its path
/// is overwritten; a new name is appended.
pub open spec fn reg_inserted(ps: SpecPairs, k: Seq<char>, v: Seq<char>) -> SpecPairs {
    if pair_has(ps, k) {
        ps.update(pair_at(ps, k), (k, v))
    } else {
        ps.push((k, v))
    }
}

/// The set of discovered templates: a mapping from canonical name to source
/// path, insertion ordered. A later registration of an already-present name
/// silently overwrites the stored path.
pub struct Registry {
    entries: Vec<(String, String)>,
}

impl Registry {
    /// The registered pairs, in order.
    pub closed spec fn pairs(&self) -> SpecPairs {
        Seq::new(self.entries@.len(), |i: int| (self.entries@[i].0@, self.entries@[i].1@))
    }

    /// Every canonical name is registered at most once.
    pub open spec fn inv(&self) -> bool {
        uniq_names(self.pairs())
    }

    /// An empty registry.
    pub fn new() -> (r: Registry)
        ensures
            r.pairs().len() == 0,
            r.inv(),
    {
        Registry { entries: Vec::new() }
    }

    /// How many templates are registered.
    pub fn len(&self) -> (r: usize)
        ensures
            r == self.pairs().len(),
    {
        self.entries.len()
    }

    /// The pair at position `i`, as copies.
    pub fn get(&self, i: usize) -> (r: (String, String))
        requires
            i < self.pairs().len(),
        ensures
            r.0@ == self.pairs()[i as int].0,
            r.1@ == self.pairs()[i as int].1,
    {
        (self.entries[i].0.clone(), self.entries[i].1.clone())
    }

    /// Register `path` under `name`: an already-present name keeps its
    /// position and now maps to `path` (the later registration wins), a new
    /// name is appended.
    #[verifier::loop_isolation(false)]
    pub fn insert(&mut self, name: String, path: String)
        requires
            old(self).inv(),
        ensures
            final(self).inv(),
            final(self).pairs() == reg_inserted(old(self).pairs(), name@, path@),
            pair_has(final(self).pairs(), name@),
            pair_val(final(self).pairs(), name@) == path@,
    {
        let ghost ps0 = self.pairs();
        let n = self.entries.len();
        let mut i: usize = 0;
        while i < n
            invariant
                i <= n,
                n == self.entries@.len(),
                self.entries@ == old(self).entries@,
                ps0 == self.pairs(),
                forall|t: int| 0 <= t < i ==> ps0[t].0 != name@,
            decreases n - i,
        {
            if self.entries[i].0.eq(&name) {
                self.entries.set(i, (name, path));
                proof {
                    assert(ps0[i as int].0 == self.pairs()[i as int].0);
                    assert(pair_has(ps0, self.pairs()[i as int].0));
                    assert(pair_at(ps0, self.pairs()[i as int].0) == i) by {
                        let t = pair_at(ps0, self.pairs()[i as int].0);
                        assert(0 <= t < ps0.len() && ps0[t].0 == self.pairs()[i as int].0);
                    }
                    assert(self.pairs() =~= ps0.update(
                        i as int,
                        (self.pairs()[i as int].0, self.pairs()[i as int].1),
                    ));
                    assert(uniq_names(self.pairs())) by {
                        assert(forall|t: int|
                            0 <= t < ps0.len() ==> (#[trigger] self.pairs()[t]).0 == ps0[t].0);
                    }
                    let k = self.pairs()[i as int].0;
                    assert(pair_at(self.pairs(), k) == i) by {
                        let t = pair_at(self.pairs(), k);
                        assert(0 <= t < self.pairs().len() && self.pairs()[t].0 == k);
                    }
                }
                return ;
            }
            i += 1;
        }
        proof {
            assert(!pair_has(ps0, name@)) by {
                if pair_has(ps0, name@) {
                    let t = pair_at(ps0, name@);
                    assert(0 <= t < ps0.len() && ps0[t].0 == name@);
                }
            }
        }
        self.entries.push((name, path));
        proof {
            assert(self.pairs() =~= ps0.push(
                (self.pairs()[ps0.len() as int].0, self.pairs()[ps0.len() as int].1),
            ));
            let k = self.pairs()[ps0.len() as int].0;
            assert(pair_at(self.pairs(), k) == ps0.len()) by {
                let t = pair_at(self.pairs(), k);
                assert(0 <= t < self.pairs().len() && self.pairs()[t].0 == k);
                if t < ps0.len() {
                    assert(ps0[t].0 == k);
                }
            }
        }
    }
}

/// The models of a list of paths.
pub open spec fn str_views(ss: Seq<String>) -> Seq<Seq<char>> {
    Seq::new(ss.len(), |i: int| ss[i]@)
}

/// The registry contents after walking `entries` (file paths, in traversal
/// order) under `root`: ignored names are skipped, the rest are registered
/// under their canonical names, a later entry overwriting an earlier one of
/// the same name.
pub open spec fn walk_registered(
    ps: SpecPairs,
    root: Seq<char>,
    entries: Seq<Seq<char>>,
    suffix: Seq<char>,
    sep: char,
) -> SpecPairs
    decreases entries.len(),
{
    if entries.len() == 0 {
        ps
    } else {
        let e = entries[0];
        let ps1 = if ignored_name(base_name_of(e, sep), suffix) {
            ps
        } else {
            reg_inserted(ps, canonical_of(root, e, suffix, sep), e)
        };
        walk_registered(ps1, root, entries.subrange(1, entries.len() as int), suffix, sep)
    }
}

/// Register one explicitly given template file, whatever its suffix: its
/// canonical name is the file's stem.
pub fn register_file_root(reg: &mut Registry, path: &str, sep: char)
    requires
        old(reg).inv(),
    ensures
        final(reg).inv(),
        final(reg).pairs() == reg_inserted(old(reg).pairs(), file_stem_of(path@, sep), path@),
{
    let name = file_stem(path, sep);
    reg.insert(name, path.to_owned());
}

/// Register the file entries of one directory walk, in traversal order: an
/// entry whose base name starts with `~` or `#`, or does not end with the
/// suffix, is skipped; every other entry is registered under its canonical
/// name. An entry lies under `root`, so a surviving path is at least as
/// long as the stripped prefix plus the suffix.
#[verifier::loop_isolation(false)]
pub fn register_walk(
    reg: &mut Registry,
    root: &str,
    entries: &Vec<String>,
    suffix: &str,
    sep: char,
)
    requires
        old(reg).inv(),
        forall|i: int|
            0 <= i < entries@.len() ==> !ignored_name(
                base_name_of((#[trigger] entries@[i])@, sep),
                suffix@,
            ) ==> prefix_len(root@) + suffix@.len() <= entries@[i]@.len(),
    ensures
        final(reg).inv(),
        final(reg).pairs() == walk_registered(
            old(reg).pairs(),
            root@,
            str_views(entries@),
            suffix@,
            sep,
        ),
{
    let ghost ps0 = reg.pairs();
    let ghost es = str_views(entries@);
    proof {
        assert(es.subrange(0, es.len() as int) =~= es);
    }
    let n = entries.len();
    let mut i: usize = 0;
    while i < n
        invariant
            i <= n,
            n == entries@.len(),
            reg.inv(),
            walk_registered(ps0, root@, es, suffix@, sep) == walk_registered(
                reg.pairs(),
                root@,
                es.subrange(i as int, n as int),
                suffix@,
                sep,
            ),
        decreases n - i,
    {
        let ghost pre = es.subrange(i as int, n as int);
        proof {
            assert(pre[0] == es[i as int]);
            assert(pre.subrange(1, pre.len() as int) =~= es.subrange(i + 1, n as int));
        }
        let e = &entries[i];
        let base = base_name(e.as_str(), sep);
        if keep_entry(base.as_str(), suffix) {
            let cname = canonical_name(root, e.as_str(), suffix, sep);
            reg.insert(cname, e.clone());
        }
        i += 1;
    }
    proof {
        assert(es.subrange(n as int, n as int).len() == 0);
    }
}

/// A file whose name starts with `~` or `#` is never registered, whatever
/// its suffix: removing such an entry from a walk leaves the outcome
/// unchanged.
pub proof fn lemma_editor_file_never_registered(
    ps: SpecPairs,
    root: Seq<char>,
    entries: Seq<Seq<char>>,
    suffix: Seq<char>,
    sep: char,
    i: int,
)
    requires
        0 <= i < entries.len(),
        base_name_of(entries[i], sep).len() > 0,
        base_name_of(entries[i], sep)[0] == '~' || base_name_of(entries[i], sep)[0] == '#',
    ensures
        walk_registered(ps, root, entries, suffix, sep) == walk_registered(
            ps,
            root,
            entries.remove(i),
            suffix,
            sep,
        ),
    decreases entries.len(),
{
    let rest = entries.subrange(1, entries.len() as int);
    if i == 0 {
        assert(ignored_name(base_name_of(entries[0], sep), suffix));
        assert(entries.remove(0) =~= rest);
    } else {
        let e = entries[0];
        let ps1 = if ignored_name(base_name_of(e, sep), suffix) {
            ps
        } else {
            reg_inserted(ps, canonical_of(root, e, suffix, sep), e)
        };
        lemma_editor_file_never_registered(ps1, root, rest, suffix, sep, i - 1);
        assert(entries.remove(i)[0] == entries[0]);
        assert(entries.remove(i).subrange(1, entries.remove(i).len() as int) =~= rest.remove(
            i - 1,
        ));
    }
}

/// The canonical name is platform independent: a root, two path components
/// and a suffix assembled with any separator character normalize to the
/// same `/`-separated name.
pub proof fn lemma_canonical_platform_independent(
    root: Seq<char>,
    a: Seq<char>,
    b: Seq<char>,
    suffix: Seq<char>,
    sep: char,
)
    requires
        !sep_ended(root),
        forall|i: int| 0 <= i < a.len() ==> a[i] != sep,
        forall|i: int| 0 <= i < b.len() ==> b[i] != sep,
    ensures
        canonical_of(root, root + seq![sep] + a + seq![sep] + b + suffix, suffix, sep) == a + seq![
            '/',
        ] + b,
{
    let entry = root + seq![sep] + a + seq![sep] + b + suffix;
    let mid = entry.subrange(prefix_len(root), entry.len() - suffix.len());
    assert(mid =~= a + seq![sep] + b);
    assert forall|i: int| 0 <= i < mid.len() implies seps_replaced(mid, sep)[i] == (a + seq!['/']
        + b)[i] by {
        if i < a.len() {
            assert(mid[i] == a[i]);
        } else if i == a.len() {
            assert(mid[i] == sep);
        } else {
            assert(mid[i] == b[i - a.len() - 1]);
        }
    }
    assert(seps_replaced(mid, sep) =~= a + seq!['/'] + b);
}

} // verus!
