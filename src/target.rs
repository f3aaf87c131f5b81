//! The target store: names bound to absolute paths, kept sorted by name.

use crate::order::{lemma_name_lt_irreflexive, lemma_name_lt_total, lemma_name_lt_transitive, name_less, name_lt};
use crate::path::{expand_path, expanded, file_name, file_name_of, is_absolute, str_opt_view, string_opt_view};
use vstd::prelude::*;

verus! {

/// Why an operation on the store was refused.
#[derive(Debug)]
pub enum TargetError {
    /// The name is already bound; `same_path` tells whether to the path given.
    DuplicateTarget { name: String, same_path: bool },
    /// No target has this name.
    TargetNotFound { name: String },
    /// No name was given and the current directory has no last component.
    NoCurrentDirectoryName,
}

pub open spec fn entries_of(v: Seq<(String, String)>) -> Seq<(Seq<char>, Seq<char>)> {
    v.map_values(|e: (String, String)| (e.0@, e.1@))
}

pub open spec fn has_name(s: Seq<(Seq<char>, Seq<char>)>, n: Seq<char>) -> bool {
    exists|i: int| 0 <= i < s.len() && #[trigger] s[i].0 == n
}

/// The mapping that a sequence of entries with distinct names stands for.
pub open spec fn map_of(s: Seq<(Seq<char>, Seq<char>)>) -> Map<Seq<char>, Seq<char>> {
    Map::new(
        |n: Seq<char>| has_name(s, n),
        |n: Seq<char>| path_of(s, n),
    )
}

/// The path of an entry named `n`.
pub open spec fn path_of(s: Seq<(Seq<char>, Seq<char>)>, n: Seq<char>) -> Seq<char> {
    s[index_of(s, n)].1
}

/// The position of an entry named `n`.
pub open spec fn index_of(s: Seq<(Seq<char>, Seq<char>)>, n: Seq<char>) -> int {
    choose|i: int| 0 <= i < s.len() && #[trigger] s[i].0 == n
}

/// Strictly increasing names; in particular no name occurs twice.
pub open spec fn sorted_by_name(s: Seq<(Seq<char>, Seq<char>)>) -> bool {
    forall|i: int, j: int| 0 <= i < j < s.len() ==> name_lt(#[trigger] s[i].0, #[trigger] s[j].0)
}

pub proof fn lemma_sorted_distinct(s: Seq<(Seq<char>, Seq<char>)>, i: int, j: int)
    requires
        sorted_by_name(s),
        0 <= i < s.len(),
        0 <= j < s.len(),
        s[i].0 == s[j].0,
    ensures
        i == j,
{
    if i < j || j < i {
        lemma_name_lt_irreflexive(s[i].0);
    }
}

/// In a sorted sequence each entry's name maps to that entry's path.
pub proof fn lemma_map_of_entry(s: Seq<(Seq<char>, Seq<char>)>, k: int)
    requires
        sorted_by_name(s),
        0 <= k < s.len(),
    ensures
        map_of(s).contains_key(s[k].0),
        map_of(s)[s[k].0] == s[k].1,
{
    let n = s[k].0;
    assert(has_name(s, n));
    let c = index_of(s, n);
    lemma_sorted_distinct(s, c, k);
    assert(map_of(s).contains_key(n));
    assert(path_of(s, n) == s[c].1);
    assert(map_of(s)[n] == path_of(s, n));
}

/// A sorted sequence stands for `m` when it has the same names with the same paths.
proof fn lemma_map_of_same(t: Seq<(Seq<char>, Seq<char>)>, m: Map<Seq<char>, Seq<char>>)
    requires
        sorted_by_name(t),
        forall|n: Seq<char>| has_name(t, n) <==> m.contains_key(n),
        forall|k: int| 0 <= k < t.len() ==> m[#[trigger] t[k].0] == t[k].1,
    ensures
        map_of(t) == m,
{
    assert forall|n: Seq<char>| #[trigger] map_of(t).contains_key(n) implies map_of(t)[n] == m[n] by {
        let k = choose|i: int| 0 <= i < t.len() && #[trigger] t[i].0 == n;
        lemma_map_of_entry(t, k);
    }
    assert(map_of(t) =~= m);
}

/// A store of targets, read from and written to the backing file at `config_path`.
pub struct TargetsFile {
    config_path: String,
    targets: Vec<(String, String)>,
}

impl TargetsFile {
    /// The entries in the order they are kept.
    pub closed spec fn entries(&self) -> Seq<(Seq<char>, Seq<char>)> {
        entries_of(self.targets@)
    }

    /// The backing file's path.
    pub closed spec fn config(&self) -> Seq<char> {
        self.config_path@
    }

    /// Where the store is written back to.
    pub fn config_path(&self) -> (r: &str)
        ensures
            r@ == self.config(),
    {
        self.config_path.as_str()
    }

    pub open spec fn wf(&self) -> bool {
        sorted_by_name(self.entries())
    }

    /// The name -> path mapping.
    pub open spec fn targets_map(&self) -> Map<Seq<char>, Seq<char>> {
        map_of(self.entries())
    }

    /// An empty store backed by `config_path`.
    pub fn new(config_path: String) -> (r: Self)
        ensures
            r.wf(),
            r.targets_map() == Map::<Seq<char>, Seq<char>>::empty(),
            r.config() == config_path@,
    {
        let r = TargetsFile { config_path, targets: Vec::new() };
        assert(r.targets_map() =~= Map::<Seq<char>, Seq<char>>::empty());
        r
    }

    /// Where `name` stands or would stand among the sorted entries, and
    /// whether it is there.
    fn position(&self, name: &str) -> (r: (usize, bool))
        requires
            self.wf(),
        ensures
            r.0 <= self.entries().len(),
            forall|i: int| 0 <= i < r.0 ==> name_lt(#[trigger] self.entries()[i].0, name@),
            r.1 ==> r.0 < self.entries().len() && self.entries()[r.0 as int].0 == name@,
            !r.1 ==> forall|j: int|
                r.0 <= j < self.entries().len() ==> name_lt(name@, #[trigger] self.entries()[j].0),
            r.1 == has_name(self.entries(), name@),
    {
        let ghost s = self.entries();
        let mut i: usize = 0;
        while i < self.targets.len() && name_less(self.targets[i].0.as_str(), name)
            invariant
                i <= self.targets@.len(),
                s == self.entries(),
                s.len() == self.targets@.len(),
                forall|k: int| 0 <= k < i ==> name_lt(#[trigger] s[k].0, name@),
            decreases self.targets@.len() - i,
        {
            i = i + 1;
        }
        let found = i < self.targets.len() && !name_less(name, self.targets[i].0.as_str());
        proof {
            if i < s.len() {
                if !found {
                    assert forall|j: int| i <= j < s.len() implies name_lt(name@, #[trigger] s[j].0) by {
                        if j > i {
                            lemma_name_lt_transitive(name@, s[i as int].0, s[j].0);
                        }
                    }
                } else if s[i as int].0 != name@ {
                    lemma_name_lt_total(s[i as int].0, name@);
                }
            }
            if has_name(s, name@) && !found {
                let k = choose|k: int| 0 <= k < s.len() && #[trigger] s[k].0 == name@;
                lemma_name_lt_irreflexive(name@);
            }
        }
        (i, found)
    }

    /// The path bound to `name`, if any.
    pub fn get(&self, name: &str) -> (r: Option<String>)
        requires
            self.wf(),
        ensures
            string_opt_view(r) == (if self.targets_map().contains_key(name@) {
                Some(self.targets_map()[name@])
            } else {
                None
            }),
    {
        let (i, found) = self.position(name);
        if found {
            proof {
                lemma_map_of_entry(self.entries(), i as int);
            }
            Some(self.targets[i].1.clone())
        } else {
            None
        }
    }

    /// Binds `name` to `path`, replacing any earlier binding of `name`.
    fn set(&mut self, name: String, path: String)
        requires
            old(self).wf(),
        ensures
            final(self).wf(),
            final(self).targets_map() == old(self).targets_map().insert(name@, path@),
            final(self).config() == old(self).config(),
    {
        let ghost s = self.entries();
        let ghost m = self.targets_map();
        let ghost n = name@;
        let ghost p = path@;
        let (i, found) = self.position(name.as_str());
        if found {
            self.targets.set(i, (name, path));
            proof {
                let t = self.entries();
                assert(t =~= s.update(i as int, (n, p)));
                let m2 = m.insert(n, p);
                assert forall|a: int, b: int| 0 <= a < b < t.len() implies name_lt(#[trigger] t[a].0, #[trigger] t[b].0) by {}
                assert forall|x: Seq<char>| has_name(t, x) <==> m2.contains_key(x) by {
                    if has_name(s, x) {
                        let k = choose|k: int| 0 <= k < s.len() && #[trigger] s[k].0 == x;
                        assert(t[k].0 == x);
                    }
                    if has_name(t, x) {
                        let k = choose|k: int| 0 <= k < t.len() && #[trigger] t[k].0 == x;
                        if k != i {
                            assert(s[k].0 == x);
                        }
                    }
                }
                assert forall|k: int| 0 <= k < t.len() implies m2[#[trigger] t[k].0] == t[k].1 by {
                    if k != i {
                        lemma_map_of_entry(s, k);
                        if t[k].0 == n {
                            lemma_sorted_distinct(t, k, i as int);
                        }
                    }
                }
                lemma_map_of_same(t, m2);
            }
        } else {
            self.targets.insert(i, (name, path));
            proof {
                let t = self.entries();
                assert(t =~= s.insert(i as int, (n, p)));
                let m2 = m.insert(n, p);
                assert forall|a: int, b: int| 0 <= a < b < t.len() implies name_lt(#[trigger] t[a].0, #[trigger] t[b].0) by {
                    if a < i && b > i {
                        assert(t[a].0 == s[a].0);
                        assert(t[b].0 == s[b - 1].0);
                    } else if a < i && b == i {
                    } else if a == i {
                        assert(t[b].0 == s[b - 1].0);
                    } else if a < i {
                    } else {
                        assert(t[a].0 == s[a - 1].0);
                        assert(t[b].0 == s[b - 1].0);
                    }
                }
                assert forall|x: Seq<char>| has_name(t, x) <==> m2.contains_key(x) by {
                    if has_name(s, x) {
                        let k = choose|k: int| 0 <= k < s.len() && #[trigger] s[k].0 == x;
                        if k < i {
                            assert(t[k].0 == x);
                        } else {
                            assert(t[k + 1].0 == x);
                        }
                    }
                    if x == n {
                        assert(t[i as int].0 == x);
                    }
                    if has_name(t, x) {
                        let k = choose|k: int| 0 <= k < t.len() && #[trigger] t[k].0 == x;
                        if k < i {
                            assert(s[k].0 == x);
                        } else if k > i {
                            assert(s[k - 1].0 == x);
                        }
                    }
                }
                assert forall|k: int| 0 <= k < t.len() implies m2[#[trigger] t[k].0] == t[k].1 by {
                    if k < i {
                        lemma_map_of_entry(s, k);
                        if t[k].0 == n {
                            lemma_sorted_distinct(t, k, i as int);
                        }
                    } else if k > i {
                        lemma_map_of_entry(s, k - 1);
                        if t[k].0 == n {
                            lemma_sorted_distinct(t, k, i as int);
                        }
                    }
                }
                lemma_map_of_same(t, m2);
            }
        }
    }
}

/// The name that a command acts on: the one given, or else the last
/// component of the current directory.
pub open spec fn resolved_name(name: Option<Seq<char>>, cwd: Seq<char>) -> Option<Seq<char>> {
    match name {
        Some(n) => Some(n),
        None => file_name_of(cwd),
    }
}

/// The path that `add` binds before expansion: the one given, or else the current directory.
pub open spec fn resolved_raw_path(path: Option<Seq<char>>, cwd: Seq<char>) -> Seq<char> {
    match path {
        Some(p) => p,
        None => cwd,
    }
}

/// One line of the backing file.
pub open spec fn line_of(e: (Seq<char>, Seq<char>)) -> Seq<char> {
    e.0 + seq![':'] + e.1
}

/// The backing file's text: one `name:path` line per entry, joined by newlines.
pub open spec fn render(s: Seq<(Seq<char>, Seq<char>)>) -> Seq<char>
    decreases s.len(),
{
    if s.len() == 0 {
        Seq::empty()
    } else if s.len() == 1 {
        line_of(s[0])
    } else {
        render(s.drop_last()) + seq!['\n'] + line_of(s.last())
    }
}

/// Resolves the name a command acts on: `name` if given, else the last
/// component of the current directory `cwd`.
pub fn get_name(name: Option<&str>, cwd: &str) -> (r: Result<String, TargetError>)
    ensures
        match resolved_name(str_opt_view(name), cwd@) {
            Some(n) => r matches Ok(s) && s@ == n,
            None => r matches Err(TargetError::NoCurrentDirectoryName),
        },
{
    match name {
        Some(n) => Ok(n.to_owned()),
        None => match file_name(cwd) {
            Some(n) => Ok(n),
            None => Err(TargetError::NoCurrentDirectoryName),
        },
    }
}

impl TargetsFile {
    /// Binds `name` to `path` unless `name` is bound already; the store is
    /// left as it was on refusal.
    pub fn add_target(&mut self, name: String, path: String) -> (r: Result<(), TargetError>)
        requires
            old(self).wf(),
        ensures
            final(self).wf(),
            final(self).config() == old(self).config(),
            old(self).targets_map().contains_key(name@) ==> {
                &&& final(self).targets_map() == old(self).targets_map()
                &&& r matches Err(TargetError::DuplicateTarget { name: e, same_path }) && e@ == name@
                    && same_path == (old(self).targets_map()[name@] == path@)
            },
            !old(self).targets_map().contains_key(name@) ==> {
                &&& r is Ok
                &&& final(self).targets_map() == old(self).targets_map().insert(name@, path@)
            },
    {
        match self.get(name.as_str()) {
            Some(existing) => {
                let same_path = existing == path;
                Err(TargetError::DuplicateTarget { name, same_path })
            },
            None => {
                self.set(name, path);
                Ok(())
            },
        }
    }

    /// Adds a target. The name defaults to the last component of the current
    /// directory `cwd`, the path to `cwd`; the path is expanded against `home`
    /// and `cwd`. An existing name is never overwritten.
    pub fn add(&mut self, name: Option<&str>, path: Option<&str>, home: Option<&str>, cwd: &str) -> (r: Result<(), TargetError>)
        requires
            old(self).wf(),
            is_absolute(cwd@),
        ensures
            final(self).wf(),
            final(self).config() == old(self).config(),
            match resolved_name(str_opt_view(name), cwd@) {
                None => {
                    &&& r matches Err(TargetError::NoCurrentDirectoryName)
                    &&& final(self).targets_map() == old(self).targets_map()
                },
                Some(n) => {
                    let p = expanded(resolved_raw_path(str_opt_view(path), cwd@), str_opt_view(home), cwd@);
                    if old(self).targets_map().contains_key(n) {
                        &&& final(self).targets_map() == old(self).targets_map()
                        &&& r matches Err(TargetError::DuplicateTarget { name: e, same_path }) && e@ == n
                            && same_path == (old(self).targets_map()[n] == p)
                    } else {
                        &&& r is Ok
                        &&& final(self).targets_map() == old(self).targets_map().insert(n, p)
                    }
                },
            },
    {
        let name = match get_name(name, cwd) {
            Ok(n) => n,
            Err(e) => return Err(e),
        };
        let raw = match path {
            Some(p) => p,
            None => cwd,
        };
        let path = expand_path(raw, home, cwd);
        self.add_target(name, path)
    }

    /// Unbinds `name`, which must be bound.
    pub fn remove_target(&mut self, name: &str) -> (r: Result<(), TargetError>)
        requires
            old(self).wf(),
        ensures
            final(self).wf(),
            final(self).config() == old(self).config(),
            old(self).targets_map().contains_key(name@) ==> {
                &&& r is Ok
                &&& final(self).targets_map() == old(self).targets_map().remove(name@)
            },
            !old(self).targets_map().contains_key(name@) ==> {
                &&& r matches Err(TargetError::TargetNotFound { name: e }) && e@ == name@
                &&& final(self).targets_map() == old(self).targets_map()
            },
    {
        let ghost s = self.entries();
        let ghost m = self.targets_map();
        let (i, found) = self.position(name);
        if !found {
            return Err(TargetError::TargetNotFound { name: name.to_owned() });
        }
        self.targets.remove(i);
        proof {
            let t = self.entries();
            let n = name@;
            assert(t =~= s.remove(i as int));
            let m2 = m.remove(n);
            assert forall|a: int, b: int| 0 <= a < b < t.len() implies name_lt(#[trigger] t[a].0, #[trigger] t[b].0) by {
                if a >= i {
                    assert(t[a].0 == s[a + 1].0);
                }
                if b >= i {
                    assert(t[b].0 == s[b + 1].0);
                }
            }
            assert forall|x: Seq<char>| has_name(t, x) <==> m2.contains_key(x) by {
                if has_name(s, x) && x != n {
                    let k = choose|k: int| 0 <= k < s.len() && #[trigger] s[k].0 == x;
                    if k < i {
                        assert(t[k].0 == x);
                    } else {
                        assert(t[k - 1].0 == x);
                    }
                }
                if has_name(t, x) {
                    let k = choose|k: int| 0 <= k < t.len() && #[trigger] t[k].0 == x;
                    if k < i {
                        assert(s[k].0 == x);
                        if x == n {
                            lemma_sorted_distinct(s, k, i as int);
                        }
                    } else {
                        assert(s[k + 1].0 == x);
                        if x == n {
                            lemma_sorted_distinct(s, k + 1, i as int);
                        }
                    }
                }
            }
            assert forall|k: int| 0 <= k < t.len() implies m2[#[trigger] t[k].0] == t[k].1 by {
                if k < i {
                    lemma_map_of_entry(s, k);
                    if s[k].0 == n {
                        lemma_sorted_distinct(s, k, i as int);
                    }
                } else {
                    lemma_map_of_entry(s, k + 1);
                    if s[k + 1].0 == n {
                        lemma_sorted_distinct(s, k + 1, i as int);
                    }
                }
            }
            lemma_map_of_same(t, m2);
        }
        Ok(())
    }

    /// Removes a target. The name defaults to the last component of the
    /// current directory `cwd`.
    pub fn remove(&mut self, name: Option<&str>, cwd: &str) -> (r: Result<(), TargetError>)
        requires
            old(self).wf(),
        ensures
            final(self).wf(),
            final(self).config() == old(self).config(),
            match resolved_name(str_opt_view(name), cwd@) {
                None => {
                    &&& r matches Err(TargetError::NoCurrentDirectoryName)
                    &&& final(self).targets_map() == old(self).targets_map()
                },
                Some(n) => if old(self).targets_map().contains_key(n) {
                    &&& r is Ok
                    &&& final(self).targets_map() == old(self).targets_map().remove(n)
                } else {
                    &&& r matches Err(TargetError::TargetNotFound { name: e }) && e@ == n
                    &&& final(self).targets_map() == old(self).targets_map()
                },
            },
    {
        let name = match get_name(name, cwd) {
            Ok(n) => n,
            Err(e) => return Err(e),
        };
        self.remove_target(name.as_str())
    }

    /// All targets as `(name, path)` pairs, sorted by name.
    pub fn items(&self) -> (r: Vec<(String, String)>)
        requires
            self.wf(),
        ensures
            entries_of(r@) == self.entries(),
            sorted_by_name(entries_of(r@)),
            map_of(entries_of(r@)) == self.targets_map(),
    {
        let mut r: Vec<(String, String)> = Vec::new();
        let mut i: usize = 0;
        while i < self.targets.len()
            invariant
                i <= self.targets@.len(),
                entries_of(r@) =~= self.entries().take(i as int),
            decreases self.targets@.len() - i,
        {
            let name = self.targets[i].0.clone();
            let path = self.targets[i].1.clone();
            let ghost r0 = r@;
            r.push((name, path));
            proof {
                assert(r@ == r0.push((name, path)));
                assert(entries_of(r@) =~= entries_of(r0).push((name@, path@)));
                assert(self.entries()[i as int] == (name@, path@));
                assert(self.entries().take(i + 1) =~= self.entries().take(i as int).push((name@, path@)));
            }
            i = i + 1;
        }
        assert(self.entries().take(i as int) =~= self.entries());
        r
    }

    /// The full text of the backing file for this store.
    pub fn write(&self) -> (r: String)
        ensures
            r@ == render(self.entries()),
    {
        let ghost s = self.entries();
        let mut out = String::new();
        let mut i: usize = 0;
        proof {
            reveal_strlit("\n");
            reveal_strlit(":");
        }
        while i < self.targets.len()
            invariant
                i <= self.targets@.len(),
                s == self.entries(),
                s.len() == self.targets@.len(),
                out@ == render(s.take(i as int)),
                "\n"@ == seq!['\n'],
                ":"@ == seq![':'],
            decreases self.targets@.len() - i,
        {
            if i > 0 {
                out.append("\n");
            }
            out.append(self.targets[i].0.as_str());
            out.append(":");
            out.append(self.targets[i].1.as_str());
            assert(s.take(i + 1).drop_last() =~= s.take(i as int));
            i = i + 1;
        }
        assert(s.take(i as int) =~= s);
        out
    }
}

/// The characters after the last newline of `t`.
pub open spec fn tail_of(t: Seq<char>) -> Seq<char>
    decreases t.len(),
{
    if t.len() == 0 {
        Seq::empty()
    } else if t.last() == '\n' {
        Seq::empty()
    } else {
        tail_of(t.drop_last()).push(t.last())
    }
}

/// A line without the `\r` of a `\r\n` ending.
pub open spec fn strip_cr(l: Seq<char>) -> Seq<char> {
    if l.len() > 0 && l.last() == '\r' {
        l.drop_last()
    } else {
        l
    }
}

/// The lines of `t` that a newline ends, without their line ending.
pub open spec fn ended_lines(t: Seq<char>) -> Seq<Seq<char>>
    decreases t.len(),
{
    if t.len() == 0 {
        Seq::empty()
    } else if t.last() == '\n' {
        ended_lines(t.drop_last()).push(strip_cr(tail_of(t.drop_last())))
    } else {
        ended_lines(t.drop_last())
    }
}

/// The lines of a text; a final line ending is optional.
pub open spec fn text_lines(t: Seq<char>) -> Seq<Seq<char>> {
    if tail_of(t).len() == 0 {
        ended_lines(t)
    } else {
        ended_lines(t).push(tail_of(t))
    }
}

/// The index of the first `:` in `l`, or its length when there is none.
pub open spec fn first_colon(l: Seq<char>) -> int
    decreases l.len(),
{
    if l.len() == 0 {
        0
    } else if l[0] == ':' {
        0
    } else {
        1 + first_colon(l.drop_first())
    }
}

/// A line split at its first `:` into name and raw path; `None` without a `:`.
pub open spec fn split_entry(l: Seq<char>) -> Option<(Seq<char>, Seq<char>)> {
    let k = first_colon(l);
    if k < l.len() {
        Some((l.take(k), l.skip(k + 1)))
    } else {
        None
    }
}

/// The entries of a sequence of lines, skipping those without a `:`.
pub open spec fn entries_in(lines: Seq<Seq<char>>) -> Seq<(Seq<char>, Seq<char>)>
    decreases lines.len(),
{
    if lines.len() == 0 {
        Seq::empty()
    } else {
        match split_entry(lines.last()) {
            Some(e) => entries_in(lines.drop_last()).push(e),
            None => entries_in(lines.drop_last()),
        }
    }
}

/// The raw `(name, path)` entries of a backing file's text, in file order.
pub open spec fn parse_text(t: Seq<char>) -> Seq<(Seq<char>, Seq<char>)> {
    entries_in(text_lines(t))
}

proof fn lemma_first_colon(l: Seq<char>, k: int)
    requires
        0 <= k <= l.len(),
        forall|j: int| 0 <= j < k ==> l[j] != ':',
        k == l.len() || l[k] == ':',
    ensures
        first_colon(l) == k,
    decreases k,
{
    if k > 0 {
        lemma_first_colon(l.drop_first(), k - 1);
    }
}

fn chars_of(s: &str) -> (r: Vec<char>)
    ensures
        r@ == s@,
{
    let mut r: Vec<char> = Vec::new();
    for c in it: s.chars()
        invariant
            r@ == it.seq().take(it.index() as int),
    {
        r.push(c);
    }
    r
}

/// The entry on the line `content[start..end]`, if the line has a `:`.
fn line_entry(content: &str, chars: &Vec<char>, start: usize, end: usize) -> (r: Option<(String, String)>)
    requires
        chars@ == content@,
        start <= end <= chars@.len(),
    ensures
        match r {
            Some(e) => split_entry(content@.subrange(start as int, end as int)) == Some((e.0@, e.1@)),
            None => split_entry(content@.subrange(start as int, end as int)) is None,
        },
{
    let ghost l = content@.subrange(start as int, end as int);
    let mut k: usize = start;
    while k < end && chars[k] != ':'
        invariant
            start <= k <= end,
            end <= chars@.len(),
            forall|j: int| start <= j < k ==> chars@[j] != ':',
        decreases end - k,
    {
        k = k + 1;
    }
    proof {
        lemma_first_colon(l, k - start);
    }
    if k < end {
        let name = content.substring_char(start, k).to_owned();
        let path = content.substring_char(k + 1, end).to_owned();
        assert(l.take(k - start) =~= content@.subrange(start as int, k as int));
        assert(l.skip(k - start + 1) =~= content@.subrange(k + 1, end as int));
        Some((name, path))
    } else {
        None
    }
}

/// Splits a backing file's text into its raw `(name, path)` entries: one per
/// line that holds a `:`, split at the first `:`; other lines are skipped.
pub fn parse_entries(content: &str) -> (r: Vec<(String, String)>)
    ensures
        entries_of(r@) == parse_text(content@),
{
    let chars = chars_of(content);
    let ghost t = content@;
    let mut r: Vec<(String, String)> = Vec::new();
    let mut start: usize = 0;
    let mut i: usize = 0;
    assert(t.take(0) =~= Seq::<char>::empty());
    while i < chars.len()
        invariant
            chars@ == t,
            t == content@,
            start <= i <= t.len(),
            tail_of(t.take(i as int)) == t.subrange(start as int, i as int),
            entries_of(r@) == entries_in(ended_lines(t.take(i as int))),
        decreases t.len() - i,
    {
        assert(t.take(i + 1).drop_last() =~= t.take(i as int));
        if chars[i] == '\n' {
            let end: usize = if i > start && chars[i - 1] == '\r' { i - 1 } else { i };
            let ghost line = t.subrange(start as int, i as int);
            assert(strip_cr(line) =~= t.subrange(start as int, end as int));
            let ghost lines = ended_lines(t.take(i as int)).push(strip_cr(line));
            assert(lines.drop_last() =~= ended_lines(t.take(i as int)));
            let ghost r0 = r@;
            match line_entry(content, &chars, start, end) {
                Some(e) => {
                    r.push(e);
                    assert(entries_of(r@) =~= entries_of(r0).push((e.0@, e.1@)));
                },
                None => {},
            }
            start = i + 1;
            assert(t.subrange(start as int, i + 1) =~= Seq::<char>::empty());
        } else {
            assert(t.subrange(start as int, i + 1) =~= t.subrange(start as int, i as int).push(t[i as int]));
        }
        i = i + 1;
    }
    assert(t.take(i as int) =~= t);
    if start < i {
        let ghost line = t.subrange(start as int, i as int);
        let ghost lines = ended_lines(t).push(line);
        assert(lines.drop_last() =~= ended_lines(t));
        let ghost r0 = r@;
        match line_entry(content, &chars, start, i) {
            Some(e) => {
                r.push(e);
                assert(entries_of(r@) =~= entries_of(r0).push((e.0@, e.1@)));
            },
            None => {},
        }
    }
    r
}

/// Each entry's path expanded against `home` and `cwd`.
pub open spec fn expand_all(s: Seq<(Seq<char>, Seq<char>)>, home: Option<Seq<char>>, cwd: Seq<char>) -> Seq<(Seq<char>, Seq<char>)> {
    s.map_values(|e: (Seq<char>, Seq<char>)| (e.0, expanded(e.1, home, cwd)))
}

/// The mapping that binding the entries in order gives: a later entry of a
/// name replaces an earlier one.
pub open spec fn bindings(s: Seq<(Seq<char>, Seq<char>)>) -> Map<Seq<char>, Seq<char>>
    decreases s.len(),
{
    if s.len() == 0 {
        Map::empty()
    } else {
        bindings(s.drop_last()).insert(s.last().0, s.last().1)
    }
}

/// The entries whose flag in `present` equals `want`, in order.
pub open spec fn select(s: Seq<(Seq<char>, Seq<char>)>, present: Seq<bool>, want: bool) -> Seq<(Seq<char>, Seq<char>)>
    decreases s.len(),
{
    if s.len() == 0 || present.len() == 0 {
        Seq::empty()
    } else if present.last() == want {
        select(s.drop_last(), present.drop_last(), want).push(s.last())
    } else {
        select(s.drop_last(), present.drop_last(), want)
    }
}

/// Every selected entry is an entry of `s` whose flag is `want`.
pub proof fn lemma_select_members(s: Seq<(Seq<char>, Seq<char>)>, present: Seq<bool>, want: bool)
    requires
        s.len() == present.len(),
    ensures
        forall|j: int| 0 <= j < select(s, present, want).len() ==> exists|i: int|
            0 <= i < s.len() && present[i] == want && #[trigger] select(s, present, want)[j] == s[i],
    decreases s.len(),
{
    if s.len() > 0 {
        let (t, p) = (s.drop_last(), present.drop_last());
        lemma_select_members(t, p, want);
        let r = select(s, present, want);
        assert forall|j: int| 0 <= j < r.len() implies exists|i: int|
            0 <= i < s.len() && present[i] == want && #[trigger] r[j] == s[i] by {
            if present.last() == want && j == r.len() - 1 {
                assert(r[j] == s[s.len() - 1]);
            } else {
                let i = choose|i: int| 0 <= i < t.len() && p[i] == want && #[trigger] select(t, p, want)[j] == t[i];
                assert(r[j] == s[i]);
            }
        }
    }
}

/// Entries picked out of a sorted sequence stay sorted.
pub proof fn lemma_select_sorted(s: Seq<(Seq<char>, Seq<char>)>, present: Seq<bool>, want: bool)
    requires
        s.len() == present.len(),
        sorted_by_name(s),
    ensures
        sorted_by_name(select(s, present, want)),
    decreases s.len(),
{
    if s.len() > 0 {
        let (t, p) = (s.drop_last(), present.drop_last());
        lemma_select_sorted(t, p, want);
        lemma_select_members(t, p, want);
        let r = select(s, present, want);
        if present.last() == want {
            let q = select(t, p, want);
            assert forall|a: int, b: int| 0 <= a < b < r.len() implies name_lt(#[trigger] r[a].0, #[trigger] r[b].0) by {
                if b == r.len() - 1 {
                    let i = choose|i: int| 0 <= i < t.len() && p[i] == want && #[trigger] q[a] == t[i];
                    assert(r[a] == s[i]);
                    assert(r[b] == s[s.len() - 1]);
                }
            }
        }
    }
}

impl TargetsFile {
    /// The store that the backing file's text `content` describes: each raw
    /// path is expanded against `home` and `cwd`; of two lines with one name
    /// the later wins.
    pub fn read(config_path: String, content: &str, home: Option<&str>, cwd: &str) -> (r: Self)
        requires
            is_absolute(cwd@),
        ensures
            r.wf(),
            r.config() == config_path@,
            r.targets_map() == bindings(expand_all(parse_text(content@), str_opt_view(home), cwd@)),
    {
        let raw = parse_entries(content);
        let ghost x = expand_all(parse_text(content@), str_opt_view(home), cwd@);
        let mut store = TargetsFile::new(config_path);
        let mut i: usize = 0;
        while i < raw.len()
            invariant
                i <= raw@.len(),
                entries_of(raw@) == parse_text(content@),
                x == expand_all(parse_text(content@), str_opt_view(home), cwd@),
                is_absolute(cwd@),
                store.wf(),
                store.config() == config_path@,
                store.targets_map() == bindings(x.take(i as int)),
            decreases raw@.len() - i,
        {
            let name = raw[i].0.clone();
            let path = expand_path(raw[i].1.as_str(), home, cwd);
            store.set(name, path);
            assert(x.take(i + 1).drop_last() =~= x.take(i as int));
            i = i + 1;
        }
        assert(x.take(i as int) =~= x);
        store
    }
}

/// Drops the targets whose path is gone. `present[i]` tells whether the path
/// of the `i`-th target in name order exists. Returns the cleaned store and
/// the removed targets, in name order.
pub fn clean(target_file: &TargetsFile, present: &Vec<bool>) -> (r: (TargetsFile, Vec<(String, String)>))
    requires
        target_file.wf(),
        present@.len() == target_file.entries().len(),
    ensures
        r.0.wf(),
        r.0.config() == target_file.config(),
        r.0.entries() == select(target_file.entries(), present@, true),
        entries_of(r.1@) == select(target_file.entries(), present@, false),
{
    let ghost s = target_file.entries();
    let mut kept: Vec<(String, String)> = Vec::new();
    let mut removed: Vec<(String, String)> = Vec::new();
    let mut i: usize = 0;
    while i < target_file.targets.len()
        invariant
            i <= s.len(),
            s == target_file.entries(),
            s.len() == target_file.targets@.len(),
            present@.len() == s.len(),
            entries_of(kept@) == select(s.take(i as int), present@.take(i as int), true),
            entries_of(removed@) == select(s.take(i as int), present@.take(i as int), false),
        decreases s.len() - i,
    {
        let name = target_file.targets[i].0.clone();
        let path = target_file.targets[i].1.clone();
        assert(s.take(i + 1).drop_last() =~= s.take(i as int));
        assert(present@.take(i + 1).drop_last() =~= present@.take(i as int));
        let ghost k0 = kept@;
        let ghost r0 = removed@;
        if present[i] {
            kept.push((name, path));
            assert(entries_of(kept@) =~= entries_of(k0).push((name@, path@)));
        } else {
            removed.push((name, path));
            assert(entries_of(removed@) =~= entries_of(r0).push((name@, path@)));
        }
        i = i + 1;
    }
    assert(s.take(i as int) =~= s);
    assert(present@.take(i as int) =~= present@);
    proof {
        lemma_select_sorted(s, present@, true);
    }
    let cleaned = TargetsFile { config_path: target_file.config_path.clone(), targets: kept };
    (cleaned, removed)
}

} // verus!
