use vstd::prelude::*;

use crate::text::{
    char_lines, copy_range, digits_value, is_number, lines_of, parse_decimal, rows_view, same_chars,
    split_first, split_once, stands_at, starts,
};

verus! {

/// Largest file size that the parser accepts.
pub const MAX_FILE: u64 = 0xffff_ffff;

pub struct File {
    pub size: u64,
    pub name: Vec<char>,
}

/// An entry of a directory: a file, or the directory at an index of the arena.
pub enum DirectoryEntry {
    Directory(usize),
    File(File),
}

/// A directory of the arena: its entries, its name and the index of the
/// directory that holds it.
pub struct Directory {
    pub entries: Vec<DirectoryEntry>,
    pub name: Vec<char>,
    pub parent: Option<usize>,
}

/// What an entry says: a directory index, or a file's size and name.
pub enum EntryModel {
    Dir(int),
    File(nat, Seq<char>),
}

pub struct DirModel {
    pub entries: Seq<EntryModel>,
    pub name: Seq<char>,
    pub parent: Option<int>,
}

/// Why a listing cannot be read.
#[derive(Debug, PartialEq, Eq, Clone, Copy, Structural)]
pub enum TreeError {
    /// `cd ..` in the top directory.
    NoParent,
    /// `cd` into a directory that was not listed.
    NoSuchDir,
    /// A line that is neither a command, a directory nor a file.
    BadLine,
}

impl DirectoryEntry {
    pub open spec fn model(&self) -> EntryModel {
        match self {
            DirectoryEntry::Directory(j) => EntryModel::Dir(*j as int),
            DirectoryEntry::File(f) => EntryModel::File(f.size as nat, f.name@),
        }
    }
}

impl Directory {
    pub open spec fn model(&self) -> DirModel {
        DirModel {
            entries: self.entries@.map_values(|e: DirectoryEntry| e.model()),
            name: self.name@,
            parent: match self.parent {
                Some(p) => Some(p as int),
                None => None,
            },
        }
    }
}

pub open spec fn tree_model(dirs: Seq<Directory>) -> Seq<DirModel> {
    dirs.map_values(|d: Directory| d.model())
}

/// Directory 0 exists, `cur` is a directory, and every directory holds only
/// directories of higher index, its parent being of lower index.
pub open spec fn wf(ds: Seq<DirModel>, cur: int) -> bool {
    &&& 0 <= cur < ds.len()
    &&& forall|i: int, k: int|
        0 <= i < ds.len() && 0 <= k < ds[i].entries.len() ==> match #[trigger] ds[i].entries[k] {
            EntryModel::Dir(j) => i < j < ds.len(),
            EntryModel::File(_, _) => true,
        }
    &&& forall|i: int|
        0 <= i < ds.len() ==> match (#[trigger] ds[i]).parent {
            Some(p) => 0 <= p < i,
            None => true,
        }
}

/// The first directory among `es` called `name`.
pub open spec fn find_child(ds: Seq<DirModel>, es: Seq<EntryModel>, name: Seq<char>) -> Option<int>
    decreases es.len(),
{
    if es.len() == 0 {
        None
    } else {
        match es[0] {
            EntryModel::Dir(j) => if 0 <= j < ds.len() && ds[j].name == name {
                Some(j)
            } else {
                find_child(ds, es.drop_first(), name)
            },
            EntryModel::File(_, _) => find_child(ds, es.drop_first(), name),
        }
    }
}

pub open spec fn word_cd() -> Seq<char> {
    seq!['$', ' ', 'c', 'd', ' ']
}

pub open spec fn word_ls() -> Seq<char> {
    seq!['$', ' ', 'l', 's']
}

pub open spec fn word_dir() -> Seq<char> {
    seq!['d', 'i', 'r', ' ']
}

/// `ds` with `e` added to the entries of directory `cur`.
pub open spec fn add_entry(ds: Seq<DirModel>, cur: int, e: EntryModel) -> Seq<DirModel> {
    ds.update(cur, DirModel { entries: ds[cur].entries.push(e), name: ds[cur].name, parent: ds[cur].parent })
}

/// The effect of one line of the listing on the directories `ds` and the
/// current directory `cur`.
pub open spec fn run_line(ds: Seq<DirModel>, cur: int, l: Seq<char>) -> Result<(Seq<DirModel>, int), TreeError> {
    if starts(l, word_cd()) {
        let arg = l.subrange(5, l.len() as int);
        if arg == seq!['/'] {
            Ok((ds, 0))
        } else if arg == seq!['.', '.'] {
            match ds[cur].parent {
                Some(p) => Ok((ds, p)),
                None => Err(TreeError::NoParent),
            }
        } else {
            match find_child(ds, ds[cur].entries, arg) {
                Some(j) => Ok((ds, j)),
                None => Err(TreeError::NoSuchDir),
            }
        }
    } else if starts(l, word_ls()) {
        Ok((ds, cur))
    } else if starts(l, word_dir()) {
        let d = DirModel { entries: Seq::empty(), name: l.subrange(4, l.len() as int), parent: Some(cur) };
        Ok((add_entry(ds, cur, EntryModel::Dir(ds.len() as int)).push(d), cur))
    } else {
        match split_first(l, ' ') {
            Some((a, b)) => if is_number(a) && digits_value(a) <= MAX_FILE && !b.contains(' ') {
                Ok((add_entry(ds, cur, EntryModel::File(digits_value(a), b)), cur))
            } else {
                Err(TreeError::BadLine)
            },
            None => Err(TreeError::BadLine),
        }
    }
}

/// The top directory, empty.
pub open spec fn top() -> DirModel {
    DirModel { entries: Seq::empty(), name: Seq::empty(), parent: None }
}

/// The directories and the current directory after the lines `ls`, or the
/// first error.
pub open spec fn run(ls: Seq<Seq<char>>) -> Result<(Seq<DirModel>, int), TreeError>
    decreases ls.len(),
{
    if ls.len() == 0 {
        Ok((seq![top()], 0))
    } else {
        match run(ls.drop_last()) {
            Ok((ds, cur)) => run_line(ds, cur, ls.last()),
            Err(e) => Err(e),
        }
    }
}

/// The sizes of the first `k` entries of directory `i`, directories counted
/// with everything below them.
pub open spec fn dsize(ds: Seq<DirModel>, i: int, k: int) -> int
    decreases ds.len() - i, k,
{
    if !(0 <= i < ds.len()) || k <= 0 || k > ds[i].entries.len() {
        0
    } else {
        dsize(ds, i, k - 1) + match ds[i].entries[k - 1] {
            EntryModel::File(s, _) => s as int,
            EntryModel::Dir(j) => if i < j < ds.len() {
                dsize(ds, j, ds[j].entries.len() as int)
            } else {
                0
            },
        }
    }
}

/// The total size of directory `i`.
pub open spec fn size_of(ds: Seq<DirModel>, i: int) -> int {
    dsize(ds, i, ds[i].entries.len() as int)
}

proof fn lemma_dsize_mono(ds: Seq<DirModel>, i: int, k: int)
    requires
        0 <= i < ds.len(),
        0 <= k <= ds[i].entries.len(),
    ensures
        0 <= dsize(ds, i, k) <= size_of(ds, i),
    decreases ds[i].entries.len() - k,
{
    lemma_dsize_nonneg(ds, i, k);
    if k < ds[i].entries.len() {
        lemma_dsize_mono(ds, i, k + 1);
        match ds[i].entries[k] {
            EntryModel::Dir(j) => {
                if i < j < ds.len() {
                    lemma_dsize_nonneg(ds, j, ds[j].entries.len() as int);
                }
            },
            EntryModel::File(_, _) => {},
        }
    }
}

proof fn lemma_dsize_nonneg(ds: Seq<DirModel>, i: int, k: int)
    ensures
        dsize(ds, i, k) >= 0,
    decreases ds.len() - i, k,
{
    if 0 <= i < ds.len() && 0 < k <= ds[i].entries.len() {
        lemma_dsize_nonneg(ds, i, k - 1);
        match ds[i].entries[k - 1] {
            EntryModel::Dir(j) => {
                if i < j < ds.len() {
                    lemma_dsize_nonneg(ds, j, ds[j].entries.len() as int);
                }
            },
            EntryModel::File(_, _) => {},
        }
    }
}

/// Directories of at most this size count for `part_one`.
pub const SMALL_DIR: u64 = 100_000;

/// Sum of the sizes of the directories below `n` that are at most `SMALL_DIR`.
pub open spec fn small_total(ds: Seq<DirModel>, n: int) -> int
    decreases n,
{
    if n <= 0 {
        0
    } else {
        small_total(ds, n - 1) + if size_of(ds, n - 1) <= SMALL_DIR {
            size_of(ds, n - 1)
        } else {
            0
        }
    }
}

/// The sizes, in arena order, of the directories below `n` of at least `needed`.
pub open spec fn big_sizes(ds: Seq<DirModel>, needed: int, n: int) -> Seq<int>
    decreases n,
{
    if n <= 0 {
        Seq::empty()
    } else if size_of(ds, n - 1) >= needed {
        big_sizes(ds, needed, n - 1).push(size_of(ds, n - 1))
    } else {
        big_sizes(ds, needed, n - 1)
    }
}

proof fn lemma_big_sizes(ds: Seq<DirModel>, needed: int, n: int)
    requires
        0 <= n,
    ensures
        forall|x: int| #[trigger] big_sizes(ds, needed, n).contains(x) <==> exists|i: int|
            0 <= i < n && size_of(ds, i) >= needed && x == size_of(ds, i),
    decreases n,
{
    if n > 0 {
        lemma_big_sizes(ds, needed, n - 1);
        let p = big_sizes(ds, needed, n - 1);
        assert forall|x: int| #[trigger] big_sizes(ds, needed, n).contains(x) <==> exists|i: int|
            0 <= i < n && size_of(ds, i) >= needed && x == size_of(ds, i) by {
            let q = big_sizes(ds, needed, n);
            let e = exists|i: int| 0 <= i < n && size_of(ds, i) >= needed && x == size_of(ds, i);
            let ep = exists|i: int| 0 <= i < n - 1 && size_of(ds, i) >= needed && x == size_of(ds, i);
            assert(p.contains(x) == ep);
            if size_of(ds, n - 1) >= needed {
                assert(q == p.push(size_of(ds, n - 1)));
                if q.contains(x) {
                    let k = choose|k: int| 0 <= k < q.len() && q[k] == x;
                    if k < p.len() {
                        assert(p[k] == x);
                        assert(p.contains(x));
                    }
                }
                if e {
                    let i = choose|i: int| 0 <= i < n && size_of(ds, i) >= needed && x == size_of(ds, i);
                    if i < n - 1 {
                        assert(ep);
                        let k = choose|k: int| 0 <= k < p.len() && p[k] == x;
                        assert(q[k] == x);
                    } else {
                        assert(q[p.len() as int] == x);
                    }
                }
            } else {
                assert(q == p);
                if e {
                    let i = choose|i: int| 0 <= i < n && size_of(ds, i) >= needed && x == size_of(ds, i);
                    assert(i < n - 1);
                    assert(ep);
                }
            }
        }
    }
}

proof fn lemma_find_child_in(ds: Seq<DirModel>, es: Seq<EntryModel>, name: Seq<char>)
    ensures
        match find_child(ds, es, name) {
            Some(j) => 0 <= j < ds.len() && exists|k: int| 0 <= k < es.len() && es[k] == EntryModel::Dir(j),
            None => true,
        },
    decreases es.len(),
{
    if es.len() > 0 {
        lemma_find_child_in(ds, es.drop_first(), name);
        match find_child(ds, es.drop_first(), name) {
            Some(j) => {
                if find_child(ds, es, name) == Some(j) && es[0] != EntryModel::Dir(j) {
                    let k = choose|k: int| 0 <= k < es.len() - 1 && es.drop_first()[k] == EntryModel::Dir(j);
                    assert(es[k + 1] == EntryModel::Dir(j));
                }
            },
            None => {},
        }
    }
}

proof fn lemma_model_step(dirs: Seq<Directory>, i: int)
    requires
        0 <= i < dirs.len(),
    ensures
        tree_model(dirs)[i] == dirs[i].model(),
        tree_model(dirs).len() == dirs.len(),
{
}

proof fn lemma_find_step(ds: Seq<DirModel>, es: Seq<EntryModel>, k: int, name: Seq<char>)
    requires
        0 <= k < es.len(),
    ensures
        es.subrange(k, es.len() as int)[0] == es[k],
        es.subrange(k, es.len() as int).drop_first() == es.subrange(k + 1, es.len() as int),
{
    assert(es.subrange(k, es.len() as int).drop_first() =~= es.subrange(k + 1, es.len() as int));
}

impl Directory {
    /// The first directory called `name` in directory `cur` of the arena `dirs`.
    pub fn cd(dirs: &Vec<Directory>, cur: usize, name: &Vec<char>) -> (r: Option<usize>)
        requires
            wf(tree_model(dirs@), cur as int),
        ensures
            match find_child(tree_model(dirs@), tree_model(dirs@)[cur as int].entries, name@) {
                Some(j) => r == Some(j as usize) && cur < j < dirs.len(),
                None => r is None,
            },
    {
        let ghost ds = tree_model(dirs@);
        let d = &dirs[cur];
        let ghost es = ds[cur as int].entries;
        proof {
            lemma_model_step(dirs@, cur as int);
            assert(es.subrange(0, es.len() as int) =~= es);
            lemma_find_child_in(ds, es, name@);
            match find_child(ds, es, name@) {
                Some(j) => {
                    let k = choose|k: int| 0 <= k < es.len() && es[k] == EntryModel::Dir(j);
                    assert(match ds[cur as int].entries[k] {
                        EntryModel::Dir(j) => cur < j < ds.len(),
                        EntryModel::File(_, _) => true,
                    });
                },
                None => {},
            }
        }
        let mut k: usize = 0;
        while k < d.entries.len()
            invariant
                ds == tree_model(dirs@),
                wf(ds, cur as int),
                d == dirs@[cur as int],
                es == ds[cur as int].entries,
                es.len() == d.entries.len(),
                k <= d.entries.len(),
                find_child(ds, es, name@) == find_child(ds, es.subrange(k as int, es.len() as int), name@),
                forall|j: int| #[trigger] find_child(ds, es, name@) == Some(j) ==> cur < j < ds.len(),
            decreases d.entries.len() - k,
        {
            proof {
                lemma_find_step(ds, es, k as int, name@);
                assert(es[k as int] == d.entries@[k as int].model());
            }
            match &d.entries[k] {
                DirectoryEntry::Directory(j) => {
                    let j = *j;
                    proof {
                        assert(cur < j < ds.len());
                        lemma_model_step(dirs@, j as int);
                    }
                    if same_chars(&dirs[j].name, name) {
                        return Some(j);
                    }
                },
                DirectoryEntry::File(_) => {},
            }
            k += 1;
        }
        None
    }

    /// Reads a terminal listing of `cd` and `ls` commands into an arena of
    /// directories, the top directory at index 0.
    pub fn from_str(s: &str) -> (r: Result<Vec<Directory>, TreeError>)
        ensures
            match r {
                Ok(dirs) => run(lines_of(s@)) is Ok && run(lines_of(s@))->Ok_0.0 == tree_model(dirs@)
                    && wf(tree_model(dirs@), 0),
                Err(e) => run(lines_of(s@)) == Err::<(Seq<DirModel>, int), TreeError>(e),
            },
    {
        let lines = char_lines(s);
        let ghost ls = lines_of(s@);
        let mut dirs: Vec<Directory> = Vec::new();
        dirs.push(Directory { entries: Vec::new(), name: Vec::new(), parent: None });
        let mut cur: usize = 0;
        proof {
            assert(dirs@[0].entries@.map_values(|e: DirectoryEntry| e.model()) =~= Seq::<EntryModel>::empty());
            assert(dirs@[0].name@ =~= Seq::<char>::empty());
            assert(tree_model(dirs@)[0] == top());
            assert(tree_model(dirs@) =~= seq![top()]);
            assert(ls.subrange(0, 0) =~= Seq::<Seq<char>>::empty());
        }
        let mut i: usize = 0;
        while i < lines.len()
            invariant
                ls == lines_of(s@),
                rows_view(&lines) == ls,
                i <= lines.len(),
                wf(tree_model(dirs@), cur as int),
                run(ls.subrange(0, i as int)) == Ok::<(Seq<DirModel>, int), TreeError>((tree_model(dirs@), cur as int)),
            decreases lines.len() - i,
        {
            proof {
                assert(lines@[i as int]@ == ls[i as int]);
                assert(ls.subrange(0, i as int + 1).drop_last() =~= ls.subrange(0, i as int));
            }
            match step(&mut dirs, cur, &lines[i]) {
                Ok(c) => {
                    cur = c;
                },
                Err(e) => {
                    proof {
                        lemma_run_error(ls, i as int + 1);
                    }
                    return Err(e);
                },
            }
            i += 1;
        }
        proof {
            assert(ls.subrange(0, i as int) =~= ls);
            assert(wf(tree_model(dirs@), 0));
        }
        Ok(dirs)
    }

    /// The total size of directory `i` of the arena `dirs`.
    pub fn size(dirs: &Vec<Directory>, i: usize) -> (r: u64)
        requires
            wf(tree_model(dirs@), 0),
            i < dirs.len(),
            size_of(tree_model(dirs@), i as int) <= u64::MAX,
        ensures
            r == size_of(tree_model(dirs@), i as int),
        decreases dirs.len() - i,
    {
        let ghost ds = tree_model(dirs@);
        let d = &dirs[i];
        proof {
            lemma_model_step(dirs@, i as int);
        }
        let mut acc: u64 = 0;
        let mut k: usize = 0;
        while k < d.entries.len()
            invariant
                ds == tree_model(dirs@),
                wf(ds, 0),
                i < dirs.len(),
                d == dirs@[i as int],
                ds[i as int] == d.model(),
                size_of(ds, i as int) <= u64::MAX,
                k <= d.entries.len(),
                acc == dsize(ds, i as int, k as int),
            decreases d.entries.len() - k,
        {
            proof {
                lemma_dsize_mono(ds, i as int, k as int + 1);
                assert(ds[i as int].entries[k as int] == d.entries@[k as int].model());
            }
            let add = match &d.entries[k] {
                DirectoryEntry::File(f) => f.size,
                DirectoryEntry::Directory(j) => {
                    let j = *j;
                    proof {
                        lemma_dsize_nonneg(ds, i as int, k as int);
                        assert(i < j < ds.len());
                    }
                    Directory::size(dirs, j)
                },
            };
            acc = acc + add;
            k += 1;
        }
        acc
    }

    /// The sum of the sizes of all directories of at most `SMALL_DIR`.
    pub fn part_one(dirs: &Vec<Directory>) -> (r: u64)
        requires
            wf(tree_model(dirs@), 0),
            forall|i: int| 0 <= i < dirs.len() ==> size_of(tree_model(dirs@), i) <= u64::MAX,
            dirs.len() * SMALL_DIR <= u64::MAX,
        ensures
            r == small_total(tree_model(dirs@), dirs.len() as int),
    {
        let ghost ds = tree_model(dirs@);
        let mut acc: u64 = 0;
        let mut i: usize = 0;
        while i < dirs.len()
            invariant
                ds == tree_model(dirs@),
                wf(ds, 0),
                forall|x: int| 0 <= x < dirs.len() ==> size_of(ds, x) <= u64::MAX,
                dirs.len() * SMALL_DIR <= u64::MAX,
                i <= dirs.len(),
                acc == small_total(ds, i as int),
                acc <= i * SMALL_DIR,
            decreases dirs.len() - i,
        {
            let s = Directory::size(dirs, i);
            proof {
                assert(i * SMALL_DIR + SMALL_DIR <= dirs.len() * SMALL_DIR) by (nonlinear_arith)
                    requires
                        i < dirs.len(),
                ;
            }
            if s <= SMALL_DIR {
                acc = acc + s;
            }
            i += 1;
        }
        acc
    }

    /// The sizes, in arena order, of the directories of at least `needed`.
    pub fn _part_two(dirs: &Vec<Directory>, needed: &u64) -> (r: Vec<u64>)
        requires
            wf(tree_model(dirs@), 0),
            forall|i: int| 0 <= i < dirs.len() ==> size_of(tree_model(dirs@), i) <= u64::MAX,
        ensures
            r@.map_values(|x: u64| x as int) == big_sizes(tree_model(dirs@), *needed as int, dirs.len() as int),
    {
        let ghost ds = tree_model(dirs@);
        let mut out: Vec<u64> = Vec::new();
        let mut i: usize = 0;
        while i < dirs.len()
            invariant
                ds == tree_model(dirs@),
                wf(ds, 0),
                forall|x: int| 0 <= x < dirs.len() ==> size_of(ds, x) <= u64::MAX,
                i <= dirs.len(),
                out@.map_values(|x: u64| x as int) == big_sizes(ds, *needed as int, i as int),
            decreases dirs.len() - i,
        {
            let s = Directory::size(dirs, i);
            if s >= *needed {
                let ghost before = out@;
                out.push(s);
                proof {
                    assert(out@.map_values(|x: u64| x as int) =~= before.map_values(|x: u64| x as int).push(s as int));
                }
            }
            i += 1;
        }
        out
    }

    /// The size of the smallest directory whose removal leaves 30000000 of
    /// the 70000000 units free.
    pub fn part_two(dirs: &Vec<Directory>) -> (r: u64)
        requires
            wf(tree_model(dirs@), 0),
            forall|i: int| 0 <= i < dirs.len() ==> size_of(tree_model(dirs@), i) <= u64::MAX,
            40_000_000 <= size_of(tree_model(dirs@), 0) <= 70_000_000,
        ensures
            ({
                let ds = tree_model(dirs@);
                let needed = size_of(ds, 0) - 40_000_000;
                &&& exists|i: int| 0 <= i < dirs.len() && size_of(ds, i) >= needed && r == size_of(ds, i)
                &&& forall|i: int| 0 <= i < dirs.len() && size_of(ds, i) >= needed ==> r <= size_of(ds, i)
            }),
    {
        let ghost ds = tree_model(dirs@);
        let needed_size = 30000000 - (70000000 - Directory::size(dirs, 0));
        let sizes = Directory::_part_two(dirs, &needed_size);
        let ghost v = sizes@.map_values(|x: u64| x as int);
        proof {
            lemma_big_sizes(ds, needed_size as int, dirs.len() as int);
            assert(v.contains(size_of(ds, 0)));
            let k = choose|k: int| 0 <= k < v.len() && v[k] == size_of(ds, 0);
            assert(sizes.len() > 0);
        }
        let mut best = sizes[0];
        let mut k: usize = 1;
        proof {
            assert(v[0] == best);
        }
        while k < sizes.len()
            invariant
                v == sizes@.map_values(|x: u64| x as int),
                1 <= k <= sizes.len(),
                v.contains(best as int),
                forall|j: int| 0 <= j < k ==> best <= #[trigger] sizes@[j],
            decreases sizes.len() - k,
        {
            if sizes[k] < best {
                best = sizes[k];
                proof {
                    assert(v[k as int] == best);
                }
            }
            k += 1;
        }
        proof {
            assert forall|i: int| 0 <= i < dirs.len() && size_of(ds, i) >= needed_size implies best <= size_of(ds, i) by {
                assert(v.contains(size_of(ds, i)));
                let j = choose|j: int| 0 <= j < v.len() && v[j] == size_of(ds, i);
                assert(best <= sizes@[j]);
            }
        }
        best
    }
}

proof fn lemma_run_error(ls: Seq<Seq<char>>, n: int)
    requires
        0 < n <= ls.len(),
        run(ls.subrange(0, n)) is Err,
    ensures
        run(ls) == run(ls.subrange(0, n)),
    decreases ls.len() - n,
{
    if n < ls.len() {
        assert(ls.subrange(0, n + 1).drop_last() =~= ls.subrange(0, n));
        lemma_run_error(ls, n + 1);
    } else {
        assert(ls.subrange(0, n) =~= ls);
    }
}

/// Whether `c` occurs in `v`.
fn holds_char(v: &Vec<char>, c: char) -> (r: bool)
    ensures
        r == v@.contains(c),
{
    let mut i: usize = 0;
    while i < v.len()
        invariant
            i <= v.len(),
            forall|j: int| 0 <= j < i ==> v@[j] != c,
        decreases v.len() - i,
    {
        if v[i] == c {
            proof {
                assert(v@[i as int] == c);
            }
            return true;
        }
        i += 1;
    }
    false
}

/// Applies the line `l` to the arena `dirs` with current directory `cur`.
fn step(dirs: &mut Vec<Directory>, cur: usize, l: &Vec<char>) -> (r: Result<usize, TreeError>)
    requires
        wf(tree_model(old(dirs)@), cur as int),
    ensures
        match r {
            Ok(c) => run_line(tree_model(old(dirs)@), cur as int, l@) == Ok::<(Seq<DirModel>, int), TreeError>(
                (tree_model(final(dirs)@), c as int),
            ) && wf(tree_model(final(dirs)@), c as int),
            Err(e) => run_line(tree_model(old(dirs)@), cur as int, l@) == Err::<(Seq<DirModel>, int), TreeError>(e),
        },
{
    let ghost ds = tree_model(dirs@);
    let w_cd = vec!['$', ' ', 'c', 'd', ' '];
    let w_ls = vec!['$', ' ', 'l', 's'];
    let w_dir = vec!['d', 'i', 'r', ' '];
    proof {
        assert(w_cd@ =~= word_cd());
        assert(w_ls@ =~= word_ls());
        assert(w_dir@ =~= word_dir());
        lemma_model_step(dirs@, cur as int);
    }
    let w_top = vec!['/'];
    let w_up = vec!['.', '.'];
    proof {
        assert(w_top@ =~= seq!['/']);
        assert(w_up@ =~= seq!['.', '.']);
    }
    if stands_at(l, 0, &w_cd) {
        let arg = copy_range(l, 5, l.len());
        if same_chars(&arg, &w_top) {
            return Ok(0);
        }
        if same_chars(&arg, &w_up) {
            proof {
                assert(!(arg@ == seq!['/'])) by {
                    assert(seq!['/'].len() == 1);
                }
            }
            return match dirs[cur].parent {
                Some(p) => Ok(p),
                None => Err(TreeError::NoParent),
            };
        }
        return match Directory::cd(dirs, cur, &arg) {
            Some(j) => {
                proof {
                    assert(wf(ds, j as int));
                }
                Ok(j)
            },
            None => Err(TreeError::NoSuchDir),
        };
    }
    if stands_at(l, 0, &w_ls) {
        return Ok(cur);
    }
    if stands_at(l, 0, &w_dir) {
        let name = copy_range(l, 4, l.len());
        let n = dirs.len();
        let ghost d = DirModel { entries: Seq::empty(), name: name@, parent: Some(cur as int) };
        dirs[cur].entries.push(DirectoryEntry::Directory(n));
        let ghost mid = dirs@;
        dirs.push(Directory { entries: Vec::new(), name, parent: Some(cur) });
        proof {
            let nd = tree_model(dirs@);
            let want = add_entry(ds, cur as int, EntryModel::Dir(n as int)).push(d);
            assert forall|x: int| 0 <= x < nd.len() implies nd[x] == want[x] by {
                if x == cur {
                    assert(nd[x].entries =~= want[x].entries);
                } else if x == n {
                    assert(nd[x].entries =~= want[x].entries);
                }
            }
            assert(nd =~= want);
            assert forall|a: int, k: int|
                0 <= a < nd.len() && 0 <= k < nd[a].entries.len() implies match #[trigger] nd[a].entries[k] {
                EntryModel::Dir(j) => a < j < nd.len(),
                EntryModel::File(_, _) => true,
            } by {
                if a != cur && a != n {
                    assert(nd[a] == ds[a]);
                } else if a == cur && k < ds[a].entries.len() {
                    assert(nd[a].entries[k] == ds[a].entries[k]);
                }
            }
            assert forall|a: int| 0 <= a < nd.len() implies match (#[trigger] nd[a]).parent {
                Some(p) => 0 <= p < a,
                None => true,
            } by {
                if a < n {
                    assert(nd[a].parent == ds[a].parent);
                }
            }
        }
        return Ok(cur);
    }
    match split_once(l, ' ') {
        None => Err(TreeError::BadLine),
        Some((a, b)) => {
            let size = parse_decimal(&a, MAX_FILE);
            let bad = holds_char(&b, ' ');
            match size {
                Some(sz) => {
                    if bad {
                        return Err(TreeError::BadLine);
                    }
                    let ghost bn = b@;
                    dirs[cur].entries.push(DirectoryEntry::File(File { size: sz, name: b }));
                    proof {
                        let nd = tree_model(dirs@);
                        let want = add_entry(ds, cur as int, EntryModel::File(sz as nat, bn));
                        assert forall|x: int| 0 <= x < nd.len() implies nd[x] == want[x] by {
                            if x == cur {
                                assert(nd[x].entries =~= want[x].entries);
                            }
                        }
                        assert(nd =~= want);
                        assert forall|x: int, k: int|
                            0 <= x < nd.len() && 0 <= k < nd[x].entries.len() implies match #[trigger] nd[x].entries[k] {
                            EntryModel::Dir(j) => x < j < nd.len(),
                            EntryModel::File(_, _) => true,
                        } by {
                            if x != cur {
                                assert(nd[x] == ds[x]);
                            } else if k < ds[x].entries.len() {
                                assert(nd[x].entries[k] == ds[x].entries[k]);
                            }
                        }
                        assert forall|x: int| 0 <= x < nd.len() implies match (#[trigger] nd[x]).parent {
                            Some(p) => 0 <= p < x,
                            None => true,
                        } by {
                            assert(nd[x].parent == ds[x].parent);
                        }
                    }
                    Ok(cur)
                },
                None => Err(TreeError::BadLine),
            }
        },
    }
}

} // verus!
