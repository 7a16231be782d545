//! A simulated file system: named files of values and a table of open file
//! descriptors, each with a position.
use vstd::prelude::*;
use crate::value::Value;
use crate::memory::all_below;

verus! {

/// A file: its path and its contents.
pub struct SimFile {
    pub path: Vec<u8>,
    pub content: Vec<Value>,
}

/// An open file descriptor: the index of its file and its position.
#[derive(Clone, Copy, PartialEq, Eq, Structural, Debug)]
pub struct OpenFile {
    pub file: usize,
    pub position: u64,
}

/// The files and the descriptor table.
pub struct FileSystem {
    pub files: Vec<SimFile>,
    pub descriptors: Vec<Option<OpenFile>>,
}

/// The abstract state of a file system.
pub struct FsView {
    pub paths: Seq<Seq<u8>>,
    pub contents: Seq<Seq<Value>>,
    pub fds: Seq<Option<OpenFile>>,
}

/// The index of the first path in `paths` from `k` on that equals `path`.
pub open spec fn find_path(paths: Seq<Seq<u8>>, path: Seq<u8>, k: int) -> Option<int>
    decreases paths.len() - k,
{
    if k < 0 || k >= paths.len() {
        None
    } else if paths[k] == path {
        Some(k)
    } else {
        find_path(paths, path, k + 1)
    }
}

/// The lowest descriptor from `k` on that is not open (the table's length if
/// every one is).
pub open spec fn lowest_free(fds: Seq<Option<OpenFile>>, k: int) -> int
    decreases fds.len() - k,
{
    if k < 0 || k >= fds.len() {
        fds.len() as int
    } else if fds[k] is None {
        k
    } else {
        lowest_free(fds, k + 1)
    }
}

/// `c` after `d` was written at position `pos`; a gap before `pos` reads as
/// zero bytes.
pub open spec fn overwrite(c: Seq<Value>, pos: int, d: Seq<Value>) -> Seq<Value> {
    Seq::new(
        (if c.len() > pos + d.len() {
            c.len() as int
        } else {
            pos + d.len()
        }) as nat,
        |i: int|
            if pos <= i < pos + d.len() {
                d[i - pos]
            } else if i < c.len() {
                c[i]
            } else {
                Value::Concrete(0)
            },
    )
}

impl FsView {
    /// Every value in every file mentions only symbols below `n`.
    pub open spec fn below(self, n: nat) -> bool {
        forall|i: int, j: int|
            0 <= i < self.contents.len() && 0 <= j < self.contents[i].len() ==> #[trigger] self.contents[i][j].below(n)
    }

    /// Every open descriptor names a file.
    pub open spec fn wf(self) -> bool {
        &&& self.paths.len() == self.contents.len()
        &&& forall|fd: int|
            0 <= fd < self.fds.len() && #[trigger] self.fds[fd] is Some ==> self.fds[fd]->0.file
                < self.paths.len()
    }

    /// The descriptor `fd` when it is open.
    pub open spec fn open_file(self, fd: int) -> Option<OpenFile> {
        if 0 <= fd < self.fds.len() {
            self.fds[fd]
        } else {
            None
        }
    }

    /// The index of the file with this path.
    pub open spec fn find(self, path: Seq<u8>) -> Option<int> {
        find_path(self.paths, path, 0)
    }

    /// The descriptor that `open` hands out next.
    pub open spec fn next_fd(self) -> int {
        lowest_free(self.fds, 0)
    }

    /// The state after opening file `f` at position 0 on `next_fd()`.
    pub open spec fn with_opened(self, f: int) -> FsView {
        let fd = self.next_fd();
        let o = Some(OpenFile { file: f as usize, position: 0 });
        FsView {
            fds: if fd < self.fds.len() {
                self.fds.update(fd, o)
            } else {
                self.fds.push(o)
            },
            ..self
        }
    }

    /// The state after closing `fd`.
    pub open spec fn closed(self, fd: int) -> FsView {
        if 0 <= fd < self.fds.len() {
            FsView { fds: self.fds.update(fd, None), ..self }
        } else {
            self
        }
    }

    /// The state after moving `fd` to `pos`.
    pub open spec fn seeked(self, fd: int, pos: u64) -> FsView {
        match self.open_file(fd) {
            Some(o) => FsView {
                fds: self.fds.update(fd, Some(OpenFile { position: pos, ..o })),
                ..self
            },
            None => self,
        }
    }

    /// What reading `n` values from `fd` gives.
    pub open spec fn read_data(self, fd: int, n: u64) -> Seq<Value> {
        match self.open_file(fd) {
            Some(o) => {
                let c = self.contents[o.file as int];
                if o.position >= c.len() {
                    Seq::empty()
                } else if o.position + n >= c.len() {
                    c.subrange(o.position as int, c.len() as int)
                } else {
                    c.subrange(o.position as int, o.position + n)
                }
            },
            None => Seq::empty(),
        }
    }

    /// The state after reading `n` values from `fd`.
    pub open spec fn after_read(self, fd: int, n: u64) -> FsView {
        match self.open_file(fd) {
            Some(o) => self.seeked(fd, (o.position + self.read_data(fd, n).len()) as u64),
            None => self,
        }
    }

    /// `data` fits at the position of `fd` (always true when `fd` is closed).
    pub open spec fn write_fits(self, fd: int, n: int) -> bool {
        match self.open_file(fd) {
            Some(o) => o.position + n <= usize::MAX,
            None => true,
        }
    }

    /// The state after writing `data` to `fd`.
    pub open spec fn after_write(self, fd: int, data: Seq<Value>) -> FsView {
        match self.open_file(fd) {
            Some(o) => FsView {
                contents: self.contents.update(
                    o.file as int,
                    overwrite(self.contents[o.file as int], o.position as int, data),
                ),
                fds: self.fds.update(
                    fd,
                    Some(OpenFile { position: (o.position + data.len()) as u64, ..o }),
                ),
                ..self
            },
            None => self,
        }
    }
}

/// What `find_path` gives is a matching index at or after `k`.
pub proof fn lemma_find_path(paths: Seq<Seq<u8>>, path: Seq<u8>, k: int)
    requires
        k >= 0,
    ensures
        match find_path(paths, path, k) {
            Some(i) => k <= i < paths.len() && paths[i] == path,
            None => forall|i: int| k <= i < paths.len() ==> paths[i] != path,
        },
    decreases paths.len() - k,
{
    if k >= 0 && k < paths.len() && paths[k] != path {
        lemma_find_path(paths, path, k + 1);
    }
}

impl View for FileSystem {
    type V = FsView;

    open spec fn view(&self) -> FsView {
        FsView {
            paths: self.files@.map_values(|f: SimFile| f.path@),
            contents: self.files@.map_values(|f: SimFile| f.content@),
            fds: self.descriptors@,
        }
    }
}

/// Whether two byte strings are equal.
pub fn bytes_equal(a: &Vec<u8>, b: &Vec<u8>) -> (r: bool)
    ensures
        r == (a@ == b@),
{
    if a.len() != b.len() {
        return false;
    }
    let mut i: usize = 0;
    while i < a.len()
        invariant
            i <= a.len(),
            a.len() == b.len(),
            forall|j: int| 0 <= j < i ==> a@[j] == b@[j],
        decreases a.len() - i,
    {
        if a[i] != b[i] {
            return false;
        }
        i = i + 1;
    }
    assert(a@ =~= b@);
    true
}

impl FileSystem {
    /// The standard streams `/dev/stdin`, `/dev/stdout` and `/dev/stderr`,
    /// empty and open on descriptors 0, 1 and 2.
    pub open spec fn new_view() -> FsView {
        FsView {
            paths: seq![
                seq![0x2fu8, 0x64, 0x65, 0x76, 0x2f, 0x73, 0x74, 0x64, 0x69, 0x6e],
                seq![0x2fu8, 0x64, 0x65, 0x76, 0x2f, 0x73, 0x74, 0x64, 0x6f, 0x75, 0x74],
                seq![0x2fu8, 0x64, 0x65, 0x76, 0x2f, 0x73, 0x74, 0x64, 0x65, 0x72, 0x72],
            ],
            contents: seq![Seq::<Value>::empty(), Seq::<Value>::empty(), Seq::<Value>::empty()],
            fds: seq![
                Some(OpenFile { file: 0, position: 0 }),
                Some(OpenFile { file: 1, position: 0 }),
                Some(OpenFile { file: 2, position: 0 }),
            ],
        }
    }

    /// A file system with the three standard streams, open on descriptors
    /// 0, 1 and 2.
    pub fn new() -> (fs: FileSystem)
        ensures
            fs@ == FileSystem::new_view(),
            fs@.wf(),
    {
        let mut files: Vec<SimFile> = Vec::new();
        files.push(SimFile { path: vec![0x2f, 0x64, 0x65, 0x76, 0x2f, 0x73, 0x74, 0x64, 0x69, 0x6e], content: Vec::new() });
        files.push(SimFile { path: vec![0x2f, 0x64, 0x65, 0x76, 0x2f, 0x73, 0x74, 0x64, 0x6f, 0x75, 0x74], content: Vec::new() });
        files.push(SimFile { path: vec![0x2f, 0x64, 0x65, 0x76, 0x2f, 0x73, 0x74, 0x64, 0x65, 0x72, 0x72], content: Vec::new() });
        let mut descriptors: Vec<Option<OpenFile>> = Vec::new();
        descriptors.push(Some(OpenFile { file: 0, position: 0 }));
        descriptors.push(Some(OpenFile { file: 1, position: 0 }));
        descriptors.push(Some(OpenFile { file: 2, position: 0 }));
        let fs = FileSystem { files, descriptors };
        assert(fs@.paths =~= FileSystem::new_view().paths);
        assert(fs@.contents =~= FileSystem::new_view().contents);
        assert(fs@.fds =~= FileSystem::new_view().fds);
        fs
    }

    /// Adds a file with the given path and contents.
    pub fn add_file(&mut self, path: Vec<u8>, content: Vec<Value>)
        requires
            old(self)@.wf(),
        ensures
            final(self)@.wf(),
            final(self)@ == (FsView {
                paths: old(self)@.paths.push(path@),
                contents: old(self)@.contents.push(content@),
                fds: old(self)@.fds,
            }),
    {
        let ghost pre = self@;
        self.files.push(SimFile { path, content });
        assert(self@.paths =~= pre.paths.push(path@));
        assert(self@.contents =~= pre.contents.push(content@));
    }

    /// The index of the file with this path.
    pub fn find(&self, path: &Vec<u8>) -> (r: Option<usize>)
        ensures
            match r {
                Some(i) => self@.find(path@) == Some(i as int),
                None => self@.find(path@) is None,
            },
    {
        let mut k: usize = 0;
        while k < self.files.len()
            invariant
                k <= self.files.len(),
                find_path(self@.paths, path@, 0) == find_path(self@.paths, path@, k as int),
            decreases self.files.len() - k,
        {
            assert(self@.paths[k as int] == self.files@[k as int].path@);
            if bytes_equal(&self.files[k].path, path) {
                return Some(k);
            }
            k = k + 1;
        }
        None
    }

    /// Opens the file with this path on the lowest free descriptor, at
    /// position 0; `None` when there is no such file.
    pub fn open(&mut self, path: &Vec<u8>) -> (r: Option<usize>)
        requires
            old(self)@.wf(),
        ensures
            final(self)@.wf(),
            match old(self)@.find(path@) {
                Some(f) => r is Some && r->0 == old(self)@.next_fd() && final(self)@ == old(
                    self,
                )@.with_opened(f),
                None => r is None && final(self)@ == old(self)@,
            },
    {
        let ghost pre = self@;
        match self.find(path) {
            None => None,
            Some(f) => {
                proof {
                    lemma_find_path(pre.paths, path@, 0);
                }
                let mut k: usize = 0;
                while k < self.descriptors.len() && self.descriptors[k].is_some()
                    invariant
                        k <= self.descriptors.len(),
                        self@ == pre,
                        lowest_free(pre.fds, 0) == lowest_free(pre.fds, k as int),
                    decreases self.descriptors.len() - k,
                {
                    k = k + 1;
                }
                let o = Some(OpenFile { file: f, position: 0 });
                if k < self.descriptors.len() {
                    self.descriptors.set(k, o);
                } else {
                    self.descriptors.push(o);
                }
                assert(self@.fds =~= pre.with_opened(f as int).fds);
                assert(self@.paths =~= pre.paths);
                assert(self@.contents =~= pre.contents);
                Some(k)
            },
        }
    }

    /// Closes `fd`; other descriptors are ignored.
    pub fn close(&mut self, fd: usize)
        requires
            old(self)@.wf(),
        ensures
            final(self)@.wf(),
            final(self)@ == old(self)@.closed(fd as int),
    {
        let ghost pre = self@;
        if fd < self.descriptors.len() {
            self.descriptors.set(fd, None);
            assert(self@.fds =~= pre.closed(fd as int).fds);
        }
        assert(self@ =~= pre.closed(fd as int));
    }

    /// Moves `fd` to `pos`; closed descriptors are ignored.
    pub fn seek(&mut self, fd: usize, pos: u64)
        requires
            old(self)@.wf(),
        ensures
            final(self)@.wf(),
            final(self)@ == old(self)@.seeked(fd as int, pos),
    {
        let ghost pre = self@;
        if fd < self.descriptors.len() {
            if let Some(o) = self.descriptors[fd] {
                self.descriptors.set(fd, Some(OpenFile { file: o.file, position: pos }));
                assert(self@.fds =~= pre.seeked(fd as int, pos).fds);
            }
        }
        assert(self@ =~= pre.seeked(fd as int, pos));
    }

    /// Reads up to `n` values from the position of `fd` on, and advances it.
    pub fn read(&mut self, fd: usize, n: u64) -> (r: Vec<Value>)
        requires
            old(self)@.wf(),
        ensures
            final(self)@.wf(),
            r@ == old(self)@.read_data(fd as int, n),
            final(self)@ == old(self)@.after_read(fd as int, n),
            forall|k: nat| old(self)@.below(k) ==> #[trigger] all_below(r@, k),
    {
        let ghost pre = self@;
        let mut r: Vec<Value> = Vec::new();
        if fd >= self.descriptors.len() {
            return r;
        }
        let o = match self.descriptors[fd] {
            Some(o) => o,
            None => {
                return r;
            },
        };
        let c = &self.files[o.file].content;
        assert(c@ == pre.contents[o.file as int]);
        let len = c.len() as u64;
        if o.position < len {
            let end: u64 = if n >= len - o.position {
                len
            } else {
                o.position + n
            };
            let mut i: u64 = o.position;
            while i < end
                invariant
                    o.position <= i <= end <= len,
                    len == c.len(),
                    r@ == c@.subrange(o.position as int, i as int),
                decreases end - i,
            {
                r.push(c[i as usize].duplicate());
                i = i + 1;
                assert(r@ =~= c@.subrange(o.position as int, i as int));
            }
            let newpos = o.position + r.len() as u64;
            self.descriptors.set(fd, Some(OpenFile { file: o.file, position: newpos }));
        } else {
            self.descriptors.set(fd, Some(OpenFile { file: o.file, position: o.position }));
        }
        assert(self@.fds =~= pre.after_read(fd as int, n).fds);
        assert(self@ =~= pre.after_read(fd as int, n));
        assert forall|k: nat| pre.below(k) implies #[trigger] all_below(r@, k) by {
            assert forall|i: int| 0 <= i < r@.len() implies #[trigger] r@[i].below(k) by {
                assert(r@[i] == pre.contents[o.file as int][o.position + i]);
            }
        }
        r
    }

    /// Writes `data` at the position of `fd` and advances it past the data;
    /// a closed descriptor takes nothing.
    pub fn write(&mut self, fd: usize, data: Vec<Value>)
        requires
            old(self)@.wf(),
            old(self)@.write_fits(fd as int, data.len() as int),
        ensures
            final(self)@.wf(),
            final(self)@ == old(self)@.after_write(fd as int, data@),
            forall|k: nat| old(self)@.below(k) && all_below(data@, k) ==> #[trigger] final(self)@.below(k),
    {
        let ghost pre = self@;
        if fd >= self.descriptors.len() {
            return ;
        }
        let o = match self.descriptors[fd] {
            Some(o) => o,
            None => {
                return ;
            },
        };
        let mut file = SimFile { path: Vec::new(), content: Vec::new() };
        self.files.set_and_swap(o.file, &mut file);
        let ghost f0 = file;
        let ghost c0 = file.content@;
        assert(c0 == pre.contents[o.file as int]);
        let pos = o.position as usize;
        // pad the file up to the position
        while file.content.len() < pos
            invariant
                file.path@ == f0.path@,
                file.content@.len() >= c0.len(),
                file.content@.len() == c0.len() || file.content@.len() <= pos,
                forall|i: int| 0 <= i < c0.len() ==> file.content@[i] == c0[i],
                forall|i: int| c0.len() <= i < file.content.len() ==> file.content@[i] == Value::Concrete(0),
            decreases pos - file.content.len(),
        {
            file.content.push(Value::Concrete(0));
        }
        let mut j: usize = 0;
        while j < data.len()
            invariant
                j <= data.len(),
                file.path@ == f0.path@,
                pos + data.len() <= usize::MAX,
                file.content@.len() >= pos + j,
                file.content@.len() == if c0.len() > pos + j { c0.len() as int } else { pos + j },
                forall|i: int|
                    0 <= i < file.content@.len() ==> #[trigger] file.content@[i] == (if pos <= i < pos + j {
                        data@[i - pos]
                    } else if i < c0.len() {
                        c0[i]
                    } else {
                        Value::Concrete(0)
                    }),
            decreases data.len() - j,
        {
            let v = data[j].duplicate();
            if pos + j < file.content.len() {
                file.content.set(pos + j, v);
            } else {
                file.content.push(v);
            }
            j = j + 1;
        }
        assert(file.content@ =~= overwrite(c0, pos as int, data@));
        assert(file.path@ == f0.path@);
        let ghost files1 = self.files@;
        self.files.set_and_swap(o.file, &mut file);
        self.descriptors.set(
            fd,
            Some(OpenFile { file: o.file, position: o.position + data.len() as u64 }),
        );
        assert(self@.contents =~= pre.after_write(fd as int, data@).contents);
        assert(self@.paths =~= pre.paths);
        assert(self@.fds =~= pre.after_write(fd as int, data@).fds);
        assert forall|k: nat| pre.below(k) && all_below(data@, k) implies #[trigger] self@.below(k) by {
            assert forall|i: int, j: int|
                0 <= i < self@.contents.len() && 0 <= j < self@.contents[i].len() implies #[trigger] self@.contents[i][j].below(
                k,
            ) by {
                if i == o.file {
                    let c = overwrite(c0, pos as int, data@);
                    assert(self@.contents[i] == c);
                    if pos <= j < pos + data.len() {
                        assert(data@[j - pos].below(k));
                    } else if j < c0.len() {
                        assert(pre.contents[i][j].below(k));
                    }
                } else {
                    assert(self@.contents[i] == pre.contents[i]);
                }
            }
        }
    }

    /// Whether a file with this path exists.
    pub fn has_file(&self, path: &Vec<u8>) -> (r: bool)
        ensures
            r == self@.find(path@) is Some,
    {
        self.find(path).is_some()
    }

    /// 0 when a file with this path exists, else -1 (as a word).
    pub fn access(&self, path: &Vec<u8>) -> (r: Value)
        ensures
            r == (if self@.find(path@) is Some {
                Value::Concrete(0)
            } else {
                Value::Concrete(0xffff_ffff_ffff_ffff)
            }),
    {
        if self.has_file(path) {
            Value::Concrete(0)
        } else {
            Value::Concrete(0xffff_ffff_ffff_ffff)
        }
    }
}

/// The first free descriptor from `k` on is at most any free `fd >= k`.
pub proof fn lemma_lowest_free_at_most(fds: Seq<Option<OpenFile>>, k: int, fd: int)
    requires
        0 <= k <= fd < fds.len(),
        fds[fd] is None,
    ensures
        lowest_free(fds, k) <= fd,
    decreases fd - k,
{
    if fds[k] is Some {
        lemma_lowest_free_at_most(fds, k + 1, fd);
    }
}

/// The first free descriptor from `k` on is free or past the table.
pub proof fn lemma_lowest_free_is_free(fds: Seq<Option<OpenFile>>, k: int)
    requires
        0 <= k,
    ensures
        k <= lowest_free(fds, k) <= fds.len() || (k > fds.len() && lowest_free(fds, k) == fds.len()),
        lowest_free(fds, k) < fds.len() ==> fds[lowest_free(fds, k)] is None,
    decreases fds.len() - k,
{
    if k < fds.len() && fds[k] is Some {
        lemma_lowest_free_is_free(fds, k + 1);
    }
}

/// Closing a descriptor makes it available again: the next `open` gets it
/// or a lower one.
pub proof fn lemma_close_then_reuse(v: FsView, fd: int)
    requires
        v.open_file(fd) is Some,
    ensures
        v.closed(fd).next_fd() <= fd,
{
    lemma_lowest_free_at_most(v.closed(fd).fds, 0, fd);
}

/// A file just opened reads from its beginning: reading `n` values gives
/// the first `n` values of the file (all of it when it is shorter).
pub proof fn lemma_open_then_read(v: FsView, f: int, n: u64)
    requires
        v.wf(),
        0 <= f < v.paths.len(),
        f <= usize::MAX,
    ensures
        v.with_opened(f).read_data(v.next_fd(), n) == (if n >= v.contents[f].len() {
            v.contents[f]
        } else {
            v.contents[f].take(n as int)
        }),
{
    lemma_lowest_free_is_free(v.fds, 0);
    let w = v.with_opened(f);
    assert(w.open_file(v.next_fd()) == Some(OpenFile { file: f as usize, position: 0 }));
    let c = v.contents[f];
    if n >= c.len() {
        assert(c.subrange(0, c.len() as int) =~= c);
    } else {
        assert(c.subrange(0, n as int) =~= c.take(n as int));
    }
}

/// Data written at a position reads back from that position.
pub proof fn lemma_write_then_read(v: FsView, fd: int, d: Seq<Value>)
    requires
        v.wf(),
        v.open_file(fd) is Some,
        v.write_fits(fd, d.len() as int),
    ensures
        v.after_write(fd, d).seeked(fd, v.open_file(fd)->0.position).read_data(
            fd,
            d.len() as u64,
        ) == d,
{
    let o = v.open_file(fd)->0;
    let w = v.after_write(fd, d);
    let u = w.seeked(fd, o.position);
    assert(u.open_file(fd) == Some(OpenFile { file: o.file, position: o.position }));
    let c = u.contents[o.file as int];
    assert(c == overwrite(v.contents[o.file as int], o.position as int, d));
    if o.position + d.len() >= c.len() {
        assert(c.subrange(o.position as int, c.len() as int) =~= d);
    } else {
        assert(c.subrange(o.position as int, o.position + d.len()) =~= d);
    }
}

} // verus!
