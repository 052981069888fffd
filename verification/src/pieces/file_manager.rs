//! Where the pieces go on disk: the layout of the output files and, for
//! each piece, the writes that put it there.

use crate::error::Error;
use crate::torrent::{lemma_prefix_length_monotonic, prefix_length, Info};
use vstd::prelude::*;
use vstd::string::*;

verus! {

/// One output file and its place in the content.
#[derive(Debug)]
pub struct OutputFile {
    pub path: String,
    /// Offset of the file's first byte in the content.
    pub start: usize,
    pub length: usize,
}

/// The output files in content order.
#[derive(Debug)]
pub struct FileManager {
    pub files: Vec<OutputFile>,
    pub total_length: usize,
}

/// One write: `len` bytes of a piece, from `data_start` on, go to file
/// `file_index` at `file_offset`.
#[derive(Clone, Copy, Debug, PartialEq, Eq, Structural)]
pub struct WriteOp {
    pub file_index: usize,
    pub file_offset: usize,
    pub data_start: usize,
    pub len: usize,
}

/// A `WriteOp` in unbounded integers.
pub struct WriteSpan {
    pub file_index: int,
    pub file_offset: int,
    pub data_start: int,
    pub len: int,
}

impl View for WriteOp {
    type V = WriteSpan;

    open spec fn view(&self) -> WriteSpan {
        WriteSpan {
            file_index: self.file_index as int,
            file_offset: self.file_offset as int,
            data_start: self.data_start as int,
            len: self.len as int,
        }
    }
}

/// The first `n` path components joined by `/`.
pub open spec fn joined_path(parts: Seq<String>, n: nat) -> Seq<char>
    decreases n,
{
    if n == 0 {
        Seq::empty()
    } else if n == 1 {
        parts[0]@
    } else {
        joined_path(parts, (n - 1) as nat) + seq!['/'] + parts[n - 1]@
    }
}

/// Sum of the lengths of the first `n` output files: where file `n` starts.
pub open spec fn start_of(files: Seq<OutputFile>, n: nat) -> nat
    decreases n,
{
    if n == 0 {
        0
    } else {
        start_of(files, (n - 1) as nat) + files[n - 1].length as nat
    }
}

/// The part of the `len` bytes at content offset `at` that lies in file
/// `i`, if any does.
pub open spec fn span_in_file(files: Seq<OutputFile>, i: int, at: nat, len: nat) -> Option<
    WriteSpan,
> {
    let file_start = start_of(files, i as nat) as int;
    let file_end = file_start + files[i].length;
    let from = if at > file_start {
        at as int
    } else {
        file_start
    };
    let to = if at + len < file_end {
        (at + len) as int
    } else {
        file_end
    };
    if from < to {
        Some(
            WriteSpan {
                file_index: i,
                file_offset: from - file_start,
                data_start: from - at,
                len: to - from,
            },
        )
    } else {
        None
    }
}

/// The writes that put the `len` bytes at content offset `at` into the
/// first `n` files: in file order, one for each file that holds some of them.
pub open spec fn spans(files: Seq<OutputFile>, n: nat, at: nat, len: nat) -> Seq<WriteSpan>
    decreases n,
{
    if n == 0 {
        Seq::empty()
    } else {
        let before = spans(files, (n - 1) as nat, at, len);
        match span_in_file(files, n - 1, at, len) {
            Some(span) => before.push(span),
            None => before,
        }
    }
}

/// Joins the components of a path with `/`.
pub fn join_path(parts: &Vec<String>) -> (path: String)
    ensures
        path@ == joined_path(parts@, parts@.len()),
{
    let mut path = String::new();
    let mut i: usize = 0;
    while i < parts.len()
        invariant
            i <= parts@.len(),
            path@ == joined_path(parts@, i as nat),
        decreases parts@.len() - i,
    {
        if i > 0 {
            proof {
                reveal_strlit("/");
            }
            path.append("/");
            assert("/"@ =~= seq!['/']);
        }
        path.append(parts[i].as_str());
        assert(path@ =~= joined_path(parts@, (i + 1) as nat));
        i += 1;
    }
    path
}

impl FileManager {
    /// Every file starts where the files before it end, and the total is
    /// the sum of all lengths.
    pub open spec fn wf(&self) -> bool {
        &&& forall|i: int|
            0 <= i < self.files@.len() ==> (#[trigger] self.files@[i]).start == start_of(
                self.files@,
                i as nat,
            )
        &&& self.total_length == start_of(self.files@, self.files@.len())
    }

    /// The layout that `info` asks for. With a file list: one output file
    /// for each entry, at the path made of its components, in order. Else
    /// one file named `name` that holds everything. Fails with
    /// `MetainfoInvalid` where the content's length does not fit `usize`.
    pub fn new(info: &Info) -> (made: Result<FileManager, Error>)
        ensures
            made.is_ok() <==> info.spec_total_length() <= usize::MAX,
            made matches Err(e) ==> e == Error::MetainfoInvalid,
            made matches Ok(fm) ==> {
                &&& fm.wf()
                &&& fm.total_length == info.spec_total_length()
                &&& match info.files {
                    Some(listed) => {
                        &&& fm.files@.len() == listed@.len()
                        &&& forall|i: int|
                            0 <= i < listed@.len() ==> {
                                &&& (#[trigger] fm.files@[i]).path@ == joined_path(
                                    listed@[i].path@,
                                    listed@[i].path@.len(),
                                )
                                &&& fm.files@[i].length == listed@[i].length
                                &&& fm.files@[i].start == prefix_length(listed@, i as nat)
                            }
                    },
                    None => {
                        &&& fm.files@.len() == 1
                        &&& fm.files@[0].path@ == info.name@
                        &&& fm.files@[0].start == 0
                        &&& fm.files@[0].length == info.spec_total_length()
                    },
                }
            },
    {
        let mut files: Vec<OutputFile> = Vec::new();
        match &info.files {
            Some(listed) => {
                let mut offset: usize = 0;
                let mut i: usize = 0;
                while i < listed.len()
                    invariant
                        i <= listed@.len(),
                        info.files == Some(*listed),
                        files@.len() == i,
                        offset == prefix_length(listed@, i as nat),
                        offset == start_of(files@, i as nat),
                        forall|j: int|
                            0 <= j < i ==> {
                                &&& (#[trigger] files@[j]).path@ == joined_path(
                                    listed@[j].path@,
                                    listed@[j].path@.len(),
                                )
                                &&& files@[j].length == listed@[j].length
                                &&& files@[j].start == prefix_length(listed@, j as nat)
                                &&& files@[j].start == start_of(files@, j as nat)
                            },
                    decreases listed@.len() - i,
                {
                    let entry = &listed[i];
                    let next = match offset.checked_add(entry.length) {
                        Some(next) => next,
                        None => {
                            proof {
                                assert(prefix_length(listed@, (i + 1) as nat) == offset
                                    + listed@[i as int].length);
                                lemma_prefix_length_monotonic(
                                    listed@,
                                    (i + 1) as nat,
                                    listed@.len(),
                                );
                            }
                            return Err(Error::MetainfoInvalid);
                        },
                    };
                    let ghost before = files@;
                    files.push(
                        OutputFile { path: join_path(&entry.path), start: offset, length: entry.length },
                    );
                    proof {
                        assert forall|j: int| 0 <= j < i implies (#[trigger] files@[j]).start
                            == start_of(files@, j as nat) by {
                            assert(files@[j] == before[j]);
                            lemma_start_of_prefix(before, files@, j as nat);
                        }
                        lemma_start_of_prefix(before, files@, i as nat);
                        assert(start_of(files@, (i + 1) as nat) == start_of(files@, i as nat)
                            + files@[i as int].length);
                    }
                    offset = next;
                    i += 1;
                }
                Ok(FileManager { files, total_length: offset })
            },
            None => {
                let length = match info.length {
                    Some(length) => length,
                    None => 0,
                };
                files.push(OutputFile { path: info.name.clone(), start: 0, length });
                proof {
                    assert(start_of(files@, 1) == start_of(files@, 0) + files@[0].length);
                }
                Ok(FileManager { files, total_length: length })
            },
        }
    }

    /// The writes that put a piece of `data.len()` bytes on disk, the piece
    /// being number `piece_index` of pieces `piece_length` long: for each
    /// file that holds some of its bytes, in file order, which bytes go
    /// where. Bytes past the last file are left out. Fails with
    /// `DiskWriteFailed` where the piece's offset does not fit `usize`.
    pub fn write_piece(&self, piece_index: usize, data: &[u8], piece_length: usize) -> (plan: Result<
        Vec<WriteOp>,
        Error,
    >)
        ensures
            plan.is_ok() <==> piece_index * piece_length <= usize::MAX,
            plan matches Err(e) ==> e == Error::DiskWriteFailed,
            plan matches Ok(ops) ==> ops@.map_values(|op: WriteOp| op@) == spans(
                self.files@,
                self.files@.len(),
                (piece_index * piece_length) as nat,
                data@.len(),
            ),
    {
        let at = match piece_index.checked_mul(piece_length) {
            Some(at) => at,
            None => {
                return Err(Error::DiskWriteFailed);
            },
        };
        let len = data.len();
        let mut ops: Vec<WriteOp> = Vec::new();
        // Offset into the current file at which the next byte goes, while
        // nothing is planned yet; 0 from then on.
        let mut offset: usize = at;
        let mut done: usize = 0;
        let mut i: usize = 0;
        while i < self.files.len()
            invariant
                i <= self.files@.len(),
                len == data@.len(),
                done <= len,
                ops@.map_values(|op: WriteOp| op@) == spans(
                    self.files@,
                    i as nat,
                    at as nat,
                    len as nat,
                ),
                done == 0 && len > 0 ==> offset + start_of(self.files@, i as nat) == at,
                0 < done < len ==> offset == 0 && at + done == start_of(self.files@, i as nat),
                0 < done == len ==> at + len <= start_of(self.files@, i as nat),
            decreases self.files@.len() - i,
        {
            let file = &self.files[i];
            let ghost before = ops@.map_values(|op: WriteOp| op@);
            assert(start_of(self.files@, (i + 1) as nat) == start_of(self.files@, i as nat)
                + file.length);
            if done < len && offset < file.length {
                let room = file.length - offset;
                let rest = len - done;
                let count = if rest < room {
                    rest
                } else {
                    room
                };
                let op = WriteOp { file_index: i, file_offset: offset, data_start: done, len: count };
                ops.push(op);
                assert(span_in_file(self.files@, i as int, at as nat, len as nat) == Some(op@));
                assert(ops@.map_values(|op: WriteOp| op@) =~= before.push(op@));
                done = done + count;
                offset = 0;
            } else {
                assert(span_in_file(self.files@, i as int, at as nat, len as nat).is_none());
                assert(ops@.map_values(|op: WriteOp| op@) =~= before);
                if done == 0 {
                    if offset >= file.length {
                        offset = offset - file.length;
                    }
                }
            }
            i += 1;
        }
        Ok(ops)
    }
}

/// Where a file starts depends on the files before it alone.
pub proof fn lemma_start_of_prefix(a: Seq<OutputFile>, b: Seq<OutputFile>, n: nat)
    requires
        n <= a.len(),
        n <= b.len(),
        forall|j: int| 0 <= j < n ==> a[j] == b[j],
    ensures
        start_of(a, n) == start_of(b, n),
    decreases n,
{
    if n > 0 {
        lemma_start_of_prefix(a, b, (n - 1) as nat);
    }
}

/// How many of the `len` bytes at content offset `at` lie in the first `n` files.
pub open spec fn bytes_within(files: Seq<OutputFile>, n: nat, at: nat, len: nat) -> int {
    let end = start_of(files, n);
    if end <= at {
        0
    } else if end - at >= len {
        len as int
    } else {
        end - at
    }
}

/// Where the writes for the first `n` files stop in the piece: the end of
/// the last of them, or 0 where there is none.
pub open spec fn planned_end(files: Seq<OutputFile>, n: nat, at: nat, len: nat) -> int {
    let plan = spans(files, n, at, len);
    if plan.len() == 0 {
        0
    } else {
        plan.last().data_start + plan.last().len
    }
}

/// Write `j` of a plan is in place: it is not empty, stays inside its file
/// and inside the piece, and writes the bytes at the content offset where
/// the file holds them; it takes up the piece where the write before it
/// stopped, the first at the start, and goes to a later file.
pub open spec fn write_in_place(
    plan: Seq<WriteSpan>,
    j: int,
    files: Seq<OutputFile>,
    at: nat,
    len: nat,
) -> bool {
    let span = plan[j];
    &&& 0 <= span.file_index < files.len()
    &&& span.len > 0
    &&& 0 <= span.file_offset
    &&& span.file_offset + span.len <= files[span.file_index].length
    &&& 0 <= span.data_start
    &&& span.data_start + span.len <= len
    &&& start_of(files, span.file_index as nat) + span.file_offset == at + span.data_start
    &&& j == 0 ==> span.data_start == 0
    &&& j > 0 ==> span.data_start == plan[j - 1].data_start + plan[j - 1].len
    &&& j > 0 ==> plan[j - 1].file_index < span.file_index
}

/// The writes of a piece put every byte that lies within the files in its
/// place, once: every write is in place, and the last stops at the end of
/// what lies within the files.
pub proof fn law_writes_place_every_byte(files: Seq<OutputFile>, n: nat, at: nat, len: nat)
    requires
        n <= files.len(),
    ensures
        planned_end(files, n, at, len) == bytes_within(files, n, at, len),
        forall|j: int|
            0 <= j < spans(files, n, at, len).len() ==> {
                &&& #[trigger] write_in_place(spans(files, n, at, len), j, files, at, len)
                &&& spans(files, n, at, len)[j].file_index < n
            },
    decreases n,
{
    if n > 0 {
        let m = (n - 1) as nat;
        law_writes_place_every_byte(files, m, at, len);
        let before = spans(files, m, at, len);
        let plan = spans(files, n, at, len);
        assert(start_of(files, n) == start_of(files, m) + files[n - 1].length);
        match span_in_file(files, n - 1, at, len) {
            Some(last) => {
                assert(plan == before.push(last));
                assert(last.data_start == bytes_within(files, m, at, len));
                assert forall|j: int| 0 <= j < plan.len() implies {
                    &&& #[trigger] write_in_place(plan, j, files, at, len)
                    &&& plan[j].file_index < n
                } by {
                    if j < before.len() {
                        assert(write_in_place(before, j, files, at, len));
                        assert(plan[j] == before[j]);
                        if j > 0 {
                            assert(plan[j - 1] == before[j - 1]);
                        }
                    } else {
                        assert(plan[j] == last);
                        if j > 0 {
                            assert(write_in_place(before, j - 1, files, at, len));
                            assert(plan[j - 1] == before[j - 1]);
                            assert(before[j - 1] == before.last());
                        }
                    }
                }
            },
            None => {
                assert(plan == before);
            },
        }
    }
}

} // verus!
