//! The metainfo of a torrent and the arithmetic of its pieces.

use crate::error::Error;
use vstd::prelude::*;

verus! {

/// Length in bytes of one piece hash.
pub const HASH_LEN: usize = 20;

/// One file of a multi-file torrent.
#[derive(Clone, Debug)]
pub struct File {
    pub length: usize,
    pub path: Vec<String>,
}

/// The `info` dictionary: what the content is and how it is cut into pieces.
#[derive(Clone, Debug)]
pub struct Info {
    pub name: String,
    pub piece_length: usize,
    pub pieces: Vec<u8>,
    pub length: Option<usize>,
    pub files: Option<Vec<File>>,
}

/// A decoded metainfo file.
#[derive(Clone, Debug)]
pub struct Torrent {
    pub announce: String,
    pub announce_list: Option<Vec<Vec<String>>>,
    pub info: Info,
}

/// Sum of the lengths of the first `n` files.
pub open spec fn prefix_length(files: Seq<File>, n: nat) -> nat
    decreases n,
{
    if n == 0 {
        0
    } else {
        prefix_length(files, (n - 1) as nat) + files[n - 1].length as nat
    }
}

/// Number of pieces a content of `total` bytes is cut into: `total / piece_length`, rounded up.
pub open spec fn piece_count(total: nat, piece_length: nat) -> nat {
    if piece_length == 0 {
        0
    } else {
        ((total + piece_length - 1) / (piece_length as int)) as nat
    }
}

/// Length of piece `index` out of `piece_count(total, piece_length)`: every
/// piece is `piece_length` long but the last, which holds the rest.
pub open spec fn piece_size(total: nat, piece_length: nat, index: nat) -> nat {
    if index + 1 < piece_count(total, piece_length) {
        piece_length
    } else {
        (total - (piece_count(total, piece_length) - 1) * piece_length) as nat
    }
}

/// The pieces cover the content, and one piece fewer would not.
pub proof fn lemma_piece_count_bounds(total: nat, piece_length: nat)
    requires
        piece_length > 0,
    ensures
        piece_count(total, piece_length) * piece_length >= total,
        (piece_count(total, piece_length) - 1) * piece_length < total,
        total == 0 <==> piece_count(total, piece_length) == 0,
{
    let n = piece_count(total, piece_length) as int;
    let p = piece_length as int;
    let t = total as int;
    assert(n == (t + p - 1) / p);
    assert(n * p <= t + p - 1 && t + p - 1 < n * p + p) by (nonlinear_arith)
        requires
            n == (t + p - 1) / p,
            p > 0,
    ;
    assert((n - 1) * p == n * p - p) by (nonlinear_arith);
    assert(n == 0 ==> n * p == 0) by (nonlinear_arith);
    if t == 0 {
        assert(n == 0) by (nonlinear_arith)
            requires
                n * p <= p - 1,
                0 <= n,
                p > 0,
        ;
    }
}

/// The last piece is never empty and never longer than the others, and the
/// piece sizes are what is left of the content after the full pieces.
pub proof fn lemma_piece_size_bounds(total: nat, piece_length: nat, index: nat)
    requires
        piece_length > 0,
        index < piece_count(total, piece_length),
    ensures
        1 <= piece_size(total, piece_length, index) <= piece_length,
        index * piece_length + piece_size(total, piece_length, index) <= total,
        index + 1 == piece_count(total, piece_length) ==> index * piece_length + piece_size(
            total,
            piece_length,
            index,
        ) == total,
{
    lemma_piece_count_bounds(total, piece_length);
    let n = piece_count(total, piece_length) as int;
    let p = piece_length as int;
    let i = index as int;
    assert((n - 1) * p == n * p - p) by (nonlinear_arith);
    if i + 1 < n {
        assert((i + 1) * p <= (n - 1) * p) by (nonlinear_arith)
            requires
                i + 1 <= n - 1,
                p > 0,
        ;
        assert((i + 1) * p == i * p + p) by (nonlinear_arith);
    } else {
        assert(i == n - 1);
    }
}

impl Info {
    /// Total length of the content: the sum of the file lengths where there
    /// is a file list, else the single file's length (0 where it is absent).
    pub open spec fn spec_total_length(&self) -> nat {
        match self.files {
            Some(files) => prefix_length(files@, files@.len()),
            None => match self.length {
                Some(length) => length as nat,
                None => 0,
            },
        }
    }

    /// Number of piece hashes that `pieces` holds.
    pub open spec fn spec_num_pieces(&self) -> nat {
        (self.pieces@.len() / HASH_LEN as nat) as nat
    }

    /// A metainfo is valid when it names exactly one of `length` and `files`,
    /// its piece length is positive, `pieces` is a whole number of 20-byte
    /// hashes, one for each piece of the content, and the content's length
    /// fits the machine.
    pub open spec fn spec_is_valid(&self) -> bool {
        &&& self.length.is_some() != self.files.is_some()
        &&& self.piece_length > 0
        &&& self.pieces@.len() % HASH_LEN as nat == 0
        &&& self.spec_total_length() <= usize::MAX
        &&& self.spec_num_pieces() == piece_count(self.spec_total_length(), self.piece_length as nat)
    }

    /// Total length of the content, or `None` where it does not fit `usize`.
    pub fn checked_total_length(&self) -> (total: Option<usize>)
        ensures
            total.is_some() <==> self.spec_total_length() <= usize::MAX,
            total.is_some() ==> total.unwrap() == self.spec_total_length(),
    {
        match &self.files {
            Some(files) => {
                let mut sum: usize = 0;
                let mut i: usize = 0;
                while i < files.len()
                    invariant
                        i <= files@.len(),
                        sum == prefix_length(files@, i as nat),
                        self.files == Some(*files),
                    decreases files@.len() - i,
                {
                    match sum.checked_add(files[i].length) {
                        Some(next) => {
                            sum = next;
                        },
                        None => {
                            proof {
                                assert(prefix_length(files@, (i + 1) as nat) == sum
                                    + files@[i as int].length);
                                lemma_prefix_length_monotonic(
                                    files@,
                                    (i + 1) as nat,
                                    files@.len(),
                                );
                            }
                            return None;
                        },
                    }
                    i += 1;
                }
                Some(sum)
            },
            None => match self.length {
                Some(length) => Some(length),
                None => Some(0),
            },
        }
    }

    /// Number of pieces, as counted by the hash list.
    pub fn num_pieces(&self) -> (n: usize)
        ensures
            n == self.spec_num_pieces(),
    {
        self.pieces.len() / HASH_LEN
    }

    /// Checks the metainfo: `Ok` exactly when it is valid, else `MetainfoInvalid`.
    pub fn validate(&self) -> (checked: Result<(), Error>)
        ensures
            checked.is_ok() <==> self.spec_is_valid(),
            checked.is_err() ==> checked == Err::<(), Error>(Error::MetainfoInvalid),
    {
        if self.length.is_some() == self.files.is_some() {
            return Err(Error::MetainfoInvalid);
        }
        if self.piece_length == 0 || self.pieces.len() % HASH_LEN != 0 {
            return Err(Error::MetainfoInvalid);
        }
        match self.checked_total_length() {
            None => Err(Error::MetainfoInvalid),
            Some(total) => {
                let expected = count_pieces(total, self.piece_length);
                if self.pieces.len() / HASH_LEN == expected {
                    Ok(())
                } else {
                    Err(Error::MetainfoInvalid)
                }
            },
        }
    }
}

/// A longer prefix of the file list is at least as long in bytes.
pub proof fn lemma_prefix_length_monotonic(files: Seq<File>, m: nat, n: nat)
    requires
        m <= n,
    ensures
        prefix_length(files, m) <= prefix_length(files, n),
    decreases n,
{
    if m < n {
        lemma_prefix_length_monotonic(files, m, (n - 1) as nat);
    }
}

/// `total / piece_length`, rounded up, computed without overflow.
pub fn count_pieces(total: usize, piece_length: usize) -> (n: usize)
    requires
        piece_length > 0,
    ensures
        n == piece_count(total as nat, piece_length as nat),
{
    let whole = total / piece_length;
    let rest = total % piece_length;
    proof {
        let t = total as int;
        let p = piece_length as int;
        assert(t == p * (t / p) + t % p) by (nonlinear_arith)
            requires
                p > 0,
        ;
        assert(0 <= t % p < p) by (nonlinear_arith)
            requires
                p > 0,
        ;
        let w = t / p;
        let r = t % p;
        if r == 0 {
            assert((p * w + p - 1) / p == w) by (nonlinear_arith)
                requires
                    p > 0,
            ;
        } else {
            assert((p * w + r + p - 1) / p == w + 1) by (nonlinear_arith)
                requires
                    p > 0,
                    0 < r < p,
            ;
            assert(w + 1 <= t) by (nonlinear_arith)
                requires
                    t == p * w + r,
                    p > 0,
                    0 < r,
                    w >= 0,
            ;
        }
    }
    if rest == 0 {
        whole
    } else {
        whole + 1
    }
}

impl Torrent {
    /// Total length of the content in bytes.
    pub open spec fn spec_total_length(&self) -> nat {
        self.info.spec_total_length()
    }

    /// Total length of the content: the sum of all file lengths in
    /// multi-file mode, else the single file's length.
    pub fn total_length(&self) -> (total: usize)
        requires
            self.spec_total_length() <= usize::MAX,
        ensures
            total == self.spec_total_length(),
    {
        match self.info.checked_total_length() {
            Some(total) => total,
            None => 0,
        }
    }
}

/// Every valid metainfo has just enough pieces: they cover the content, one
/// fewer would not, and the last piece holds what the full pieces leave.
pub proof fn law_valid_metainfo_pieces(info: Info)
    requires
        info.spec_is_valid(),
    ensures
        info.spec_num_pieces() * info.piece_length >= info.spec_total_length(),
        (info.spec_num_pieces() - 1) * info.piece_length < info.spec_total_length(),
        info.spec_num_pieces() > 0 ==> piece_size(
            info.spec_total_length(),
            info.piece_length as nat,
            (info.spec_num_pieces() - 1) as nat,
        ) == info.spec_total_length() - (info.spec_num_pieces() - 1) * info.piece_length,
{
    lemma_piece_count_bounds(info.spec_total_length(), info.piece_length as nat);
}

} // verus!
