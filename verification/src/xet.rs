//! Content in storage, and the local files that stand in for it.
use crate::cached_xet_client::FileRange;
use crate::error::{Error, ErrorModel, Result};
use crate::text;
use crate::text::{concat, hex_text, hex_text_16};
use vstd::prelude::*;
use vstd::string::*;

verus! {

broadcast use vstd::string::group_string_axioms;

/// The part of a file that a download is for.
#[derive(Debug, Clone, Copy, PartialEq, Eq, Structural)]
pub struct StreamPlan {
    pub range: FileRange,
    /// Chunks are kept on disk. Storage objects come as a whole then, which pays for reading on and
    /// on, but not for a few bytes here and there.
    pub cache_chunks: bool,
}

/// The part of a file that a download from `offset` on is for: up to `end`, or else up to the end of
/// the file, as far as its size is known.
pub fn stream_plan(offset: u64, end: Option<u64>, file_size: Option<u64>) -> (r: StreamPlan)
    ensures
        r.range.start == offset,
        r.range.end == match (end, file_size) {
            (Some(e), _) => e,
            (None, Some(size)) => size,
            (None, None) => u64::MAX,
        },
        r.cache_chunks == (end is None),
{
    let limit: u64 = match (end, file_size) {
        (Some(e), _) => e,
        (None, Some(size)) => size,
        (None, None) => u64::MAX,
    };
    StreamPlan { range: FileRange { start: offset, end: limit }, cache_chunks: end.is_none() }
}

/// Refuse an upload where there is nothing to upload with, as on a read-only mount.
pub fn check_uploads(configured: bool) -> (r: Result<()>)
    ensures
        r is Ok <==> configured,
        r matches Err(e) ==> e@ == (ErrorModel::Hub {
            message: "no upload config (read-only mode)"@,
            status: None,
        }),
{
    if configured {
        Ok(())
    } else {
        Err(Error::hub("no upload config (read-only mode)"))
    }
}

/// A path below a directory.
pub open spec fn path_below(dir: Seq<char>, name: Seq<char>) -> Seq<char> {
    if dir.len() == 0 || dir.last() == '/' {
        dir + name
    } else {
        dir + "/"@ + name
    }
}

/// A path below a directory.
fn join(dir: &str, name: &str) -> (r: String)
    ensures
        r@ == path_below(dir@, name@),
{
    let len: usize = dir.unicode_len();
    if len == 0 || dir.get_char(len - 1) == '/' {
        concat(dir, name)
    } else {
        let mut out = dir.to_owned();
        out.append("/");
        out.append(name);
        out
    }
}

/// The name of the staging file of an inode: one that another session does not use.
pub open spec fn staging_name(session_key: u64, inode: u64) -> Seq<char> {
    "ino_"@ + text::hex(inode as nat) + "_"@ + text::hex_padded(session_key as nat, 16)
}

/// A directory of local files that stand in for content that is written, one per inode.
#[derive(Debug)]
pub struct StagingDir {
    dir: String,
    session_key: u64,
}

impl Clone for StagingDir {
    fn clone(&self) -> (r: Self)
        ensures
            r.location() == self.location(),
            r.key() == self.key(),
    {
        StagingDir { dir: self.dir.clone(), session_key: self.session_key }
    }
}

impl StagingDir {
    /// The directory.
    pub closed spec fn location(&self) -> Seq<char> {
        self.dir@
    }

    /// What tells this session's files from those of others.
    pub closed spec fn key(&self) -> u64 {
        self.session_key
    }

    /// Staging files below `cache_dir`, for the session with this key.
    pub fn new(cache_dir: &str, session_key: u64) -> (r: Self)
        ensures
            r.location() == path_below(cache_dir@, "staging"@),
            r.location().len() > 0,
            r.location().last() != '/',
            r.key() == session_key,
    {
        proof {
            reveal_strlit("staging");
        }
        StagingDir { dir: join(cache_dir, "staging"), session_key }
    }

    /// The directory.
    pub fn root(&self) -> (r: &str)
        ensures
            r@ == self.location(),
    {
        self.dir.as_str()
    }

    /// The name of the staging file of an inode, within the directory.
    pub fn file_name(&self, inode: u64) -> (r: String)
        ensures
            r@ == staging_name(self.key(), inode),
    {
        let mut out = "ino_".to_owned();
        out.append(hex_text(inode).as_str());
        out.append("_");
        out.append(hex_text_16(self.session_key).as_str());
        out
    }

    /// The staging file of an inode.
    pub fn path(&self, inode: u64) -> (r: String)
        ensures
            r@ == path_below(self.location(), staging_name(self.key(), inode)),
    {
        join(self.dir.as_str(), self.file_name(inode).as_str())
    }
}

proof fn lemma_hex_injective(a: nat, b: nat)
    requires
        text::hex(a) == text::hex(b),
    ensures
        a == b,
    decreases a,
{
    assert(text::hex(a).last() == text::hex(b).last());
    assert(text::hex(a).drop_last() == text::hex(b).drop_last());
    if a >= 16 && b >= 16 {
        assert(text::hex(a).drop_last() =~= text::hex(a / 16));
        assert(text::hex(b).drop_last() =~= text::hex(b / 16));
        lemma_hex_injective(a / 16, b / 16);
        assert(text::hex(a).last() == text::hex_char(a % 16));
        assert(text::hex(b).last() == text::hex_char(b % 16));
        assert(a % 16 == b % 16);
        assert(a == 16 * (a / 16) + a % 16);
    } else if a >= 16 {
        assert(text::hex(a).drop_last() =~= text::hex(a / 16));
        assert(text::hex(a / 16).len() > 0);
        assert(text::hex(b).len() == 1);
    } else if b >= 16 {
        assert(text::hex(b).drop_last() =~= text::hex(b / 16));
        assert(text::hex(b / 16).len() > 0);
        assert(text::hex(a).len() == 1);
    } else {
        assert(text::hex(a)[0] == text::hex_char(a));
        assert(text::hex(b)[0] == text::hex_char(b));
    }
}

proof fn lemma_hex_has_no_slash(n: nat)
    ensures
        !text::hex(n).contains('/'),
    decreases n,
{
    let digits = text::hex(n);
    if n >= 16 {
        lemma_hex_has_no_slash(n / 16);
    }
    assert forall|i: int| 0 <= i < digits.len() implies digits[i] != '/' by {
        if n >= 16 && i < digits.len() - 1 {
            assert(digits[i] == text::hex(n / 16)[i]);
            assert(text::hex(n / 16).contains(digits[i]));
        }
    }
}

proof fn lemma_padded_has_no_slash(n: nat, width: nat)
    ensures
        !text::hex_padded(n, width).contains('/'),
    decreases width,
{
    let digits = text::hex_padded(n, width);
    if width > 0 {
        lemma_padded_has_no_slash(n / 16, (width - 1) as nat);
    }
    assert forall|i: int| 0 <= i < digits.len() implies digits[i] != '/' by {
        if i < digits.len() - 1 {
            assert(digits[i] == text::hex_padded(n / 16, (width - 1) as nat)[i]);
            assert(text::hex_padded(n / 16, (width - 1) as nat).contains(digits[i]));
        }
    }
}

/// A staging file stands directly in its directory.
pub proof fn law_staging_files_are_in_their_directory(dir: Seq<char>, session_key: u64, inode: u64)
    requires
        dir.len() > 0,
        dir.last() != '/',
    ensures
        text::split_last(path_below(dir, staging_name(session_key, inode)), '/') == Some(
            (dir, staging_name(session_key, inode)),
        ),
{
    let name = staging_name(session_key, inode);
    let path = path_below(dir, name);
    reveal_strlit("/");
    reveal_strlit("ino_");
    reveal_strlit("_");
    lemma_hex_has_no_slash(inode as nat);
    lemma_padded_has_no_slash(session_key as nat, 16);
    let a = text::hex(inode as nat);
    let b = text::hex_padded(session_key as nat, 16);
    assert forall|j: int| 0 <= j < name.len() implies name[j] != '/' by {
        if 4 <= j < 4 + a.len() {
            assert(name[j] == a[j - 4]);
            assert(a.contains(name[j]));
        } else if j > 4 + a.len() {
            assert(name[j] == b[j - 5 - a.len()]);
            assert(b.contains(name[j]));
        }
    }
    let end = dir.len() as int + 1;
    assert forall|j: int| end <= j < path.len() implies path[j] != '/' by {
        assert(path[j] == name[j - end]);
    }
    text::lemma_split_last_at(path, '/', end);
    assert(path.take(end - 1) =~= dir);
    assert(path.skip(end) =~= name);
}

/// Two inodes never share a staging file.
pub proof fn law_staging_files_are_apart(dir: Seq<char>, session_key: u64, a: u64, b: u64)
    requires
        path_below(dir, staging_name(session_key, a)) == path_below(
            dir,
            staging_name(session_key, b),
        ),
    ensures
        a == b,
{
    let x = path_below(dir, staging_name(session_key, a));
    let y = path_below(dir, staging_name(session_key, b));
    let before = path_below(dir, "ino_"@);
    let after = "_"@ + text::hex_padded(session_key as nat, 16);
    assert(x =~= before + text::hex(a as nat) + after);
    assert(y =~= before + text::hex(b as nat) + after);
    let n = text::hex(a as nat).len();
    assert(n == text::hex(b as nat).len());
    assert(x.subrange(before.len() as int, before.len() as int + n) =~= text::hex(a as nat));
    assert(y.subrange(before.len() as int, before.len() as int + n) =~= text::hex(b as nat));
    lemma_hex_injective(a as nat, b as nat);
}

/// How many numbers have so many hexadecimal digits.
spec fn count_of(width: nat) -> nat
    decreases width,
{
    if width == 0 {
        1
    } else {
        16 * count_of((width - 1) as nat)
    }
}

proof fn lemma_padded(a: nat, b: nat, width: nat)
    ensures
        text::hex_padded(a, width).len() == width,
        text::hex_padded(a, width) == text::hex_padded(b, width) && a < count_of(width) && b
            < count_of(width) ==> a == b,
    decreases width,
{
    if width > 0 {
        let less = (width - 1) as nat;
        lemma_padded(a / 16, b / 16, less);
        let x = text::hex_padded(a, width);
        let y = text::hex_padded(b, width);
        if x == y {
            assert(x.drop_last() =~= text::hex_padded(a / 16, less));
            assert(y.drop_last() =~= text::hex_padded(b / 16, less));
            assert(x.last() == text::hex_char(a % 16));
            assert(y.last() == text::hex_char(b % 16));
        }
    }
}

/// Two sessions never share a staging file.
pub proof fn law_sessions_have_their_own_files(dir: Seq<char>, a: u64, b: u64, x: u64, y: u64)
    requires
        path_below(dir, staging_name(a, x)) == path_below(dir, staging_name(b, y)),
    ensures
        a == b,
{
    let p = path_below(dir, staging_name(a, x));
    let q = path_below(dir, staging_name(b, y));
    lemma_padded(a as nat, b as nat, 16);
    lemma_padded(b as nat, a as nat, 16);
    assert(p.skip(p.len() - 16) =~= text::hex_padded(a as nat, 16));
    assert(q.skip(q.len() - 16) =~= text::hex_padded(b as nat, 16));
    reveal_with_fuel(count_of, 17);
}

} // verus!
