//! The mounted view of a backing store: a flat directory of append-only files.
//!
//! Writes must be at the end, and anything else is not permitted. Truncating
//! to nothing starts a file over, and truncating to any other size is not
//! permitted. Renaming and unlinking work. The write-time index is exposed per
//! file as extended attributes, and setting one of them is how a rotation is
//! asked for.

use crate::bark::{opt_str, opt_string};
use crate::interest::RotateStats;
use crate::rank::{in_rank, lemma_in_rank, rank_all, ranked, ranks_of, Rank, RankModel, Ranked};
use crate::text::{
    char_texts, chars_of, decimal, has_char, join, joined, number_text, parse_u64, parsed, parts_of,
    same, spells, split_on, strip_prefix, text, text_of, texts, without_prefix, words, words_of,
};
use vstd::prelude::*;
use vstd::string::StringExecFns;
use vstd::utf8::encode_utf8;

verus! {

/// How long the kernel may keep an answer.
pub const TTL_MS: u64 = 1_000;

/// The directory's own inode.
pub const ROOT_INO: u64 = 1;

/// Why a request is refused.
#[derive(Debug, Clone, Copy, PartialEq, Eq, Structural)]
pub enum Errno {
    /// There is no such file.
    NotFound,
    Invalid,
    NotPermitted,
    Io,
    NotADirectory,
    NoData,
    Range,
    NotSupported,
    /// Whatever the system said.
    Os(i32),
}

/// What kind of thing went wrong, where the system gave no number.
#[derive(Debug, Clone, Copy, PartialEq, Eq, Structural)]
pub enum FaultKind {
    NotFound,
    InvalidInput,
    InvalidData,
    PermissionDenied,
    Other,
}

/// What an error of a backing file is to whoever asked through the mount.
pub fn io_errno(os: Option<i32>, kind: FaultKind) -> (r: Errno)
    ensures
        r == (match os {
            Some(n) => Errno::Os(n),
            None => match kind {
                FaultKind::NotFound => Errno::NotFound,
                FaultKind::InvalidInput | FaultKind::InvalidData => Errno::Invalid,
                FaultKind::PermissionDenied => Errno::NotPermitted,
                FaultKind::Other => Errno::Io,
            },
        }),
        r is Os <==> os is Some,
        r is Os ==> Some(r->Os_0) == os,
{
    match os {
        Some(n) => Errno::Os(n),
        None => match kind {
            FaultKind::NotFound => Errno::NotFound,
            FaultKind::InvalidInput | FaultKind::InvalidData => Errno::Invalid,
            FaultKind::PermissionDenied => Errno::NotPermitted,
            FaultKind::Other => Errno::Io,
        },
    }
}

// ----------------------------------------------------------------- rotation

/// A rotation that is asked for: `cutoff=<unix_ms>;target=<name>`, or
/// `cutoff=<unix_ms>;delete`.
#[derive(Debug, Clone, PartialEq, Eq)]
pub struct RotateReq {
    pub cutoff_ms: u64,
    /// Nothing where what is cut off is deleted.
    pub target: Option<String>,
}

/// What a request says so far.
pub struct Asked {
    pub cutoff: Option<nat>,
    pub target: Option<Seq<char>>,
    pub delete: bool,
}

/// What one part of a request says: nothing at all where it is no part of one.
pub open spec fn asked_more(a: Asked, part: Seq<char>) -> Option<Asked> {
    match strip_prefix(part, "cutoff="@) {
        Some(v) => Some(Asked { cutoff: parsed(v, u64::MAX as nat), ..a }),
        None => match strip_prefix(part, "target="@) {
            Some(v) => if v.len() == 0 || v.contains('/') {
                None
            } else {
                Some(Asked { target: Some(v), ..a })
            },
            None => if part == "delete"@ {
                Some(Asked { delete: true, ..a })
            } else if part.len() > 0 {
                None
            } else {
                Some(a)
            },
        },
    }
}

/// What a list of parts says.
pub open spec fn asked(parts: Seq<Seq<char>>) -> Option<Asked>
    decreases parts.len(),
{
    if parts.len() == 0 {
        Some(Asked { cutoff: None, target: None, delete: false })
    } else {
        match asked(parts.drop_last()) {
            None => None,
            Some(a) => asked_more(a, parts.last()),
        }
    }
}

/// The rotation that a text asks for: it has a time, and either a target or
/// that what is cut off is deleted, but not both.
pub open spec fn rotation(s: Seq<char>) -> Option<(nat, Option<Seq<char>>)> {
    match asked(split_on(s, ';')) {
        None => None,
        Some(a) => if a.cutoff is None || a.delete == (a.target is Some) {
            None
        } else {
            Some((a.cutoff->Some_0, a.target))
        },
    }
}

proof fn lemma_asked_stops(parts: Seq<Seq<char>>, k: int)
    requires
        0 <= k <= parts.len(),
        asked(parts.take(k)) is None,
    ensures
        asked(parts) is None,
    decreases parts.len(),
{
    if k == parts.len() {
        assert(parts.take(k) =~= parts);
    } else {
        assert(parts.drop_last().take(k) =~= parts.take(k));
        lemma_asked_stops(parts.drop_last(), k);
    }
}

/// The rotation that a text asks for.
pub fn parse_rotate_request(s: &str) -> (r: Option<RotateReq>)
    ensures
        match r {
            Some(q) => rotation(s@) == Some((q.cutoff_ms as nat, opt_string(q.target))),
            None => rotation(s@) is None,
        },
{
    let cs = chars_of(s);
    let parts = parts_of(cs.as_slice(), ';');
    let ghost all = char_texts(parts@);
    let mut cutoff: Option<u64> = None;
    let mut target: Option<String> = None;
    let mut delete = false;
    let mut i: usize = 0;
    proof {
        assert(all.take(0) =~= Seq::empty());
    }
    while i < parts.len()
        invariant
            i <= parts@.len(),
            all == char_texts(parts@),
            all == split_on(s@, ';'),
            asked(all.take(i as int)) == Some(
                Asked {
                    cutoff: match cutoff {
                        Some(n) => Some(n as nat),
                        None => None,
                    },
                    target: opt_string(target),
                    delete,
                },
            ),
        decreases parts@.len() - i,
    {
        let part = parts[i].as_slice();
        proof {
            assert(all.take(i + 1).drop_last() =~= all.take(i as int));
            assert(all.take(i + 1).last() == part@);
            if asked(all.take(i + 1)) is None {
                lemma_asked_stops(all, i + 1);
            }
        }
        match without_prefix(part, "cutoff=") {
            Some(v) => {
                cutoff = parse_u64(v);
            },
            None => match without_prefix(part, "target=") {
                Some(v) => {
                    if v.len() == 0 || has_char(v, '/') {
                        return None;
                    }
                    target = Some(text_of(v));
                },
                None => {
                    if spells(part, "delete") {
                        delete = true;
                    } else if part.len() > 0 {
                        return None;
                    }
                },
            },
        }
        i = i + 1;
    }
    proof {
        assert(all.take(i as int) =~= all);
    }
    match cutoff {
        None => None,
        Some(cutoff_ms) => {
            if delete == target.is_some() {
                None
            } else {
                Some(RotateReq { cutoff_ms, target })
            }
        },
    }
}

/// What is said of a rotation.
pub open spec fn rotated_said(name: Seq<char>, stats: RotateStats, target: Option<Seq<char>>) -> Seq<
    char,
> {
    "timberfs: "@ + name + ": rotated "@ + decimal(stats.chunks_moved as nat) + " chunk(s) ("@
        + decimal(stats.comp_bytes as nat) + " compressed bytes) "@ + (match target {
        Some(t) => "into "@ + t,
        None => "deleted"@,
    })
}

/// What is said of a rotation.
pub fn rotated_note(name: &str, stats: &RotateStats, target: Option<&str>) -> (r: String)
    ensures
        r@ == rotated_said(name@, *stats, opt_str(target)),
{
    let where_to = match target {
        Some(t) => text("into ").concat(t),
        None => text("deleted"),
    };
    text("timberfs: ").concat(name).concat(": rotated ").concat(
        number_text(stats.chunks_moved as u64).as_str(),
    ).concat(" chunk(s) (").concat(number_text(stats.comp_bytes).as_str()).concat(
        " compressed bytes) ",
    ).concat(where_to.as_str())
}

// ------------------------------------------------------------------- access

/// Whether a write is let through.
pub open spec fn write_allowed(append: bool, offset: i64, size: u64) -> Result<(), Errno> {
    if append || offset == size {
        Ok(())
    } else {
        Err(Errno::NotPermitted)
    }
}

/// Whether a write is let through: one through an append handle always lands
/// at the end, whatever the kernel made its offset, and every other must be
/// exactly there.
pub fn write_step(append: bool, offset: i64, size: u64) -> (r: Result<(), Errno>)
    ensures
        r == write_allowed(append, offset, size),
{
    if append || (offset >= 0 && offset as u64 == size) {
        Ok(())
    } else {
        Err(Errno::NotPermitted)
    }
}

/// What setting a size does.
#[derive(Debug, Clone, Copy, PartialEq, Eq, Structural)]
pub enum Resize {
    Keep,
    /// The file starts over.
    Reset,
}

/// What setting a size does: nothing but starting over is let through.
pub fn resize_step(to: Option<u64>, size: u64) -> (r: Result<Resize, Errno>)
    ensures
        r == (match to {
            None => Ok::<Resize, Errno>(Resize::Keep),
            Some(n) => if n == 0 && size > 0 {
                Ok(Resize::Reset)
            } else if n != size {
                Err(Errno::NotPermitted)
            } else {
                Ok(Resize::Keep)
            },
        }),
        r is Err <==> to is Some && to->Some_0 != 0 && to->Some_0 != size,
        r == Ok::<Resize, Errno>(Resize::Reset) <==> to == Some(0u64) && size > 0,
{
    match to {
        None => Ok(Resize::Keep),
        Some(n) => if n == 0 && size > 0 {
            Ok(Resize::Reset)
        } else if n != size {
            Err(Errno::NotPermitted)
        } else {
            Ok(Resize::Keep)
        },
    }
}

/// Where a read starts.
pub fn read_at(offset: i64) -> (r: Result<u64, Errno>)
    ensures
        r == (if offset < 0 {
            Err::<u64, Errno>(Errno::Invalid)
        } else {
            Ok::<u64, Errno>(offset as u64)
        }),
        r is Ok <==> offset >= 0,
        r is Ok ==> r->Ok_0 as int == offset as int,
{
    if offset < 0 {
        Err(Errno::Invalid)
    } else {
        Ok(offset as u64)
    }
}

/// What a file looks like.
#[derive(Debug, Clone, Copy, PartialEq, Eq, Structural)]
pub struct Attr {
    pub ino: u64,
    pub size: u64,
    pub blocks: u64,
    pub mtime_ms: u64,
    pub directory: bool,
    pub perm: u16,
    pub nlink: u32,
    pub blksize: u32,
}

/// What the directory looks like.
pub fn root_attr(now_ms: u64) -> (r: Attr)
    ensures
        r == (Attr {
            ino: ROOT_INO,
            size: 0,
            blocks: 0,
            mtime_ms: now_ms,
            directory: true,
            perm: 0o755,
            nlink: 2,
            blksize: 4096,
        }),
{
    Attr {
        ino: ROOT_INO,
        size: 0,
        blocks: 0,
        mtime_ms: now_ms,
        directory: true,
        perm: 0o755,
        nlink: 2,
        blksize: 4096,
    }
}

/// What a file looks like: its logical size, and the blocks that it takes
/// compressed, so that listing it shows the one and measuring it the other. A
/// file that was never written has the time it is looked at.
pub fn file_attr(
    ino: u64,
    size: u64,
    comp_size: u64,
    last_write_ms: Option<u64>,
    now_ms: u64,
) -> (r: Attr)
    ensures
        r.ino == ino,
        r.size == size,
        r.blocks == (comp_size as int + 511) / 512,
        r.mtime_ms == (match last_write_ms {
            Some(ms) => ms,
            None => now_ms,
        }),
        !r.directory,
        r.perm == 0o644,
        r.nlink == 1,
        r.blksize == 4096,
        comp_size <= 512 * r.blocks < comp_size + 512,
        last_write_ms is Some ==> r.mtime_ms == last_write_ms->Some_0,
{
    let whole: u64 = comp_size / 512;
    let blocks: u64 = if comp_size % 512 > 0 {
        whole + 1
    } else {
        whole
    };
    Attr {
        ino,
        size,
        blocks,
        mtime_ms: match last_write_ms {
            Some(ms) => ms,
            None => now_ms,
        },
        directory: false,
        perm: 0o644,
        nlink: 1,
        blksize: 4096,
    }
}

// --------------------------------------------------------------- attributes

/// What is known of a file, for its attributes; the times as they are shown.
#[derive(Debug, Clone, PartialEq, Eq)]
pub struct FileFacts {
    pub chunks: usize,
    pub comp_size: u64,
    pub first_write: Option<String>,
    pub last_write: Option<String>,
}

/// The value of an attribute.
pub open spec fn xattr_of(key: Seq<char>, f: FileFacts) -> Option<Seq<char>> {
    if key == "user.timberfs.chunks"@ {
        Some(decimal(f.chunks as nat))
    } else if key == "user.timberfs.compressed_size"@ {
        Some(decimal(f.comp_size as nat))
    } else if key == "user.timberfs.first_write"@ {
        opt_string(f.first_write)
    } else if key == "user.timberfs.last_write"@ {
        opt_string(f.last_write)
    } else {
        None
    }
}

/// The value of an attribute.
pub fn xattr_value(key: &str, f: &FileFacts) -> (r: Option<String>)
    ensures
        opt_string(r) == xattr_of(key@, *f),
{
    if same(key, "user.timberfs.chunks") {
        Some(number_text(f.chunks as u64))
    } else if same(key, "user.timberfs.compressed_size") {
        Some(number_text(f.comp_size))
    } else if same(key, "user.timberfs.first_write") {
        match &f.first_write {
            Some(s) => Some(text(s.as_str())),
            None => None,
        }
    } else if same(key, "user.timberfs.last_write") {
        match &f.last_write {
            Some(s) => Some(text(s.as_str())),
            None => None,
        }
    } else {
        None
    }
}

/// The names of the attributes, each with a zero byte behind it.
pub open spec fn xattr_names() -> Seq<u8> {
    encode_utf8("user.timberfs.chunks"@).push(0) + encode_utf8(
        "user.timberfs.compressed_size"@,
    ).push(0) + encode_utf8("user.timberfs.first_write"@).push(0) + encode_utf8(
        "user.timberfs.last_write"@,
    ).push(0)
}

/// The names of a file's attributes; none where there is no such file.
pub fn list_xattrs(known: bool) -> (r: Vec<u8>)
    ensures
        r@ == (if known {
            xattr_names()
        } else {
            Seq::<u8>::empty()
        }),
{
    let mut out: Vec<u8> = Vec::new();
    if known {
        out.extend_from_slice("user.timberfs.chunks".as_bytes());
        out.push(0);
        out.extend_from_slice("user.timberfs.compressed_size".as_bytes());
        out.push(0);
        out.extend_from_slice("user.timberfs.first_write".as_bytes());
        out.push(0);
        out.extend_from_slice("user.timberfs.last_write".as_bytes());
        out.push(0);
        proof {
            assert(out@ =~= xattr_names());
        }
    } else {
        proof {
            assert(out@ =~= Seq::<u8>::empty());
        }
    }
    out
}

/// How a request for an attribute is answered.
#[derive(Debug, Clone, Copy, PartialEq, Eq, Structural)]
pub enum XattrReply {
    /// How long it is.
    Size(u32),
    /// The bytes themselves.
    Data,
    /// They do not fit.
    Range,
}

/// How a request for an attribute of so many bytes is answered: with the
/// length where no room is given, and with the bytes where they fit.
pub fn xattr_reply(len: usize, room: u32) -> (r: XattrReply)
    requires
        len <= u32::MAX,
    ensures
        r == (if room == 0 {
            XattrReply::Size(len as u32)
        } else if room >= len {
            XattrReply::Data
        } else {
            XattrReply::Range
        }),
{
    if room == 0 {
        XattrReply::Size(len as u32)
    } else if room >= len as u32 {
        XattrReply::Data
    } else {
        XattrReply::Range
    }
}

// ------------------------------------------------------------------- inodes

/// A file's number and name.
#[derive(Debug, Clone, PartialEq, Eq)]
pub struct Inode {
    pub ino: u64,
    pub name: String,
}

/// What a file's number and name are.
pub struct InodeModel {
    pub ino: u64,
    pub name: Seq<char>,
}

impl View for Inode {
    type V = InodeModel;

    open spec fn view(&self) -> InodeModel {
        InodeModel { ino: self.ino, name: self.name@ }
    }
}

/// What a list of files is.
pub open spec fn inode_models(v: Seq<Inode>) -> Seq<InodeModel> {
    Seq::new(v.len(), |i: int| v[i]@)
}

/// Which file has a name, from the `i`th on; how many there are where none
/// has.
pub open spec fn named(v: Seq<InodeModel>, name: Seq<char>, i: int) -> int
    decreases v.len() - i,
{
    if i >= v.len() || v[i].name == name {
        i
    } else {
        named(v, name, i + 1)
    }
}

/// Which file has a number, from the `i`th on.
pub open spec fn numbered(v: Seq<InodeModel>, ino: u64, i: int) -> int
    decreases v.len() - i,
{
    if i >= v.len() || v[i].ino == ino {
        i
    } else {
        numbered(v, ino, i + 1)
    }
}

/// The files without one of a name.
pub open spec fn without(v: Seq<InodeModel>, name: Seq<char>) -> Seq<InodeModel> {
    if named(v, name, 0) < v.len() {
        v.remove(named(v, name, 0))
    } else {
        v
    }
}

/// The files after one was renamed: it keeps its number, and what had the new
/// name is gone.
pub open spec fn renamed(v: Seq<InodeModel>, old_name: Seq<char>, new_name: Seq<char>) -> Seq<
    InodeModel,
> {
    let rest = without(v, new_name);
    let k = named(rest, old_name, 0);
    if k < rest.len() {
        rest.update(k, InodeModel { ino: rest[k].ino, name: new_name })
    } else {
        rest
    }
}

/// Whether numbers and names are each given once, and no number was not given
/// out.
pub open spec fn sound(v: Seq<InodeModel>, next: u64) -> bool {
    &&& next >= 2
    &&& forall|i: int| 0 <= i < v.len() ==> 2 <= (#[trigger] v[i]).ino < next
    &&& forall|i: int, j: int|
        0 <= i < j < v.len() ==> (#[trigger] v[i]).ino != (#[trigger] v[j]).ino && v[i].name
            != v[j].name
}

/// The files of the directory, and their numbers.
#[derive(Debug, Clone)]
pub struct Inodes {
    files: Vec<Inode>,
    next_ino: u64,
}

impl View for Inodes {
    type V = Seq<InodeModel>;

    closed spec fn view(&self) -> Seq<InodeModel> {
        inode_models(self.files@)
    }
}

pub proof fn lemma_named(v: Seq<InodeModel>, name: Seq<char>, i: int)
    requires
        0 <= i <= v.len(),
    ensures
        i <= named(v, name, i) <= v.len(),
        named(v, name, i) < v.len() ==> v[named(v, name, i)].name == name,
        forall|j: int| i <= j < named(v, name, i) ==> (#[trigger] v[j]).name != name,
    decreases v.len() - i,
{
    if i < v.len() && v[i].name != name {
        lemma_named(v, name, i + 1);
    }
}

proof fn lemma_without_sound(v: Seq<InodeModel>, name: Seq<char>, next: u64)
    requires
        sound(v, next),
    ensures
        sound(without(v, name), next),
        forall|i: int| 0 <= i < without(v, name).len() ==> (#[trigger] without(v, name)[i]).name
            != name,
{
    lemma_named(v, name, 0);
    let k = named(v, name, 0);
    let w = without(v, name);
    assert forall|i: int| 0 <= i < w.len() implies (#[trigger] w[i]).name != name && 2 <= w[i].ino
        < next by {
        if k < v.len() {
            let a = if i < k { i } else { i + 1 };
            assert(w[i] == v[a]);
            if a < k {
                assert(v[a].name != v[k].name);
            } else {
                assert(v[k].name != v[a].name);
            }
        }
    }
    assert forall|i: int, j: int| 0 <= i < j < w.len() implies (#[trigger] w[i]).ino != (
    #[trigger] w[j]).ino && w[i].name != w[j].name by {
        if k < v.len() {
            let a = if i < k { i } else { i + 1 };
            let b = if j < k { j } else { j + 1 };
            assert(w[i] == v[a] && w[j] == v[b]);
        }
    }
}

proof fn lemma_renamed_sound(
    v: Seq<InodeModel>,
    old_name: Seq<char>,
    new_name: Seq<char>,
    next: u64,
)
    requires
        sound(v, next),
    ensures
        sound(renamed(v, old_name, new_name), next),
{
    let rest = without(v, new_name);
    lemma_without_sound(v, new_name, next);
    lemma_named(rest, old_name, 0);
    let k = named(rest, old_name, 0);
    let w = renamed(v, old_name, new_name);
    if k < rest.len() {
        assert forall|i: int, j: int| 0 <= i < j < w.len() implies (#[trigger] w[i]).ino != (
        #[trigger] w[j]).ino && w[i].name != w[j].name by {
            assert(rest[i].ino != rest[j].ino && rest[i].name != rest[j].name);
            assert(rest[i].name != new_name && rest[j].name != new_name);
        }
        assert forall|i: int| 0 <= i < w.len() implies 2 <= (#[trigger] w[i]).ino < next by {
            assert(2 <= rest[i].ino < next);
        }
    }
}

impl Inodes {
    /// The number that the next file gets.
    pub closed spec fn next(&self) -> u64 {
        self.next_ino
    }

    /// Whether numbers and names are each given once.
    pub open spec fn wf(&self) -> bool {
        sound(self@, self.next())
    }

    /// No file.
    pub fn new() -> (r: Inodes)
        ensures
            r@ == Seq::<InodeModel>::empty(),
            r.next() == 2,
            r.wf(),
    {
        let r = Inodes { files: Vec::new(), next_ino: 2 };
        proof {
            assert(r@ =~= Seq::<InodeModel>::empty());
        }
        r
    }

    fn find(&self, name: &str) -> (k: usize)
        ensures
            k == named(self@, name@, 0),
            k <= self@.len(),
            self@.len() == self.files@.len(),
    {
        let mut k: usize = 0;
        while k < self.files.len()
            invariant
                k <= self@.len(),
                self@ == inode_models(self.files@),
                named(self@, name@, 0) == named(self@, name@, k as int),
            decreases self@.len() - k,
        {
            if same(self.files[k].name.as_str(), name) {
                return k;
            }
            k = k + 1;
        }
        k
    }

    /// The number of a file: the one it has, or else the next.
    pub fn assign_ino(&mut self, name: &str) -> (ino: u64)
        requires
            old(self).wf(),
            old(self).next() < u64::MAX,
        ensures
            final(self).wf(),
            ({
                let k = named(old(self)@, name@, 0);
                if k < old(self)@.len() {
                    ino == old(self)@[k].ino && final(self)@ == old(self)@ && final(self).next()
                        == old(self).next()
                } else {
                    ino == old(self).next() && final(self)@ == old(self)@.push(
                        (InodeModel { ino, name: name@ }),
                    ) && final(self).next() == ino + 1
                }
            }),
    {
        let ghost was = self@;
        proof {
            lemma_named(was, name@, 0);
        }
        let k: usize = self.find(name);
        if k < self.files.len() {
            return self.files[k].ino;
        }
        let ino: u64 = self.next_ino;
        let file = Inode { ino, name: text(name) };
        self.files.push(file);
        self.next_ino = ino + 1;
        proof {
            assert(self@ =~= was.push(file@));
            assert forall|i: int, j: int| 0 <= i < j < self@.len() implies (#[trigger] self@[i]).ino
                != (#[trigger] self@[j]).ino && self@[i].name != self@[j].name by {
                assert(self@[i] == was[i]);
                if j < was.len() {
                    assert(self@[j] == was[j]);
                }
            }
        }
        ino
    }

    /// The name of a file, by its number.
    pub fn name_of(&self, ino: u64) -> (r: Option<String>)
        ensures
            ({
                let k = numbered(self@, ino, 0);
                match r {
                    Some(s) => k < self@.len() && s@ == self@[k].name,
                    None => k >= self@.len(),
                }
            }),
            r is None <==> forall|i: int|
                0 <= i < self@.len() ==> (#[trigger] self@[i]).ino != ino,
            r is Some ==> self@.contains((InodeModel { ino, name: r->Some_0@ })),
    {
        let mut k: usize = 0;
        while k < self.files.len()
            invariant
                k <= self@.len(),
                self@ == inode_models(self.files@),
                numbered(self@, ino, 0) == numbered(self@, ino, k as int),
                forall|i: int| 0 <= i < k ==> (#[trigger] self@[i]).ino != ino,
            decreases self@.len() - k,
        {
            if self.files[k].ino == ino {
                assert(self@[k as int] == self.files@[k as int]@);
                return Some(text(self.files[k].name.as_str()));
            }
            k = k + 1;
        }
        None
    }

    /// The number of a file, by its name.
    pub fn ino_of(&self, name: &str) -> (r: Option<u64>)
        ensures
            ({
                let k = named(self@, name@, 0);
                match r {
                    Some(ino) => k < self@.len() && ino == self@[k].ino,
                    None => k >= self@.len(),
                }
            }),
            r is None <==> forall|i: int|
                0 <= i < self@.len() ==> (#[trigger] self@[i]).name != name@,
            r is Some ==> self@.contains((InodeModel { ino: r->Some_0, name: name@ })),
    {
        let k: usize = self.find(name);
        proof {
            lemma_named(self@, name@, 0);
        }
        if k < self.files.len() {
            assert(self@[k as int] == self.files@[k as int]@);
            Some(self.files[k].ino)
        } else {
            None
        }
    }

    /// How many files there are.
    pub fn count(&self) -> (n: usize)
        ensures
            n == self@.len(),
    {
        self.files.len()
    }

    /// Forgets a file.
    pub fn remove(&mut self, name: &str)
        requires
            old(self).wf(),
        ensures
            final(self).wf(),
            final(self)@ == without(old(self)@, name@),
            final(self).next() == old(self).next(),
    {
        let ghost was = self@;
        proof {
            lemma_without_sound(was, name@, self.next_ino);
        }
        let k: usize = self.find(name);
        if k < self.files.len() {
            self.files.remove(k);
            proof {
                assert(self@ =~= was.remove(k as int));
            }
        }
    }

    /// Renames a file: it keeps its number, and what had the new name is gone.
    pub fn rename(&mut self, old_name: &str, new_name: &str)
        requires
            old(self).wf(),
        ensures
            final(self).wf(),
            final(self)@ == renamed(old(self)@, old_name@, new_name@),
            final(self).next() == old(self).next(),
    {
        let ghost was = self@;
        proof {
            lemma_renamed_sound(was, old_name@, new_name@, self.next_ino);
        }
        self.remove(new_name);
        let ghost rest = self@;
        let k: usize = self.find(old_name);
        if k < self.files.len() {
            let file = Inode { ino: self.files[k].ino, name: text(new_name) };
            self.files.set(k, file);
            proof {
                assert(self@ =~= rest.update(k as int, file@));
            }
        }
    }
}

// --------------------------------------------------------------- directory

/// An entry of the directory.
#[derive(Debug, Clone, PartialEq, Eq)]
pub struct DirEntry {
    pub ino: u64,
    pub directory: bool,
    pub name: String,
}

/// What an entry of the directory is.
pub struct DirEntryModel {
    pub ino: u64,
    pub directory: bool,
    pub name: Seq<char>,
}

impl View for DirEntry {
    type V = DirEntryModel;

    open spec fn view(&self) -> DirEntryModel {
        DirEntryModel { ino: self.ino, directory: self.directory, name: self.name@ }
    }
}

/// What a list of entries is.
pub open spec fn entry_models(v: Seq<DirEntry>) -> Seq<DirEntryModel> {
    Seq::new(v.len(), |i: int| v[i]@)
}

impl Ranked for DirEntry {
    open spec fn rankable(&self) -> bool {
        true
    }

    open spec fn rank_model(&self) -> RankModel {
        RankModel { first: 0, second: 0, name: self.name@ }
    }

    fn rank(&self) -> (r: Rank) {
        Rank { first: 0, second: 0, name: text(self.name.as_str()) }
    }
}

/// The files as entries.
pub open spec fn file_entries(v: Seq<InodeModel>) -> Seq<DirEntryModel> {
    Seq::new(
        v.len(),
        |i: int| DirEntryModel { ino: v[i].ino, directory: false, name: v[i].name },
    )
}

/// Whether a list of entries is the whole listing: the directory itself and
/// what is above it, then every file once, in the order of their names.
pub open spec fn is_listing(v: Seq<InodeModel>, listing: Seq<DirEntry>) -> bool {
    exists|files: Seq<DirEntry>|
        entry_models(files) == file_entries(v) && listing.len() == 2 + files.len()
            && listing[0]@ == (
        DirEntryModel { ino: ROOT_INO, directory: true, name: "."@ }) && listing[1]@ == (
        DirEntryModel { ino: ROOT_INO, directory: true, name: ".."@ }) && listing.skip(2)
            == #[trigger] in_rank(files)
}

impl Inodes {
    /// The whole listing.
    pub fn listing(&self) -> (r: Vec<DirEntry>)
        ensures
            is_listing(self@, r@),
    {
        let mut files: Vec<DirEntry> = Vec::new();
        let mut i: usize = 0;
        while i < self.files.len()
            invariant
                i <= self.files@.len(),
                files@.len() == i,
                forall|j: int|
                    0 <= j < i ==> (#[trigger] files@[j])@ == (DirEntryModel {
                        ino: self.files@[j].ino,
                        directory: false,
                        name: self.files@[j].name@,
                    }),
            decreases self.files@.len() - i,
        {
            files.push(
                DirEntry {
                    ino: self.files[i].ino,
                    directory: false,
                    name: text(self.files[i].name.as_str()),
                },
            );
            i = i + 1;
        }
        let ghost all = files@;
        proof {
            assert(entry_models(all) =~= file_entries(self@));
        }
        let mut rest = rank_all(files);
        proof {
            lemma_in_rank(all);
        }
        let mut out: Vec<DirEntry> = Vec::new();
        out.push(DirEntry { ino: ROOT_INO, directory: true, name: text(".") });
        out.push(DirEntry { ino: ROOT_INO, directory: true, name: text("..") });
        out.append(&mut rest);
        proof {
            assert(out@.skip(2) =~= in_rank(all));
        }
        out
    }
}

/// Where a listing that was interrupted goes on: past its end where the offset
/// is no place in it.
pub fn listing_from(len: usize, offset: i64) -> (r: usize)
    ensures
        r == (if 0 <= offset <= len {
            offset as usize
        } else {
            len
        }),
        r <= len,
        offset < 0 ==> r == len,
        0 <= offset <= len ==> r as int == offset as int,
{
    let at: u64 = if offset < 0 {
        u64::MAX
    } else {
        offset as u64
    };
    if at <= len as u64 {
        at as usize
    } else {
        len
    }
}

/// What the file system says of itself.
#[derive(Debug, Clone, Copy, PartialEq, Eq, Structural)]
pub struct Statfs {
    pub blocks: u64,
    pub bfree: u64,
    pub bavail: u64,
    pub files: u64,
    pub ffree: u64,
    pub bsize: u32,
    pub namelen: u32,
    pub frsize: u32,
}

/// What the file system says of itself.
pub fn statfs(files: usize) -> (r: Statfs)
    ensures
        r == (Statfs {
            blocks: 0x4000_0000,
            bfree: 0x2000_0000,
            bavail: 0x2000_0000,
            files: files as u64,
            ffree: 0x10_0000,
            bsize: 4096,
            namelen: 255,
            frsize: 4096,
        }),
{
    Statfs {
        blocks: 0x4000_0000,
        bfree: 0x2000_0000,
        bavail: 0x2000_0000,
        files: files as u64,
        ffree: 0x10_0000,
        bsize: 4096,
        namelen: 255,
        frsize: 4096,
    }
}

// -------------------------------------------------------------------- mount

/// Why a directory cannot be mounted: what its lock holds, where no appender
/// holds one of its files, and the appenders' files where some do.
pub open spec fn in_use_said(
    dir: Seq<char>,
    appenders: Seq<Seq<char>>,
    lock: Option<Seq<char>>,
) -> Seq<char> {
    if appenders.len() == 0 {
        "backing directory "@ + dir + " is already in use by another timberfs process"@ + (
        match lock {
            Some(s) => " ("@ + joined(words(s), ", "@) + ")"@,
            None => ""@,
        })
    } else {
        "backing directory "@ + dir + " has active appender(s) on: "@ + joined(appenders, ", "@)
            + " — stop them before mounting"@
    }
}

/// Why a directory cannot be mounted.
pub fn in_use_message(dir: &str, appenders: &Vec<String>, lock: Option<&str>) -> (r: String)
    ensures
        r@ == in_use_said(dir@, texts(appenders@), opt_str(lock)),
{
    proof {
        assert(texts(appenders@).len() == appenders@.len());
    }
    if appenders.len() == 0 {
        let held = match lock {
            Some(s) => {
                let cs = chars_of(s);
                let ws = words_of(cs.as_slice());
                text(" (").concat(join(&ws, ", ").as_str()).concat(")")
            },
            None => text(""),
        };
        text("backing directory ").concat(dir).concat(
            " is already in use by another timberfs process",
        ).concat(held.as_str())
    } else {
        text("backing directory ").concat(dir).concat(" has active appender(s) on: ").concat(
            join(appenders, ", ").as_str(),
        ).concat(" — stop them before mounting")
    }
}

/// What a mount writes into its lock: where it is mounted, and by which
/// process, so that requests can be routed through it.
pub fn lock_info(mountpoint: &str, pid: u32) -> (r: String)
    ensures
        r@ == "mountpoint="@ + mountpoint@ + "\npid="@ + decimal(pid as nat) + "\n"@,
{
    text("mountpoint=").concat(mountpoint).concat("\npid=").concat(
        number_text(pid as u64).as_str(),
    ).concat("\n")
}

// --------------------------------------------------------------------- laws

/// A file keeps its number when it is renamed, and no other file changes.
pub proof fn a_renamed_file_keeps_its_number(
    v: Seq<InodeModel>,
    old_name: Seq<char>,
    new_name: Seq<char>,
    next: u64,
    i: int,
)
    requires
        sound(v, next),
        0 <= i < v.len(),
        old_name != new_name,
        v[i].name != new_name,
    ensures
        exists|j: int|
            0 <= j < renamed(v, old_name, new_name).len() && (#[trigger] renamed(
                v,
                old_name,
                new_name,
            )[j]).ino == v[i].ino && renamed(v, old_name, new_name)[j].name == (if v[i].name
                == old_name {
                new_name
            } else {
                v[i].name
            }),
{
    let rest = without(v, new_name);
    let w = renamed(v, old_name, new_name);
    lemma_named(v, new_name, 0);
    lemma_without_sound(v, new_name, next);
    lemma_named(rest, old_name, 0);
    let m = named(v, new_name, 0);
    let j = if m < v.len() && i > m { i - 1 } else { i };
    assert(rest[j] == v[i]);
    let k = named(rest, old_name, 0);
    if k < rest.len() && v[i].name == old_name && j != k {
        // Two files of one name.
        if j < k {
            assert(rest[j].name != rest[k].name);
        } else {
            assert(rest[k].name != rest[j].name);
        }
    }
    assert(w[j].ino == v[i].ino);
}

/// What is done to the files of the directory.
pub enum InodeOp {
    Assign(Seq<char>),
    Remove(Seq<char>),
    Rename(Seq<char>, Seq<char>),
}

/// The files of the directory, and the number that the next file gets.
pub struct Table {
    pub files: Seq<InodeModel>,
    pub next: int,
}

/// The number that is given out anew, where one is.
pub open spec fn given(t: Table, op: InodeOp) -> Option<int> {
    match op {
        InodeOp::Assign(name) => if named(t.files, name, 0) < t.files.len() {
            None
        } else {
            Some(t.next)
        },
        _ => None,
    }
}

/// The directory after something was done to it.
pub open spec fn table_after(t: Table, op: InodeOp) -> Table {
    match op {
        InodeOp::Assign(name) => match given(t, op) {
            Some(ino) => Table {
                files: t.files.push(InodeModel { ino: ino as u64, name }),
                next: ino + 1,
            },
            None => t,
        },
        InodeOp::Remove(name) => Table { files: without(t.files, name), ..t },
        InodeOp::Rename(from, to) => Table { files: renamed(t.files, from, to), ..t },
    }
}

/// The directory after all of a run was done to it.
pub open spec fn table_after_all(t: Table, ops: Seq<InodeOp>) -> Table
    decreases ops.len(),
{
    if ops.len() == 0 {
        t
    } else {
        table_after(table_after_all(t, ops.drop_last()), ops.last())
    }
}

proof fn lemma_next_grows(t: Table, ops: Seq<InodeOp>, i: int, j: int)
    requires
        0 <= i <= j <= ops.len(),
    ensures
        table_after_all(t, ops.take(i)).next <= table_after_all(t, ops.take(j)).next,
    decreases j,
{
    if i < j {
        lemma_next_grows(t, ops, i, j - 1);
        assert(ops.take(j).drop_last() =~= ops.take(j - 1));
    }
}

/// A number is never given twice: whatever is done to the directory between,
/// and whether or not the file that had a number is still there, a number that
/// is given out anew was not given out before, and no file had it to begin
/// with.
pub proof fn a_number_is_never_given_twice(t: Table, ops: Seq<InodeOp>, i: int, j: int)
    requires
        0 <= t.next <= u64::MAX,
        sound(t.files, t.next as u64),
        0 <= i < j < ops.len(),
        given(table_after_all(t, ops.take(j)), ops[j]) is Some,
    ensures
        given(table_after_all(t, ops.take(i)), ops[i]) != given(
            table_after_all(t, ops.take(j)),
            ops[j],
        ),
        forall|k: int|
            0 <= k < t.files.len() ==> (#[trigger] t.files[k]).ino != given(
                table_after_all(t, ops.take(j)),
                ops[j],
            )->Some_0,
{
    assert(ops.take(i + 1).drop_last() =~= ops.take(i));
    lemma_next_grows(t, ops, i + 1, j);
    assert(ops.take(0) =~= Seq::empty());
    lemma_next_grows(t, ops, 0, j);
}

/// Nothing but the end of a file is written to, whatever offset is asked for.
pub proof fn files_only_grow(append: bool, offset: i64, size: u64)
    ensures
        !append && offset != size ==> write_allowed(append, offset, size) is Err,
        write_allowed(append, offset, size) is Ok ==> append || offset == size,
{
}

/// A listing shows every file once, in the order of their names.
pub proof fn a_listing_is_in_order(v: Seq<InodeModel>, listing: Seq<DirEntry>)
    requires
        is_listing(v, listing),
    ensures
        listing.len() == v.len() + 2,
        ranked(ranks_of(listing.skip(2))),
{
    let files = choose|files: Seq<DirEntry>|
        entry_models(files) == file_entries(v) && listing.len() == 2 + files.len()
            && listing.skip(2) == #[trigger] in_rank(files);
    lemma_in_rank(files);
    assert(entry_models(files).len() == v.len());
}

} // verus!
