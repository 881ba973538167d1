//! Backups: their manifests, and the checks a restore makes before it trusts a backup.
//!
//! A restore reads a completed backup only. Where checksums are to be verified, every
//! data file must be there, with the recorded size and SHA-256, and the checksum of the
//! whole manifest (over the files sorted by path) must match the recorded one.
use vstd::prelude::*;
use vstd::bytes::{spec_u64_to_le_bytes, u64_to_le_bytes};
use vstd::utf8::encode_utf8;
use vstd::string::StringExecFns;
use crate::error::Error;
use crate::text::{decimal, decimal_string, hex_lower, lowercase, lowercase_of, to_hex};
use crate::utils::{append_bytes, trim, trim_chars};
use sha2::Digest;

verus! {

/// What a backup holds.
#[derive(Debug, Clone, Copy, PartialEq, Eq, Structural)]
pub enum BackupType {
    /// A complete snapshot.
    Full,
    /// The changes since the previous backup.
    Incremental,
}

impl BackupType {
    /// The type's name in backup ids: `full` or `incremental`.
    pub fn as_str(self) -> (r: &'static str)
        ensures
            r@ == backup_type_name(self),
    {
        proof {
            reveal_strlit("full");
            reveal_strlit("incremental");
        }
        match self {
            BackupType::Full => "full",
            BackupType::Incremental => "incremental",
        }
    }
}

/// The name of a backup type in backup ids.
pub open spec fn backup_type_name(t: BackupType) -> Seq<char> {
    match t {
        BackupType::Full => "full"@,
        BackupType::Incremental => "incremental"@,
    }
}

/// Where a backup stands.
#[derive(Debug, Clone, Copy, PartialEq, Eq, Structural)]
pub enum BackupStatus {
    InProgress,
    Completed,
    Failed,
    Cancelled,
}

/// The name of a status as `{:?}` prints it.
pub open spec fn status_name(s: BackupStatus) -> Seq<char> {
    match s {
        BackupStatus::InProgress => "InProgress"@,
        BackupStatus::Completed => "Completed"@,
        BackupStatus::Failed => "Failed"@,
        BackupStatus::Cancelled => "Cancelled"@,
    }
}

impl BackupStatus {
    /// The status's name as `{:?}` prints it.
    pub fn debug_name(&self) -> (r: String)
        ensures
            r@ == status_name(*self),
    {
        match self {
            BackupStatus::InProgress => String::from_str("InProgress"),
            BackupStatus::Completed => String::from_str("Completed"),
            BackupStatus::Failed => String::from_str("Failed"),
            BackupStatus::Cancelled => String::from_str("Cancelled"),
        }
    }
}

/// One file of a backup.
#[derive(Debug)]
pub struct BackupFile {
    /// Path relative to the backup's directory.
    pub path: String,
    pub size: u64,
    /// SHA-256 of the file, in hexadecimal.
    pub checksum: String,
    pub encrypted: bool,
    pub compressed: bool,
}

/// The value of a backup file record.
pub struct BackupFileView {
    pub path: Seq<char>,
    pub size: u64,
    pub checksum: Seq<char>,
    pub encrypted: bool,
    pub compressed: bool,
}

impl BackupFile {
    /// The value of this record.
    pub open spec fn view(&self) -> BackupFileView {
        BackupFileView {
            path: self.path@,
            size: self.size,
            checksum: self.checksum@,
            encrypted: self.encrypted,
            compressed: self.compressed,
        }
    }

    /// A copy of this record.
    pub fn duplicate(&self) -> (r: BackupFile)
        ensures
            r.view() == self.view(),
    {
        BackupFile {
            path: self.path.clone(),
            size: self.size,
            checksum: self.checksum.clone(),
            encrypted: self.encrypted,
            compressed: self.compressed,
        }
    }
}

/// Where backups go.
#[derive(Debug)]
pub enum BackupDestination {
    Local { path: String },
    S3 { bucket: String, prefix: Option<String>, endpoint: Option<String>, region: Option<String> },
}

/// How a backup is made.
#[derive(Debug)]
pub struct BackupConfig {
    pub destination: BackupDestination,
    pub compress: bool,
    pub encrypt: bool,
    pub encryption_key: Option<String>,
    pub include_wal: bool,
    pub parallel_workers: usize,
    /// Chunk size of data files, bytes.
    pub chunk_size: usize,
}

impl Default for BackupConfig {
    /// Local backups under `./backups`, compressed, not encrypted, WAL included, four
    /// workers, 64 MiB chunks.
    fn default() -> (r: Self)
        ensures
            r.destination matches BackupDestination::Local { path } && path@ == "./backups"@,
            r.compress,
            !r.encrypt,
            r.encryption_key is None,
            r.include_wal,
            r.parallel_workers == 4,
            r.chunk_size == 67_108_864,
    {
        BackupConfig {
            destination: BackupDestination::Local { path: String::from_str("./backups") },
            compress: true,
            encrypt: false,
            encryption_key: None,
            include_wal: true,
            parallel_workers: 4,
            chunk_size: 67_108_864,
        }
    }
}

/// The id of a backup of type `t` started at `stamp` (`YYYYmmdd-HHMMSS`):
/// `backup-<type>-<stamp>`.
pub open spec fn backup_id(t: BackupType, stamp: Seq<char>) -> Seq<char> {
    "backup-"@ + backup_type_name(t) + "-"@ + stamp
}

/// The id of a backup of type `t` started at `stamp`.
pub fn make_backup_id(t: BackupType, stamp: &str) -> (r: String)
    ensures
        r@ == backup_id(t, stamp@),
{
    let mut s = String::from_str("backup-");
    s.append(t.as_str());
    s.append("-");
    s.append(stamp);
    s
}

/// The id of a restore started at `stamp`: `restore-<stamp>`.
pub fn make_restore_id(stamp: &str) -> (r: String)
    ensures
        r@ == "restore-"@ + stamp@,
{
    let mut s = String::from_str("restore-");
    s.append(stamp);
    s
}

/// Why a restore may not start, as the message of its error; `None` if it may.
pub open spec fn precheck_refusal(status: BackupStatus, verify_checksums: bool, files: int) -> Option<Seq<char>> {
    if status != BackupStatus::Completed {
        Some("Cannot restore from backup with status "@ + status_name(status))
    } else if verify_checksums && files == 0 {
        Some("Backup manifest has no data_files to verify"@)
    } else {
        None
    }
}

/// What is wrong with a restored file, as found on disk.
pub enum FileProblem {
    /// The file is missing; the message.
    Missing(Seq<char>),
    /// The file has another size; the message.
    WrongSize(Seq<char>),
    /// The checksums differ; the recorded and the found one, in lowercase.
    Mismatch(Seq<char>, Seq<char>),
}

/// What is wrong with the restored file `f`, found to exist or not, with size `size` and
/// checksum `checksum`; `None` if nothing is.
pub open spec fn file_problem(f: BackupFileView, exists: bool, size: u64, checksum: Seq<char>) -> Option<FileProblem> {
    if !exists {
        Some(FileProblem::Missing("Backup file missing: "@ + f.path))
    } else if size != f.size {
        Some(FileProblem::WrongSize("File size mismatch for "@ + f.path + ": expected "@ + decimal(f.size as nat)
            + ", got "@ + decimal(size as nat)))
    } else if lowercase_of(f.checksum) != lowercase_of(checksum) {
        Some(FileProblem::Mismatch(lowercase_of(f.checksum), lowercase_of(checksum)))
    } else {
        None
    }
}

/// Whether `e` is the error that reports `p`.
pub open spec fn is_file_error(e: Error, p: FileProblem) -> bool {
    match p {
        FileProblem::Missing(m) => e matches Error::NotFound(x) && x@ == m,
        FileProblem::WrongSize(m) => e matches Error::Corrupted(x) && x@ == m,
        FileProblem::Mismatch(a, b) => e matches Error::ChecksumMismatch { expected, actual } && expected@ == a && actual@ == b,
    }
}

/// What was found on disk for each file: whether it exists, its size, its checksum.
pub open spec fn found_view(found: Seq<(bool, u64, String)>) -> Seq<(bool, u64, Seq<char>)> {
    found.map_values(|x: (bool, u64, String)| (x.0, x.1, x.2@))
}

/// The first problem among the files from position `i` on, in order.
pub open spec fn first_problem_from(fs: Seq<BackupFileView>, found: Seq<(bool, u64, Seq<char>)>, i: int) -> Option<FileProblem>
    decreases fs.len() - i,
{
    if i < 0 || i >= fs.len() {
        None
    } else {
        match file_problem(fs[i], found[i].0, found[i].1, found[i].2) {
            Some(p) => Some(p),
            None => first_problem_from(fs, found, i + 1),
        }
    }
}

/// The records of the files with the checksums found.
pub open spec fn restored_files(fs: Seq<BackupFileView>, found: Seq<(bool, u64, Seq<char>)>) -> Seq<BackupFileView> {
    Seq::new(fs.len(), |i: int| BackupFileView { checksum: found[i].2, ..fs[i] })
}

/// What comparing a recorded manifest checksum with that of `files` gives: `None` where
/// they match (or nothing is recorded), else the recorded and the computed one in
/// lowercase.
pub open spec fn manifest_mismatch(recorded: Seq<char>, files: Seq<BackupFileView>) -> Option<(Seq<char>, Seq<char>)> {
    if trim(recorded).len() == 0 {
        None
    } else if lowercase_of(recorded) == lowercase_of(manifest_checksum(files)) {
        None
    } else {
        Some((lowercase_of(recorded), lowercase_of(manifest_checksum(files))))
    }
}

proof fn lemma_first_problem_skip(fs: Seq<BackupFileView>, found: Seq<(bool, u64, Seq<char>)>, i: int)
    requires
        0 <= i <= fs.len(),
        found.len() == fs.len(),
        forall|j: int| 0 <= j < i ==> file_problem(fs[j], found[j].0, found[j].1, found[j].2) is None,
    ensures
        first_problem_from(fs, found, 0) == first_problem_from(fs, found, i),
    decreases i,
{
    if i > 0 {
        lemma_first_problem_skip(fs, found, i - 1);
        assert(file_problem(fs[i - 1], found[i - 1].0, found[i - 1].1, found[i - 1].2) is None);
    }
}

/// Whether a restore may start from a backup with this status and these files: the
/// backup must be completed, and, where checksums are verified, list some files.
pub fn restore_precheck(status: BackupStatus, verify_checksums: bool, files: usize) -> (r: Result<(), Error>)
    ensures
        status != BackupStatus::Completed ==> (r matches Err(Error::Other(m))
            && m@ == "Cannot restore from backup with status "@ + status_name(status)),
        status == BackupStatus::Completed && verify_checksums && files == 0 ==> (r matches Err(Error::Other(m))
            && m@ == "Backup manifest has no data_files to verify"@),
        status == BackupStatus::Completed && !(verify_checksums && files == 0) ==> r is Ok,
        match precheck_refusal(status, verify_checksums, files as int) {
            Some(m) => r matches Err(Error::Other(x)) && x@ == m,
            None => r is Ok,
        },
{
    if status != BackupStatus::Completed {
        let mut m = String::from_str("Cannot restore from backup with status ");
        let name = status.debug_name();
        m.append(name.as_str());
        return Err(Error::Other(m));
    }
    if verify_checksums && files == 0 {
        return Err(Error::Other(String::from_str("Backup manifest has no data_files to verify")));
    }
    Ok(())
}

/// What checking a restored file finds, in order: it must exist, have the recorded size,
/// and its SHA-256 must match the recorded one without regard to case. Gives the file's
/// record with the checksum found.
pub fn check_restored_file(file: &BackupFile, exists: bool, actual_size: u64, actual_checksum: &str) -> (r: Result<BackupFile, Error>)
    ensures
        !exists ==> (r matches Err(Error::NotFound(m)) && m@ == "Backup file missing: "@ + file.path@),
        exists && actual_size != file.size ==> (r matches Err(Error::Corrupted(m))
            && m@ == "File size mismatch for "@ + file.path@ + ": expected "@ + decimal(file.size as nat)
                + ", got "@ + decimal(actual_size as nat)),
        exists && actual_size == file.size && lowercase_of(file.checksum@) != lowercase_of(actual_checksum@) ==>
            (r matches Err(Error::ChecksumMismatch { expected, actual })
                && expected@ == lowercase_of(file.checksum@) && actual@ == lowercase_of(actual_checksum@)),
        exists && actual_size == file.size && lowercase_of(file.checksum@) == lowercase_of(actual_checksum@) ==>
            (r matches Ok(v) && v.view() == BackupFileView { checksum: actual_checksum@, ..file.view() }),
        match file_problem(file.view(), exists, actual_size, actual_checksum@) {
            Some(p) => r matches Err(e) && is_file_error(e, p),
            None => r matches Ok(v) && v.view() == BackupFileView { checksum: actual_checksum@, ..file.view() },
        },
{
    if !exists {
        let mut m = String::from_str("Backup file missing: ");
        m.append(file.path.as_str());
        return Err(Error::NotFound(m));
    }
    if actual_size != file.size {
        let mut m = String::from_str("File size mismatch for ");
        m.append(file.path.as_str());
        m.append(": expected ");
        let e = decimal_string(file.size);
        m.append(e.as_str());
        m.append(", got ");
        let a = decimal_string(actual_size);
        m.append(a.as_str());
        return Err(Error::Corrupted(m));
    }
    let expected = lowercase(file.checksum.as_str());
    let actual = lowercase(actual_checksum);
    if expected != actual {
        return Err(Error::ChecksumMismatch { expected, actual });
    }
    Ok(BackupFile {
        path: file.path.clone(),
        size: file.size,
        checksum: actual_checksum.to_string(),
        encrypted: file.encrypted,
        compressed: file.compressed,
    })
}

/// Whether the bytes `a` come before or equal `b` in lexicographic order.
pub open spec fn bytes_le(a: Seq<u8>, b: Seq<u8>) -> bool
    decreases a.len(),
{
    if a.len() == 0 {
        true
    } else if b.len() == 0 {
        false
    } else if a[0] != b[0] {
        a[0] < b[0]
    } else {
        bytes_le(a.drop_first(), b.drop_first())
    }
}

/// Whether path `a` sorts before or with path `b` (`String` order: by UTF-8 bytes).
pub open spec fn path_le(a: Seq<char>, b: Seq<char>) -> bool {
    bytes_le(encode_utf8(a), encode_utf8(b))
}

/// `files` with `f` inserted after every file whose path sorts before or with its own.
pub open spec fn insert_by_path(files: Seq<BackupFileView>, f: BackupFileView) -> Seq<BackupFileView>
    decreases files.len(),
{
    if files.len() == 0 {
        seq![f]
    } else if path_le(files.last().path, f.path) {
        files.push(f)
    } else {
        insert_by_path(files.drop_last(), f).push(files.last())
    }
}

/// The files sorted by path, files with equal paths kept in their order (a stable sort).
pub open spec fn sorted_by_path(files: Seq<BackupFileView>) -> Seq<BackupFileView>
    decreases files.len(),
{
    if files.len() == 0 {
        Seq::empty()
    } else {
        insert_by_path(sorted_by_path(files.drop_last()), files.last())
    }
}

/// The bytes that stand for one file in the manifest checksum: the path's length
/// (8 bytes) and UTF-8 bytes, the size (8 bytes), the encrypted and compressed flags (a
/// byte each), and the checksum's UTF-8 bytes.
pub open spec fn manifest_file_bytes(f: BackupFileView) -> Seq<u8> {
    spec_u64_to_le_bytes(encode_utf8(f.path).len() as u64) + encode_utf8(f.path) + spec_u64_to_le_bytes(f.size)
        + seq![if f.encrypted { 1u8 } else { 0u8 }] + seq![if f.compressed { 1u8 } else { 0u8 }]
        + encode_utf8(f.checksum)
}

/// The bytes of the files, one after the other.
pub open spec fn manifest_bytes(files: Seq<BackupFileView>) -> Seq<u8>
    decreases files.len(),
{
    if files.len() == 0 {
        Seq::empty()
    } else {
        manifest_bytes(files.drop_last()) + manifest_file_bytes(files.last())
    }
}

/// The checksum of a manifest's files: the SHA-256, in lowercase hexadecimal, of the
/// files' bytes sorted by path.
pub open spec fn manifest_checksum(files: Seq<BackupFileView>) -> Seq<char> {
    hex_lower(sha256_digest(manifest_bytes(sorted_by_path(files))))
}

/// The SHA-256 digest of `data`.
pub uninterp spec fn sha256_digest(data: Seq<u8>) -> Seq<u8>;

/// `Sha256::digest(data)`: the SHA-256 digest of the whole buffer, 32 bytes. The manifest
/// checksum hashes its bytes gathered into one buffer.
#[verifier::external_body]
fn sha256(data: &[u8]) -> (r: Vec<u8>)
    ensures
        r@ == sha256_digest(data@),
        r@.len() == 32,
{
    sha2::Sha256::digest(data).to_vec()
}

/// A SHA-256 computation over data given in pieces. It keeps the pieces and hashes them
/// in one pass when asked for the digest.
pub struct Sha256Hasher {
    absorbed: Vec<u8>,
}

impl Sha256Hasher {
    /// The data absorbed so far.
    pub closed spec fn data(&self) -> Seq<u8> {
        self.absorbed@
    }

    /// A hasher that has absorbed nothing.
    pub fn new() -> (r: Sha256Hasher)
        ensures
            r.data() == Seq::<u8>::empty(),
    {
        Sha256Hasher { absorbed: Vec::new() }
    }

    /// Absorbs `data`.
    pub fn update(&mut self, data: &[u8])
        ensures
            final(self).data() == old(self).data() + data@,
    {
        append_bytes(&mut self.absorbed, data)
    }

    /// The number of bytes absorbed.
    pub fn len(&self) -> (r: usize)
        ensures
            r == self.data().len(),
    {
        self.absorbed.len()
    }

    /// The SHA-256 of everything absorbed, in lowercase hexadecimal.
    pub fn finalize(&self) -> (r: String)
        ensures
            r@ == hex_lower(sha256_digest(self.data())),
    {
        let digest = sha256(self.absorbed.as_slice());
        to_hex(digest.as_slice())
    }
}

/// The view of each file record.
pub open spec fn files_view(files: Seq<BackupFile>) -> Seq<BackupFileView> {
    files.map_values(|f: BackupFile| f.view())
}

/// Whether the UTF-8 bytes of `a` sort before or with those of `b`.
fn path_le_exec(a: &String, b: &String) -> (r: bool)
    ensures
        r == path_le(a@, b@),
{
    let x = a.as_str().as_bytes();
    let y = b.as_str().as_bytes();
    let mut i: usize = 0;
    proof {
        assert(x@ == encode_utf8(a@));
        assert(y@ == encode_utf8(b@));
        assert(x@.subrange(0, x@.len() as int) =~= x@);
        assert(y@.subrange(0, y@.len() as int) =~= y@);
    }
    while i < x.len() && i < y.len()
        invariant
            i <= x@.len(),
            i <= y@.len(),
            x@.subrange(0, i as int) == y@.subrange(0, i as int),
            x@ == encode_utf8(a@),
            y@ == encode_utf8(b@),
            bytes_le(x@, y@) == bytes_le(x@.subrange(i as int, x@.len() as int), y@.subrange(i as int, y@.len() as int)),
        decreases x@.len() - i,
    {
        let ghost xs = x@.subrange(i as int, x@.len() as int);
        let ghost ys = y@.subrange(i as int, y@.len() as int);
        if x[i] != y[i] {
            proof {
                assert(xs[0] == x@[i as int] && ys[0] == y@[i as int]);
                assert(bytes_le(xs, ys) == (xs[0] < ys[0]));
            }
            return x[i] < y[i];
        }
        proof {
            assert(xs.drop_first() =~= x@.subrange(i + 1, x@.len() as int));
            assert(ys.drop_first() =~= y@.subrange(i + 1, y@.len() as int));
            assert(x@.subrange(0, i + 1) =~= x@.subrange(0, i as int).push(x@[i as int]));
            assert(y@.subrange(0, i + 1) =~= y@.subrange(0, i as int).push(y@[i as int]));
        }
        i = i + 1;
    }
    proof {
        let xs = x@.subrange(i as int, x@.len() as int);
        let ys = y@.subrange(i as int, y@.len() as int);
        if i == x@.len() {
            assert(xs.len() == 0);
        } else {
            assert(ys.len() == 0 && xs.len() > 0);
        }
    }
    i == x.len()
}

/// The files sorted by path, stably.
pub fn sort_files_by_path(files: &Vec<BackupFile>) -> (r: Vec<BackupFile>)
    ensures
        files_view(r@) == sorted_by_path(files_view(files@)),
{
    let ghost fv = files_view(files@);
    let mut out: Vec<BackupFile> = Vec::new();
    let mut i: usize = 0;
    while i < files.len()
        invariant
            fv == files_view(files@),
            i <= files@.len(),
            files_view(out@) == sorted_by_path(fv.take(i as int)),
        decreases files@.len() - i,
    {
        let f = files[i].duplicate();
        proof {
            assert(fv.take(i as int + 1).drop_last() =~= fv.take(i as int));
            assert(fv.take(i as int + 1).last() == f.view());
        }
        insert_file(&mut out, f);
        i = i + 1;
    }
    proof { assert(fv.take(i as int) =~= fv); }
    out
}

/// Inserts `f` after every file whose path sorts before or with its own.
fn insert_file(out: &mut Vec<BackupFile>, f: BackupFile)
    ensures
        files_view(final(out)@) == insert_by_path(files_view(old(out)@), f.view()),
{
    let mut k: usize = out.len();
    let ghost fv = f.view();
    proof {
        assert(files_view(out@).take(k as int) =~= files_view(out@));
        assert(files_view(out@).skip(k as int) =~= Seq::<BackupFileView>::empty());
        assert(insert_by_path(files_view(out@), fv) + Seq::<BackupFileView>::empty() =~= insert_by_path(files_view(out@), fv));
    }
    while k > 0
        invariant
            out@ == old(out)@,
            fv == f.view(),
            k <= out@.len(),
            insert_by_path(files_view(out@), fv) == insert_by_path(files_view(out@).take(k as int), fv) + files_view(out@).skip(k as int),
        ensures
            out@ == old(out)@,
            k <= out@.len(),
            insert_by_path(files_view(out@), fv) == insert_by_path(files_view(out@).take(k as int), fv) + files_view(out@).skip(k as int),
            k > 0 ==> path_le(files_view(out@)[k - 1].path, fv.path),
        decreases k,
    {
        if path_le_exec(&out[k - 1].path, &f.path) {
            proof { assert(files_view(out@)[k - 1] == out@[k - 1].view()); }
            break;
        }
        proof {
            assert(files_view(out@)[k - 1] == out@[k - 1].view());
            let t = files_view(out@).take(k as int);
            assert(t.drop_last() =~= files_view(out@).take(k - 1));
            assert(t.last() == files_view(out@)[k - 1]);
            assert(files_view(out@).skip(k - 1) =~= seq![files_view(out@)[k - 1]] + files_view(out@).skip(k as int));
            assert(insert_by_path(t, fv) == insert_by_path(t.drop_last(), fv).push(t.last()));
            assert(insert_by_path(t.drop_last(), fv).push(t.last()) + files_view(out@).skip(k as int)
                =~= insert_by_path(t.drop_last(), fv) + files_view(out@).skip(k - 1));
        }
        k = k - 1;
    }
    let ghost before = files_view(out@);
    proof {
        let t = before.take(k as int);
        if k > 0 {
            assert(t.last() == before[k - 1]);
            assert(insert_by_path(t, fv) == t.push(fv));
        } else {
            assert(insert_by_path(t, fv) == seq![fv]);
            assert(t =~= Seq::<BackupFileView>::empty());
        }
    }
    out.insert(k, f);
    proof {
        assert(files_view(out@) =~= before.take(k as int).push(fv) + before.skip(k as int));
    }
}

/// The checksum of a manifest's files (SHA-256 of their bytes sorted by path, in
/// lowercase hexadecimal).
pub fn compute_manifest_checksum(files: &Vec<BackupFile>) -> (r: String)
    requires
        forall|i: int| 0 <= i < files@.len() ==> encode_utf8((#[trigger] files@[i]).path@).len() <= u64::MAX,
    ensures
        r@ == manifest_checksum(files_view(files@)),
{
    let sorted = sort_files_by_path(files);
    let ghost sv = files_view(sorted@);
    let mut bytes: Vec<u8> = Vec::new();
    let mut i: usize = 0;
    while i < sorted.len()
        invariant
            sv == files_view(sorted@),
            i <= sorted@.len(),
            bytes@ == manifest_bytes(sv.take(i as int)),
        decreases sorted@.len() - i,
    {
        let f = &sorted[i];
        let p = f.path.as_str().as_bytes();
        let plen = u64_to_le_bytes(p.len() as u64);
        append_bytes(&mut bytes, plen.as_slice());
        append_bytes(&mut bytes, p);
        let size = u64_to_le_bytes(f.size);
        append_bytes(&mut bytes, size.as_slice());
        bytes.push(if f.encrypted { 1u8 } else { 0u8 });
        bytes.push(if f.compressed { 1u8 } else { 0u8 });
        append_bytes(&mut bytes, f.checksum.as_str().as_bytes());
        proof {
            assert(sv.take(i as int + 1).drop_last() =~= sv.take(i as int));
            assert(sv.take(i as int + 1).last() == f.view());
            assert(bytes@ =~= manifest_bytes(sv.take(i as int)) + manifest_file_bytes(f.view()));
        }
        i = i + 1;
    }
    proof { assert(sv.take(i as int) =~= sv); }
    let digest = sha256(bytes.as_slice());
    to_hex(digest.as_slice())
}

/// Whether the checksum recorded in a manifest matches its verified files: a blank
/// recorded checksum is not checked; else the two must match without regard to case.
pub fn check_manifest_checksum(recorded: &str, verified: &Vec<BackupFile>) -> (r: Result<(), Error>)
    requires
        forall|i: int| 0 <= i < verified@.len() ==> encode_utf8((#[trigger] verified@[i]).path@).len() <= u64::MAX,
    ensures
        match manifest_mismatch(recorded@, files_view(verified@)) {
            None => r is Ok,
            Some((e, a)) => r matches Err(Error::ChecksumMismatch { expected: x, actual: y }) && x@ == e && y@ == a,
        },
        trim(recorded@).len() == 0 ==> r is Ok,
        trim(recorded@).len() != 0 ==> ({
            let expected = lowercase_of(recorded@);
            let actual = lowercase_of(manifest_checksum(files_view(verified@)));
            if expected == actual {
                r is Ok
            } else {
                r matches Err(Error::ChecksumMismatch { expected: e, actual: a }) && e@ == expected && a@ == actual
            }
        }),
{
    let cs = crate::text::chars_of(recorded);
    let trimmed = trim_chars(&cs);
    if trimmed.len() == 0 {
        return Ok(());
    }
    let computed = compute_manifest_checksum(verified);
    let expected = lowercase(recorded);
    let actual = lowercase(computed.as_str());
    if expected != actual {
        return Err(Error::ChecksumMismatch { expected, actual });
    }
    Ok(())
}


/// The checks of a restore, given what was found on disk for each recorded file (whether
/// it exists, its size and its SHA-256 in hexadecimal): the backup must be completed (and
/// list files where checksums are verified); then, where checksums are verified, each file
/// in order must exist with its recorded size and checksum, and the manifest checksum must
/// match that of the files with the checksums found.
pub fn verify_restore(
    status: BackupStatus,
    verify: bool,
    recorded: &str,
    files: &Vec<BackupFile>,
    found: &Vec<(bool, u64, String)>,
) -> (r: Result<(), Error>)
    requires
        found@.len() == files@.len(),
        forall|i: int| 0 <= i < files@.len() ==> encode_utf8((#[trigger] files@[i]).path@).len() <= u64::MAX,
    ensures
        match precheck_refusal(status, verify, files@.len() as int) {
            Some(m) => r matches Err(Error::Other(x)) && x@ == m,
            None => if !verify {
                r is Ok
            } else {
                match first_problem_from(files_view(files@), found_view(found@), 0) {
                    Some(p) => r matches Err(e) && is_file_error(e, p),
                    None => match manifest_mismatch(recorded@, restored_files(files_view(files@), found_view(found@))) {
                        None => r is Ok,
                        Some((e, a)) => r matches Err(Error::ChecksumMismatch { expected: x, actual: y }) && x@ == e && y@ == a,
                    },
                }
            },
        },
{
    match restore_precheck(status, verify, files.len()) {
        Err(e) => { return Err(e); },
        Ok(()) => {},
    }
    if !verify {
        return Ok(());
    }
    let ghost fs = files_view(files@);
    let ghost fd = found_view(found@);
    let mut verified: Vec<BackupFile> = Vec::new();
    let mut i: usize = 0;
    while i < files.len()
        invariant
            precheck_refusal(status, verify, files@.len() as int) is None,
            verify,
            fs == files_view(files@),
            fd == found_view(found@),
            found@.len() == files@.len(),
            i <= files@.len(),
            forall|j: int| 0 <= j < i ==> file_problem(fs[j], fd[j].0, fd[j].1, fd[j].2) is None,
            files_view(verified@) == restored_files(fs, fd).take(i as int),
            forall|j: int| 0 <= j < verified@.len() ==> #[trigger] verified@[j].path@ == files@[j].path@,
        decreases files@.len() - i,
    {
        let (exists, size, checksum) = &found[i];
        proof {
            assert(fs[i as int] == files@[i as int].view());
            assert(fd[i as int] == (*exists, *size, checksum@));
        }
        match check_restored_file(&files[i], *exists, *size, checksum.as_str()) {
            Err(e) => {
                proof {
                    lemma_first_problem_skip(fs, fd, i as int);
                    let p = file_problem(fs[i as int], fd[i as int].0, fd[i as int].1, fd[i as int].2);
                    assert(p is Some);
                    assert(first_problem_from(fs, fd, i as int) == p);
                    assert(is_file_error(e, p->Some_0));
                }
                return Err(e);
            },
            Ok(v) => {
                let ghost before = verified@;
                verified.push(v);
                proof {
                    assert(files_view(verified@) =~= files_view(before).push(v.view()));
                    assert(restored_files(fs, fd).take(i as int + 1) =~= restored_files(fs, fd).take(i as int).push(restored_files(fs, fd)[i as int]));
                }
            },
        }
        i = i + 1;
    }
    proof {
        lemma_first_problem_skip(fs, fd, i as int);
        assert(restored_files(fs, fd).take(i as int) =~= restored_files(fs, fd));
    }
    check_manifest_checksum(recorded, &verified)
}

/// The type of backup a request names: `incremental`, or else a full backup.
pub open spec fn backup_type_named(name: Seq<char>) -> BackupType {
    if name == "incremental"@ { BackupType::Incremental } else { BackupType::Full }
}

/// The type of backup a request names.
pub fn parse_backup_type(name: &str) -> (r: BackupType)
    ensures
        r == backup_type_named(name@),
{
    let n = name.to_string();
    let incremental = "incremental".to_string();
    if n == incremental { BackupType::Incremental } else { BackupType::Full }
}

} // verus!
